//! The EPUB container: which entries the archive holds, in which order, and which of them
//! are stored rather than compressed. Writing the zip itself is left to the caller.
use vstd::prelude::*;

use crate::ebook::render::{ImageView, PageView, Rendered, RenderedView};
use crate::text::push_str;

verus! {

/// Directory of the book's own documents inside the archive.
pub const CONTENT_DIR: &'static str = "OEBPS";

/// The first entry of every EPUB, stored uncompressed so readers can sniff it.
pub const MIMETYPE: &'static str = "application/epub+zip";

/// Points a reader at the package document.
pub const CONTAINER_XML: &'static str = "<?xml version=\"1.0\" encoding=\"utf-8\"?>
<container version=\"1.0\" xmlns=\"urn:oasis:names:tc:opendocument:xmlns:container\">
<rootfiles>
<rootfile full-path=\"OEBPS/content.opf\" media-type=\"application/oebps-package+xml\"/>
</rootfiles>
</container>
";

/// What an entry holds.
pub enum EntryData {
    Text(String),
    Bytes(Vec<u8>),
}

/// One file of the archive: its name, what it holds, and whether it is stored uncompressed.
pub struct ArchiveEntry {
    pub name: String,
    pub data: EntryData,
    pub stored: bool,
}

pub enum EntryDataView {
    Text(Seq<char>),
    Bytes(Seq<u8>),
}

pub struct ArchiveEntryView {
    pub name: Seq<char>,
    pub data: EntryDataView,
    pub stored: bool,
}

impl View for ArchiveEntry {
    type V = ArchiveEntryView;

    open spec fn view(&self) -> ArchiveEntryView {
        ArchiveEntryView {
            name: self.name@,
            data: match self.data {
                EntryData::Text(t) => EntryDataView::Text(t@),
                EntryData::Bytes(b) => EntryDataView::Bytes(b@),
            },
            stored: self.stored,
        }
    }
}

pub open spec fn entry_views(v: Seq<ArchiveEntry>) -> Seq<ArchiveEntryView> {
    v.map_values(|e: ArchiveEntry| e@)
}

/// `name` inside the content directory.
pub open spec fn in_content(name: Seq<char>) -> Seq<char> {
    CONTENT_DIR@ + "/"@ + name
}

pub open spec fn text_entry(name: Seq<char>, text: Seq<char>) -> ArchiveEntryView {
    ArchiveEntryView { name: in_content(name), data: EntryDataView::Text(text), stored: false }
}

/// The archive of a rendered book: the mimetype first and stored, the container document,
/// the package document, navigation, table of contents and stylesheet, every page in
/// reading order, all compressed; then every image, stored as it is.
pub open spec fn spec_entries(r: RenderedView) -> Seq<ArchiveEntryView> {
    seq![
        ArchiveEntryView { name: "mimetype"@, data: EntryDataView::Text(MIMETYPE@), stored: true },
        ArchiveEntryView { name: "META-INF/container.xml"@, data: EntryDataView::Text(CONTAINER_XML@), stored: false },
        text_entry("content.opf"@, r.opf),
        text_entry("nav.xhtml"@, r.nav),
        text_entry("toc.ncx"@, r.ncx),
        text_entry("style.css"@, r.stylesheet),
    ] + r.pages.map_values(|p: PageView| text_entry(p.path, p.content)) + r.images.map_values(
        |i: ImageView| ArchiveEntryView { name: in_content(i.path), data: EntryDataView::Bytes(i.bytes), stored: true },
    )
}

fn owned(s: &str) -> (r: String)
    ensures
        r@ == s@,
{
    let mut out = String::new();
    push_str(&mut out, s);
    proof {
        assert(out@ =~= s@);
    }
    out
}

fn content_name(name: &str) -> (r: String)
    ensures
        r@ == in_content(name@),
{
    let mut out = String::new();
    push_str(&mut out, CONTENT_DIR);
    push_str(&mut out, "/");
    push_str(&mut out, name);
    proof {
        assert(out@ =~= in_content(name@));
    }
    out
}

fn push_entry(out: &mut Vec<ArchiveEntry>, name: String, data: EntryData, stored: bool)
    ensures
        entry_views(final(out)@) == entry_views(old(out)@).push((ArchiveEntry { name, data, stored })@),
{
    let ghost v = (ArchiveEntry { name, data, stored })@;
    out.push(ArchiveEntry { name, data, stored });
    proof {
        assert(entry_views(final(out)@) =~= entry_views(old(out)@).push(v));
    }
}

/// The entries of the archive for `rendered`, in the order they are written.
pub fn archive_entries(rendered: &Rendered) -> (r: Vec<ArchiveEntry>)
    ensures
        entry_views(r@) == spec_entries(rendered@),
{
    let ghost rv = rendered@;
    let mut out: Vec<ArchiveEntry> = Vec::new();
    push_entry(&mut out, owned("mimetype"), EntryData::Text(owned(MIMETYPE)), true);
    push_entry(&mut out, owned("META-INF/container.xml"), EntryData::Text(owned(CONTAINER_XML)), false);
    push_entry(&mut out, content_name("content.opf"), EntryData::Text(rendered.opf.clone()), false);
    push_entry(&mut out, content_name("nav.xhtml"), EntryData::Text(rendered.nav.clone()), false);
    push_entry(&mut out, content_name("toc.ncx"), EntryData::Text(rendered.ncx.clone()), false);
    push_entry(&mut out, content_name("style.css"), EntryData::Text(rendered.stylesheet.clone()), false);
    let ghost head = entry_views(out@);
    proof {
        assert(head =~= spec_entries(rv).take(6));
    }
    let ghost pages = rv.pages.map_values(|p: PageView| text_entry(p.path, p.content));
    let mut i: usize = 0;
    while i < rendered.pages.len()
        invariant
            rv == rendered@,
            i <= rendered.pages.len(),
            pages == rv.pages.map_values(|p: PageView| text_entry(p.path, p.content)),
            entry_views(out@) == head + pages.take(i as int),
        decreases rendered.pages.len() - i,
    {
        let page = &rendered.pages[i];
        proof {
            assert(rv.pages[i as int] == page@);
        }
        push_entry(&mut out, content_name(page.path.as_str()), EntryData::Text(page.content.clone()), false);
        proof {
            assert(pages.take(i as int + 1) =~= pages.take(i as int).push(pages[i as int]));
            assert(entry_views(out@) =~= head + pages.take(i as int + 1));
        }
        i = i + 1;
    }
    proof {
        assert(pages.take(rendered.pages.len() as int) =~= pages);
    }
    let ghost with_pages = entry_views(out@);
    let ghost images = rv.images.map_values(
        |im: ImageView| ArchiveEntryView { name: in_content(im.path), data: EntryDataView::Bytes(im.bytes), stored: true },
    );
    let mut j: usize = 0;
    while j < rendered.images.len()
        invariant
            rv == rendered@,
            j <= rendered.images.len(),
            images == rv.images.map_values(
                |im: ImageView| ArchiveEntryView { name: in_content(im.path), data: EntryDataView::Bytes(im.bytes), stored: true },
            ),
            entry_views(out@) == with_pages + images.take(j as int),
        decreases rendered.images.len() - j,
    {
        let image = &rendered.images[j];
        proof {
            assert(rv.images[j as int] == image@);
        }
        let bytes = image.bytes.clone();
        proof {
            assert(bytes@ =~= image.bytes@);
        }
        push_entry(&mut out, content_name(image.path.as_str()), EntryData::Bytes(bytes), true);
        proof {
            assert(images.take(j as int + 1) =~= images.take(j as int).push(images[j as int]));
            assert(entry_views(out@) =~= with_pages + images.take(j as int + 1));
        }
        j = j + 1;
    }
    proof {
        assert(images.take(rendered.images.len() as int) =~= images);
        assert(entry_views(out@) =~= spec_entries(rv));
    }
    out
}

/// The archive opens with the mimetype, stored, and holds every page of the book under the
/// content directory, compressed.
pub proof fn lemma_mimetype_first_and_every_page_present(r: RenderedView, k: int)
    requires
        0 <= k < r.pages.len(),
    ensures
        spec_entries(r)[0].name == "mimetype"@,
        spec_entries(r)[0].stored,
        spec_entries(r).contains(text_entry(r.pages[k].path, r.pages[k].content)),
{
    let e = spec_entries(r);
    assert(e[6 + k] == text_entry(r.pages[k].path, r.pages[k].content));
}

} // verus!
