//! Render a [`Book`] into the XHTML documents, stylesheet and images an EPUB is made of.
//!
//! Nothing here touches the filesystem or the ZIP container: it takes a book model and the
//! image bytes already produced for it, and returns text and bytes. Every song is its own
//! XHTML document, so a lyric never shares a page with the previous one.
use vstd::prelude::*;
use vstd::string::StringSliceAdditionalSpecFns;

use crate::ebook::library::{
    album_lyric_total, book_albums, disc_lyric_total, disc_track_total, lyric_tracks, min_usize, AlbumView,
    ArtistView, Book, BookView, DiscView, LyricState, TrackView, Album, Artist, Track, Disc,
};
use crate::text::{chars_of, decimal, push_decimal, push_str, push_zero_padded, zero_padded};

verus! {

// ---------------------------------------------------------------------------------------
// The output model
// ---------------------------------------------------------------------------------------

/// A rendered XHTML document destined for the book.
pub struct Page {
    /// Path inside the EPUB's content directory, e.g. `song-0001.xhtml`.
    pub path: String,
    /// Manifest id, referenced by the spine.
    pub id: String,
    pub content: String,
}

/// A binary asset (album art or the cover collage) destined for the book.
pub struct Image {
    pub path: String,
    pub id: String,
    pub bytes: Vec<u8>,
}

/// Everything needed to write the container.
pub struct Rendered {
    /// Content documents, in spine (reading) order.
    pub pages: Vec<Page>,
    pub images: Vec<Image>,
    pub stylesheet: String,
    pub nav: String,
    pub ncx: String,
    pub opf: String,
    /// Manifest id of the cover image, when there is one.
    pub cover_id: Option<String>,
}

/// Book-level metadata supplied by the caller.
pub struct BookInfo {
    pub title: String,
    pub author: String,
}

pub struct PageView {
    pub path: Seq<char>,
    pub id: Seq<char>,
    pub content: Seq<char>,
}

pub struct ImageView {
    pub path: Seq<char>,
    pub id: Seq<char>,
    pub bytes: Seq<u8>,
}

impl View for Page {
    type V = PageView;

    open spec fn view(&self) -> PageView {
        PageView { path: self.path@, id: self.id@, content: self.content@ }
    }
}

impl View for Image {
    type V = ImageView;

    open spec fn view(&self) -> ImageView {
        ImageView { path: self.path@, id: self.id@, bytes: self.bytes@ }
    }
}

pub open spec fn page_views(v: Seq<Page>) -> Seq<PageView> {
    v.map_values(|p: Page| p@)
}

pub open spec fn image_views(v: Seq<Image>) -> Seq<ImageView> {
    v.map_values(|i: Image| i@)
}

// ---------------------------------------------------------------------------------------
// Escaping and identifiers
// ---------------------------------------------------------------------------------------

/// What one character becomes in XML character data or an attribute value.
pub open spec fn escape_char(c: char) -> Seq<char> {
    if c == '&' {
        "&amp;"@
    } else if c == '<' {
        "&lt;"@
    } else if c == '>' {
        "&gt;"@
    } else if c == '"' {
        "&quot;"@
    } else if c == '\'' {
        "&apos;"@
    } else {
        seq![c]
    }
}

/// Text escaped for XML: each of `& < > " '` replaced by its entity.
pub open spec fn esc(s: Seq<char>) -> Seq<char>
    decreases s.len(),
{
    if s.len() == 0 {
        seq![]
    } else {
        esc(s.drop_last()) + escape_char(s.last())
    }
}

/// The characters XML escaping replaces.
pub open spec fn is_markup_char(c: char) -> bool {
    c == '&' || c == '<' || c == '>' || c == '"' || c == '\''
}

proof fn lemma_escape_char_facts(c: char)
    ensures
        escape_char(c).len() >= 1,
        escape_char(c).len() == 1 <==> !is_markup_char(c),
        !is_markup_char(c) ==> escape_char(c) == seq![c],
        forall|k: int| 0 <= k < escape_char(c).len() ==> {
            let x = #[trigger] escape_char(c)[k];
            x != '<' && x != '>' && x != '"' && x != '\''
        },
{
    reveal_strlit("&amp;");
    reveal_strlit("&lt;");
    reveal_strlit("&gt;");
    reveal_strlit("&quot;");
    reveal_strlit("&apos;");
}

/// Escaped text holds no raw `<`, `>`, `"` or `'`, and escaping leaves a text unchanged
/// exactly when it holds none of `& < > " '`.
pub proof fn lemma_escape_xml_laws(s: Seq<char>)
    ensures
        forall|k: int| 0 <= k < esc(s).len() ==> {
            let x = #[trigger] esc(s)[k];
            x != '<' && x != '>' && x != '"' && x != '\''
        },
        esc(s) == s <==> forall|k: int| 0 <= k < s.len() ==> !is_markup_char(#[trigger] s[k]),
        esc(s).len() >= s.len(),
    decreases s.len(),
{
    if s.len() > 0 {
        let d = s.drop_last();
        let c = s.last();
        lemma_escape_xml_laws(d);
        lemma_escape_char_facts(c);
        let e = escape_char(c);
        assert forall|k: int| 0 <= k < esc(s).len() implies {
            let x = #[trigger] esc(s)[k];
            x != '<' && x != '>' && x != '"' && x != '\''
        } by {
            if k < esc(d).len() {
                assert(esc(s)[k] == esc(d)[k]);
            } else {
                assert(esc(s)[k] == e[k - esc(d).len()]);
            }
        }
        if forall|k: int| 0 <= k < s.len() ==> !is_markup_char(#[trigger] s[k]) {
            assert forall|k: int| 0 <= k < d.len() implies !is_markup_char(#[trigger] d[k]) by {
                assert(d[k] == s[k]);
            }
            assert(!is_markup_char(s[s.len() - 1]));
            assert(esc(s) =~= s);
        } else {
            let k = choose|k: int| 0 <= k < s.len() && is_markup_char(#[trigger] s[k]);
            if k < d.len() {
                assert(d[k] == s[k]);
                assert(esc(d) != d);
            }
            if esc(s) == s {
                if esc(d).len() == d.len() {
                    assert(e.len() == 1);
                    assert(esc(d) =~= esc(s).take(d.len() as int));
                    assert(s.take(d.len() as int) =~= d);
                    assert(k == d.len());
                } else {
                    assert(esc(s).len() > s.len());
                }
            }
        }
    } else {
        assert(esc(s) =~= s);
    }
}

/// Whether one of the five entities escaping writes begins at `k` of `t`.
pub open spec fn starts_entity(t: Seq<char>, k: int) -> bool {
    ||| k + 5 <= t.len() && t.subrange(k, k + 5) == "&amp;"@
    ||| k + 4 <= t.len() && t.subrange(k, k + 4) == "&lt;"@
    ||| k + 4 <= t.len() && t.subrange(k, k + 4) == "&gt;"@
    ||| k + 6 <= t.len() && t.subrange(k, k + 6) == "&quot;"@
    ||| k + 6 <= t.len() && t.subrange(k, k + 6) == "&apos;"@
}

proof fn lemma_escape_char_amp(c: char, j: int)
    requires
        0 <= j < escape_char(c).len(),
        escape_char(c)[j] == '&',
    ensures
        j == 0,
        starts_entity(escape_char(c), 0),
{
    reveal_strlit("&amp;");
    reveal_strlit("&lt;");
    reveal_strlit("&gt;");
    reveal_strlit("&quot;");
    reveal_strlit("&apos;");
    let e = escape_char(c);
    assert(e.subrange(0, e.len() as int) =~= e);
}

proof fn lemma_starts_entity_prefix(a: Seq<char>, b: Seq<char>, k: int)
    requires
        starts_entity(a, k),
        0 <= k,
    ensures
        starts_entity(a + b, k),
{
    let t = a + b;
    if k + 5 <= a.len() {
        assert(t.subrange(k, k + 5) =~= a.subrange(k, k + 5));
    }
    if k + 4 <= a.len() {
        assert(t.subrange(k, k + 4) =~= a.subrange(k, k + 4));
    }
    if k + 6 <= a.len() {
        assert(t.subrange(k, k + 6) =~= a.subrange(k, k + 6));
    }
}

proof fn lemma_starts_entity_suffix(a: Seq<char>, b: Seq<char>)
    requires
        starts_entity(b, 0),
    ensures
        starts_entity(a + b, a.len() as int),
{
    let t = a + b;
    let k = a.len() as int;
    if 5 <= b.len() {
        assert(t.subrange(k, k + 5) =~= b.subrange(0, 5));
    }
    if 4 <= b.len() {
        assert(t.subrange(k, k + 4) =~= b.subrange(0, 4));
    }
    if 6 <= b.len() {
        assert(t.subrange(k, k + 6) =~= b.subrange(0, 6));
    }
}

/// Every `&` in escaped text begins one of the five entities.
pub proof fn lemma_escaped_ampersands_begin_entities(s: Seq<char>)
    ensures
        forall|k: int| 0 <= k < esc(s).len() && #[trigger] esc(s)[k] == '&' ==> starts_entity(esc(s), k),
    decreases s.len(),
{
    if s.len() > 0 {
        let d = s.drop_last();
        let e = escape_char(s.last());
        lemma_escape_xml_laws(d);
        lemma_escaped_ampersands_begin_entities(d);
        assert(esc(s) == esc(d) + e);
        assert forall|k: int| 0 <= k < esc(s).len() && #[trigger] esc(s)[k] == '&' implies starts_entity(esc(s), k) by {
            if k < esc(d).len() {
                assert(esc(s)[k] == esc(d)[k]);
                lemma_starts_entity_prefix(esc(d), e, k);
            } else {
                let j = k - esc(d).len();
                assert(esc(s)[k] == e[j]);
                lemma_escape_char_amp(s.last(), j);
                lemma_starts_entity_suffix(esc(d), e);
            }
        }
    }
}

/// XML text read back: each of the five entities escaping writes turned back into its
/// character, left to right, in one pass; any other character kept.
pub open spec fn unescape(s: Seq<char>) -> Seq<char>
    decreases s.len(),
{
    if s.len() == 0 {
        seq![]
    } else if s.len() >= 5 && s.take(5) == "&amp;"@ {
        seq!['&'] + unescape(s.skip(5))
    } else if s.len() >= 4 && s.take(4) == "&lt;"@ {
        seq!['<'] + unescape(s.skip(4))
    } else if s.len() >= 4 && s.take(4) == "&gt;"@ {
        seq!['>'] + unescape(s.skip(4))
    } else if s.len() >= 6 && s.take(6) == "&quot;"@ {
        seq!['"'] + unescape(s.skip(6))
    } else if s.len() >= 6 && s.take(6) == "&apos;"@ {
        seq!['\''] + unescape(s.skip(6))
    } else {
        seq![s[0]] + unescape(s.skip(1))
    }
}

proof fn lemma_esc_front(c: char, t: Seq<char>)
    ensures
        esc(seq![c] + t) == escape_char(c) + esc(t),
    decreases t.len(),
{
    if t.len() == 0 {
        let u = seq![c] + t;
        assert(u.drop_last() =~= seq![]);
        assert(u.last() == c);
        assert(esc(u) == esc(u.drop_last()) + escape_char(u.last()));
        assert(esc(u) =~= escape_char(c) + esc(t));
    } else {
        lemma_esc_front(c, t.drop_last());
        let u = seq![c] + t;
        assert(u.drop_last() =~= seq![c] + t.drop_last());
        assert(u.last() == t.last());
        assert(esc(u) == esc(u.drop_last()) + escape_char(u.last()));
        assert(esc(t) == esc(t.drop_last()) + escape_char(t.last()));
        assert(esc(u) =~= escape_char(c) + esc(t));
    }
}

proof fn lemma_unescape_escaped_char(c: char, rest: Seq<char>)
    ensures
        unescape(escape_char(c) + rest) == seq![c] + unescape(rest),
{
    reveal_strlit("&amp;");
    reveal_strlit("&lt;");
    reveal_strlit("&gt;");
    reveal_strlit("&quot;");
    reveal_strlit("&apos;");
    let e = escape_char(c);
    let x = e + rest;
    assert(x.len() >= 1);
    assert(x[0] == e[0]);
    if c == '&' {
        assert(x.take(5) =~= "&amp;"@);
        assert(x.skip(5) =~= rest);
    } else if c == '<' {
        assert(x[1] == 'l');
        assert(x.len() >= 5 ==> x.take(5)[1] != "&amp;"@[1]);
        assert(x.take(4) =~= "&lt;"@);
        assert(x.skip(4) =~= rest);
    } else if c == '>' {
        assert(x[1] == 'g');
        assert(x.len() >= 5 ==> x.take(5)[1] != "&amp;"@[1]);
        assert(x.take(4)[1] != "&lt;"@[1]);
        assert(x.take(4) =~= "&gt;"@);
        assert(x.skip(4) =~= rest);
    } else if c == '"' {
        assert(x[1] == 'q');
        assert(x.take(5)[1] != "&amp;"@[1]);
        assert(x.take(4)[1] != "&lt;"@[1]);
        assert(x.take(4)[1] != "&gt;"@[1]);
        assert(x.take(6) =~= "&quot;"@);
        assert(x.skip(6) =~= rest);
    } else if c == '\'' {
        assert(x[1] == 'a');
        assert(x[2] == 'p');
        assert(x.take(5)[2] != "&amp;"@[2]);
        assert(x.take(4)[1] != "&lt;"@[1]);
        assert(x.take(4)[1] != "&gt;"@[1]);
        assert(x.take(6)[1] != "&quot;"@[1]);
        assert(x.take(6) =~= "&apos;"@);
        assert(x.skip(6) =~= rest);
    } else {
        assert(e == seq![c]);
        assert(x.len() >= 5 ==> x.take(5)[0] != "&amp;"@[0]);
        assert(x.len() >= 4 ==> x.take(4)[0] != "&lt;"@[0]);
        assert(x.len() >= 4 ==> x.take(4)[0] != "&gt;"@[0]);
        assert(x.len() >= 6 ==> x.take(6)[0] != "&quot;"@[0]);
        assert(x.len() >= 6 ==> x.take(6)[0] != "&apos;"@[0]);
        assert(x.skip(1) =~= rest);
    }
}

/// Reading escaped text back gives the text that was escaped.
pub proof fn lemma_unescape_undoes_escape(s: Seq<char>)
    ensures
        unescape(esc(s)) == s,
    decreases s.len(),
{
    if s.len() > 0 {
        let t = s.skip(1);
        assert(s =~= seq![s[0]] + t);
        lemma_esc_front(s[0], t);
        lemma_unescape_escaped_char(s[0], esc(t));
        lemma_unescape_undoes_escape(t);
    } else {
        assert(esc(s) =~= seq![]);
    }
}

/// Append `escape_xml(s)` to `out`.
pub fn push_escaped(out: &mut String, s: &str)
    ensures
        final(out)@ == old(out)@ + esc(s@),
{
    let cs = chars_of(s);
    let ghost start = out@;
    let mut i: usize = 0;
    while i < cs.len()
        invariant
            i <= cs@.len(),
            cs@ == s@,
            out@ == start + esc(cs@.take(i as int)),
        decreases cs@.len() - i,
    {
        let c = cs[i];
        let ghost before = out@;
        if c == '&' {
            push_str(out, "&amp;");
        } else if c == '<' {
            push_str(out, "&lt;");
        } else if c == '>' {
            push_str(out, "&gt;");
        } else if c == '"' {
            push_str(out, "&quot;");
        } else if c == '\'' {
            push_str(out, "&apos;");
        } else {
            crate::text::push_char(out, c);
        }
        proof {
            assert(cs@.take(i + 1).drop_last() =~= cs@.take(i as int));
            assert(out@ =~= start + esc(cs@.take(i + 1)));
        }
        i = i + 1;
    }
    assert(cs@.take(i as int) =~= s@);
}

/// Escape text for inclusion in XML character data or an attribute value. Every string taken
/// from the library passes through here.
pub fn escape_xml(text: &str) -> (r: String)
    ensures
        r@ == esc(text@),
{
    let mut out = String::new();
    push_escaped(&mut out, text);
    assert(Seq::<char>::empty() + esc(text@) =~= esc(text@));
    out
}

/// A stable 64-bit FNV-1a hash of some bytes.
pub open spec fn fnv1a(bytes: Seq<u8>) -> u64
    decreases bytes.len(),
{
    if bytes.len() == 0 {
        0xcbf2_9ce4_8422_2325
    } else {
        (((fnv1a(bytes.drop_last()) ^ (bytes.last() as u64)) as nat * 0x0000_0100_0000_01b3nat)
            % 0x1_0000_0000_0000_0000nat) as u64
    }
}

/// The FNV-1a hash of a text's UTF-8 bytes: the book's identifier is derived from its title
/// with it, so two builds of one book are byte-identical.
pub fn stable_hash(text: &str) -> (r: u64)
    ensures
        r == fnv1a(text.spec_bytes()),
{
    let bytes = text.as_bytes();
    let mut hash: u64 = 0xcbf2_9ce4_8422_2325;
    let mut i: usize = 0;
    while i < bytes.len()
        invariant
            i <= bytes@.len(),
            bytes@ == text.spec_bytes(),
            hash == fnv1a(bytes@.take(i as int)),
        decreases bytes@.len() - i,
    {
        assert(bytes@.take(i + 1).drop_last() =~= bytes@.take(i as int));
        hash = (hash ^ (bytes[i] as u64)).wrapping_mul(0x0000_0100_0000_01b3);
        i = i + 1;
    }
    assert(bytes@.take(i as int) =~= bytes@);
    hash
}

pub open spec fn hex_digit(d: nat) -> char {
    if d < 10 {
        ((d + 48) as u32) as char
    } else {
        ((d + 87) as u32) as char
    }
}

pub open spec fn pow16(k: nat) -> nat
    decreases k,
{
    if k == 0 {
        1
    } else {
        16 * pow16((k - 1) as nat)
    }
}

/// `{:016x}`: sixteen lowercase hex digits.
pub open spec fn hex16(n: u64) -> Seq<char> {
    Seq::new(16, |i: int| hex_digit(((n as nat / pow16((15 - i) as nat)) % 16) as nat))
}

fn push_hex16(out: &mut String, n: u64)
    ensures
        final(out)@ == old(out)@ + hex16(n),
{
    let mut digits: Vec<char> = Vec::new();
    let mut v: u64 = n;
    let mut j: usize = 0;
    assert(pow16(0) == 1);
    while j < 16
        invariant
            j <= 16,
            digits@.len() == j,
            v as nat == n as nat / pow16(j as nat),
            forall|k: int| 0 <= k < j ==> #[trigger] digits@[k] == hex_digit(
                ((n as nat / pow16(k as nat)) % 16) as nat,
            ),
        decreases 16 - j,
    {
        let d = v % 16;
        let c = if d < 10 {
            ((d + 48) as u8) as char
        } else {
            ((d + 87) as u8) as char
        };
        assert(c == hex_digit(d as nat)) by {
            if d < 10 {
                assert(((d + 48) as u8) as char == ((d + 48) as u32) as char);
            } else {
                assert(((d + 87) as u8) as char == ((d + 87) as u32) as char);
            }
        }
        digits.push(c);
        proof {
            lemma_pow16_pos(j as nat);
            assert(pow16((j + 1) as nat) == 16 * pow16(j as nat));
            vstd::arithmetic::div_mod::lemma_div_denominator(n as int, pow16(j as nat) as int, 16);
            assert(pow16(j as nat) * 16 == pow16((j + 1) as nat)) by (nonlinear_arith)
                requires
                    pow16((j + 1) as nat) == 16 * pow16(j as nat),
            ;
        }
        v = v / 16;
        j = j + 1;
    }
    let ghost start = out@;
    let mut k: usize = 16;
    while k > 0
        invariant
            k <= 16,
            digits@.len() == 16,
            forall|m: int| 0 <= m < 16 ==> #[trigger] digits@[m] == hex_digit(
                ((n as nat / pow16(m as nat)) % 16) as nat,
            ),
            out@ == start + hex16(n).take(16 - k),
        decreases k,
    {
        crate::text::push_char(out, digits[k - 1]);
        assert(hex16(n).take(16 - k + 1) =~= hex16(n).take(16 - k).push(hex16(n)[16 - k]));
        k = k - 1;
    }
    assert(hex16(n).take(16) =~= hex16(n));
}

proof fn lemma_pow16_pos(k: nat)
    ensures
        pow16(k) > 0,
    decreases k,
{
    if k > 0 {
        lemma_pow16_pos((k - 1) as nat);
    }
}


// ---------------------------------------------------------------------------------------
// Layout: every page and image gets its number before any page is written
// ---------------------------------------------------------------------------------------

pub open spec fn sat_inc(n: u32) -> u32 {
    if n < u32::MAX {
        (n + 1) as u32
    } else {
        n
    }
}

/// 1-based position of the `i`-th track of a disc, as a `u32`.
pub open spec fn track_position(i: int) -> u32 {
    if 0 <= i <= u32::MAX {
        sat_inc(i as u32)
    } else {
        1
    }
}

pub struct TrackLayoutView {
    pub track: TrackView,
    /// The number of the track's song page, when it has one.
    pub song: Option<u32>,
    pub position: u32,
}

pub struct DiscLayoutView {
    pub number: u32,
    pub tracks: Seq<TrackLayoutView>,
}

pub struct AlbumLayoutView {
    pub album: AlbumView,
    pub number: u32,
    /// Whether the album's art was embedded as an image.
    pub has_art: bool,
    pub discs: Seq<DiscLayoutView>,
}

pub struct ArtistLayoutView {
    pub artist: ArtistView,
    pub number: usize,
    pub albums: Seq<AlbumLayoutView>,
}

/// Tracks `i..` of a disc, numbering the song pages from `song` on.
pub open spec fn lay_tracks(ts: Seq<TrackView>, i: int, song: u32) -> (Seq<TrackLayoutView>, u32)
    decreases ts.len() - i,
{
    if i < 0 || i >= ts.len() {
        (seq![], song)
    } else {
        let has = ts[i].state.spec_has_lyrics();
        let s2 = if has {
            sat_inc(song)
        } else {
            song
        };
        let rest = lay_tracks(ts, i + 1, s2);
        (
            seq![
                TrackLayoutView {
                    track: ts[i],
                    song: if has {
                        Some(s2)
                    } else {
                        None
                    },
                    position: track_position(i),
                },
            ] + rest.0,
            rest.1,
        )
    }
}

pub open spec fn lay_discs(ds: Seq<DiscView>, i: int, song: u32) -> (Seq<DiscLayoutView>, u32)
    decreases ds.len() - i,
{
    if i < 0 || i >= ds.len() {
        (seq![], song)
    } else {
        let t = lay_tracks(ds[i].tracks, 0, song);
        let rest = lay_discs(ds, i + 1, t.1);
        (seq![DiscLayoutView { number: ds[i].number, tracks: t.0 }] + rest.0, rest.1)
    }
}

/// The thumbnail handed over for the `k`-th album of the book, if any.
pub open spec fn thumb_at(thumbs: Seq<Option<Seq<u8>>>, k: int) -> Option<Seq<u8>> {
    if 0 <= k < thumbs.len() {
        thumbs[k]
    } else {
        None
    }
}

pub open spec fn album_image(n: u32, bytes: Seq<u8>) -> ImageView {
    ImageView { path: "images/album-"@ + zero_padded(n as nat, 4) + ".jpg"@, id: "img-album-"@ + zero_padded(n as nat, 4), bytes }
}

/// The state threaded through the layout: the last song and album numbers given out, the
/// index of the next album in the book, and the images so far.
pub struct LayoutState {
    pub song: u32,
    pub album: u32,
    pub k: int,
    pub images: Seq<ImageView>,
}

pub open spec fn lay_albums(als: Seq<AlbumView>, i: int, st: LayoutState, thumbs: Seq<Option<Seq<u8>>>) -> (
    Seq<AlbumLayoutView>,
    LayoutState,
)
    decreases als.len() - i,
{
    if i < 0 || i >= als.len() {
        (seq![], st)
    } else {
        let a = als[i];
        let n = sat_inc(st.album);
        let thumb = if a.art is Some {
            thumb_at(thumbs, st.k)
        } else {
            None
        };
        let images = match thumb {
            Some(b) => st.images.push(album_image(n, b)),
            None => st.images,
        };
        let d = lay_discs(a.discs, 0, st.song);
        let rest = lay_albums(
            als,
            i + 1,
            LayoutState { song: d.1, album: n, k: st.k + 1, images },
            thumbs,
        );
        (
            seq![AlbumLayoutView { album: a, number: n, has_art: thumb is Some, discs: d.0 }]
                + rest.0,
            rest.1,
        )
    }
}

pub open spec fn lay_artists(ars: Seq<ArtistView>, i: int, st: LayoutState, thumbs: Seq<Option<Seq<u8>>>) -> (
    Seq<ArtistLayoutView>,
    LayoutState,
)
    decreases ars.len() - i,
{
    if i < 0 || i >= ars.len() {
        (seq![], st)
    } else {
        let al = lay_albums(ars[i].albums, 0, st, thumbs);
        let rest = lay_artists(ars, i + 1, al.1, thumbs);
        (
            seq![ArtistLayoutView { artist: ars[i], number: (i + 1) as usize, albums: al.0 }]
                + rest.0,
            rest.1,
        )
    }
}

/// The layout of a whole book: artist, album and song numbers in reading order, and the
/// album images that were handed over for albums with art.
pub open spec fn spec_lay_out(b: BookView, thumbs: Seq<Option<Seq<u8>>>) -> (Seq<ArtistLayoutView>, Seq<ImageView>) {
    let r = lay_artists(b.artists, 0, LayoutState { song: 0, album: 0, k: 0, images: seq![] }, thumbs);
    (r.0, r.1.images)
}

struct TrackLayout<'a> {
    track: &'a Track,
    song: Option<u32>,
    position: u32,
}

struct DiscLayout<'a> {
    number: u32,
    tracks: Vec<TrackLayout<'a>>,
}

struct AlbumLayout<'a> {
    album: &'a Album,
    number: u32,
    has_art: bool,
    discs: Vec<DiscLayout<'a>>,
}

struct ArtistLayout<'a> {
    artist: &'a Artist,
    number: usize,
    albums: Vec<AlbumLayout<'a>>,
}

impl<'a> View for TrackLayout<'a> {
    type V = TrackLayoutView;

    closed spec fn view(&self) -> TrackLayoutView {
        TrackLayoutView { track: self.track@, song: self.song, position: self.position }
    }
}

impl<'a> View for DiscLayout<'a> {
    type V = DiscLayoutView;

    closed spec fn view(&self) -> DiscLayoutView {
        DiscLayoutView { number: self.number, tracks: self.tracks@.map_values(|t: TrackLayout<'a>| t@) }
    }
}

impl<'a> View for AlbumLayout<'a> {
    type V = AlbumLayoutView;

    closed spec fn view(&self) -> AlbumLayoutView {
        AlbumLayoutView {
            album: self.album@,
            number: self.number,
            has_art: self.has_art,
            discs: self.discs@.map_values(|d: DiscLayout<'a>| d@),
        }
    }
}

impl<'a> View for ArtistLayout<'a> {
    type V = ArtistLayoutView;

    closed spec fn view(&self) -> ArtistLayoutView {
        ArtistLayoutView {
            artist: self.artist@,
            number: self.number,
            albums: self.albums@.map_values(|a: AlbumLayout<'a>| a@),
        }
    }
}

pub open spec fn thumb_views(v: Seq<Option<Vec<u8>>>) -> Seq<Option<Seq<u8>>> {
    v.map_values(
        |o: Option<Vec<u8>>|
            match o {
                Some(b) => Some(b@),
                None => None,
            },
    )
}

fn sat_inc_exec(n: u32) -> (r: u32)
    ensures
        r == sat_inc(n),
{
    n.saturating_add(1)
}

/// `prefix`, `n` zero-padded to `width`, `suffix`.
fn numbered(prefix: &str, n: u64, width: usize, suffix: &str) -> (r: String)
    ensures
        r@ == prefix@ + zero_padded(n as nat, width as nat) + suffix@,
{
    let mut out = String::from_str(prefix);
    push_zero_padded(&mut out, n, width);
    push_str(&mut out, suffix);
    out
}

fn lay_out_tracks<'a>(tracks: &'a Vec<Track>, song: u32) -> (r: (Vec<TrackLayout<'a>>, u32))
    ensures
        r.0@.map_values(|t: TrackLayout<'a>| t@) == lay_tracks(
            tracks@.map_values(|t: Track| t@),
            0,
            song,
        ).0,
        r.1 == lay_tracks(tracks@.map_values(|t: Track| t@), 0, song).1,
{
    let ghost tv = tracks@.map_values(|t: Track| t@);
    let mut out: Vec<TrackLayout<'a>> = Vec::new();
    let mut cur = song;
    let mut i: usize = 0;
    while i < tracks.len()
        invariant
            i <= tracks@.len(),
            tv == tracks@.map_values(|t: Track| t@),
            out@.map_values(|t: TrackLayout<'a>| t@) + lay_tracks(tv, i as int, cur).0 == lay_tracks(
                tv,
                0,
                song,
            ).0,
            lay_tracks(tv, i as int, cur).1 == lay_tracks(tv, 0, song).1,
        decreases tracks@.len() - i,
    {
        let t = &tracks[i];
        assert(tv[i as int] == t@);
        let ghost o0 = out@.map_values(|t: TrackLayout<'a>| t@);
        let ghost here = lay_tracks(tv, i as int, cur);
        let has = t.state.has_lyrics();
        let s2 = if has {
            sat_inc_exec(cur)
        } else {
            cur
        };
        let position: u32 = if i <= 0xffff_fffe {
            (i as u32) + 1
        } else if i == 0xffff_ffff {
            0xffff_ffff
        } else {
            1
        };
        out.push(TrackLayout { track: t, song: if has { Some(s2) } else { None }, position });
        proof {
            let next = lay_tracks(tv, i + 1, s2);
            assert(out@.map_values(|t: TrackLayout<'a>| t@) =~= o0.push(
                TrackLayoutView {
                    track: tv[i as int],
                    song: if has {
                        Some(s2)
                    } else {
                        None
                    },
                    position: track_position(i as int),
                },
            ));
            assert(here.0 == seq![
                TrackLayoutView {
                    track: tv[i as int],
                    song: if has {
                        Some(s2)
                    } else {
                        None
                    },
                    position: track_position(i as int),
                },
            ] + next.0);
            assert(out@.map_values(|t: TrackLayout<'a>| t@) + next.0 =~= o0 + here.0);
        }
        cur = s2;
        i = i + 1;
    }
    assert(out@.map_values(|t: TrackLayout<'a>| t@) + lay_tracks(tv, i as int, cur).0
        =~= out@.map_values(|t: TrackLayout<'a>| t@));
    (out, cur)
}

fn lay_out_discs<'a>(discs: &'a Vec<Disc>, song: u32) -> (r: (Vec<DiscLayout<'a>>, u32))
    ensures
        r.0@.map_values(|d: DiscLayout<'a>| d@) == lay_discs(
            discs@.map_values(|d: Disc| d@),
            0,
            song,
        ).0,
        r.1 == lay_discs(discs@.map_values(|d: Disc| d@), 0, song).1,
{
    let ghost dv = discs@.map_values(|d: Disc| d@);
    let mut out: Vec<DiscLayout<'a>> = Vec::new();
    let mut cur = song;
    let mut i: usize = 0;
    while i < discs.len()
        invariant
            i <= discs@.len(),
            dv == discs@.map_values(|d: Disc| d@),
            out@.map_values(|d: DiscLayout<'a>| d@) + lay_discs(dv, i as int, cur).0 == lay_discs(
                dv,
                0,
                song,
            ).0,
            lay_discs(dv, i as int, cur).1 == lay_discs(dv, 0, song).1,
        decreases discs@.len() - i,
    {
        let d = &discs[i];
        assert(dv[i as int] == d@);
        let ghost o0 = out@.map_values(|d: DiscLayout<'a>| d@);
        let (tracks, s2) = lay_out_tracks(&d.tracks, cur);
        proof {
            assert(d.tracks@.map_values(|t: Track| t@) == dv[i as int].tracks);
        }
        let dl = DiscLayout { number: d.number, tracks };
        let ghost dlv = dl@;
        out.push(dl);
        proof {
            let next = lay_discs(dv, i + 1, s2);
            assert(out@.map_values(|d: DiscLayout<'a>| d@) =~= o0.push(dlv));
            assert(out@.map_values(|d: DiscLayout<'a>| d@) + next.0 =~= o0 + lay_discs(
                dv,
                i as int,
                cur,
            ).0);
        }
        cur = s2;
        i = i + 1;
    }
    assert(out@.map_values(|d: DiscLayout<'a>| d@) + lay_discs(dv, i as int, cur).0
        =~= out@.map_values(|d: DiscLayout<'a>| d@));
    (out, cur)
}



/// The images, album numbers and song numbers of one artist's albums. `thumbs` holds the
/// thumbnails of the albums not yet laid out, the next album's first.
fn lay_out_albums<'a>(
    albums: &'a Vec<Album>,
    song: u32,
    album: u32,
    thumbs: &mut Vec<Option<Vec<u8>>>,
    images: &mut Vec<Image>,
    Ghost(all): Ghost<Seq<Option<Seq<u8>>>>,
    Ghost(k): Ghost<int>,
) -> (r: (Vec<AlbumLayout<'a>>, u32, u32))
    requires
        k >= 0,
        thumb_views(old(thumbs)@) == (if k <= all.len() {
            all.skip(k)
        } else {
            seq![]
        }),
    ensures
        ({
            let st = LayoutState { song, album, k, images: image_views(old(images)@) };
            let l = lay_albums(albums@.map_values(|a: Album| a@), 0, st, all);
            &&& r.0@.map_values(|a: AlbumLayout<'a>| a@) == l.0
            &&& r.1 == l.1.song
            &&& r.2 == l.1.album
            &&& l.1.k == k + albums@.len()
            &&& image_views(final(images)@) == l.1.images
            &&& thumb_views(final(thumbs)@) == (if l.1.k <= all.len() {
                all.skip(l.1.k)
            } else {
                seq![]
            })
        }),
{
    let ghost av = albums@.map_values(|a: Album| a@);
    let ghost st0 = LayoutState { song, album, k, images: image_views(images@) };
    let mut out: Vec<AlbumLayout<'a>> = Vec::new();
    let mut cur_song = song;
    let mut cur_album = album;
    let ghost mut kk: int = k;
    let mut i: usize = 0;
    while i < albums.len()
        invariant
            i <= albums@.len(),
            av == albums@.map_values(|a: Album| a@),
            kk == k + i,
            k >= 0,
            thumb_views(thumbs@) == (if kk <= all.len() {
                all.skip(kk)
            } else {
                seq![]
            }),
            ({
                let here = lay_albums(
                    av,
                    i as int,
                    LayoutState { song: cur_song, album: cur_album, k: kk, images: image_views(images@) },
                    all,
                );
                let whole = lay_albums(av, 0, st0, all);
                &&& out@.map_values(|a: AlbumLayout<'a>| a@) + here.0 == whole.0
                &&& here.1 == whole.1
            }),
        decreases albums@.len() - i,
    {
        let a = &albums[i];
        assert(av[i as int] == a@);
        let ghost o0 = out@.map_values(|a: AlbumLayout<'a>| a@);
        let ghost im0 = image_views(images@);
        let ghost here = lay_albums(
            av,
            i as int,
            LayoutState { song: cur_song, album: cur_album, k: kk, images: im0 },
            all,
        );
        let n = sat_inc_exec(cur_album);
        let ghost t0 = thumbs@;
        assert(thumb_views(t0).len() == t0.len());
        let thumb: Option<Vec<u8>> = if thumbs.len() > 0 {
            let t = thumbs.remove(0);
            proof {
                assert(kk < all.len());
                assert(thumbs@ =~= t0.skip(1));
                assert(thumb_views(thumbs@) =~= thumb_views(t0).skip(1));
                assert(thumb_views(thumbs@) =~= all.skip(kk + 1));
                assert(thumb_views(t0)[0] == all[kk]);
            }
            t
        } else {
            proof {
                assert(kk >= all.len());
            }
            None
        };
        let ghost tv: Option<Seq<u8>> = match &thumb {
            Some(b) => Some(b@),
            None => None,
        };
        assert(tv == thumb_at(all, kk));
        let has_art = a.art.is_some() && thumb.is_some();
        if a.art.is_some() {
            match thumb {
                Some(bytes) => {
                    let path = numbered("images/album-", n as u64, 4, ".jpg");
                    let id = numbered("img-album-", n as u64, 4, "");
                    images.push(Image { path, id, bytes });
                    proof {
                        reveal_strlit("");
                        assert(id@ =~= "img-album-"@ + zero_padded(n as nat, 4));
                        assert(image_views(images@) =~= im0.push(album_image(n, tv->0)));
                    }
                },
                None => {},
            }
        }
        let (discs, s2) = lay_out_discs(&a.discs, cur_song);
        let al = AlbumLayout { album: a, number: n, has_art, discs };
        let ghost alv = al@;
        out.push(al);
        proof {
            let thumb_s = if av[i as int].art is Some {
                thumb_at(all, kk)
            } else {
                None
            };
            assert(alv == AlbumLayoutView {
                album: av[i as int],
                number: n,
                has_art: thumb_s is Some,
                discs: lay_discs(av[i as int].discs, 0, cur_song).0,
            });
            assert(out@.map_values(|a: AlbumLayout<'a>| a@) =~= o0.push(alv));
            let next = lay_albums(
                av,
                i + 1,
                LayoutState { song: s2, album: n, k: kk + 1, images: image_views(images@) },
                all,
            );
            assert(out@.map_values(|a: AlbumLayout<'a>| a@) + next.0 =~= o0 + here.0);
            kk = kk + 1;
            if kk > all.len() {
                assert(thumb_views(thumbs@) =~= seq![]);
            }
        }
        cur_song = s2;
        cur_album = n;
        i = i + 1;
    }
    assert(out@.map_values(|a: AlbumLayout<'a>| a@) + seq![] =~= out@.map_values(
        |a: AlbumLayout<'a>| a@,
    ));
    (out, cur_song, cur_album)
}


/// Assign every page and image its number, in reading order, and embed the album art that
/// was handed over: `thumbs` holds one entry per album of the book, in reading order, the
/// thumbnail of that album's art when it decoded.
fn lay_out<'a>(book: &'a Book, thumbs: Vec<Option<Vec<u8>>>) -> (r: (Vec<ArtistLayout<'a>>, Vec<Image>))
    ensures
        r.0@.map_values(|a: ArtistLayout<'a>| a@) == spec_lay_out(book@, thumb_views(thumbs@)).0,
        image_views(r.1@) == spec_lay_out(book@, thumb_views(thumbs@)).1,
{
    let ghost all = thumb_views(thumbs@);
    let ghost av = book@.artists;
    let ghost st0 = LayoutState { song: 0, album: 0, k: 0, images: seq![] };
    let mut rest = thumbs;
    let mut images: Vec<Image> = Vec::new();
    let mut out: Vec<ArtistLayout<'a>> = Vec::new();
    let mut song: u32 = 0;
    let mut album: u32 = 0;
    let ghost mut k: int = 0;
    let mut i: usize = 0;
    assert(image_views(images@) =~= seq![]);
    assert(all.skip(0) =~= all);
    while i < book.artists.len()
        invariant
            i <= book.artists@.len(),
            av == book@.artists,
            av == book.artists@.map_values(|a: Artist| a@),
            k >= 0,
            thumb_views(rest@) == (if k <= all.len() {
                all.skip(k)
            } else {
                seq![]
            }),
            ({
                let here = lay_artists(
                    av,
                    i as int,
                    LayoutState { song, album, k, images: image_views(images@) },
                    all,
                );
                let whole = lay_artists(av, 0, st0, all);
                &&& out@.map_values(|a: ArtistLayout<'a>| a@) + here.0 == whole.0
                &&& here.1 == whole.1
            }),
        decreases book.artists@.len() - i,
    {
        let a = &book.artists[i];
        assert(av[i as int] == a@);
        let ghost o0 = out@.map_values(|a: ArtistLayout<'a>| a@);
        let ghost here = lay_artists(
            av,
            i as int,
            LayoutState { song, album, k, images: image_views(images@) },
            all,
        );
        let (albums, s2, a2) = lay_out_albums(&a.albums, song, album, &mut rest, &mut images, Ghost(all), Ghost(k));
        let al = ArtistLayout { artist: a, number: i + 1, albums };
        let ghost alv = al@;
        out.push(al);
        proof {
            assert(out@.map_values(|a: ArtistLayout<'a>| a@) =~= o0.push(alv));
            k = k + a.albums@.len();
            let next = lay_artists(
                av,
                i + 1,
                LayoutState { song: s2, album: a2, k, images: image_views(images@) },
                all,
            );
            assert(out@.map_values(|a: ArtistLayout<'a>| a@) + next.0 =~= o0 + here.0);
        }
        song = s2;
        album = a2;
        i = i + 1;
    }
    assert(out@.map_values(|a: ArtistLayout<'a>| a@) + seq![] =~= out@.map_values(
        |a: ArtistLayout<'a>| a@,
    ));
    (out, images)
}


// ---------------------------------------------------------------------------------------
// Pages
// ---------------------------------------------------------------------------------------

/// XHTML document preamble, up to the title.
pub const HEAD_OPEN: &'static str = "<?xml version=\"1.0\" encoding=\"utf-8\"?>\n<!DOCTYPE html>\n<html xmlns=\"http://www.w3.org/1999/xhtml\" xmlns:epub=\"http://www.idpf.org/2007/ops\" lang=\"en\" xml:lang=\"en\">\n<head>\n<meta charset=\"utf-8\"/>\n<title>";

/// XHTML document preamble, after the title.
pub const HEAD_CLOSE: &'static str = "</title>\n<link rel=\"stylesheet\" type=\"text/css\" href=\"style.css\"/>\n</head>\n<body>\n";

/// Closing tags for every page.
pub const PAGE_FOOTER: &'static str = "</body>\n</html>\n";

pub open spec fn spec_page_header(title: Seq<char>) -> Seq<char> {
    HEAD_OPEN@ + esc(title) + HEAD_CLOSE@
}

/// The XHTML preamble every page shares, with its title.
fn page_header(title: &str) -> (r: String)
    ensures
        r@ == spec_page_header(title@),
{
    let mut out = String::from_str(HEAD_OPEN);
    push_escaped(&mut out, title);
    push_str(&mut out, HEAD_CLOSE);
    out
}

pub open spec fn spec_cover_page(title: Seq<char>) -> Seq<char> {
    spec_page_header(title) + "<div class=\"cover\"><img class=\"cover-art\" src=\"images/cover.jpg\" alt=\""@
        + esc(title) + "\"/></div>\n"@ + PAGE_FOOTER@
}

/// The cover: one full-bleed image, and nothing else. The title is in the image itself.
fn cover_page(info: &BookInfo) -> (r: String)
    ensures
        r@ == spec_cover_page(info.title@),
{
    let mut out = page_header(info.title.as_str());
    push_str(&mut out, "<div class=\"cover\"><img class=\"cover-art\" src=\"images/cover.jpg\" alt=\"");
    push_escaped(&mut out, info.title.as_str());
    push_str(&mut out, "\"/></div>\n");
    push_str(&mut out, PAGE_FOOTER);
    out
}


pub open spec fn artist_file(n: usize) -> Seq<char> {
    "artist-"@ + zero_padded(n as nat, 3) + ".xhtml"@
}

pub open spec fn artist_id(n: usize) -> Seq<char> {
    "artist-"@ + zero_padded(n as nat, 3)
}

pub open spec fn album_file(n: u32) -> Seq<char> {
    "album-"@ + zero_padded(n as nat, 4) + ".xhtml"@
}

pub open spec fn album_id(n: u32) -> Seq<char> {
    "album-"@ + zero_padded(n as nat, 4)
}

pub open spec fn album_image_path(n: u32) -> Seq<char> {
    "images/album-"@ + zero_padded(n as nat, 4) + ".jpg"@
}

pub open spec fn song_file(n: u32) -> Seq<char> {
    "song-"@ + zero_padded(n as nat, 4) + ".xhtml"@
}

pub open spec fn song_id(n: u32) -> Seq<char> {
    "song-"@ + zero_padded(n as nat, 4)
}

proof fn lemma_empty_suffix(s: Seq<char>)
    ensures
        s + ""@ == s,
{
    reveal_strlit("");
    assert(s + ""@ =~= s);
}

fn artist_file_of(n: usize) -> (r: String)
    ensures
        r@ == artist_file(n),
{
    numbered("artist-", n as u64, 3, ".xhtml")
}

fn artist_id_of(n: usize) -> (r: String)
    ensures
        r@ == artist_id(n),
{
    let r = numbered("artist-", n as u64, 3, "");
    proof {
        lemma_empty_suffix("artist-"@ + zero_padded(n as nat, 3));
    }
    r
}

fn album_file_of(n: u32) -> (r: String)
    ensures
        r@ == album_file(n),
{
    numbered("album-", n as u64, 4, ".xhtml")
}

fn album_id_of(n: u32) -> (r: String)
    ensures
        r@ == album_id(n),
{
    let r = numbered("album-", n as u64, 4, "");
    proof {
        lemma_empty_suffix("album-"@ + zero_padded(n as nat, 4));
    }
    r
}

fn song_file_of(n: u32) -> (r: String)
    ensures
        r@ == song_file(n),
{
    numbered("song-", n as u64, 4, ".xhtml")
}

fn song_id_of(n: u32) -> (r: String)
    ensures
        r@ == song_id(n),
{
    let r = numbered("song-", n as u64, 4, "");
    proof {
        lemma_empty_suffix("song-"@ + zero_padded(n as nat, 4));
    }
    r
}

pub open spec fn contents_items(ls: Seq<ArtistLayoutView>) -> Seq<char>
    decreases ls.len(),
{
    if ls.len() == 0 {
        seq![]
    } else {
        contents_items(ls.drop_last()) + "<li><a href=\""@ + esc(artist_file(ls.last().number))
            + "\">"@ + esc(ls.last().artist.name) + "</a></li>\n"@
    }
}

pub open spec fn spec_contents_page(ls: Seq<ArtistLayoutView>, title: Seq<char>) -> Seq<char> {
    spec_page_header(title)
        + "<section epub:type=\"toc\">\n<h1 class=\"contents\">Contents</h1>\n<ul class=\"contents\">\n"@
        + contents_items(ls) + "</ul>\n</section>\n"@ + PAGE_FOOTER@
}

/// The book's table of contents: one entry per artist, each artist chapter indexing its
/// own albums.
fn contents_page<'a>(artists: &Vec<ArtistLayout<'a>>, info: &BookInfo) -> (r: String)
    ensures
        r@ == spec_contents_page(artists@.map_values(|a: ArtistLayout<'a>| a@), info.title@),
{
    let ghost ls = artists@.map_values(|a: ArtistLayout<'a>| a@);
    let mut out = page_header(info.title.as_str());
    push_str(
        &mut out,
        "<section epub:type=\"toc\">\n<h1 class=\"contents\">Contents</h1>\n<ul class=\"contents\">\n",
    );
    let ghost start = out@;
    let mut i: usize = 0;
    while i < artists.len()
        invariant
            i <= artists@.len(),
            ls == artists@.map_values(|a: ArtistLayout<'a>| a@),
            out@ == start + contents_items(ls.take(i as int)),
        decreases artists@.len() - i,
    {
        let a = &artists[i];
        assert(ls[i as int] == a@);
        push_str(&mut out, "<li><a href=\"");
        push_escaped(&mut out, artist_file_of(a.number).as_str());
        push_str(&mut out, "\">");
        push_escaped(&mut out, a.artist.name.as_str());
        push_str(&mut out, "</a></li>\n");
        assert(ls.take(i + 1).drop_last() =~= ls.take(i as int));
        assert(out@ =~= start + contents_items(ls.take(i + 1)));
        i = i + 1;
    }
    assert(ls.take(i as int) =~= ls);
    push_str(&mut out, "</ul>\n</section>\n");
    push_str(&mut out, PAGE_FOOTER);
    out
}

pub open spec fn year_span(y: Option<u32>) -> Seq<char> {
    match y {
        Some(y) => " <span class=\"year\">"@ + decimal(y as nat) + "</span>"@,
        None => seq![],
    }
}

pub open spec fn album_index_items(als: Seq<AlbumLayoutView>) -> Seq<char>
    decreases als.len(),
{
    if als.len() == 0 {
        seq![]
    } else {
        let a = als.last();
        album_index_items(als.drop_last()) + "<li><a href=\""@ + esc(album_file(a.number)) + "\">"@
            + esc(a.album.title) + "</a>"@ + year_span(a.album.year) + "</li>\n"@
    }
}

pub open spec fn spec_artist_page(l: ArtistLayoutView) -> Seq<char> {
    spec_page_header(l.artist.name) + "<section epub:type=\"chapter\">\n<h1 class=\"artist\">"@
        + esc(l.artist.name) + "</h1>\n<ul class=\"album-index\">\n"@ + album_index_items(l.albums)
        + "</ul>\n</section>\n"@ + PAGE_FOOTER@
}

/// An artist chapter: a title page listing the artist's albums.
fn artist_page<'a>(layout: &ArtistLayout<'a>) -> (r: String)
    ensures
        r@ == spec_artist_page(layout@),
{
    let ghost als = layout@.albums;
    let name = layout.artist.name.as_str();
    let mut out = page_header(name);
    push_str(&mut out, "<section epub:type=\"chapter\">\n<h1 class=\"artist\">");
    push_escaped(&mut out, name);
    push_str(&mut out, "</h1>\n<ul class=\"album-index\">\n");
    let ghost start = out@;
    let mut i: usize = 0;
    while i < layout.albums.len()
        invariant
            i <= layout.albums@.len(),
            als == layout.albums@.map_values(|a: AlbumLayout<'a>| a@),
            out@ == start + album_index_items(als.take(i as int)),
        decreases layout.albums@.len() - i,
    {
        let a = &layout.albums[i];
        assert(als[i as int] == a@);
        push_str(&mut out, "<li><a href=\"");
        push_escaped(&mut out, album_file_of(a.number).as_str());
        push_str(&mut out, "\">");
        push_escaped(&mut out, a.album.title.as_str());
        push_str(&mut out, "</a>");
        let ghost before = out@;
        match a.album.year {
            Some(y) => {
                push_str(&mut out, " <span class=\"year\">");
                push_decimal(&mut out, y as u64);
                push_str(&mut out, "</span>");
            },
            None => {},
        }
        assert(out@ =~= before + year_span(a@.album.year));
        push_str(&mut out, "</li>\n");
        assert(als.take(i + 1).drop_last() =~= als.take(i as int));
        assert(out@ =~= start + album_index_items(als.take(i + 1)));
        i = i + 1;
    }
    assert(als.take(i as int) =~= als);
    push_str(&mut out, "</ul>\n</section>\n");
    push_str(&mut out, PAGE_FOOTER);
    out
}

pub open spec fn entry_number(l: TrackLayoutView) -> u32 {
    match l.track.number {
        Some(n) => n,
        None => l.position,
    }
}

pub open spec fn entry_title(l: TrackLayoutView) -> Seq<char> {
    match l.song {
        Some(n) => "<a href=\""@ + esc(song_file(n)) + "\">"@ + esc(l.track.title) + "</a>"@,
        None => "<span class=\"title\">"@ + esc(l.track.title) + "</span>"@,
    }
}

pub open spec fn entry_tag(t: TrackView) -> Seq<char> {
    if t.state == LyricState::Instrumental {
        " <span class=\"tag\">instrumental</span>"@
    } else {
        seq![]
    }
}

pub open spec fn entry_artist(t: TrackView, album_artist: Seq<char>) -> Seq<char> {
    if t.artist == album_artist {
        seq![]
    } else {
        "<span class=\"track-artist\">"@ + esc(t.artist) + "</span>"@
    }
}

pub open spec fn entry_class(l: TrackLayoutView) -> Seq<char> {
    if l.song is Some {
        "track"@
    } else {
        "track no-lyrics"@
    }
}

/// One line of a tracklist: the number (the tag's, else the position), the title linked to
/// its song page when it has one, an instrumental tag, and the track's own artist where it
/// differs from the album's.
pub open spec fn spec_tracklist_entry(l: TrackLayoutView, album_artist: Seq<char>) -> Seq<char> {
    "<li class=\""@ + entry_class(l) + "\"><span class=\"num\">"@ + decimal(entry_number(l) as nat)
        + "</span>"@ + entry_title(l) + entry_tag(l.track) + entry_artist(l.track, album_artist)
        + "</li>\n"@
}

fn push_entry_title<'a>(out: &mut String, layout: &TrackLayout<'a>)
    ensures
        final(out)@ == old(out)@ + entry_title(layout@),
{
    let track = layout.track;
    match layout.song {
        Some(n) => {
            push_str(out, "<a href=\"");
            push_escaped(out, song_file_of(n).as_str());
            push_str(out, "\">");
            push_escaped(out, track.title.as_str());
            push_str(out, "</a>");
        },
        None => {
            push_str(out, "<span class=\"title\">");
            push_escaped(out, track.title.as_str());
            push_str(out, "</span>");
        },
    }
}

fn push_entry_tail(out: &mut String, track: &Track, album_artist: &str)
    ensures
        final(out)@ == old(out)@ + entry_tag(track@) + entry_artist(track@, album_artist@) + "</li>\n"@,
{
    let ghost start = out@;
    if track.state == LyricState::Instrumental {
        push_str(out, " <span class=\"tag\">instrumental</span>");
    }
    let ghost t2 = out@;
    assert(t2 =~= start + entry_tag(track@));
    if !crate::text::str_eq(track.artist.as_str(), album_artist) {
        push_str(out, "<span class=\"track-artist\">");
        push_escaped(out, track.artist.as_str());
        push_str(out, "</span>");
    }
    let ghost t3 = out@;
    assert(t3 =~= t2 + entry_artist(track@, album_artist@));
    push_str(out, "</li>\n");
}

#[verifier::rlimit(40)]
fn push_tracklist_entry<'a>(out: &mut String, layout: &TrackLayout<'a>, album_artist: &str)
    ensures
        final(out)@ == old(out)@ + spec_tracklist_entry(layout@, album_artist@),
{
    let ghost l = layout@;
    let number: u32 = match layout.track.number {
        Some(n) => n,
        None => layout.position,
    };
    let ghost start = out@;
    let class = if layout.song.is_some() {
        "track"
    } else {
        "track no-lyrics"
    };
    push_str(out, "<li class=\"");
    push_str(out, class);
    push_str(out, "\"><span class=\"num\">");
    push_decimal(out, number as u64);
    push_str(out, "</span>");
    let ghost t1 = out@;
    assert(t1 == start + "<li class=\""@ + entry_class(l) + "\"><span class=\"num\">"@ + decimal(
        entry_number(l) as nat,
    ) + "</span>"@);
    push_entry_title(out, layout);
    let ghost t2 = out@;
    push_entry_tail(out, layout.track, album_artist);
    assert(out@ =~= t2 + (entry_tag(l.track) + entry_artist(l.track, album_artist@) + "</li>\n"@));
    assert(out@ =~= start + spec_tracklist_entry(l, album_artist@));
}

pub open spec fn tracklist_entries(ts: Seq<TrackLayoutView>, album_artist: Seq<char>) -> Seq<char>
    decreases ts.len(),
{
    if ts.len() == 0 {
        seq![]
    } else {
        tracklist_entries(ts.drop_last(), album_artist) + spec_tracklist_entry(ts.last(), album_artist)
    }
}

pub open spec fn disc_sections(ds: Seq<DiscLayoutView>, multi: bool, album_artist: Seq<char>) -> Seq<char>
    decreases ds.len(),
{
    if ds.len() == 0 {
        seq![]
    } else {
        disc_sections(ds.drop_last(), multi, album_artist) + disc_section(ds.last(), multi, album_artist)
    }
}

pub open spec fn disc_section(d: DiscLayoutView, multi: bool, album_artist: Seq<char>) -> Seq<char> {
    (if multi {
        "<h2 class=\"disc\">CD "@ + decimal(d.number as nat) + "</h2>\n"@
    } else {
        seq![]
    }) + "<ul class=\"tracklist\">\n"@ + tracklist_entries(d.tracks, album_artist) + "</ul>\n"@
}

fn push_disc_section<'a>(out: &mut String, d: &DiscLayout<'a>, multi: bool, album_artist: &str)
    ensures
        final(out)@ == old(out)@ + disc_section(d@, multi, album_artist@),
{
    let ghost s0 = out@;
    if multi {
        push_str(out, "<h2 class=\"disc\">CD ");
        push_decimal(out, d.number as u64);
        push_str(out, "</h2>\n");
    }
    push_str(out, "<ul class=\"tracklist\">\n");
    let ghost s1 = out@;
    let ghost ts = d@.tracks;
    let mut j: usize = 0;
    while j < d.tracks.len()
        invariant
            j <= d.tracks@.len(),
            ts == d.tracks@.map_values(|t: TrackLayout<'a>| t@),
            out@ == s1 + tracklist_entries(ts.take(j as int), album_artist@),
        decreases d.tracks@.len() - j,
    {
        assert(ts[j as int] == d.tracks@[j as int]@);
        push_tracklist_entry(out, &d.tracks[j], album_artist);
        assert(ts.take(j + 1).drop_last() =~= ts.take(j as int));
        assert(out@ =~= s1 + tracklist_entries(ts.take(j + 1), album_artist@));
        j = j + 1;
    }
    assert(ts.take(j as int) =~= ts);
    push_str(out, "</ul>\n");
    assert(out@ =~= s0 + disc_section(d@, multi, album_artist@));
}

/// The line under an album's title: its year, if tagged, then how many tracks have lyrics.
pub open spec fn album_meta(a: AlbumView) -> Seq<char> {
    let counts = decimal(min_usize(disc_lyric_total(a.discs)) as nat) + " of "@ + decimal(
        min_usize(disc_track_total(a.discs)) as nat,
    ) + " tracks with lyrics"@;
    match a.year {
        Some(y) => decimal(y as nat) + " · "@ + counts,
        None => counts,
    }
}

pub open spec fn spec_album_page(l: AlbumLayoutView) -> Seq<char> {
    let a = l.album;
    spec_page_header(a.title) + "<section epub:type=\"chapter\">\n<h1 class=\"album\">"@ + esc(a.title)
        + "</h1>\n"@ + (if l.has_art {
        "<div class=\"album-art\"><img src=\""@ + esc(album_image_path(l.number)) + "\" alt=\""@
            + esc(a.title) + "\"/></div>\n"@
    } else {
        seq![]
    }) + "<p class=\"album-meta\">"@ + esc(album_meta(a)) + "</p>\n"@ + disc_sections(
        l.discs,
        a.discs.len() > 1,
        a.artist,
    ) + "</section>\n"@ + PAGE_FOOTER@
}

/// An album subchapter: its art, then its full tracklist, with `CD n` headings on a
/// multi-disc album.
fn album_page<'a>(layout: &AlbumLayout<'a>) -> (r: String)
    ensures
        r@ == spec_album_page(layout@),
{
    let album = layout.album;
    let ghost l = layout@;
    let mut out = page_header(album.title.as_str());
    push_str(&mut out, "<section epub:type=\"chapter\">\n<h1 class=\"album\">");
    push_escaped(&mut out, album.title.as_str());
    push_str(&mut out, "</h1>\n");
    let ghost t0 = out@;
    if layout.has_art {
        push_str(&mut out, "<div class=\"album-art\"><img src=\"");
        push_escaped(&mut out, numbered("images/album-", layout.number as u64, 4, ".jpg").as_str());
        push_str(&mut out, "\" alt=\"");
        push_escaped(&mut out, album.title.as_str());
        push_str(&mut out, "\"/></div>\n");
    }
    let ghost t1 = out@;
    assert(t1 =~= t0 + if l.has_art {
        "<div class=\"album-art\"><img src=\""@ + esc(album_image_path(l.number)) + "\" alt=\""@
            + esc(l.album.title) + "\"/></div>\n"@
    } else {
        seq![]
    });
    let mut meta = String::new();
    match album.year {
        Some(y) => {
            push_decimal(&mut meta, y as u64);
            push_str(&mut meta, " · ");
        },
        None => {},
    }
    push_decimal(&mut meta, album.lyric_count() as u64);
    push_str(&mut meta, " of ");
    push_decimal(&mut meta, album.track_count() as u64);
    push_str(&mut meta, " tracks with lyrics");
    assert(meta@ =~= album_meta(l.album));
    push_str(&mut out, "<p class=\"album-meta\">");
    push_escaped(&mut out, meta.as_str());
    push_str(&mut out, "</p>\n");
    let multi = album.is_multi_disc();
    let ghost start = out@;
    let ghost ds = l.discs;
    let mut i: usize = 0;
    while i < layout.discs.len()
        invariant
            i <= layout.discs@.len(),
            ds == layout.discs@.map_values(|d: DiscLayout<'a>| d@),
            l == layout@,
            album.artist@ == l.album.artist,
            multi == (l.album.discs.len() > 1),
            out@ == start + disc_sections(ds.take(i as int), multi, l.album.artist),
        decreases layout.discs@.len() - i,
    {
        let d = &layout.discs[i];
        assert(ds[i as int] == d@);
        push_disc_section(&mut out, d, multi, album.artist.as_str());
        assert(ds.take(i + 1).drop_last() =~= ds.take(i as int));
        assert(out@ =~= start + disc_sections(ds.take(i + 1), multi, l.album.artist));
        i = i + 1;
    }
    assert(ds.take(i as int) =~= ds);
    push_str(&mut out, "</section>\n");
    push_str(&mut out, PAGE_FOOTER);
    out
}

pub open spec fn line_paragraphs(ls: Seq<Seq<char>>) -> Seq<char>
    decreases ls.len(),
{
    if ls.len() == 0 {
        seq![]
    } else {
        line_paragraphs(ls.drop_last()) + "<p>"@ + esc(ls.last()) + "</p>\n"@
    }
}

pub open spec fn stanza_blocks(ss: Seq<Seq<Seq<char>>>) -> Seq<char>
    decreases ss.len(),
{
    if ss.len() == 0 {
        seq![]
    } else {
        stanza_blocks(ss.drop_last()) + "<div class=\"stanza\">\n"@ + line_paragraphs(ss.last())
            + "</div>\n"@
    }
}

pub open spec fn spec_song_page(t: TrackView, album_artist: Seq<char>) -> Seq<char> {
    spec_page_header(t.title) + "<section epub:type=\"chapter\">\n<h1 class=\"song\">"@ + esc(t.title)
        + "</h1>\n"@ + (if t.artist != album_artist {
        "<p class=\"song-artist\">"@ + esc(t.artist) + "</p>\n"@
    } else {
        seq![]
    }) + stanza_blocks(t.stanzas) + "</section>\n"@ + PAGE_FOOTER@
}

/// Lines as HTML paragraphs, first line first.
pub open spec fn paragraphs_html(ls: Seq<Seq<char>>) -> Seq<char>
    decreases ls.len(),
{
    if ls.len() == 0 {
        seq![]
    } else {
        "<p>"@ + esc(ls[0]) + "</p>\n"@ + paragraphs_html(ls.drop_first())
    }
}

/// Stanzas as HTML blocks, first stanza first: each a `stanza` block of its lines.
pub open spec fn stanzas_html(ss: Seq<Seq<Seq<char>>>) -> Seq<char>
    decreases ss.len(),
{
    if ss.len() == 0 {
        seq![]
    } else {
        "<div class=\"stanza\">\n"@ + paragraphs_html(ss[0]) + "</div>\n"@ + stanzas_html(ss.drop_first())
    }
}

proof fn lemma_paragraphs_html_push(ls: Seq<Seq<char>>, x: Seq<char>)
    ensures
        paragraphs_html(ls.push(x)) == paragraphs_html(ls) + ("<p>"@ + esc(x) + "</p>\n"@),
    decreases ls.len(),
{
    if ls.len() == 0 {
        assert(ls.push(x).drop_first() =~= Seq::<Seq<char>>::empty());
        assert(paragraphs_html(Seq::<Seq<char>>::empty()) == Seq::<char>::empty());
        assert(ls.push(x)[0] == x);
        assert(paragraphs_html(ls.push(x)) =~= paragraphs_html(ls) + ("<p>"@ + esc(x) + "</p>\n"@));
    } else {
        lemma_paragraphs_html_push(ls.drop_first(), x);
        assert(ls.push(x).drop_first() =~= ls.drop_first().push(x));
        assert(ls.push(x)[0] == ls[0]);
        assert(paragraphs_html(ls.push(x)) =~= paragraphs_html(ls) + ("<p>"@ + esc(x) + "</p>\n"@));
    }
}

proof fn lemma_line_paragraphs_in_order(ls: Seq<Seq<char>>)
    ensures
        line_paragraphs(ls) == paragraphs_html(ls),
    decreases ls.len(),
{
    if ls.len() > 0 {
        lemma_line_paragraphs_in_order(ls.drop_last());
        lemma_paragraphs_html_push(ls.drop_last(), ls.last());
        assert(ls.drop_last().push(ls.last()) =~= ls);
        assert(line_paragraphs(ls) =~= paragraphs_html(ls));
    }
}

proof fn lemma_stanzas_html_push(ss: Seq<Seq<Seq<char>>>, x: Seq<Seq<char>>)
    ensures
        stanzas_html(ss.push(x)) == stanzas_html(ss) + ("<div class=\"stanza\">\n"@ + paragraphs_html(x) + "</div>\n"@),
    decreases ss.len(),
{
    if ss.len() == 0 {
        assert(ss.push(x).drop_first() =~= Seq::<Seq<Seq<char>>>::empty());
        assert(stanzas_html(Seq::<Seq<Seq<char>>>::empty()) == Seq::<char>::empty());
        assert(ss.push(x)[0] == x);
        assert(stanzas_html(ss.push(x)) =~= stanzas_html(ss) + ("<div class=\"stanza\">\n"@ + paragraphs_html(x) + "</div>\n"@));
    } else {
        lemma_stanzas_html_push(ss.drop_first(), x);
        assert(ss.push(x).drop_first() =~= ss.drop_first().push(x));
        assert(ss.push(x)[0] == ss[0]);
        assert(stanzas_html(ss.push(x)) =~= stanzas_html(ss) + ("<div class=\"stanza\">\n"@ + paragraphs_html(x) + "</div>\n"@));
    }
}

proof fn lemma_stanza_blocks_in_order(ss: Seq<Seq<Seq<char>>>)
    ensures
        stanza_blocks(ss) == stanzas_html(ss),
    decreases ss.len(),
{
    if ss.len() > 0 {
        lemma_stanza_blocks_in_order(ss.drop_last());
        lemma_line_paragraphs_in_order(ss.last());
        lemma_stanzas_html_push(ss.drop_last(), ss.last());
        assert(ss.drop_last().push(ss.last()) =~= ss);
        assert(stanza_blocks(ss) =~= stanzas_html(ss));
    }
}

/// A song's page is the page header, the song's title as its heading, the song's artist only
/// where it differs from the album's, then every one of its stanzas, in order, each a
/// `stanza` block with one paragraph per line, then the end of the section and the page.
pub proof fn lemma_song_page_shows_every_stanza(t: TrackView, album_artist: Seq<char>)
    ensures
        (stanzas_html(t.stanzas) + "</section>\n"@ + PAGE_FOOTER@).is_suffix_of(spec_song_page(t, album_artist)),
        spec_song_page(t, album_artist) == spec_page_header(t.title)
            + "<section epub:type=\"chapter\">\n<h1 class=\"song\">"@ + esc(t.title) + "</h1>\n"@ + (if t.artist
            != album_artist {
            "<p class=\"song-artist\">"@ + esc(t.artist) + "</p>\n"@
        } else {
            seq![]
        }) + stanzas_html(t.stanzas) + "</section>\n"@ + PAGE_FOOTER@,
{
    lemma_stanza_blocks_in_order(t.stanzas);
    let head = spec_page_header(t.title) + "<section epub:type=\"chapter\">\n<h1 class=\"song\">"@ + esc(t.title)
        + "</h1>\n"@ + (if t.artist != album_artist {
        "<p class=\"song-artist\">"@ + esc(t.artist) + "</p>\n"@
    } else {
        seq![]
    });
    let tail = stanzas_html(t.stanzas) + "</section>\n"@ + PAGE_FOOTER@;
    let page = spec_song_page(t, album_artist);
    assert(page =~= head + tail);
    assert(page.subrange(page.len() - tail.len(), page.len() as int) =~= tail);
}

/// One song's lyrics, on a page of its own: one paragraph per line, one block per stanza.
fn song_page(track: &Track, album_artist: &str) -> (r: String)
    ensures
        r@ == spec_song_page(track@, album_artist@),
{
    let mut out = page_header(track.title.as_str());
    push_str(&mut out, "<section epub:type=\"chapter\">\n<h1 class=\"song\">");
    push_escaped(&mut out, track.title.as_str());
    push_str(&mut out, "</h1>\n");
    let ghost t0 = out@;
    if !crate::text::str_eq(track.artist.as_str(), album_artist) {
        push_str(&mut out, "<p class=\"song-artist\">");
        push_escaped(&mut out, track.artist.as_str());
        push_str(&mut out, "</p>\n");
    }
    assert(out@ =~= t0 + if track@.artist != album_artist@ {
        "<p class=\"song-artist\">"@ + esc(track@.artist) + "</p>\n"@
    } else {
        seq![]
    });
    let ghost ss = track@.stanzas;
    let ghost start = out@;
    let mut i: usize = 0;
    while i < track.stanzas.len()
        invariant
            i <= track.stanzas@.len(),
            ss == crate::ebook::lyrics::stanzas_view(track.stanzas@),
            out@ == start + stanza_blocks(ss.take(i as int)),
        decreases track.stanzas@.len() - i,
    {
        let stanza = &track.stanzas[i];
        let ghost lv = crate::ebook::lyrics::strings_view(stanza@);
        assert(ss[i as int] == lv);
        push_str(&mut out, "<div class=\"stanza\">\n");
        let ghost s1 = out@;
        let mut j: usize = 0;
        while j < stanza.len()
            invariant
                j <= stanza@.len(),
                lv == crate::ebook::lyrics::strings_view(stanza@),
                out@ == s1 + line_paragraphs(lv.take(j as int)),
            decreases stanza@.len() - j,
        {
            assert(lv[j as int] == stanza@[j as int]@);
            push_str(&mut out, "<p>");
            push_escaped(&mut out, stanza[j].as_str());
            push_str(&mut out, "</p>\n");
            assert(lv.take(j + 1).drop_last() =~= lv.take(j as int));
            assert(out@ =~= s1 + line_paragraphs(lv.take(j + 1)));
            j = j + 1;
        }
        assert(lv.take(j as int) =~= lv);
        push_str(&mut out, "</div>\n");
        assert(ss.take(i + 1).drop_last() =~= ss.take(i as int));
        assert(out@ =~= start + stanza_blocks(ss.take(i + 1)));
        i = i + 1;
    }
    assert(ss.take(i as int) =~= ss);
    push_str(&mut out, "</section>\n");
    push_str(&mut out, PAGE_FOOTER);
    out
}

pub open spec fn spec_colophon_page(b: BookView) -> Seq<char> {
    spec_page_header("About this book"@)
        + "<section epub:type=\"colophon\">\n<h1>About this book</h1>\n<ul class=\"colophon\">\n"@
        + "<li>"@ + decimal(b.artists.len()) + " artists</li>\n<li>"@ + decimal(
        min_usize(book_albums(b.artists).len() as int) as nat,
    ) + " albums</li>\n<li>"@ + decimal(
        min_usize(album_lyric_total(book_albums(b.artists))) as nat,
    ) + " songs with lyrics</li>\n"@ + (if b.without_lyrics > 0 {
        "<li>"@ + decimal(b.without_lyrics as nat) + " tracks listed without lyrics</li>\n"@
    } else {
        seq![]
    }) + (if b.untagged > 0 {
        "<li>"@ + decimal(b.untagged as nat) + " files skipped for missing tags</li>\n"@
    } else {
        seq![]
    }) + "</ul>\n<p class=\"credit\">Generated by <code>lyrics ebook</code>.</p>\n</section>\n"@
        + PAGE_FOOTER@
}

/// The closing page: what the book contains and what it left out.
fn colophon_page(book: &Book) -> (r: String)
    ensures
        r@ == spec_colophon_page(book@),
{
    let mut out = page_header("About this book");
    push_str(
        &mut out,
        "<section epub:type=\"colophon\">\n<h1>About this book</h1>\n<ul class=\"colophon\">\n",
    );
    push_str(&mut out, "<li>");
    push_decimal(&mut out, book.artists.len() as u64);
    push_str(&mut out, " artists</li>\n<li>");
    push_decimal(&mut out, book.album_count() as u64);
    push_str(&mut out, " albums</li>\n<li>");
    push_decimal(&mut out, book.song_count() as u64);
    push_str(&mut out, " songs with lyrics</li>\n");
    let ghost t0 = out@;
    if book.without_lyrics > 0 {
        push_str(&mut out, "<li>");
        push_decimal(&mut out, book.without_lyrics as u64);
        push_str(&mut out, " tracks listed without lyrics</li>\n");
    }
    let ghost t1 = out@;
    if book.untagged > 0 {
        push_str(&mut out, "<li>");
        push_decimal(&mut out, book.untagged as u64);
        push_str(&mut out, " files skipped for missing tags</li>\n");
    }
    let ghost t2 = out@;
    push_str(
        &mut out,
        "</ul>\n<p class=\"credit\">Generated by <code>lyrics ebook</code>.</p>\n</section>\n",
    );
    push_str(&mut out, PAGE_FOOTER);
    proof {
        assert(book@.artists.len() == book.artists@.len());
        assert(t1 =~= t0 + if book@.without_lyrics > 0 {
            "<li>"@ + decimal(book@.without_lyrics as nat) + " tracks listed without lyrics</li>\n"@
        } else {
            seq![]
        });
        assert(t2 =~= t1 + if book@.untagged > 0 {
            "<li>"@ + decimal(book@.untagged as nat) + " files skipped for missing tags</li>\n"@
        } else {
            seq![]
        });
        assert(out@ =~= spec_colophon_page(book@));
    }
    out
}


// ---------------------------------------------------------------------------------------
// Navigation and the package document
// ---------------------------------------------------------------------------------------

pub open spec fn nav_albums(als: Seq<AlbumLayoutView>) -> Seq<char>
    decreases als.len(),
{
    if als.len() == 0 {
        seq![]
    } else {
        nav_albums(als.drop_last()) + "<li><a href=\""@ + esc(album_file(als.last().number)) + "\">"@
            + esc(als.last().album.title) + "</a></li>\n"@
    }
}

pub open spec fn nav_artist(l: ArtistLayoutView) -> Seq<char> {
    "<li><a href=\""@ + esc(artist_file(l.number)) + "\">"@ + esc(l.artist.name) + "</a>\n<ol>\n"@
        + nav_albums(l.albums) + "</ol>\n</li>\n"@
}

pub open spec fn nav_artists(ls: Seq<ArtistLayoutView>) -> Seq<char>
    decreases ls.len(),
{
    if ls.len() == 0 {
        seq![]
    } else {
        nav_artists(ls.drop_last()) + nav_artist(ls.last())
    }
}

pub open spec fn spec_nav(ls: Seq<ArtistLayoutView>, title: Seq<char>) -> Seq<char> {
    spec_page_header(title) + "<nav epub:type=\"toc\" id=\"toc\">\n<h1>Contents</h1>\n<ol>\n"@
        + nav_artists(ls) + "</ol>\n</nav>\n"@ + PAGE_FOOTER@
}

fn push_nav_artist<'a>(out: &mut String, a: &ArtistLayout<'a>)
    ensures
        final(out)@ == old(out)@ + nav_artist(a@),
{
    let ghost start = out@;
    push_str(out, "<li><a href=\"");
    push_escaped(out, artist_file_of(a.number).as_str());
    push_str(out, "\">");
    push_escaped(out, a.artist.name.as_str());
    push_str(out, "</a>\n<ol>\n");
    let ghost s1 = out@;
    let ghost als = a@.albums;
    let mut j: usize = 0;
    while j < a.albums.len()
        invariant
            j <= a.albums@.len(),
            als == a.albums@.map_values(|x: AlbumLayout<'a>| x@),
            out@ == s1 + nav_albums(als.take(j as int)),
        decreases a.albums@.len() - j,
    {
        let al = &a.albums[j];
        assert(als[j as int] == al@);
        push_str(out, "<li><a href=\"");
        push_escaped(out, album_file_of(al.number).as_str());
        push_str(out, "\">");
        push_escaped(out, al.album.title.as_str());
        push_str(out, "</a></li>\n");
        assert(als.take(j + 1).drop_last() =~= als.take(j as int));
        assert(out@ =~= s1 + nav_albums(als.take(j + 1)));
        j = j + 1;
    }
    assert(als.take(j as int) =~= als);
    push_str(out, "</ol>\n</li>\n");
    assert(out@ =~= start + nav_artist(a@));
}

/// The EPUB 3 navigation document: artists as sections, their albums nested beneath.
fn nav_document<'a>(artists: &Vec<ArtistLayout<'a>>, info: &BookInfo) -> (r: String)
    ensures
        r@ == spec_nav(artists@.map_values(|a: ArtistLayout<'a>| a@), info.title@),
{
    let ghost ls = artists@.map_values(|a: ArtistLayout<'a>| a@);
    let mut out = page_header(info.title.as_str());
    push_str(&mut out, "<nav epub:type=\"toc\" id=\"toc\">\n<h1>Contents</h1>\n<ol>\n");
    let ghost start = out@;
    let mut i: usize = 0;
    while i < artists.len()
        invariant
            i <= artists@.len(),
            ls == artists@.map_values(|a: ArtistLayout<'a>| a@),
            out@ == start + nav_artists(ls.take(i as int)),
        decreases artists@.len() - i,
    {
        assert(ls[i as int] == artists@[i as int]@);
        push_nav_artist(&mut out, &artists[i]);
        assert(ls.take(i + 1).drop_last() =~= ls.take(i as int));
        assert(out@ =~= start + nav_artists(ls.take(i + 1)));
        i = i + 1;
    }
    assert(ls.take(i as int) =~= ls);
    push_str(&mut out, "</ol>\n</nav>\n");
    push_str(&mut out, PAGE_FOOTER);
    out
}

pub open spec fn ncx_albums(als: Seq<AlbumLayoutView>, i: int, order: u32) -> (Seq<char>, u32)
    decreases als.len() - i,
{
    if i < 0 || i >= als.len() {
        (seq![], order)
    } else {
        let o = sat_inc(order);
        let a = als[i];
        let rest = ncx_albums(als, i + 1, o);
        (
            "<navPoint id=\"nav-"@ + esc(album_id(a.number)) + "\" playOrder=\""@ + decimal(o as nat)
                + "\">\n<navLabel><text>"@ + esc(a.album.title) + "</text></navLabel>\n<content src=\""@
                + esc(album_file(a.number)) + "\"/>\n</navPoint>\n"@ + rest.0,
            rest.1,
        )
    }
}

/// One artist's navPoint, its albums nested in it, and the play order after them.
pub open spec fn ncx_artist(l: ArtistLayoutView, order: u32) -> (Seq<char>, u32) {
    let o = sat_inc(order);
    let al = ncx_albums(l.albums, 0, o);
    (
        "<navPoint id=\"nav-"@ + esc(artist_id(l.number)) + "\" playOrder=\""@ + decimal(o as nat)
            + "\">\n<navLabel><text>"@ + esc(l.artist.name) + "</text></navLabel>\n<content src=\""@
            + esc(artist_file(l.number)) + "\"/>\n"@ + al.0 + "</navPoint>\n"@,
        al.1,
    )
}

pub open spec fn ncx_artists(ls: Seq<ArtistLayoutView>, i: int, order: u32) -> (Seq<char>, u32)
    decreases ls.len() - i,
{
    if i < 0 || i >= ls.len() {
        (seq![], order)
    } else {
        let item = ncx_artist(ls[i], order);
        let rest = ncx_artists(ls, i + 1, item.1);
        (item.0 + rest.0, rest.1)
    }
}

pub const NCX_HEAD: &'static str = "<?xml version=\"1.0\" encoding=\"utf-8\"?>\n<ncx xmlns=\"http://www.daisy.org/z3986/2005/ncx/\" version=\"2005-1\">\n<head>\n<meta name=\"dtb:uid\" content=\"";

pub const NCX_META: &'static str = "\"/>\n<meta name=\"dtb:depth\" content=\"2\"/>\n<meta name=\"dtb:totalPageCount\" content=\"0\"/>\n<meta name=\"dtb:maxPageNumber\" content=\"0\"/>\n</head>\n<docTitle><text>";

pub open spec fn spec_ncx(ls: Seq<ArtistLayoutView>, title: Seq<char>, uid: Seq<char>) -> Seq<char> {
    NCX_HEAD@ + esc(uid) + NCX_META@ + esc(title) + "</text></docTitle>\n<navMap>\n"@ + ncx_artists(
        ls,
        0,
        0,
    ).0 + "</navMap>\n</ncx>\n"@
}

fn push_ncx_albums<'a>(out: &mut String, als: &Vec<AlbumLayout<'a>>, order: u32) -> (r: u32)
    ensures
        final(out)@ == old(out)@ + ncx_albums(als@.map_values(|x: AlbumLayout<'a>| x@), 0, order).0,
        r == ncx_albums(als@.map_values(|x: AlbumLayout<'a>| x@), 0, order).1,
{
    let ghost v = als@.map_values(|x: AlbumLayout<'a>| x@);
    let ghost start = out@;
    let mut o = order;
    let mut j: usize = 0;
    while j < als.len()
        invariant
            j <= als@.len(),
            v == als@.map_values(|x: AlbumLayout<'a>| x@),
            out@ + ncx_albums(v, j as int, o).0 == start + ncx_albums(v, 0, order).0,
            ncx_albums(v, j as int, o).1 == ncx_albums(v, 0, order).1,
        decreases als@.len() - j,
    {
        let a = &als[j];
        assert(v[j as int] == a@);
        let ghost s0 = out@;
        let ghost here = ncx_albums(v, j as int, o);
        o = sat_inc_exec(o);
        push_str(out, "<navPoint id=\"nav-");
        push_escaped(out, album_id_of(a.number).as_str());
        push_str(out, "\" playOrder=\"");
        push_decimal(out, o as u64);
        push_str(out, "\">\n<navLabel><text>");
        push_escaped(out, a.album.title.as_str());
        push_str(out, "</text></navLabel>\n<content src=\"");
        push_escaped(out, album_file_of(a.number).as_str());
        push_str(out, "\"/>\n</navPoint>\n");
        assert(out@ + ncx_albums(v, j + 1, o).0 =~= s0 + here.0);
        j = j + 1;
    }
    assert(out@ + seq![] =~= out@);
    o
}

fn push_ncx_artist<'a>(out: &mut String, a: &ArtistLayout<'a>, order: u32) -> (r: u32)
    ensures
        final(out)@ == old(out)@ + ncx_artist(a@, order).0,
        r == ncx_artist(a@, order).1,
{
    let ghost start = out@;
    let o = sat_inc_exec(order);
    push_str(out, "<navPoint id=\"nav-");
    push_escaped(out, artist_id_of(a.number).as_str());
    push_str(out, "\" playOrder=\"");
    push_decimal(out, o as u64);
    push_str(out, "\">\n<navLabel><text>");
    push_escaped(out, a.artist.name.as_str());
    push_str(out, "</text></navLabel>\n<content src=\"");
    push_escaped(out, artist_file_of(a.number).as_str());
    push_str(out, "\"/>\n");
    let o2 = push_ncx_albums(out, &a.albums, o);
    push_str(out, "</navPoint>\n");
    assert(out@ =~= start + ncx_artist(a@, order).0);
    o2
}

/// The EPUB 2 navigation map, still what older readers look for.
fn ncx_document<'a>(artists: &Vec<ArtistLayout<'a>>, info: &BookInfo, uid: &str) -> (r: String)
    ensures
        r@ == spec_ncx(artists@.map_values(|a: ArtistLayout<'a>| a@), info.title@, uid@),
{
    let ghost ls = artists@.map_values(|a: ArtistLayout<'a>| a@);
    let mut out = String::from_str(NCX_HEAD);
    push_escaped(&mut out, uid);
    push_str(&mut out, NCX_META);
    push_escaped(&mut out, info.title.as_str());
    push_str(&mut out, "</text></docTitle>\n<navMap>\n");
    let ghost start = out@;
    let mut order: u32 = 0;
    let mut i: usize = 0;
    while i < artists.len()
        invariant
            i <= artists@.len(),
            ls == artists@.map_values(|a: ArtistLayout<'a>| a@),
            out@ + ncx_artists(ls, i as int, order).0 == start + ncx_artists(ls, 0, 0).0,
        decreases artists@.len() - i,
    {
        let a = &artists[i];
        assert(ls[i as int] == a@);
        let ghost s0 = out@;
        let ghost here = ncx_artists(ls, i as int, order);
        let o2 = push_ncx_artist(&mut out, a, order);
        assert(out@ + ncx_artists(ls, i + 1, o2).0 =~= s0 + here.0);
        order = o2;
        i = i + 1;
    }
    assert(out@ + seq![] =~= out@);
    push_str(&mut out, "</navMap>\n</ncx>\n");
    out
}

/// Timestamp written as the EPUB's `dcterms:modified`: a constant, so two builds of an
/// unchanged library are byte-identical.
pub const MODIFIED: &'static str = "2026-01-01T00:00:00Z";

pub const OPF_HEAD: &'static str = "<?xml version=\"1.0\" encoding=\"utf-8\"?>\n<package xmlns=\"http://www.idpf.org/2007/opf\" version=\"3.0\" unique-identifier=\"book-id\">\n<metadata xmlns:dc=\"http://purl.org/dc/elements/1.1/\">\n<dc:identifier id=\"book-id\">";

pub const OPF_FIXED_ITEMS: &'static str = "<item id=\"nav\" href=\"nav.xhtml\" media-type=\"application/xhtml+xml\" properties=\"nav\"/>\n<item id=\"ncx\" href=\"toc.ncx\" media-type=\"application/x-dtbncx+xml\"/>\n<item id=\"style\" href=\"style.css\" media-type=\"text/css\"/>\n";

pub open spec fn page_items(ps: Seq<PageView>) -> Seq<char>
    decreases ps.len(),
{
    if ps.len() == 0 {
        seq![]
    } else {
        page_items(ps.drop_last()) + "<item id=\""@ + esc(ps.last().id) + "\" href=\""@ + esc(
            ps.last().path,
        ) + "\" media-type=\"application/xhtml+xml\"/>\n"@
    }
}

pub open spec fn image_items(is: Seq<ImageView>, cover_id: Option<Seq<char>>) -> Seq<char>
    decreases is.len(),
{
    if is.len() == 0 {
        seq![]
    } else {
        image_items(is.drop_last(), cover_id) + "<item id=\""@ + esc(is.last().id) + "\" href=\""@
            + esc(is.last().path) + "\" media-type=\"image/jpeg\""@ + (if cover_id == Some(
            is.last().id,
        ) {
            " properties=\"cover-image\""@
        } else {
            seq![]
        }) + "/>\n"@
    }
}

pub open spec fn spine_items(ps: Seq<PageView>) -> Seq<char>
    decreases ps.len(),
{
    if ps.len() == 0 {
        seq![]
    } else {
        spine_items(ps.drop_last()) + "<itemref idref=\""@ + esc(ps.last().id) + "\"/>\n"@
    }
}

pub open spec fn spec_opf(
    title: Seq<char>,
    author: Seq<char>,
    uid: Seq<char>,
    ps: Seq<PageView>,
    is: Seq<ImageView>,
    cover_id: Option<Seq<char>>,
) -> Seq<char> {
    OPF_HEAD@ + esc(uid) + "</dc:identifier>\n<dc:title>"@ + esc(title) + "</dc:title>\n<dc:creator>"@
        + esc(author) + "</dc:creator>\n<dc:language>en</dc:language>\n<meta property=\"dcterms:modified\">"@
        + MODIFIED@ + "</meta>\n"@ + (match cover_id {
        Some(id) => "<meta name=\"cover\" content=\""@ + esc(id) + "\"/>\n"@,
        None => seq![],
    }) + "</metadata>\n<manifest>\n"@ + OPF_FIXED_ITEMS@ + page_items(ps) + image_items(is, cover_id)
        + "</manifest>\n<spine toc=\"ncx\">\n"@ + spine_items(ps) + "</spine>\n</package>\n"@
}

fn opt_str_eq(a: Option<&str>, b: &str) -> (r: bool)
    ensures
        r == (match a {
            Some(x) => x@ == b@,
            None => false,
        }),
{
    match a {
        Some(x) => crate::text::str_eq(x, b),
        None => false,
    }
}

/// The package document: metadata, the manifest of every file, and the spine's reading
/// order.
fn opf_document(info: &BookInfo, uid: &str, pages: &Vec<Page>, images: &Vec<Image>, cover_id: Option<&str>) -> (r: String)
    ensures
        r@ == spec_opf(
            info.title@,
            info.author@,
            uid@,
            page_views(pages@),
            image_views(images@),
            match cover_id {
                Some(c) => Some(c@),
                None => None,
            },
        ),
{
    let ghost cid: Option<Seq<char>> = match cover_id {
        Some(c) => Some(c@),
        None => None,
    };
    let ghost ps = page_views(pages@);
    let ghost is = image_views(images@);
    let mut out = String::from_str(OPF_HEAD);
    push_escaped(&mut out, uid);
    push_str(&mut out, "</dc:identifier>\n<dc:title>");
    push_escaped(&mut out, info.title.as_str());
    push_str(&mut out, "</dc:title>\n<dc:creator>");
    push_escaped(&mut out, info.author.as_str());
    push_str(&mut out, "</dc:creator>\n<dc:language>en</dc:language>\n<meta property=\"dcterms:modified\">");
    push_str(&mut out, MODIFIED);
    push_str(&mut out, "</meta>\n");
    let ghost c0 = out@;
    match cover_id {
        Some(id) => {
            push_str(&mut out, "<meta name=\"cover\" content=\"");
            push_escaped(&mut out, id);
            push_str(&mut out, "\"/>\n");
        },
        None => {},
    }
    assert(out@ =~= c0 + match cid {
        Some(id) => "<meta name=\"cover\" content=\""@ + esc(id) + "\"/>\n"@,
        None => seq![],
    });
    push_str(&mut out, "</metadata>\n<manifest>\n");
    push_str(&mut out, OPF_FIXED_ITEMS);
    let ghost s1 = out@;
    let mut i: usize = 0;
    while i < pages.len()
        invariant
            i <= pages@.len(),
            ps == page_views(pages@),
            out@ == s1 + page_items(ps.take(i as int)),
        decreases pages@.len() - i,
    {
        let p = &pages[i];
        assert(ps[i as int] == p@);
        push_str(&mut out, "<item id=\"");
        push_escaped(&mut out, p.id.as_str());
        push_str(&mut out, "\" href=\"");
        push_escaped(&mut out, p.path.as_str());
        push_str(&mut out, "\" media-type=\"application/xhtml+xml\"/>\n");
        assert(ps.take(i + 1).drop_last() =~= ps.take(i as int));
        assert(out@ =~= s1 + page_items(ps.take(i + 1)));
        i = i + 1;
    }
    assert(ps.take(i as int) =~= ps);
    let ghost s2 = out@;
    let mut j: usize = 0;
    while j < images.len()
        invariant
            j <= images@.len(),
            is == image_views(images@),
            cid == match cover_id {
                Some(c) => Some(c@),
                None => None::<Seq<char>>,
            },
            out@ == s2 + image_items(is.take(j as int), cid),
        decreases images@.len() - j,
    {
        let im = &images[j];
        assert(is[j as int] == im@);
        push_str(&mut out, "<item id=\"");
        push_escaped(&mut out, im.id.as_str());
        push_str(&mut out, "\" href=\"");
        push_escaped(&mut out, im.path.as_str());
        push_str(&mut out, "\" media-type=\"image/jpeg\"");
        let ghost t0 = out@;
        if opt_str_eq(cover_id, im.id.as_str()) {
            push_str(&mut out, " properties=\"cover-image\"");
        }
        assert(out@ =~= t0 + if cid == Some(im@.id) {
            " properties=\"cover-image\""@
        } else {
            seq![]
        });
        push_str(&mut out, "/>\n");
        assert(is.take(j + 1).drop_last() =~= is.take(j as int));
        assert(out@ =~= s2 + image_items(is.take(j + 1), cid));
        j = j + 1;
    }
    assert(is.take(j as int) =~= is);
    push_str(&mut out, "</manifest>\n<spine toc=\"ncx\">\n");
    let ghost s3 = out@;
    let mut k: usize = 0;
    while k < pages.len()
        invariant
            k <= pages@.len(),
            ps == page_views(pages@),
            out@ == s3 + spine_items(ps.take(k as int)),
        decreases pages@.len() - k,
    {
        let p = &pages[k];
        assert(ps[k as int] == p@);
        push_str(&mut out, "<itemref idref=\"");
        push_escaped(&mut out, p.id.as_str());
        push_str(&mut out, "\"/>\n");
        assert(ps.take(k + 1).drop_last() =~= ps.take(k as int));
        assert(out@ =~= s3 + spine_items(ps.take(k + 1)));
        k = k + 1;
    }
    assert(ps.take(k as int) =~= ps);
    push_str(&mut out, "</spine>\n</package>\n");
    out
}

/// The book's stylesheet: ragged right, hanging indents, and the list reset every list class
/// the pages use.
pub const STYLESHEET: &'static str = "@charset \"utf-8\";\n\n/* No margin on the body: the cover is full-bleed, and every other page indents itself via\n   `section` below. A margin here would letterbox the collage. */\nbody {\n  font-family: Georgia, \"Iowan Old Style\", \"Palatino Linotype\", serif;\n  line-height: 1.6;\n  margin: 0;\n  text-align: left;\n  -epub-hyphens: none;\n  hyphens: none;\n}\n\nsection { margin: 0 5%; }\n\nh1, h2 { font-weight: normal; line-height: 1.25; }\n\nh1.artist {\n  font-size: 2em;\n  margin: 3em 0 1.5em;\n  text-align: center;\n  letter-spacing: 0.02em;\n}\n\nh1.album { font-size: 1.5em; margin: 1.5em 0 1em; text-align: center; }\nh1.song { font-size: 1.4em; margin: 1.5em 0 0.25em; }\n\np.song-artist {\n  font-size: 0.85em;\n  font-style: italic;\n  color: #555;\n  margin: 0 0 1.5em;\n}\n\nh1.song + div.stanza { margin-top: 1.5em; }\n\ndiv.album-art { margin: 0 auto 1em; text-align: center; }\ndiv.album-art img { max-width: 65%; max-height: 45vh; }\n\np.album-meta {\n  text-align: center;\n  font-size: 0.85em;\n  color: #555;\n  margin: 0 0 2em;\n}\n\nh2.disc {\n  font-size: 0.8em;\n  text-transform: uppercase;\n  letter-spacing: 0.12em;\n  color: #666;\n  margin: 2em 0 0.5em;\n  border-bottom: 1px solid #ddd;\n  padding-bottom: 0.3em;\n}\n\nul.tracklist, ul.album-index, ul.contents, ul.colophon {\n  list-style: none;\n  padding: 0;\n  margin: 0;\n}\n\nul.tracklist li {\n  margin: 0.45em 0;\n  padding-left: 2.6em;\n  text-indent: -2.6em;\n}\n\nul.tracklist span.num {\n  display: inline-block;\n  width: 2.2em;\n  color: #999;\n  font-size: 0.85em;\n  text-indent: 0;\n}\n\nul.tracklist li.no-lyrics, ul.tracklist li.no-lyrics span.title { color: #999; }\n\nspan.tag {\n  font-size: 0.7em;\n  text-transform: uppercase;\n  letter-spacing: 0.08em;\n  color: #999;\n  margin-left: 0.5em;\n}\n\nspan.track-artist {\n  display: block;\n  font-size: 0.8em;\n  font-style: italic;\n  color: #777;\n  margin-left: 2.2em;\n  text-indent: 0;\n}\n\nh1.contents {\n  font-size: 1.6em;\n  margin: 2.5em 0 1.5em;\n  text-align: center;\n  letter-spacing: 0.08em;\n}\n\nul.contents li {\n  margin: 0.8em 0;\n  text-align: center;\n  font-size: 1.1em;\n}\n\nul.album-index li { margin: 0.6em 0; text-align: center; }\nul.album-index span.year { color: #999; font-size: 0.85em; }\n\n/* Stanzas are spaced by the block's own margin rather than by empty paragraphs, so a reader\n   that collapses empty elements still shows the song's shape. */\ndiv.stanza { margin: 0 0 1.4em; }\n\ndiv.stanza p {\n  margin: 0;\n  padding-left: 1.2em;\n  text-indent: -1.2em;\n  orphans: 2;\n  widows: 2;\n}\n\n/* Links carry no underline or color of their own. In a tracklist a rule under every title is\n   visual noise on a 40-track page, and the distinction that matters is already there: a track\n   with lyrics is set in the body color, one without is greyed by `li.no-lyrics`. */\na { color: inherit; text-decoration: none; }\n\ndiv.cover { margin: 0; padding: 0; text-align: center; }\nimg.cover-art { width: 100%; height: auto; display: block; }\n\nul.colophon li { margin: 0.4em 0; }\np.credit { margin-top: 2em; font-size: 0.85em; color: #777; }\n";


// ---------------------------------------------------------------------------------------
// The whole book
// ---------------------------------------------------------------------------------------

pub open spec fn song_pages(ts: Seq<TrackLayoutView>, album_artist: Seq<char>) -> Seq<PageView>
    decreases ts.len(),
{
    if ts.len() == 0 {
        seq![]
    } else {
        song_pages(ts.drop_last(), album_artist) + match ts.last().song {
            Some(n) => seq![
                PageView {
                    path: song_file(n),
                    id: song_id(n),
                    content: spec_song_page(ts.last().track, album_artist),
                },
            ],
            None => seq![],
        }
    }
}

pub open spec fn disc_song_pages(ds: Seq<DiscLayoutView>, album_artist: Seq<char>) -> Seq<PageView>
    decreases ds.len(),
{
    if ds.len() == 0 {
        seq![]
    } else {
        disc_song_pages(ds.drop_last(), album_artist) + song_pages(ds.last().tracks, album_artist)
    }
}

pub open spec fn album_pages(als: Seq<AlbumLayoutView>) -> Seq<PageView>
    decreases als.len(),
{
    if als.len() == 0 {
        seq![]
    } else {
        let l = als.last();
        album_pages(als.drop_last()) + seq![
            PageView { path: album_file(l.number), id: album_id(l.number), content: spec_album_page(l) },
        ] + disc_song_pages(l.discs, l.album.artist)
    }
}

/// Each artist's chapter page, then each album's page followed by its songs' pages.
pub open spec fn body_pages(ls: Seq<ArtistLayoutView>) -> Seq<PageView>
    decreases ls.len(),
{
    if ls.len() == 0 {
        seq![]
    } else {
        let l = ls.last();
        body_pages(ls.drop_last()) + seq![
            PageView { path: artist_file(l.number), id: artist_id(l.number), content: spec_artist_page(l) },
        ] + album_pages(l.albums)
    }
}

pub struct RenderedView {
    pub pages: Seq<PageView>,
    pub images: Seq<ImageView>,
    pub stylesheet: Seq<char>,
    pub nav: Seq<char>,
    pub ncx: Seq<char>,
    pub opf: Seq<char>,
    pub cover_id: Option<Seq<char>>,
}

impl View for Rendered {
    type V = RenderedView;

    open spec fn view(&self) -> RenderedView {
        RenderedView {
            pages: page_views(self.pages@),
            images: image_views(self.images@),
            stylesheet: self.stylesheet@,
            nav: self.nav@,
            ncx: self.ncx@,
            opf: self.opf@,
            cover_id: crate::path::opt_string_view(self.cover_id),
        }
    }
}

/// The documents of the book, in reading order.
pub open spec fn spec_pages(b: BookView, title: Seq<char>, ls: Seq<ArtistLayoutView>, has_cover: bool) -> Seq<PageView> {
    (if has_cover {
        seq![PageView { path: "cover.xhtml"@, id: "cover"@, content: spec_cover_page(title) }]
    } else {
        seq![]
    }) + seq![
        PageView { path: "contents.xhtml"@, id: "contents"@, content: spec_contents_page(ls, title) },
    ] + body_pages(ls) + seq![
        PageView { path: "colophon.xhtml"@, id: "colophon"@, content: spec_colophon_page(b) },
    ]
}

/// The book's identifier: its title's FNV-1a hash, in hex.
pub open spec fn book_uid(title: Seq<char>) -> Seq<char> {
    "urn:lyrics:"@ + hex16(fnv1a(vstd::utf8::encode_utf8(title)))
}

proof fn lemma_lay_albums_numbers(als: Seq<AlbumView>, i: int, st: LayoutState, thumbs: Seq<Option<Seq<u8>>>)
    requires
        0 <= i <= als.len(),
        st.album + (als.len() - i) <= u32::MAX,
    ensures
        ({
            let r = lay_albums(als, i, st, thumbs);
            &&& r.0.len() == als.len() - i
            &&& forall|j: int| 0 <= j < r.0.len() ==> (#[trigger] r.0[j]).number == st.album + 1 + j && r.0[j].album == als[i + j]
            &&& r.1.album == st.album + (als.len() - i)
            &&& r.1.k == st.k + (als.len() - i)
        }),
    decreases als.len() - i,
{
    if i < als.len() {
        let a = als[i];
        let n = sat_inc(st.album);
        let thumb = if a.art is Some { thumb_at(thumbs, st.k) } else { None };
        let images = match thumb {
            Some(b) => st.images.push(album_image(n, b)),
            None => st.images,
        };
        let d = lay_discs(a.discs, 0, st.song);
        let st2 = LayoutState { song: d.1, album: n, k: st.k + 1, images };
        lemma_lay_albums_numbers(als, i + 1, st2, thumbs);
        let rest = lay_albums(als, i + 1, st2, thumbs);
        let r = lay_albums(als, i, st, thumbs);
        let one = seq![AlbumLayoutView { album: a, number: n, has_art: thumb is Some, discs: d.0 }];
        assert(r.0 == one + rest.0);
        assert forall|j: int| 0 <= j < r.0.len() implies (#[trigger] r.0[j]).number == st.album + 1 + j && r.0[j].album == als[i + j] by {
            if j > 0 {
                assert(r.0[j] == rest.0[j - 1]);
            }
        }
    }
}

proof fn lemma_book_albums_push(ars: Seq<ArtistView>, k: int)
    requires
        0 <= k < ars.len(),
    ensures
        book_albums(ars.take(k + 1)) == book_albums(ars.take(k)) + ars[k].albums,
{
    assert(ars.take(k + 1).drop_last() =~= ars.take(k));
}

proof fn lemma_book_albums_len_mono(ars: Seq<ArtistView>, k: int)
    requires
        0 <= k <= ars.len(),
    ensures
        book_albums(ars.take(k)).len() <= book_albums(ars).len(),
    decreases ars.len() - k,
{
    if k < ars.len() {
        lemma_book_albums_push(ars, k);
        lemma_book_albums_len_mono(ars, k + 1);
    } else {
        assert(ars.take(k) =~= ars);
    }
}

proof fn lemma_lay_artists_numbers(ars: Seq<ArtistView>, i: int, st: LayoutState, thumbs: Seq<Option<Seq<u8>>>)
    requires
        0 <= i <= ars.len(),
        ars.len() < usize::MAX,
        st.album + book_albums(ars).len() - book_albums(ars.take(i)).len() <= u32::MAX,
    ensures
        ({
            let r = lay_artists(ars, i, st, thumbs);
            &&& r.0.len() == ars.len() - i
            &&& forall|j: int| 0 <= j < r.0.len() ==> {
                &&& (#[trigger] r.0[j]).number == i + j + 1
                &&& r.0[j].artist == ars[i + j]
                &&& r.0[j].albums.len() == ars[i + j].albums.len()
                &&& forall|m: int| 0 <= m < r.0[j].albums.len() ==> (#[trigger] r.0[j].albums[m]).number
                    == st.album + book_albums(ars.take(i + j)).len() - book_albums(ars.take(i)).len() + m + 1
            }
            &&& r.1.album == st.album + book_albums(ars).len() - book_albums(ars.take(i)).len()
        }),
    decreases ars.len() - i,
{
    if i == ars.len() {
        assert(ars.take(i) =~= ars);
    } else {
        let x = ars[i];
        lemma_book_albums_push(ars, i);
        lemma_book_albums_len_mono(ars, i + 1);
        let al = lay_albums(x.albums, 0, st, thumbs);
        lemma_lay_albums_numbers(x.albums, 0, st, thumbs);
        lemma_lay_artists_numbers(ars, i + 1, al.1, thumbs);
        let rest = lay_artists(ars, i + 1, al.1, thumbs);
        let r = lay_artists(ars, i, st, thumbs);
        let one = seq![ArtistLayoutView { artist: x, number: (i + 1) as usize, albums: al.0 }];
        assert(r.0 == one + rest.0);
        assert forall|j: int| 0 <= j < r.0.len() implies {
            &&& (#[trigger] r.0[j]).number == i + j + 1
            &&& r.0[j].artist == ars[i + j]
            &&& r.0[j].albums.len() == ars[i + j].albums.len()
            &&& forall|m: int| 0 <= m < r.0[j].albums.len() ==> (#[trigger] r.0[j].albums[m]).number
                == st.album + book_albums(ars.take(i + j)).len() - book_albums(ars.take(i)).len() + m + 1
        } by {
            if j > 0 {
                assert(r.0[j] == rest.0[j - 1]);
                assert(i + 1 + (j - 1) == i + j);
            } else {
                assert(r.0[0] == one[0]);
                assert(ars.take(i + 0) == ars.take(i));
            }
        }
    }
}

/// The layout numbers the book in reading order: the `k`-th artist (from 1) gets file
/// `artist-k`, and the albums are numbered 1, 2, ... across the whole book, each artist's
/// albums right after those of the artists before it.
pub proof fn lemma_layout_numbers_in_reading_order(b: BookView, thumbs: Seq<Option<Seq<u8>>>)
    requires
        b.artists.len() < usize::MAX,
        book_albums(b.artists).len() <= u32::MAX,
    ensures
        ({
            let ls = spec_lay_out(b, thumbs).0;
            &&& ls.len() == b.artists.len()
            &&& forall|k: int| 0 <= k < ls.len() ==> {
                &&& (#[trigger] ls[k]).number == k + 1
                &&& ls[k].artist == b.artists[k]
                &&& ls[k].albums.len() == b.artists[k].albums.len()
                &&& forall|m: int| 0 <= m < ls[k].albums.len() ==> (#[trigger] ls[k].albums[m]).number
                    == book_albums(b.artists.take(k)).len() + m + 1
            }
        }),
{
    let st = LayoutState { song: 0, album: 0, k: 0, images: seq![] };
    assert(b.artists.take(0) =~= Seq::<ArtistView>::empty());
    assert(book_albums(b.artists.take(0)) == Seq::<AlbumView>::empty());
    lemma_lay_artists_numbers(b.artists, 0, st, thumbs);
    let ls = spec_lay_out(b, thumbs).0;
    assert forall|k: int| 0 <= k < ls.len() implies {
        &&& (#[trigger] ls[k]).number == k + 1
        &&& ls[k].artist == b.artists[k]
        &&& ls[k].albums.len() == b.artists[k].albums.len()
        &&& forall|m: int| 0 <= m < ls[k].albums.len() ==> (#[trigger] ls[k].albums[m]).number
            == book_albums(b.artists.take(k)).len() + m + 1
    } by {
        assert(0 + k == k);
    }
}

/// How many of a disc's laid-out tracks have a song page.
pub open spec fn count_songs(ts: Seq<TrackLayoutView>) -> int
    decreases ts.len(),
{
    if ts.len() == 0 {
        0
    } else {
        count_songs(ts.drop_last()) + if ts.last().song is Some { 1int } else { 0 }
    }
}

proof fn lemma_song_pages_len(ts: Seq<TrackLayoutView>, aa: Seq<char>)
    ensures
        song_pages(ts, aa).len() == count_songs(ts),
    decreases ts.len(),
{
    if ts.len() > 0 {
        lemma_song_pages_len(ts.drop_last(), aa);
    }
}

proof fn lemma_count_songs_add(a: Seq<TrackLayoutView>, b: Seq<TrackLayoutView>)
    ensures
        count_songs(a + b) == count_songs(a) + count_songs(b),
    decreases b.len(),
{
    if b.len() == 0 {
        assert(a + b =~= a);
    } else {
        lemma_count_songs_add(a, b.drop_last());
        assert((a + b).drop_last() =~= a + b.drop_last());
    }
}

proof fn lemma_lyric_tracks_add(a: Seq<TrackView>, b: Seq<TrackView>)
    ensures
        lyric_tracks(a + b) == lyric_tracks(a) + lyric_tracks(b),
    decreases b.len(),
{
    if b.len() == 0 {
        assert(a + b =~= a);
    } else {
        lemma_lyric_tracks_add(a, b.drop_last());
        assert((a + b).drop_last() =~= a + b.drop_last());
    }
}

proof fn lemma_lay_tracks_songs(ts: Seq<TrackView>, i: int, song: u32)
    requires
        0 <= i <= ts.len(),
    ensures
        count_songs(lay_tracks(ts, i, song).0) == lyric_tracks(ts.skip(i)),
    decreases ts.len() - i,
{
    if i == ts.len() {
        assert(ts.skip(i) =~= Seq::<TrackView>::empty());
    } else {
        let has = ts[i].state.spec_has_lyrics();
        let s2 = if has { sat_inc(song) } else { song };
        lemma_lay_tracks_songs(ts, i + 1, s2);
        let rest = lay_tracks(ts, i + 1, s2);
        let one = seq![TrackLayoutView { track: ts[i], song: if has { Some(s2) } else { None }, position: track_position(i) }];
        assert(lay_tracks(ts, i, song).0 == one + rest.0);
        lemma_count_songs_add(one, rest.0);
        assert(one.drop_last() =~= Seq::<TrackLayoutView>::empty());
        assert(count_songs(Seq::<TrackLayoutView>::empty()) == 0);
        assert(count_songs(one) == if has { 1int } else { 0 });
        assert(ts.skip(i) =~= seq![ts[i]] + ts.skip(i + 1));
        lemma_lyric_tracks_add(seq![ts[i]], ts.skip(i + 1));
        assert(seq![ts[i]].drop_last() =~= Seq::<TrackView>::empty());
        assert(lyric_tracks(Seq::<TrackView>::empty()) == 0);
        assert(lyric_tracks(seq![ts[i]]) == if has { 1int } else { 0 });
    }
}

proof fn lemma_disc_song_pages_add(a: Seq<DiscLayoutView>, b: Seq<DiscLayoutView>, aa: Seq<char>)
    ensures
        disc_song_pages(a + b, aa) == disc_song_pages(a, aa) + disc_song_pages(b, aa),
    decreases b.len(),
{
    if b.len() == 0 {
        assert(a + b =~= a);
        assert(disc_song_pages(a, aa) + disc_song_pages(b, aa) =~= disc_song_pages(a, aa));
    } else {
        lemma_disc_song_pages_add(a, b.drop_last(), aa);
        assert((a + b).drop_last() =~= a + b.drop_last());
        assert(disc_song_pages(a + b, aa) =~= disc_song_pages(a, aa) + disc_song_pages(b, aa));
    }
}

proof fn lemma_disc_lyric_total_add(a: Seq<DiscView>, b: Seq<DiscView>)
    ensures
        disc_lyric_total(a + b) == disc_lyric_total(a) + disc_lyric_total(b),
    decreases b.len(),
{
    if b.len() == 0 {
        assert(a + b =~= a);
    } else {
        lemma_disc_lyric_total_add(a, b.drop_last());
        assert((a + b).drop_last() =~= a + b.drop_last());
    }
}

proof fn lemma_lay_discs_songs(ds: Seq<DiscView>, i: int, song: u32, aa: Seq<char>)
    requires
        0 <= i <= ds.len(),
    ensures
        disc_song_pages(lay_discs(ds, i, song).0, aa).len() == disc_lyric_total(ds.skip(i)),
    decreases ds.len() - i,
{
    if i == ds.len() {
        assert(ds.skip(i) =~= Seq::<DiscView>::empty());
    } else {
        let t = lay_tracks(ds[i].tracks, 0, song);
        lemma_lay_discs_songs(ds, i + 1, t.1, aa);
        lemma_lay_tracks_songs(ds[i].tracks, 0, song);
        assert(ds[i].tracks.skip(0) =~= ds[i].tracks);
        let rest = lay_discs(ds, i + 1, t.1);
        let one = seq![DiscLayoutView { number: ds[i].number, tracks: t.0 }];
        assert(lay_discs(ds, i, song).0 == one + rest.0);
        lemma_disc_song_pages_add(one, rest.0, aa);
        assert(one.drop_last() =~= Seq::<DiscLayoutView>::empty());
        assert(disc_song_pages(Seq::<DiscLayoutView>::empty(), aa) == Seq::<PageView>::empty());
        assert(one.last() == DiscLayoutView { number: ds[i].number, tracks: t.0 });
        assert(disc_song_pages(one, aa) =~= song_pages(t.0, aa));
        lemma_song_pages_len(t.0, aa);
        assert(ds.skip(i) =~= seq![ds[i]] + ds.skip(i + 1));
        lemma_disc_lyric_total_add(seq![ds[i]], ds.skip(i + 1));
        assert(seq![ds[i]].drop_last() =~= Seq::<DiscView>::empty());
        assert(disc_lyric_total(Seq::<DiscView>::empty()) == 0);
        assert(disc_lyric_total(seq![ds[i]]) == lyric_tracks(ds[i].tracks));
    }
}

proof fn lemma_album_pages_add(a: Seq<AlbumLayoutView>, b: Seq<AlbumLayoutView>)
    ensures
        album_pages(a + b) == album_pages(a) + album_pages(b),
    decreases b.len(),
{
    if b.len() == 0 {
        assert(a + b =~= a);
        assert(album_pages(a) + album_pages(b) =~= album_pages(a));
    } else {
        lemma_album_pages_add(a, b.drop_last());
        assert((a + b).drop_last() =~= a + b.drop_last());
        assert(album_pages(a + b) =~= album_pages(a) + album_pages(b));
    }
}

proof fn lemma_album_lyric_total_add(a: Seq<AlbumView>, b: Seq<AlbumView>)
    ensures
        album_lyric_total(a + b) == album_lyric_total(a) + album_lyric_total(b),
    decreases b.len(),
{
    if b.len() == 0 {
        assert(a + b =~= a);
    } else {
        lemma_album_lyric_total_add(a, b.drop_last());
        assert((a + b).drop_last() =~= a + b.drop_last());
    }
}

proof fn lemma_lay_albums_pages(als: Seq<AlbumView>, i: int, st: LayoutState, thumbs: Seq<Option<Seq<u8>>>)
    requires
        0 <= i <= als.len(),
        album_lyric_total(als.skip(i)) < usize::MAX,
    ensures
        album_pages(lay_albums(als, i, st, thumbs).0).len() == (als.len() - i) + album_lyric_total(als.skip(i)),
    decreases als.len() - i,
{
    if i == als.len() {
        assert(als.skip(i) =~= Seq::<AlbumView>::empty());
    } else {
        let a = als[i];
        assert(als.skip(i) =~= seq![a] + als.skip(i + 1));
        lemma_album_lyric_total_add(seq![a], als.skip(i + 1));
        assert(seq![a].drop_last() =~= Seq::<AlbumView>::empty());
        assert(album_lyric_total(Seq::<AlbumView>::empty()) == 0);
        assert(album_lyric_total(seq![a]) == min_usize(disc_lyric_total(a.discs)));
        crate::ebook::library::lemma_album_lyric_total_nonneg(als.skip(i + 1));
        crate::ebook::library::lemma_disc_totals_nonneg(a.discs);
        let n = sat_inc(st.album);
        let thumb = if a.art is Some { thumb_at(thumbs, st.k) } else { None };
        let images = match thumb {
            Some(b) => st.images.push(album_image(n, b)),
            None => st.images,
        };
        let d = lay_discs(a.discs, 0, st.song);
        let st2 = LayoutState { song: d.1, album: n, k: st.k + 1, images };
        lemma_lay_albums_pages(als, i + 1, st2, thumbs);
        lemma_lay_discs_songs(a.discs, 0, st.song, a.artist);
        assert(a.discs.skip(0) =~= a.discs);
        let rest = lay_albums(als, i + 1, st2, thumbs);
        let l = AlbumLayoutView { album: a, number: n, has_art: thumb is Some, discs: d.0 };
        let one = seq![l];
        assert(lay_albums(als, i, st, thumbs).0 == one + rest.0);
        lemma_album_pages_add(one, rest.0);
        assert(one.drop_last() =~= Seq::<AlbumLayoutView>::empty());
        assert(album_pages(Seq::<AlbumLayoutView>::empty()) == Seq::<PageView>::empty());
        assert(one.last() == l);
        assert(album_pages(one).len() == 1 + disc_song_pages(d.0, a.artist).len());
    }
}

proof fn lemma_body_pages_add(a: Seq<ArtistLayoutView>, b: Seq<ArtistLayoutView>)
    ensures
        body_pages(a + b) == body_pages(a) + body_pages(b),
    decreases b.len(),
{
    if b.len() == 0 {
        assert(a + b =~= a);
        assert(body_pages(a) + body_pages(b) =~= body_pages(a));
    } else {
        lemma_body_pages_add(a, b.drop_last());
        assert((a + b).drop_last() =~= a + b.drop_last());
        assert(body_pages(a + b) =~= body_pages(a) + body_pages(b));
    }
}

proof fn lemma_book_albums_add(a: Seq<ArtistView>, b: Seq<ArtistView>)
    ensures
        book_albums(a + b) == book_albums(a) + book_albums(b),
    decreases b.len(),
{
    if b.len() == 0 {
        assert(a + b =~= a);
        assert(book_albums(a) + book_albums(b) =~= book_albums(a));
    } else {
        lemma_book_albums_add(a, b.drop_last());
        assert((a + b).drop_last() =~= a + b.drop_last());
        assert(book_albums(a + b) =~= book_albums(a) + book_albums(b));
    }
}

proof fn lemma_lay_artists_pages(ars: Seq<ArtistView>, i: int, st: LayoutState, thumbs: Seq<Option<Seq<u8>>>)
    requires
        0 <= i <= ars.len(),
        album_lyric_total(book_albums(ars.skip(i))) < usize::MAX,
    ensures
        body_pages(lay_artists(ars, i, st, thumbs).0).len() == (ars.len() - i) + book_albums(ars.skip(i)).len()
            + album_lyric_total(book_albums(ars.skip(i))),
    decreases ars.len() - i,
{
    if i == ars.len() {
        assert(ars.skip(i) =~= Seq::<ArtistView>::empty());
    } else {
        let x = ars[i];
        assert(ars.skip(i) =~= seq![x] + ars.skip(i + 1));
        lemma_book_albums_add(seq![x], ars.skip(i + 1));
        assert(seq![x].drop_last() =~= Seq::<ArtistView>::empty());
        assert(book_albums(Seq::<ArtistView>::empty()) == Seq::<AlbumView>::empty());
        assert(seq![x].last() == x);
        assert(book_albums(seq![x]) =~= x.albums);
        lemma_album_lyric_total_add(x.albums, book_albums(ars.skip(i + 1)));
        crate::ebook::library::lemma_album_lyric_total_nonneg(x.albums);
        crate::ebook::library::lemma_album_lyric_total_nonneg(book_albums(ars.skip(i + 1)));
        let al = lay_albums(x.albums, 0, st, thumbs);
        assert(x.albums.skip(0) =~= x.albums);
        lemma_lay_albums_pages(x.albums, 0, st, thumbs);
        lemma_lay_artists_pages(ars, i + 1, al.1, thumbs);
        let rest = lay_artists(ars, i + 1, al.1, thumbs);
        let l = ArtistLayoutView { artist: x, number: (i + 1) as usize, albums: al.0 };
        let one = seq![l];
        assert(lay_artists(ars, i, st, thumbs).0 == one + rest.0);
        lemma_body_pages_add(one, rest.0);
        assert(one.drop_last() =~= Seq::<ArtistLayoutView>::empty());
        assert(body_pages(Seq::<ArtistLayoutView>::empty()) == Seq::<PageView>::empty());
        assert(one.last() == l);
        assert(body_pages(one).len() == 1 + album_pages(al.0).len());
    }
}

proof fn lemma_lay_tracks_numbers(ts: Seq<TrackView>, i: int, song: u32)
    requires
        0 <= i <= ts.len(),
        ts.len() <= u32::MAX,
        song + lyric_tracks(ts.skip(i)) <= u32::MAX,
    ensures
        ({
            let r = lay_tracks(ts, i, song);
            &&& r.0.len() == ts.len() - i
            &&& forall|j: int| 0 <= j < r.0.len() ==> {
                &&& (#[trigger] r.0[j]).track == ts[i + j]
                &&& r.0[j].position == i + j + 1
                &&& r.0[j].song == if ts[i + j].state.spec_has_lyrics() {
                    Some((song + lyric_tracks(ts.subrange(i, i + j + 1))) as u32)
                } else {
                    None
                }
            }
            &&& r.1 == song + lyric_tracks(ts.skip(i))
        }),
    decreases ts.len() - i,
{
    crate::ebook::library::lemma_lyric_tracks_bound(ts.skip(i));
    if i == ts.len() {
        assert(ts.skip(i) =~= Seq::<TrackView>::empty());
    } else {
        let has = ts[i].state.spec_has_lyrics();
        let one = seq![ts[i]];
        assert(one.drop_last() =~= Seq::<TrackView>::empty());
        assert(lyric_tracks(Seq::<TrackView>::empty()) == 0);
        assert(lyric_tracks(one) == if has { 1int } else { 0 });
        assert(ts.skip(i) =~= one + ts.skip(i + 1));
        lemma_lyric_tracks_add(one, ts.skip(i + 1));
        crate::ebook::library::lemma_lyric_tracks_bound(ts.skip(i + 1));
        let s2 = if has { sat_inc(song) } else { song };
        assert(s2 == song + lyric_tracks(one));
        lemma_lay_tracks_numbers(ts, i + 1, s2);
        let rest = lay_tracks(ts, i + 1, s2);
        let r = lay_tracks(ts, i, song);
        assert forall|j: int| 0 <= j < r.0.len() implies {
            &&& (#[trigger] r.0[j]).track == ts[i + j]
            &&& r.0[j].position == i + j + 1
            &&& r.0[j].song == if ts[i + j].state.spec_has_lyrics() {
                Some((song + lyric_tracks(ts.subrange(i, i + j + 1))) as u32)
            } else {
                None
            }
        } by {
            assert(ts.subrange(i, i + j + 1) =~= one + ts.subrange(i + 1, i + j + 1));
            lemma_lyric_tracks_add(one, ts.subrange(i + 1, i + j + 1));
            if j == 0 {
                assert(ts.subrange(i, i + 1) =~= one);
            } else {
                assert(r.0[j] == rest.0[j - 1]);
                assert(i + 1 + (j - 1) + 1 == i + j + 1);
            }
        }
    }
}

/// Within a disc laid out from song counter `song`, the `j`-th track (from 0) is at position
/// `j + 1`, and a track with lyrics gets the next song number: `song` plus the tracks with
/// lyrics up to and including it; a track without lyrics gets no song page. The counter
/// ends `song` plus the disc's tracks with lyrics.
pub proof fn lemma_track_numbers(ts: Seq<TrackView>, song: u32)
    requires
        ts.len() <= u32::MAX,
        song + lyric_tracks(ts) <= u32::MAX,
    ensures
        ({
            let r = lay_tracks(ts, 0, song);
            &&& r.0.len() == ts.len()
            &&& forall|j: int| 0 <= j < r.0.len() ==> {
                &&& (#[trigger] r.0[j]).track == ts[j]
                &&& r.0[j].position == j + 1
                &&& r.0[j].song == if ts[j].state.spec_has_lyrics() {
                    Some((song + lyric_tracks(ts.take(j + 1))) as u32)
                } else {
                    None
                }
            }
            &&& r.1 == song + lyric_tracks(ts)
        }),
{
    assert(ts.skip(0) =~= ts);
    lemma_lay_tracks_numbers(ts, 0, song);
    let r = lay_tracks(ts, 0, song);
    assert forall|j: int| 0 <= j < r.0.len() implies {
        &&& (#[trigger] r.0[j]).track == ts[j]
        &&& r.0[j].position == j + 1
        &&& r.0[j].song == if ts[j].state.spec_has_lyrics() {
            Some((song + lyric_tracks(ts.take(j + 1))) as u32)
        } else {
            None
        }
    } by {
        assert(ts.subrange(0, 0 + j + 1) =~= ts.take(j + 1));
    }
}

proof fn lemma_lay_discs_numbers(ds: Seq<DiscView>, i: int, song: u32)
    requires
        0 <= i <= ds.len(),
        forall|d: int| 0 <= d < ds.len() ==> (#[trigger] ds[d]).tracks.len() <= u32::MAX,
        song + disc_lyric_total(ds.skip(i)) <= u32::MAX,
    ensures
        ({
            let r = lay_discs(ds, i, song);
            &&& r.0.len() == ds.len() - i
            &&& forall|d: int| 0 <= d < r.0.len() ==> {
                &&& (#[trigger] r.0[d]).number == ds[i + d].number
                &&& r.0[d].tracks == lay_tracks(ds[i + d].tracks, 0, (song + disc_lyric_total(ds.subrange(i, i + d))) as u32).0
            }
            &&& r.1 == song + disc_lyric_total(ds.skip(i))
        }),
    decreases ds.len() - i,
{
    crate::ebook::library::lemma_disc_totals_nonneg(ds.skip(i));
    if i == ds.len() {
        assert(ds.skip(i) =~= Seq::<DiscView>::empty());
    } else {
        let one = seq![ds[i]];
        assert(one.drop_last() =~= Seq::<DiscView>::empty());
        assert(disc_lyric_total(Seq::<DiscView>::empty()) == 0);
        assert(disc_lyric_total(one) == lyric_tracks(ds[i].tracks));
        assert(ds.skip(i) =~= one + ds.skip(i + 1));
        lemma_disc_lyric_total_add(one, ds.skip(i + 1));
        crate::ebook::library::lemma_disc_totals_nonneg(ds.skip(i + 1));
        crate::ebook::library::lemma_lyric_tracks_bound(ds[i].tracks);
        assert(ds[i].tracks.skip(0) =~= ds[i].tracks);
        lemma_lay_tracks_numbers(ds[i].tracks, 0, song);
        let t = lay_tracks(ds[i].tracks, 0, song);
        lemma_lay_discs_numbers(ds, i + 1, t.1);
        let rest = lay_discs(ds, i + 1, t.1);
        let r = lay_discs(ds, i, song);
        assert forall|d: int| 0 <= d < r.0.len() implies {
            &&& (#[trigger] r.0[d]).number == ds[i + d].number
            &&& r.0[d].tracks == lay_tracks(ds[i + d].tracks, 0, (song + disc_lyric_total(ds.subrange(i, i + d))) as u32).0
        } by {
            if d == 0 {
                assert(ds.subrange(i, i) =~= Seq::<DiscView>::empty());
            } else {
                assert(r.0[d] == rest.0[d - 1]);
                assert(ds.subrange(i, i + d) =~= one + ds.subrange(i + 1, i + d));
                lemma_disc_lyric_total_add(one, ds.subrange(i + 1, i + d));
                assert(i + 1 + (d - 1) == i + d);
            }
        }
    }
}

/// Discs laid out from song counter `song` keep their numbers, and disc `d`'s tracks are
/// laid out from the counter after the tracks with lyrics of the discs before it: song
/// numbers run on from disc to disc.
pub proof fn lemma_disc_numbers(ds: Seq<DiscView>, song: u32)
    requires
        forall|d: int| 0 <= d < ds.len() ==> (#[trigger] ds[d]).tracks.len() <= u32::MAX,
        song + disc_lyric_total(ds) <= u32::MAX,
    ensures
        ({
            let r = lay_discs(ds, 0, song);
            &&& r.0.len() == ds.len()
            &&& forall|d: int| 0 <= d < r.0.len() ==> {
                &&& (#[trigger] r.0[d]).number == ds[d].number
                &&& r.0[d].tracks == lay_tracks(ds[d].tracks, 0, (song + disc_lyric_total(ds.take(d))) as u32).0
            }
            &&& r.1 == song + disc_lyric_total(ds)
        }),
{
    assert(ds.skip(0) =~= ds);
    lemma_lay_discs_numbers(ds, 0, song);
    let r = lay_discs(ds, 0, song);
    assert forall|d: int| 0 <= d < r.0.len() implies {
        &&& (#[trigger] r.0[d]).number == ds[d].number
        &&& r.0[d].tracks == lay_tracks(ds[d].tracks, 0, (song + disc_lyric_total(ds.take(d))) as u32).0
    } by {
        assert(ds.subrange(0, 0 + d) =~= ds.take(d));
    }
}

proof fn lemma_lay_tracks_counter(ts: Seq<TrackView>, i: int, song: u32)
    requires
        0 <= i <= ts.len(),
        song + lyric_tracks(ts.skip(i)) <= u32::MAX,
    ensures
        lay_tracks(ts, i, song).1 == song + lyric_tracks(ts.skip(i)),
    decreases ts.len() - i,
{
    if i == ts.len() {
        assert(ts.skip(i) =~= Seq::<TrackView>::empty());
    } else {
        let has = ts[i].state.spec_has_lyrics();
        let one = seq![ts[i]];
        assert(one.drop_last() =~= Seq::<TrackView>::empty());
        assert(lyric_tracks(Seq::<TrackView>::empty()) == 0);
        assert(lyric_tracks(one) == if has { 1int } else { 0 });
        assert(ts.skip(i) =~= one + ts.skip(i + 1));
        lemma_lyric_tracks_add(one, ts.skip(i + 1));
        crate::ebook::library::lemma_lyric_tracks_bound(ts.skip(i + 1));
        let s2 = if has { sat_inc(song) } else { song };
        lemma_lay_tracks_counter(ts, i + 1, s2);
    }
}

proof fn lemma_lay_discs_counter(ds: Seq<DiscView>, i: int, song: u32)
    requires
        0 <= i <= ds.len(),
        song + disc_lyric_total(ds.skip(i)) <= u32::MAX,
    ensures
        lay_discs(ds, i, song).1 == song + disc_lyric_total(ds.skip(i)),
    decreases ds.len() - i,
{
    if i == ds.len() {
        assert(ds.skip(i) =~= Seq::<DiscView>::empty());
    } else {
        let one = seq![ds[i]];
        assert(one.drop_last() =~= Seq::<DiscView>::empty());
        assert(disc_lyric_total(Seq::<DiscView>::empty()) == 0);
        assert(disc_lyric_total(one) == lyric_tracks(ds[i].tracks));
        assert(ds.skip(i) =~= one + ds.skip(i + 1));
        lemma_disc_lyric_total_add(one, ds.skip(i + 1));
        crate::ebook::library::lemma_disc_totals_nonneg(ds.skip(i + 1));
        crate::ebook::library::lemma_lyric_tracks_bound(ds[i].tracks);
        assert(ds[i].tracks.skip(0) =~= ds[i].tracks);
        lemma_lay_tracks_counter(ds[i].tracks, 0, song);
        lemma_lay_discs_counter(ds, i + 1, lay_tracks(ds[i].tracks, 0, song).1);
    }
}

proof fn lemma_lay_albums_songs(als: Seq<AlbumView>, i: int, st: LayoutState, thumbs: Seq<Option<Seq<u8>>>)
    requires
        0 <= i <= als.len(),
        st.song + album_lyric_total(als.skip(i)) < u32::MAX,
    ensures
        ({
            let r = lay_albums(als, i, st, thumbs);
            &&& r.0.len() == als.len() - i
            &&& forall|j: int| 0 <= j < r.0.len() ==> (#[trigger] r.0[j]).discs == lay_discs(
                als[i + j].discs,
                0,
                (st.song + album_lyric_total(als.subrange(i, i + j))) as u32,
            ).0
            &&& r.1.song == st.song + album_lyric_total(als.skip(i))
        }),
    decreases als.len() - i,
{
    crate::ebook::library::lemma_album_lyric_total_nonneg(als.skip(i));
    if i == als.len() {
        assert(als.skip(i) =~= Seq::<AlbumView>::empty());
    } else {
        let a = als[i];
        let one = seq![a];
        assert(one.drop_last() =~= Seq::<AlbumView>::empty());
        assert(album_lyric_total(Seq::<AlbumView>::empty()) == 0);
        assert(album_lyric_total(one) == min_usize(disc_lyric_total(a.discs)));
        assert(als.skip(i) =~= one + als.skip(i + 1));
        lemma_album_lyric_total_add(one, als.skip(i + 1));
        crate::ebook::library::lemma_album_lyric_total_nonneg(als.skip(i + 1));
        crate::ebook::library::lemma_disc_totals_nonneg(a.discs);
        assert(disc_lyric_total(a.discs) < u32::MAX);
        assert(a.discs.skip(0) =~= a.discs);
        lemma_lay_discs_counter(a.discs, 0, st.song);
        let n = sat_inc(st.album);
        let thumb = if a.art is Some { thumb_at(thumbs, st.k) } else { None };
        let images = match thumb {
            Some(b) => st.images.push(album_image(n, b)),
            None => st.images,
        };
        let d = lay_discs(a.discs, 0, st.song);
        let st2 = LayoutState { song: d.1, album: n, k: st.k + 1, images };
        lemma_lay_albums_songs(als, i + 1, st2, thumbs);
        let rest = lay_albums(als, i + 1, st2, thumbs);
        let r = lay_albums(als, i, st, thumbs);
        assert forall|j: int| 0 <= j < r.0.len() implies (#[trigger] r.0[j]).discs == lay_discs(
            als[i + j].discs,
            0,
            (st.song + album_lyric_total(als.subrange(i, i + j))) as u32,
        ).0 by {
            if j == 0 {
                assert(als.subrange(i, i) =~= Seq::<AlbumView>::empty());
            } else {
                assert(r.0[j] == rest.0[j - 1]);
                assert(als.subrange(i, i + j) =~= one + als.subrange(i + 1, i + j));
                lemma_album_lyric_total_add(one, als.subrange(i + 1, i + j));
                assert(i + 1 + (j - 1) == i + j);
            }
        }
    }
}

proof fn lemma_lay_artists_songs(ars: Seq<ArtistView>, i: int, st: LayoutState, thumbs: Seq<Option<Seq<u8>>>)
    requires
        0 <= i <= ars.len(),
        st.song + album_lyric_total(book_albums(ars.skip(i))) < u32::MAX,
    ensures
        ({
            let r = lay_artists(ars, i, st, thumbs);
            &&& r.0.len() == ars.len() - i
            &&& forall|j: int, m: int| 0 <= j < r.0.len() && 0 <= m < r.0[j].albums.len() ==> (#[trigger] r.0[j].albums[m]).discs
                == lay_discs(
                ars[i + j].albums[m].discs,
                0,
                (st.song + album_lyric_total(book_albums(ars.subrange(i, i + j)) + ars[i + j].albums.take(m))) as u32,
            ).0
            &&& r.1.song == st.song + album_lyric_total(book_albums(ars.skip(i)))
        }),
    decreases ars.len() - i,
{
    crate::ebook::library::lemma_album_lyric_total_nonneg(book_albums(ars.skip(i)));
    if i == ars.len() {
        assert(ars.skip(i) =~= Seq::<ArtistView>::empty());
        assert(book_albums(Seq::<ArtistView>::empty()) == Seq::<AlbumView>::empty());
    } else {
        let x = ars[i];
        let one = seq![x];
        assert(one.drop_last() =~= Seq::<ArtistView>::empty());
        assert(book_albums(Seq::<ArtistView>::empty()) == Seq::<AlbumView>::empty());
        assert(one.last() == x);
        assert(book_albums(one) =~= x.albums);
        assert(ars.skip(i) =~= one + ars.skip(i + 1));
        lemma_book_albums_add(one, ars.skip(i + 1));
        lemma_album_lyric_total_add(x.albums, book_albums(ars.skip(i + 1)));
        crate::ebook::library::lemma_album_lyric_total_nonneg(x.albums);
        crate::ebook::library::lemma_album_lyric_total_nonneg(book_albums(ars.skip(i + 1)));
        assert(x.albums.skip(0) =~= x.albums);
        lemma_lay_albums_songs(x.albums, 0, st, thumbs);
        let al = lay_albums(x.albums, 0, st, thumbs);
        lemma_lay_artists_songs(ars, i + 1, al.1, thumbs);
        let rest = lay_artists(ars, i + 1, al.1, thumbs);
        let r = lay_artists(ars, i, st, thumbs);
        assert forall|j: int, m: int| 0 <= j < r.0.len() && 0 <= m < r.0[j].albums.len() implies (#[trigger] r.0[j].albums[m]).discs
            == lay_discs(
            ars[i + j].albums[m].discs,
            0,
            (st.song + album_lyric_total(book_albums(ars.subrange(i, i + j)) + ars[i + j].albums.take(m))) as u32,
        ).0 by {
            if j == 0 {
                assert(ars.subrange(i, i) =~= Seq::<ArtistView>::empty());
                assert(book_albums(ars.subrange(i, i)) + x.albums.take(m) =~= x.albums.subrange(0, 0 + m));
            } else {
                assert(r.0[j] == rest.0[j - 1]);
                assert(ars.subrange(i, i + j) =~= one + ars.subrange(i + 1, i + j));
                lemma_book_albums_add(one, ars.subrange(i + 1, i + j));
                let before = book_albums(ars.subrange(i + 1, i + j)) + ars[i + j].albums.take(m);
                assert(book_albums(ars.subrange(i, i + j)) + ars[i + j].albums.take(m) =~= x.albums + before);
                lemma_album_lyric_total_add(x.albums, before);
                assert(i + 1 + (j - 1) == i + j);
            }
        }
    }
}

/// Song numbers run through the whole book in reading order: album `m` of artist `k` has its
/// discs laid out from the counter after every track with lyrics that comes before it, in
/// the artists before and the albums before it; with `lemma_disc_numbers` and
/// `lemma_track_numbers` this numbers each track with lyrics by its place among all of them.
pub proof fn lemma_song_numbers_run_through_the_book(b: BookView, thumbs: Seq<Option<Seq<u8>>>, k: int, m: int)
    requires
        album_lyric_total(book_albums(b.artists)) < u32::MAX,
        0 <= k < b.artists.len(),
        0 <= m < spec_lay_out(b, thumbs).0[k].albums.len(),
    ensures
        spec_lay_out(b, thumbs).0[k].albums[m].discs == lay_discs(
            b.artists[k].albums[m].discs,
            0,
            album_lyric_total(book_albums(b.artists.take(k)) + b.artists[k].albums.take(m)) as u32,
        ).0,
{
    let st = LayoutState { song: 0, album: 0, k: 0, images: seq![] };
    assert(b.artists.skip(0) =~= b.artists);
    lemma_lay_artists_songs(b.artists, 0, st, thumbs);
    assert(b.artists.subrange(0, 0 + k) =~= b.artists.take(k));
    let ls = lay_artists(b.artists, 0, st, thumbs).0;
    assert(ls[k].albums[m] == spec_lay_out(b, thumbs).0[k].albums[m]);
}

/// Whether a page is a song's page: its file name starts with `song-`.
pub open spec fn is_song_page(p: PageView) -> bool {
    p.path.len() >= 5 && p.path.take(5) == "song-"@
}

/// How many of the pages are song pages.
pub open spec fn count_song_pages(ps: Seq<PageView>) -> int
    decreases ps.len(),
{
    if ps.len() == 0 {
        0
    } else {
        count_song_pages(ps.drop_last()) + if is_song_page(ps.last()) { 1int } else { 0 }
    }
}

proof fn lemma_count_song_pages_add(a: Seq<PageView>, b: Seq<PageView>)
    ensures
        count_song_pages(a + b) == count_song_pages(a) + count_song_pages(b),
    decreases b.len(),
{
    if b.len() == 0 {
        assert(a + b =~= a);
    } else {
        lemma_count_song_pages_add(a, b.drop_last());
        assert((a + b).drop_last() =~= a + b.drop_last());
        assert((a + b).last() == b.last());
    }
}

proof fn lemma_one_page_count(p: PageView)
    ensures
        count_song_pages(seq![p]) == if is_song_page(p) { 1int } else { 0 },
{
    assert(seq![p].drop_last() =~= Seq::<PageView>::empty());
    assert(seq![p].last() == p);
    assert(count_song_pages(Seq::<PageView>::empty()) == 0);
}

proof fn lemma_song_file_is_song_page(n: u32)
    ensures
        song_file(n).len() >= 5 && song_file(n).take(5) == "song-"@,
{
    reveal_strlit("song-");
    assert(song_file(n).take(5) =~= "song-"@);
}

proof fn lemma_not_song_page(path: Seq<char>)
    requires
        path.len() > 0,
        path[0] != 's',
    ensures
        !(path.len() >= 5 && path.take(5) == "song-"@),
{
    reveal_strlit("song-");
    if path.len() >= 5 && path.take(5) == "song-"@ {
        assert(path.take(5)[0] == path[0]);
    }
}

proof fn lemma_song_pages_all_songs(ts: Seq<TrackLayoutView>, aa: Seq<char>)
    ensures
        count_song_pages(song_pages(ts, aa)) == song_pages(ts, aa).len(),
    decreases ts.len(),
{
    if ts.len() > 0 {
        lemma_song_pages_all_songs(ts.drop_last(), aa);
        let prev = song_pages(ts.drop_last(), aa);
        match ts.last().song {
            Some(n) => {
                let p = PageView { path: song_file(n), id: song_id(n), content: spec_song_page(ts.last().track, aa) };
                lemma_song_file_is_song_page(n);
                lemma_count_song_pages_add(prev, seq![p]);
                lemma_one_page_count(p);
            },
            None => {
                assert(song_pages(ts, aa) =~= prev);
            },
        }
    }
}

proof fn lemma_disc_song_pages_all_songs(ds: Seq<DiscLayoutView>, aa: Seq<char>)
    ensures
        count_song_pages(disc_song_pages(ds, aa)) == disc_song_pages(ds, aa).len(),
    decreases ds.len(),
{
    if ds.len() > 0 {
        lemma_disc_song_pages_all_songs(ds.drop_last(), aa);
        lemma_song_pages_all_songs(ds.last().tracks, aa);
        lemma_count_song_pages_add(disc_song_pages(ds.drop_last(), aa), song_pages(ds.last().tracks, aa));
    }
}

proof fn lemma_album_pages_songs(als: Seq<AlbumLayoutView>)
    ensures
        count_song_pages(album_pages(als)) + als.len() == album_pages(als).len(),
    decreases als.len(),
{
    if als.len() > 0 {
        let l = als.last();
        lemma_album_pages_songs(als.drop_last());
        let p = PageView { path: album_file(l.number), id: album_id(l.number), content: spec_album_page(l) };
        reveal_strlit("album-");
        assert(p.path[0] == 'a');
        lemma_not_song_page(p.path);
        lemma_one_page_count(p);
        lemma_disc_song_pages_all_songs(l.discs, l.album.artist);
        lemma_count_song_pages_add(album_pages(als.drop_last()), seq![p]);
        lemma_count_song_pages_add(album_pages(als.drop_last()) + seq![p], disc_song_pages(l.discs, l.album.artist));
    }
}

/// How many albums the artists' layouts hold together.
pub open spec fn layout_album_count(ls: Seq<ArtistLayoutView>) -> int
    decreases ls.len(),
{
    if ls.len() == 0 {
        0
    } else {
        layout_album_count(ls.drop_last()) + ls.last().albums.len()
    }
}

proof fn lemma_body_pages_songs(ls: Seq<ArtistLayoutView>)
    ensures
        count_song_pages(body_pages(ls)) + ls.len() + layout_album_count(ls) == body_pages(ls).len(),
    decreases ls.len(),
{
    if ls.len() > 0 {
        let l = ls.last();
        lemma_body_pages_songs(ls.drop_last());
        let p = PageView { path: artist_file(l.number), id: artist_id(l.number), content: spec_artist_page(l) };
        reveal_strlit("artist-");
        assert(p.path[0] == 'a');
        lemma_not_song_page(p.path);
        lemma_one_page_count(p);
        lemma_album_pages_songs(l.albums);
        lemma_count_song_pages_add(body_pages(ls.drop_last()), seq![p]);
        lemma_count_song_pages_add(body_pages(ls.drop_last()) + seq![p], album_pages(l.albums));
    }
}

proof fn lemma_layout_album_count(ls: Seq<ArtistLayoutView>, ars: Seq<ArtistView>)
    requires
        ls.len() == ars.len(),
        forall|j: int| 0 <= j < ls.len() ==> (#[trigger] ls[j]).albums.len() == ars[j].albums.len(),
    ensures
        layout_album_count(ls) == book_albums(ars).len(),
    decreases ls.len(),
{
    if ls.len() > 0 {
        lemma_layout_album_count(ls.drop_last(), ars.drop_last());
        assert(ls.last() == ls[ls.len() - 1]);
    }
}

/// Whether every page's file name starts with `a` or `s`, as artist, album and song pages do.
pub open spec fn body_named(ps: Seq<PageView>) -> bool {
    forall|k: int| 0 <= k < ps.len() ==> (#[trigger] ps[k]).path.len() > 0 && (ps[k].path[0] == 'a' || ps[k].path[0] == 's')
}

proof fn lemma_body_named_add(a: Seq<PageView>, b: Seq<PageView>)
    requires
        body_named(a),
        body_named(b),
    ensures
        body_named(a + b),
{
    assert forall|k: int| 0 <= k < (a + b).len() implies (#[trigger] (a + b)[k]).path.len() > 0 && ((a + b)[k].path[0] == 'a'
        || (a + b)[k].path[0] == 's') by {
        if k >= a.len() {
            assert((a + b)[k] == b[k - a.len()]);
        } else {
            assert((a + b)[k] == a[k]);
        }
    }
}

proof fn lemma_song_pages_named(ts: Seq<TrackLayoutView>, aa: Seq<char>)
    ensures
        body_named(song_pages(ts, aa)),
    decreases ts.len(),
{
    reveal_strlit("song-");
    if ts.len() > 0 {
        lemma_song_pages_named(ts.drop_last(), aa);
        match ts.last().song {
            Some(n) => {
                let p = PageView { path: song_file(n), id: song_id(n), content: spec_song_page(ts.last().track, aa) };
                assert(p.path[0] == 's');
                lemma_body_named_add(song_pages(ts.drop_last(), aa), seq![p]);
            },
            None => {
                assert(song_pages(ts, aa) =~= song_pages(ts.drop_last(), aa));
            },
        }
    }
}

proof fn lemma_disc_song_pages_named(ds: Seq<DiscLayoutView>, aa: Seq<char>)
    ensures
        body_named(disc_song_pages(ds, aa)),
    decreases ds.len(),
{
    if ds.len() > 0 {
        lemma_disc_song_pages_named(ds.drop_last(), aa);
        lemma_song_pages_named(ds.last().tracks, aa);
        lemma_body_named_add(disc_song_pages(ds.drop_last(), aa), song_pages(ds.last().tracks, aa));
    }
}

proof fn lemma_album_pages_named(als: Seq<AlbumLayoutView>)
    ensures
        body_named(album_pages(als)),
    decreases als.len(),
{
    reveal_strlit("album-");
    if als.len() > 0 {
        let l = als.last();
        lemma_album_pages_named(als.drop_last());
        let p = PageView { path: album_file(l.number), id: album_id(l.number), content: spec_album_page(l) };
        assert(p.path[0] == 'a');
        lemma_body_named_add(album_pages(als.drop_last()), seq![p]);
        lemma_disc_song_pages_named(l.discs, l.album.artist);
        lemma_body_named_add(album_pages(als.drop_last()) + seq![p], disc_song_pages(l.discs, l.album.artist));
    }
}

proof fn lemma_body_pages_named(ls: Seq<ArtistLayoutView>)
    ensures
        body_named(body_pages(ls)),
    decreases ls.len(),
{
    reveal_strlit("artist-");
    if ls.len() > 0 {
        let l = ls.last();
        lemma_body_pages_named(ls.drop_last());
        let p = PageView { path: artist_file(l.number), id: artist_id(l.number), content: spec_artist_page(l) };
        assert(p.path[0] == 'a');
        lemma_body_named_add(body_pages(ls.drop_last()), seq![p]);
        lemma_album_pages_named(l.albums);
        lemma_body_named_add(body_pages(ls.drop_last()) + seq![p], album_pages(l.albums));
    }
}

/// The cover page is the only page named `cover.xhtml`: no other page of the book is.
pub proof fn lemma_only_the_cover_page_is_the_cover(
    b: BookView,
    title: Seq<char>,
    author: Seq<char>,
    thumbs: Seq<Option<Seq<u8>>>,
    cover: Option<Seq<u8>>,
    k: int,
)
    requires
        0 <= k < spec_render(b, title, author, thumbs, cover).pages.len(),
        spec_render(b, title, author, thumbs, cover).pages[k].path == "cover.xhtml"@,
    ensures
        k == 0,
        cover is Some,
{
    reveal_strlit("cover.xhtml");
    reveal_strlit("contents.xhtml");
    reveal_strlit("colophon.xhtml");
    let l = spec_lay_out(b, thumbs);
    let ls = l.0;
    lemma_body_pages_named(ls);
    let r = spec_render(b, title, author, thumbs, cover);
    let cp = PageView { path: "cover.xhtml"@, id: "cover"@, content: spec_cover_page(title) };
    let tp = PageView { path: "contents.xhtml"@, id: "contents"@, content: spec_contents_page(ls, title) };
    let fp = PageView { path: "colophon.xhtml"@, id: "colophon"@, content: spec_colophon_page(b) };
    let front = if cover is Some { seq![cp] } else { Seq::<PageView>::empty() };
    let body = body_pages(ls);
    assert(r.pages == front + seq![tp] + body + seq![fp]);
    let f = front.len() as int;
    if k == f {
        assert(r.pages[k] == tp);
        assert("contents.xhtml"@[2] != "cover.xhtml"@[2]);
    } else if f < k < f + 1 + body.len() {
        assert(r.pages[k] == body[k - f - 1]);
        assert(body[k - f - 1].path[0] == 'a' || body[k - f - 1].path[0] == 's');
    } else if k == f + 1 + body.len() {
        assert(r.pages[k] == fp);
        assert("colophon.xhtml"@[2] != "cover.xhtml"@[2]);
    }
}

/// `Book::song_count` counts exactly the book's song pages: the rendered pages whose file
/// name starts with `song-` are as many as the tracks with lyrics.
pub proof fn lemma_song_count_is_song_pages(
    b: BookView,
    title: Seq<char>,
    author: Seq<char>,
    thumbs: Seq<Option<Seq<u8>>>,
    cover: Option<Seq<u8>>,
)
    requires
        album_lyric_total(book_albums(b.artists)) < usize::MAX,
        b.artists.len() < usize::MAX,
        book_albums(b.artists).len() <= u32::MAX,
    ensures
        count_song_pages(spec_render(b, title, author, thumbs, cover).pages) == min_usize(
            album_lyric_total(book_albums(b.artists)),
        ),
{
    reveal_strlit("cover.xhtml");
    reveal_strlit("contents.xhtml");
    reveal_strlit("colophon.xhtml");
    let l = spec_lay_out(b, thumbs);
    let ls = l.0;
    lemma_one_page_per_song(b, title, author, thumbs, cover);
    lemma_layout_numbers_in_reading_order(b, thumbs);
    lemma_layout_album_count(ls, b.artists);
    lemma_body_pages_songs(ls);
    let st = LayoutState { song: 0, album: 0, k: 0, images: seq![] };
    assert(b.artists.skip(0) =~= b.artists);
    lemma_lay_artists_pages(b.artists, 0, st, thumbs);
    let cp = PageView { path: "cover.xhtml"@, id: "cover"@, content: spec_cover_page(title) };
    let tp = PageView { path: "contents.xhtml"@, id: "contents"@, content: spec_contents_page(ls, title) };
    let fp = PageView { path: "colophon.xhtml"@, id: "colophon"@, content: spec_colophon_page(b) };
    lemma_not_song_page(cp.path);
    lemma_not_song_page(tp.path);
    lemma_not_song_page(fp.path);
    lemma_one_page_count(cp);
    lemma_one_page_count(tp);
    lemma_one_page_count(fp);
    let front = if cover is Some { seq![cp] } else { seq![] };
    assert(count_song_pages(Seq::<PageView>::empty()) == 0);
    lemma_count_song_pages_add(front, seq![tp]);
    lemma_count_song_pages_add(front + seq![tp], body_pages(ls));
    lemma_count_song_pages_add(front + seq![tp] + body_pages(ls), seq![fp]);
    assert(spec_render(b, title, author, thumbs, cover).pages == front + seq![tp] + body_pages(ls) + seq![fp]);
}

/// A book has one page for every song: its pages are the cover page when there is a cover
/// image, the contents, a page per artist, a page per album, a page per track with lyrics,
/// and the colophon; and the tracks with lyrics are as many as `Book::song_count` counts.
pub proof fn lemma_one_page_per_song(
    b: BookView,
    title: Seq<char>,
    author: Seq<char>,
    thumbs: Seq<Option<Seq<u8>>>,
    cover: Option<Seq<u8>>,
)
    requires
        album_lyric_total(book_albums(b.artists)) < usize::MAX,
    ensures
        spec_render(b, title, author, thumbs, cover).pages.len() == (if cover is Some { 1int } else { 0 }) + 2
            + b.artists.len() + book_albums(b.artists).len() + min_usize(album_lyric_total(book_albums(b.artists))),
{
    let st = LayoutState { song: 0, album: 0, k: 0, images: seq![] };
    assert(b.artists.skip(0) =~= b.artists);
    lemma_lay_artists_pages(b.artists, 0, st, thumbs);
    crate::ebook::library::lemma_album_lyric_total_nonneg(book_albums(b.artists));
}

/// Everything the container holds for a book: the cover page (only when there is a cover
/// image), the contents page, the chapters in reading order, the colophon; the album images
/// then the cover image; the stylesheet and the three navigation documents.
pub open spec fn spec_render(
    b: BookView,
    title: Seq<char>,
    author: Seq<char>,
    thumbs: Seq<Option<Seq<u8>>>,
    cover: Option<Seq<u8>>,
) -> RenderedView {
    let l = spec_lay_out(b, thumbs);
    let images = match cover {
        Some(bytes) => l.1.push(ImageView { path: "images/cover.jpg"@, id: "cover-image"@, bytes }),
        None => l.1,
    };
    let cover_id = if cover is Some {
        Some("cover-image"@)
    } else {
        None
    };
    let pages = spec_pages(b, title, l.0, cover is Some);
    let uid = book_uid(title);
    RenderedView {
        pages,
        images,
        stylesheet: STYLESHEET@,
        nav: spec_nav(l.0, title),
        ncx: spec_ncx(l.0, title, uid),
        opf: spec_opf(title, author, uid, pages, images, cover_id),
        cover_id,
    }
}

/// The manifest entry for one page.
pub open spec fn page_item(p: PageView) -> Seq<char> {
    "<item id=\""@ + esc(p.id) + "\" href=\""@ + esc(p.path) + "\" media-type=\"application/xhtml+xml\"/>\n"@
}

/// The spine entry for one page.
pub open spec fn spine_item(p: PageView) -> Seq<char> {
    "<itemref idref=\""@ + esc(p.id) + "\"/>\n"@
}

proof fn lemma_items_split(a: Seq<PageView>, b: Seq<PageView>)
    ensures
        page_items(a + b) == page_items(a) + page_items(b),
        spine_items(a + b) == spine_items(a) + spine_items(b),
    decreases b.len(),
{
    if b.len() == 0 {
        assert(a + b =~= a);
        assert(page_items(a) + page_items(b) =~= page_items(a));
        assert(spine_items(a) + spine_items(b) =~= spine_items(a));
    } else {
        lemma_items_split(a, b.drop_last());
        assert((a + b).drop_last() =~= a + b.drop_last());
        assert((a + b).last() == b.last());
        assert(page_items(a + b) =~= page_items(a) + page_items(b));
        assert(spine_items(a + b) =~= spine_items(a) + spine_items(b));
    }
}

/// The manifest's page entries and the spine are the pages' entries in page order: page
/// `k`'s entry follows the entries of the pages before it and precedes those after it.
pub proof fn lemma_items_at(ps: Seq<PageView>, k: int)
    requires
        0 <= k < ps.len(),
    ensures
        page_items(ps) == page_items(ps.take(k)) + page_item(ps[k]) + page_items(ps.skip(k + 1)),
        spine_items(ps) == spine_items(ps.take(k)) + spine_item(ps[k]) + spine_items(ps.skip(k + 1)),
{
    let one = seq![ps[k]];
    assert(ps =~= ps.take(k) + one + ps.skip(k + 1));
    lemma_items_split(ps.take(k) + one, ps.skip(k + 1));
    lemma_items_split(ps.take(k), one);
    assert(one.drop_last() =~= Seq::<PageView>::empty());
    assert(one.last() == ps[k]);
    assert(page_items(Seq::<PageView>::empty()) == Seq::<char>::empty());
    assert(spine_items(Seq::<PageView>::empty()) == Seq::<char>::empty());
    assert(page_items(one) =~= page_item(ps[k]));
    assert(spine_items(one) =~= spine_item(ps[k]));
}

proof fn lemma_regroup_middle(h: Seq<char>, p1: Seq<char>, i: Seq<char>, p2: Seq<char>, rest: Seq<char>)
    ensures
        (h + ((p1 + i) + p2)) + rest == ((h + p1) + i) + (p2 + rest),
{
    assert((h + ((p1 + i) + p2)) + rest =~= ((h + p1) + i) + (p2 + rest));
}

proof fn lemma_regroup_tail(x: Seq<char>, a: Seq<char>, b: Seq<char>, c: Seq<char>, d: Seq<char>)
    ensures
        (((x + a) + b) + c) + d == x + (((a + b) + c) + d),
{
    assert((((x + a) + b) + c) + d =~= x + (((a + b) + c) + d));
}

proof fn lemma_opf_lists_page(
    title: Seq<char>,
    author: Seq<char>,
    uid: Seq<char>,
    ps: Seq<PageView>,
    is: Seq<ImageView>,
    cover_id: Option<Seq<char>>,
    k: int,
)
    requires
        0 <= k < ps.len(),
    ensures
        exists|pre: Seq<char>, post: Seq<char>| spec_opf(title, author, uid, ps, is, cover_id) == pre + page_item(ps[k]) + post,
        exists|pre: Seq<char>, post: Seq<char>| spec_opf(title, author, uid, ps, is, cover_id) == pre + spine_item(ps[k]) + post,
{
    lemma_items_at(ps, k);
    let head = OPF_HEAD@ + esc(uid) + "</dc:identifier>\n<dc:title>"@ + esc(title) + "</dc:title>\n<dc:creator>"@
        + esc(author) + "</dc:creator>\n<dc:language>en</dc:language>\n<meta property=\"dcterms:modified\">"@
        + MODIFIED@ + "</meta>\n"@ + (match cover_id {
        Some(id) => "<meta name=\"cover\" content=\""@ + esc(id) + "\"/>\n"@,
        None => seq![],
    }) + "</metadata>\n<manifest>\n"@ + OPF_FIXED_ITEMS@;
    let pg = page_items(ps);
    let im = image_items(is, cover_id);
    let l1 = "</manifest>\n<spine toc=\"ncx\">\n"@;
    let sp = spine_items(ps);
    let l2 = "</spine>\n</package>\n"@;
    let opf = spec_opf(title, author, uid, ps, is, cover_id);
    assert(opf == ((((head + pg) + im) + l1) + sp) + l2);
    lemma_regroup_tail(head + pg, im, l1, sp, l2);
    let rest = ((im + l1) + sp) + l2;
    let p1 = page_items(ps.take(k));
    let p2 = page_items(ps.skip(k + 1));
    lemma_regroup_middle(head, p1, page_item(ps[k]), p2, rest);
    assert(opf == ((head + p1) + page_item(ps[k])) + (p2 + rest));
    let x = ((head + pg) + im) + l1;
    let s1 = spine_items(ps.take(k));
    let s2 = spine_items(ps.skip(k + 1));
    lemma_regroup_middle(x, s1, spine_item(ps[k]), s2, l2);
    assert(opf == ((x + s1) + spine_item(ps[k])) + (s2 + l2));
}

/// Whether `part` occurs somewhere in `whole`.
pub open spec fn occurs_in(part: Seq<char>, whole: Seq<char>) -> bool {
    exists|pre: Seq<char>, post: Seq<char>| whole == #[trigger] ((pre + part) + post)
}

/// The manifest entry for one image.
pub open spec fn image_item(i: ImageView, cover_id: Option<Seq<char>>) -> Seq<char> {
    "<item id=\""@ + esc(i.id) + "\" href=\""@ + esc(i.path) + "\" media-type=\"image/jpeg\""@ + (if cover_id
        == Some(i.id) {
        " properties=\"cover-image\""@
    } else {
        seq![]
    }) + "/>\n"@
}

proof fn lemma_image_items_step(s: Seq<ImageView>, cover_id: Option<Seq<char>>)
    requires
        s.len() > 0,
    ensures
        image_items(s, cover_id) == image_items(s.drop_last(), cover_id) + image_item(s.last(), cover_id),
{
    assert(image_items(s, cover_id) =~= image_items(s.drop_last(), cover_id) + image_item(s.last(), cover_id));
}

proof fn lemma_image_items_split(a: Seq<ImageView>, b: Seq<ImageView>, cover_id: Option<Seq<char>>)
    ensures
        image_items(a + b, cover_id) == image_items(a, cover_id) + image_items(b, cover_id),
    decreases b.len(),
{
    if b.len() == 0 {
        assert(a + b =~= a);
        assert(image_items(b, cover_id) == Seq::<char>::empty());
        assert(image_items(a, cover_id) + image_items(b, cover_id) =~= image_items(a, cover_id));
    } else {
        lemma_image_items_split(a, b.drop_last(), cover_id);
        assert((a + b).drop_last() =~= a + b.drop_last());
        assert((a + b).last() == b.last());
        lemma_image_items_step(a + b, cover_id);
        lemma_image_items_step(b, cover_id);
        vstd::seq_lib::lemma_concat_associative(
            image_items(a, cover_id),
            image_items(b.drop_last(), cover_id),
            image_item(b.last(), cover_id),
        );
    }
}

proof fn lemma_image_items_at(is: Seq<ImageView>, cover_id: Option<Seq<char>>, k: int)
    requires
        0 <= k < is.len(),
    ensures
        image_items(is, cover_id) == image_items(is.take(k), cover_id) + image_item(is[k], cover_id) + image_items(
            is.skip(k + 1),
            cover_id,
        ),
{
    let one = seq![is[k]];
    assert(is =~= is.take(k) + one + is.skip(k + 1));
    lemma_image_items_split(is.take(k) + one, is.skip(k + 1), cover_id);
    lemma_image_items_split(is.take(k), one, cover_id);
    assert(one.drop_last() =~= Seq::<ImageView>::empty());
    assert(one.last() == is[k]);
    assert(image_items(Seq::<ImageView>::empty(), cover_id) == Seq::<char>::empty());
    assert(image_items(one, cover_id) =~= image_item(is[k], cover_id));
}

#[verifier::spinoff_prover]
proof fn lemma_opf_frame(
    title: Seq<char>,
    author: Seq<char>,
    uid: Seq<char>,
    ps: Seq<PageView>,
    is: Seq<ImageView>,
    cover_id: Option<Seq<char>>,
)
    ensures
        exists|head: Seq<char>| spec_opf(title, author, uid, ps, is, cover_id) == #[trigger] (head + page_items(ps))
            + image_items(is, cover_id) + "</manifest>\n<spine toc=\"ncx\">\n"@ + spine_items(ps)
            + "</spine>\n</package>\n"@,
        forall|k: int| 0 <= k < is.len() ==> occurs_in(image_item(#[trigger] is[k], cover_id), spec_opf(title, author, uid, ps, is, cover_id)),
{
    let head = OPF_HEAD@ + esc(uid) + "</dc:identifier>\n<dc:title>"@ + esc(title) + "</dc:title>\n<dc:creator>"@
        + esc(author) + "</dc:creator>\n<dc:language>en</dc:language>\n<meta property=\"dcterms:modified\">"@
        + MODIFIED@ + "</meta>\n"@ + (match cover_id {
        Some(id) => "<meta name=\"cover\" content=\""@ + esc(id) + "\"/>\n"@,
        None => seq![],
    }) + "</metadata>\n<manifest>\n"@ + OPF_FIXED_ITEMS@;
    let pg = page_items(ps);
    let im = image_items(is, cover_id);
    let l1 = "</manifest>\n<spine toc=\"ncx\">\n"@;
    let sp = spine_items(ps);
    let l2 = "</spine>\n</package>\n"@;
    let opf = spec_opf(title, author, uid, ps, is, cover_id);
    assert(opf == ((((head + pg) + im) + l1) + sp) + l2);
    assert forall|k: int| 0 <= k < is.len() implies occurs_in(image_item(#[trigger] is[k], cover_id), opf) by {
        lemma_image_items_at(is, cover_id, k);
        let i1 = image_items(is.take(k), cover_id);
        let i2 = image_items(is.skip(k + 1), cover_id);
        lemma_regroup_tail(head + pg, im, l1, sp, l2);
        lemma_regroup_middle(head + pg, i1, image_item(is[k], cover_id), i2, (l1 + sp) + l2);
        assert(((head + pg) + im) + ((l1 + sp) + l2) == (((head + pg) + im) + l1 + sp) + l2) by {
            assert(((head + pg) + im) + ((l1 + sp) + l2) =~= (((head + pg) + im) + l1 + sp) + l2);
        }
        assert(opf == ((head + pg + i1) + image_item(is[k], cover_id)) + (i2 + ((l1 + sp) + l2)));
    }
}

/// The package document's manifest holds, after its fixed entries, the pages' entries in
/// page order and then the images' entries, and nothing else; its spine holds exactly the
/// pages' references, in page order. Every image has its manifest entry.
pub proof fn lemma_package_lists_exactly_the_pages_and_images(
    b: BookView,
    title: Seq<char>,
    author: Seq<char>,
    thumbs: Seq<Option<Seq<u8>>>,
    cover: Option<Seq<u8>>,
)
    ensures
        ({
            let r = spec_render(b, title, author, thumbs, cover);
            &&& exists|head: Seq<char>| r.opf == #[trigger] (head + page_items(r.pages)) + image_items(r.images, r.cover_id)
                + "</manifest>\n<spine toc=\"ncx\">\n"@ + spine_items(r.pages) + "</spine>\n</package>\n"@
            &&& forall|k: int| 0 <= k < r.images.len() ==> occurs_in(image_item(#[trigger] r.images[k], r.cover_id), r.opf)
        }),
{
    let r = spec_render(b, title, author, thumbs, cover);
    assert(r.opf == spec_opf(title, author, book_uid(title), r.pages, r.images, r.cover_id));
    lemma_opf_frame(title, author, book_uid(title), r.pages, r.images, r.cover_id);
}

/// The package document lists every page: its manifest holds each page's entry and its
/// spine the page's reference; the manifest's page entries and the spine are exactly the
/// pages, one after the other, in reading order.
pub proof fn lemma_manifest_and_spine_list_the_pages(
    b: BookView,
    title: Seq<char>,
    author: Seq<char>,
    thumbs: Seq<Option<Seq<u8>>>,
    cover: Option<Seq<u8>>,
    k: int,
)
    requires
        0 <= k < spec_render(b, title, author, thumbs, cover).pages.len(),
    ensures
        ({
            let r = spec_render(b, title, author, thumbs, cover);
            &&& exists|pre: Seq<char>, post: Seq<char>| r.opf == pre + page_item(r.pages[k]) + post
            &&& exists|pre: Seq<char>, post: Seq<char>| r.opf == pre + spine_item(r.pages[k]) + post
        }),
{
    let r = spec_render(b, title, author, thumbs, cover);
    assert(r.opf == spec_opf(title, author, book_uid(title), r.pages, r.images, r.cover_id));
    lemma_opf_lists_page(title, author, book_uid(title), r.pages, r.images, r.cover_id, k);
}

/// A book has a cover page exactly when a cover image was made: then it is the first page,
/// `cover.xhtml`, and the image is marked `cover-image`; without one the first page is the
/// contents, and nothing is marked as the cover.
pub proof fn lemma_cover_page_exactly_with_cover_image(
    b: BookView,
    title: Seq<char>,
    author: Seq<char>,
    thumbs: Seq<Option<Seq<u8>>>,
    cover: Option<Seq<u8>>,
)
    ensures
        ({
            let r = spec_render(b, title, author, thumbs, cover);
            &&& r.pages.len() > 0
            &&& (r.pages[0].path == "cover.xhtml"@ <==> cover is Some)
            &&& (cover is Some <==> r.cover_id == Some("cover-image"@))
            &&& (cover is None ==> r.cover_id is None && r.pages[0].path == "contents.xhtml"@)
        }),
{
    reveal_strlit("cover.xhtml");
    reveal_strlit("contents.xhtml");
    let r = spec_render(b, title, author, thumbs, cover);
    let l = spec_lay_out(b, thumbs);
    let contents = PageView { path: "contents.xhtml"@, id: "contents"@, content: spec_contents_page(l.0, title) };
    if cover is None {
        assert(r.pages[0] == contents);
        assert("contents.xhtml"@[2] != "cover.xhtml"@[2]);
    }
}

fn push_song_pages<'a>(pages: &mut Vec<Page>, tracks: &Vec<TrackLayout<'a>>, album_artist: &str)
    ensures
        page_views(final(pages)@) == page_views(old(pages)@) + song_pages(
            tracks@.map_values(|t: TrackLayout<'a>| t@),
            album_artist@,
        ),
{
    let ghost ts = tracks@.map_values(|t: TrackLayout<'a>| t@);
    let ghost start = page_views(pages@);
    let mut j: usize = 0;
    while j < tracks.len()
        invariant
            j <= tracks@.len(),
            ts == tracks@.map_values(|t: TrackLayout<'a>| t@),
            page_views(pages@) == start + song_pages(ts.take(j as int), album_artist@),
        decreases tracks@.len() - j,
    {
        let t = &tracks[j];
        assert(ts[j as int] == t@);
        let ghost p0 = page_views(pages@);
        match t.song {
            Some(n) => {
                let page = Page {
                    path: song_file_of(n),
                    id: song_id_of(n),
                    content: song_page(t.track, album_artist),
                };
                assert(page@ == PageView {
                    path: song_file(n),
                    id: song_id(n),
                    content: spec_song_page(ts[j as int].track, album_artist@),
                });
                pages.push(page);
                assert(page_views(pages@) =~= p0 + seq![page@]);
            },
            None => {
                assert(page_views(pages@) =~= p0 + seq![]);
            },
        }
        assert(ts.take(j + 1).drop_last() =~= ts.take(j as int));
        assert(page_views(pages@) =~= start + song_pages(ts.take(j + 1), album_artist@));
        j = j + 1;
    }
    assert(ts.take(j as int) =~= ts);
}

fn push_album_pages<'a>(pages: &mut Vec<Page>, albums: &Vec<AlbumLayout<'a>>)
    ensures
        page_views(final(pages)@) == page_views(old(pages)@) + album_pages(
            albums@.map_values(|a: AlbumLayout<'a>| a@),
        ),
{
    let ghost als = albums@.map_values(|a: AlbumLayout<'a>| a@);
    let ghost start = page_views(pages@);
    let mut j: usize = 0;
    while j < albums.len()
        invariant
            j <= albums@.len(),
            als == albums@.map_values(|a: AlbumLayout<'a>| a@),
            page_views(pages@) == start + album_pages(als.take(j as int)),
        decreases albums@.len() - j,
    {
        let a = &albums[j];
        assert(als[j as int] == a@);
        let ghost p0 = page_views(pages@);
        pages.push(Page { path: album_file_of(a.number), id: album_id_of(a.number), content: album_page(a) });
        let ghost p1 = page_views(pages@);
        assert(p1 =~= p0 + seq![
            PageView { path: album_file(a@.number), id: album_id(a@.number), content: spec_album_page(a@) },
        ]);
        let ghost ds = a@.discs;
        let mut d: usize = 0;
        while d < a.discs.len()
            invariant
                d <= a.discs@.len(),
                ds == a.discs@.map_values(|x: DiscLayout<'a>| x@),
                a@.album.artist == a.album.artist@,
                page_views(pages@) == p1 + disc_song_pages(ds.take(d as int), a@.album.artist),
            decreases a.discs@.len() - d,
        {
            assert(ds[d as int] == a.discs@[d as int]@);
            push_song_pages(pages, &a.discs[d].tracks, a.album.artist.as_str());
            assert(ds.take(d + 1).drop_last() =~= ds.take(d as int));
            assert(page_views(pages@) =~= p1 + disc_song_pages(ds.take(d + 1), a@.album.artist));
            d = d + 1;
        }
        assert(ds.take(d as int) =~= ds);
        assert(als.take(j + 1).drop_last() =~= als.take(j as int));
        assert(page_views(pages@) =~= start + album_pages(als.take(j + 1)));
        j = j + 1;
    }
    assert(als.take(j as int) =~= als);
}

fn build_pages<'a>(book: &Book, info: &BookInfo, artists: &Vec<ArtistLayout<'a>>, has_cover: bool) -> (r: Vec<Page>)
    ensures
        page_views(r@) == spec_pages(
            book@,
            info.title@,
            artists@.map_values(|a: ArtistLayout<'a>| a@),
            has_cover,
        ),
{
    let ghost lv = artists@.map_values(|a: ArtistLayout<'a>| a@);
    let mut pages: Vec<Page> = Vec::new();
    if has_cover {
        let p = Page {
            path: String::from_str("cover.xhtml"),
            id: String::from_str("cover"),
            content: cover_page(info),
        };
        assert(p@ == PageView { path: "cover.xhtml"@, id: "cover"@, content: spec_cover_page(info.title@) });
        pages.push(p);
    }
    let ghost c0 = page_views(pages@);
    assert(c0 =~= if has_cover {
        seq![PageView { path: "cover.xhtml"@, id: "cover"@, content: spec_cover_page(info.title@) }]
    } else {
        seq![]
    });
    let cp = Page {
        path: String::from_str("contents.xhtml"),
        id: String::from_str("contents"),
        content: contents_page(artists, info),
    };
    let ghost cpv = cp@;
    pages.push(cp);
    let ghost head = page_views(pages@);
    assert(head =~= c0 + seq![cpv]);
    let mut i: usize = 0;
    while i < artists.len()
        invariant
            i <= artists@.len(),
            lv == artists@.map_values(|a: ArtistLayout<'a>| a@),
            page_views(pages@) == head + body_pages(lv.take(i as int)),
        decreases artists@.len() - i,
    {
        let a = &artists[i];
        assert(lv[i as int] == a@);
        let ghost p0 = page_views(pages@);
        pages.push(Page { path: artist_file_of(a.number), id: artist_id_of(a.number), content: artist_page(a) });
        assert(page_views(pages@) =~= p0 + seq![
            PageView { path: artist_file(a@.number), id: artist_id(a@.number), content: spec_artist_page(a@) },
        ]);
        push_album_pages(&mut pages, &a.albums);
        assert(lv.take(i + 1).drop_last() =~= lv.take(i as int));
        assert(page_views(pages@) =~= head + body_pages(lv.take(i + 1)));
        i = i + 1;
    }
    assert(lv.take(i as int) =~= lv);
    let ghost b0 = page_views(pages@);
    let colophon = Page {
        path: String::from_str("colophon.xhtml"),
        id: String::from_str("colophon"),
        content: colophon_page(book),
    };
    let ghost colv = colophon@;
    pages.push(colophon);
    assert(page_views(pages@) =~= b0 + seq![colv]);
    assert(page_views(pages@) =~= spec_pages(book@, info.title@, lv, has_cover));
    pages
}

/// Render `book` into every file the container needs, in reading order. `thumbnails` holds,
/// for each album of the book in reading order, its art re-encoded for embedding when that
/// succeeded; `cover` is the cover image, when one was made. A cover page is written only
/// when there is a cover image.
pub fn render(book: &Book, info: &BookInfo, thumbnails: Vec<Option<Vec<u8>>>, cover: Option<Vec<u8>>) -> (r: Rendered)
    ensures
        r@ == spec_render(
            book@,
            info.title@,
            info.author@,
            thumb_views(thumbnails@),
            match cover {
                Some(b) => Some(b@),
                None => None,
            },
        ),
{
    let ghost tv = thumb_views(thumbnails@);
    let ghost cv: Option<Seq<u8>> = match &cover {
        Some(b) => Some(b@),
        None => None,
    };
    let (artists, mut images) = lay_out(book, thumbnails);
    let ghost lv = artists@.map_values(|a: ArtistLayout| a@);
    let has_cover = cover.is_some();
    let cover_id: Option<String> = match cover {
        Some(bytes) => {
            images.push(Image { path: String::from_str("images/cover.jpg"), id: String::from_str("cover-image"), bytes });
            Some(String::from_str("cover-image"))
        },
        None => None,
    };
    let pages = build_pages(book, info, &artists, has_cover);
    let mut uid = String::from_str("urn:lyrics:");
    push_hex16(&mut uid, stable_hash(info.title.as_str()));
    let nav = nav_document(&artists, info);
    let ncx = ncx_document(&artists, info, uid.as_str());
    let cid: Option<&str> = match &cover_id {
        Some(c) => Some(c.as_str()),
        None => None,
    };
    let opf = opf_document(info, uid.as_str(), &pages, &images, cid);
    proof {
        let spec = spec_render(book@, info.title@, info.author@, tv, cv);
        assert(image_views(images@) =~= spec.images);
    }
    Rendered { pages, images, stylesheet: String::from_str(STYLESHEET), nav, ncx, opf, cover_id }
}

pub open spec fn album_art_paths(als: Seq<AlbumView>) -> Seq<Seq<char>>
    decreases als.len(),
{
    if als.len() == 0 {
        seq![]
    } else {
        album_art_paths(als.drop_last()) + match als.last().art {
            Some(p) => seq![p],
            None => seq![],
        }
    }
}

/// The art paths of the book's albums, in reading order: what the cover collage is made of.
pub fn art_paths(book: &Book) -> (r: Vec<String>)
    ensures
        r@.map_values(|s: String| s@) == album_art_paths(book_albums(book@.artists)),
{
    let albums = book.albums();
    let ghost av = albums@.map_values(|a: &Album| a@);
    let mut out: Vec<String> = Vec::new();
    let mut i: usize = 0;
    while i < albums.len()
        invariant
            i <= albums@.len(),
            av == albums@.map_values(|a: &Album| a@),
            out@.map_values(|s: String| s@) == album_art_paths(av.take(i as int)),
        decreases albums@.len() - i,
    {
        let ghost o0 = out@.map_values(|s: String| s@);
        assert(av[i as int] == albums@[i as int]@);
        match &albums[i].art {
            Some(p) => {
                out.push(p.clone());
            },
            None => {},
        }
        assert(av.take(i + 1).drop_last() =~= av.take(i as int));
        assert(out@.map_values(|s: String| s@) =~= album_art_paths(av.take(i + 1)));
        i = i + 1;
    }
    assert(av.take(i as int) =~= av);
    out
}

} // verus!
