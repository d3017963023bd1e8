use lyrics::ebook::epub::{archive_entries, ArchiveEntry, EntryData, MIMETYPE};
use lyrics::ebook::library::{Album, Artist, Book, Disc, LyricState, Track};
use lyrics::ebook::render::{render, BookInfo, Rendered};

fn sample_book() -> Book {
    Book {
        artists: vec![Artist {
            name: "Metallica".to_owned(),
            albums: vec![Album {
                title: "...And Justice for All".to_owned(),
                artist: "Metallica".to_owned(),
                year: Some(1988),
                art: None,
                discs: vec![Disc {
                    number: 1,
                    tracks: vec![Track {
                        title: "One".to_owned(),
                        artist: "Metallica".to_owned(),
                        number: Some(4),
                        state: LyricState::Synced,
                        stanzas: vec![vec!["I can't remember anything".to_owned()]],
                    }],
                }],
            }],
        }],
        untagged: 0,
        without_lyrics: 0,
    }
}

fn rendered() -> Rendered {
    let info = BookInfo {
        title: "Lyrics".to_owned(),
        author: "Various Artists".to_owned(),
    };
    render(&sample_book(), &info, vec![None], Some(vec![0xff, 0xd8, 0xff]))
}

fn text(entry: &ArchiveEntry) -> &str {
    match &entry.data {
        EntryData::Text(t) => t.as_str(),
        EntryData::Bytes(_) => panic!("{} holds bytes", entry.name),
    }
}

#[test]
fn mimetype_is_the_first_entry_and_is_stored_uncompressed() {
    let entries = archive_entries(&rendered());
    let first = &entries[0];
    assert_eq!(first.name, "mimetype");
    assert!(first.stored);
    assert_eq!(text(first), "application/epub+zip");
    assert_eq!(MIMETYPE, "application/epub+zip");
}

#[test]
fn the_archive_holds_every_rendered_file() {
    let rendered = rendered();
    let entries = archive_entries(&rendered);
    let names: Vec<String> = entries.iter().map(|e| e.name.clone()).collect();
    for required in [
        "mimetype",
        "META-INF/container.xml",
        "OEBPS/content.opf",
        "OEBPS/nav.xhtml",
        "OEBPS/toc.ncx",
        "OEBPS/style.css",
    ] {
        assert!(names.contains(&required.to_owned()), "missing {required}");
    }
    for page in &rendered.pages {
        let expected = format!("OEBPS/{}", page.path);
        assert!(names.contains(&expected), "missing {expected}");
    }
    for image in &rendered.images {
        let expected = format!("OEBPS/{}", image.path);
        assert!(names.contains(&expected), "missing {expected}");
    }
    assert_eq!(names.len(), 6 + rendered.pages.len() + rendered.images.len());
}

#[test]
fn container_xml_points_at_the_package_document() {
    let entries = archive_entries(&rendered());
    let container = entries.iter().find(|e| e.name == "META-INF/container.xml").unwrap();
    assert!(text(container).contains(r#"full-path="OEBPS/content.opf""#));
    assert!(!container.stored);
}

#[test]
fn two_builds_of_the_same_book_are_byte_identical() {
    let first = archive_entries(&rendered());
    let second = archive_entries(&rendered());
    assert_eq!(first.len(), second.len());
    for (a, b) in first.iter().zip(second.iter()) {
        assert_eq!(a.name, b.name);
        assert_eq!(a.stored, b.stored);
        match (&a.data, &b.data) {
            (EntryData::Text(x), EntryData::Text(y)) => assert_eq!(x, y),
            (EntryData::Bytes(x), EntryData::Bytes(y)) => assert_eq!(x, y),
            _ => panic!("{} changed kind", a.name),
        }
    }
}

#[test]
fn images_are_stored_as_they_are() {
    let rendered = rendered();
    let entries = archive_entries(&rendered);
    let cover = entries.iter().find(|e| matches!(e.data, EntryData::Bytes(_))).unwrap();
    assert!(cover.stored);
    assert!(cover.name.starts_with("OEBPS/"));
    match &cover.data {
        EntryData::Bytes(b) => assert_eq!(b, &vec![0xff, 0xd8, 0xff]),
        EntryData::Text(_) => unreachable!(),
    }
}
