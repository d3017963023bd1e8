use lyrics::ebook::library::{Album, Artist, Book, Disc, LyricState, Track};
use lyrics::ebook::{build, BookOptions, BuildError, Summary};

fn track(title: &str, number: u32, state: LyricState) -> Track {
    Track {
        title: title.to_owned(),
        artist: "Band".to_owned(),
        number: Some(number),
        state,
        stanzas: if state.has_lyrics() {
            vec![vec!["A line".to_owned()]]
        } else {
            vec![]
        },
    }
}

fn book() -> Book {
    Book {
        artists: vec![Artist {
            name: "Band".to_owned(),
            albums: vec![Album {
                title: "Record".to_owned(),
                artist: "Band".to_owned(),
                year: Some(2001),
                art: None,
                discs: vec![Disc {
                    number: 1,
                    tracks: vec![
                        track("One", 1, LyricState::Synced),
                        track("Two", 2, LyricState::Missing),
                    ],
                }],
            }],
        }],
        untagged: 2,
        without_lyrics: 1,
    }
}

fn options(verbose: u8, quiet: bool) -> BookOptions {
    BookOptions {
        title: "Lyrics".to_owned(),
        author: "Various Artists".to_owned(),
        verbose,
        quiet,
    }
}

#[test]
fn ebook_reports_an_error_when_there_is_nothing_to_put_in_a_book() {
    let empty = Book {
        artists: Vec::new(),
        untagged: 0,
        without_lyrics: 0,
    };
    let result = build(&empty, "out.epub", &options(0, false), Vec::new(), None);
    assert!(matches!(result, Err(BuildError::NothingToBook)));
    assert_eq!(
        BuildError::NothingToBook.message("/music"),
        "no lyrics found under /music — run `lyrics scan` first to fetch some"
    );
}

#[test]
fn a_built_book_reports_what_went_in() {
    let b = book();
    let built = match build(&b, "out.epub", &options(0, false), vec![None], None) {
        Ok(built) => built,
        Err(_) => panic!("the book was refused"),
    };
    assert_eq!(built.summary.artists, 1);
    assert_eq!(built.summary.albums, 1);
    assert_eq!(built.summary.songs, 1);
    assert_eq!(
        built.summary.line(),
        "1 artists, 1 albums, 1 songs, 1 without lyrics, 2 untagged"
    );
    assert!(built.log.is_empty(), "progress was printed without verbose");
}

#[test]
fn verbose_builds_log_each_album_and_the_output() {
    let b = book();
    let built = match build(&b, "out.epub", &options(1, false), vec![None], None) {
        Ok(built) => built,
        Err(_) => panic!("the book was refused"),
    };
    assert_eq!(built.log[0], "album     Band — Record (1/2 with lyrics)");
    assert!(built.log[1].starts_with("writing   out.epub ("), "{:?}", built.log[1]);
    assert_eq!(built.log.len(), 2);
    let quiet = match build(&b, "out.epub", &options(1, true), vec![None], None) {
        Ok(built) => built,
        Err(_) => panic!("the book was refused"),
    };
    assert!(quiet.log.is_empty());
}

#[test]
fn a_summary_leaves_out_zero_counts() {
    let s = Summary {
        artists: 3,
        albums: 5,
        songs: 40,
        without_lyrics: 0,
        untagged: 0,
    };
    assert_eq!(s.line(), "3 artists, 5 albums, 40 songs");
}
