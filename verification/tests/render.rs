use lyrics::ebook::library::{Album, Artist, Book, Disc, LyricState, Track};
use lyrics::ebook::render::{escape_xml, render, stable_hash, BookInfo, Rendered};

fn track(title: &str, number: u32, state: LyricState) -> Track {
    Track {
        title: title.to_owned(),
        artist: "Test Artist".to_owned(),
        number: Some(number),
        state,
        stanzas: if state.has_lyrics() {
            vec![vec!["A line".to_owned(), "Another line".to_owned()]]
        } else {
            vec![]
        },
    }
}

fn album(title: &str, discs: Vec<Disc>) -> Album {
    Album {
        title: title.to_owned(),
        artist: "Test Artist".to_owned(),
        year: Some(1991),
        art: None,
        discs,
    }
}

fn book_with(discs: Vec<Disc>) -> Book {
    Book {
        artists: vec![Artist {
            name: "Test Artist".to_owned(),
            albums: vec![album("Test Album", discs)],
        }],
        untagged: 0,
        without_lyrics: 0,
    }
}

fn info() -> BookInfo {
    BookInfo {
        title: "Lyrics".to_owned(),
        author: "Various Artists".to_owned(),
    }
}

/// No album art decodes.
fn no_thumbnails(book: &Book) -> Vec<Option<Vec<u8>>> {
    vec![None; book.album_count()]
}

/// Render with image work left out: no art decodes, no cover collage.
fn render_bare(book: &Book) -> Rendered {
    render(book, &info(), no_thumbnails(book), None)
}

#[test]
fn escapes_every_xml_metacharacter() {
    assert_eq!(escape_xml("Simon & Garfunkel"), "Simon &amp; Garfunkel");
    assert_eq!(escape_xml("<b>"), "&lt;b&gt;");
    assert_eq!(escape_xml(r#"say "it""#), "say &quot;it&quot;");
    assert_eq!(escape_xml("don't"), "don&apos;t");
    assert_eq!(escape_xml("plain"), "plain");
}

#[test]
fn ampersand_in_an_album_title_reaches_the_page_escaped() {
    let book = Book {
        artists: vec![Artist {
            name: "AC/DC".to_owned(),
            albums: vec![album(
                "Rock & Roll",
                vec![Disc {
                    number: 1,
                    tracks: vec![track("Song", 1, LyricState::Synced)],
                }],
            )],
        }],
        untagged: 0,
        without_lyrics: 0,
    };
    let rendered = render_bare(&book);
    let page = rendered
        .pages
        .iter()
        .find(|p| p.path == "album-0001.xhtml")
        .unwrap();
    assert!(page.content.contains("Rock &amp; Roll"));
    assert!(!page.content.contains("Rock & Roll"));
}

#[test]
fn every_song_gets_its_own_document() {
    // The page-break guarantee: three songs, three separate XHTML files.
    let book = book_with(vec![Disc {
        number: 1,
        tracks: vec![
            track("One", 1, LyricState::Synced),
            track("Two", 2, LyricState::Plain),
            track("Three", 3, LyricState::Synced),
        ],
    }]);
    let rendered = render_bare(&book);
    let songs: Vec<&str> = rendered
        .pages
        .iter()
        .filter(|p| p.path.starts_with("song-"))
        .map(|p| p.path.as_str())
        .collect();
    assert_eq!(
        songs,
        vec!["song-0001.xhtml", "song-0002.xhtml", "song-0003.xhtml"]
    );
}

#[test]
fn lyricless_tracks_get_no_page_but_stay_in_the_tracklist() {
    let book = book_with(vec![Disc {
        number: 1,
        tracks: vec![
            track("Has Lyrics", 1, LyricState::Synced),
            track("Silent", 2, LyricState::Missing),
            track("Interlude", 3, LyricState::Instrumental),
        ],
    }]);
    let rendered = render_bare(&book);
    assert_eq!(
        rendered
            .pages
            .iter()
            .filter(|p| p.path.starts_with("song-"))
            .count(),
        1
    );

    let page = &rendered
        .pages
        .iter()
        .find(|p| p.path == "album-0001.xhtml")
        .unwrap()
        .content;
    assert!(page.contains("Silent"));
    assert!(page.contains("Interlude"));
    // The linked title is the "has lyrics" signal; the other two are unlinked.
    assert!(page.contains(r#"<a href="song-0001.xhtml">Has Lyrics</a>"#));
    assert!(page.contains(r#"<span class="title">Silent</span>"#));
    assert!(page.contains(r#"<span class="tag">instrumental</span>"#));
    assert!(page.contains("1 of 3 tracks with lyrics"));
}

#[test]
fn a_single_disc_album_gets_no_cd_heading() {
    let book = book_with(vec![Disc {
        number: 1,
        tracks: vec![track("One", 1, LyricState::Synced)],
    }]);
    let rendered = render_bare(&book);
    let page = &rendered
        .pages
        .iter()
        .find(|p| p.path == "album-0001.xhtml")
        .unwrap()
        .content;
    assert!(!page.contains("CD 1"));
    assert!(!page.contains("class=\"disc\""));
}

#[test]
fn a_multi_disc_album_gets_a_heading_per_disc() {
    let book = book_with(vec![
        Disc {
            number: 1,
            tracks: vec![track("One", 1, LyricState::Synced)],
        },
        Disc {
            number: 2,
            tracks: vec![track("Two", 1, LyricState::Synced)],
        },
    ]);
    let rendered = render_bare(&book);
    let page = &rendered
        .pages
        .iter()
        .find(|p| p.path == "album-0001.xhtml")
        .unwrap()
        .content;
    assert!(page.contains(r#"<h2 class="disc">CD 1</h2>"#));
    assert!(page.contains(r#"<h2 class="disc">CD 2</h2>"#));
    // One list per disc.
    assert_eq!(page.matches("<ul class=\"tracklist\">").count(), 2);
}

#[test]
fn track_artist_is_shown_only_when_it_differs_from_the_album_artist() {
    let mut book = book_with(vec![Disc {
        number: 1,
        tracks: vec![
            track("Same", 1, LyricState::Synced),
            track("Different", 2, LyricState::Synced),
        ],
    }]);
    book.artists[0].albums[0].discs[0].tracks[1].artist = "Guest Artist".to_owned();

    let rendered = render_bare(&book);
    let album_page = &rendered
        .pages
        .iter()
        .find(|p| p.path == "album-0001.xhtml")
        .unwrap()
        .content;
    assert_eq!(album_page.matches("track-artist").count(), 1);
    assert!(album_page.contains("Guest Artist"));

    let song = &rendered
        .pages
        .iter()
        .find(|p| p.path == "song-0002.xhtml")
        .unwrap()
        .content;
    assert!(song.contains(r#"<p class="song-artist">Guest Artist</p>"#));

    let same = &rendered
        .pages
        .iter()
        .find(|p| p.path == "song-0001.xhtml")
        .unwrap()
        .content;
    assert!(!same.contains("song-artist"));
}

#[test]
fn a_track_with_no_number_falls_back_to_its_position() {
    let mut book = book_with(vec![Disc {
        number: 1,
        tracks: vec![
            track("First", 9, LyricState::Synced),
            track("Second", 9, LyricState::Synced),
        ],
    }]);
    book.artists[0].albums[0].discs[0].tracks[1].number = None;
    let rendered = render_bare(&book);
    let page = &rendered
        .pages
        .iter()
        .find(|p| p.path == "album-0001.xhtml")
        .unwrap()
        .content;
    // The tagged number is used where present, the 1-based position where it isn't.
    assert!(page.contains(r#"<span class="num">9</span>"#));
    assert!(page.contains(r#"<span class="num">2</span>"#));
}

#[test]
fn stanzas_render_one_paragraph_per_line() {
    let book = book_with(vec![Disc {
        number: 1,
        tracks: vec![track("Song", 1, LyricState::Synced)],
    }]);
    let rendered = render_bare(&book);
    let song = &rendered
        .pages
        .iter()
        .find(|p| p.path == "song-0001.xhtml")
        .unwrap()
        .content;
    assert!(
        song.contains("<div class=\"stanza\">\n<p>A line</p>\n<p>Another line</p>\n</div>")
    );
    // Timestamps never reach the page — they were dropped upstream in `lyrics::to_stanzas`.
    assert!(!song.contains('['));
}

#[test]
fn the_manifest_lists_exactly_the_files_that_are_written() {
    let book = book_with(vec![Disc {
        number: 1,
        tracks: vec![
            track("One", 1, LyricState::Synced),
            track("Two", 2, LyricState::Missing),
        ],
    }]);
    let rendered = render_bare(&book);
    for page in &rendered.pages {
        assert!(
            rendered.opf.contains(&format!("href=\"{}\"", page.path)),
            "{} is missing from the manifest",
            page.path
        );
        assert!(
            rendered.opf.contains(&format!("idref=\"{}\"", page.id)),
            "{} is missing from the spine",
            page.id
        );
    }
    // A track with no lyrics contributes no document, so none may be listed.
    assert!(!rendered.opf.contains("song-0002.xhtml"));
}

#[test]
fn pages_are_in_reading_order() {
    let book = book_with(vec![Disc {
        number: 1,
        tracks: vec![track("One", 1, LyricState::Synced)],
    }]);
    let rendered = render_bare(&book);
    let order: Vec<&str> = rendered.pages.iter().map(|p| p.path.as_str()).collect();
    assert_eq!(
        order,
        vec![
            "contents.xhtml",
            "artist-001.xhtml",
            "album-0001.xhtml",
            "song-0001.xhtml",
            "colophon.xhtml",
        ]
    );
}

#[test]
fn every_list_class_used_in_a_page_is_covered_by_the_list_reset() {
    // Adding a `<ul class="...">` without adding it to the reset rule leaves the browser's
    // default bullets and indent on it, which is how the contents page first shipped wrong.
    let book = book_with(vec![Disc {
        number: 1,
        tracks: vec![track("One", 1, LyricState::Synced)],
    }]);
    let rendered = render_bare(&book);
    let reset = rendered
        .stylesheet
        .split("list-style: none;")
        .next()
        .unwrap_or_default()
        .to_owned();

    for page in &rendered.pages {
        for fragment in page.content.split("<ul class=\"").skip(1) {
            let class = fragment.split('"').next().unwrap_or_default();
            assert!(
                reset.contains(&format!("ul.{class}")),
                "ul.{class} is missing from the list reset rule"
            );
        }
    }
}

#[test]
fn a_contents_page_follows_the_cover() {
    let book = book_with(vec![Disc {
        number: 1,
        tracks: vec![track("One", 1, LyricState::Synced)],
    }]);
    let rendered = render(&book, &info(), no_thumbnails(&book), Some(vec![0xff, 0xd8]));
    let contents = &rendered.pages[1];
    assert_eq!(rendered.pages[0].path, "cover.xhtml");
    assert_eq!(contents.path, "contents.xhtml");
    assert!(
        contents
            .content
            .contains(r#"<h1 class="contents">Contents</h1>"#)
    );
    assert!(
        contents
            .content
            .contains(r#"<li><a href="artist-001.xhtml">Test Artist</a></li>"#)
    );
}

#[test]
fn the_contents_page_lists_every_artist_and_no_albums() {
    // Albums are deliberately absent: each artist chapter indexes its own.
    let book = Book {
        artists: vec![
            Artist {
                name: "First Artist".to_owned(),
                albums: vec![album(
                    "Album A",
                    vec![Disc {
                        number: 1,
                        tracks: vec![track("One", 1, LyricState::Synced)],
                    }],
                )],
            },
            Artist {
                name: "Second Artist".to_owned(),
                albums: vec![album(
                    "Album B",
                    vec![Disc {
                        number: 1,
                        tracks: vec![track("Two", 1, LyricState::Synced)],
                    }],
                )],
            },
        ],
        untagged: 0,
        without_lyrics: 0,
    };
    let rendered = render(&book, &info(), no_thumbnails(&book), Some(vec![0xff, 0xd8]));
    let contents = &rendered.pages[1].content;

    assert!(contents.contains(r#"<a href="artist-001.xhtml">First Artist</a>"#));
    assert!(contents.contains(r#"<a href="artist-002.xhtml">Second Artist</a>"#));
    assert_eq!(contents.matches("<li>").count(), 2);
    assert!(!contents.contains("album-"));
    assert!(!contents.contains("Album A"));
}

#[test]
fn the_contents_page_is_in_the_manifest_and_the_spine() {
    let book = book_with(vec![Disc {
        number: 1,
        tracks: vec![track("One", 1, LyricState::Synced)],
    }]);
    let rendered = render_bare(&book);
    assert!(rendered.opf.contains(r#"href="contents.xhtml""#));
    assert!(rendered.opf.contains(r#"idref="contents""#));
}

#[test]
fn artist_chapters_keep_their_own_album_index() {
    // The contents page replaces nothing: the per-artist index stays.
    let book = book_with(vec![Disc {
        number: 1,
        tracks: vec![track("One", 1, LyricState::Synced)],
    }]);
    let rendered = render_bare(&book);
    let artist = &rendered
        .pages
        .iter()
        .find(|p| p.path == "artist-001.xhtml")
        .unwrap()
        .content;
    assert!(artist.contains(r#"<a href="album-0001.xhtml">Test Album</a>"#));
    assert!(artist.contains("album-index"));
}

#[test]
fn nav_nests_albums_under_artists() {
    let book = book_with(vec![Disc {
        number: 1,
        tracks: vec![track("One", 1, LyricState::Synced)],
    }]);
    let rendered = render_bare(&book);
    // The album's entry sits in a list nested inside the artist's, not beside it.
    assert!(rendered.nav.contains(
        "<li><a href=\"artist-001.xhtml\">Test Artist</a>\n\
         <ol>\n\
         <li><a href=\"album-0001.xhtml\">Test Album</a></li>\n\
         </ol>\n\
         </li>\n"
    ));
}

#[test]
fn ncx_play_order_increments_across_artists_and_albums() {
    let book = book_with(vec![Disc {
        number: 1,
        tracks: vec![track("One", 1, LyricState::Synced)],
    }]);
    let rendered = render_bare(&book);
    assert!(rendered.ncx.contains(r#"playOrder="1""#));
    assert!(rendered.ncx.contains(r#"playOrder="2""#));
}

#[test]
fn without_a_cover_image_nothing_claims_to_be_one() {
    let book = book_with(vec![Disc {
        number: 1,
        tracks: vec![track("One", 1, LyricState::Synced)],
    }]);
    let rendered = render_bare(&book);
    assert!(rendered.cover_id.is_none());
    assert!(!rendered.opf.contains("cover-image"));
    assert!(rendered.images.is_empty());
    // No image means no cover page at all, rather than an empty one.
    assert!(rendered.pages.iter().all(|p| p.path != "cover.xhtml"));
    assert_eq!(
        rendered.pages.first().map(|p| p.path.as_str()),
        Some("contents.xhtml")
    );
}

#[test]
fn the_cover_page_is_an_image_and_nothing_else() {
    // The title is baked into the JPEG, so no markup on this page may carry it.
    let book = book_with(vec![Disc {
        number: 1,
        tracks: vec![track("One", 1, LyricState::Synced)],
    }]);
    let rendered = render(&book, &info(), no_thumbnails(&book), Some(vec![0xff, 0xd8]));
    let cover = &rendered.pages.first().unwrap().content;
    assert!(cover.contains(r#"<img class="cover-art" src="images/cover.jpg""#));
    assert!(!cover.contains("<h1"));
    assert!(!cover.contains("cover-plate"));
    assert!(!rendered.stylesheet.contains("cover-title"));
    assert!(!rendered.stylesheet.contains("cover-plate"));
}

#[test]
fn a_cover_image_is_manifested_with_the_cover_image_property() {
    let book = book_with(vec![Disc {
        number: 1,
        tracks: vec![track("One", 1, LyricState::Synced)],
    }]);
    let rendered = render(&book, &info(), no_thumbnails(&book), Some(vec![0xff, 0xd8]));
    assert_eq!(rendered.cover_id.as_deref(), Some("cover-image"));
    assert!(rendered.opf.contains(
        r#"href="images/cover.jpg" media-type="image/jpeg" properties="cover-image""#
    ));
    assert!(
        rendered
            .opf
            .contains(r#"<meta name="cover" content="cover-image"/>"#)
    );
}

#[test]
fn album_art_is_embedded_and_referenced_when_it_decodes() {
    let mut book = book_with(vec![Disc {
        number: 1,
        tracks: vec![track("One", 1, LyricState::Synced)],
    }]);
    book.artists[0].albums[0].art = Some("/music/folder.jpg".to_owned());
    let rendered = render(&book, &info(), vec![Some(vec![0xff, 0xd8])], None);

    assert_eq!(rendered.images.len(), 1);
    assert_eq!(rendered.images[0].path, "images/album-0001.jpg");
    let page = &rendered
        .pages
        .iter()
        .find(|p| p.path == "album-0001.xhtml")
        .unwrap()
        .content;
    assert!(page.contains(r#"<img src="images/album-0001.jpg""#));
}

#[test]
fn art_that_fails_to_decode_leaves_the_album_without_an_image() {
    let mut book = book_with(vec![Disc {
        number: 1,
        tracks: vec![track("One", 1, LyricState::Synced)],
    }]);
    book.artists[0].albums[0].art = Some("/music/corrupt.jpg".to_owned());
    let rendered = render_bare(&book);
    assert!(rendered.images.is_empty());
    let page = &rendered
        .pages
        .iter()
        .find(|p| p.path == "album-0001.xhtml")
        .unwrap()
        .content;
    assert!(!page.contains("album-art"));
}

#[test]
fn colophon_reports_what_was_left_out() {
    let mut book = book_with(vec![Disc {
        number: 1,
        tracks: vec![track("One", 1, LyricState::Synced)],
    }]);
    book.untagged = 4;
    book.without_lyrics = 7;
    let rendered = render_bare(&book);
    let colophon = &rendered.pages.last().unwrap().content;
    assert!(colophon.contains("<li>1 artists</li>"));
    assert!(colophon.contains("<li>7 tracks listed without lyrics</li>"));
    assert!(colophon.contains("<li>4 files skipped for missing tags</li>"));
}

#[test]
fn rendering_is_deterministic() {
    let book = book_with(vec![Disc {
        number: 1,
        tracks: vec![
            track("One", 1, LyricState::Synced),
            track("Two", 2, LyricState::Synced),
        ],
    }]);
    let first = render_bare(&book);
    let second = render_bare(&book);
    assert_eq!(first.opf, second.opf);
    assert_eq!(first.nav, second.nav);
    assert_eq!(first.ncx, second.ncx);
    let firsts: Vec<&String> = first.pages.iter().map(|p| &p.content).collect();
    let seconds: Vec<&String> = second.pages.iter().map(|p| &p.content).collect();
    assert_eq!(firsts, seconds);
}

#[test]
fn the_identifier_is_stable_for_a_title() {
    assert_eq!(stable_hash("Lyrics"), stable_hash("Lyrics"));
    assert_ne!(stable_hash("Lyrics"), stable_hash("Other"));
}


#[test]
fn escaping_leaves_plain_text_alone_and_hides_markup() {
    assert_eq!(escape_xml("Plain words"), "Plain words");
    let escaped = escape_xml(r#"<a href="x">Rock 'n' Roll</a>"#);
    assert!(!escaped.contains('<') && !escaped.contains('>'));
    assert!(!escaped.contains('"') && !escaped.contains('\''));
    let back = escaped
        .replace("&lt;", "<")
        .replace("&gt;", ">")
        .replace("&quot;", "\"")
        .replace("&apos;", "'")
        .replace("&amp;", "&");
    assert_eq!(back, r#"<a href="x">Rock 'n' Roll</a>"#);
}

#[test]
fn a_book_without_a_cover_image_opens_on_its_contents() {
    let book = book_with(vec![Disc { number: 1, tracks: vec![track("Song", 1, LyricState::Synced)] }]);
    let bare = render_bare(&book);
    assert_eq!(bare.pages[0].path, "contents.xhtml");
    assert!(bare.cover_id.is_none());
    assert!(!bare.opf.contains("cover-image"));
    let covered = render(&book, &info(), no_thumbnails(&book), Some(vec![0xff, 0xd8]));
    assert_eq!(covered.pages[0].path, "cover.xhtml");
    assert_eq!(covered.cover_id.as_deref(), Some("cover-image"));
    for page in &covered.pages {
        let item = format!(
            "<item id=\"{}\" href=\"{}\" media-type=\"application/xhtml+xml\"/>",
            page.id, page.path
        );
        assert!(covered.opf.contains(&item));
        assert!(covered.opf.contains(&format!("<itemref idref=\"{}\"/>", page.id)));
    }
}

#[test]
fn one_page_per_song_plus_the_fixed_pages() {
    let book = book_with(vec![
        Disc {
            number: 1,
            tracks: vec![
                track("One", 1, LyricState::Synced),
                track("Two", 2, LyricState::Missing),
                track("Three", 3, LyricState::Plain),
            ],
        },
        Disc { number: 2, tracks: vec![track("Four", 1, LyricState::Synced)] },
    ]);
    let bare = render_bare(&book);
    assert_eq!(book.song_count(), 3);
    assert_eq!(bare.pages.len(), 2 + 1 + 1 + book.song_count());
    let covered = render(&book, &info(), no_thumbnails(&book), Some(vec![0xff, 0xd8]));
    assert_eq!(covered.pages.len(), bare.pages.len() + 1);
    assert!(bare.pages.iter().any(|p| p.path == "artist-001.xhtml"));
    assert!(bare.pages.iter().any(|p| p.path == "album-0001.xhtml"));
}

#[test]
fn the_spine_is_exactly_the_pages_in_order_and_songs_number_through_the_book() {
    let book = book_with(vec![
        Disc { number: 1, tracks: vec![track("One", 1, LyricState::Synced), track("Two", 2, LyricState::Missing)] },
        Disc { number: 2, tracks: vec![track("Three", 1, LyricState::Plain)] },
    ]);
    let rendered = render_bare(&book);
    let start = rendered.opf.find("<spine toc=\"ncx\">\n").unwrap() + "<spine toc=\"ncx\">\n".len();
    let end = rendered.opf.find("</spine>").unwrap();
    let expected: String = rendered
        .pages
        .iter()
        .map(|p| format!("<itemref idref=\"{}\"/>\n", p.id))
        .collect();
    assert_eq!(&rendered.opf[start..end], expected);
    let songs: Vec<&str> = rendered
        .pages
        .iter()
        .filter(|p| p.path.starts_with("song-"))
        .map(|p| p.path.as_str())
        .collect();
    assert_eq!(songs, vec!["song-0001.xhtml", "song-0002.xhtml"]);
    assert_eq!(songs.len(), book.song_count());
    assert!(escape_xml("a & b <c>").match_indices('&').all(|(i, _)| {
        let rest = &escape_xml("a & b <c>")[i..];
        ["&amp;", "&lt;", "&gt;", "&quot;", "&apos;"].iter().any(|e| rest.starts_with(e))
    }));
}
