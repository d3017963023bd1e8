use lyrics::ebook::library::{
    artist_sort_key, collect, find_art, group, lyrics_source, Artist, Book, Entry, FoundTrack,
    LyricState, UNKNOWN_ALBUM,
};
use lyrics::meta::{ResolvedMeta, TrackMeta};

#[allow(clippy::too_many_arguments)]
fn entry(
    title: &str,
    artist: &str,
    album_artist: Option<&str>,
    album: &str,
    track: Option<u32>,
    disc: Option<u32>,
    year: Option<u32>,
    state: LyricState,
) -> Entry {
    let path = format!("/music/{artist}/{album}/{title}.flac");
    Entry {
        meta: TrackMeta {
            path: path.clone(),
            title: title.to_owned(),
            artist: artist.to_owned(),
            album: Some(album.to_owned()),
            duration: None,
            album_artist: album_artist.map(str::to_owned),
            track_number: track,
            disc_number: disc,
            year,
            guessed: vec![],
        },
        path,
        state,
        stanzas: if state.has_lyrics() {
            vec![vec![title.to_owned()]]
        } else {
            vec![]
        },
        art: None,
    }
}

fn synced(title: &str, artist: &str, album: &str, track: u32) -> Entry {
    entry(title, artist, None, album, Some(track), None, Some(1990), LyricState::Synced)
}

fn group_only(entries: Vec<Entry>) -> Vec<Artist> {
    let mut book = Book::default();
    group(entries, &mut book)
}

#[test]
fn groups_albums_under_their_artist() {
    let artists = group_only(vec![
        synced("A", "Metallica", "Ride the Lightning", 1),
        synced("B", "Metallica", "Ride the Lightning", 2),
    ]);
    assert_eq!(artists.len(), 1);
    assert_eq!(artists[0].name, "Metallica");
    assert_eq!(artists[0].albums.len(), 1);
    assert_eq!(artists[0].albums[0].track_count(), 2);
}

#[test]
fn album_artist_wins_over_track_artist() {
    let artists = group_only(vec![
        entry("A", "Artist One", Some("Various Artists"), "Comp", Some(1), None, Some(2000), LyricState::Synced),
        entry("B", "Artist Two", Some("Various Artists"), "Comp", Some(2), None, Some(2000), LyricState::Synced),
    ]);
    assert_eq!(artists.len(), 1);
    assert_eq!(artists[0].name, "Various Artists");
    assert_eq!(artists[0].albums[0].track_count(), 2);
    let titles: Vec<&str> = artists[0].albums[0].discs[0]
        .tracks
        .iter()
        .map(|t| t.artist.as_str())
        .collect();
    assert_eq!(titles, vec!["Artist One", "Artist Two"]);
}

#[test]
fn falls_back_to_track_artist_without_an_album_artist_tag() {
    let artists = group_only(vec![synced("A", "Slayer", "Reign in Blood", 1)]);
    assert_eq!(artists[0].name, "Slayer");
}

#[test]
fn leading_the_is_ignored_when_sorting_artists() {
    let artists = group_only(vec![
        synced("A", "The Beatles", "Revolver", 1),
        synced("B", "Cream", "Disraeli Gears", 1),
        synced("C", "ABBA", "Arrival", 1),
    ]);
    let names: Vec<&str> = artists.iter().map(|a| a.name.as_str()).collect();
    assert_eq!(names, vec!["ABBA", "The Beatles", "Cream"]);
}

#[test]
fn albums_sort_by_year_then_title() {
    let artists = group_only(vec![
        entry("A", "X", None, "Later", Some(1), None, Some(1995), LyricState::Synced),
        entry("B", "X", None, "Earlier", Some(1), None, Some(1980), LyricState::Synced),
        entry("C", "X", None, "Undated", Some(1), None, None, LyricState::Synced),
    ]);
    let titles: Vec<&str> = artists[0].albums.iter().map(|a| a.title.as_str()).collect();
    assert_eq!(titles, vec!["Earlier", "Later", "Undated"]);
}

#[test]
fn tracks_sort_by_disc_then_number() {
    let artists = group_only(vec![
        entry("Two", "X", None, "A", Some(2), Some(1), Some(1990), LyricState::Synced),
        entry("Four", "X", None, "A", Some(2), Some(2), Some(1990), LyricState::Synced),
        entry("One", "X", None, "A", Some(1), Some(1), Some(1990), LyricState::Synced),
        entry("Three", "X", None, "A", Some(1), Some(2), Some(1990), LyricState::Synced),
    ]);
    let album = &artists[0].albums[0];
    assert!(album.is_multi_disc());
    assert_eq!(album.discs.len(), 2);
    assert_eq!(album.discs[0].number, 1);
    let disc_one: Vec<&str> = album.discs[0].tracks.iter().map(|t| t.title.as_str()).collect();
    assert_eq!(disc_one, vec!["One", "Two"]);
    let disc_two: Vec<&str> = album.discs[1].tracks.iter().map(|t| t.title.as_str()).collect();
    assert_eq!(disc_two, vec!["Three", "Four"]);
}

#[test]
fn an_untagged_disc_number_lands_on_disc_one() {
    let artists = group_only(vec![synced("A", "X", "Album", 1)]);
    let album = &artists[0].albums[0];
    assert_eq!(album.discs.len(), 1);
    assert_eq!(album.discs[0].number, 1);
    assert!(!album.is_multi_disc());
}

#[test]
fn untracked_titles_sort_last_by_path() {
    let artists = group_only(vec![
        entry("Zeta", "X", None, "A", None, None, Some(1990), LyricState::Synced),
        entry("Alpha", "X", None, "A", None, None, Some(1990), LyricState::Synced),
        entry("Numbered", "X", None, "A", Some(1), None, Some(1990), LyricState::Synced),
    ]);
    let titles: Vec<&str> = artists[0].albums[0].discs[0].tracks.iter().map(|t| t.title.as_str()).collect();
    assert_eq!(titles, vec!["Numbered", "Alpha", "Zeta"]);
}

#[test]
fn lyricless_and_instrumental_tracks_stay_on_the_album() {
    let artists = group_only(vec![
        synced("Has Lyrics", "X", "A", 1),
        entry("Silent", "X", None, "A", Some(2), None, Some(1990), LyricState::Missing),
        entry("Interlude", "X", None, "A", Some(3), None, Some(1990), LyricState::Instrumental),
    ]);
    let album = &artists[0].albums[0];
    assert_eq!(album.track_count(), 3);
    assert_eq!(album.lyric_count(), 1);
}

#[test]
fn an_album_with_no_lyrics_at_all_is_dropped() {
    let artists = group_only(vec![
        entry("A", "X", None, "Empty", Some(1), None, Some(1990), LyricState::Missing),
        entry("B", "X", None, "Empty", Some(2), None, Some(1990), LyricState::Instrumental),
    ]);
    assert!(artists.is_empty());
}

#[test]
fn an_artist_keeps_only_the_albums_that_have_lyrics() {
    let artists = group_only(vec![
        synced("A", "X", "Good", 1),
        entry("B", "X", None, "Empty", Some(1), None, Some(1990), LyricState::Missing),
    ]);
    assert_eq!(artists.len(), 1);
    let titles: Vec<&str> = artists[0].albums.iter().map(|a| a.title.as_str()).collect();
    assert_eq!(titles, vec!["Good"]);
}

#[test]
fn counts_tracks_listed_without_lyrics() {
    let mut book = Book::default();
    let artists = group(
        vec![
            synced("A", "X", "Album", 1),
            entry("B", "X", None, "Album", Some(2), None, Some(1990), LyricState::Missing),
            entry("C", "X", None, "Album", Some(3), None, Some(1990), LyricState::Instrumental),
        ],
        &mut book,
    );
    book.artists = artists;
    assert_eq!(book.without_lyrics, 2);
    assert_eq!(book.song_count(), 1);
    assert_eq!(book.album_count(), 1);
}

#[test]
fn artist_sort_key_strips_a_leading_the() {
    assert_eq!(artist_sort_key("The Beatles"), "beatles");
    assert_eq!(artist_sort_key("Theatre of Tragedy"), "theatre of tragedy");
    assert_eq!(artist_sort_key("ABBA"), "abba");
}

#[test]
fn missing_album_tag_becomes_a_placeholder_title() {
    let mut e = synced("A", "X", "Ignored", 1);
    e.meta.album = None;
    assert_eq!(e.album_title(), UNKNOWN_ALBUM);
}

#[test]
fn untagged_tracks_are_counted_and_left_out() {
    let tagged = synced("A", "X", "Album", 1);
    let found = vec![
        FoundTrack {
            path: tagged.path.clone(),
            meta: ResolvedMeta::Tagged(tagged.meta),
            state: LyricState::Synced,
            stanzas: vec![vec!["words".to_owned()]],
            art: Some("/music/X/Album/folder.jpg".to_owned()),
        },
        FoundTrack {
            path: "/music/unknown.flac".to_owned(),
            meta: ResolvedMeta::Untagged,
            state: LyricState::Missing,
            stanzas: vec![],
            art: None,
        },
    ];
    let book = collect(found);
    assert_eq!(book.untagged, 1);
    assert_eq!(book.artists.len(), 1);
    assert_eq!(book.artists[0].albums[0].art.as_deref(), Some("/music/X/Album/folder.jpg"));
}

#[test]
fn find_art_prefers_folder_over_cover_whatever_the_order() {
    let entries = vec![
        "/a/Cover.PNG".to_owned(),
        "/a/notes.txt".to_owned(),
        "/a/folder.jpeg".to_owned(),
    ];
    assert_eq!(find_art(&entries).as_deref(), Some("/a/folder.jpeg"));
    let entries = vec!["/a/cover.jpg".to_owned(), "/a/folder.gif".to_owned()];
    assert_eq!(find_art(&entries).as_deref(), Some("/a/cover.jpg"));
    assert_eq!(find_art(&vec!["/a/back.jpg".to_owned()]), None);
}

#[test]
fn the_lrc_is_read_when_both_sidecars_exist() {
    assert_eq!(lyrics_source("/m/a.flac", true), "/m/a.lrc");
    assert_eq!(lyrics_source("/m/a.flac", false), "/m/a.txt");
}
