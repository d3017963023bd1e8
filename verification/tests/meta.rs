use lyrics::meta::{
    guess_from_path, is_audio_file, parse_year, resolve, strip_track_number,
    strip_trailing_markers, GuessedField, RawTags, ResolvedMeta, TagValues,
};

#[test]
fn strips_common_track_number_prefixes() {
    assert_eq!(strip_track_number("01 Track"), "Track");
    assert_eq!(strip_track_number("01. Track"), "Track");
    assert_eq!(strip_track_number("01_Track"), "Track");
    assert_eq!(strip_track_number("01-Track"), "Track");
    assert_eq!(strip_track_number("1 Track"), "Track");
    assert_eq!(strip_track_number("Track"), "Track");
}

#[test]
fn does_not_strip_digits_with_no_separator() {
    assert_eq!(
        strip_track_number("2001 A Space Odyssey"),
        "A Space Odyssey"
    );
    assert_eq!(strip_track_number("21"), "21");
}

#[test]
fn strips_single_trailing_marker() {
    assert_eq!(
        strip_trailing_markers("Mother Mary [Bonus Track]"),
        Some("Mother Mary".to_string())
    );
    assert_eq!(
        strip_trailing_markers("The Wizard [Live]"),
        Some("The Wizard".to_string())
    );
    assert_eq!(
        strip_trailing_markers("Tom's Diner (Acoustic)"),
        Some("Tom's Diner".to_string())
    );
}

#[test]
fn strips_multiple_trailing_markers() {
    assert_eq!(
        strip_trailing_markers("Machine Gun Man (Acoustic) [Bonus Track]"),
        Some("Machine Gun Man".to_string())
    );
}

#[test]
fn no_markers_returns_none() {
    assert_eq!(strip_trailing_markers("Eye In The Sky"), None);
}

#[test]
fn does_not_strip_down_to_an_empty_title() {
    assert_eq!(strip_trailing_markers("(Interlude)"), None);
}

#[test]
fn leaves_non_trailing_brackets_alone() {
    assert_eq!(
        strip_trailing_markers("Say My Name (feat. Someone) Reprise"),
        None
    );
}

#[test]
fn guesses_title_album_artist_from_path() {
    let path = "/music/Artist Name/Album Name/01 Track Title.flac";
    let guess = guess_from_path(path);
    assert_eq!(guess.title.as_deref(), Some("Track Title"));
    assert_eq!(guess.album.as_deref(), Some("Album Name"));
    assert_eq!(guess.artist.as_deref(), Some("Artist Name"));
}

#[test]
fn parses_a_bare_year() {
    assert_eq!(parse_year("1991"), Some(1991));
    assert_eq!(parse_year("  1991 "), Some(1991));
}

#[test]
fn parses_the_year_out_of_a_full_date() {
    assert_eq!(parse_year("1991-08-12"), Some(1991));
    assert_eq!(parse_year("1991-08-12T00:00:00Z"), Some(1991));
    assert_eq!(parse_year("2003/05/01"), Some(2003));
}

#[test]
fn rejects_values_that_are_not_a_four_digit_year() {
    assert_eq!(parse_year(""), None);
    assert_eq!(parse_year("91"), None);
    assert_eq!(parse_year("199"), None);
    assert_eq!(parse_year("unknown"), None);
    assert_eq!(parse_year("19910"), None);
}

#[test]
fn is_audio_file_matches_known_extensions_case_insensitively() {
    assert!(is_audio_file(("track.MP3")));
    assert!(is_audio_file(("track.flac")));
    assert!(!is_audio_file(("track.lrc")));
    assert!(!is_audio_file(("track.txt")));
    assert!(!is_audio_file(("cover.jpg")));
}

#[test]
fn the_path_fills_in_missing_tags_only_when_asked() {
    let path = "/music/Artist Name/Album Name/01 Track Title.flac";
    match resolve(path, RawTags::empty(), false) {
        ResolvedMeta::Untagged => {}
        ResolvedMeta::Tagged(_) => panic!("tags were invented without path fallback"),
    }
    let ResolvedMeta::Tagged(meta) = resolve(path, RawTags::empty(), true) else {
        panic!("path fallback found nothing");
    };
    assert_eq!(meta.title, "Track Title");
    assert_eq!(meta.artist, "Artist Name");
    assert_eq!(meta.album.as_deref(), Some("Album Name"));
    assert_eq!(
        meta.guessed,
        vec![GuessedField::Title, GuessedField::Artist, GuessedField::Album]
    );
}

#[test]
fn tags_win_over_the_path() {
    let raw = RawTags::from_values(TagValues {
        title: Some("  Real Title ".to_owned()),
        artist: Some("Real Artist".to_owned()),
        ..TagValues::default()
    });
    let ResolvedMeta::Tagged(meta) = resolve("/m/A/B/01 x.flac", raw, true) else {
        panic!("tagged track read as untagged");
    };
    assert_eq!(meta.artist, "Real Artist");
    assert_eq!(meta.guessed, vec![GuessedField::Album]);
}

#[test]
fn guessed_fields_have_labels() {
    assert_eq!(GuessedField::Title.label(), "title");
    assert_eq!(GuessedField::Artist.label(), "artist");
    assert_eq!(GuessedField::Album.label(), "album");
}

#[test]
fn stripping_a_stripped_title_again_strips_nothing() {
    let once = strip_trailing_markers("Song (Live) [Bonus Track]  ").unwrap();
    assert_eq!(once, "Song");
    assert_eq!(strip_trailing_markers(&once), None);
}

#[test]
fn without_path_fallback_nothing_is_guessed() {
    let raw = RawTags::from_values(TagValues {
        title: Some("Title".to_owned()),
        artist: None,
        ..TagValues::default()
    });
    assert!(matches!(resolve("/m/Artist/Album/01 Title.mp3", raw, false), ResolvedMeta::Untagged));
}

#[test]
fn stripping_gives_nothing_without_a_trailing_marker() {
    assert_eq!(strip_trailing_markers("Song"), None);
    assert_eq!(strip_trailing_markers("(Live)"), None);
    assert_eq!(strip_trailing_markers("Song (Live)  ").as_deref(), Some("Song"));
}
