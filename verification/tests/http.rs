use lyrics::http::{
    describe_error, get_url, next_step, pick_best_candidate, retry_after_value, search_url, throttle_wait,
    urlencode, Failure, LyricsRecord, Next, Reply,
};
use lyrics::meta::TrackMeta;
use lyrics::provider::ProviderKind;

const SECOND: u128 = 1_000_000_000;

fn record(duration_secs: Option<u64>, synced: bool, album: Option<&str>) -> LyricsRecord {
    LyricsRecord {
        id: 1,
        track_name: "T".into(),
        artist_name: "A".into(),
        album_name: album.map(std::string::ToString::to_string),
        duration_ns: duration_secs.map(|s| s * 1_000_000_000),
        instrumental: false,
        plain_lyrics: Some("plain".into()),
        synced_lyrics: synced.then(|| "[00:01.00]synced".into()),
    }
}

fn meta(title: &str, artist: &str, album: Option<&str>, duration: Option<u32>) -> TrackMeta {
    TrackMeta {
        path: "/m/x.flac".to_owned(),
        title: title.to_owned(),
        artist: artist.to_owned(),
        album: album.map(str::to_owned),
        duration,
        album_artist: None,
        track_number: None,
        disc_number: None,
        year: None,
        guessed: vec![],
    }
}

#[test]
fn rejects_out_of_tolerance_candidates() {
    let candidates = vec![record(Some(300), false, None)];
    let best = pick_best_candidate(&candidates, Some(200), None, 2);
    assert!(best.is_none());
}

#[test]
fn prefers_synced_over_closer_duration_plain() {
    let candidates = vec![record(Some(200), false, None), record(Some(201), true, None)];
    let best = pick_best_candidate(&candidates, Some(200), None, 2).unwrap();
    assert!(best.synced_lyrics.is_some());
}

#[test]
fn tolerance_skipped_when_local_duration_unknown() {
    let candidates = vec![record(Some(9999), false, None)];
    let best = pick_best_candidate(&candidates, None, None, 2);
    assert!(best.is_some());
}

#[test]
fn a_matching_album_breaks_a_tie_and_otherwise_the_first_wins() {
    let candidates = vec![
        record(Some(200), true, Some("Other")),
        record(Some(200), true, Some("the ALBUM")),
        record(Some(200), true, Some("The Album")),
    ];
    let best = pick_best_candidate(&candidates, Some(200), Some("The Album"), 2).unwrap();
    assert_eq!(best.album_name.as_deref(), Some("the ALBUM"));
    let best = pick_best_candidate(&candidates, Some(200), None, 2).unwrap();
    assert_eq!(best.album_name.as_deref(), Some("Other"));
}

#[test]
fn urlencode_handles_spaces_and_specials() {
    assert_eq!(urlencode("Borislav Slavov"), "Borislav+Slavov");
    assert_eq!(urlencode("Baldur's Gate"), "Baldur%27s+Gate");
    assert_eq!(urlencode("Björk"), "Bj%C3%B6rk");
    assert_eq!(urlencode("a-b_c.d~e"), "a-b_c.d~e");
}

#[test]
fn retry_after_parses_integer_seconds() {
    assert_eq!(retry_after_value(Some("2"), 0), Some(2 * SECOND));
    assert_eq!(retry_after_value(Some(" +7 "), 0), Some(7 * SECOND));
}

#[test]
fn retry_after_absent_returns_none() {
    assert_eq!(retry_after_value(None, 0), None);
    assert_eq!(retry_after_value(Some("soon"), 0), None);
}

#[test]
fn retry_after_reads_an_http_date_relative_to_now() {
    // Sun, 06 Nov 1994 08:49:37 GMT is 784111777 seconds after the epoch.
    let date = "Sun, 06 Nov 1994 08:49:37 GMT";
    let now = 784_111_770 * SECOND;
    assert_eq!(retry_after_value(Some(date), now), Some(7 * SECOND));
    assert_eq!(retry_after_value(Some(date), 784_111_800 * SECOND), None);
}

#[test]
fn lookup_urls_carry_what_is_known_and_search_leaves_the_album_out() {
    let spec = ProviderKind::Lrclib.spec();
    let m = meta("Fade to Black", "Metallica", Some("Ride the Lightning"), Some(417));
    assert_eq!(
        get_url(&spec, &m),
        "https://lrclib.net/api/get?track_name=Fade+to+Black&artist_name=Metallica&album_name=Ride+the+Lightning&duration=417"
    );
    assert_eq!(
        search_url(&spec, &m),
        "https://lrclib.net/api/search?track_name=Fade+to+Black&artist_name=Metallica"
    );
    let bare = meta("One", "Metallica", None, None);
    assert_eq!(
        get_url(&ProviderKind::Lrcmux.spec(), &bare),
        "https://api.lrcmux.dev/compat/lrclib/api/get?track_name=One&artist_name=Metallica"
    );
}

#[test]
fn the_throttle_waits_out_the_rest_of_the_delay() {
    assert_eq!(throttle_wait(None, 5, 300), 0);
    assert_eq!(throttle_wait(Some(100), 250, 300), 150);
    assert_eq!(throttle_wait(Some(100), 900, 300), 0);
}

#[test]
fn the_retry_policy_backs_off_then_gives_up() {
    assert_eq!(next_step(0, 3, Reply::Status { code: 200, retry_after: None }), (0, Next::Read));
    assert_eq!(next_step(0, 3, Reply::Status { code: 404, retry_after: None }), (0, Next::NotFound));
    assert_eq!(next_step(0, 3, Reply::Transport), (1, Next::Retry(2 * SECOND)));
    assert_eq!(next_step(1, 3, Reply::Status { code: 503, retry_after: None }), (2, Next::Retry(4 * SECOND)));
    assert_eq!(
        next_step(0, 3, Reply::Status { code: 429, retry_after: Some(9 * SECOND) }),
        (1, Next::Retry(9 * SECOND))
    );
    assert_eq!(next_step(3, 3, Reply::Transport), (4, Next::Fail(Failure::Transport)));
    assert_eq!(
        next_step(3, 3, Reply::Status { code: 500, retry_after: None }),
        (4, Next::Fail(Failure::ServerError(500)))
    );
    assert_eq!(
        next_step(0, 3, Reply::Status { code: 400, retry_after: None }),
        (1, Next::Fail(Failure::Refused(400)))
    );
    assert_eq!(
        next_step(3, 3, Reply::Status { code: 429, retry_after: Some(5 * SECOND) }),
        (4, Next::Fail(Failure::RateLimited(5 * SECOND)))
    );
    assert_eq!(
        next_step(3, 3, Reply::Status { code: 429, retry_after: None }),
        (4, Next::Fail(Failure::RateLimited(16 * SECOND)))
    );
}

#[test]
fn each_provider_has_distinct_well_shaped_urls() {
    let lrclib = ProviderKind::Lrclib.spec();
    let lrcmux = ProviderKind::Lrcmux.spec();

    for spec in [&lrclib, &lrcmux] {
        assert!(spec.get_url.ends_with("/api/get"), "{}", spec.get_url);
        assert!(spec.search_url.ends_with("/api/search"), "{}", spec.search_url);
    }

    assert_ne!(lrclib.get_url, lrcmux.get_url);
    assert_ne!(lrclib.search_url, lrcmux.search_url);
    assert_ne!(lrclib.name, lrcmux.name);
}

#[test]
fn the_throttle_spaces_requests_by_the_delay() {
    let ms = 1_000_000u128;
    assert_eq!(throttle_wait(None, 5 * ms, 300 * ms), 0);
    assert_eq!(throttle_wait(Some(0), 100 * ms, 300 * ms), 200 * ms);
    assert_eq!(throttle_wait(Some(0), 400 * ms, 300 * ms), 0);
}

#[test]
fn tolerance_is_exact_below_a_millisecond() {
    let mut just_outside = record(Some(200), true, None);
    just_outside.duration_ns = Some(202_000_400_000);
    let mut just_inside = record(Some(200), true, None);
    just_inside.duration_ns = Some(201_999_999_999);
    assert!(pick_best_candidate(&vec![just_outside.clone()], Some(200), None, 2).is_none());
    let best = pick_best_candidate(&vec![just_outside, just_inside], Some(200), None, 2).unwrap();
    assert_eq!(best.duration_ns, Some(201_999_999_999));
}

#[test]
fn describes_an_error_body_for_the_log() {
    assert_eq!(describe_error("NotFound", 404, "no such track"), "NotFound (404): no such track");
    assert_eq!(describe_error("Odd", -1, "m"), "Odd (-1): m");
}
