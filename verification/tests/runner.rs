use lyrics::cli::{Options, SharedOptions};
use lyrics::config::Config;
use lyrics::http::LyricsRecord;
use lyrics::meta::{RawTags, TagValues};
use lyrics::runner::{
    colorize_timestamps, lookup_meta, needs_search, pager_text, playable_lyrics, process_track,
    scan_order, show_text, Outcome, Summary, TrackAction, TrackEvent, TrackPhase, TrackWrite,
};
use lyrics::sidecar::{sidecar_detail, sidecar_state, write_synced, SidecarState};

const GRAY: &str = "\x1b[38;5;240m";
const RESET: &str = "\x1b[0m";

fn options() -> Options {
    SharedOptions::default().resolve(&Config::default())
}

fn tags(title: &str, artist: &str) -> RawTags {
    RawTags::from_values(TagValues {
        title: Some(title.to_owned()),
        artist: Some(artist.to_owned()),
        duration_secs: Some(200),
        ..TagValues::default()
    })
}

fn record(synced: Option<&str>, plain: Option<&str>, instrumental: bool) -> LyricsRecord {
    LyricsRecord {
        id: 1,
        track_name: String::from("Song"),
        artist_name: String::from("Band"),
        album_name: None,
        duration_ns: Some(200_000_000_000),
        instrumental,
        plain_lyrics: plain.map(str::to_owned),
        synced_lyrics: synced.map(str::to_owned),
    }
}

/// Runs a track through tags and sidecar state, then answers the exact lookup with `found`.
fn run(
    state: SidecarState,
    found: Option<LyricsRecord>,
    opts: &Options,
    logs: &mut Vec<String>,
) -> (TrackPhase, TrackAction) {
    let path = "/music/Band/Song.flac";
    let (phase, action) = process_track(path, TrackPhase::Start, TrackEvent::Tags(tags("Song", "Band")), opts, logs);
    assert!(matches!(action, TrackAction::ReadSidecar));
    let (phase, action) = process_track(path, phase, TrackEvent::Sidecar(state), opts, logs);
    if !matches!(action, TrackAction::Get(_)) {
        return (phase, action);
    }
    process_track(path, phase, TrackEvent::Got(found), opts, logs)
}

#[test]
fn a_track_with_synced_lyrics_found_gets_them_written() {
    let mut logs = Vec::new();
    let (phase, action) = run(
        SidecarState::Absent,
        Some(record(Some("[00:01.00]hi"), Some("hi"), false)),
        &options(),
        &mut logs,
    );
    assert!(matches!(phase, TrackPhase::Done));
    match action {
        TrackAction::Finish {
            outcome: Outcome::Fetched,
            write: Some(TrackWrite::Synced(text)),
        } => assert_eq!(text, "[00:01.00]hi"),
        _ => panic!("the synced lyrics were not written"),
    }
    assert_eq!(logs, vec![String::from("fetched   /music/Band/Song.flac")]);
}

#[test]
fn a_plain_sidecar_is_upgraded_to_synced() {
    let mut logs = Vec::new();
    let (_, action) = run(SidecarState::Plain, Some(record(Some("[00:01.00]hi"), None, false)), &options(), &mut logs);
    assert!(matches!(
        action,
        TrackAction::Finish {
            outcome: Outcome::Upgraded,
            write: Some(TrackWrite::Synced(_))
        }
    ));
}

#[test]
fn a_synced_sidecar_is_skipped_without_a_lookup() {
    let mut logs = Vec::new();
    let (_, action) = run(SidecarState::Synced, None, &options(), &mut logs);
    assert!(matches!(
        action,
        TrackAction::Finish {
            outcome: Outcome::Skipped,
            write: None
        }
    ));
}

#[test]
fn forcing_looks_up_a_track_that_already_has_synced_lyrics() {
    let mut logs = Vec::new();
    let opts = Options {
        force: true,
        ..options()
    };
    let (_, action) = run(SidecarState::Synced, Some(record(Some("[00:01.00]x"), None, false)), &opts, &mut logs);
    assert!(matches!(
        action,
        TrackAction::Finish {
            outcome: Outcome::Fetched,
            ..
        }
    ));
}

#[test]
fn plain_lyrics_do_not_replace_a_plain_sidecar() {
    let mut logs = Vec::new();
    let (_, action) = run(SidecarState::Plain, Some(record(None, Some("words"), false)), &options(), &mut logs);
    assert!(matches!(
        action,
        TrackAction::Finish {
            outcome: Outcome::NoChange,
            write: None
        }
    ));
}

#[test]
fn an_instrumental_gets_the_marker_only_when_there_is_no_sidecar() {
    let mut logs = Vec::new();
    let (_, action) = run(SidecarState::Absent, Some(record(None, None, true)), &options(), &mut logs);
    assert!(matches!(
        action,
        TrackAction::Finish {
            outcome: Outcome::Instrumental,
            write: Some(TrackWrite::Marker)
        }
    ));
    let (_, action) = run(SidecarState::Plain, Some(record(None, None, true)), &options(), &mut logs);
    assert!(matches!(
        action,
        TrackAction::Finish {
            outcome: Outcome::NoChange,
            write: None
        }
    ));
}

#[test]
fn a_dry_run_writes_nothing() {
    let mut logs = Vec::new();
    let opts = Options {
        dry_run: true,
        ..options()
    };
    let (_, action) = run(SidecarState::Absent, Some(record(Some("[00:01.00]hi"), None, false)), &opts, &mut logs);
    assert!(matches!(
        action,
        TrackAction::Finish {
            outcome: Outcome::Fetched,
            write: None
        }
    ));
}

#[test]
fn a_miss_on_the_exact_lookup_falls_back_to_search() {
    let mut logs = Vec::new();
    let (phase, action) = run(SidecarState::Absent, None, &options(), &mut logs);
    assert!(matches!(phase, TrackPhase::Searching { .. }));
    assert!(matches!(action, TrackAction::Search(_)));
    let (phase, action) = process_track(
        "/music/Band/Song.flac",
        phase,
        TrackEvent::Searched(vec![record(None, Some("words"), false)]),
        &options(),
        &mut logs,
    );
    assert!(matches!(phase, TrackPhase::Done));
    assert!(matches!(
        action,
        TrackAction::Finish {
            outcome: Outcome::Plain,
            write: Some(TrackWrite::Plain(_))
        }
    ));
}

#[test]
fn a_title_with_markers_is_retried_once_without_them() {
    let mut logs = Vec::new();
    let opts = Options {
        no_search_fallback: true,
        verbose: 1,
        ..options()
    };
    let path = "/music/Band/Song.flac";
    let (phase, _) = process_track(path, TrackPhase::Start, TrackEvent::Tags(tags("Song (Live)", "Band")), &opts, &mut logs);
    let (phase, _) = process_track(path, phase, TrackEvent::Sidecar(SidecarState::Absent), &opts, &mut logs);
    let (phase, action) = process_track(path, phase, TrackEvent::Got(None), &opts, &mut logs);
    match &action {
        TrackAction::Get(meta) => assert_eq!(meta.title, "Song"),
        _ => panic!("no second lookup"),
    }
    let (phase, action) = process_track(path, phase, TrackEvent::Got(None), &opts, &mut logs);
    assert!(matches!(phase, TrackPhase::Done));
    assert!(matches!(
        action,
        TrackAction::Finish {
            outcome: Outcome::Missing,
            ..
        }
    ));
    assert!(logs.iter().any(|l| l == "  retrying without title markers: \"Song\""), "{logs:?}");
}

#[test]
fn a_track_without_title_or_artist_is_untagged() {
    let mut logs = Vec::new();
    let (phase, action) = process_track(
        "/music/x.flac",
        TrackPhase::Start,
        TrackEvent::Tags(RawTags::from_values(TagValues::default())),
        &options(),
        &mut logs,
    );
    assert!(matches!(phase, TrackPhase::Done));
    assert!(matches!(
        action,
        TrackAction::Finish {
            outcome: Outcome::Untagged,
            ..
        }
    ));
}

#[test]
fn the_summary_counts_each_outcome_and_prints_one_line() {
    let mut summary = Summary::default();
    summary.record(Outcome::Fetched);
    summary.record(Outcome::Fetched);
    summary.record(Outcome::Missing);
    summary.record(Outcome::NoChange);
    summary.record_error();
    assert_eq!(summary.synced, 2);
    assert_eq!(summary.missing, 1);
    assert_eq!(
        summary.line(),
        "synced: 2  upgraded: 0  plain: 0  instrumental: 0  skipped: 0  missing: 1  untagged: 0  errors: 1"
    );
    assert!(summary.succeeded());
}

#[test]
fn a_run_of_nothing_but_errors_fails() {
    let mut summary = Summary::default();
    assert!(summary.succeeded());
    summary.record_error();
    assert!(!summary.succeeded());
}

#[test]
fn outcomes_have_their_labels() {
    assert_eq!(Outcome::Fetched.label(), "fetched");
    assert_eq!(Outcome::NoChange.label(), "no-change");
}

#[test]
fn timestamps_are_dimmed_and_every_line_ends_in_a_newline() {
    let out = colorize_timestamps("[00:01.00]one\n  [00:02.00] two\nplain");
    assert_eq!(
        out,
        format!("{GRAY}[00:01.00]{RESET}one\n  {GRAY}[00:02.00]{RESET} two\nplain\n")
    );
    assert_eq!(colorize_timestamps(""), "");
    assert_eq!(colorize_timestamps("[open"), "[open\n");
}

#[test]
fn the_pager_gets_color_only_when_asked_and_allowed() {
    let text = "[00:01.00]one";
    assert_eq!(pager_text(text, false, false), text);
    assert_eq!(pager_text(text, true, true), text);
    assert_eq!(pager_text(text, true, false), colorize_timestamps(text));
}

#[test]
fn scan_visits_audio_files_in_path_order() {
    let paths = vec![
        String::from("/m/b.mp3"),
        String::from("/m/a.flac"),
        String::from("/m/cover.jpg"),
        String::from("/m/c.LRC"),
        String::from("/m/a.ogg"),
    ];
    assert_eq!(
        scan_order(paths),
        vec![String::from("/m/a.flac"), String::from("/m/a.ogg"), String::from("/m/b.mp3")]
    );
}

#[test]
fn show_prefers_synced_lyrics_and_the_view_ignores_instrumentals() {
    let both = record(Some("[00:01.00]s"), Some("p"), false);
    assert_eq!(show_text(&both), "[00:01.00]s");
    let plain = record(None, Some("p"), false);
    assert_eq!(show_text(&plain), "p");
    assert_eq!(playable_lyrics(&plain), None);
    assert_eq!(playable_lyrics(&both), Some(String::from("[00:01.00]s")));
    assert_eq!(playable_lyrics(&record(Some("[00:01.00]s"), None, true)), None);
}

#[test]
fn a_search_is_needed_only_when_the_lookup_found_nothing_and_search_is_on() {
    let opts = options();
    assert!(needs_search(&None, &opts));
    assert!(!needs_search(&Some(record(None, Some("p"), false)), &opts));
    let off = Options {
        no_search_fallback: true,
        ..options()
    };
    assert!(!needs_search(&None, &off));
}

#[test]
fn lookup_meta_builds_a_track_from_its_names() {
    let meta = lookup_meta("Song", "Band", Some("Album"));
    assert_eq!(meta.title, "Song");
    assert_eq!(meta.artist, "Band");
    assert_eq!(meta.album.as_deref(), Some("Album"));
    assert_eq!(meta.duration, None);
}

#[test]
fn a_second_run_skips_what_the_first_wrote() {
    let path = "/music/Band/Song.flac";
    let mut logs = Vec::new();
    let (_, action) = run(
        SidecarState::Absent,
        Some(record(Some("[00:01.00]hi\r"), None, false)),
        &options(),
        &mut logs,
    );
    let text = match action {
        TrackAction::Finish {
            write: Some(TrackWrite::Synced(text)),
            ..
        } => text,
        _ => panic!("nothing was written"),
    };
    let (write, _) = write_synced(path, &text, false, false);
    let state = sidecar_state(sidecar_detail(true, Some(&write.contents), false));
    assert_eq!(state, SidecarState::Synced);
    let (_, action) = run(state, None, &options(), &mut logs);
    assert!(matches!(
        action,
        TrackAction::Finish {
            outcome: Outcome::Skipped,
            ..
        }
    ));
}
