use lyrics::sidecar::{
    is_timestamp_line, normalize, sidecar_detail, sidecar_path, sidecar_state,
    write_instrumental_marker_if_absent, write_plain, write_synced, SidecarDetail, SidecarState,
    INSTRUMENTAL_MARKER,
};

const AUDIO: &str = "/music/Artist/Album/01 Track.flac";

/// The state of a track's sidecars, from what is on disk beside it.
fn state(lrc: Option<&str>, txt: bool) -> SidecarState {
    sidecar_state(sidecar_detail(lrc.is_some(), lrc, txt))
}

#[test]
fn sidecar_path_never_returns_the_audio_path() {
    for ext in ["lrc", "txt"] {
        assert_ne!(sidecar_path(AUDIO, ext), AUDIO);
    }
    assert_eq!(sidecar_path(AUDIO, "lrc"), "/music/Artist/Album/01 Track.lrc");
}

#[test]
fn state_none_when_no_sidecar() {
    assert_eq!(state(None, false), SidecarState::Absent);
}

#[test]
fn state_synced_when_lrc_has_timestamps() {
    assert_eq!(
        state(Some("[00:01.00]Hello\n[00:02.00]World\n"), false),
        SidecarState::Synced
    );
}

#[test]
fn state_plain_when_lrc_has_no_timestamps() {
    assert_eq!(
        state(Some("[ar:Some Artist]\nHello\nWorld\n"), false),
        SidecarState::Plain
    );
}

#[test]
fn state_plain_when_only_txt_exists() {
    assert_eq!(state(None, true), SidecarState::Plain);
}

#[test]
fn state_synced_when_instrumental_marker_present() {
    assert_eq!(state(Some(INSTRUMENTAL_MARKER), false), SidecarState::Synced);
    assert_eq!(
        sidecar_detail(true, Some(INSTRUMENTAL_MARKER), false),
        SidecarDetail::Instrumental
    );
}

#[test]
fn an_unreadable_lrc_still_counts_as_plain() {
    assert_eq!(sidecar_detail(true, None, false), SidecarDetail::Plain);
}

#[test]
fn write_synced_removes_stale_txt_unless_keep_plain() {
    let (write, remove) = write_synced(AUDIO, "[00:01.00]Hi\n", false, true);
    assert_eq!(write.path, "/music/Artist/Album/01 Track.lrc");
    assert_eq!(write.contents, "[00:01.00]Hi\n");
    assert_eq!(remove.as_deref(), Some("/music/Artist/Album/01 Track.txt"));
}

#[test]
fn write_synced_keeps_txt_when_requested() {
    let (_, remove) = write_synced(AUDIO, "[00:01.00]Hi\n", true, true);
    assert_eq!(remove, None);
}

#[test]
fn instrumental_marker_never_clobbers_real_plain_lyrics() {
    assert!(write_instrumental_marker_if_absent(AUDIO, state(None, true)).is_none());
}

#[test]
fn instrumental_marker_never_clobbers_real_synced_lyrics() {
    let current = state(Some("[00:01.00]Real synced lyrics\n"), false);
    assert!(write_instrumental_marker_if_absent(AUDIO, current).is_none());
}

#[test]
fn instrumental_marker_written_as_lrc_when_absent() {
    let write = write_instrumental_marker_if_absent(AUDIO, state(None, false))
        .expect("no sidecar yet");
    assert_eq!(write.path, "/music/Artist/Album/01 Track.lrc");
    assert_eq!(write.contents, INSTRUMENTAL_MARKER);
}

#[test]
fn sidecars_always_end_with_a_newline() {
    assert_eq!(normalize("a".to_owned()), "a\n");
    assert_eq!(normalize("a\n".to_owned()), "a\n");
    assert_eq!(write_plain(AUDIO, "words").contents, "words\n");
    assert_eq!(write_plain(AUDIO, "words").path, "/music/Artist/Album/01 Track.txt");
}

#[test]
fn metadata_tags_are_not_timestamps() {
    assert!(is_timestamp_line("  [00:17.12]words"));
    assert!(!is_timestamp_line("[ar:Artist]"));
}

#[test]
fn a_sidecar_path_never_names_the_audio_file() {
    for audio in ["/m/a/song.mp3", "/m/a/Song.FLAC", "rel/x.m4a"] {
        for ext in ["lrc", "txt", ""] {
            assert_ne!(sidecar_path(audio, ext), audio);
        }
    }
    assert_eq!(sidecar_path("/m/a/song.mp3", "lrc"), "/m/a/song.lrc");
}

#[test]
fn a_sidecar_path_keeps_the_directory_and_stem() {
    assert_eq!(sidecar_path("/m/a/b.c.mp3", "lrc"), "/m/a/b.c.lrc");
    assert_eq!(sidecar_path("./x/y.flac", "txt"), "./x/y.txt");
    assert_eq!(sidecar_path("/m/a/b.mp3/", "lrc"), "/m/a/b.lrc");
}
