use lyrics::sidecar::{sidecar_detail, SidecarDetail, INSTRUMENTAL_MARKER};
use lyrics::stats::{collect, percentage, thousands, Stats, WalkedFile};

fn audio(path: &str, lrc: Option<&str>, txt: bool) -> WalkedFile {
    WalkedFile {
        path: path.to_owned(),
        detail: sidecar_detail(lrc.is_some(), lrc, txt),
    }
}

fn other(path: &str) -> WalkedFile {
    WalkedFile {
        path: path.to_owned(),
        detail: SidecarDetail::Absent,
    }
}

#[test]
fn thousands_groups_correctly() {
    assert_eq!(thousands(0), "0");
    assert_eq!(thousands(9), "9");
    assert_eq!(thousands(999), "999");
    assert_eq!(thousands(1_000), "1,000");
    assert_eq!(thousands(1_240), "1,240");
    assert_eq!(thousands(1_000_000), "1,000,000");
}

#[test]
fn percentage_rounds_and_avoids_division_by_zero() {
    assert_eq!(percentage(0, 0), 0);
    assert_eq!(percentage(980, 1_240), 79);
    assert_eq!(percentage(1, 3), 33);
    assert_eq!(percentage(2, 3), 67);
    assert_eq!(percentage(10, 10), 100);
}

#[test]
fn empty_dir_has_zero_total_and_no_panic() {
    let stats = collect(&Vec::new());
    assert_eq!(stats.total, 0);
    assert!(stats.render().contains("Total tracks:"));
}

#[test]
fn counts_synced_plain_instrumental_and_missing() {
    let files = vec![
        audio("/d/01 Synced.flac", Some("[00:01.00]Hello\n[00:02.00]World\n"), false),
        other("/d/01 Synced.lrc"),
        audio("/d/02 Plain.flac", None, true),
        other("/d/02 Plain.txt"),
        audio("/d/03 NoTimestamps.flac", Some("[ar:Some Artist]\nHello\n"), false),
        other("/d/03 NoTimestamps.lrc"),
        audio("/d/04 Instrumental.flac", Some(INSTRUMENTAL_MARKER), false),
        other("/d/04 Instrumental.lrc"),
        audio("/d/05 Missing.mp3", None, false),
    ];
    let stats: Stats = collect(&files);
    assert_eq!(stats.total, 5);
    assert_eq!(stats.synced, 1);
    assert_eq!(stats.instrumental, 1);
    assert_eq!(stats.plain, 2);
    assert_eq!(stats.missing, 1);
    assert_eq!(stats.extension_count("flac"), Some(4));
    assert_eq!(stats.extension_count("mp3"), Some(1));
    assert!(stats.orphan_paths.is_empty());
}

#[test]
fn detects_orphaned_sidecar() {
    let files = vec![
        audio("/d/01 Track.flac", Some("[00:01.00]Hi\n"), false),
        other("/d/01 Track.lrc"),
        other("/d/02 Deleted.lrc"),
    ];
    let stats = collect(&files);
    assert_eq!(stats.orphan_count(), 1);
    assert!(stats.orphan_paths[0].ends_with("02 Deleted.lrc"));
}

#[test]
fn orphan_check_is_case_insensitive_on_extension_and_stem() {
    let files = vec![
        audio("/d/Track.FLAC", Some("[00:01.00]Hi\n"), false),
        other("/d/track.lrc"),
    ];
    let stats = collect(&files);
    assert!(stats.orphan_paths.is_empty());
}

#[test]
fn a_sidecar_in_another_directory_is_an_orphan() {
    let files = vec![
        audio("/d/a/Track.flac", None, false),
        other("/d/b/Track.lrc"),
    ];
    assert_eq!(collect(&files).orphan_count(), 1);
}

#[test]
fn every_audio_file_lands_in_exactly_one_bucket() {
    let files = vec![
        audio("/m/a.flac", Some("[00:01.00]x"), false),
        audio("/m/b.flac", Some(INSTRUMENTAL_MARKER), false),
        audio("/m/c.mp3", None, true),
        audio("/m/d.ogg", None, false),
        audio("/m/e.flac", Some("no timestamps"), false),
        other("/m/cover.jpg"),
    ];
    let stats = collect(&files);
    assert_eq!(stats.total, 5);
    assert_eq!(stats.synced + stats.instrumental + stats.plain + stats.missing, stats.total);
    assert_eq!((stats.synced, stats.instrumental, stats.plain, stats.missing), (1, 1, 2, 1));
}

#[test]
fn percentages_round_half_up_and_formats_add_up() {
    assert_eq!(percentage(1, 8), 13);
    assert_eq!(percentage(1, 200), 1);
    assert_eq!(percentage(1, 201), 0);
    let files = vec![
        audio("/m/a.mp3", None, false),
        audio("/m/b.MP3", None, true),
        audio("/m/c.flac", None, false),
        other("/m/orphan.lrc"),
    ];
    let stats = collect(&files);
    let sum: u32 = stats.by_extension.iter().map(|(_, n)| *n).sum();
    assert_eq!(sum, stats.total);
    assert_eq!(stats.orphan_paths, vec!["/m/orphan.lrc".to_owned()]);
}
