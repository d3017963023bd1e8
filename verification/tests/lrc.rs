use lyrics::lrc::{
    is_lrc_file, lint, parse_line, parse_synced, report_line, resolve_lrc_paths, Diagnostic,
    Line, LintTally, LintTarget, Severity, SyncError,
};

fn severities(diags: &[Diagnostic]) -> Vec<(usize, Severity)> {
    diags.iter().map(|d| (d.line, d.severity)).collect()
}

#[test]
fn parses_blank_comment_and_untimed_lines() {
    assert_eq!(parse_line(""), Line::Blank);
    assert_eq!(parse_line("   "), Line::Blank);
    assert_eq!(
        parse_line("# generated by X"),
        Line::Comment("generated by X")
    );
    assert_eq!(parse_line("just lyrics"), Line::Untimed("just lyrics"));
}

#[test]
fn parses_metadata_tag() {
    assert_eq!(
        parse_line("[ar:Some Artist]"),
        Line::Metadata {
            key: "ar",
            value: "Some Artist"
        }
    );
}

#[test]
fn parses_single_timed_line() {
    let Line::Timed { stamps, text } = parse_line("[00:12.34]Hello") else {
        panic!("expected Timed");
    };
    assert_eq!(stamps.len(), 1);
    assert_eq!(text, "Hello");
    assert_eq!(stamps[0].millis(), Some(12_340));
}

#[test]
fn parses_multi_stamp_line() {
    let Line::Timed { stamps, text } = parse_line("[00:01.00][01:23.45]Same words") else {
        panic!("expected Timed");
    };
    assert_eq!(stamps.len(), 2);
    assert_eq!(text, "Same words");
}

#[test]
fn malformed_bracket_is_reported() {
    assert!(matches!(parse_line("[not a tag"), Line::Malformed(_)));
    assert!(matches!(parse_line("[12x34]oops"), Line::Malformed(_)));
}

#[test]
fn offset_tag_accepts_negative_integers() {
    assert_eq!(
        parse_line("[offset:-500]"),
        Line::Metadata {
            key: "offset",
            value: "-500"
        }
    );
}

#[test]
fn instrumental_marker_lints_clean() {
    let diags = lint("[00:00.00]Instrumental\n");
    assert!(diags.is_empty(), "{diags:?}");
}

#[test]
fn clean_synced_file_lints_clean() {
    let contents = "[ar:Some Artist]\n[ti:Some Title]\n\
                     [00:01.00]First line\n[00:05.50]Second line\n[00:12.00]Third line\n";
    let diags = lint(contents);
    assert!(diags.is_empty(), "{diags:?}");
}

#[test]
fn flags_out_of_order_timestamps() {
    let diags = lint("[00:10.00]Later\n[00:05.00]Earlier\n");
    assert_eq!(severities(&diags), vec![(2, Severity::Error)]);
}

#[test]
fn flags_seconds_out_of_range() {
    let diags = lint("[00:75.00]Oops\n");
    assert!(
        diags
            .iter()
            .any(|d| d.severity == Severity::Error && d.line == 1)
    );
}

#[test]
fn flags_duplicate_timestamps() {
    let diags = lint("[00:01.00]A\n[00:01.00]B\n");
    assert!(
        diags
            .iter()
            .any(|d| d.severity == Severity::Warning && d.message.contains("duplicate"))
    );
}

#[test]
fn break_entry_sharing_a_timestamp_is_not_a_duplicate() {
    let diags = lint("[00:01.00]A\n[00:01.00]\n");
    assert!(diags.is_empty(), "{diags:?}");
}

#[test]
fn break_entry_does_not_poison_a_later_real_line() {
    let diags = lint("[00:01.00]\n[00:01.00]A\n");
    assert!(
        !diags.iter().any(|d| d.message.contains("duplicate")),
        "{diags:?}"
    );
}

#[test]
fn realistic_lrclib_tail_lints_clean() {
    let contents = "[04:43.70]There's gonna be Hell\n                         [04:51.97]There's gonna be Hell.\n                         [04:51.97]\n";
    let diags = lint(contents);
    assert!(diags.is_empty(), "{diags:?}");
}

#[test]
fn flags_non_canonical_precision_and_padding() {
    let diags = lint("[0:01]No fraction, one digit minute\n");
    assert_eq!(
        diags
            .iter()
            .filter(|d| d.severity == Severity::Warning)
            .count(),
        2
    );
}

#[test]
fn flags_unknown_metadata_key() {
    let diags = lint("[xy:whatever]\n");
    assert!(diags.iter().any(|d| d.message.contains("unknown metadata")));
}

#[test]
fn flags_metadata_after_timed_line() {
    let diags = lint("[00:01.00]Hi\n[ar:Late Artist]\n");
    assert!(
        diags
            .iter()
            .any(|d| d.message.contains("after the first timed line"))
    );
}

#[test]
fn flags_untimed_line_among_timed_lines() {
    let diags = lint("[00:01.00]Hi\nstray text\n[00:02.00]Bye\n");
    assert!(
        diags
            .iter()
            .any(|d| d.line == 2 && d.message.contains("untimed"))
    );
}

#[test]
fn flags_bad_offset_value() {
    let diags = lint("[offset:not-a-number]\n");
    assert!(diags.iter().any(|d| d.message.contains("signed integer")));
}

#[test]
fn warns_when_no_timed_lines_at_all() {
    let diags = lint("[ar:Artist]\njust some text\n");
    assert!(
        diags
            .iter()
            .any(|d| d.line == 0 && d.message.contains("no timed lines"))
    );
}

#[test]
fn parse_synced_sorts_multi_stamp_lines_into_the_timeline() {
    let synced = parse_synced(
        "[ti:Some Title]\n[ar:Some Artist]\n\
         [00:05.00][01:00.00]Repeated\n[00:01.00]First\n",
    )
    .unwrap();
    assert_eq!(synced.title.as_deref(), Some("Some Title"));
    assert_eq!(synced.artist.as_deref(), Some("Some Artist"));
    let at: Vec<u64> = synced.lines.iter().map(|line| line.at_ms).collect();
    assert_eq!(at, vec![1_000, 5_000, 60_000]);
}

#[test]
fn parse_synced_applies_a_positive_offset_by_pushing_timestamps_later() {
    let synced = parse_synced("[offset:500]\n[00:01.00]Hi\n").unwrap();
    assert_eq!(synced.lines[0].at_ms, 500);
}

#[test]
fn parse_synced_applies_a_negative_offset_by_pulling_timestamps_earlier() {
    let synced = parse_synced("[offset:-500]\n[00:01.00]Hi\n").unwrap();
    assert_eq!(synced.lines[0].at_ms, 1_500);
}

#[test]
fn parse_synced_saturates_offset_at_zero_rather_than_underflowing() {
    let synced = parse_synced("[offset:5000]\n[00:01.00]Hi\n").unwrap();
    assert_eq!(synced.lines[0].at_ms, 0);
}

#[test]
fn parse_synced_keeps_break_entries_as_blank_lines() {
    let synced = parse_synced("[00:01.00]Hi\n[00:02.00]\n").unwrap();
    assert_eq!(synced.lines.len(), 2);
    assert_eq!(synced.lines[1].text, "");
}

#[test]
fn parse_synced_ignores_untimed_and_malformed_lines() {
    let synced = parse_synced("[00:01.00]Hi\nstray text\n[not a tag\n[00:02.00]Bye\n").unwrap();
    assert_eq!(synced.lines.len(), 2);
}

#[test]
fn parse_synced_errors_on_plain_only_lyrics() {
    assert!(parse_synced("just some plain text\nwith no timestamps\n").is_err());
}

#[test]
fn parse_synced_errors_on_empty_input() {
    assert!(parse_synced("").is_err());
}

#[test]
fn resolve_lrc_paths_walks_dirs_and_flags_non_lrc_files() {
    let walked = vec!["/tmp/x/a.lrc".to_owned(), "/tmp/x/notes.txt".to_owned()];
    let (files, skipped) = resolve_lrc_paths(vec![LintTarget::Dir(walked)]);
    assert_eq!(files.len(), 1);
    assert!(files[0].ends_with("a.lrc"));
    assert!(skipped.is_empty());

    let txt = "/tmp/x/notes.txt".to_owned();
    let (files, skipped) = resolve_lrc_paths(vec![LintTarget::Path(txt.clone())]);
    assert!(files.is_empty());
    assert_eq!(skipped, vec![txt]);
}

#[test]
fn lint_files_are_sorted_and_listed_once() {
    let (files, skipped) = resolve_lrc_paths(vec![
        LintTarget::Path("b.lrc".to_owned()),
        LintTarget::Dir(vec!["a.LRC".to_owned(), "b.lrc".to_owned(), "c.lrc".to_owned()]),
        LintTarget::Path("b.lrc".to_owned()),
    ]);
    assert_eq!(files, vec!["a.LRC".to_owned(), "b.lrc".to_owned(), "c.lrc".to_owned()]);
    assert!(skipped.is_empty());
    assert!(is_lrc_file("song.Lrc"));
    assert!(!is_lrc_file("song.lrc.bak"));
}

#[test]
fn parse_synced_reports_why_nothing_plays() {
    assert_eq!(parse_synced("[ar:x]\n").unwrap_err(), SyncError::NoTimedLines);
}

#[test]
fn a_report_line_names_the_file_and_the_line() {
    let d = Diagnostic { line: 3, severity: Severity::Warning, message: "oops".to_owned() };
    assert_eq!(report_line("a.lrc", &d), "a.lrc:3: warning: oops");
    let whole = Diagnostic { line: 0, severity: Severity::Error, message: "bad".to_owned() };
    assert_eq!(report_line("a.lrc", &whole), "a.lrc: error: bad");
}

#[test]
fn strict_linting_fails_on_warnings() {
    let mut tally = LintTally::default();
    tally.checked();
    tally.count(Severity::Warning);
    assert!(tally.passed(false));
    assert!(!tally.passed(true));
    tally.unreadable();
    assert!(!tally.passed(false));
    assert_eq!(tally.line(), "1 files checked, 1 errors, 1 warnings");
}

#[test]
fn a_line_is_classified_by_its_trimmed_text() {
    assert_eq!(parse_line("   hello there  "), parse_line("hello there"));
    assert_eq!(parse_line(" \t "), Line::Blank);
    assert!(matches!(parse_line("  # a note"), Line::Comment(_)));
}

#[test]
fn the_no_sync_warning_is_last_on_line_zero() {
    let diags = lint("[ar:Someone]\nplain words\n");
    assert_eq!(diags.last().unwrap().line, 0);
    assert_eq!(diags.iter().filter(|d| d.line == 0).count(), 1);
    assert!(diags.iter().all(|d| d.line <= 2));
    assert!(lint("[00:01.00]timed\n").iter().all(|d| d.line != 0));
}

#[test]
fn parse_synced_refuses_a_file_without_a_valued_stamp() {
    assert_eq!(parse_synced("[ti:Title]\nwords\n# note\n").unwrap_err(), SyncError::NoTimedLines);
    assert!(parse_synced("[ti:Title]\n[00:02.00]words\n").is_ok());
}
