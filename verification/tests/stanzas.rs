use lyrics::ebook::lyrics::to_stanzas;

#[test]
fn strips_timestamps_from_synced_lyrics() {
    let lrc = "[00:12.00]First line\n[00:15.50]Second line\n";
    assert_eq!(
        to_stanzas(lrc),
        vec![vec!["First line".to_owned(), "Second line".to_owned()]]
    );
}

#[test]
fn drops_metadata_and_comment_lines() {
    let lrc = "[ar:Some Artist]\n[ti:Some Title]\n[by:someone]\n# a comment\n[00:01.00]Words\n";
    assert_eq!(to_stanzas(lrc), vec![vec!["Words".to_owned()]]);
}

#[test]
fn plain_text_sidecar_passes_through() {
    let txt = "First line\nSecond line\n\nThird line\n";
    assert_eq!(
        to_stanzas(txt),
        vec![
            vec!["First line".to_owned(), "Second line".to_owned()],
            vec!["Third line".to_owned()],
        ]
    );
}

#[test]
fn blank_line_starts_a_new_stanza() {
    let lrc = "[00:01.00]One\n\n[00:05.00]Two\n";
    assert_eq!(to_stanzas(lrc), vec![vec!["One".to_owned()], vec!["Two".to_owned()]]);
}

#[test]
fn break_entry_ends_a_stanza_like_a_blank_line() {
    let lrc = "[00:01.00]One\n[00:04.00]\n[00:05.00]Two\n";
    assert_eq!(to_stanzas(lrc), vec![vec!["One".to_owned()], vec!["Two".to_owned()]]);
}

#[test]
fn consecutive_breaks_collapse_into_one() {
    let lrc = "[00:01.00]One\n\n\n\n[00:05.00]Two\n";
    assert_eq!(to_stanzas(lrc), vec![vec!["One".to_owned()], vec!["Two".to_owned()]]);
}

#[test]
fn trailing_break_does_not_emit_an_empty_stanza() {
    let lrc = "[00:01.00]One\n[00:09.00]\n";
    assert_eq!(to_stanzas(lrc), vec![vec!["One".to_owned()]]);
}

#[test]
fn empty_input_yields_no_stanzas() {
    assert!(to_stanzas("").is_empty());
    assert!(to_stanzas("\n\n\n").is_empty());
}

#[test]
fn no_stanza_or_line_is_ever_empty_or_padded() {
    let text = "  [00:01.00]  One  \n\n\n[00:02.00]\n  Two\n[ar:x]\n";
    for stanza in to_stanzas(text) {
        assert!(!stanza.is_empty());
        for line in stanza {
            assert!(!line.is_empty());
            assert_eq!(line.trim(), line);
        }
    }
}

#[test]
fn stanzas_break_only_at_blank_and_wordless_lines() {
    let text = "a\n\n\nb\n[ar:x]\n# note\nc\n[00:01.00]\nd\n[00:02.00]  \n";
    assert_eq!(
        to_stanzas(text),
        vec![
            vec!["a".to_owned()],
            vec!["b".to_owned(), "c".to_owned()],
            vec!["d".to_owned()],
        ]
    );
    assert!(to_stanzas(text).iter().all(|s| !s.is_empty()));
}
