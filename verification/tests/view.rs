use lyrics::lrc::SyncedLine;
use lyrics::tui::app::{App, Mode, Song};
use lyrics::tui::help::overlay;
use lyrics::tui::view::{
    content, display_text, elide, format_clock, format_remaining, header, padded, progress, statusbar,
    truncate, wrap, Content, Distance, Emphasis, BREAK_GLYPH, ELIDED, SYNC_HINTS,
};

const MS: u128 = 1_000_000;
const SECOND: u128 = 1_000_000_000;

fn song() -> Song {
    let line = |at_ms: u64, text: &str| SyncedLine {
        at_ms,
        text: text.to_owned(),
    };
    Song {
        title: String::from("One"),
        artist: Some(String::from("Metallica")),
        lines: vec![
            line(0, "Line zero"),
            line(1_000, "Line one"),
            line(2_000, "Line two, the current one"),
            line(3_000, "Line three"),
            line(4_000, "Line four"),
            line(5_000, "Line five"),
        ],
    }
}

fn shifted_song() -> Song {
    let mut song = song();
    for line in &mut song.lines {
        line.at_ms = line.at_ms.saturating_add(12_000);
    }
    song
}

/// The content area of a 40 by 11 screen: header and rule above, rule and status below.
const TOP: u16 = 2;
const HEIGHT: u16 = 7;
const CENTER: u16 = 5;

/// The rows of the content area as `(y, text, distance)`.
fn rows_at(app: &App, width: u16, height: u16, t: u128) -> Vec<(u16, String, Distance)> {
    let current = app.current_index(t);
    let left = app.break_remaining(t);
    match content(TOP, width, height, app.mode, &app.song.lines, current, left) {
        Content::Lines { top, rows } => rows
            .into_iter()
            .enumerate()
            .map(|(k, (text, distance))| (top + k as u16, text, distance))
            .collect(),
        _ => panic!("no lyric rows"),
    }
}

#[test]
fn the_current_line_lands_on_the_content_areas_center_row() {
    let app = App::new(song(), false);
    let rows = rows_at(&app, 40, HEIGHT, 2_000 * MS);
    let found: Vec<u16> = rows
        .iter()
        .filter(|(_, text, _)| text.contains("Line two"))
        .map(|(y, _, _)| *y)
        .collect();
    assert_eq!(found, vec![CENTER], "the current line was not on the center row");
}

#[test]
fn the_current_line_is_horizontally_centered() {
    let app = App::new(song(), false);
    let rows = rows_at(&app, 40, HEIGHT, 2_000 * MS);
    let (_, text, distance) = rows.iter().find(|(y, _, _)| *y == CENTER).unwrap();
    assert_eq!(text, "Line two, the current one", "the line was wrapped or cut");
    assert_eq!(*distance, Distance::Current);
    let (x, width) = padded(0, 40);
    assert_eq!((x, width), (1, 38));
}

#[test]
fn a_narrow_screen_wraps_the_current_line_and_still_centers_its_middle_row() {
    let app = App::new(song(), false);
    let rows = rows_at(&app, 15, 11, 2_000 * MS);
    let hits: Vec<&(u16, String, Distance)> = rows
        .iter()
        .filter(|(_, text, _)| text.contains("current") || text.contains("Line two"))
        .collect();
    assert!(!hits.is_empty(), "the wrapped current line did not render at all");
    assert!(hits.len() > 1, "the current line was not wrapped");
    assert!(hits.iter().all(|(_, _, d)| *d == Distance::Current));
}

#[test]
fn the_countdown_renders_something_in_the_content_area() {
    let app = App::new(song(), true);
    let lines = app.song.lines;
    match content(TOP, 40, HEIGHT, Mode::Countdown { step: 3 }, &lines, None, None) {
        Content::Countdown(rows) => {
            assert!(rows.iter().any(|(_, text)| text.contains('#')), "the countdown drew nothing");
            assert!(rows.iter().all(|(y, _)| (TOP..TOP + HEIGHT).contains(y)));
        }
        _ => panic!("no countdown"),
    }
}

#[test]
fn the_header_elides_from_the_front_when_it_does_not_fit() {
    let title = "A".repeat(200);
    let pieces = header(0, 30, Some("Metallica"), &title);
    assert!(pieces.iter().any(|p| p.text.contains(ELIDED)), "nothing was elided");
}

#[test]
fn wrap_never_splits_a_word_that_fits() {
    let rows = wrap("hello world", 20);
    assert_eq!(rows, vec!["hello world"]);
    let rows = wrap("hello world", 8);
    assert_eq!(rows, vec!["hello", "world"]);
}

#[test]
fn wrap_of_zero_width_returns_the_text_unwrapped_rather_than_looping() {
    assert_eq!(wrap("hi", 0), vec!["hi"]);
}

#[test]
fn the_status_bar_shows_the_sync_keys_when_there_is_room() {
    let pieces = statusbar(0, 80, None, Mode::Playing, false, 0, Some(0), 6);
    assert!(pieces[0].text.contains("line 1/"), "{:?}", pieces[0].text);
    assert_eq!(pieces.last().unwrap().text, SYNC_HINTS);
    assert_eq!(pieces.last().unwrap().emphasis, Emphasis::Hint);
}

#[test]
fn the_status_bar_drops_the_sync_keys_whole_on_a_narrow_screen() {
    let pieces = statusbar(0, 40, None, Mode::Playing, false, 0, Some(0), 6);
    assert!(pieces[0].text.contains("line 1/"), "{:?}", pieces[0].text);
    assert!(pieces.iter().all(|p| !p.text.contains('±')));
}

#[test]
fn an_intro_shows_the_countdown_beside_the_break_glyph() {
    let app = App::new(shifted_song(), false);
    let rows = rows_at(&app, 40, HEIGHT, 1_500 * MS);
    let center = rows.iter().find(|(y, _, _)| *y == CENTER).unwrap();
    assert!(center.1.contains(&format!("{BREAK_GLYPH} 0:11")), "{:?}", center.1);
    let below = rows.iter().find(|(y, _, _)| *y == CENTER + 1).unwrap();
    assert!(below.1.contains("Line zero"));
}

#[test]
fn before_the_first_line_nothing_is_drawn_above_the_break_glyph() {
    let app = App::new(shifted_song(), false);
    let rows = rows_at(&app, 40, HEIGHT, 0);
    assert_eq!(rows.iter().filter(|(_, text, _)| text.contains("Line zero")).count(), 1);
    assert!(rows.iter().all(|(y, _, _)| *y >= CENTER), "{rows:?}");
}

#[test]
fn a_lyric_line_shows_no_countdown() {
    let app = App::new(song(), false);
    let rows = rows_at(&app, 40, HEIGHT, 2_000 * MS);
    assert!(rows.iter().all(|(_, text, _)| !text.contains(BREAK_GLYPH)));
}

#[test]
fn format_remaining_rounds_up_to_the_second() {
    assert_eq!(format_remaining(10_500 * MS), "0:11");
    assert_eq!(format_remaining(MS), "0:01");
    assert_eq!(format_remaining(75 * SECOND), "1:15");
}

#[test]
fn format_clock_pads_minutes_and_seconds() {
    assert_eq!(format_clock(65 * SECOND), "01:05");
    assert_eq!(format_clock(0), "00:00");
}

#[test]
fn help_overlay_does_not_panic_on_a_tiny_screen() {
    assert_eq!(overlay(0, 0, 3, 3), Some((0, 0, 3, 3)));
    assert_eq!(overlay(0, 0, 0, 0), None);
}

#[test]
fn a_blank_timed_line_shows_the_break_glyph() {
    let mut song = song();
    song.lines[1].text = String::from("   ");
    assert_eq!(display_text(&song.lines, 1), BREAK_GLYPH);
    assert_eq!(display_text(&song.lines, 0), "Line zero");
    assert_eq!(display_text(&song.lines, 99), "");
}

#[test]
fn truncate_cuts_to_the_width_in_cells() {
    assert_eq!(truncate("hello", 3), "he…");
    assert_eq!(truncate("hello", 10), "hello");
}

#[test]
fn elide_drops_segments_from_the_front() {
    let segments = vec![String::from("lyrics"), String::from("Artist"), String::from("Title")];
    assert_eq!(elide(&segments, 100), segments);
    let shown = elide(&segments, 10);
    assert_eq!(shown, vec![String::from(ELIDED), String::from("Title")]);
}

#[test]
fn the_progress_bar_fills_with_the_song() {
    let lines = song().lines;
    assert_eq!(progress(10, &lines, 0), 0);
    assert_eq!(progress(10, &lines, 5 * SECOND), 5);
    assert_eq!(progress(10, &lines, 10 * SECOND), 10);
    assert_eq!(progress(10, &lines, 60 * SECOND), 10);
    assert_eq!(progress(10, &Vec::new(), 60 * SECOND), 0);
}
