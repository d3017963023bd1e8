use lyrics::tui::app::Mode;
use lyrics::tui::help::{lines, outer, overlay, pad_keys, sections, HelpRow, KEYS_COLUMN, MAX_HEIGHT};
use lyrics::tui::input::{action, Key, KeyCode};

#[test]
fn the_overlay_never_outgrows_the_area_it_floats_over() {
    for width in 1..200u16 {
        for height in 1..40u16 {
            let (w, h) = outer(width, height);
            assert!(w <= width, "{width}x{height}");
            assert!(h <= height, "{width}x{height}");
        }
    }
}

#[test]
fn a_tall_enough_screen_shows_every_row_without_clipping() {
    let rows = u16::try_from(lines().len()).unwrap();
    assert!(
        rows.saturating_add(2) <= MAX_HEIGHT,
        "{rows} rows no longer fit MAX_HEIGHT"
    );
}

fn to_key(token: &str) -> Key {
    let plain = |code| Key {
        code,
        shift: false,
        control: false,
    };
    match token {
        "Space" => plain(KeyCode::Char(' ')),
        "Esc" => plain(KeyCode::Esc),
        "Enter" => plain(KeyCode::Enter),
        "Left" => plain(KeyCode::Left),
        "Right" => plain(KeyCode::Right),
        "Up" => plain(KeyCode::Up),
        "Down" => plain(KeyCode::Down),
        "Shift-Left" => Key {
            code: KeyCode::Left,
            shift: true,
            control: false,
        },
        "Shift-Right" => Key {
            code: KeyCode::Right,
            shift: true,
            control: false,
        },
        "Ctrl-c" => Key {
            code: KeyCode::Char('c'),
            shift: false,
            control: true,
        },
        other if other.chars().count() == 1 => plain(KeyCode::Char(other.chars().next().unwrap())),
        other => panic!("no key for token {other:?}"),
    }
}

#[test]
fn every_key_it_advertises_is_actually_bound() {
    for (_, keys) in sections() {
        for (keys, _) in keys {
            for token in keys.split(' ') {
                let key = to_key(token);
                assert!(
                    action(&key, Mode::Playing).is_some(),
                    "{token} in the help table does not resolve"
                );
            }
        }
    }
}

#[test]
fn sections_are_separated_by_a_blank_line() {
    assert!(lines().iter().any(|row| matches!(row, HelpRow::Blank)));
}

#[test]
fn the_overlay_is_centered_and_clamped_to_its_limits() {
    assert_eq!(outer(100, 30), (60, 21));
    assert_eq!(outer(200, 100), (64, 22));
    assert_eq!(outer(30, 5), (30, 5));
    assert_eq!(overlay(0, 0, 100, 30), Some((20, 4, 60, 21)));
    assert_eq!(overlay(0, 0, 0, 10), None);
}

#[test]
fn key_names_are_padded_to_the_keys_column() {
    let padded = pad_keys("Space");
    assert_eq!(padded.chars().count(), KEYS_COLUMN);
    assert!(padded.starts_with("Space "));
    let long = "a key name longer than the column";
    assert_eq!(pad_keys(long), long);
}

#[test]
fn the_table_starts_with_a_heading_and_has_two_gaps() {
    let rows = lines();
    assert!(matches!(&rows[0], HelpRow::Heading(h) if h == "Playback"));
    let blanks = rows.iter().filter(|row| matches!(row, HelpRow::Blank)).count();
    assert_eq!(blanks, 2);
    assert_eq!(rows.len(), 3 + 2 + 14);
}
