use lyrics::tui::bigtext::{glyph, render, width, GLYPH_HEIGHT, GLYPH_WIDTH};

#[test]
fn every_countdown_glyph_is_defined() {
    for c in ['1', '2', '3', 'P', 'L', 'A', 'Y'] {
        assert!(glyph(c).is_some(), "{c} has no glyph");
    }
}

#[test]
fn every_glyph_is_the_same_height_and_width() {
    for c in ['1', '2', '3', 'P', 'L', 'A', 'Y'] {
        let rows = glyph(c).unwrap();
        assert_eq!(rows.len(), GLYPH_HEIGHT);
        for row in rows {
            assert_eq!(
                row.chars().count(),
                GLYPH_WIDTH,
                "{c} row {row:?} is not {GLYPH_WIDTH} wide"
            );
        }
    }
}

#[test]
fn render_play_has_four_glyphs_worth_of_width() {
    let rows = render("PLAY").unwrap();
    assert_eq!(rows.len(), GLYPH_HEIGHT);
    let expected = width(4);
    for row in &rows {
        assert_eq!(row.chars().count(), expected, "{row:?}");
    }
}

#[test]
fn render_is_case_insensitive() {
    assert_eq!(render("play"), render("PLAY"));
}

#[test]
fn render_drops_characters_with_no_glyph_rather_than_failing() {
    let rows = render("P!AY").unwrap();
    assert_eq!(
        rows[0].chars().count(),
        width(3),
        "the unglyphable character was not dropped"
    );
}

#[test]
fn render_of_an_empty_or_all_unglyphable_string_is_none() {
    assert!(render("").is_none());
    assert!(render("!!!").is_none());
}

#[test]
fn width_of_zero_glyphs_is_zero() {
    assert_eq!(width(0), 0);
}

#[test]
fn a_single_digit_renders_its_own_rows() {
    let rows = render("3").unwrap();
    assert_eq!(rows[0], "#### ");
    assert_eq!(rows[2], " ### ");
    assert_eq!(width(1), 5);
    assert_eq!(width(2), 11);
}

#[test]
fn glyphs_are_joined_by_one_space() {
    let rows = render("12").unwrap();
    assert_eq!(rows[0], " ##    ### ");
    assert_eq!(rows[4], " ###  #####");
}

#[test]
fn a_character_outside_the_countdown_has_no_glyph() {
    assert!(glyph('x').is_none());
    assert!(glyph('4').is_none());
}

#[test]
fn render_is_none_exactly_when_no_character_has_a_glyph() {
    assert!(render("xz?").is_none());
    assert!(render("xyz?").is_some());
    assert!(render("").is_none());
    let rows = render("x1").unwrap();
    assert_eq!(rows[0].chars().count(), 5);
    assert_eq!(render("play"), render("PLAY"));
}
