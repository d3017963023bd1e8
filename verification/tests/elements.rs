use lyrics::theme::elements::{default_style, modifier, DefaultStyle, Element, ElementFile, ModifierKind, Slot};

#[test]
fn every_element_has_a_key_that_finds_it_again() {
    for element in Element::ALL {
        assert_eq!(
            Element::from_key(element.key()),
            Some(element),
            "{element:?} is not addressable by its key"
        );
    }
}

#[test]
fn keys_are_the_snake_case_names_the_readme_will_document() {
    assert_eq!(Element::CurrentLine.key(), "current_line");
    assert_eq!(Element::from_key("current_line"), Some(Element::CurrentLine));
    assert_eq!(Element::from_key("headings"), None);
}

#[test]
fn every_element_is_listed_once_in_discriminant_order() {
    for (index, element) in Element::ALL.iter().enumerate() {
        assert_eq!(element.index(), index, "{element:?} is out of order in Element::ALL");
    }
}

#[test]
fn keys_are_lower_case_and_distinct() {
    for (i, a) in Element::ALL.iter().enumerate() {
        assert!(a.key().chars().all(|c| c.is_ascii_lowercase() || c == '_'), "{}", a.key());
        for b in Element::ALL.iter().skip(i + 1) {
            assert_ne!(a.key(), b.key());
        }
    }
    assert_eq!(Element::from_key("Current_Line"), None);
}

#[test]
fn the_documented_modifiers_are_the_ones_accepted() {
    assert_eq!(modifier("bold"), Some(ModifierKind::Bold));
    assert_eq!(modifier("underline"), Some(ModifierKind::Underlined));
    assert_eq!(modifier("crossed_out"), Some(ModifierKind::CrossedOut));
    assert_eq!(modifier("blinky"), None);
    assert_eq!(modifier("BOLD"), None);
}

#[test]
fn the_current_line_is_accented_and_bold_so_it_pulls_the_eye() {
    let style = default_style(Element::CurrentLine);
    assert_eq!(style.fg, Some(Slot::Accent));
    assert!(style.bold);
}

#[test]
fn far_lines_and_near_lines_are_two_different_shades() {
    assert_ne!(default_style(Element::NearLine).fg, default_style(Element::FarLine).fg);
}

#[test]
fn the_help_window_takes_the_palette_background() {
    assert_eq!(
        default_style(Element::HelpWindow),
        DefaultStyle {
            fg: Some(Slot::Foreground),
            bg: Some(Slot::Background),
            bold: false
        }
    );
    assert!(default_style(Element::Label).bold);
    assert_eq!(default_style(Element::Label).fg, None);
}

/// An element entry as a theme file gives it: colors by name, unknown values as text.
fn entry(
    fg: Option<&str>,
    bg: Option<&str>,
    modifiers: Option<Vec<&str>>,
    unknown: Vec<(&str, &str)>,
) -> ElementFile<String, String> {
    ElementFile {
        fg: fg.map(str::to_owned),
        bg: bg.map(str::to_owned),
        modifiers: modifiers.map(|m| m.into_iter().map(str::to_owned).collect()),
        unknown: unknown.into_iter().map(|(k, v)| (k.to_owned(), v.to_owned())).collect(),
    }
}

#[test]
fn each_element_field_merges_independently_of_the_others() {
    let base = entry(Some("red"), None, Some(vec!["bold"]), vec![]);
    let child = entry(None, Some("blue"), None, vec![]);

    let merged = child.merge(base);
    assert_eq!(merged.fg, Some(String::from("red")), "the base's foreground was dropped");
    assert_eq!(merged.bg, Some(String::from("blue")));
    assert_eq!(
        merged.modifiers.as_deref(),
        Some(["bold".to_string()].as_slice()),
        "the base's modifiers were dropped"
    );

    let base = entry(Some("red"), None, None, vec![]);
    let child = entry(Some("green"), None, Some(vec![]), vec![]);
    let merged = child.merge(base);
    assert_eq!(merged.fg, Some(String::from("green")), "the child does not win its own field");
    assert_eq!(
        merged.modifiers,
        Some(Vec::new()),
        "an empty list did not survive as a way to clear them"
    );
}

#[test]
fn unknown_keys_merge_with_the_entry_winning() {
    let base = entry(None, None, None, vec![("a", "1"), ("c", "3")]);
    let child = entry(None, None, None, vec![("c", "30"), ("b", "2")]);
    let merged = child.merge(base);
    let keys: Vec<(&str, &str)> = merged.unknown.iter().map(|(k, v)| (k.as_str(), v.as_str())).collect();
    assert_eq!(keys, vec![("a", "1"), ("b", "2"), ("c", "30")]);
}
