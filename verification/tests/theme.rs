use lyrics::theme::elements::{default_style, Element, Slot};
use lyrics::theme::Theme;

/// A style as the table sees it: any copyable value, here a foreground slot and boldness.
type Look = (Option<Slot>, bool);

fn default_theme() -> Theme<Look> {
    let mut styles = [(None, false); 13];
    for (slot, element) in styles.iter_mut().zip(Element::ALL) {
        let spec = default_style(element);
        *slot = (spec.fg, spec.bold);
    }
    Theme::new(styles, String::from("ansi"))
}

#[test]
fn styles_are_looked_up_by_element() {
    let theme = default_theme();
    assert!(theme.style(Element::Label).1, "labels are bold");
    assert_eq!(theme.style(Element::HelpWindow).0, Some(Slot::Foreground));
    assert_eq!(theme.name, "ansi");
}

#[test]
fn a_style_can_be_replaced_without_disturbing_its_neighbours() {
    let mut theme = default_theme();
    let before = theme.style(Element::FarLine);
    theme.set_style(Element::Body, (Some(Slot::Error), true));
    assert_eq!(theme.style(Element::Body), (Some(Slot::Error), true));
    assert_eq!(theme.style(Element::FarLine), before, "replacing one style moved another");
}

#[test]
fn every_element_reads_back_the_style_it_was_given() {
    let mut styles = [0u32; 13];
    for (i, s) in styles.iter_mut().enumerate() {
        *s = i as u32 * 10;
    }
    let theme = Theme::new(styles, String::from("numbers"));
    for element in Element::ALL {
        assert_eq!(theme.style(element), element.index() as u32 * 10);
    }
}

/// A palette as the table sees it: one color per slot.
fn color_of(slot: Slot, accent: (u8, u8, u8)) -> (u8, u8, u8) {
    match slot {
        Slot::Accent => accent,
        Slot::Foreground => (255, 255, 255),
        Slot::Background => (0, 0, 0),
        Slot::Muted => (90, 90, 90),
        Slot::MutedText => (150, 150, 150),
        Slot::Warning => (255, 200, 0),
        Slot::Error => (255, 0, 0),
    }
}

fn themed(accent: (u8, u8, u8)) -> Theme<Option<(u8, u8, u8)>> {
    let mut styles = [None; 13];
    for (slot, element) in styles.iter_mut().zip(Element::ALL) {
        *slot = default_style(element).fg.map(|s| color_of(s, accent));
    }
    Theme::new(styles, String::from("custom"))
}

#[test]
fn a_repalette_moves_every_element_derived_from_that_slot() {
    let theme = themed((1, 2, 3));
    assert_eq!(theme.style(Element::CurrentLine), Some((1, 2, 3)));
    assert_eq!(theme.style(Element::ScrollProgress), Some((1, 2, 3)));
    assert_eq!(theme.style(Element::Body), Some((255, 255, 255)));
}
