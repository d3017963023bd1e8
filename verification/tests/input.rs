use lyrics::tui::app::Mode;
use lyrics::tui::input::{action, Action, Key, KeyCode};

fn key(code: KeyCode) -> Key {
    Key::plain(code)
}

fn shift(code: KeyCode) -> Key {
    Key {
        code,
        shift: true,
        control: false,
    }
}

fn ctrl(code: KeyCode) -> Key {
    Key {
        code,
        shift: false,
        control: true,
    }
}

#[test]
fn space_toggles_play() {
    assert_eq!(
        action(&key(KeyCode::Char(' ')), Mode::Playing),
        Some(Action::TogglePlay)
    );
}

#[test]
fn plain_and_shifted_seeks_pick_the_right_amount() {
    assert_eq!(
        action(&key(KeyCode::Left), Mode::Playing),
        Some(Action::SeekBackward(true))
    );
    assert_eq!(
        action(&shift(KeyCode::Left), Mode::Playing),
        Some(Action::SeekBackward(false))
    );
    assert_eq!(
        action(&key(KeyCode::Char('l')), Mode::Playing),
        Some(Action::SeekForward(true))
    );
    assert_eq!(
        action(&key(KeyCode::Char('H')), Mode::Playing),
        Some(Action::SeekBackward(false))
    );
    assert_eq!(
        action(&key(KeyCode::Char('L')), Mode::Playing),
        Some(Action::SeekForward(false))
    );
}

#[test]
fn line_jump_keys_resolve() {
    assert_eq!(action(&key(KeyCode::Up), Mode::Playing), Some(Action::PreviousLine));
    assert_eq!(
        action(&key(KeyCode::Char('k')), Mode::Playing),
        Some(Action::PreviousLine)
    );
    assert_eq!(action(&key(KeyCode::Down), Mode::Playing), Some(Action::NextLine));
    assert_eq!(
        action(&key(KeyCode::Char('j')), Mode::Playing),
        Some(Action::NextLine)
    );
}

#[test]
fn nudge_keys_resolve() {
    assert_eq!(
        action(&key(KeyCode::Char(',')), Mode::Playing),
        Some(Action::NudgeEarlier(true))
    );
    assert_eq!(
        action(&key(KeyCode::Char('.')), Mode::Playing),
        Some(Action::NudgeLater(true))
    );
    for event in [key(KeyCode::Char('<')), shift(KeyCode::Char('<'))] {
        assert_eq!(action(&event, Mode::Playing), Some(Action::NudgeEarlier(false)));
    }
    for event in [key(KeyCode::Char('>')), shift(KeyCode::Char('>'))] {
        assert_eq!(action(&event, Mode::Playing), Some(Action::NudgeLater(false)));
    }
}

#[test]
fn enter_taps_sync() {
    assert_eq!(action(&key(KeyCode::Enter), Mode::Playing), Some(Action::TapSync));
}

#[test]
fn restart_and_countdown_keys_resolve() {
    assert_eq!(action(&key(KeyCode::Char('0')), Mode::Playing), Some(Action::Restart));
    assert_eq!(action(&key(KeyCode::Char('r')), Mode::Playing), Some(Action::Restart));
    assert_eq!(
        action(&key(KeyCode::Char('c')), Mode::Playing),
        Some(Action::ReplayCountdown)
    );
}

#[test]
fn quit_keys_resolve_outside_help() {
    assert_eq!(action(&key(KeyCode::Char('q')), Mode::Playing), Some(Action::Quit));
    assert_eq!(action(&key(KeyCode::Esc), Mode::Playing), Some(Action::Quit));
    assert_eq!(action(&ctrl(KeyCode::Char('c')), Mode::Playing), Some(Action::Quit));
}

#[test]
fn help_opens_and_a_countdown_still_accepts_every_key() {
    assert_eq!(
        action(&key(KeyCode::Char('?')), Mode::Playing),
        Some(Action::ToggleHelp)
    );
    assert_eq!(
        action(&key(KeyCode::Char(' ')), Mode::Countdown { step: 1 }),
        Some(Action::TogglePlay)
    );
}

#[test]
fn help_mode_only_answers_to_the_keys_that_close_it() {
    assert_eq!(action(&key(KeyCode::Char('?')), Mode::Help), Some(Action::ToggleHelp));
    assert_eq!(action(&key(KeyCode::Char('q')), Mode::Help), Some(Action::ToggleHelp));
    assert_eq!(action(&key(KeyCode::Esc), Mode::Help), Some(Action::ToggleHelp));
    assert_eq!(action(&key(KeyCode::Char(' ')), Mode::Help), None);
    assert_eq!(action(&key(KeyCode::Left), Mode::Help), None);
}

#[test]
fn an_unbound_key_resolves_to_nothing() {
    assert_eq!(action(&key(KeyCode::Char('z')), Mode::Playing), None);
}

#[test]
fn a_key_the_bindings_do_not_name_resolves_to_nothing_in_any_mode() {
    assert_eq!(action(&key(KeyCode::Other), Mode::Playing), None);
    assert_eq!(action(&key(KeyCode::Other), Mode::Help), None);
}
