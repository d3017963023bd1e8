use lyrics::lrc::SyncedLine;
use lyrics::tui::app::{format_offset, App, Mode, Song, Wait, COUNTDOWN_STEP, IDLE_TICK};
use lyrics::tui::clock::SignedDuration;
use lyrics::tui::input::Action;

const MS: u128 = 1_000_000;
const SECOND: u128 = 1_000_000_000;

fn t(secs: u128) -> u128 {
    secs * SECOND
}

fn ms(n: u128) -> u128 {
    n * MS
}

fn line(at_ms: u64, text: &str) -> SyncedLine {
    SyncedLine {
        at_ms,
        text: text.to_owned(),
    }
}

fn song() -> Song {
    Song {
        title: String::from("Test"),
        artist: Some(String::from("Someone")),
        lines: vec![line(1_000, "first"), line(5_000, "second"), line(10_000, "third")],
    }
}

fn song_with_breaks() -> Song {
    Song {
        lines: vec![
            line(12_000, "first"),
            line(14_000, ""),
            line(16_000, "after a short break"),
            line(20_000, ""),
            line(30_000, ""),
            line(45_000, "after the solo"),
            line(50_000, ""),
        ],
        ..song()
    }
}

#[test]
fn current_index_is_none_before_the_first_line() {
    let app = App::new(song(), false);
    assert_eq!(app.current_index(ms(500)), None);
}

#[test]
fn current_index_lands_exactly_on_a_boundary() {
    let app = App::new(song(), false);
    assert_eq!(app.current_index(ms(1_000)), Some(0));
    assert_eq!(app.current_index(ms(4_999)), Some(0));
    assert_eq!(app.current_index(ms(5_000)), Some(1));
}

#[test]
fn current_index_is_the_last_line_past_the_end() {
    let app = App::new(song(), false);
    assert_eq!(app.current_index(t(999)), Some(2));
}

#[test]
fn without_counter_playback_starts_paused_at_zero() {
    let app = App::new(song(), false);
    assert_eq!(app.mode, Mode::Playing);
    assert!(!app.clock.is_playing());
}

#[test]
fn with_counter_playback_starts_in_countdown() {
    let app = App::new(song(), true);
    assert_eq!(app.mode, Mode::Countdown { step: 0 });
}

#[test]
fn the_countdown_runs_three_two_one_play_then_starts_the_clock() {
    let mut app = App::new(song(), true);
    for _ in 0..3 {
        app.advance_countdown(t(0));
        assert!(matches!(app.mode, Mode::Countdown { .. }));
        assert!(!app.clock.is_playing());
    }
    app.advance_countdown(t(0));
    assert_eq!(app.mode, Mode::Playing);
    assert!(app.clock.is_playing(), "the clock did not start when PLAY appeared");
}

#[test]
fn space_during_the_countdown_cancels_it_and_leaves_the_clock_paused_at_zero() {
    let mut app = App::new(song(), true);
    app.advance_countdown(t(0));
    app.apply(Action::TogglePlay, t(0));
    assert_eq!(app.mode, Mode::Playing);
    assert!(!app.clock.is_playing());
    assert_eq!(app.clock.now(t(0)), 0);
}

#[test]
fn seek_actions_set_a_notice() {
    let mut app = App::new(song(), false);
    app.apply(Action::SeekForward(true), t(0));
    assert_eq!(app.notice(t(0)), Some("+5s"));
    app.apply(Action::SeekBackward(false), t(0));
    assert_eq!(app.notice(t(0)), Some("-10s"));
}

#[test]
fn notice_expires_after_its_ttl() {
    let mut app = App::new(song(), false);
    app.apply(Action::SeekForward(true), t(0));
    assert!(app.notice(t(0)).is_some());
    assert_eq!(app.notice(t(10)), None);
}

#[test]
fn previous_and_next_line_jump_to_line_boundaries() {
    let mut app = App::new(song(), false);
    app.clock.set(t(0), ms(6_000));
    app.apply(Action::PreviousLine, t(0));
    assert_eq!(app.clock.now(t(0)), ms(1_000));
    app.apply(Action::NextLine, t(0));
    assert_eq!(app.clock.now(t(0)), ms(5_000));
    app.apply(Action::NextLine, t(0));
    assert_eq!(app.clock.now(t(0)), ms(10_000));
}

#[test]
fn previous_line_steps_up_one_line_per_press() {
    let mut app = App::new(song(), false);
    app.clock.set(t(0), ms(10_000));
    app.apply(Action::PreviousLine, t(0));
    assert_eq!(app.clock.now(t(0)), ms(5_000));
    app.apply(Action::PreviousLine, t(0));
    assert_eq!(app.clock.now(t(0)), ms(1_000));
    app.apply(Action::PreviousLine, t(0));
    assert_eq!(app.clock.now(t(0)), 0);
    app.apply(Action::PreviousLine, t(0));
    assert_eq!(app.clock.now(t(0)), 0);
}

#[test]
fn enter_while_paused_starts_the_current_line_now() {
    let mut app = App::new(song(), false);
    app.clock.set(t(0), ms(6_200));
    app.apply(Action::TapSync, t(0));
    assert!(app.clock.is_playing());
    assert_eq!(app.clock.now(t(0)), ms(5_000));
    assert_eq!(app.clock.now(t(2)), ms(7_000));
}

#[test]
fn enter_while_paused_before_the_first_line_just_plays() {
    let mut app = App::new(song(), false);
    app.apply(Action::TapSync, t(0));
    assert!(app.clock.is_playing());
    assert_eq!(app.clock.now(t(0)), 0);
}

#[test]
fn enter_during_the_countdown_does_nothing() {
    let mut app = App::new(song(), true);
    app.apply(Action::TapSync, t(0));
    assert_eq!(app.mode, Mode::Countdown { step: 0 });
    assert!(!app.clock.is_playing());
}

#[test]
fn nudge_actions_move_the_clock_and_set_a_notice() {
    let mut app = App::new(song(), false);
    app.clock.set(t(0), t(2));
    app.apply(Action::NudgeEarlier(true), t(0));
    assert_eq!(app.clock.now(t(0)), ms(1_900));
    assert_eq!(app.notice(t(0)), Some("-0.1s"));
    app.apply(Action::NudgeLater(false), t(0));
    assert_eq!(app.clock.now(t(0)), ms(2_400));
    assert_eq!(app.notice(t(0)), Some("+0.5s"));
}

#[test]
fn nudging_backward_saturates_at_zero() {
    let mut app = App::new(song(), false);
    app.apply(Action::NudgeEarlier(false), t(0));
    assert_eq!(app.clock.now(t(0)), 0);
}

#[test]
fn tap_sync_snaps_to_the_nearest_line_start_in_either_direction() {
    let mut app = App::new(song(), false);
    app.clock.play(t(0));
    app.clock.set(t(0), ms(4_600));
    app.apply(Action::TapSync, t(0));
    assert_eq!(app.clock.now(t(0)), ms(5_000));
    assert_eq!(app.notice(t(0)), Some("synced +0.4s"));

    app.clock.set(t(0), ms(6_200));
    app.apply(Action::TapSync, t(0));
    assert_eq!(app.clock.now(t(0)), ms(5_000));
    assert_eq!(app.notice(t(0)), Some("synced -1.2s"));
}

#[test]
fn tap_sync_while_playing_the_intro_snaps_to_the_first_line() {
    let mut app = App::new(song(), false);
    app.clock.play(t(0));
    app.apply(Action::TapSync, t(0));
    assert_eq!(app.clock.now(t(0)), ms(1_000));
}

#[test]
fn tap_sync_keeps_a_playing_clock_playing() {
    let mut app = App::new(song(), false);
    app.clock.play(t(0));
    app.apply(Action::TapSync, t(4));
    assert!(app.clock.is_playing());
    assert_eq!(app.clock.now(t(6)), t(7));
}

#[test]
fn tap_sync_on_an_empty_song_does_nothing() {
    let mut app = App::new(
        Song {
            lines: Vec::new(),
            ..song()
        },
        false,
    );
    app.clock.play(t(0));
    app.clock.set(t(0), t(3));
    app.apply(Action::TapSync, t(0));
    assert_eq!(app.clock.now(t(0)), t(3));
    assert_eq!(app.notice(t(0)), None);
}

#[test]
fn format_offset_rounds_to_tenths() {
    assert_eq!(format_offset(SignedDuration::Forward(ms(1_250))), "+1.3s");
    assert_eq!(format_offset(SignedDuration::Backward(ms(40))), "0.0s");
}

#[test]
fn break_remaining_counts_down_the_intro() {
    let app = App::new(song_with_breaks(), false);
    assert_eq!(app.break_remaining(0), Some(t(12)));
    assert_eq!(app.break_remaining(ms(11_500)), Some(ms(500)));
}

#[test]
fn break_remaining_is_none_during_a_lyric() {
    let app = App::new(song_with_breaks(), false);
    assert_eq!(app.break_remaining(t(13)), None);
}

#[test]
fn break_remaining_skips_breaks_too_short_to_matter() {
    let app = App::new(song_with_breaks(), false);
    assert_eq!(app.break_remaining(t(15)), None);
}

#[test]
fn break_remaining_reads_consecutive_blank_markers_as_one_break() {
    let app = App::new(song_with_breaks(), false);
    assert_eq!(app.break_remaining(t(22)), Some(t(23)));
    assert_eq!(app.break_remaining(t(40)), Some(t(5)));
}

#[test]
fn break_remaining_is_none_after_the_last_lyric() {
    let app = App::new(song_with_breaks(), false);
    assert_eq!(app.break_remaining(t(55)), None);
}

#[test]
fn restart_returns_to_zero_paused() {
    let mut app = App::new(song(), false);
    app.clock.play(t(0));
    app.apply(Action::Restart, t(5));
    assert!(!app.clock.is_playing());
    assert_eq!(app.clock.now(t(5)), 0);
}

#[test]
fn help_toggles_on_and_off() {
    let mut app = App::new(song(), false);
    app.apply(Action::ToggleHelp, t(0));
    assert_eq!(app.mode, Mode::Help);
    app.apply(Action::ToggleHelp, t(0));
    assert_eq!(app.mode, Mode::Playing);
}

#[test]
fn quit_sets_the_flag() {
    let mut app = App::new(song(), false);
    app.apply(Action::Quit, t(0));
    assert!(app.quit);
}

#[test]
fn a_countdown_waits_one_step_and_an_idle_paused_view_waits_for_a_key() {
    let counting = App::new(song(), true);
    assert_eq!(counting.wait(t(0)), Wait::Step(COUNTDOWN_STEP));
    let idle = App::new(song(), false);
    assert_eq!(idle.wait(t(0)), Wait::Forever);
    let mut playing = App::new(song(), false);
    playing.clock.play(t(0));
    assert_eq!(playing.wait(t(0)), Wait::Tick(IDLE_TICK));
}

#[test]
fn replay_countdown_starts_the_count_again_from_zero() {
    let mut app = App::new(song(), false);
    app.clock.play(t(0));
    app.apply(Action::ReplayCountdown, t(3));
    assert_eq!(app.mode, Mode::Countdown { step: 0 });
    assert!(!app.clock.is_playing());
    assert_eq!(app.clock.now(t(3)), 0);
}
