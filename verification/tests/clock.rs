use lyrics::tui::clock::{Clock, SignedDuration};

const SECOND: u128 = 1_000_000_000;

fn t(secs: u128) -> u128 {
    secs * SECOND
}

fn secs(n: u128) -> u128 {
    n * SECOND
}

#[test]
fn a_new_clock_is_paused_at_zero() {
    let clock = Clock::new();
    assert!(!clock.is_playing());
    assert_eq!(clock.now(t(0)), 0);
}

#[test]
fn playing_advances_with_the_instant_passed_to_now() {
    let mut clock = Clock::new();
    clock.play(t(0));
    assert_eq!(clock.now(t(5)), secs(5));
    assert_eq!(clock.now(t(10)), secs(10));
}

#[test]
fn pausing_freezes_the_position_it_was_paused_at() {
    let mut clock = Clock::new();
    clock.play(t(0));
    clock.pause(t(5));
    assert_eq!(clock.now(t(5)), secs(5));
    assert_eq!(clock.now(t(20)), secs(5), "a paused clock kept advancing");
}

#[test]
fn playing_again_resumes_from_where_it_was_paused() {
    let mut clock = Clock::new();
    clock.play(t(0));
    clock.pause(t(5));
    clock.play(t(5));
    assert_eq!(clock.now(t(8)), secs(8));
}

#[test]
fn toggle_flips_between_playing_and_paused() {
    let mut clock = Clock::new();
    assert!(!clock.is_playing());
    clock.toggle(t(0));
    assert!(clock.is_playing());
    clock.toggle(t(3));
    assert!(!clock.is_playing());
    assert_eq!(clock.now(t(100)), secs(3));
}

#[test]
fn seek_forward_and_backward_move_a_paused_clock() {
    let mut clock = Clock::new();
    clock.set(t(0), secs(10));
    clock.seek(t(0), SignedDuration::Forward(secs(5)));
    assert_eq!(clock.now(t(0)), secs(15));
    clock.seek(t(0), SignedDuration::Backward(secs(3)));
    assert_eq!(clock.now(t(0)), secs(12));
}

#[test]
fn seeking_backward_saturates_at_zero_rather_than_going_negative() {
    let mut clock = Clock::new();
    clock.set(t(0), secs(3));
    clock.seek(t(0), SignedDuration::Backward(secs(10)));
    assert_eq!(clock.now(t(0)), 0);
}

#[test]
fn seeking_a_playing_clock_keeps_it_playing_from_the_new_position() {
    let mut clock = Clock::new();
    clock.play(t(0));
    clock.seek(t(2), SignedDuration::Forward(secs(5)));
    assert_eq!(clock.now(t(2)), secs(7));
    assert_eq!(clock.now(t(4)), secs(9));
}

#[test]
fn restart_returns_to_zero_and_pauses() {
    let mut clock = Clock::new();
    clock.play(t(0));
    clock.seek(t(1), SignedDuration::Forward(secs(30)));
    clock.restart();
    assert!(!clock.is_playing());
    assert_eq!(clock.now(t(100)), 0);
}

#[test]
fn seeking_forward_saturates_at_the_largest_duration() {
    let mut clock = Clock::new();
    clock.set(t(0), lyrics::tui::clock::DURATION_MAX - 1);
    clock.seek(t(0), SignedDuration::Forward(secs(10)));
    assert_eq!(clock.now(t(0)), lyrics::tui::clock::DURATION_MAX);
}

#[test]
fn an_instant_before_the_start_reads_as_no_time_elapsed() {
    let mut clock = Clock::new();
    clock.set(t(0), secs(4));
    clock.play(t(10));
    assert_eq!(clock.now(t(3)), secs(4));
}

#[test]
fn setting_past_the_largest_duration_stops_there() {
    let mut clock = Clock::new();
    clock.set(t(0), u128::MAX);
    assert_eq!(clock.now(t(0)), 18_446_744_073_709_551_615_999_999_999);
}
