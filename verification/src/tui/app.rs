//! Application state: the song, the clock, the mode, and the transient notice.
//!
//! Instants and durations are nanosecond counts, as in [`crate::tui::clock`]; line times are
//! milliseconds, as the timeline stores them.
use vstd::prelude::*;

use crate::lrc::{line_views, SyncedLine, SyncedLineView};
use crate::text::{decimal, is_blank, push_char, push_decimal_u128, push_str, trim};
use crate::tui::clock::{
    spec_now, spec_pause, spec_play, spec_seek_target, spec_set, Clock, ClockView, SignedDuration,
};
use crate::tui::input::Action;

verus! {

pub const MILLISECOND: u128 = 1_000_000;

pub const SECOND: u128 = 1_000_000_000;

/// How long each step of the countdown shows.
pub const COUNTDOWN_STEP: u128 = 1_000_000_000;

pub const SHORT_SEEK: u128 = 5_000_000_000;

pub const LONG_SEEK: u128 = 10_000_000_000;

pub const SHORT_NUDGE: u128 = 100_000_000;

pub const LONG_NUDGE: u128 = 500_000_000;

/// A gap between lyrics shorter than this, in milliseconds, is no break worth counting down.
pub const MIN_BREAK_MS: u64 = 5_000;

/// How long a notice stays up.
pub const NOTICE_TTL: u128 = 2_000_000_000;

/// How long the event loop waits for input when nothing else is due.
pub const IDLE_TICK: u128 = 200_000_000;

/// How the event loop waits for the next key: for the next countdown step, for the next
/// repaint while the clock runs or a notice shows, or until a key comes.
#[derive(Debug, Clone, Copy, PartialEq, Eq, Structural)]
pub enum Wait {
    Step(u128),
    Tick(u128),
    Forever,
}

/// What is being played: its title and artist, and the timeline.
#[derive(Debug, Clone)]
pub struct Song {
    pub title: String,
    pub artist: Option<String>,
    pub lines: Vec<SyncedLine>,
}

/// Where the view is: counting in, playing, or showing help.
#[derive(Debug, Clone, Copy, PartialEq, Eq, Structural)]
pub enum Mode {
    Countdown { step: u8 },
    Playing,
    Help,
}

pub struct App {
    pub song: Song,
    pub clock: Clock,
    pub mode: Mode,
    pub quit: bool,
    /// A message shown until the instant given with it.
    pub notice: Option<(String, u128)>,
}

pub struct AppView {
    pub title: Seq<char>,
    pub artist: Option<Seq<char>>,
    pub lines: Seq<SyncedLineView>,
    pub clock: ClockView,
    pub mode: Mode,
    pub quit: bool,
    pub notice: Option<(Seq<char>, u128)>,
}

impl View for App {
    type V = AppView;

    open spec fn view(&self) -> AppView {
        AppView {
            title: self.song.title@,
            artist: match self.song.artist {
                Some(a) => Some(a@),
                None => None,
            },
            lines: line_views(self.song.lines@),
            clock: self.clock@,
            mode: self.mode,
            quit: self.quit,
            notice: match self.notice {
                Some((text, at)) => Some((text@, at)),
                None => None,
            },
        }
    }
}

/// Whole milliseconds in `t` nanoseconds, clamped into `u64`.
pub open spec fn ms_of(t: u128) -> u64 {
    if t / MILLISECOND > u64::MAX {
        u64::MAX
    } else {
        (t / MILLISECOND) as u64
    }
}

/// How many lines start at or before `ms`: for a timeline sorted by time, the index of the
/// first line still to come.
pub open spec fn count_started(lines: Seq<SyncedLineView>, ms: u64) -> nat
    decreases lines.len(),
{
    if lines.len() == 0 {
        0
    } else {
        count_started(lines.drop_last(), ms) + if lines.last().at_ms <= ms {
            1nat
        } else {
            0nat
        }
    }
}

/// The line being sung at `t`: the last one started, none before the first.
pub open spec fn spec_current_index(lines: Seq<SyncedLineView>, t: u128) -> Option<int> {
    let c = count_started(lines, ms_of(t));
    if c == 0 {
        None
    } else {
        Some(c - 1)
    }
}

pub open spec fn is_lyric(l: SyncedLineView) -> bool {
    trim(l.text).len() > 0
}

/// The first line at or after `from` with words in it.
pub open spec fn first_lyric_from(lines: Seq<SyncedLineView>, from: int) -> Option<int>
    decreases lines.len() - from,
{
    if from < 0 || from >= lines.len() {
        None
    } else if is_lyric(lines[from]) {
        Some(from)
    } else {
        first_lyric_from(lines, from + 1)
    }
}

/// The first line starting after `ms`, searching from `from`.
pub open spec fn first_after(lines: Seq<SyncedLineView>, ms: u64, from: int) -> Option<int>
    decreases lines.len() - from,
{
    if from < 0 || from >= lines.len() {
        None
    } else if lines[from].at_ms > ms {
        Some(from)
    } else {
        first_after(lines, ms, from + 1)
    }
}

pub open spec fn sat_sub(a: u128, b: u128) -> u128 {
    if a >= b {
        (a - b) as u128
    } else {
        0
    }
}

pub open spec fn line_time(l: SyncedLineView) -> u128 {
    (l.at_ms * MILLISECOND) as u128
}

/// Time left in the instrumental break at `t`: from a blank marker (or the start) to the next
/// line with words, when that gap is at least [`MIN_BREAK_MS`]; none during a lyric, after the
/// last one, or in a short gap.
pub open spec fn spec_break_remaining(lines: Seq<SyncedLineView>, t: u128) -> Option<u128> {
    let cur = spec_current_index(lines, t);
    if cur is Some && is_lyric(lines[cur->0]) {
        None
    } else {
        let start_ms: int = if cur is Some {
            lines[cur->0].at_ms as int
        } else {
            0
        };
        let from: int = if cur is Some {
            cur->0 + 1
        } else {
            0
        };
        match first_lyric_from(lines, from) {
            None => None,
            Some(n) => {
                let length = if lines[n].at_ms >= start_ms {
                    lines[n].at_ms - start_ms
                } else {
                    0
                };
                if length >= MIN_BREAK_MS {
                    Some(sat_sub(line_time(lines[n]), t))
                } else {
                    None
                }
            },
        }
    }
}

/// The notice still showing at `at`: the last one set, for [`NOTICE_TTL`] after it was.
pub open spec fn spec_notice(n: Option<(Seq<char>, u128)>, at: u128) -> Option<Seq<char>> {
    match n {
        Some((text, set_at)) => if sat_sub(at, set_at) < NOTICE_TTL {
            Some(text)
        } else {
            None
        },
        None => None,
    }
}

/// An offset as `+1.3s`: rounded to tenths of a second, no sign when that rounds to zero.
pub open spec fn spec_format_offset(offset: SignedDuration) -> Seq<char> {
    let (sign, by) = match offset {
        SignedDuration::Forward(by) => ('+', by),
        SignedDuration::Backward(by) => ('-', by),
    };
    let tenths = (by / MILLISECOND + 50) / 100;
    (if tenths == 0 {
        seq![]
    } else {
        seq![sign]
    }) + decimal((tenths / 10) as nat) + seq!['.'] + decimal((tenths % 10) as nat) + seq!['s']
}

pub open spec fn seek_notice(sign: char, by: u128) -> Seq<char> {
    seq![sign] + decimal((by / SECOND) as nat) + seq!['s']
}

pub open spec fn seek_amount(short: bool) -> u128 {
    if short {
        SHORT_SEEK
    } else {
        LONG_SEEK
    }
}

pub open spec fn nudge_amount(short: bool) -> u128 {
    if short {
        SHORT_NUDGE
    } else {
        LONG_NUDGE
    }
}

/// Enter while paused: jump to the start of the line being sung, then play.
pub open spec fn spec_start_current_line(a: AppView, at: u128) -> AppView {
    let c = match spec_current_index(a.lines, spec_now(a.clock, at)) {
        Some(i) => spec_set(a.clock, at, line_time(a.lines[i])),
        None => a.clock,
    };
    AppView { clock: spec_play(c, at), ..a }
}

pub open spec fn abs_diff(a: u64, b: u64) -> int {
    if a >= b {
        a - b
    } else {
        b - a
    }
}

/// Of the line before the clock and the line after it, the one whose start is nearer, the
/// earlier on a tie.
pub open spec fn nearest_line(lines: Seq<SyncedLineView>, now_ms: u64) -> Option<int> {
    let after = count_started(lines, now_ms) as int;
    let before: Option<int> = if after > 0 {
        Some(after - 1)
    } else {
        None
    };
    let next: Option<int> = if after < lines.len() {
        Some(after)
    } else {
        None
    };
    match (before, next) {
        (None, None) => None,
        (Some(b), None) => Some(b),
        (None, Some(n)) => Some(n),
        (Some(b), Some(n)) => if abs_diff(lines[n].at_ms, now_ms) < abs_diff(lines[b].at_ms, now_ms) {
            Some(n)
        } else {
            Some(b)
        },
    }
}

/// Enter: nothing during a countdown; on a paused clock, start the current line; on a playing
/// one, snap to the nearest line start and report the correction.
pub open spec fn spec_tap_sync(a: AppView, at: u128) -> AppView {
    if a.mode is Countdown {
        a
    } else if a.clock.started is None {
        spec_start_current_line(a, at)
    } else {
        let now = spec_now(a.clock, at);
        match nearest_line(a.lines, ms_of(now)) {
            None => a,
            Some(i) => {
                let target = line_time(a.lines[i]);
                let correction = if target >= now {
                    SignedDuration::Forward((target - now) as u128)
                } else {
                    SignedDuration::Backward((now - target) as u128)
                };
                AppView {
                    clock: spec_set(a.clock, at, target),
                    notice: Some(("synced "@ + spec_format_offset(correction), at)),
                    ..a
                }
            },
        }
    }
}

/// What one action does to the state.
pub open spec fn spec_apply(a: AppView, action: Action, at: u128) -> AppView {
    match action {
        Action::TogglePlay => if a.mode is Countdown {
            AppView { mode: Mode::Playing, clock: ClockView { base: 0, started: None }, ..a }
        } else {
            AppView {
                clock: if a.clock.started is Some {
                    spec_pause(a.clock, at)
                } else {
                    spec_play(a.clock, at)
                },
                ..a
            }
        },
        Action::SeekBackward(short) => {
            let by = seek_amount(short);
            let target = spec_seek_target(spec_now(a.clock, at), SignedDuration::Backward(by));
            AppView {
                clock: spec_set(a.clock, at, target),
                notice: Some((seek_notice('-', by), at)),
                ..a
            }
        },
        Action::SeekForward(short) => {
            let by = seek_amount(short);
            let target = spec_seek_target(spec_now(a.clock, at), SignedDuration::Forward(by));
            AppView {
                clock: spec_set(a.clock, at, target),
                notice: Some((seek_notice('+', by), at)),
                ..a
            }
        },
        Action::PreviousLine => match spec_current_index(a.lines, spec_now(a.clock, at)) {
            Some(i) => AppView {
                clock: spec_set(a.clock, at, if i >= 1 {
                    line_time(a.lines[i - 1])
                } else {
                    0
                }),
                ..a
            },
            None => a,
        },
        Action::NextLine => match first_after(a.lines, ms_of(spec_now(a.clock, at)), 0) {
            Some(i) => AppView { clock: spec_set(a.clock, at, line_time(a.lines[i])), ..a },
            None => a,
        },
        Action::NudgeEarlier(short) => {
            let d = SignedDuration::Backward(nudge_amount(short));
            AppView {
                clock: spec_set(a.clock, at, spec_seek_target(spec_now(a.clock, at), d)),
                notice: Some((spec_format_offset(d), at)),
                ..a
            }
        },
        Action::NudgeLater(short) => {
            let d = SignedDuration::Forward(nudge_amount(short));
            AppView {
                clock: spec_set(a.clock, at, spec_seek_target(spec_now(a.clock, at), d)),
                notice: Some((spec_format_offset(d), at)),
                ..a
            }
        },
        Action::TapSync => spec_tap_sync(a, at),
        Action::Restart => AppView { clock: ClockView { base: 0, started: None }, ..a },
        Action::ReplayCountdown => AppView {
            clock: ClockView { base: 0, started: None },
            mode: Mode::Countdown { step: 0 },
            ..a
        },
        Action::ToggleHelp => AppView {
            mode: if a.mode == Mode::Help {
                Mode::Playing
            } else {
                Mode::Help
            },
            ..a
        },
        Action::Quit => AppView { quit: true, ..a },
    }
}

/// One tick of the countdown: the next step, and at the fourth the song starts playing.
pub open spec fn spec_advance_countdown(a: AppView, at: u128) -> AppView {
    match a.mode {
        Mode::Countdown { step } => {
            let next: int = if step == u8::MAX {
                u8::MAX as int
            } else {
                step + 1
            };
            if next >= 4 {
                AppView { mode: Mode::Playing, clock: spec_play(a.clock, at), ..a }
            } else {
                AppView { mode: Mode::Countdown { step: next as u8 }, ..a }
            }
        },
        _ => a,
    }
}

fn ms_of_exec(t: u128) -> (r: u64)
    ensures
        r == ms_of(t),
{
    let ms = t / MILLISECOND;
    if ms > 0xffff_ffff_ffff_ffff {
        0xffff_ffff_ffff_ffff
    } else {
        ms as u64
    }
}

proof fn lemma_count_step(lines: Seq<SyncedLineView>, ms: u64, i: int)
    requires
        0 <= i < lines.len(),
    ensures
        count_started(lines.take(i + 1), ms) == count_started(lines.take(i), ms) + if lines[i].at_ms
            <= ms {
            1nat
        } else {
            0nat
        },
{
    assert(lines.take(i + 1).drop_last() =~= lines.take(i));
}

proof fn lemma_count_bound(lines: Seq<SyncedLineView>, ms: u64)
    ensures
        count_started(lines, ms) <= lines.len(),
    decreases lines.len(),
{
    if lines.len() > 0 {
        lemma_count_bound(lines.drop_last(), ms);
    }
}

fn count_started_in(lines: &Vec<SyncedLine>, ms: u64) -> (r: usize)
    ensures
        r == count_started(line_views(lines@), ms),
        r <= lines.len(),
{
    let ghost ls = line_views(lines@);
    let mut c: usize = 0;
    let mut i: usize = 0;
    while i < lines.len()
        invariant
            ls == line_views(lines@),
            i <= lines.len(),
            c <= i,
            c == count_started(ls.take(i as int), ms),
        decreases lines.len() - i,
    {
        proof {
            lemma_count_step(ls, ms, i as int);
        }
        if lines[i].at_ms <= ms {
            c = c + 1;
        }
        i = i + 1;
    }
    proof {
        assert(ls.take(lines.len() as int) =~= ls);
    }
    c
}

fn first_lyric_in(lines: &Vec<SyncedLine>, from: usize) -> (r: Option<usize>)
    requires
        from <= lines.len(),
    ensures
        match r {
            Some(i) => first_lyric_from(line_views(lines@), from as int) == Some(i as int) && i
                < lines.len(),
            None => first_lyric_from(line_views(lines@), from as int) is None,
        },
{
    let ghost ls = line_views(lines@);
    let mut i = from;
    while i < lines.len()
        invariant
            ls == line_views(lines@),
            from <= i <= lines.len(),
            first_lyric_from(ls, i as int) == first_lyric_from(ls, from as int),
        decreases lines.len() - i,
    {
        if !is_blank(lines[i].text.as_str()) {
            return Some(i);
        }
        i = i + 1;
    }
    None
}

fn first_after_in(lines: &Vec<SyncedLine>, ms: u64) -> (r: Option<usize>)
    ensures
        match r {
            Some(i) => first_after(line_views(lines@), ms, 0) == Some(i as int) && i < lines.len(),
            None => first_after(line_views(lines@), ms, 0) is None,
        },
{
    let ghost ls = line_views(lines@);
    let mut i: usize = 0;
    while i < lines.len()
        invariant
            ls == line_views(lines@),
            i <= lines.len(),
            first_after(ls, ms, i as int) == first_after(ls, ms, 0),
        decreases lines.len() - i,
    {
        if lines[i].at_ms > ms {
            return Some(i);
        }
        i = i + 1;
    }
    None
}

fn line_time_exec(at_ms: u64) -> (r: u128)
    ensures
        r == (at_ms * MILLISECOND) as u128,
        r == at_ms * MILLISECOND,
{
    assert(at_ms * MILLISECOND <= 0xffff_ffff_ffff_ffff * MILLISECOND) by (nonlinear_arith)
        requires
            at_ms <= 0xffff_ffff_ffff_ffff,
    ;
    (at_ms as u128) * MILLISECOND
}

/// An offset as `+1.3s`, rounded to tenths.
pub fn format_offset(offset: SignedDuration) -> (r: String)
    ensures
        r@ == spec_format_offset(offset),
{
    let (sign, by) = match offset {
        SignedDuration::Forward(by) => ('+', by),
        SignedDuration::Backward(by) => ('-', by),
    };
    let tenths = (by / MILLISECOND + 50) / 100;
    let mut out = String::new();
    if tenths != 0 {
        push_char(&mut out, sign);
    }
    push_decimal_u128(&mut out, tenths / 10);
    push_char(&mut out, '.');
    push_decimal_u128(&mut out, tenths % 10);
    push_char(&mut out, 's');
    proof {
        assert(out@ =~= spec_format_offset(offset));
    }
    out
}

fn seek_notice_text(sign: char, by: u128) -> (r: String)
    ensures
        r@ == seek_notice(sign, by),
{
    let mut out = String::new();
    push_char(&mut out, sign);
    push_decimal_u128(&mut out, by / SECOND);
    push_char(&mut out, 's');
    proof {
        assert(out@ =~= seek_notice(sign, by));
    }
    out
}

impl App {
    /// A fresh view of `song`: counting in when `counter` is set, else paused at zero.
    pub fn new(song: Song, counter: bool) -> (r: App)
        ensures
            r@ == (AppView {
                title: song.title@,
                artist: match song.artist {
                    Some(a) => Some(a@),
                    None => None,
                },
                lines: line_views(song.lines@),
                clock: ClockView { base: 0, started: None },
                mode: if counter {
                    Mode::Countdown { step: 0 }
                } else {
                    Mode::Playing
                },
                quit: false,
                notice: None,
            }),
    {
        App {
            song,
            clock: Clock::new(),
            mode: if counter {
                Mode::Countdown { step: 0 }
            } else {
                Mode::Playing
            },
            quit: false,
            notice: None,
        }
    }

    /// The line being sung at `t`, or none before the first.
    pub fn current_index(&self, t: u128) -> (r: Option<usize>)
        ensures
            match r {
                Some(i) => spec_current_index(self@.lines, t) == Some(i as int) && i
                    < self@.lines.len(),
                None => spec_current_index(self@.lines, t) is None,
            },
    {
        let after = count_started_in(&self.song.lines, ms_of_exec(t));
        if after == 0 {
            None
        } else {
            Some(after - 1)
        }
    }

    /// Time left in the instrumental break at `t`, if `t` is in one worth counting down.
    pub fn break_remaining(&self, t: u128) -> (r: Option<u128>)
        ensures
            r == spec_break_remaining(self@.lines, t),
    {
        let ghost ls = self@.lines;
        let current = self.current_index(t);
        let (start_ms, from) = match current {
            None => (0u64, 0usize),
            Some(index) => {
                assert(index < self.song.lines.len());
                let line = &self.song.lines[index];
                if !is_blank(line.text.as_str()) {
                    return None;
                }
                (line.at_ms, index + 1)
            },
        };
        let next = match first_lyric_in(&self.song.lines, from) {
            Some(n) => n,
            None => return None,
        };
        let next_ms = self.song.lines[next].at_ms;
        let length = if next_ms >= start_ms {
            next_ms - start_ms
        } else {
            0
        };
        if length >= MIN_BREAK_MS {
            let at = line_time_exec(next_ms);
            Some(if at >= t {
                at - t
            } else {
                0
            })
        } else {
            None
        }
    }

    /// The notice still showing at `at`.
    pub fn notice(&self, at: u128) -> (r: Option<&str>)
        ensures
            match r {
                Some(s) => spec_notice(self@.notice, at) == Some(s@),
                None => spec_notice(self@.notice, at) is None,
            },
    {
        match &self.notice {
            Some((text, set_at)) => {
                let elapsed = if at >= *set_at {
                    at - *set_at
                } else {
                    0
                };
                if elapsed < NOTICE_TTL {
                    Some(text.as_str())
                } else {
                    None
                }
            },
            None => None,
        }
    }

    fn set_notice(&mut self, text: String, at: u128)
        ensures
            final(self)@ == (AppView { notice: Some((text@, at)), ..old(self)@ }),
    {
        self.notice = Some((text, at));
    }

    /// How to wait for input at instant `now`.
    pub fn wait(&self, now: u128) -> (r: Wait)
        ensures
            r == if self@.mode is Countdown {
                Wait::Step(COUNTDOWN_STEP)
            } else if self@.clock.started is Some || spec_notice(self@.notice, now) is Some {
                Wait::Tick(IDLE_TICK)
            } else {
                Wait::Forever
            },
    {
        if let Mode::Countdown { .. } = self.mode {
            Wait::Step(COUNTDOWN_STEP)
        } else if self.clock.is_playing() || self.notice(now).is_some() {
            Wait::Tick(IDLE_TICK)
        } else {
            Wait::Forever
        }
    }

    /// Advance the countdown one step; the fourth starts playback.
    pub fn advance_countdown(&mut self, at: u128)
        ensures
            final(self)@ == spec_advance_countdown(old(self)@, at),
    {
        let step = match self.mode {
            Mode::Countdown { step } => step,
            _ => return,
        };
        let next: u8 = if step == 255 {
            255
        } else {
            step + 1
        };
        if next >= 4 {
            self.mode = Mode::Playing;
            self.clock.play(at);
        } else {
            self.mode = Mode::Countdown { step: next };
        }
    }

    fn start_current_line(&mut self, at: u128)
        ensures
            final(self)@ == spec_start_current_line(old(self)@, at),
    {
        let now = self.clock.now(at);
        match self.current_index(now) {
            Some(index) => {
                let target = line_time_exec(self.song.lines[index].at_ms);
                self.clock.set(at, target);
            },
            None => {},
        }
        self.clock.play(at);
    }

    fn tap_sync(&mut self, at: u128)
        ensures
            final(self)@ == spec_tap_sync(old(self)@, at),
    {
        if let Mode::Countdown { .. } = self.mode {
            return;
        }
        if !self.clock.is_playing() {
            self.start_current_line(at);
            return;
        }
        let now = self.clock.now(at);
        let now_ms = ms_of_exec(now);
        let after = count_started_in(&self.song.lines, now_ms);
        let n = self.song.lines.len();
        let nearest: usize = if after > 0 && after < n {
            let b = self.song.lines[after - 1].at_ms;
            let a = self.song.lines[after].at_ms;
            let db = if b >= now_ms {
                b - now_ms
            } else {
                now_ms - b
            };
            let da = if a >= now_ms {
                a - now_ms
            } else {
                now_ms - a
            };
            if da < db {
                after
            } else {
                after - 1
            }
        } else if after > 0 {
            after - 1
        } else if after < n {
            after
        } else {
            return;
        };
        let target = line_time_exec(self.song.lines[nearest].at_ms);
        self.clock.set(at, target);
        let correction = if target >= now {
            SignedDuration::Forward(target - now)
        } else {
            SignedDuration::Backward(now - target)
        };
        let mut text = String::new();
        push_str(&mut text, "synced ");
        let offset = format_offset(correction);
        push_str(&mut text, offset.as_str());
        proof {
            reveal_strlit("synced ");
        }
        self.set_notice(text, at);
    }

    /// Carry out one action at instant `at`.
    pub fn apply(&mut self, action: Action, at: u128)
        ensures
            final(self)@ == spec_apply(old(self)@, action, at),
    {
        match action {
            Action::TogglePlay => {
                if let Mode::Countdown { .. } = self.mode {
                    self.mode = Mode::Playing;
                    self.clock.restart();
                } else {
                    self.clock.toggle(at);
                }
            },
            Action::SeekBackward(short) => {
                let by = if short {
                    SHORT_SEEK
                } else {
                    LONG_SEEK
                };
                self.clock.seek(at, SignedDuration::Backward(by));
                let text = seek_notice_text('-', by);
                self.set_notice(text, at);
            },
            Action::SeekForward(short) => {
                let by = if short {
                    SHORT_SEEK
                } else {
                    LONG_SEEK
                };
                self.clock.seek(at, SignedDuration::Forward(by));
                let text = seek_notice_text('+', by);
                self.set_notice(text, at);
            },
            Action::PreviousLine => {
                let now = self.clock.now(at);
                if let Some(index) = self.current_index(now) {
                    let target = if index >= 1 {
                        line_time_exec(self.song.lines[index - 1].at_ms)
                    } else {
                        0
                    };
                    self.clock.set(at, target);
                }
            },
            Action::NextLine => {
                let now_ms = ms_of_exec(self.clock.now(at));
                if let Some(i) = first_after_in(&self.song.lines, now_ms) {
                    let target = line_time_exec(self.song.lines[i].at_ms);
                    self.clock.set(at, target);
                }
            },
            Action::NudgeEarlier(short) => {
                let by = if short {
                    SHORT_NUDGE
                } else {
                    LONG_NUDGE
                };
                self.clock.seek(at, SignedDuration::Backward(by));
                let text = format_offset(SignedDuration::Backward(by));
                self.set_notice(text, at);
            },
            Action::NudgeLater(short) => {
                let by = if short {
                    SHORT_NUDGE
                } else {
                    LONG_NUDGE
                };
                self.clock.seek(at, SignedDuration::Forward(by));
                let text = format_offset(SignedDuration::Forward(by));
                self.set_notice(text, at);
            },
            Action::TapSync => self.tap_sync(at),
            Action::Restart => {
                self.clock.restart();
            },
            Action::ReplayCountdown => {
                self.clock.restart();
                self.mode = Mode::Countdown { step: 0 };
            },
            Action::ToggleHelp => {
                self.mode = if self.mode == Mode::Help {
                    Mode::Playing
                } else {
                    Mode::Help
                };
            },
            Action::Quit => {
                self.quit = true;
            },
        }
    }
}

/// The timeline is in time order.
pub open spec fn is_time_sorted(lines: Seq<SyncedLineView>) -> bool {
    forall|i: int, j: int| 0 <= i <= j < lines.len() ==> lines[i].at_ms <= lines[j].at_ms
}

proof fn lemma_count_sorted(lines: Seq<SyncedLineView>, ms: u64)
    requires
        is_time_sorted(lines),
    ensures
        count_started(lines, ms) <= lines.len(),
        forall|j: int|
            0 <= j < lines.len() ==> (j < count_started(lines, ms) <==> #[trigger] lines[j].at_ms
                <= ms),
    decreases lines.len(),
{
    lemma_count_bound(lines, ms);
    if lines.len() > 0 {
        let d = lines.drop_last();
        assert(is_time_sorted(d)) by {
            assert forall|i: int, j: int| 0 <= i <= j < d.len() implies d[i].at_ms <= d[j].at_ms by {
                assert(d[i] == lines[i] && d[j] == lines[j]);
            }
        }
        lemma_count_sorted(d, ms);
        let n = lines.len() - 1;
        if lines.last().at_ms <= ms {
            assert forall|j: int| 0 <= j < d.len() implies j < count_started(d, ms) && #[trigger] d[j] == lines[j] by {
                assert(d[j] == lines[j]);
                assert(lines[j].at_ms <= lines[n].at_ms);
            }
            if count_started(d, ms) < d.len() {
                let k = count_started(d, ms) as int;
                assert(d[k] == lines[k]);
            }
        }
        assert forall|j: int| 0 <= j < lines.len() implies (j < count_started(lines, ms)
            <==> #[trigger] lines[j].at_ms <= ms) by {
            if j < n {
                assert(d[j] == lines[j]);
            }
        }
    }
}

/// On a timeline in time order, the current line is the one being sung: it has started, and
/// the next one has not; there is none exactly when the first line is still to come.
pub proof fn lemma_current_line_is_being_sung(lines: Seq<SyncedLineView>, t: u128)
    requires
        is_time_sorted(lines),
    ensures
        match spec_current_index(lines, t) {
            Some(i) => 0 <= i < lines.len() && lines[i].at_ms <= ms_of(t) && (i + 1 == lines.len()
                || lines[i + 1].at_ms > ms_of(t)),
            None => lines.len() == 0 || lines[0].at_ms > ms_of(t),
        },
{
    lemma_count_sorted(lines, ms_of(t));
    let c = count_started(lines, ms_of(t)) as int;
    if c > 0 {
        assert(lines[c - 1].at_ms <= ms_of(t));
        if c < lines.len() {
            assert(!(c < c));
        }
    } else if lines.len() > 0 {
        assert(!(0 < c));
    }
}

/// The countdown shows three steps with the clock untouched, and the fourth tick starts the
/// song playing.
pub proof fn lemma_countdown_then_play(a: AppView, t1: u128, t2: u128, t3: u128, t4: u128)
    requires
        a.mode == (Mode::Countdown { step: 0 }),
    ensures
        ({
            let s1 = spec_advance_countdown(a, t1);
            let s2 = spec_advance_countdown(s1, t2);
            let s3 = spec_advance_countdown(s2, t3);
            let s4 = spec_advance_countdown(s3, t4);
            &&& s1.mode == (Mode::Countdown { step: 1 }) && s1.clock == a.clock
            &&& s2.mode == (Mode::Countdown { step: 2 }) && s2.clock == a.clock
            &&& s3.mode == (Mode::Countdown { step: 3 }) && s3.clock == a.clock
            &&& s4.mode == Mode::Playing && s4.clock == spec_play(a.clock, t4)
        }),
{
}

/// Tapping sync on a playing clock over a timeline with lines lands the clock exactly on the
/// start of one of them, still playing, and says by how much it moved.
pub proof fn lemma_tap_sync_lands_on_a_line(a: AppView, at: u128)
    requires
        !(a.mode is Countdown),
        a.clock.started is Some,
        a.lines.len() > 0,
    ensures
        exists|i: int|
            0 <= i < a.lines.len() && #[trigger] spec_now(spec_tap_sync(a, at).clock, at)
                == line_time(a.lines[i]),
        spec_tap_sync(a, at).clock.started == Some(at),
        spec_tap_sync(a, at).notice is Some,
{
    let now = spec_now(a.clock, at);
    lemma_count_bound(a.lines, ms_of(now));
    let i = nearest_line(a.lines, ms_of(now))->0;
    let target = line_time(a.lines[i]);
    assert(a.lines[i].at_ms * MILLISECOND <= 0xffff_ffff_ffff_ffff * MILLISECOND) by (nonlinear_arith)
        requires
            a.lines[i].at_ms <= 0xffff_ffff_ffff_ffff,
    ;
    assert(spec_now(spec_tap_sync(a, at).clock, at) == target);
}

/// Seeking and nudging move the clock without stopping or starting it.
pub proof fn lemma_moves_keep_play_state(a: AppView, short: bool, at: u128)
    ensures
        (spec_apply(a, Action::SeekForward(short), at).clock.started is Some) == (a.clock.started is Some),
        (spec_apply(a, Action::SeekBackward(short), at).clock.started is Some) == (a.clock.started is Some),
        (spec_apply(a, Action::NudgeEarlier(short), at).clock.started is Some) == (a.clock.started is Some),
        (spec_apply(a, Action::NudgeLater(short), at).clock.started is Some) == (a.clock.started is Some),
        (spec_apply(a, Action::PreviousLine, at).clock.started is Some) == (a.clock.started is Some),
        (spec_apply(a, Action::NextLine, at).clock.started is Some) == (a.clock.started is Some),
{
}

/// No action changes the song.
pub proof fn lemma_actions_keep_the_song(a: AppView, action: Action, at: u128)
    ensures
        spec_apply(a, action, at).lines == a.lines,
        spec_apply(a, action, at).title == a.title,
        spec_apply(a, action, at).artist == a.artist,
{
}

/// The song a synced-lyrics file at `path` plays: its title tag, else the file's stem, else
/// the path itself; its artist tag; its timeline.
pub fn song_from_file(synced: crate::lrc::Synced, path: &str) -> (r: Song)
    ensures
        r.title@ == match crate::path::opt_string_view(synced.title) {
            Some(t) => t,
            None => match crate::path::path_stem(path@) {
                Some(s) => s,
                None => path@,
            },
        },
        crate::path::opt_string_view(r.artist) == crate::path::opt_string_view(synced.artist),
        line_views(r.lines@) == line_views(synced.lines@),
{
    let title = match synced.title {
        Some(t) => t,
        None => {
            let cs = crate::text::chars_of(path);
            match crate::path::stem_range(&cs) {
                Some((a, b)) => crate::text::string_of_range(&cs, a, b),
                None => {
                    let mut p = String::new();
                    push_str(&mut p, path);
                    proof {
                        assert(p@ =~= path@);
                    }
                    p
                },
            }
        },
    };
    Song { title, artist: synced.artist, lines: synced.lines }
}

} // verus!
