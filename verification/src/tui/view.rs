//! What one frame shows: header, hairline rules, the centered lyric, and the status bar.
//!
//! The layout is five rows: a 1-row header, a hairline rule, the content, another hairline
//! rule, and a 1-row status bar. In the content the current lyric line's vertical middle is
//! pinned to the content area's center row, with earlier lines stacked above it and later
//! lines below — a teleprompter, not a pager. This module decides every row's text, place and
//! emphasis; painting them onto a terminal is left to the caller.
//!
//! Display widths are those of the `unicode-width` crate. Width arithmetic saturates.
use vstd::prelude::*;

use crate::lrc::{line_views, SyncedLine, SyncedLineView};
use crate::text::{
    chars_of, decimal, is_blank, is_whitespace, is_ws, push_char, push_decimal_u128, push_str,
    string_of, trim,
};
use crate::tui::app::{Mode, MILLISECOND, SECOND};
use crate::tui::bigtext;
use crate::tui::clock::DURATION_MAX;

verus! {

pub const HINTS: &'static str = "? keys";

/// The fine-sync keys, kept on the status bar because lining the clock up is the thing a
/// listener does most while a song plays.
pub const SYNC_HINTS: &'static str = ", . ±0.1s · < > ±0.5s · Enter sync";

pub const HINT_GAP: usize = 2;

pub const EDGE_PAD: u16 = 1;

pub const SEPARATOR: &'static str = " · ";

pub const ELIDED: &'static str = "…";

/// Padding, in cells, between the lyric text and either edge of the content area.
pub const CONTENT_PAD: u16 = 2;

pub const BREAK_GLYPH: &'static str = "♪";

/// How many rows past the screen's edge to keep generating context lines for.
pub const SLACK_ROWS: usize = 4;

/// The columns a string takes on a terminal, as `unicode-width` measures it.
pub uninterp spec fn display_width(s: Seq<char>) -> usize;

/// `UnicodeWidthStr::width`. Claimed: the result is the string's display width, a function
/// of the string alone.
#[verifier::external_body]
fn text_width(s: &str) -> (r: usize)
    ensures
        r == display_width(s@),
{
    unicode_width::UnicodeWidthStr::width(s)
}

pub open spec fn sat_add(a: int, b: int) -> int {
    if a + b > usize::MAX {
        usize::MAX as int
    } else {
        a + b
    }
}

pub open spec fn sat_sub(a: int, b: int) -> int {
    if a >= b {
        a - b
    } else {
        0
    }
}

fn owned(s: &str) -> (r: String)
    ensures
        r@ == s@,
{
    let mut out = String::new();
    push_str(&mut out, s);
    proof {
        assert(out@ =~= s@);
    }
    out
}

fn char_width(c: char) -> (r: usize)
    ensures
        r == display_width(seq![c]),
{
    let mut s = String::new();
    push_char(&mut s, c);
    proof {
        assert(s@ =~= seq![c]);
    }
    text_width(s.as_str())
}

pub open spec fn string_views(v: Seq<String>) -> Seq<Seq<char>> {
    v.map_values(|s: String| s@)
}

// ---------------------------------------------------------------------------------------
// Words and wrapping
// ---------------------------------------------------------------------------------------

pub open spec fn flush(cur: Seq<char>) -> Seq<Seq<char>> {
    if cur.len() > 0 {
        seq![cur]
    } else {
        seq![]
    }
}

/// The whitespace-separated words of `s[i..]`, `cur` being the word already begun.
pub open spec fn words_from(s: Seq<char>, i: int, cur: Seq<char>) -> Seq<Seq<char>>
    decreases s.len() - i,
{
    if i >= s.len() {
        flush(cur)
    } else if is_ws(s[i]) {
        flush(cur) + words_from(s, i + 1, seq![])
    } else {
        words_from(s, i + 1, cur.push(s[i]))
    }
}

/// `str::split_whitespace`: the maximal runs of non-whitespace.
pub open spec fn words(s: Seq<char>) -> Seq<Seq<char>> {
    words_from(s, 0, seq![])
}

fn split_words(s: &str) -> (r: Vec<String>)
    ensures
        string_views(r@) == words(s@),
{
    let cs = chars_of(s);
    let mut out: Vec<String> = Vec::new();
    let mut cur = String::new();
    let mut i: usize = 0;
    while i < cs.len()
        invariant
            cs@ == s@,
            i <= cs.len(),
            string_views(out@) + words_from(s@, i as int, cur@) == words(s@),
        decreases cs.len() - i,
    {
        if is_whitespace(cs[i]) {
            let ghost before = string_views(out@);
            let ghost c = cur@;
            if !cur.as_str().is_empty() {
                let mut fresh = String::new();
                std::mem::swap(&mut fresh, &mut cur);
                out.push(fresh);
                proof {
                    assert(string_views(out@) =~= before.push(c));
                }
            }
            proof {
                assert(cur@.len() == 0);
                assert(cur@ =~= Seq::<char>::empty());
                assert(before + flush(c) =~= string_views(out@));
                assert(before + (flush(c) + words_from(s@, i + 1, seq![])) =~= string_views(out@) + words_from(s@, i + 1, cur@));
            }
        } else {
            push_char(&mut cur, cs[i]);
        }
        i = i + 1;
    }
    if !cur.as_str().is_empty() {
        let ghost before = string_views(out@);
        out.push(cur);
        proof {
            assert(string_views(out@) =~= before + flush(cur@));
        }
    } else {
        proof {
            assert(flush(cur@) =~= Seq::<Seq<char>>::empty());
            assert(string_views(out@) + flush(cur@) =~= string_views(out@));
        }
    }
    out
}

/// Wrapping state: the rows finished, the row being filled, and its width so far.
pub struct WrapState {
    pub rows: Seq<Seq<char>>,
    pub cur: Seq<char>,
    pub cur_width: int,
}

/// Hard-wrap one character of a word too wide for any row.
pub open spec fn wrap_char(st: WrapState, c: char, width: int) -> WrapState {
    let cw = display_width(seq![c]) as int;
    let st1 = if sat_add(st.cur_width, cw) > width && st.cur.len() > 0 {
        WrapState { rows: st.rows.push(st.cur), cur: seq![], cur_width: 0 }
    } else {
        st
    };
    WrapState { rows: st1.rows, cur: st1.cur.push(c), cur_width: sat_add(st1.cur_width, cw) }
}

pub open spec fn wrap_chars(st: WrapState, w: Seq<char>, width: int) -> WrapState
    decreases w.len(),
{
    if w.len() == 0 {
        st
    } else {
        wrap_char(wrap_chars(st, w.drop_last(), width), w.last(), width)
    }
}

/// Place one word: on the current row when it fits after a space, else on a new row, cut a
/// character at a time when it is wider than a whole row.
pub open spec fn wrap_word(st: WrapState, w: Seq<char>, width: int) -> WrapState {
    let ww = display_width(w) as int;
    let extra: int = if st.cur.len() > 0 {
        1
    } else {
        0
    };
    if sat_add(sat_add(st.cur_width, extra), ww) <= width {
        WrapState {
            rows: st.rows,
            cur: if st.cur.len() > 0 {
                st.cur.push(' ') + w
            } else {
                w
            },
            cur_width: sat_add(sat_add(st.cur_width, extra), ww),
        }
    } else {
        let st1 = if st.cur.len() > 0 {
            WrapState { rows: st.rows.push(st.cur), cur: seq![], cur_width: 0 }
        } else {
            st
        };
        if ww <= width {
            WrapState { rows: st1.rows, cur: st1.cur + w, cur_width: ww }
        } else {
            wrap_chars(st1, w, width)
        }
    }
}

pub open spec fn wrap_words(ws: Seq<Seq<char>>, width: int) -> WrapState
    decreases ws.len(),
{
    if ws.len() == 0 {
        WrapState { rows: seq![], cur: seq![], cur_width: 0 }
    } else {
        wrap_word(wrap_words(ws.drop_last(), width), ws.last(), width)
    }
}

/// Greedy word-wrap of `text` into rows no wider than `width` columns: one empty row for empty
/// text, the text unwrapped for width 0.
pub open spec fn spec_wrap(text: Seq<char>, width: usize) -> Seq<Seq<char>> {
    if text.len() == 0 {
        seq![seq![]]
    } else if width == 0 {
        seq![text]
    } else {
        let st = wrap_words(words(text), width as int);
        if st.cur.len() > 0 || st.rows.len() == 0 {
            st.rows.push(st.cur)
        } else {
            st.rows
        }
    }
}

fn take_string(s: &mut String) -> (r: String)
    ensures
        r@ == old(s)@,
        final(s)@ == Seq::<char>::empty(),
{
    let mut fresh = String::new();
    std::mem::swap(&mut fresh, s);
    fresh
}

/// Greedy word-wrap; never splits a word that fits on a row.
pub fn wrap(text: &str, width: usize) -> (r: Vec<String>)
    ensures
        string_views(r@) == spec_wrap(text@, width),
        r@.len() >= 1,
{
    if text.is_empty() {
        let mut rows: Vec<String> = Vec::new();
        rows.push(String::new());
        proof {
            assert(text@.len() == 0);
            assert(string_views(rows@) =~= seq![Seq::<char>::empty()]);
        }
        return rows;
    }
    proof {
        assert(text@.len() > 0) by {
            if text@.len() == 0 {
                assert(text@ =~= Seq::<char>::empty());
            }
        }
    }
    if width == 0 {
        let mut rows: Vec<String> = Vec::new();
        rows.push(owned(text));
        proof {
            assert(string_views(rows@) =~= seq![text@]);
        }
        return rows;
    }
    let ws = split_words(text);
    let ghost wv = string_views(ws@);
    let mut rows: Vec<String> = Vec::new();
    let mut current = String::new();
    let mut current_width: usize = 0;
    let mut k: usize = 0;
    while k < ws.len()
        invariant
            wv == string_views(ws@),
            wv == words(text@),
            k <= ws.len(),
            width > 0,
            ({
                let st = wrap_words(wv.take(k as int), width as int);
                &&& string_views(rows@) == st.rows
                &&& current@ == st.cur
                &&& current_width == st.cur_width
            }),
        decreases ws.len() - k,
    {
        proof {
            assert(wv.take(k as int + 1).drop_last() =~= wv.take(k as int));
            assert(wv.take(k as int + 1).last() == ws@[k as int]@);
        }
        let word = &ws[k];
        let word_width = text_width(word.as_str());
        let nonempty = !current.as_str().is_empty();
        proof {
            assert(nonempty == (current@.len() > 0)) by {
                if current@.len() == 0 {
                    assert(current@ =~= Seq::<char>::empty());
                }
            }
        }
        let extra: usize = if nonempty {
            1
        } else {
            0
        };
        if current_width.saturating_add(extra).saturating_add(word_width) <= width {
            if nonempty {
                push_char(&mut current, ' ');
                current_width = current_width.saturating_add(1);
            }
            push_str(&mut current, word.as_str());
            current_width = current_width.saturating_add(word_width);
        } else {
            if nonempty {
                let ghost before = string_views(rows@);
                let row = take_string(&mut current);
                rows.push(row);
                current_width = 0;
                proof {
                    assert(string_views(rows@) =~= before.push(row@));
                }
            }
            if word_width <= width {
                push_str(&mut current, word.as_str());
                current_width = word_width;
            } else {
                wrap_hard(&mut rows, &mut current, &mut current_width, word.as_str(), width);
            }
        }
        k = k + 1;
    }
    proof {
        assert(wv.take(ws.len() as int) =~= wv);
    }
    let nonempty = !current.as_str().is_empty();
    proof {
        assert(nonempty == (current@.len() > 0)) by {
            if current@.len() == 0 {
                assert(current@ =~= Seq::<char>::empty());
            }
        }
    }
    if nonempty || rows.len() == 0 {
        let ghost before = string_views(rows@);
        rows.push(current);
        proof {
            assert(string_views(rows@) =~= before.push(current@));
        }
    }
    rows
}

fn wrap_hard(rows: &mut Vec<String>, current: &mut String, current_width: &mut usize, word: &str, width: usize)
    ensures
        ({
            let st = wrap_chars(
                WrapState { rows: string_views(old(rows)@), cur: old(current)@, cur_width: *old(current_width) as int },
                word@,
                width as int,
            );
            &&& string_views(final(rows)@) == st.rows
            &&& final(current)@ == st.cur
            &&& *final(current_width) == st.cur_width
        }),
{
    let cs = chars_of(word);
    let ghost st0 = WrapState { rows: string_views(rows@), cur: current@, cur_width: *current_width as int };
    let mut i: usize = 0;
    while i < cs.len()
        invariant
            cs@ == word@,
            i <= cs.len(),
            st0 == (WrapState { rows: string_views(old(rows)@), cur: old(current)@, cur_width: *old(current_width) as int }),
            ({
                let st = wrap_chars(st0, word@.take(i as int), width as int);
                &&& string_views(rows@) == st.rows
                &&& current@ == st.cur
                &&& *current_width == st.cur_width
            }),
        decreases cs.len() - i,
    {
        proof {
            assert(word@.take(i as int + 1).drop_last() =~= word@.take(i as int));
        }
        let c = cs[i];
        let cw = char_width(c);
        let nonempty = !current.as_str().is_empty();
        proof {
            assert(nonempty == (current@.len() > 0)) by {
                if current@.len() == 0 {
                    assert(current@ =~= Seq::<char>::empty());
                }
            }
        }
        if current_width.saturating_add(cw) > width && nonempty {
            let ghost before = string_views(rows@);
            let row = take_string(current);
            rows.push(row);
            *current_width = 0;
            proof {
                assert(string_views(rows@) =~= before.push(row@));
            }
        }
        push_char(current, c);
        *current_width = current_width.saturating_add(cw);
        i = i + 1;
    }
    proof {
        assert(word@.take(cs.len() as int) =~= word@);
    }
}

// ---------------------------------------------------------------------------------------
// Fitting text into a width
// ---------------------------------------------------------------------------------------

/// How many leading characters of `cs[i..]` fit in `budget` columns after `used` ones.
pub open spec fn fitting_prefix(cs: Seq<char>, i: int, used: int, budget: int) -> int
    decreases cs.len() - i,
{
    if i >= cs.len() || i < 0 {
        0
    } else {
        let w = display_width(seq![cs[i]]) as int;
        if sat_add(used, w) > budget {
            0
        } else {
            1 + fitting_prefix(cs, i + 1, sat_add(used, w), budget)
        }
    }
}

/// `text` cut to `width` columns, the tail replaced by `…` when it was cut.
pub open spec fn spec_truncate(text: Seq<char>, width: usize) -> Seq<char> {
    if display_width(text) <= width {
        text
    } else {
        let budget = sat_sub(width as int, display_width(ELIDED@) as int);
        text.take(fitting_prefix(text, 0, 0, budget)) + ELIDED@
    }
}

proof fn lemma_fitting_prefix_bound(cs: Seq<char>, i: int, used: int, budget: int)
    requires
        0 <= i <= cs.len(),
    ensures
        0 <= fitting_prefix(cs, i, used, budget) <= cs.len() - i,
    decreases cs.len() - i,
{
    if i < cs.len() {
        let w = display_width(seq![cs[i]]) as int;
        lemma_fitting_prefix_bound(cs, i + 1, sat_add(used, w), budget);
    }
}

/// Cut `text` to `width` columns, ending it with `…` if it was cut; by characters, never
/// inside one.
pub fn truncate(text: &str, width: usize) -> (r: String)
    ensures
        r@ == spec_truncate(text@, width),
{
    if text_width(text) <= width {
        return owned(text);
    }
    let budget = width.saturating_sub(text_width(ELIDED));
    let cs = chars_of(text);
    let mut out = String::new();
    let mut used: usize = 0;
    let mut i: usize = 0;
    let mut stop = false;
    while i < cs.len() && !stop
        invariant
            cs@ == text@,
            i <= cs.len(),
            budget == sat_sub(width as int, display_width(ELIDED@) as int),
            out@ == cs@.take(i as int),
            fitting_prefix(cs@, 0, 0, budget as int) == i + fitting_prefix(cs@, i as int, used as int, budget as int),
            stop ==> i < cs.len() && fitting_prefix(cs@, i as int, used as int, budget as int) == 0,
        decreases cs.len() - i, if stop { 0int } else { 1int },
    {
        let w = char_width(cs[i]);
        if used.saturating_add(w) > budget {
            stop = true;
        } else {
            push_char(&mut out, cs[i]);
            proof {
                assert(cs@.take(i as int + 1) =~= cs@.take(i as int).push(cs@[i as int]));
            }
            used = used.saturating_add(w);
            i = i + 1;
        }
    }
    push_str(&mut out, ELIDED);
    out
}

/// Columns taken by `pieces` joined by the separator, saturating.
pub open spec fn joined_width(pieces: Seq<Seq<char>>) -> int {
    sat_add(
        sum_widths(pieces),
        if display_width(SEPARATOR@) as int * sat_sub(pieces.len() as int, 1) > usize::MAX {
            usize::MAX as int
        } else {
            display_width(SEPARATOR@) as int * sat_sub(pieces.len() as int, 1)
        },
    )
}

pub open spec fn sum_widths(pieces: Seq<Seq<char>>) -> int
    decreases pieces.len(),
{
    if pieces.len() == 0 {
        0
    } else {
        sat_add(sum_widths(pieces.drop_last()), display_width(pieces.last()) as int)
    }
}

/// `…` followed by the segments from `from` on.
pub open spec fn elided_from(segments: Seq<Seq<char>>, from: int) -> Seq<Seq<char>> {
    seq![ELIDED@] + segments.subrange(from, segments.len() as int)
}

pub open spec fn elide_search(segments: Seq<Seq<char>>, from: int, room: usize) -> Seq<Seq<char>>
    decreases segments.len() - from,
{
    if from < 1 || from >= segments.len() {
        if segments.len() == 0 {
            seq![]
        } else {
            seq![spec_truncate(segments.last(), room)]
        }
    } else if joined_width(elided_from(segments, from)) <= room {
        elided_from(segments, from)
    } else {
        elide_search(segments, from + 1, room)
    }
}

/// The segments, or with the fewest leading ones dropped for a `…` so the rest fit in `room`
/// columns, or else the last one alone truncated.
pub open spec fn spec_elide(segments: Seq<Seq<char>>, room: usize) -> Seq<Seq<char>> {
    if joined_width(segments) <= room {
        segments
    } else {
        elide_search(segments, 1, room)
    }
}

fn joined_width_of(pieces: &Vec<String>) -> (r: usize)
    ensures
        r == joined_width(string_views(pieces@)),
{
    let ghost pv = string_views(pieces@);
    let mut total: usize = 0;
    let mut i: usize = 0;
    while i < pieces.len()
        invariant
            pv == string_views(pieces@),
            i <= pieces.len(),
            total == sum_widths(pv.take(i as int)),
        decreases pieces.len() - i,
    {
        proof {
            assert(pv.take(i as int + 1).drop_last() =~= pv.take(i as int));
        }
        total = total.saturating_add(text_width(pieces[i].as_str()));
        i = i + 1;
    }
    proof {
        assert(pv.take(pieces.len() as int) =~= pv);
    }
    let gaps = if pieces.len() > 0 {
        pieces.len() - 1
    } else {
        0
    };
    let sep = match text_width(SEPARATOR).checked_mul(gaps) {
        Some(v) => v,
        None => usize::MAX,
    };
    total.saturating_add(sep)
}

fn clone_strings(v: &Vec<String>, from: usize) -> (r: Vec<String>)
    requires
        from <= v.len(),
    ensures
        string_views(r@) == string_views(v@).subrange(from as int, v@.len() as int),
{
    let mut out: Vec<String> = Vec::new();
    let mut i = from;
    while i < v.len()
        invariant
            from <= i <= v.len(),
            string_views(out@) == string_views(v@).subrange(from as int, i as int),
        decreases v.len() - i,
    {
        let ghost before = string_views(out@);
        out.push(v[i].clone());
        proof {
            assert(string_views(out@) =~= before.push(v@[i as int]@));
            assert(string_views(out@) =~= string_views(v@).subrange(from as int, i + 1));
        }
        i = i + 1;
    }
    out
}

/// Drop segments from the front, replacing them with `…`, until what remains fits in `room`
/// columns; failing that, the last segment alone, truncated.
pub fn elide(segments: &Vec<String>, room: usize) -> (r: Vec<String>)
    ensures
        string_views(r@) == spec_elide(string_views(segments@), room),
{
    let ghost sv = string_views(segments@);
    if joined_width_of(segments) <= room {
        return clone_strings(segments, 0);
    }
    let mut from: usize = 1;
    while from < segments.len()
        invariant
            sv == string_views(segments@),
            1 <= from,
            joined_width(sv) > room,
            elide_search(sv, from as int, room) == elide_search(sv, 1, room),
        decreases segments.len() - from,
    {
        let mut candidate: Vec<String> = Vec::new();
        candidate.push(owned(ELIDED));
        let rest = clone_strings(segments, from);
        let mut j: usize = 0;
        let ghost head = string_views(candidate@);
        while j < rest.len()
            invariant
                string_views(candidate@) == head + string_views(rest@).take(j as int),
                j <= rest.len(),
            decreases rest.len() - j,
        {
            let ghost before = string_views(candidate@);
            candidate.push(rest[j].clone());
            proof {
                assert(string_views(candidate@) =~= before.push(rest@[j as int]@));
                assert(string_views(rest@).take(j as int + 1) =~= string_views(rest@).take(j as int).push(rest@[j as int]@));
                assert(string_views(candidate@) =~= head + string_views(rest@).take(j as int + 1));
            }
            j = j + 1;
        }
        proof {
            assert(string_views(rest@).take(rest.len() as int) =~= string_views(rest@));
            assert(head =~= seq![ELIDED@]);
            assert(string_views(candidate@) =~= elided_from(sv, from as int));
        }
        if joined_width_of(&candidate) <= room {
            return candidate;
        }
        from = from + 1;
    }
    let mut out: Vec<String> = Vec::new();
    if segments.len() > 0 {
        let last = truncate(segments[segments.len() - 1].as_str(), room);
        out.push(last);
        proof {
            assert(sv.last() == segments@[segments.len() - 1]@);
            assert(string_views(out@) =~= seq![spec_truncate(sv.last(), room)]);
        }
    } else {
        proof {
            assert(string_views(out@) =~= Seq::<Seq<char>>::empty());
        }
    }
    out
}

// ---------------------------------------------------------------------------------------
// Times
// ---------------------------------------------------------------------------------------

pub open spec fn two_digits(n: nat) -> Seq<char> {
    if n < 10 {
        seq!['0'] + decimal(n)
    } else {
        decimal(n)
    }
}

fn push_two_digits(out: &mut String, n: u128)
    ensures
        final(out)@ == old(out)@ + two_digits(n as nat),
{
    if n < 10 {
        push_char(out, '0');
    }
    push_decimal_u128(out, n);
    proof {
        assert(final(out)@ =~= old(out)@ + two_digits(n as nat));
    }
}

/// `0:12`: minutes, then seconds to two digits, rounded up to the next whole second.
pub open spec fn spec_format_remaining(left: u128) -> Seq<char> {
    let secs = (left / MILLISECOND + 999) / 1000;
    decimal((secs / 60) as nat) + seq![':'] + two_digits((secs % 60) as nat)
}

/// Time to go until the singing resumes, rounded up: the counter reads `0:01` through the
/// last second and the line arrives as it would tick to `0:00`.
pub fn format_remaining(left: u128) -> (r: String)
    ensures
        r@ == spec_format_remaining(left),
{
    let secs = (left / MILLISECOND + 999) / 1000;
    let mut out = String::new();
    push_decimal_u128(&mut out, secs / 60);
    push_char(&mut out, ':');
    push_two_digits(&mut out, secs % 60);
    proof {
        assert(out@ =~= spec_format_remaining(left));
    }
    out
}

/// `01:05`: whole minutes and seconds, each at least two digits.
pub open spec fn spec_format_clock(elapsed: u128) -> Seq<char> {
    let secs = elapsed / SECOND;
    two_digits((secs / 60) as nat) + seq![':'] + two_digits((secs % 60) as nat)
}

/// The play position as `mm:ss`.
pub fn format_clock(elapsed: u128) -> (r: String)
    ensures
        r@ == spec_format_clock(elapsed),
{
    let secs = elapsed / SECOND;
    let mut out = String::new();
    push_two_digits(&mut out, secs / 60);
    push_char(&mut out, ':');
    push_two_digits(&mut out, secs % 60);
    proof {
        assert(out@ =~= spec_format_clock(elapsed));
    }
    out
}

// ---------------------------------------------------------------------------------------
// The frame
// ---------------------------------------------------------------------------------------

pub open spec fn sat_u16(x: int) -> u16 {
    if x > u16::MAX {
        u16::MAX
    } else if x < 0 {
        0
    } else {
        x as u16
    }
}

/// A column count as a cell offset: itself when it fits in `u16`, else `fallback`.
pub open spec fn cells(n: int, fallback: u16) -> u16 {
    if 0 <= n <= u16::MAX {
        n as u16
    } else {
        fallback
    }
}

fn cells_exec(n: usize, fallback: u16) -> (r: u16)
    ensures
        r == cells(n as int, fallback),
{
    if n <= 0xffff {
        n as u16
    } else {
        fallback
    }
}

/// A row inset by one cell on each side: its new left edge and width.
pub open spec fn spec_padded(x: u16, width: u16) -> (u16, u16) {
    (sat_u16(x + if width < EDGE_PAD { width as int } else { EDGE_PAD as int }), sat_u16(width - 2 * EDGE_PAD))
}

pub fn padded(x: u16, width: u16) -> (r: (u16, u16))
    ensures
        r == spec_padded(x, width),
{
    let pad = if width < EDGE_PAD {
        width
    } else {
        EDGE_PAD
    };
    (x.saturating_add(pad), width.saturating_sub(2 * EDGE_PAD))
}

/// How a piece of text is emphasized.
#[derive(Debug, Clone, Copy, PartialEq, Eq, Structural)]
pub enum Emphasis {
    /// The program's name in the header.
    Title,
    /// Ordinary header and status text.
    Quiet,
    /// A key hint.
    Hint,
    /// A notice in the status bar.
    Notice,
}

/// A piece of a one-row bar: where it starts, what it says, and how it is emphasized.
pub struct Piece {
    pub x: u16,
    pub text: String,
    pub emphasis: Emphasis,
}

pub struct PieceView {
    pub x: u16,
    pub text: Seq<char>,
    pub emphasis: Emphasis,
}

impl View for Piece {
    type V = PieceView;

    open spec fn view(&self) -> PieceView {
        PieceView { x: self.x, text: self.text@, emphasis: self.emphasis }
    }
}

pub open spec fn piece_views(v: Seq<Piece>) -> Seq<PieceView> {
    v.map_values(|p: Piece| p@)
}

pub open spec fn header_segments(artist: Option<Seq<char>>, title: Seq<char>) -> Seq<Seq<char>> {
    match artist {
        Some(a) => seq!["lyrics"@, a, title],
        None => seq!["lyrics"@, title],
    }
}

/// The header's segments from `i` on, laid out from column `x`, separated by ` · `.
pub open spec fn header_pieces(shown: Seq<Seq<char>>, i: int, x: u16, w: u16) -> Seq<PieceView>
    decreases shown.len() - i,
{
    if i < 0 || i >= shown.len() {
        seq![]
    } else {
        let sep: Seq<PieceView> = if i > 0 {
            seq![PieceView { x, text: SEPARATOR@, emphasis: Emphasis::Quiet }]
        } else {
            seq![]
        };
        let sx = if i > 0 {
            sat_u16(x + cells(display_width(SEPARATOR@) as int, w))
        } else {
            x
        };
        let emphasis = if i == 0 && shown[i] == "lyrics"@ {
            Emphasis::Title
        } else {
            Emphasis::Quiet
        };
        sep + seq![PieceView { x: sx, text: shown[i], emphasis }] + header_pieces(
            shown,
            i + 1,
            sat_u16(sx + cells(display_width(shown[i]) as int, w)),
            w,
        )
    }
}

/// The header of a row at `x`, `width` wide: `lyrics · artist · title`, elided from the front
/// to leave room for the key hint, which shows at the right edge when it fits whole.
pub open spec fn spec_header(x: u16, width: u16, artist: Option<Seq<char>>, title: Seq<char>) -> Seq<PieceView> {
    let (px, w) = spec_padded(x, width);
    let hints_w = display_width(HINTS@) as int;
    let room = sat_sub(sat_sub(w as int, HINT_GAP as int), hints_w) as usize;
    let shown = spec_elide(header_segments(artist, title), room);
    let hint: Seq<PieceView> = if sat_add(sat_add(joined_width(shown), HINT_GAP as int), hints_w) <= w {
        seq![PieceView { x: sat_u16(sat_u16(px + w) - cells(hints_w, w)), text: HINTS@, emphasis: Emphasis::Hint }]
    } else {
        seq![]
    };
    header_pieces(shown, 0, px, w) + hint
}

fn push_piece(out: &mut Vec<Piece>, x: u16, text: String, emphasis: Emphasis)
    ensures
        piece_views(final(out)@) == piece_views(old(out)@).push(PieceView { x, text: text@, emphasis }),
{
    out.push(Piece { x, text, emphasis });
    proof {
        assert(piece_views(final(out)@) =~= piece_views(old(out)@).push(PieceView { x, text: text@, emphasis }));
    }
}

/// The header row's pieces: program, artist and title, and the key hint.
pub fn header(x: u16, width: u16, artist: Option<&str>, title: &str) -> (r: Vec<Piece>)
    ensures
        piece_views(r@) == spec_header(x, width, match artist {
            Some(a) => Some(a@),
            None => None,
        }, title@),
{
    let ghost av = match artist {
        Some(a) => Some(a@),
        None => None,
    };
    let (px, w) = padded(x, width);
    let mut segments: Vec<String> = Vec::new();
    segments.push(owned("lyrics"));
    match artist {
        Some(a) => segments.push(owned(a)),
        None => {},
    }
    segments.push(owned(title));
    proof {
        assert(string_views(segments@) =~= header_segments(av, title@));
    }
    let hints_width = text_width(HINTS);
    let room = (w as usize).saturating_sub(HINT_GAP).saturating_sub(hints_width);
    let shown = elide(&segments, room);
    let ghost sv = string_views(shown@);
    let mut out: Vec<Piece> = Vec::new();
    let mut cx = px;
    let mut i: usize = 0;
    let sep_width = text_width(SEPARATOR);
    while i < shown.len()
        invariant
            sv == string_views(shown@),
            i <= shown.len(),
            sep_width == display_width(SEPARATOR@),
            piece_views(out@) + header_pieces(sv, i as int, cx, w) == header_pieces(sv, 0, px, w),
        decreases shown.len() - i,
    {
        let ghost before = piece_views(out@);
        let ghost cx0 = cx;
        if i > 0 {
            push_piece(&mut out, cx, owned(SEPARATOR), Emphasis::Quiet);
            cx = cx.saturating_add(cells_exec(sep_width, w));
        }
        let is_title = i == 0 && crate::text::str_eq(shown[i].as_str(), "lyrics");
        let emphasis = if is_title {
            Emphasis::Title
        } else {
            Emphasis::Quiet
        };
        let seg_width = text_width(shown[i].as_str());
        push_piece(&mut out, cx, shown[i].clone(), emphasis);
        cx = cx.saturating_add(cells_exec(seg_width, w));
        proof {
            let tail = header_pieces(sv, i as int + 1, cx, w);
            assert(header_pieces(sv, i as int, cx0, w) == (if i > 0 {
                seq![PieceView { x: cx0, text: SEPARATOR@, emphasis: Emphasis::Quiet }]
            } else {
                seq![]
            }) + seq![PieceView { x: if i > 0 { sat_u16(cx0 + cells(display_width(SEPARATOR@) as int, w)) } else { cx0 }, text: sv[i as int], emphasis }] + tail);
            assert(piece_views(out@) + tail =~= before + header_pieces(sv, i as int, cx0, w));
        }
        i = i + 1;
    }
    proof {
        assert(header_pieces(sv, i as int, cx, w) =~= Seq::<PieceView>::empty());
        assert(piece_views(out@) =~= header_pieces(sv, 0, px, w));
    }
    let full_width = joined_width_of(&shown);
    if full_width.saturating_add(HINT_GAP).saturating_add(hints_width) <= w as usize {
        let right = px.saturating_add(w);
        push_piece(&mut out, right.saturating_sub(cells_exec(hints_width, w)), owned(HINTS), Emphasis::Hint);
    }
    proof {
        assert(piece_views(out@) =~= spec_header(x, width, av, title@));
    }
    out
}

/// How many cells of a rule `width` wide to fill to show how far into the song `elapsed`
/// is: against the last line's time plus five seconds, so the bar reaches full only once the
/// last line has had time to be read. Nothing for a song with no lines.
pub open spec fn spec_progress(width: u16, lines: Seq<SyncedLineView>, elapsed: u128) -> u16 {
    if lines.len() == 0 {
        0
    } else {
        let last = lines.last().at_ms as int;
        let d0 = if last + 5000 > u64::MAX { u64::MAX as int } else { last + 5000 };
        let denominator = if d0 < 1 { 1 } else { d0 };
        let ms = crate::tui::app::ms_of(elapsed) as int;
        let position = if ms < denominator { ms } else { denominator };
        let product = if position * width > u64::MAX { u64::MAX as int } else { position * width };
        let q = product / denominator;
        let filled = if q > u16::MAX { u16::MAX as int } else { q };
        if filled < width { filled as u16 } else { width }
    }
}

pub fn progress(width: u16, lines: &Vec<SyncedLine>, elapsed: u128) -> (r: u16)
    ensures
        r == spec_progress(width, line_views(lines@), elapsed),
        r <= width,
{
    if lines.len() == 0 {
        return 0;
    }
    let last = lines[lines.len() - 1].at_ms;
    let d0 = last.saturating_add(5000);
    let denominator = if d0 < 1 {
        1
    } else {
        d0
    };
    let ms_wide = elapsed / MILLISECOND;
    let ms: u64 = if ms_wide > 0xffff_ffff_ffff_ffff {
        0xffff_ffff_ffff_ffff
    } else {
        ms_wide as u64
    };
    let position = if ms < denominator {
        ms
    } else {
        denominator
    };
    let product = match position.checked_mul(width as u64) {
        Some(p) => p,
        None => 0xffff_ffff_ffff_ffff,
    };
    let q = product / denominator;
    let filled: u16 = if q > 0xffff {
        0xffff
    } else {
        q as u16
    };
    proof {
        assert(line_views(lines@).last() == lines@[lines.len() - 1]@);
    }
    if filled < width {
        filled
    } else {
        width
    }
}

/// How close a row's line is to the one being sung.
#[derive(Debug, Clone, Copy, PartialEq, Eq, Structural)]
pub enum Distance {
    Current,
    Near,
    Far,
}

/// What line `index` shows: `♪` for a break entry (a blank timed line), else its words;
/// nothing for an index past the end.
pub open spec fn spec_display_text(lines: Seq<SyncedLineView>, index: int) -> Seq<char> {
    if 0 <= index < lines.len() {
        if trim(lines[index].text).len() == 0 {
            BREAK_GLYPH@
        } else {
            lines[index].text
        }
    } else {
        seq![]
    }
}

pub fn display_text(lines: &Vec<SyncedLine>, index: usize) -> (r: String)
    ensures
        r@ == spec_display_text(line_views(lines@), index as int),
{
    if index < lines.len() {
        if is_blank(lines[index].text.as_str()) {
            owned(BREAK_GLYPH)
        } else {
            lines[index].text.clone()
        }
    } else {
        String::new()
    }
}

pub open spec fn with_distance(rows: Seq<Seq<char>>, d: Distance) -> Seq<(Seq<char>, Distance)> {
    rows.map_values(|r: Seq<char>| (r, d))
}

pub open spec fn near_or_far(steps: int) -> Distance {
    if steps <= 2 {
        Distance::Near
    } else {
        Distance::Far
    }
}

/// The rows above the current line: earlier lines, nearest last, until `limit` rows are
/// covered, or the first line is reached.
pub open spec fn rows_above(lines: Seq<SyncedLineView>, cursor: int, count: int, steps: int, limit: int, width: usize) -> Seq<(Seq<char>, Distance)>
    decreases cursor,
{
    if count >= limit || cursor <= 0 {
        seq![]
    } else {
        let index = cursor - 1;
        let w = spec_wrap(spec_display_text(lines, index), width);
        rows_above(lines, index, sat_add(count, w.len() as int), steps + 1, limit, width) + with_distance(w, near_or_far(steps + 1))
    }
}

/// The rows below the current line: later lines, nearest first, until `limit` rows are
/// covered, or the last line is reached.
pub open spec fn rows_below(lines: Seq<SyncedLineView>, next: int, count: int, steps: int, limit: int, width: usize) -> Seq<(Seq<char>, Distance)>
    decreases lines.len() - next,
{
    if count >= limit || next >= lines.len() || next < 0 {
        seq![]
    } else {
        let w = spec_wrap(spec_display_text(lines, next), width);
        with_distance(w, near_or_far(steps + 1)) + rows_below(lines, next + 1, sat_add(count, w.len() as int), steps + 1, limit, width)
    }
}

/// The rows of the current line: `♪` and the time left in a break worth counting down, a bare
/// `♪` before the first line, else the line wrapped.
pub open spec fn current_rows(lines: Seq<SyncedLineView>, current: Option<usize>, break_left: Option<u128>, width: usize) -> Seq<Seq<char>> {
    match break_left {
        Some(left) => seq![BREAK_GLYPH@ + seq![' '] + spec_format_remaining(left)],
        None => match current {
            None => seq![BREAK_GLYPH@],
            Some(i) => spec_wrap(spec_display_text(lines, i as int), width),
        },
    }
}

/// What the content area shows.
pub enum Content {
    /// An area with no room.
    Nothing,
    /// The countdown, as rows placed at their own heights.
    Countdown(Vec<(u16, String)>),
    /// Lyric rows drawn downward from `top`, centered, each with its emphasis.
    Lines { top: u16, rows: Vec<(String, Distance)> },
}

pub open spec fn row_views(v: Seq<(String, Distance)>) -> Seq<(Seq<char>, Distance)> {
    v.map_values(|p: (String, Distance)| (p.0@, p.1))
}

pub open spec fn placed_views(v: Seq<(u16, String)>) -> Seq<(u16, Seq<char>)> {
    v.map_values(|p: (u16, String)| (p.0, p.1@))
}

pub enum ContentView {
    Nothing,
    Countdown(Seq<(u16, Seq<char>)>),
    Lines { top: u16, rows: Seq<(Seq<char>, Distance)> },
}

impl View for Content {
    type V = ContentView;

    open spec fn view(&self) -> ContentView {
        match self {
            Content::Nothing => ContentView::Nothing,
            Content::Countdown(v) => ContentView::Countdown(placed_views(v@)),
            Content::Lines { top, rows } => ContentView::Lines { top: *top, rows: row_views(rows@) },
        }
    }
}

pub open spec fn countdown_label(step: u8) -> Seq<char> {
    if step == 0 {
        "3"@
    } else if step == 1 {
        "2"@
    } else if step == 2 {
        "1"@
    } else {
        "PLAY"@
    }
}

pub open spec fn placed_from(rows: Seq<Seq<char>>, top: u16) -> Seq<(u16, Seq<char>)> {
    Seq::new(rows.len(), |k: int| (sat_u16(top + k), rows[k]))
}

/// The countdown in an area: `3`, `2`, `1`, `PLAY` in banner letters vertically centered,
/// or the plain label on the middle row when the banner does not fit.
pub open spec fn spec_countdown(y: u16, width: u16, height: u16, step: u8) -> Seq<(u16, Seq<char>)> {
    let label = countdown_label(step);
    match bigtext::spec_render(label) {
        Some(rows) if 5 <= height && cells(display_width(rows[0]) as int, u16::MAX) <= width => placed_from(
            rows,
            sat_u16(y + (height - 5) / 2),
        ),
        _ => seq![(sat_u16(y + height / 2), label)],
    }
}

fn countdown(y: u16, width: u16, height: u16, step: u8) -> (r: Vec<(u16, String)>)
    ensures
        placed_views(r@) == spec_countdown(y, width, height, step),
{
    let label: &str = if step == 0 {
        "3"
    } else if step == 1 {
        "2"
    } else if step == 2 {
        "1"
    } else {
        "PLAY"
    };
    let mut out: Vec<(u16, String)> = Vec::new();
    match bigtext::render(label) {
        Some(rows) => {
            let block_width = text_width(rows[0].as_str());
            if 5 <= height && cells_exec(block_width, 0xffff) <= width {
                let top = y.saturating_add((height - 5) / 2);
                let ghost rv = seq![rows[0]@, rows[1]@, rows[2]@, rows[3]@, rows[4]@];
                let mut k: usize = 0;
                while k < 5
                    invariant
                        k <= 5,
                        rv == seq![rows[0]@, rows[1]@, rows[2]@, rows[3]@, rows[4]@],
                        placed_views(out@) == placed_from(rv, top).take(k as int),
                    decreases 5 - k,
                {
                    let ghost before = placed_views(out@);
                    out.push((top.saturating_add(k as u16), rows[k].clone()));
                    proof {
                        assert(placed_views(out@) =~= before.push((sat_u16(top + k), rv[k as int])));
                        assert(placed_views(out@) =~= placed_from(rv, top).take(k as int + 1));
                    }
                    k = k + 1;
                }
                proof {
                    assert(placed_from(rv, top).take(5) =~= placed_from(rv, top));
                }
                return out;
            }
        },
        None => {},
    }
    out.push((y.saturating_add(height / 2), owned(label)));
    proof {
        assert(placed_views(out@) =~= seq![(sat_u16(y + height / 2), label@)]);
    }
    out
}

/// The content area at row `y`, `width` by `height`: nothing without room, the countdown
/// while counting in, else the current line's rows with its middle on the area's center row,
/// earlier lines above it and later ones below, reaching a little past each edge.
pub open spec fn spec_content(
    y: u16,
    width: u16,
    height: u16,
    mode: Mode,
    lines: Seq<SyncedLineView>,
    current: Option<usize>,
    break_left: Option<u128>,
) -> ContentView {
    if height == 0 || width == 0 {
        ContentView::Nothing
    } else if mode is Countdown {
        ContentView::Countdown(spec_countdown(y, width, height, mode->step))
    } else {
        let w = sat_sub(width as int, 2 * CONTENT_PAD as int) as usize;
        let half = (height / 2) as int;
        let cw = current_rows(lines, current, break_left, w);
        let mid = sat_sub(cw.len() as int, 1) / 2;
        let limit = sat_add(half, SLACK_ROWS as int);
        let above = match current {
            Some(i) => rows_above(lines, i as int, mid, 0, limit, w),
            None => seq![],
        };
        let next: int = match current {
            Some(i) => sat_add(i as int, 1),
            None => 0,
        };
        let below = rows_below(lines, next, sat_sub(sat_sub(cw.len() as int, mid), 1), 0, limit, w);
        let center = sat_u16(y + cells(half, height));
        let top = sat_u16(sat_u16(center - cells(above.len() as int, u16::MAX)) - cells(mid, 0));
        ContentView::Lines { top, rows: above + with_distance(cw, Distance::Current) + below }
    }
}

fn distanced(rows: Vec<String>, d: Distance) -> (r: Vec<(String, Distance)>)
    ensures
        row_views(r@) == with_distance(string_views(rows@), d),
{
    let mut out: Vec<(String, Distance)> = Vec::new();
    let mut i: usize = 0;
    while i < rows.len()
        invariant
            i <= rows.len(),
            row_views(out@) == with_distance(string_views(rows@), d).take(i as int),
        decreases rows.len() - i,
    {
        let ghost before = row_views(out@);
        out.push((rows[i].clone(), d));
        proof {
            assert(row_views(out@) =~= before.push((rows@[i as int]@, d)));
            assert(row_views(out@) =~= with_distance(string_views(rows@), d).take(i as int + 1));
        }
        i = i + 1;
    }
    proof {
        assert(with_distance(string_views(rows@), d).take(rows.len() as int) =~= with_distance(string_views(rows@), d));
    }
    out
}

fn append_rows(out: &mut Vec<(String, Distance)>, more: &Vec<(String, Distance)>)
    ensures
        row_views(final(out)@) == row_views(old(out)@) + row_views(more@),
{
    let ghost start = row_views(out@);
    let mut i: usize = 0;
    while i < more.len()
        invariant
            i <= more.len(),
            row_views(out@) == start + row_views(more@).take(i as int),
        decreases more.len() - i,
    {
        let ghost before = row_views(out@);
        out.push((more[i].0.clone(), more[i].1));
        proof {
            assert(row_views(out@) =~= before.push((more@[i as int].0@, more@[i as int].1)));
            assert(row_views(out@) =~= start + row_views(more@).take(i as int + 1));
        }
        i = i + 1;
    }
    proof {
        assert(row_views(more@).take(more.len() as int) =~= row_views(more@));
    }
}

fn current_rows_of(lines: &Vec<SyncedLine>, current: Option<usize>, break_left: Option<u128>, width: usize) -> (r: Vec<String>)
    ensures
        string_views(r@) == current_rows(line_views(lines@), current, break_left, width),
{
    match break_left {
        Some(left) => {
            let mut text = owned(BREAK_GLYPH);
            push_char(&mut text, ' ');
            let t = format_remaining(left);
            push_str(&mut text, t.as_str());
            let ghost tv = text@;
            assert(tv =~= BREAK_GLYPH@ + seq![' '] + spec_format_remaining(left));
            let mut out: Vec<String> = Vec::new();
            out.push(text);
            proof {
                assert(out@[0]@ == tv);
                assert(string_views(out@) =~= current_rows(line_views(lines@), current, break_left, width));
            }
            out
        },
        None => match current {
            None => {
                let mut out: Vec<String> = Vec::new();
                out.push(owned(BREAK_GLYPH));
                proof {
                    assert(string_views(out@) =~= current_rows(line_views(lines@), current, break_left, width));
                }
                out
            },
            Some(i) => {
                let t = display_text(lines, i);
                wrap(t.as_str(), width)
            },
        },
    }
}

/// The content area's rows for one frame.
pub fn content(
    y: u16,
    width: u16,
    height: u16,
    mode: Mode,
    lines: &Vec<SyncedLine>,
    current: Option<usize>,
    break_left: Option<u128>,
) -> (r: Content)
    ensures
        r@ == spec_content(y, width, height, mode, line_views(lines@), current, break_left),
{
    let ghost ls = line_views(lines@);
    if height == 0 || width == 0 {
        return Content::Nothing;
    }
    if let Mode::Countdown { step } = mode {
        return Content::Countdown(countdown(y, width, height, step));
    }
    let w = width.saturating_sub(2 * CONTENT_PAD) as usize;
    let half = (height / 2) as usize;
    let current_wrapped = current_rows_of(lines, current, break_left, w);
    let cw_len = current_wrapped.len();
    let mid = cw_len.saturating_sub(1) / 2;
    let limit = half.saturating_add(SLACK_ROWS);
    // Above: earlier lines, walked upward until the rows reach past the top.
    let mut above: Vec<(String, Distance)> = Vec::new();
    match current {
        Some(i0) => {
            let mut count = mid;
            let mut cursor = i0;
            let mut steps: usize = 0;
            while count < limit && cursor > 0
                invariant
                    ls == line_views(lines@),
                    cursor <= i0,
                    steps <= i0 - cursor,
                    rows_above(ls, i0 as int, mid as int, 0, limit as int, w) == rows_above(ls, cursor as int, count as int, steps as int, limit as int, w) + row_views(above@),
                decreases cursor,
            {
                let index = cursor - 1;
                let steps_next = steps + 1;
                let d = if steps_next <= 2 {
                    Distance::Near
                } else {
                    Distance::Far
                };
                let t = display_text(lines, index);
                let wrapped = wrap(t.as_str(), w);
                let n = wrapped.len();
                let mut block = distanced(wrapped, d);
                append_rows(&mut block, &above);
                above = block;
                count = count.saturating_add(n);
                cursor = index;
                steps = steps_next;
            }
            proof {
                assert(rows_above(ls, cursor as int, count as int, steps as int, limit as int, w) =~= Seq::<(Seq<char>, Distance)>::empty());
                assert(row_views(above@) =~= rows_above(ls, i0 as int, mid as int, 0, limit as int, w));
            }
        },
        None => {
            proof {
                assert(row_views(above@) =~= Seq::<(Seq<char>, Distance)>::empty());
            }
        },
    }
    // Below: later lines, walked downward until the rows reach past the bottom.
    let mut below: Vec<(String, Distance)> = Vec::new();
    let next0: usize = match current {
        Some(i) => i.saturating_add(1),
        None => 0,
    };
    let start_count = cw_len.saturating_sub(mid).saturating_sub(1);
    let mut count = start_count;
    let mut next = next0;
    let mut steps: usize = 0;
    while count < limit && next < lines.len()
        invariant
            ls == line_views(lines@),
            next0 <= next,
            steps <= next - next0,
            rows_below(ls, next0 as int, start_count as int, 0, limit as int, w) == row_views(below@) + rows_below(ls, next as int, count as int, steps as int, limit as int, w),
        decreases lines.len() - next,
    {
        let steps_next = steps + 1;
        let d = if steps_next <= 2 {
            Distance::Near
        } else {
            Distance::Far
        };
        let t = display_text(lines, next);
        let wrapped = wrap(t.as_str(), w);
        let n = wrapped.len();
        let block = distanced(wrapped, d);
        append_rows(&mut below, &block);
        count = count.saturating_add(n);
        next = next + 1;
        steps = steps_next;
    }
    proof {
        assert(rows_below(ls, next as int, count as int, steps as int, limit as int, w) =~= Seq::<(Seq<char>, Distance)>::empty());
        assert(row_views(below@) =~= rows_below(ls, next0 as int, start_count as int, 0, limit as int, w));
    }
    let center = y.saturating_add(cells_exec(half, height));
    let above_len = cells_exec(above.len(), 0xffff);
    let mid16 = cells_exec(mid, 0);
    let top = center.saturating_sub(above_len).saturating_sub(mid16);
    let mut rows = above;
    let cur = distanced(current_wrapped, Distance::Current);
    append_rows(&mut rows, &cur);
    append_rows(&mut rows, &below);
    Content::Lines { top, rows }
}

/// The status bar's text when no notice shows: play state, clock and line position, or that
/// the countdown is running.
pub open spec fn status_text(mode: Mode, playing: bool, elapsed: u128, current: Option<usize>, total: usize) -> Seq<char> {
    if mode is Countdown {
        "counting down…"@
    } else {
        let position: int = match current {
            Some(i) => sat_add(i as int, 1),
            None => 0,
        };
        let symbol = if mode == Mode::Playing && playing {
            "▶"@
        } else {
            "❚❚"@
        };
        symbol + seq![' '] + spec_format_clock(elapsed) + SEPARATOR@ + "line "@ + decimal(position as nat) + seq!['/'] + decimal(total as nat)
    }
}

/// The status row at `x`, `width` wide: the notice if one shows, else the status text; the
/// sync keys at the right edge when they fit whole.
pub open spec fn spec_statusbar(
    x: u16,
    width: u16,
    notice: Option<Seq<char>>,
    mode: Mode,
    playing: bool,
    elapsed: u128,
    current: Option<usize>,
    total: usize,
) -> Seq<PieceView> {
    let (px, w) = spec_padded(x, width);
    let (text, emphasis) = match notice {
        Some(n) => (n, Emphasis::Notice),
        None => (status_text(mode, playing, elapsed, current, total), Emphasis::Quiet),
    };
    let hints_w = display_width(SYNC_HINTS@) as int;
    seq![PieceView { x: px, text, emphasis }] + if sat_add(sat_add(display_width(text) as int, HINT_GAP as int), hints_w) <= w {
        seq![PieceView { x: sat_u16(sat_u16(px + w) - cells(hints_w, w)), text: SYNC_HINTS@, emphasis: Emphasis::Hint }]
    } else {
        seq![]
    }
}

/// The status row's pieces.
pub fn statusbar(
    x: u16,
    width: u16,
    notice: Option<&str>,
    mode: Mode,
    playing: bool,
    elapsed: u128,
    current: Option<usize>,
    total: usize,
) -> (r: Vec<Piece>)
    ensures
        piece_views(r@) == spec_statusbar(x, width, match notice {
            Some(n) => Some(n@),
            None => None,
        }, mode, playing, elapsed, current, total),
{
    let (px, w) = padded(x, width);
    let (text, emphasis) = match notice {
        Some(n) => (owned(n), Emphasis::Notice),
        None => {
            let t = if let Mode::Countdown { .. } = mode {
                owned("counting down…")
            } else {
                let position: usize = match current {
                    Some(i) => i.saturating_add(1),
                    None => 0,
                };
                let mut t = if mode == Mode::Playing && playing {
                    owned("▶")
                } else {
                    owned("❚❚")
                };
                push_char(&mut t, ' ');
                let clock = format_clock(elapsed);
                push_str(&mut t, clock.as_str());
                push_str(&mut t, SEPARATOR);
                push_str(&mut t, "line ");
                crate::text::push_decimal(&mut t, position as u64);
                push_char(&mut t, '/');
                crate::text::push_decimal(&mut t, total as u64);
                t
            };
            proof {
                assert(t@ =~= status_text(mode, playing, elapsed, current, total));
            }
            (t, Emphasis::Quiet)
        },
    };
    let text_w = text_width(text.as_str());
    let hints_width = text_width(SYNC_HINTS);
    let mut out: Vec<Piece> = Vec::new();
    push_piece(&mut out, px, text, emphasis);
    if text_w.saturating_add(HINT_GAP).saturating_add(hints_width) <= w as usize {
        let right = px.saturating_add(w);
        push_piece(&mut out, right.saturating_sub(cells_exec(hints_width, w)), owned(SYNC_HINTS), Emphasis::Hint);
    }
    proof {
        assert(piece_views(out@) =~= spec_statusbar(x, width, match notice {
            Some(n) => Some(n@),
            None => None,
        }, mode, playing, elapsed, current, total));
    }
    out
}

/// The current line's middle row sits on the content area's center row: the rows above it
/// are the earlier lines, and when they and the current line's upper half fit above the
/// center, the row drawn at the center is the current line's middle one.
pub proof fn lemma_current_line_is_centered(
    y: u16,
    width: u16,
    height: u16,
    mode: Mode,
    lines: Seq<SyncedLineView>,
    current: Option<usize>,
    break_left: Option<u128>,
)
    requires
        height > 0,
        width > 0,
        !(mode is Countdown),
        y + height / 2 <= u16::MAX,
    ensures
        ({
            let w = sat_sub(width as int, 2 * CONTENT_PAD as int) as usize;
            let cw = current_rows(lines, current, break_left, w);
            let mid = sat_sub(cw.len() as int, 1) / 2;
            match spec_content(y, width, height, mode, lines, current, break_left) {
                ContentView::Lines { top, rows } => {
                    let above = match current {
                        Some(i) => rows_above(lines, i as int, mid, 0, sat_add((height / 2) as int, SLACK_ROWS as int), w).len() as int,
                        None => 0,
                    };
                    above + mid <= y + height / 2 ==> top + above + mid == y + height / 2
                },
                _ => false,
            }
        }),
{
}

/// Before the first line nothing has been sung, so nothing is drawn above the current row.
pub proof fn lemma_nothing_above_before_the_first_line(
    y: u16,
    width: u16,
    height: u16,
    mode: Mode,
    lines: Seq<SyncedLineView>,
    break_left: Option<u128>,
)
    requires
        height > 0,
        width > 0,
        !(mode is Countdown),
    ensures
        match spec_content(y, width, height, mode, lines, None, break_left) {
            ContentView::Lines { top, rows } => rows.len() >= 1 && rows[0].1 == Distance::Current,
            _ => false,
        },
{
    let w = sat_sub(width as int, 2 * CONTENT_PAD as int) as usize;
    let cw = current_rows(lines, None, break_left, w);
    assert(cw.len() == 1);
    let half = (height / 2) as int;
    let mid = sat_sub(cw.len() as int, 1) / 2;
    let below = rows_below(lines, 0, sat_sub(sat_sub(cw.len() as int, mid), 1), 0, sat_add(half, SLACK_ROWS as int), w);
    let rows = Seq::<(Seq<char>, Distance)>::empty() + with_distance(cw, Distance::Current) + below;
    assert(rows[0] == with_distance(cw, Distance::Current)[0]);
}

} // verus!
