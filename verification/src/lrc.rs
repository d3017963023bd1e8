//! LRC parsing: the checks `lyrics lint` runs and the timeline `lyrics tui` plays.
use std::collections::HashMap;

use vstd::prelude::*;
use vstd::string::StrSliceExecFns;

use crate::text::{
    all_digits, all_digits_in, chars_of, digits_in, digits_value, find_char, find_from, is_alpha,
    is_ascii_alphabetic, is_ascii_digit, is_digit, lemma_find_from, lemma_find_shift, parse_u32,
    skip_ws, trim, trim_range, trim_start, pow10, lemma_digits_value_bound, lemma_pow10_mono,
    decimal, eq_ignore_case, line_ranges, lines, push_decimal, push_range, range_eq_ignore_case,
    push_str, ranges_match, string_of_range,
};

verus! {



// ---------------------------------------------------------------------------------------
// Types
// ---------------------------------------------------------------------------------------

#[derive(Debug, Clone, Copy, PartialEq, Eq, Structural)]
pub enum Severity {
    Error,
    Warning,
}

impl Severity {
    pub open spec fn spec_label(self) -> Seq<char> {
        match self {
            Severity::Error => "error"@,
            Severity::Warning => "warning"@,
        }
    }

    pub fn label(self) -> (r: &'static str)
        ensures
            r@ == self.spec_label(),
    {
        match self {
            Severity::Error => "error",
            Severity::Warning => "warning",
        }
    }
}

/// One finding of [`lint`]: a 1-based line number (0 for the whole file), a severity and a
/// human-readable message.
#[derive(Debug, Clone)]
pub struct Diagnostic {
    pub line: usize,
    pub severity: Severity,
    pub message: String,
}

pub struct DiagnosticView {
    pub line: usize,
    pub severity: Severity,
    pub message: Seq<char>,
}

impl View for Diagnostic {
    type V = DiagnosticView;

    open spec fn view(&self) -> DiagnosticView {
        DiagnosticView { line: self.line, severity: self.severity, message: self.message@ }
    }
}

impl Diagnostic {
    fn error(line: usize, message: String) -> (r: Self)
        ensures
            r@ == (DiagnosticView { line, severity: Severity::Error, message: message@ }),
    {
        Diagnostic { line, severity: Severity::Error, message }
    }

    fn warning(line: usize, message: String) -> (r: Self)
        ensures
            r@ == (DiagnosticView { line, severity: Severity::Warning, message: message@ }),
    {
        Diagnostic { line, severity: Severity::Warning, message }
    }
}

/// A `[mm:ss.xx]` tag as written: the digit counts are kept so `lint` can flag
/// non-canonical forms.
#[derive(Debug, Clone, Copy, PartialEq, Eq, Structural)]
pub struct Timestamp {
    pub mins: u32,
    pub secs: u32,
    pub frac: u32,
    pub frac_digits: u8,
    pub min_digits: u8,
}

/// The fraction in milliseconds, scaled by how many digits it was written with.
pub open spec fn frac_millis(ts: Timestamp) -> Option<nat> {
    let f = ts.frac as nat;
    if ts.frac_digits == 0 {
        Some(0)
    } else if ts.frac_digits == 1 {
        if f * 100 <= u32::MAX {
            Some(f * 100)
        } else {
            None
        }
    } else if ts.frac_digits == 2 {
        if f * 10 <= u32::MAX {
            Some(f * 10)
        } else {
            None
        }
    } else if ts.frac_digits == 3 {
        Some(f)
    } else if ts.frac_digits == 4 {
        Some(f / 10)
    } else if ts.frac_digits == 5 {
        Some(f / 100)
    } else {
        Some(f / 1000)
    }
}

/// The timestamp in milliseconds, when it fits in a `u32`.
pub open spec fn timestamp_millis(ts: Timestamp) -> Option<u32> {
    match frac_millis(ts) {
        Some(f) => {
            let total = ts.mins * 60000 + ts.secs * 1000 + f;
            if total <= u32::MAX {
                Some(total as u32)
            } else {
                None
            }
        },
        None => None,
    }
}

impl Timestamp {
    pub fn millis(&self) -> (r: Option<u32>)
        ensures
            r == timestamp_millis(*self),
    {
        let frac_ms: u32 = if self.frac_digits == 0 {
            0
        } else if self.frac_digits == 1 {
            match self.frac.checked_mul(100) {
                Some(v) => v,
                None => return None,
            }
        } else if self.frac_digits == 2 {
            match self.frac.checked_mul(10) {
                Some(v) => v,
                None => return None,
            }
        } else if self.frac_digits == 3 {
            self.frac
        } else if self.frac_digits == 4 {
            self.frac / 10
        } else if self.frac_digits == 5 {
            self.frac / 100
        } else {
            self.frac / 1000
        };
        let m = match self.mins.checked_mul(60000) {
            Some(v) => v,
            None => return None,
        };
        let s = match self.secs.checked_mul(1000) {
            Some(v) => v,
            None => return None,
        };
        let ms = match m.checked_add(s) {
            Some(v) => v,
            None => return None,
        };
        ms.checked_add(frac_ms)
    }
}

/// The shape of one line of an LRC file.
#[derive(Debug, Clone, PartialEq, Eq)]
pub enum Line<'a> {
    Blank,
    Comment(&'a str),
    Metadata { key: &'a str, value: &'a str },
    Timed { stamps: Vec<Timestamp>, text: &'a str },
    Untimed(&'a str),
    Malformed(&'a str),
}

pub enum LineView {
    Blank,
    Comment(Seq<char>),
    Metadata { key: Seq<char>, value: Seq<char> },
    Timed { stamps: Seq<Timestamp>, text: Seq<char> },
    Untimed(Seq<char>),
    Malformed(Seq<char>),
}

impl<'a> View for Line<'a> {
    type V = LineView;

    open spec fn view(&self) -> LineView {
        match self {
            Line::Blank => LineView::Blank,
            Line::Comment(c) => LineView::Comment(c@),
            Line::Metadata { key, value } => LineView::Metadata { key: key@, value: value@ },
            Line::Timed { stamps, text } => LineView::Timed { stamps: stamps@, text: text@ },
            Line::Untimed(t) => LineView::Untimed(t@),
            Line::Malformed(t) => LineView::Malformed(t@),
        }
    }
}

// ---------------------------------------------------------------------------------------
// The grammar, as spec functions
// ---------------------------------------------------------------------------------------

pub open spec fn all_alpha(s: Seq<char>) -> bool {
    forall|i: int| 0 <= i < s.len() ==> is_alpha(#[trigger] s[i])
}

/// `[key:value]`: a purely alphabetic key before the first colon, both sides trimmed.
pub open spec fn parse_metadata(tag: Seq<char>) -> Option<(Seq<char>, Seq<char>)> {
    let colon = find_from(tag, 0, ':');
    if colon >= tag.len() {
        None
    } else {
        let key = trim(tag.take(colon));
        if key.len() == 0 || !all_alpha(key) {
            None
        } else {
            Some((key, trim(tag.skip(colon + 1))))
        }
    }
}

/// `[mm:ss]` or `[mm:ss.f]`, with one to six fraction digits.
pub open spec fn parse_timestamp(tag: Seq<char>) -> Option<Timestamp> {
    let colon = find_from(tag, 0, ':');
    let mins_str = tag.take(colon);
    let rest = tag.skip(colon + 1);
    let dot = find_from(rest, 0, '.');
    let secs_str = rest.take(dot);
    let frac_str = rest.skip(dot + 1);
    let has_frac = dot < rest.len();
    if colon >= tag.len() {
        None
    } else if mins_str.len() == 0 || !all_digits(mins_str) {
        None
    } else if secs_str.len() == 0 || !all_digits(secs_str) {
        None
    } else if has_frac && (frac_str.len() == 0 || frac_str.len() > 6 || !all_digits(frac_str)) {
        None
    } else if parse_u32(mins_str) is None || parse_u32(secs_str) is None || mins_str.len() > 255 {
        None
    } else {
        Some(
            Timestamp {
                mins: parse_u32(mins_str)->0,
                secs: parse_u32(secs_str)->0,
                frac: if has_frac {
                    digits_value(frac_str) as u32
                } else {
                    0
                },
                frac_digits: if has_frac {
                    frac_str.len() as u8
                } else {
                    0
                },
                min_digits: mins_str.len() as u8,
            },
        )
    }
}

/// Read the run of `[...]` tags starting at `pos` of the trimmed line `t`.
pub open spec fn parse_tags(t: Seq<char>, pos: int, stamps: Seq<Timestamp>) -> LineView
    decreases t.len() + 1 - pos,
    via parse_tags_decreases
{
    if 0 <= pos < t.len() && t[pos] == '[' {
        let close = find_from(t, pos + 1, ']');
        if close >= t.len() {
            LineView::Malformed(t)
        } else {
            let tag = t.subrange(pos + 1, close);
            match parse_timestamp(tag) {
                Some(ts) => parse_tags(t, close + 1, stamps.push(ts)),
                None => match parse_metadata(tag) {
                    Some(kv) => if stamps.len() == 0 {
                        LineView::Metadata { key: kv.0, value: kv.1 }
                    } else {
                        LineView::Malformed(t)
                    },
                    None => LineView::Malformed(t),
                },
            }
        }
    } else if 0 <= pos <= t.len() {
        LineView::Timed { stamps, text: t.subrange(pos, t.len() as int) }
    } else {
        LineView::Timed { stamps, text: seq![] }
    }
}

#[via_fn]
proof fn parse_tags_decreases(t: Seq<char>, pos: int, stamps: Seq<Timestamp>) {
    if 0 <= pos < t.len() {
        lemma_find_from(t, pos + 1, ']');
    }
}

/// Classify an already-trimmed line.
pub open spec fn classify_trimmed(t: Seq<char>) -> LineView {
    if t.len() == 0 {
        LineView::Blank
    } else if t[0] == '#' {
        LineView::Comment(trim_start(t.drop_first()))
    } else if t[0] != '[' {
        LineView::Untimed(t)
    } else {
        parse_tags(t, 0, seq![])
    }
}

/// What [`parse_line`] makes of one line of text.
pub open spec fn spec_parse_line(line: Seq<char>) -> LineView {
    classify_trimmed(trim(line))
}

proof fn lemma_parse_tags_kind(t: Seq<char>, pos: int, stamps: Seq<Timestamp>)
    ensures
        !(parse_tags(t, pos, stamps) is Blank),
        !(parse_tags(t, pos, stamps) is Comment),
        !(parse_tags(t, pos, stamps) is Untimed),
    decreases t.len() + 1 - pos,
{
    if 0 <= pos < t.len() && t[pos] == '[' {
        lemma_find_from(t, pos + 1, ']');
        let close = find_from(t, pos + 1, ']');
        if close < t.len() {
            match parse_timestamp(t.subrange(pos + 1, close)) {
                Some(ts) => lemma_parse_tags_kind(t, close + 1, stamps.push(ts)),
                None => {},
            }
        }
    }
}

/// A line is classified by its trimmed text alone: surrounding whitespace changes nothing; a
/// line is blank exactly when nothing is left of it, a comment exactly when what is left
/// starts with `#`, and plain text exactly when it starts with neither `#` nor `[`.
pub proof fn lemma_parse_line_reads_the_trimmed_line(line: Seq<char>)
    ensures
        spec_parse_line(line) == spec_parse_line(trim(line)),
        spec_parse_line(line) is Blank <==> trim(line).len() == 0,
        spec_parse_line(line) is Comment <==> trim(line).len() > 0 && trim(line)[0] == '#',
        spec_parse_line(line) == LineView::Untimed(trim(line)) <==> trim(line).len() > 0 && trim(line)[0] != '#'
            && trim(line)[0] != '[',
{
    crate::text::lemma_trim_trimmed(line);
    lemma_parse_tags_kind(trim(line), 0, seq![]);
}

// ---------------------------------------------------------------------------------------
// The parser
// ---------------------------------------------------------------------------------------

/// Where each part of a classified line sits inside the trimmed buffer.
pub enum Shape {
    Blank,
    Comment(usize, usize),
    Metadata(usize, usize, usize, usize),
    Timed(Vec<Timestamp>, usize),
    Untimed,
    Malformed,
}

pub open spec fn shape_fits(n: nat, sh: Shape) -> bool {
    match sh {
        Shape::Comment(a, b) => a <= b <= n,
        Shape::Metadata(ka, kb, va, vb) => ka <= kb <= n && va <= vb <= n,
        Shape::Timed(_, p) => p <= n,
        _ => true,
    }
}

pub open spec fn shape_view(t: Seq<char>, sh: Shape) -> LineView {
    match sh {
        Shape::Blank => LineView::Blank,
        Shape::Comment(a, b) => LineView::Comment(t.subrange(a as int, b as int)),
        Shape::Metadata(ka, kb, va, vb) => LineView::Metadata {
            key: t.subrange(ka as int, kb as int),
            value: t.subrange(va as int, vb as int),
        },
        Shape::Timed(stamps, p) => LineView::Timed {
            stamps: stamps@,
            text: t.subrange(p as int, t.len() as int),
        },
        Shape::Untimed => LineView::Untimed(t),
        Shape::Malformed => LineView::Malformed(t),
    }
}


fn all_alpha_in(s: &[char], lo: usize, hi: usize) -> (r: bool)
    requires
        lo <= hi <= s@.len(),
    ensures
        r == all_alpha(s@.subrange(lo as int, hi as int)),
{
    let mut i = lo;
    while i < hi
        invariant
            lo <= i <= hi <= s@.len(),
            forall|k: int| lo <= k < i ==> is_alpha(#[trigger] s@[k]),
        decreases hi - i,
    {
        if !is_ascii_alphabetic(s[i]) {
            assert(s@.subrange(lo as int, hi as int)[i - lo] == s@[i as int]);
            return false;
        }
        i = i + 1;
    }
    assert forall|k: int| 0 <= k < hi - lo implies is_alpha(
        #[trigger] s@.subrange(lo as int, hi as int)[k],
    ) by {
        assert(s@.subrange(lo as int, hi as int)[k] == s@[lo + k]);
    }
    true
}

/// `parse_metadata` of `s[lo..hi]`: the key and value as ranges of `s`.
fn metadata_in(s: &[char], lo: usize, hi: usize) -> (r: Option<(usize, usize, usize, usize)>)
    requires
        lo <= hi <= s@.len(),
    ensures
        match r {
            Some(q) => {
                &&& lo <= q.0 <= q.1 <= hi
                &&& lo <= q.2 <= q.3 <= hi
                &&& parse_metadata(s@.subrange(lo as int, hi as int)) == Some(
                    (s@.subrange(q.0 as int, q.1 as int), s@.subrange(q.2 as int, q.3 as int)),
                )
            },
            None => parse_metadata(s@.subrange(lo as int, hi as int)) is None,
        },
{
    let ghost tag = s@.subrange(lo as int, hi as int);
    let colon = find_char(s, lo, hi, ':');
    if colon >= hi {
        return None;
    }
    proof {
        assert(tag.take(colon - lo) =~= s@.subrange(lo as int, colon as int));
        assert(tag.skip(colon - lo + 1) =~= s@.subrange(colon + 1, hi as int));
    }
    let (ka, kb) = trim_range(s, lo, colon);
    if ka == kb || !all_alpha_in(s, ka, kb) {
        return None;
    }
    let (va, vb) = trim_range(s, colon + 1, hi);
    Some((ka, kb, va, vb))
}

/// `parse_timestamp` of `s[lo..hi]`.
fn timestamp_in(s: &[char], lo: usize, hi: usize) -> (r: Option<Timestamp>)
    requires
        lo <= hi <= s@.len(),
    ensures
        r == parse_timestamp(s@.subrange(lo as int, hi as int)),
{
    let ghost tag = s@.subrange(lo as int, hi as int);
    let colon = find_char(s, lo, hi, ':');
    if colon >= hi {
        return None;
    }
    let ghost rest = tag.skip(colon - lo + 1);
    proof {
        assert(tag.take(colon - lo) =~= s@.subrange(lo as int, colon as int));
        assert(rest =~= s@.subrange(colon + 1, hi as int));
    }
    if colon == lo || !all_digits_in(s, lo, colon) {
        return None;
    }
    let dot = find_char(s, colon + 1, hi, '.');
    let has_frac = dot < hi;
    proof {
        assert(rest.take(dot - colon - 1) =~= s@.subrange(colon + 1, dot as int));
        if has_frac {
            assert(rest.skip(dot - colon) =~= s@.subrange(dot + 1, hi as int));
        }
    }
    if dot == colon + 1 || !all_digits_in(s, colon + 1, dot) {
        return None;
    }
    if has_frac {
        if dot + 1 == hi || hi - (dot + 1) > 6 || !all_digits_in(s, dot + 1, hi) {
            return None;
        }
    }
    let mins = match digits_in(s, lo, colon, 0xffff_ffff) {
        Some(v) => v as u32,
        None => return None,
    };
    let secs = match digits_in(s, colon + 1, dot, 0xffff_ffff) {
        Some(v) => v as u32,
        None => return None,
    };
    if colon - lo > 255 {
        return None;
    }
    let (frac, frac_digits): (u32, u8) = if has_frac {
        match digits_in(s, dot + 1, hi, 0xffff_ffff) {
            Some(v) => (v as u32, (hi - (dot + 1)) as u8),
            None => {
                proof {
                    lemma_six_digits_fit(s@.subrange(dot + 1, hi as int));
                }
                return None;
            },
        }
    } else {
        (0, 0)
    };
    Some(Timestamp { mins, secs, frac, frac_digits, min_digits: (colon - lo) as u8 })
}

/// At most six digits never exceed 999_999.
proof fn lemma_six_digits_fit(s: Seq<char>)
    requires
        s.len() <= 6,
        all_digits(s),
    ensures
        digits_value(s) <= 999_999,
{
    lemma_digits_value_bound(s);
    lemma_pow10_mono(s.len(), 6);
    reveal_with_fuel(pow10, 7);
}

/// Classify the trimmed line `t`.
fn classify(t: &[char]) -> (sh: Shape)
    ensures
        shape_fits(t@.len(), sh),
        shape_view(t@, sh) == classify_trimmed(t@),
{
    let n = t.len();
    if n == 0 {
        return Shape::Blank;
    }
    if t[0] == '#' {
        let a = skip_ws(t, 1, n);
        assert(t@.drop_first() =~= t@.subrange(1, n as int));
        return Shape::Comment(a, n);
    }
    if t[0] != '[' {
        return Shape::Untimed;
    }
    let mut stamps: Vec<Timestamp> = Vec::new();
    let mut pos: usize = 0;
    while pos < n && t[pos] == '['
        invariant
            n == t@.len(),
            n > 0,
            t@[0] == '[',
            pos <= n,
            parse_tags(t@, 0, seq![]) == parse_tags(t@, pos as int, stamps@),
        decreases n - pos,
    {
        let close = find_char(t, pos + 1, n, ']');
        proof {
            lemma_find_shift(t@, pos + 1);
            lemma_find_from(t@, pos + 1, ']');
        }
        if close >= n {
            return Shape::Malformed;
        }
        match timestamp_in(t, pos + 1, close) {
            Some(ts) => {
                stamps.push(ts);
                pos = close + 1;
            },
            None => {
                if stamps.len() == 0 {
                    match metadata_in(t, pos + 1, close) {
                        Some(q) => {
                            return Shape::Metadata(q.0, q.1, q.2, q.3);
                        },
                        None => {},
                    }
                }
                return Shape::Malformed;
            },
        }
    }
    Shape::Timed(stamps, pos)
}

/// Copy `s[lo..hi]` into a buffer of its own.
pub fn chars_range(s: &[char], lo: usize, hi: usize) -> (r: Vec<char>)
    requires
        lo <= hi <= s@.len(),
    ensures
        r@ == s@.subrange(lo as int, hi as int),
{
    let mut out: Vec<char> = Vec::new();
    let mut i = lo;
    while i < hi
        invariant
            lo <= i <= hi <= s@.len(),
            out@ == s@.subrange(lo as int, i as int),
        decreases hi - i,
    {
        out.push(s[i]);
        assert(s@.subrange(lo as int, i + 1) =~= s@.subrange(lo as int, i as int).push(
            s@[i as int],
        ));
        i = i + 1;
    }
    out
}

/// Classify `s[lo..hi]` as a raw (untrimmed) line. The returned buffer is the trimmed
/// line, which every range in the shape refers to.
pub(crate) fn classify_range(s: &[char], lo: usize, hi: usize) -> (r: (Vec<char>, Shape, usize))
    requires
        lo <= hi <= s@.len(),
    ensures
        r.0@ == trim(s@.subrange(lo as int, hi as int)),
        shape_fits(r.0@.len(), r.1),
        shape_view(r.0@, r.1) == spec_parse_line(s@.subrange(lo as int, hi as int)),
        lo <= r.2 <= hi,
        r.2 + r.0@.len() <= hi,
        r.0@ == s@.subrange(r.2 as int, r.2 + r.0@.len()),
{
    let (a, b) = trim_range(s, lo, hi);
    let t = chars_range(s, a, b);
    let sh = classify(&t);
    (t, sh, a)
}

/// Split one line of an LRC file into its parts.
#[verifier::rlimit(50)]
pub fn parse_line<'a>(line: &'a str) -> (r: Line<'a>)
    ensures
        r@ == spec_parse_line(line@),
{
    let cs = chars_of(line);
    let n = cs.len();
    let (t, sh, a) = classify_range(&cs, 0, n);
    proof {
        assert(cs@.subrange(0, n as int) =~= line@);
    }
    let m = t.len();
    match sh {
        Shape::Blank => Line::Blank,
        Shape::Comment(x, y) => {
            let c = line.substring_char(a + x, a + y);
            assert(c@ =~= t@.subrange(x as int, y as int));
            Line::Comment(c)
        },
        Shape::Metadata(ka, kb, va, vb) => {
            let key = line.substring_char(a + ka, a + kb);
            let value = line.substring_char(a + va, a + vb);
            assert(key@ =~= t@.subrange(ka as int, kb as int));
            assert(value@ =~= t@.subrange(va as int, vb as int));
            Line::Metadata { key, value }
        },
        Shape::Timed(stamps, p) => {
            let text = line.substring_char(a + p, a + m);
            assert(text@ =~= t@.subrange(p as int, m as int));
            Line::Timed { stamps, text }
        },
        Shape::Untimed => {
            let u = line.substring_char(a, a + m);
            assert(u@ =~= t@);
            Line::Untimed(u)
        },
        Shape::Malformed => {
            let u = line.substring_char(a, a + m);
            assert(u@ =~= t@);
            Line::Malformed(u)
        },
    }
}


// ---------------------------------------------------------------------------------------
// Linting
// ---------------------------------------------------------------------------------------

pub open spec fn warn(line: usize, message: Seq<char>) -> DiagnosticView {
    DiagnosticView { line, severity: Severity::Warning, message }
}

pub open spec fn err(line: usize, message: Seq<char>) -> DiagnosticView {
    DiagnosticView { line, severity: Severity::Error, message }
}

pub open spec fn dviews(v: Seq<Diagnostic>) -> Seq<DiagnosticView> {
    v.map_values(|d: Diagnostic| d@)
}

/// The metadata keys the LRC convention defines.
pub open spec fn is_known_key(k: Seq<char>) -> bool {
    eq_ignore_case(k, "ti"@) || eq_ignore_case(k, "ar"@) || eq_ignore_case(k, "al"@)
        || eq_ignore_case(k, "au"@) || eq_ignore_case(k, "by"@) || eq_ignore_case(k, "length"@)
        || eq_ignore_case(k, "offset"@) || eq_ignore_case(k, "re"@) || eq_ignore_case(k, "ve"@)
        || eq_ignore_case(k, "tool"@)
}

/// `i64::from_str`: an optional sign, then at least one digit, in range.
pub open spec fn parse_i64(s: Seq<char>) -> Option<i64> {
    if s.len() > 0 && s[0] == '-' {
        let d = s.drop_first();
        if d.len() > 0 && all_digits(d) && digits_value(d) <= 0x8000_0000_0000_0000 {
            Some((0 - digits_value(d)) as i64)
        } else {
            None
        }
    } else {
        let d = if s.len() > 0 && s[0] == '+' {
            s.drop_first()
        } else {
            s
        };
        if d.len() > 0 && all_digits(d) && digits_value(d) <= 0x7fff_ffff_ffff_ffff {
            Some(digits_value(d) as i64)
        } else {
            None
        }
    }
}

/// What `lint` carries from one line to the next.
pub struct LintState {
    pub seen_timed: bool,
    pub last: Option<u32>,
    pub seen: Map<u32, usize>,
}

pub open spec fn lint_start() -> LintState {
    LintState { seen_timed: false, last: None, seen: Map::empty() }
}

/// Format checks on one timestamp, independent of its neighbours.
pub open spec fn stamp_format_diags(ts: Timestamp, line: usize) -> Seq<DiagnosticView> {
    (if ts.secs >= 60 {
        seq![err(line, "seconds field must be less than 60"@)]
    } else {
        seq![]
    }) + (if ts.frac_digits != 2 {
        seq![warn(line, "non-canonical timestamp precision, expected [MM:SS.xx]"@)]
    } else {
        seq![]
    }) + (if ts.min_digits < 2 {
        seq![warn(line, "minutes not zero-padded, expected [MM:SS.xx]"@)]
    } else {
        seq![]
    })
}

/// Walk the stamps of one timed line from index `i`: the map of first-seen timestamps, the
/// line's first valid timestamp, and the diagnostics, in order.
pub open spec fn lint_stamps(
    stamps: Seq<Timestamp>,
    i: int,
    line: usize,
    is_break: bool,
    seen: Map<u32, usize>,
    first: Option<u32>,
) -> (Map<u32, usize>, Option<u32>, Seq<DiagnosticView>)
    decreases stamps.len() - i,
{
    if i < 0 || i >= stamps.len() {
        (seen, first, seq![])
    } else {
        let ts = stamps[i];
        let fmt = stamp_format_diags(ts, line);
        match timestamp_millis(ts) {
            Some(ms) => {
                let first2 = if first is None {
                    Some(ms)
                } else {
                    first
                };
                let dup = !is_break && seen.contains_key(ms);
                let d = if dup {
                    seq![
                        warn(
                            line,
                            "duplicate timestamp, first seen on line "@ + decimal(
                                seen[ms] as nat,
                            ),
                        ),
                    ]
                } else {
                    seq![]
                };
                let seen2 = if !is_break && !seen.contains_key(ms) {
                    seen.insert(ms, line)
                } else {
                    seen
                };
                let rest = lint_stamps(stamps, i + 1, line, is_break, seen2, first2);
                (rest.0, rest.1, fmt + d + rest.2)
            },
            None => {
                let rest = lint_stamps(stamps, i + 1, line, is_break, seen, first);
                (rest.0, rest.1, fmt + seq![err(line, "timestamp value out of range"@)] + rest.2)
            },
        }
    }
}

/// One line's diagnostics, and the state the next line sees.
pub open spec fn lint_line(st: LintState, line: usize, l: LineView) -> (
    LintState,
    Seq<DiagnosticView>,
) {
    match l {
        LineView::Metadata { key, value } => (
            st,
            (if st.seen_timed {
                seq![warn(line, "metadata tag appears after the first timed line"@)]
            } else {
                seq![]
            }) + (if !is_known_key(key) {
                seq![warn(line, "unknown metadata key `"@ + key + "`"@)]
            } else {
                seq![]
            }) + (if eq_ignore_case(key, "offset"@) && parse_i64(value) is None {
                seq![err(line, "`offset` value must be a signed integer"@)]
            } else {
                seq![]
            }),
        ),
        LineView::Untimed(_) => (
            st,
            if st.seen_timed {
                seq![warn(line, "untimed text line mixed in among timed lines"@)]
            } else {
                seq![]
            },
        ),
        LineView::Malformed(_) => (st, seq![err(line, "malformed timestamp or metadata tag"@)]),
        LineView::Timed { stamps, text } => {
            let r = lint_stamps(stamps, 0, line, trim(text).len() == 0, st.seen, None);
            let order = match r.1 {
                Some(ms) => match st.last {
                    Some(prev) => if ms < prev {
                        seq![err(line, "timestamp is earlier than the previous line's"@)]
                    } else {
                        seq![]
                    },
                    None => seq![],
                },
                None => seq![],
            };
            let last = if r.1 is Some {
                r.1
            } else {
                st.last
            };
            (LintState { seen_timed: true, last, seen: r.0 }, r.2 + order)
        },
        _ => (st, seq![]),
    }
}

/// The time of the first stamp from index `i` on that has a value.
pub open spec fn first_valued_from(stamps: Seq<Timestamp>, i: int) -> Option<u32>
    decreases stamps.len() - i,
{
    if i < 0 || i >= stamps.len() {
        None
    } else {
        match timestamp_millis(stamps[i]) {
            Some(ms) => Some(ms),
            None => first_valued_from(stamps, i + 1),
        }
    }
}

proof fn lemma_lint_stamps_first(
    stamps: Seq<Timestamp>,
    i: int,
    line: usize,
    is_break: bool,
    seen: Map<u32, usize>,
    first: Option<u32>,
)
    requires
        0 <= i,
    ensures
        lint_stamps(stamps, i, line, is_break, seen, first).1 == if first is Some {
            first
        } else {
            first_valued_from(stamps, i)
        },
    decreases stamps.len() - i,
{
    if i < stamps.len() {
        let ts = stamps[i];
        match timestamp_millis(ts) {
            Some(ms) => {
                let first2 = if first is None { Some(ms) } else { first };
                let seen2 = if !is_break && !seen.contains_key(ms) { seen.insert(ms, line) } else { seen };
                lemma_lint_stamps_first(stamps, i + 1, line, is_break, seen2, first2);
            },
            None => {
                lemma_lint_stamps_first(stamps, i + 1, line, is_break, seen, first);
            },
        }
    }
}

/// Timed lines are held to order by their first stamp with a value: a timed line is reported
/// as earlier than the previous one exactly when its first valued stamp is before the first
/// valued stamp of the last timed line that had one, whatever its later stamps are; and that
/// first stamp is what the next line is held to.
pub proof fn lemma_lines_ordered_by_first_stamp(st: LintState, line: usize, stamps: Seq<Timestamp>, text: Seq<char>)
    ensures
        ({
            let f = first_valued_from(stamps, 0);
            let r = lint_line(st, line, LineView::Timed { stamps, text });
            let rest = lint_stamps(stamps, 0, line, trim(text).len() == 0, st.seen, None).2;
            &&& r.1 == rest + if f is Some && st.last is Some && f->0 < st.last->0 {
                seq![err(line, "timestamp is earlier than the previous line's"@)]
            } else {
                seq![]
            }
            &&& r.0.last == if f is Some { f } else { st.last }
        }),
{
    lemma_lint_stamps_first(stamps, 0, line, trim(text).len() == 0, st.seen, None);
}

/// Lines `i..` of a file, numbered from 1.
pub open spec fn lint_lines(ls: Seq<Seq<char>>, i: int, st: LintState) -> (
    LintState,
    Seq<DiagnosticView>,
)
    decreases ls.len() - i,
{
    if i < 0 || i >= ls.len() {
        (st, seq![])
    } else {
        let step = lint_line(st, (i + 1) as usize, spec_parse_line(ls[i]));
        let rest = lint_lines(ls, i + 1, step.0);
        (rest.0, step.1 + rest.1)
    }
}

/// Every diagnostic [`lint`] reports for a file, in order.
pub open spec fn spec_lint(contents: Seq<char>) -> Seq<DiagnosticView> {
    let r = lint_lines(lines(contents), 0, lint_start());
    r.1 + if r.0.seen_timed {
        seq![]
    } else {
        seq![warn(0, "no timed lines found; file has no sync data"@)]
    }
}

/// Whether every one of `ds` is about line `line`.
pub open spec fn all_on_line(ds: Seq<DiagnosticView>, line: usize) -> bool {
    forall|j: int| 0 <= j < ds.len() ==> (#[trigger] ds[j]).line == line
}

proof fn lemma_concat_on_line(a: Seq<DiagnosticView>, b: Seq<DiagnosticView>, line: usize)
    requires
        all_on_line(a, line),
        all_on_line(b, line),
    ensures
        all_on_line(a + b, line),
{
    assert forall|j: int| 0 <= j < (a + b).len() implies (#[trigger] (a + b)[j]).line == line by {
        if j >= a.len() {
            assert((a + b)[j] == b[j - a.len()]);
        }
    }
}

proof fn lemma_stamp_format_on_line(ts: Timestamp, line: usize)
    ensures
        all_on_line(stamp_format_diags(ts, line), line),
{
    let a = if ts.secs >= 60 { seq![err(line, "seconds field must be less than 60"@)] } else { seq![] };
    let b = if ts.frac_digits != 2 {
        seq![warn(line, "non-canonical timestamp precision, expected [MM:SS.xx]"@)]
    } else {
        seq![]
    };
    let c = if ts.min_digits < 2 {
        seq![warn(line, "minutes not zero-padded, expected [MM:SS.xx]"@)]
    } else {
        seq![]
    };
    lemma_concat_on_line(a, b, line);
    lemma_concat_on_line(a + b, c, line);
}

proof fn lemma_lint_stamps_on_line(
    stamps: Seq<Timestamp>,
    i: int,
    line: usize,
    is_break: bool,
    seen: Map<u32, usize>,
    first: Option<u32>,
)
    ensures
        all_on_line(lint_stamps(stamps, i, line, is_break, seen, first).2, line),
    decreases stamps.len() - i,
{
    if 0 <= i < stamps.len() {
        let ts = stamps[i];
        lemma_stamp_format_on_line(ts, line);
        let fmt = stamp_format_diags(ts, line);
        match timestamp_millis(ts) {
            Some(ms) => {
                let first2 = if first is None { Some(ms) } else { first };
                let seen2 = if !is_break && !seen.contains_key(ms) { seen.insert(ms, line) } else { seen };
                lemma_lint_stamps_on_line(stamps, i + 1, line, is_break, seen2, first2);
                let d = if !is_break && seen.contains_key(ms) {
                    seq![warn(line, "duplicate timestamp, first seen on line "@ + decimal(seen[ms] as nat))]
                } else {
                    seq![]
                };
                lemma_concat_on_line(fmt, d, line);
                lemma_concat_on_line(fmt + d, lint_stamps(stamps, i + 1, line, is_break, seen2, first2).2, line);
            },
            None => {
                lemma_lint_stamps_on_line(stamps, i + 1, line, is_break, seen, first);
                lemma_concat_on_line(fmt, seq![err(line, "timestamp value out of range"@)], line);
                lemma_concat_on_line(
                    fmt + seq![err(line, "timestamp value out of range"@)],
                    lint_stamps(stamps, i + 1, line, is_break, seen, first).2,
                    line,
                );
            },
        }
    }
}

proof fn lemma_lint_line_on_line(st: LintState, line: usize, l: LineView)
    ensures
        all_on_line(lint_line(st, line, l).1, line),
        lint_line(st, line, l).0.seen_timed == (st.seen_timed || l is Timed),
{
    match l {
        LineView::Metadata { key, value } => {
            let a = if st.seen_timed { seq![warn(line, "metadata tag appears after the first timed line"@)] } else { seq![] };
            let b = if !is_known_key(key) { seq![warn(line, "unknown metadata key `"@ + key + "`"@)] } else { seq![] };
            let c = if eq_ignore_case(key, "offset"@) && parse_i64(value) is None {
                seq![err(line, "`offset` value must be a signed integer"@)]
            } else {
                seq![]
            };
            lemma_concat_on_line(a, b, line);
            lemma_concat_on_line(a + b, c, line);
        },
        LineView::Timed { stamps, text } => {
            let r = lint_stamps(stamps, 0, line, trim(text).len() == 0, st.seen, None);
            lemma_lint_stamps_on_line(stamps, 0, line, trim(text).len() == 0, st.seen, None);
            let order = match r.1 {
                Some(ms) => match st.last {
                    Some(prev) => if ms < prev {
                        seq![err(line, "timestamp is earlier than the previous line's"@)]
                    } else {
                        seq![]
                    },
                    None => seq![],
                },
                None => seq![],
            };
            lemma_concat_on_line(r.2, order, line);
        },
        _ => {},
    }
}

proof fn lemma_lint_lines_numbers(ls: Seq<Seq<char>>, i: int, st: LintState)
    requires
        0 <= i <= ls.len(),
        ls.len() < usize::MAX,
    ensures
        forall|j: int| 0 <= j < lint_lines(ls, i, st).1.len() ==> 1 <= (#[trigger] lint_lines(ls, i, st).1[j]).line <= ls.len(),
        lint_lines(ls, i, st).0.seen_timed == (st.seen_timed || exists|k: int| i <= k < ls.len() && spec_parse_line(#[trigger] ls[k]) is Timed),
    decreases ls.len() - i,
{
    if i < ls.len() {
        let line = (i + 1) as usize;
        let step = lint_line(st, line, spec_parse_line(ls[i]));
        lemma_lint_line_on_line(st, line, spec_parse_line(ls[i]));
        lemma_lint_lines_numbers(ls, i + 1, step.0);
        let rest = lint_lines(ls, i + 1, step.0);
        let all = lint_lines(ls, i, st).1;
        assert(all == step.1 + rest.1);
        assert forall|j: int| 0 <= j < all.len() implies 1 <= (#[trigger] all[j]).line <= ls.len() by {
            if j < step.1.len() {
                assert(all[j] == step.1[j]);
            } else {
                assert(all[j] == rest.1[j - step.1.len()]);
            }
        }
        if spec_parse_line(ls[i]) is Timed {
            assert(exists|k: int| i <= k < ls.len() && spec_parse_line(#[trigger] ls[k]) is Timed);
        }
        if exists|k: int| i + 1 <= k < ls.len() && spec_parse_line(#[trigger] ls[k]) is Timed {
            let k = choose|k: int| i + 1 <= k < ls.len() && spec_parse_line(#[trigger] ls[k]) is Timed;
            assert(i <= k < ls.len());
        }
        if exists|k: int| i <= k < ls.len() && spec_parse_line(#[trigger] ls[k]) is Timed {
            let k = choose|k: int| i <= k < ls.len() && spec_parse_line(#[trigger] ls[k]) is Timed;
            if k > i {
                assert(i + 1 <= k < ls.len() && spec_parse_line(ls[k]) is Timed);
            }
        }
    }
}

/// Every diagnostic of a file is about one of its lines, numbered from 1, except the
/// warning that the file has no timed line: that one is on line 0, comes last, and is there
/// exactly when no line is timed.
pub proof fn lemma_lint_lines_are_numbered(contents: Seq<char>)
    requires
        lines(contents).len() < usize::MAX,
    ensures
        ({
            let ds = spec_lint(contents);
            let n = lines(contents).len();
            let untimed = forall|k: int| 0 <= k < n ==> !(spec_parse_line(#[trigger] lines(contents)[k]) is Timed);
            &&& forall|j: int| 0 <= j < ds.len() && (#[trigger] ds[j]).line != 0 ==> 1 <= ds[j].line <= n
            &&& forall|j: int| 0 <= j < ds.len() && (#[trigger] ds[j]).line == 0 ==> untimed && j == ds.len() - 1
            &&& untimed ==> ds.len() > 0 && ds[ds.len() - 1] == warn(0, "no timed lines found; file has no sync data"@)
        }),
{
    let ls = lines(contents);
    lemma_lint_lines_numbers(ls, 0, lint_start());
    let r = lint_lines(ls, 0, lint_start());
    let ds = spec_lint(contents);
    assert forall|j: int| 0 <= j < ds.len() && (#[trigger] ds[j]).line == 0 implies (forall|k: int|
        0 <= k < ls.len() ==> !(spec_parse_line(#[trigger] ls[k]) is Timed)) && j == ds.len() - 1 by {
        if j < r.1.len() {
            assert(ds[j] == r.1[j]);
        }
        if exists|k: int| 0 <= k < ls.len() && spec_parse_line(#[trigger] ls[k]) is Timed {
            assert(ds == r.1 + seq![]);
            assert(ds[j] == r.1[j]);
        }
    }
    assert forall|j: int| 0 <= j < ds.len() && (#[trigger] ds[j]).line != 0 implies 1 <= ds[j].line <= ls.len() by {
        if j < r.1.len() {
            assert(ds[j] == r.1[j]);
        }
    }
}

fn push_diag(diags: &mut Vec<Diagnostic>, d: Diagnostic)
    ensures
        dviews(final(diags)@) == dviews(old(diags)@).push(d@),
{
    let ghost before = diags@;
    diags.push(d);
    assert(dviews(diags@) =~= dviews(before).push(d@));
}

fn known_key(t: &[char], lo: usize, hi: usize) -> (r: bool)
    requires
        lo <= hi <= t@.len(),
    ensures
        r == is_known_key(t@.subrange(lo as int, hi as int)),
{
    range_eq_ignore_case(t, lo, hi, &chars_of("ti")) || range_eq_ignore_case(
        t,
        lo,
        hi,
        &chars_of("ar"),
    ) || range_eq_ignore_case(t, lo, hi, &chars_of("al")) || range_eq_ignore_case(
        t,
        lo,
        hi,
        &chars_of("au"),
    ) || range_eq_ignore_case(t, lo, hi, &chars_of("by")) || range_eq_ignore_case(
        t,
        lo,
        hi,
        &chars_of("length"),
    ) || range_eq_ignore_case(t, lo, hi, &chars_of("offset")) || range_eq_ignore_case(
        t,
        lo,
        hi,
        &chars_of("re"),
    ) || range_eq_ignore_case(t, lo, hi, &chars_of("ve")) || range_eq_ignore_case(
        t,
        lo,
        hi,
        &chars_of("tool"),
    )
}

/// `parse_i64` of `s[lo..hi]`.
pub(crate) fn i64_in(s: &[char], lo: usize, hi: usize) -> (r: Option<i64>)
    requires
        lo <= hi <= s@.len(),
    ensures
        r == parse_i64(s@.subrange(lo as int, hi as int)),
{
    let ghost t = s@.subrange(lo as int, hi as int);
    if lo < hi && s[lo] == '-' {
        assert(t.drop_first() =~= s@.subrange(lo + 1, hi as int));
        if lo + 1 == hi || !all_digits_in(s, lo + 1, hi) {
            return None;
        }
        match digits_in(s, lo + 1, hi, 0x8000_0000_0000_0000) {
            Some(v) => {
                let neg: i128 = 0i128 - (v as i128);
                Some(neg as i64)
            },
            None => None,
        }
    } else {
        let start = if lo < hi && s[lo] == '+' {
            lo + 1
        } else {
            lo
        };
        assert(lo < hi && s@[lo as int] == '+' ==> t.drop_first() =~= s@.subrange(
            start as int,
            hi as int,
        ));
        assert(!(lo < hi && s@[lo as int] == '+') ==> t =~= s@.subrange(start as int, hi as int));
        if start == hi || !all_digits_in(s, start, hi) {
            return None;
        }
        match digits_in(s, start, hi, 0x7fff_ffff_ffff_ffff) {
            Some(v) => Some(v as i64),
            None => None,
        }
    }
}

pub(crate) fn lit(s: &str) -> (r: String)
    ensures
        r@ == s@,
{
    String::from_str(s)
}

/// The running state of [`lint`], as executable values.
struct LintCursor {
    seen_timed: bool,
    last: Option<u32>,
    seen: HashMap<u32, usize>,
}

impl View for LintCursor {
    type V = LintState;

    closed spec fn view(&self) -> LintState {
        LintState { seen_timed: self.seen_timed, last: self.last, seen: self.seen@ }
    }
}

/// Lint the stamps of one timed line, appending to `diags`; returns the first valid stamp.
#[verifier::rlimit(80)]
#[verifier::spinoff_prover]
fn lint_stamps_exec(
    diags: &mut Vec<Diagnostic>,
    seen: &mut HashMap<u32, usize>,
    stamps: &Vec<Timestamp>,
    line_no: usize,
    is_break: bool,
) -> (first: Option<u32>)
    ensures
        final(seen)@ == lint_stamps(stamps@, 0, line_no, is_break, old(seen)@, None).0,
        first == lint_stamps(stamps@, 0, line_no, is_break, old(seen)@, None).1,
        dviews(final(diags)@) == dviews(old(diags)@) + lint_stamps(
            stamps@,
            0,
            line_no,
            is_break,
            old(seen)@,
            None,
        ).2,
{
    broadcast use vstd::std_specs::hash::group_hash_axioms;

    let ghost r0 = lint_stamps(stamps@, 0, line_no, is_break, seen@, None);
    let ghost d0 = dviews(diags@);
    let mut first: Option<u32> = None;
    let mut j: usize = 0;
    while j < stamps.len()
        invariant
            j <= stamps@.len(),
            r0.0 == lint_stamps(stamps@, j as int, line_no, is_break, seen@, first).0,
            r0.1 == lint_stamps(stamps@, j as int, line_no, is_break, seen@, first).1,
            dviews(diags@) + lint_stamps(stamps@, j as int, line_no, is_break, seen@, first).2
                == d0 + r0.2,
        decreases stamps@.len() - j,
    {
        let ts = stamps[j];
        let ghost here = lint_stamps(stamps@, j as int, line_no, is_break, seen@, first);
        let ghost dj = dviews(diags@);
        if ts.secs >= 60 {
            push_diag(diags, Diagnostic::error(line_no, lit("seconds field must be less than 60")));
        }
        if ts.frac_digits != 2 {
            push_diag(
                diags,
                Diagnostic::warning(
                    line_no,
                    lit("non-canonical timestamp precision, expected [MM:SS.xx]"),
                ),
            );
        }
        if ts.min_digits < 2 {
            push_diag(
                diags,
                Diagnostic::warning(line_no, lit("minutes not zero-padded, expected [MM:SS.xx]")),
            );
        }
        assert(dviews(diags@) =~= dj + stamp_format_diags(ts, line_no));
        let ghost dk = dviews(diags@);
        let ghost extra: Seq<DiagnosticView>;
        match ts.millis() {
            Some(ms) => {
                if first.is_none() {
                    first = Some(ms);
                }
                if !is_break {
                    match seen.get(&ms) {
                        Some(first_seen) => {
                            let mut m = lit("duplicate timestamp, first seen on line ");
                            push_decimal(&mut m, *first_seen as u64);
                            let d = Diagnostic::warning(line_no, m);
                            proof {
                                extra = seq![d@];
                            }
                            push_diag(diags, d);
                        },
                        None => {
                            seen.insert(ms, line_no);
                            proof {
                                extra = seq![];
                            }
                        },
                    }
                } else {
                    proof {
                        extra = seq![];
                    }
                }
            },
            None => {
                let d = Diagnostic::error(line_no, lit("timestamp value out of range"));
                proof {
                    extra = seq![d@];
                }
                push_diag(diags, d);
            },
        }
        proof {
            let next = lint_stamps(stamps@, j + 1, line_no, is_break, seen@, first);
            assert(dviews(diags@) =~= dk + extra);
            assert(here.2 == stamp_format_diags(ts, line_no) + extra + next.2);
            assert(here.0 == next.0);
            assert(here.1 == next.1);
            assert(dviews(diags@) + next.2 =~= dj + here.2);
        }
        j = j + 1;
    }
    let ghost fin = lint_stamps(stamps@, j as int, line_no, is_break, seen@, first);
    assert(fin.2 =~= seq![]);
    assert(dviews(diags@) =~= d0 + r0.2);
    first
}

/// Lint one classified line, appending to `diags` and advancing `cur`.
fn lint_line_exec(
    diags: &mut Vec<Diagnostic>,
    cur: &mut LintCursor,
    t: &Vec<char>,
    sh: &Shape,
    line_no: usize,
)
    requires
        shape_fits(t@.len(), *sh),
    ensures
        final(cur)@ == lint_line(old(cur)@, line_no, shape_view(t@, *sh)).0,
        dviews(final(diags)@) == dviews(old(diags)@) + lint_line(
            old(cur)@,
            line_no,
            shape_view(t@, *sh),
        ).1,
{
    let ghost step = lint_line(cur@, line_no, shape_view(t@, *sh));
    let ghost d0 = dviews(diags@);
    match sh {
        Shape::Metadata(ka, kb, va, vb) => {
            let (ka, kb, va, vb) = (*ka, *kb, *va, *vb);
            if cur.seen_timed {
                push_diag(
                    diags,
                    Diagnostic::warning(
                        line_no,
                        lit("metadata tag appears after the first timed line"),
                    ),
                );
            }
            if !known_key(t, ka, kb) {
                let mut m = lit("unknown metadata key `");
                push_range(&mut m, t, ka, kb);
                push_str(&mut m, "`");
                push_diag(diags, Diagnostic::warning(line_no, m));
            }
            if range_eq_ignore_case(t, ka, kb, &chars_of("offset")) && i64_in(t, va, vb).is_none() {
                push_diag(
                    diags,
                    Diagnostic::error(line_no, lit("`offset` value must be a signed integer")),
                );
            }
            assert(dviews(diags@) =~= d0 + step.1);
        },
        Shape::Untimed => {
            if cur.seen_timed {
                push_diag(
                    diags,
                    Diagnostic::warning(line_no, lit("untimed text line mixed in among timed lines")),
                );
            }
            assert(dviews(diags@) =~= d0 + step.1);
        },
        Shape::Malformed => {
            push_diag(diags, Diagnostic::error(line_no, lit("malformed timestamp or metadata tag")));
            assert(dviews(diags@) =~= d0 + step.1);
        },
        Shape::Timed(stamps, p) => {
            let n = t.len();
            let (ta, tb) = trim_range(t, *p, n);
            let is_break = ta == tb;
            let first = lint_stamps_exec(diags, &mut cur.seen, stamps, line_no, is_break);
            let ghost d1 = dviews(diags@);
            match first {
                Some(ms) => {
                    match cur.last {
                        Some(prev) => {
                            if ms < prev {
                                push_diag(
                                    diags,
                                    Diagnostic::error(
                                        line_no,
                                        lit("timestamp is earlier than the previous line's"),
                                    ),
                                );
                            }
                        },
                        None => {},
                    }
                    cur.last = Some(ms);
                },
                None => {},
            }
            cur.seen_timed = true;
            assert(dviews(diags@) =~= d0 + step.1);
        },
        _ => {
            assert(dviews(diags@) =~= d0 + step.1);
        },
    }
}

/// Check an LRC file's contents for format and sync problems.
pub fn lint(contents: &str) -> (r: Vec<Diagnostic>)
    ensures
        dviews(r@) == spec_lint(contents@),
{
    broadcast use vstd::std_specs::hash::group_hash_axioms;

    let cs = chars_of(contents);
    let ranges = line_ranges(&cs);
    let ghost ls = lines(cs@);
    let mut diags: Vec<Diagnostic> = Vec::new();
    let mut cur = LintCursor { seen_timed: false, last: None, seen: HashMap::new() };
    assert(cur@ == lint_start());
    let mut idx: usize = 0;
    while idx < ranges.len()
        invariant
            cs@ == contents@,
            ls == lines(cs@),
            ranges@.len() == ls.len(),
            ranges_match(cs@, ranges@),
            idx <= ranges@.len(),
            lint_lines(ls, 0, lint_start()).0 == lint_lines(ls, idx as int, cur@).0,
            dviews(diags@) + lint_lines(ls, idx as int, cur@).1 == lint_lines(
                ls,
                0,
                lint_start(),
            ).1,
        decreases ranges@.len() - idx,
    {
        let (lo, hi) = ranges[idx];
        proof {
            assert(ranges@[idx as int] == (lo, hi));
            assert(lo <= hi <= cs@.len());
            assert(cs@.subrange(lo as int, hi as int) == ls[idx as int]);
        }
        let line_no = idx + 1;
        let ghost st = cur@;
        let ghost d0 = dviews(diags@);
        let (t, sh, _) = classify_range(&cs, lo, hi);
        lint_line_exec(&mut diags, &mut cur, &t, &sh, line_no);
        proof {
            let step = lint_line(st, line_no, spec_parse_line(ls[idx as int]));
            assert(lint_lines(ls, idx as int, st).1 == step.1 + lint_lines(ls, idx + 1, step.0).1);
            assert(dviews(diags@) + lint_lines(ls, idx + 1, cur@).1 =~= d0 + lint_lines(
                ls,
                idx as int,
                st,
            ).1);
        }
        idx = idx + 1;
    }
    let ghost fin = lint_lines(ls, idx as int, cur@);
    assert(fin.1 =~= seq![]);
    if !cur.seen_timed {
        push_diag(
            &mut diags,
            Diagnostic::warning(0, lit("no timed lines found; file has no sync data")),
        );
    }
    assert(dviews(diags@) =~= spec_lint(contents@));
    diags
}


// ---------------------------------------------------------------------------------------
// The playable timeline
// ---------------------------------------------------------------------------------------

/// One entry of the timeline: when it starts, and its words (empty for a break).
#[derive(Debug, Clone, PartialEq, Eq)]
pub struct SyncedLine {
    pub at_ms: u64,
    pub text: String,
}

pub struct SyncedLineView {
    pub at_ms: u64,
    pub text: Seq<char>,
}

impl View for SyncedLine {
    type V = SyncedLineView;

    open spec fn view(&self) -> SyncedLineView {
        SyncedLineView { at_ms: self.at_ms, text: self.text@ }
    }
}

/// A parsed synced-lyrics file: its title and artist tags, and the timeline sorted by time.
#[derive(Debug, Clone, PartialEq, Eq, Default)]
pub struct Synced {
    pub title: Option<String>,
    pub artist: Option<String>,
    pub lines: Vec<SyncedLine>,
}

pub struct SyncedView {
    pub title: Option<Seq<char>>,
    pub artist: Option<Seq<char>>,
    pub lines: Seq<SyncedLineView>,
}

pub open spec fn opt_view(o: Option<String>) -> Option<Seq<char>> {
    match o {
        Some(s) => Some(s@),
        None => None,
    }
}

pub open spec fn line_views(v: Seq<SyncedLine>) -> Seq<SyncedLineView> {
    v.map_values(|l: SyncedLine| l@)
}

impl View for Synced {
    type V = SyncedView;

    open spec fn view(&self) -> SyncedView {
        SyncedView {
            title: opt_view(self.title),
            artist: opt_view(self.artist),
            lines: line_views(self.lines@),
        }
    }
}

/// Why a file yields no playable timeline.
#[derive(Debug, Clone, Copy, PartialEq, Eq, Structural)]
pub enum SyncError {
    NoTimedLines,
}

impl SyncError {
    pub open spec fn spec_message(self) -> Seq<char> {
        "no synced lyrics: file has no timed lines"@
    }

    /// The error as it is reported to the user.
    pub fn message(self) -> (r: String)
        ensures
            r@ == self.spec_message(),
    {
        lit("no synced lyrics: file has no timed lines")
    }
}

/// A timestamp shifted by an `[offset:]` tag. A positive offset makes the lyrics appear sooner,
/// so it is subtracted, saturating at zero; a negative one is added, saturating at the top.
pub open spec fn offset_ms(at_ms: u64, offset: i64) -> u64 {
    if offset >= 0 {
        if at_ms >= offset {
            (at_ms - offset) as u64
        } else {
            0
        }
    } else if at_ms - offset > u64::MAX {
        u64::MAX
    } else {
        (at_ms - offset) as u64
    }
}

fn apply_offset(at_ms: u64, offset: i64) -> (r: u64)
    ensures
        r == offset_ms(at_ms, offset),
{
    if offset >= 0 {
        at_ms.saturating_sub(offset as u64)
    } else {
        let by: u64 = if offset == i64::MIN {
            0x8000_0000_0000_0000
        } else {
            (-offset) as u64
        };
        at_ms.saturating_add(by)
    }
}

/// The entries one timed line contributes: one per stamp that has a value, in stamp order.
pub open spec fn stamp_entries(stamps: Seq<Timestamp>, text: Seq<char>, offset: i64) -> Seq<
    SyncedLineView,
>
    decreases stamps.len(),
{
    if stamps.len() == 0 {
        seq![]
    } else {
        let prev = stamp_entries(stamps.drop_last(), text, offset);
        match timestamp_millis(stamps.last()) {
            Some(ms) => prev.push(SyncedLineView { at_ms: offset_ms(ms as u64, offset), text }),
            None => prev,
        }
    }
}

/// What [`parse_synced`] has gathered after some lines of a file.
pub struct SyncState {
    pub title: Option<Seq<char>>,
    pub artist: Option<Seq<char>>,
    pub offset: i64,
    pub entries: Seq<SyncedLineView>,
}

pub open spec fn sync_start() -> SyncState {
    SyncState { title: None, artist: None, offset: 0, entries: seq![] }
}

/// The effect of one classified line on the gathered state.
pub open spec fn sync_line(st: SyncState, l: LineView) -> SyncState {
    match l {
        LineView::Metadata { key, value } => if eq_ignore_case(key, "ti"@) {
            SyncState { title: Some(value), ..st }
        } else if eq_ignore_case(key, "ar"@) {
            SyncState { artist: Some(value), ..st }
        } else if eq_ignore_case(key, "offset"@) && parse_i64(value) is Some {
            SyncState { offset: parse_i64(value)->0, ..st }
        } else {
            st
        },
        LineView::Timed { stamps, text } => SyncState {
            entries: st.entries + stamp_entries(stamps, trim(text), st.offset),
            ..st
        },
        _ => st,
    }
}

/// Lines `i..` of a file folded into the state.
pub open spec fn sync_lines(ls: Seq<Seq<char>>, i: int, st: SyncState) -> SyncState
    decreases ls.len() - i,
{
    if i < 0 || i >= ls.len() {
        st
    } else {
        sync_lines(ls, i + 1, sync_line(st, spec_parse_line(ls[i])))
    }
}

/// Insert `x` after every entry that starts no later than it: the step of a stable sort.
pub open spec fn insert_by_time(s: Seq<SyncedLineView>, x: SyncedLineView) -> Seq<SyncedLineView>
    decreases s.len(),
{
    if s.len() == 0 {
        seq![x]
    } else if s.last().at_ms <= x.at_ms {
        s.push(x)
    } else {
        insert_by_time(s.drop_last(), x).push(s.last())
    }
}

/// `s` sorted by start time; entries that start together keep their order.
pub open spec fn sort_by_time(s: Seq<SyncedLineView>) -> Seq<SyncedLineView>
    decreases s.len(),
{
    if s.len() == 0 {
        s
    } else {
        insert_by_time(sort_by_time(s.drop_last()), s.last())
    }
}

pub open spec fn is_sorted_by_time(s: Seq<SyncedLineView>) -> bool {
    forall|i: int, j: int| 0 <= i <= j < s.len() ==> s[i].at_ms <= s[j].at_ms
}

/// What [`parse_synced`] returns for a file.
pub open spec fn spec_parse_synced(contents: Seq<char>) -> Result<SyncedView, SyncError> {
    let st = sync_lines(lines(contents), 0, sync_start());
    if st.entries.len() == 0 {
        Err(SyncError::NoTimedLines)
    } else {
        Ok(SyncedView { title: st.title, artist: st.artist, lines: sort_by_time(st.entries) })
    }
}

proof fn lemma_insert_by_time_len(s: Seq<SyncedLineView>, x: SyncedLineView)
    ensures
        insert_by_time(s, x).len() == s.len() + 1,
    decreases s.len(),
{
    if s.len() > 0 && s.last().at_ms > x.at_ms {
        lemma_insert_by_time_len(s.drop_last(), x);
    }
}

proof fn lemma_sort_by_time_len(s: Seq<SyncedLineView>)
    ensures
        sort_by_time(s).len() == s.len(),
    decreases s.len(),
{
    if s.len() > 0 {
        lemma_sort_by_time_len(s.drop_last());
        lemma_insert_by_time_len(sort_by_time(s.drop_last()), s.last());
    }
}

/// Inserting where the exec code inserts: after the last entry not later than `x`.
proof fn lemma_insert_by_time_at(s: Seq<SyncedLineView>, x: SyncedLineView, j: int)
    requires
        0 <= j <= s.len(),
        j == 0 || s[j - 1].at_ms <= x.at_ms,
        forall|k: int| j <= k < s.len() ==> s[k].at_ms > x.at_ms,
    ensures
        insert_by_time(s, x) == s.insert(j, x),
    decreases s.len(),
{
    if s.len() == 0 {
        assert(s.insert(j, x) =~= seq![x]);
    } else if s.last().at_ms <= x.at_ms {
        assert(j == s.len());
        assert(s.insert(j, x) =~= s.push(x));
    } else {
        let d = s.drop_last();
        assert(j < s.len());
        lemma_insert_by_time_at(d, x, j);
        assert(s.insert(j, x) =~= d.insert(j, x).push(s.last()));
    }
}

proof fn lemma_insert_by_time_sorted(s: Seq<SyncedLineView>, x: SyncedLineView)
    requires
        is_sorted_by_time(s),
    ensures
        is_sorted_by_time(insert_by_time(s, x)),
        insert_by_time(s, x).to_multiset() == s.to_multiset().insert(x),
    decreases s.len(),
{
    broadcast use vstd::seq_lib::group_seq_properties;

    if s.len() == 0 {
        assert(seq![x] =~= s.push(x));
    } else if s.last().at_ms <= x.at_ms {
    } else {
        let d = s.drop_last();
        lemma_insert_by_time_sorted(d, x);
        lemma_insert_by_time_len(d, x);
        let r = insert_by_time(d, x);
        assert(d.to_multiset().insert(s.last()) =~= s.to_multiset()) by {
            assert(s =~= d.push(s.last()));
        }
        assert forall|k: int| 0 <= k < r.len() implies r[k].at_ms <= s.last().at_ms by {
            assert(r.to_multiset().count(r[k]) > 0);
            assert(r.contains(r[k]));
            if r[k] == x {
            } else {
                assert(d.to_multiset().count(r[k]) > 0);
                let m = choose|m: int| 0 <= m < d.len() && d[m] == r[k];
                assert(d[m] == s[m]);
            }
        }
    }
}

/// The timeline [`parse_synced`] produces is in order of start time, and holds exactly the
/// entries the file's stamps produced.
pub proof fn lemma_sort_by_time(s: Seq<SyncedLineView>)
    ensures
        is_sorted_by_time(sort_by_time(s)),
        sort_by_time(s).to_multiset() == s.to_multiset(),
    decreases s.len(),
{
    broadcast use vstd::seq_lib::group_seq_properties;

    if s.len() > 0 {
        lemma_sort_by_time(s.drop_last());
        lemma_insert_by_time_sorted(sort_by_time(s.drop_last()), s.last());
        assert(s =~= s.drop_last().push(s.last()));
    }
}

/// The running state of [`parse_synced`], as executable values.
struct SyncCursor {
    title: Option<String>,
    artist: Option<String>,
    offset: i64,
}

/// Insert `x` into the sorted `lines` after every entry that starts no later than it.
fn insert_line(lines: &mut Vec<SyncedLine>, x: SyncedLine)
    ensures
        line_views(final(lines)@) == insert_by_time(line_views(old(lines)@), x@),
{
    let ghost before = line_views(lines@);
    let mut j = lines.len();
    while j > 0 && lines[j - 1].at_ms > x.at_ms
        invariant
            j <= lines@.len(),
            line_views(lines@) == before,
            forall|k: int| j <= k < lines@.len() ==> lines@[k].at_ms > x.at_ms,
        decreases j,
    {
        j = j - 1;
    }
    proof {
        assert(forall|k: int| 0 <= k < before.len() ==> before[k] == lines@[k]@);
        lemma_insert_by_time_at(before, x@, j as int);
    }
    lines.insert(j, x);
    assert(line_views(lines@) =~= before.insert(j as int, x@));
}

/// Add the entries of one timed line to the timeline.
fn add_stamps(
    lines: &mut Vec<SyncedLine>,
    stamps: &Vec<Timestamp>,
    t: &Vec<char>,
    a: usize,
    b: usize,
    offset: i64,
    Ghost(entries): Ghost<Seq<SyncedLineView>>,
) -> (r: Ghost<Seq<SyncedLineView>>)
    requires
        a <= b <= t@.len(),
        line_views(old(lines)@) == sort_by_time(entries),
    ensures
        r@ == entries + stamp_entries(stamps@, t@.subrange(a as int, b as int), offset),
        line_views(final(lines)@) == sort_by_time(r@),
{
    let ghost text = t@.subrange(a as int, b as int);
    let ghost mut cur = entries;
    let mut i: usize = 0;
    while i < stamps.len()
        invariant
            i <= stamps@.len(),
            a <= b <= t@.len(),
            text == t@.subrange(a as int, b as int),
            cur == entries + stamp_entries(stamps@.take(i as int), text, offset),
            line_views(lines@) == sort_by_time(cur),
        decreases stamps@.len() - i,
    {
        assert(stamps@.take(i + 1).drop_last() =~= stamps@.take(i as int));
        match stamps[i].millis() {
            Some(ms) => {
                let at = apply_offset(ms as u64, offset);
                let x = SyncedLine { at_ms: at, text: string_of_range(t, a, b) };
                insert_line(lines, x);
                proof {
                    assert(sort_by_time(cur.push(x@)) == insert_by_time(sort_by_time(cur), x@)) by {
                        assert(cur.push(x@).drop_last() =~= cur);
                    }
                    cur = cur.push(x@);
                    assert(cur =~= entries + stamp_entries(stamps@.take(i + 1), text, offset));
                }
            },
            None => {},
        }
        i = i + 1;
    }
    assert(stamps@.take(i as int) =~= stamps@);
    Ghost(cur)
}

/// Read a synced-lyrics file into its timeline, sorted by time, with `[offset:]` applied.
/// A file with no usable timestamp is refused.
pub fn parse_synced(contents: &str) -> (r: Result<Synced, SyncError>)
    ensures
        match r {
            Ok(s) => spec_parse_synced(contents@) == Ok::<SyncedView, SyncError>(s@),
            Err(e) => spec_parse_synced(contents@) == Err::<SyncedView, SyncError>(e),
        },
{
    let cs = chars_of(contents);
    let ranges = line_ranges(&cs);
    let ghost ls = lines(cs@);
    let mut cur = SyncCursor { title: None, artist: None, offset: 0 };
    let mut out: Vec<SyncedLine> = Vec::new();
    let ghost mut entries: Seq<SyncedLineView> = seq![];
    let mut idx: usize = 0;
    while idx < ranges.len()
        invariant
            cs@ == contents@,
            ls == lines(cs@),
            ranges@.len() == ls.len(),
            ranges_match(cs@, ranges@),
            idx <= ranges@.len(),
            sync_lines(ls, 0, sync_start()) == sync_lines(
                ls,
                idx as int,
                SyncState {
                    title: opt_view(cur.title),
                    artist: opt_view(cur.artist),
                    offset: cur.offset,
                    entries,
                },
            ),
            line_views(out@) == sort_by_time(entries),
        decreases ranges@.len() - idx,
    {
        let (lo, hi) = ranges[idx];
        proof {
            assert(ranges@[idx as int] == (lo, hi));
            assert(cs@.subrange(lo as int, hi as int) == ls[idx as int]);
        }
        let ghost st = SyncState {
            title: opt_view(cur.title),
            artist: opt_view(cur.artist),
            offset: cur.offset,
            entries,
        };
        let (t, sh, _) = classify_range(&cs, lo, hi);
        let ghost next = sync_line(st, shape_view(t@, sh));
        match sh {
            Shape::Metadata(ka, kb, va, vb) => {
                if range_eq_ignore_case(&t, ka, kb, &chars_of("ti")) {
                    cur.title = Some(string_of_range(&t, va, vb));
                } else if range_eq_ignore_case(&t, ka, kb, &chars_of("ar")) {
                    cur.artist = Some(string_of_range(&t, va, vb));
                } else if range_eq_ignore_case(&t, ka, kb, &chars_of("offset")) {
                    match i64_in(&t, va, vb) {
                        Some(v) => {
                            cur.offset = v;
                        },
                        None => {},
                    }
                }
            },
            Shape::Timed(stamps, p) => {
                let n = t.len();
                let (ta, tb) = trim_range(&t, p, n);
                let Ghost(e2) = add_stamps(&mut out, &stamps, &t, ta, tb, cur.offset, Ghost(entries));
                proof {
                    entries = e2;
                }
            },
            _ => {},
        }
        proof {
            assert(SyncState {
                title: opt_view(cur.title),
                artist: opt_view(cur.artist),
                offset: cur.offset,
                entries,
            } == next);
        }
        idx = idx + 1;
    }
    proof {
        lemma_sort_by_time_len(entries);
    }
    if out.len() == 0 {
        return Err(SyncError::NoTimedLines);
    }
    Ok(Synced { title: cur.title, artist: cur.artist, lines: out })
}

/// The entries of `s` that start at `t`, in their order in `s`.
pub open spec fn starting_at(s: Seq<SyncedLineView>, t: u64) -> Seq<SyncedLineView>
    decreases s.len(),
{
    if s.len() == 0 {
        seq![]
    } else if s.last().at_ms == t {
        starting_at(s.drop_last(), t).push(s.last())
    } else {
        starting_at(s.drop_last(), t)
    }
}

proof fn lemma_insert_by_time_stable(q: Seq<SyncedLineView>, x: SyncedLineView, t: u64)
    ensures
        starting_at(insert_by_time(q, x), t) == if x.at_ms == t {
            starting_at(q, t).push(x)
        } else {
            starting_at(q, t)
        },
    decreases q.len(),
{
    if q.len() == 0 {
        assert(insert_by_time(q, x) == seq![x]);
        assert(seq![x].drop_last() =~= q);
    } else if q.last().at_ms <= x.at_ms {
        assert(q.push(x).drop_last() =~= q);
    } else {
        let d = q.drop_last();
        lemma_insert_by_time_stable(d, x, t);
        let ins = insert_by_time(d, x).push(q.last());
        assert(insert_by_time(q, x) == ins);
        assert(ins.drop_last() =~= insert_by_time(d, x));
    }
}

/// Sorting by time is stable: for every start time, the entries that start then come out in
/// the order they went in.
pub proof fn lemma_sort_by_time_is_stable(s: Seq<SyncedLineView>, t: u64)
    ensures
        starting_at(sort_by_time(s), t) == starting_at(s, t),
    decreases s.len(),
{
    if s.len() > 0 {
        let d = s.drop_last();
        lemma_sort_by_time_is_stable(d, t);
        lemma_insert_by_time_stable(sort_by_time(d), s.last(), t);
    }
}

/// A parsed timeline is in order of start time, and holds exactly the entries the file's
/// timestamps produced: sorting loses and invents nothing, and entries that start at the same
/// time keep the order they had in the file.
pub proof fn lemma_parse_synced_sorted(contents: Seq<char>)
    ensures
        spec_parse_synced(contents) matches Ok(v) ==> {
            &&& is_sorted_by_time(v.lines)
            &&& v.lines.to_multiset() == sync_lines(
                lines(contents),
                0,
                sync_start(),
            ).entries.to_multiset()
            &&& forall|t: u64| #[trigger] starting_at(v.lines, t) == starting_at(
                sync_lines(lines(contents), 0, sync_start()).entries,
                t,
            )
        },
{
    let es = sync_lines(lines(contents), 0, sync_start()).entries;
    lemma_sort_by_time(es);
    assert forall|t: u64| #[trigger] starting_at(sort_by_time(es), t) == starting_at(es, t) by {
        lemma_sort_by_time_is_stable(es, t);
    }
}

/// Whether a line of an LRC file carries a timestamp with a value: a timed line with at
/// least one stamp whose time can be read.
pub open spec fn has_valued_stamp(line: Seq<char>) -> bool {
    match spec_parse_line(line) {
        LineView::Timed { stamps, .. } => exists|j: int| 0 <= j < stamps.len() && (#[trigger] timestamp_millis(stamps[j])) is Some,
        _ => false,
    }
}

proof fn lemma_stamp_entries_empty(stamps: Seq<Timestamp>, text: Seq<char>, offset: i64)
    ensures
        stamp_entries(stamps, text, offset).len() == 0 <==> forall|j: int| 0 <= j < stamps.len() ==> (#[trigger] timestamp_millis(stamps[j])) is None,
    decreases stamps.len(),
{
    if stamps.len() > 0 {
        let d = stamps.drop_last();
        lemma_stamp_entries_empty(d, text, offset);
        if forall|j: int| 0 <= j < stamps.len() ==> (#[trigger] timestamp_millis(stamps[j])) is None {
            assert forall|j: int| 0 <= j < d.len() implies (#[trigger] timestamp_millis(d[j])) is None by {
                assert(d[j] == stamps[j]);
            }
            assert(timestamp_millis(stamps[stamps.len() - 1]) is None);
        } else {
            let j = choose|j: int| 0 <= j < stamps.len() && (#[trigger] timestamp_millis(stamps[j])) is Some;
            if j < d.len() {
                assert(d[j] == stamps[j]);
                assert(timestamp_millis(d[j]) is Some);
            }
        }
    }
}

proof fn lemma_sync_lines_entries_empty(ls: Seq<Seq<char>>, i: int, st: SyncState)
    requires
        0 <= i <= ls.len(),
    ensures
        sync_lines(ls, i, st).entries.len() == 0 <==> (st.entries.len() == 0 && forall|k: int| i <= k < ls.len() ==> !has_valued_stamp(#[trigger] ls[k])),
    decreases ls.len() - i,
{
    if i < ls.len() {
        let st2 = sync_line(st, spec_parse_line(ls[i]));
        lemma_sync_lines_entries_empty(ls, i + 1, st2);
        match spec_parse_line(ls[i]) {
            LineView::Timed { stamps, text } => {
                lemma_stamp_entries_empty(stamps, trim(text), st.offset);
            },
            _ => {},
        }
        assert(st2.entries.len() == 0 <==> (st.entries.len() == 0 && !has_valued_stamp(ls[i])));
    }
}

/// A file is refused as unsynced exactly when none of its lines carries a timestamp with a
/// value.
pub proof fn lemma_parse_synced_refuses_exactly_unsynced(contents: Seq<char>)
    ensures
        spec_parse_synced(contents) is Err <==> forall|k: int| 0 <= k < lines(contents).len() ==> !has_valued_stamp(#[trigger] lines(contents)[k]),
{
    lemma_sync_lines_entries_empty(lines(contents), 0, sync_start());
}

// ---------------------------------------------------------------------------------------
// Which files to lint
// ---------------------------------------------------------------------------------------

/// Whether `path` names an LRC file, by its extension (any case).
pub open spec fn spec_is_lrc_file(path: Seq<char>) -> bool {
    crate::path::path_extension(path) matches Some(e) && eq_ignore_case("lrc"@, e)
}

pub fn is_lrc_file(path: &str) -> (r: bool)
    ensures
        r == spec_is_lrc_file(path@),
{
    let exts: [&str; 1] = ["lrc"];
    let r = crate::meta::has_extension(path, &exts);
    proof {
        if r {
            let e = crate::path::path_extension(path@)->0;
            let i = choose|i: int| 0 <= i < exts@.len() && eq_ignore_case(#[trigger] exts@[i]@, e);
            assert(i == 0);
        } else if let Some(e) = crate::path::path_extension(path@) {
            if eq_ignore_case("lrc"@, e) {
                assert(exts@[0]@ == "lrc"@);
            }
        }
    }
    r
}

/// A path given to `lint`: a directory, with the files found under it, or anything else.
pub enum LintTarget {
    Dir(Vec<String>),
    Path(String),
}

/// `BTreeSet::insert` on a set of paths held sorted: a path equal to one already there (as
/// `Path` compares them) is left out, else it goes in at its place.
pub open spec fn insert_path_set(s: Seq<Seq<char>>, x: Seq<char>) -> Seq<Seq<char>>
    decreases s.len(),
{
    if s.len() == 0 {
        seq![x]
    } else {
        let o = crate::path::path_order(s.last(), x);
        if o == 0 {
            s
        } else if o < 0 {
            s.push(x)
        } else {
            insert_path_set(s.drop_last(), x).push(s.last())
        }
    }
}

pub open spec fn insert_lrc_files(set: Seq<Seq<char>>, files: Seq<Seq<char>>) -> Seq<Seq<char>>
    decreases files.len(),
{
    if files.len() == 0 {
        set
    } else {
        let s = insert_lrc_files(set, files.drop_last());
        if spec_is_lrc_file(files.last()) {
            insert_path_set(s, files.last())
        } else {
            s
        }
    }
}

pub enum LintTargetView {
    Dir(Seq<Seq<char>>),
    Path(Seq<char>),
}

pub open spec fn target_views(v: Seq<LintTarget>) -> Seq<LintTargetView> {
    v.map_values(|t: LintTarget| match t {
        LintTarget::Dir(fs) => LintTargetView::Dir(crate::runner::string_views(fs@)),
        LintTarget::Path(p) => LintTargetView::Path(p@),
    })
}

/// The LRC files to lint, sorted and each once, and the paths given that are neither a
/// directory nor an LRC file.
pub open spec fn spec_resolve_lrc_paths(ts: Seq<LintTargetView>) -> (Seq<Seq<char>>, Seq<Seq<char>>)
    decreases ts.len(),
{
    if ts.len() == 0 {
        (seq![], seq![])
    } else {
        let (files, skipped) = spec_resolve_lrc_paths(ts.drop_last());
        match ts.last() {
            LintTargetView::Dir(fs) => (insert_lrc_files(files, fs), skipped),
            LintTargetView::Path(p) => if spec_is_lrc_file(p) {
                (insert_path_set(files, p), skipped)
            } else {
                (files, skipped.push(p))
            },
        }
    }
}

/// Each path strictly before the next, as `Path` orders them: sorted, and none twice.
pub open spec fn strictly_path_sorted(s: Seq<Seq<char>>) -> bool {
    forall|i: int, j: int| 0 <= i < j < s.len() ==> crate::path::path_order(#[trigger] s[i], #[trigger] s[j]) < 0
}

proof fn lemma_path_order_strict(a: Seq<char>, b: Seq<char>, c: Seq<char>)
    requires
        crate::path::path_order(a, b) < 0,
        crate::path::path_order(b, c) < 0,
    ensures
        crate::path::path_order(a, c) < 0,
{
    crate::path::lemma_path_order_laws(a, b, c);
    crate::path::lemma_path_order_laws(c, a, b);
    crate::path::lemma_path_order_laws(b, c, a);
}

proof fn lemma_insert_path_set_all(s: Seq<Seq<char>>, x: Seq<char>, p: spec_fn(Seq<char>) -> bool)
    requires
        forall|k: int| 0 <= k < s.len() ==> p(#[trigger] s[k]),
        p(x),
    ensures
        forall|k: int| 0 <= k < insert_path_set(s, x).len() ==> p(#[trigger] insert_path_set(s, x)[k]),
    decreases s.len(),
{
    if s.len() > 0 {
        let o = crate::path::path_order(s.last(), x);
        if o > 0 {
            let d = s.drop_last();
            assert forall|k: int| 0 <= k < d.len() implies p(#[trigger] d[k]) by {
                assert(d[k] == s[k]);
            }
            lemma_insert_path_set_all(d, x, p);
            let r = insert_path_set(d, x);
            assert forall|k: int| 0 <= k < insert_path_set(s, x).len() implies p(#[trigger] insert_path_set(s, x)[k]) by {
                if k < r.len() {
                    assert(insert_path_set(s, x)[k] == r[k]);
                }
            }
        } else if o < 0 {
            assert forall|k: int| 0 <= k < insert_path_set(s, x).len() implies p(#[trigger] insert_path_set(s, x)[k]) by {
                if k < s.len() {
                    assert(insert_path_set(s, x)[k] == s[k]);
                }
            }
        }
    }
}

proof fn lemma_insert_path_set_sorted(s: Seq<Seq<char>>, x: Seq<char>)
    requires
        strictly_path_sorted(s),
    ensures
        strictly_path_sorted(insert_path_set(s, x)),
    decreases s.len(),
{
    if s.len() > 0 {
        let last = s.last();
        let o = crate::path::path_order(last, x);
        crate::path::lemma_path_order_laws(last, x, x);
        if o < 0 {
            let r = insert_path_set(s, x);
            assert forall|i: int, j: int| 0 <= i < j < r.len() implies crate::path::path_order(#[trigger] r[i], #[trigger] r[j]) < 0 by {
                if j < s.len() {
                    assert(r[i] == s[i] && r[j] == s[j]);
                } else if i < s.len() - 1 {
                    assert(crate::path::path_order(s[i], s[s.len() - 1]) < 0);
                    lemma_path_order_strict(s[i], last, x);
                }
            }
        } else if o > 0 {
            let d = s.drop_last();
            assert(strictly_path_sorted(d)) by {
                assert forall|i: int, j: int| 0 <= i < j < d.len() implies crate::path::path_order(#[trigger] d[i], #[trigger] d[j]) < 0 by {
                    assert(d[i] == s[i] && d[j] == s[j]);
                }
            }
            lemma_insert_path_set_sorted(d, x);
            let inner = insert_path_set(d, x);
            let p = |e: Seq<char>| crate::path::path_order(e, last) < 0;
            assert forall|k: int| 0 <= k < d.len() implies p(#[trigger] d[k]) by {
                assert(d[k] == s[k]);
                assert(crate::path::path_order(s[k], s[s.len() - 1]) < 0);
            }
            lemma_insert_path_set_all(d, x, p);
            let r = insert_path_set(s, x);
            assert(r == inner.push(last));
            assert forall|i: int, j: int| 0 <= i < j < r.len() implies crate::path::path_order(#[trigger] r[i], #[trigger] r[j]) < 0 by {
                if j < inner.len() {
                    assert(r[i] == inner[i] && r[j] == inner[j]);
                } else {
                    assert(r[i] == inner[i]);
                    assert(p(inner[i]));
                }
            }
        }
    }
}

proof fn lemma_insert_lrc_files(set: Seq<Seq<char>>, files: Seq<Seq<char>>)
    requires
        strictly_path_sorted(set),
        forall|k: int| 0 <= k < set.len() ==> spec_is_lrc_file(#[trigger] set[k]),
    ensures
        strictly_path_sorted(insert_lrc_files(set, files)),
        forall|k: int| 0 <= k < insert_lrc_files(set, files).len() ==> spec_is_lrc_file(#[trigger] insert_lrc_files(set, files)[k]),
    decreases files.len(),
{
    if files.len() > 0 {
        lemma_insert_lrc_files(set, files.drop_last());
        let s = insert_lrc_files(set, files.drop_last());
        if spec_is_lrc_file(files.last()) {
            lemma_insert_path_set_sorted(s, files.last());
            lemma_insert_path_set_all(s, files.last(), |e: Seq<char>| spec_is_lrc_file(e));
        }
    }
}

/// `lint` checks only LRC files, each once, in path order, however they were named: directly
/// or found under a directory, and however often.
pub proof fn lemma_lint_checks_each_file_once_in_order(ts: Seq<LintTargetView>)
    ensures
        strictly_path_sorted(spec_resolve_lrc_paths(ts).0),
        forall|k: int| 0 <= k < spec_resolve_lrc_paths(ts).0.len() ==> spec_is_lrc_file(#[trigger] spec_resolve_lrc_paths(ts).0[k]),
    decreases ts.len(),
{
    if ts.len() > 0 {
        lemma_lint_checks_each_file_once_in_order(ts.drop_last());
        let files = spec_resolve_lrc_paths(ts.drop_last()).0;
        match ts.last() {
            LintTargetView::Dir(fs) => {
                lemma_insert_lrc_files(files, fs);
            },
            LintTargetView::Path(p) => {
                if spec_is_lrc_file(p) {
                    lemma_insert_path_set_sorted(files, p);
                    lemma_insert_path_set_all(files, p, |e: Seq<char>| spec_is_lrc_file(e));
                }
            },
        }
    }
}

fn insert_into_set(out: &mut Vec<String>, p: String)
    ensures
        crate::runner::string_views(final(out)@) == insert_path_set(crate::runner::string_views(old(out)@), p@),
    decreases old(out)@.len(),
{
    let n = out.len();
    if n == 0 {
        out.push(p);
        proof {
            assert(crate::runner::string_views(out@) =~= seq![p@]);
        }
        return;
    }
    let o = crate::path::path_order_of(out[n - 1].as_str(), p.as_str());
    proof {
        assert(crate::runner::string_views(old(out)@).last() == out@[n - 1]@);
    }
    if o == 0 {
        return;
    }
    if o < 0 {
        let ghost before = crate::runner::string_views(out@);
        out.push(p);
        proof {
            assert(crate::runner::string_views(out@) =~= before.push(p@));
        }
        return;
    }
    let last = out.pop().unwrap();
    proof {
        assert(crate::runner::string_views(out@) =~= crate::runner::string_views(old(out)@).drop_last());
    }
    insert_into_set(out, p);
    let ghost mid = crate::runner::string_views(out@);
    out.push(last);
    proof {
        assert(crate::runner::string_views(out@) =~= mid.push(last@));
    }
}

/// Split the paths given to `lint` into the LRC files to check, sorted and each once (those
/// found under directories and those named directly), and the paths that are not LRC files.
pub fn resolve_lrc_paths(targets: Vec<LintTarget>) -> (r: (Vec<String>, Vec<String>))
    ensures
        (crate::runner::string_views(r.0@), crate::runner::string_views(r.1@)) == spec_resolve_lrc_paths(target_views(targets@)),
{
    let ghost tv = target_views(targets@);
    let mut files: Vec<String> = Vec::new();
    let mut skipped: Vec<String> = Vec::new();
    let mut k: usize = 0;
    while k < targets.len()
        invariant
            tv == target_views(targets@),
            k <= targets.len(),
            (crate::runner::string_views(files@), crate::runner::string_views(skipped@)) == spec_resolve_lrc_paths(tv.take(k as int)),
        decreases targets.len() - k,
    {
        proof {
            assert(tv.take(k as int + 1).drop_last() =~= tv.take(k as int));
        }
        match &targets[k] {
            LintTarget::Dir(found) => {
                let ghost fv = crate::runner::string_views(found@);
                let ghost start = crate::runner::string_views(files@);
                let mut j: usize = 0;
                while j < found.len()
                    invariant
                        fv == crate::runner::string_views(found@),
                        j <= found.len(),
                        crate::runner::string_views(files@) == insert_lrc_files(start, fv.take(j as int)),
                    decreases found.len() - j,
                {
                    proof {
                        assert(fv.take(j as int + 1).drop_last() =~= fv.take(j as int));
                    }
                    if is_lrc_file(found[j].as_str()) {
                        insert_into_set(&mut files, found[j].clone());
                    }
                    j = j + 1;
                }
                proof {
                    assert(fv.take(found.len() as int) =~= fv);
                }
            },
            LintTarget::Path(p) => {
                if is_lrc_file(p.as_str()) {
                    insert_into_set(&mut files, p.clone());
                } else {
                    let ghost before = crate::runner::string_views(skipped@);
                    skipped.push(p.clone());
                    proof {
                        assert(crate::runner::string_views(skipped@) =~= before.push(p@));
                    }
                }
            },
        }
        k = k + 1;
    }
    proof {
        assert(tv.take(targets.len() as int) =~= tv);
    }
    (files, skipped)
}

// ---------------------------------------------------------------------------------------
// Reporting
// ---------------------------------------------------------------------------------------

/// How a finding is reported: `path:line: severity: message`, without the line number for a
/// finding about the whole file.
pub open spec fn spec_report_line(path: Seq<char>, d: DiagnosticView) -> Seq<char> {
    if d.line == 0 {
        path + ": "@ + d.severity.spec_label() + ": "@ + d.message
    } else {
        path + seq![':'] + decimal(d.line as nat) + ": "@ + d.severity.spec_label() + ": "@ + d.message
    }
}

pub fn report_line(path: &str, d: &Diagnostic) -> (r: String)
    ensures
        r@ == spec_report_line(path@, d@),
{
    let mut out = String::new();
    crate::text::push_str(&mut out, path);
    if d.line != 0 {
        crate::text::push_char(&mut out, ':');
        push_decimal(&mut out, d.line as u64);
    }
    crate::text::push_str(&mut out, ": ");
    crate::text::push_str(&mut out, d.severity.label());
    crate::text::push_str(&mut out, ": ");
    crate::text::push_str(&mut out, d.message.as_str());
    proof {
        assert(out@ =~= spec_report_line(path@, d@));
    }
    out
}

/// Totals over a `lint` run.
#[derive(Debug, Clone, Copy, Default, PartialEq, Eq, Structural)]
pub struct LintTally {
    pub files_checked: u32,
    pub errors: u32,
    pub warnings: u32,
}

pub open spec fn sat_inc(n: u32) -> u32 {
    if n == u32::MAX {
        n
    } else {
        (n + 1) as u32
    }
}

impl LintTally {
    /// A file was read and checked.
    pub fn checked(&mut self)
        ensures
            *final(self) == (LintTally { files_checked: sat_inc(old(self).files_checked), ..*old(self) }),
    {
        self.files_checked = self.files_checked.saturating_add(1);
    }

    /// A file could not be read: it counts as an error.
    pub fn unreadable(&mut self)
        ensures
            *final(self) == (LintTally { errors: sat_inc(old(self).errors), ..*old(self) }),
    {
        self.errors = self.errors.saturating_add(1);
    }

    /// Count one finding by its severity.
    pub fn count(&mut self, severity: Severity)
        ensures
            *final(self) == match severity {
                Severity::Error => LintTally { errors: sat_inc(old(self).errors), ..*old(self) },
                Severity::Warning => LintTally { warnings: sat_inc(old(self).warnings), ..*old(self) },
            },
    {
        match severity {
            Severity::Error => self.errors = self.errors.saturating_add(1),
            Severity::Warning => self.warnings = self.warnings.saturating_add(1),
        }
    }

    /// `N files checked, N errors, N warnings`.
    pub fn line(&self) -> (r: String)
        ensures
            r@ == decimal(self.files_checked as nat) + " files checked, "@ + decimal(self.errors as nat)
                + " errors, "@ + decimal(self.warnings as nat) + " warnings"@,
    {
        let mut out = String::new();
        push_decimal(&mut out, self.files_checked as u64);
        crate::text::push_str(&mut out, " files checked, ");
        push_decimal(&mut out, self.errors as u64);
        crate::text::push_str(&mut out, " errors, ");
        push_decimal(&mut out, self.warnings as u64);
        crate::text::push_str(&mut out, " warnings");
        proof {
            assert(out@ =~= decimal(self.files_checked as nat) + " files checked, "@ + decimal(self.errors as nat)
                + " errors, "@ + decimal(self.warnings as nat) + " warnings"@);
        }
        out
    }

    /// Whether the run passes: no errors, and under `strict` no warnings either.
    pub fn passed(&self, strict: bool) -> (r: bool)
        ensures
            r == (self.errors == 0 && !(strict && self.warnings > 0)),
    {
        self.errors == 0 && !(strict && self.warnings > 0)
    }
}

} // verus!
