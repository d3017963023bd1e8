//! Character-level text helpers shared by every parser and renderer in the crate.
//!
//! Text is modelled as `Seq<char>`. Executable helpers work on `&[char]` buffers and on
//! index ranges into them, so a parser can walk a whole file without copying it line by line.
use vstd::prelude::*;

verus! {

// ---------------------------------------------------------------------------------------
// Character classes
// ---------------------------------------------------------------------------------------

/// Unicode `White_Space`, the property `char::is_whitespace` and `str::trim` use.
pub open spec fn is_ws(c: char) -> bool {
    let u = c as u32;
    (9 <= u && u <= 13) || u == 32 || u == 0x85 || u == 0xa0 || u == 0x1680 || (0x2000 <= u
        && u <= 0x200a) || u == 0x2028 || u == 0x2029 || u == 0x202f || u == 0x205f || u
        == 0x3000
}

pub open spec fn is_digit(c: char) -> bool {
    '0' <= c && c <= '9'
}

pub open spec fn is_alpha(c: char) -> bool {
    ('a' <= c && c <= 'z') || ('A' <= c && c <= 'Z')
}

/// ASCII lowercase, leaving every other character alone.
pub open spec fn ascii_lower(c: char) -> char {
    if 'A' <= c && c <= 'Z' {
        ((c as u32) + 32) as char
    } else {
        c
    }
}

pub open spec fn digit_value(c: char) -> nat {
    ((c as u32) - ('0' as u32)) as nat
}

pub open spec fn digit_char(d: nat) -> char
    recommends
        d < 10,
{
    ((d + ('0' as u32)) as u32) as char
}

pub fn is_whitespace(c: char) -> (r: bool)
    ensures
        r == is_ws(c),
{
    let u = c as u32;
    (9 <= u && u <= 13) || u == 32 || u == 0x85 || u == 0xa0 || u == 0x1680 || (0x2000 <= u
        && u <= 0x200a) || u == 0x2028 || u == 0x2029 || u == 0x202f || u == 0x205f || u
        == 0x3000
}

pub fn is_ascii_digit(c: char) -> (r: bool)
    ensures
        r == is_digit(c),
{
    '0' <= c && c <= '9'
}

pub fn is_ascii_alphabetic(c: char) -> (r: bool)
    ensures
        r == is_alpha(c),
{
    ('a' <= c && c <= 'z') || ('A' <= c && c <= 'Z')
}

pub fn to_ascii_lower(c: char) -> (r: char)
    ensures
        r == ascii_lower(c),
{
    if 'A' <= c && c <= 'Z' {
        let b = (c as u8) + 32;
        b as char
    } else {
        c
    }
}

// ---------------------------------------------------------------------------------------
// Trimming
// ---------------------------------------------------------------------------------------

pub open spec fn trim_start(s: Seq<char>) -> Seq<char>
    decreases s.len(),
{
    if s.len() > 0 && is_ws(s[0]) {
        trim_start(s.drop_first())
    } else {
        s
    }
}

pub open spec fn trim_end(s: Seq<char>) -> Seq<char>
    decreases s.len(),
{
    if s.len() > 0 && is_ws(s.last()) {
        trim_end(s.drop_last())
    } else {
        s
    }
}

/// `str::trim`: both ends, Unicode whitespace.
pub open spec fn trim(s: Seq<char>) -> Seq<char> {
    trim_end(trim_start(s))
}

/// First index in `lo..hi` whose character is not whitespace (or `hi`).
pub fn skip_ws(s: &[char], lo: usize, hi: usize) -> (r: usize)
    requires
        lo <= hi <= s@.len(),
    ensures
        lo <= r <= hi,
        s@.subrange(r as int, hi as int) == trim_start(s@.subrange(lo as int, hi as int)),
{
    let mut i = lo;
    while i < hi && is_whitespace(s[i])
        invariant
            lo <= i <= hi <= s@.len(),
            trim_start(s@.subrange(i as int, hi as int)) == trim_start(
                s@.subrange(lo as int, hi as int),
            ),
        decreases hi - i,
    {
        assert(s@.subrange(i as int, hi as int).drop_first() =~= s@.subrange(
            i + 1,
            hi as int,
        ));
        i = i + 1;
    }
    i
}

/// One past the last index in `lo..hi` whose character is not whitespace (or `lo`).
pub fn skip_ws_back(s: &[char], lo: usize, hi: usize) -> (r: usize)
    requires
        lo <= hi <= s@.len(),
    ensures
        lo <= r <= hi,
        s@.subrange(lo as int, r as int) == trim_end(s@.subrange(lo as int, hi as int)),
{
    let mut j = hi;
    while j > lo && is_whitespace(s[j - 1])
        invariant
            lo <= j <= hi <= s@.len(),
            trim_end(s@.subrange(lo as int, j as int)) == trim_end(
                s@.subrange(lo as int, hi as int),
            ),
        decreases j - lo,
    {
        assert(s@.subrange(lo as int, j as int).drop_last() =~= s@.subrange(
            lo as int,
            j - 1,
        ));
        j = j - 1;
    }
    j
}

pub proof fn lemma_trim_start_is_suffix(s: Seq<char>)
    ensures
        trim_start(s).len() <= s.len(),
        trim_start(s) == s.subrange(s.len() - trim_start(s).len(), s.len() as int),
        trim_start(s).len() > 0 ==> !is_ws(trim_start(s)[0]),
    decreases s.len(),
{
    if s.len() > 0 && is_ws(s[0]) {
        lemma_trim_start_is_suffix(s.drop_first());
        assert(s.drop_first().subrange(
            s.drop_first().len() - trim_start(s).len(),
            s.drop_first().len() as int,
        ) =~= s.subrange(s.len() - trim_start(s).len(), s.len() as int));
    } else {
        assert(s.subrange(0, s.len() as int) =~= s);
    }
}

pub proof fn lemma_trim_end_is_prefix(s: Seq<char>)
    ensures
        trim_end(s).len() <= s.len(),
        trim_end(s) == s.subrange(0, trim_end(s).len() as int),
        trim_end(s).len() > 0 ==> !is_ws(trim_end(s).last()),
    decreases s.len(),
{
    if s.len() > 0 && is_ws(s.last()) {
        lemma_trim_end_is_prefix(s.drop_last());
        assert(s.drop_last().subrange(0, trim_end(s).len() as int) =~= s.subrange(
            0,
            trim_end(s).len() as int,
        ));
    } else {
        assert(s.subrange(0, s.len() as int) =~= s);
    }
}

/// Trimming twice trims nothing more.
pub proof fn lemma_trim_trimmed(s: Seq<char>)
    ensures
        trim(trim(s)) == trim(s),
        trim(s).len() > 0 ==> !is_ws(trim(s)[0]) && !is_ws(trim(s).last()),
{
    let u = trim_start(s);
    let t = trim_end(u);
    lemma_trim_start_is_suffix(s);
    lemma_trim_end_is_prefix(u);
    if t.len() > 0 {
        assert(t[0] == u[0]);
        assert(trim_start(t) == t);
        assert(trim_end(t) == t);
    } else {
        assert(trim_start(t) == t);
    }
}

proof fn lemma_trim_end_keeps_leading(u: Seq<char>)
    requires
        u.len() > 0,
        !is_ws(u[0]),
    ensures
        trim_end(u).len() > 0,
    decreases u.len(),
{
    if is_ws(u.last()) {
        assert(u.len() > 1);
        assert(u.drop_last()[0] == u[0]);
        lemma_trim_end_keeps_leading(u.drop_last());
    }
}

/// Whether `s` trims to nothing: `s.trim().is_empty()`.
pub fn is_blank(s: &str) -> (r: bool)
    ensures
        r == (trim(s@).len() == 0),
{
    let cs = chars_of(s);
    let n = cs.len();
    let a = skip_ws(cs.as_slice(), 0, n);
    proof {
        assert(cs@.subrange(0, n as int) =~= s@);
        let u = trim_start(s@);
        if a < n {
            assert(u.len() > 0);
            lemma_trim_start_is_suffix(s@);
            assert(u[0] == cs@[a as int]);
            lemma_trim_end_keeps_leading(u);
        } else {
            assert(u.len() == 0);
        }
    }
    a == n
}

/// Bounds of `trim(s[lo..hi])` as a sub-range of `s`.
pub fn trim_range(s: &[char], lo: usize, hi: usize) -> (r: (usize, usize))
    requires
        lo <= hi <= s@.len(),
    ensures
        lo <= r.0 <= r.1 <= hi,
        s@.subrange(r.0 as int, r.1 as int) == trim(s@.subrange(lo as int, hi as int)),
{
    let a = skip_ws(s, lo, hi);
    let b = skip_ws_back(s, a, hi);
    (a, b)
}

// ---------------------------------------------------------------------------------------
// Searching and splitting
// ---------------------------------------------------------------------------------------

/// Index of the first `c` at or after `pos`, or `s.len()` when there is none.
pub open spec fn find_from(s: Seq<char>, pos: int, c: char) -> int
    decreases s.len() - pos,
{
    if pos < 0 || pos >= s.len() {
        s.len() as int
    } else if s[pos] == c {
        pos
    } else {
        find_from(s, pos + 1, c)
    }
}

pub proof fn lemma_find_from(s: Seq<char>, pos: int, c: char)
    requires
        0 <= pos <= s.len(),
    ensures
        pos <= find_from(s, pos, c) <= s.len(),
        find_from(s, pos, c) < s.len() ==> s[find_from(s, pos, c)] == c,
        forall|k: int| pos <= k < find_from(s, pos, c) ==> s[k] != c,
    decreases s.len() - pos,
{
    if pos < s.len() && s[pos] != c {
        lemma_find_from(s, pos + 1, c);
    }
}

/// Appending a character leaves a search that succeeds before the end unchanged; one that
/// fails runs on to the new character.
pub proof fn lemma_find_from_push(s: Seq<char>, x: char, pos: int, c: char)
    requires
        0 <= pos <= s.len(),
    ensures
        find_from(s.push(x), pos, c) == if find_from(s, pos, c) < s.len() {
            find_from(s, pos, c)
        } else if x == c {
            s.len() as int
        } else {
            (s.len() + 1) as int
        },
    decreases s.len() - pos,
{
    let t = s.push(x);
    if pos < s.len() {
        assert(t[pos] == s[pos]);
        if s[pos] != c {
            lemma_find_from_push(s, x, pos + 1, c);
        }
    } else {
        if x != c {
            assert(find_from(t, pos + 1, c) == t.len());
        }
    }
}

/// The lines of `s` and of `s` with a newline appended agree, but that the last line of the
/// longer text loses a trailing carriage return the shorter one keeps.
pub proof fn lemma_lines_push_newline(s: Seq<char>, pos: int)
    requires
        s.len() > 0,
        s.last() != '\n',
        0 <= pos,
        pos != s.len(),
    ensures
        lines_from(s.push('\n'), pos).len() == lines_from(s, pos).len(),
        forall|i: int| 0 <= i < lines_from(s, pos).len() ==> (#[trigger] lines_from(s, pos)[i]) == lines_from(s.push('\n'), pos)[i]
            || lines_from(s, pos)[i] == lines_from(s.push('\n'), pos)[i].push('\r'),
    decreases s.len() + 1 - pos,
{
    let t = s.push('\n');
    if pos < s.len() {
        lemma_find_from(s, pos, '\n');
        lemma_find_from_push(s, '\n', pos, '\n');
        let nl = find_from(s, pos, '\n');
        assert(find_from(t, pos, '\n') == nl);
        assert(nl != s.len() - 1);
        let next = nl + 1;
        lemma_lines_push_newline(s, next);
        assert(t.subrange(pos, nl) =~= s.subrange(pos, nl));
        let raw = s.subrange(pos, nl);
        if nl == s.len() && raw.len() > 0 && raw.last() == '\r' {
            assert(raw =~= raw.drop_last().push('\r'));
        }
        let a = lines_from(s, pos);
        let b = lines_from(t, pos);
        assert(a == seq![line_at(s, pos)] + lines_from(s, next));
        assert(b == seq![line_at(t, pos)] + lines_from(t, next));
        assert forall|i: int| 0 <= i < a.len() implies (#[trigger] a[i]) == b[i] || a[i] == b[i].push('\r') by {
            if i > 0 {
                assert(a[i] == lines_from(s, next)[i - 1]);
                assert(b[i] == lines_from(t, next)[i - 1]);
            }
        }
    }
}

/// Dropping a trailing carriage return keeps a line's leading whitespace trimmed the same.
pub proof fn lemma_trim_start_push_cr(x: Seq<char>)
    ensures
        trim_start(x.push('\r')) == if trim_start(x).len() == 0 {
            Seq::<char>::empty()
        } else {
            trim_start(x).push('\r')
        },
    decreases x.len(),
{
    let y = x.push('\r');
    if x.len() == 0 {
        assert(is_ws('\r'));
        assert(y.drop_first() =~= Seq::<char>::empty());
        assert(trim_start(Seq::<char>::empty()) == Seq::<char>::empty());
        assert(trim_start(y) == trim_start(y.drop_first()));
    } else if is_ws(x[0]) {
        assert(y[0] == x[0]);
        assert(y.drop_first() =~= x.drop_first().push('\r'));
        lemma_trim_start_push_cr(x.drop_first());
    } else {
        assert(y[0] == x[0]);
    }
}

/// `find_from` over a range of a buffer: the first `c` in `lo..hi`, or `hi`.
pub fn find_char(s: &[char], lo: usize, hi: usize, c: char) -> (r: usize)
    requires
        lo <= hi <= s@.len(),
    ensures
        lo <= r <= hi,
        r == lo + find_from(s@.subrange(lo as int, hi as int), 0, c),
{
    let ghost t = s@.subrange(lo as int, hi as int);
    let mut i = lo;
    while i < hi && s[i] != c
        invariant
            lo <= i <= hi <= s@.len(),
            t == s@.subrange(lo as int, hi as int),
            find_from(t, (i - lo) as int, c) == find_from(t, 0, c),
        decreases hi - i,
    {
        i = i + 1;
    }
    i
}

/// `str::lines`: split on `\n`, dropping one `\r` before each `\n`, with no final empty line.
pub open spec fn lines(s: Seq<char>) -> Seq<Seq<char>> {
    lines_from(s, 0)
}

pub open spec fn line_at(s: Seq<char>, pos: int) -> Seq<char> {
    let nl = find_from(s, pos, '\n');
    let raw = s.subrange(pos, nl);
    if nl < s.len() && raw.len() > 0 && raw.last() == '\r' {
        raw.drop_last()
    } else {
        raw
    }
}

pub open spec fn lines_from(s: Seq<char>, pos: int) -> Seq<Seq<char>>
    decreases s.len() + 1 - pos,
    via lines_from_decreases
{
    if pos < 0 || pos >= s.len() {
        seq![]
    } else {
        seq![line_at(s, pos)] + lines_from(s, find_from(s, pos, '\n') + 1)
    }
}

#[via_fn]
proof fn lines_from_decreases(s: Seq<char>, pos: int) {
    if 0 <= pos < s.len() {
        lemma_find_from(s, pos, '\n');
    }
}

/// Each range in `r` picks out the matching entry of `lines(s)`.
pub open spec fn ranges_match(s: Seq<char>, r: Seq<(usize, usize)>) -> bool {
    &&& r.len() == lines(s).len()
    &&& forall|k: int|
        0 <= k < r.len() ==> {
            &&& (#[trigger] r[k]).0 <= r[k].1 <= s.len()
            &&& s.subrange(r[k].0 as int, r[k].1 as int) == lines(s)[k]
        }
}

/// Char ranges of every line of `s`, in order (see [`lines`]).
pub fn line_ranges(s: &[char]) -> (r: Vec<(usize, usize)>)
    ensures
        ranges_match(s@, r@),
{
    let n = s.len();
    let mut out: Vec<(usize, usize)> = Vec::new();
    let mut pos: usize = 0;
    proof {
        assert(s@.subrange(0, n as int) =~= s@);
    }
    while pos < n
        invariant
            n == s@.len(),
            pos <= n,
            lines(s@) == out@.map_values(
                |p: (usize, usize)| s@.subrange(p.0 as int, p.1 as int),
            ) + lines_from(s@, pos as int),
            forall|k: int| 0 <= k < out@.len() ==> (#[trigger] out@[k]).0 <= out@[k].1 <= s@.len(),
        decreases n - pos,
    {
        let nl = find_char(s, pos, n, '\n');
        proof {
            lemma_find_from(s@.subrange(pos as int, n as int), 0, '\n');
            lemma_find_shift(s@, pos as int);
        }
        let end = if nl < n && nl > pos && s[nl - 1] == '\r' {
            nl - 1
        } else {
            nl
        };
        proof {
            let raw = s@.subrange(pos as int, nl as int);
            assert(raw.len() > 0 ==> raw.last() == s@[nl - 1]);
            if nl < n && nl > pos && s@[nl - 1] == '\r' {
                assert(raw.drop_last() =~= s@.subrange(pos as int, end as int));
            }
            assert(s@.subrange(pos as int, end as int) == line_at(s@, pos as int));
            let old_map = out@.map_values(|p: (usize, usize)| s@.subrange(p.0 as int, p.1 as int));
            assert(out@.push((pos, end)).map_values(
                |p: (usize, usize)| s@.subrange(p.0 as int, p.1 as int),
            ) =~= old_map.push(s@.subrange(pos as int, end as int)));
            assert(lines_from(s@, pos as int) == seq![line_at(s@, pos as int)] + lines_from(
                s@,
                nl + 1,
            ));
            assert(old_map + lines_from(s@, pos as int) =~= old_map.push(
                s@.subrange(pos as int, end as int),
            ) + lines_from(s@, nl + 1));
        }
        out.push((pos, end));
        if nl < n {
            pos = nl + 1;
        } else {
            proof {
                assert(lines_from(s@, nl + 1) =~= seq![]);
                assert(lines_from(s@, n as int) =~= seq![]);
            }
            pos = n;
        }
    }
    proof {
        assert(lines_from(s@, pos as int) =~= seq![]);
        let m = out@.map_values(|p: (usize, usize)| s@.subrange(p.0 as int, p.1 as int));
        assert(lines(s@) =~= m);
        assert forall|k: int| 0 <= k < out@.len() implies s@.subrange(
            (#[trigger] out@[k]).0 as int,
            out@[k].1 as int,
        ) == lines(s@)[k] by {
            assert(m[k] == s@.subrange(out@[k].0 as int, out@[k].1 as int));
        }
    }
    out
}

/// A search inside a suffix lands where the same search over the whole sequence lands.
pub proof fn lemma_find_shift(s: Seq<char>, pos: int)
    requires
        0 <= pos <= s.len(),
    ensures
        forall|c: char|
            #![trigger find_from(s, pos, c)]
            pos + find_from(s.subrange(pos, s.len() as int), 0, c) == find_from(s, pos, c),
{
    assert forall|c: char| #![trigger find_from(s, pos, c)]
        pos + find_from(s.subrange(pos, s.len() as int), 0, c) == find_from(s, pos, c) by {
        lemma_find_shift_at(s, pos, 0, c);
    }
}

proof fn lemma_find_shift_at(s: Seq<char>, pos: int, k: int, c: char)
    requires
        0 <= pos <= s.len(),
        0 <= k <= s.len() - pos,
    ensures
        pos + find_from(s.subrange(pos, s.len() as int), k, c) == find_from(s, pos + k, c),
    decreases s.len() - pos - k,
{
    let t = s.subrange(pos, s.len() as int);
    if k < t.len() && t[k] != c {
        lemma_find_shift_at(s, pos, k + 1, c);
    }
}

// ---------------------------------------------------------------------------------------
// Decimal numbers
// ---------------------------------------------------------------------------------------

pub open spec fn all_digits(s: Seq<char>) -> bool {
    forall|i: int| 0 <= i < s.len() ==> is_digit(#[trigger] s[i])
}

/// Value of a run of decimal digits, most significant first.
pub open spec fn digits_value(s: Seq<char>) -> nat
    decreases s.len(),
{
    if s.len() == 0 {
        0
    } else {
        digits_value(s.drop_last()) * 10 + digit_value(s.last())
    }
}

/// `u32::from_str` on a string already known to be all digits: `None` on overflow.
pub open spec fn parse_u32(s: Seq<char>) -> Option<u32> {
    if s.len() > 0 && all_digits(s) && digits_value(s) <= u32::MAX {
        Some(digits_value(s) as u32)
    } else {
        None
    }
}

proof fn lemma_digits_value_step(s: Seq<char>, i: int)
    requires
        0 <= i < s.len(),
    ensures
        digits_value(s.take(i + 1)) == digits_value(s.take(i)) * 10 + digit_value(s[i]),
{
    assert(s.take(i + 1).drop_last() =~= s.take(i));
}

/// Whether `s[lo..hi]` is all ASCII digits.
pub fn all_digits_in(s: &[char], lo: usize, hi: usize) -> (r: bool)
    requires
        lo <= hi <= s@.len(),
    ensures
        r == all_digits(s@.subrange(lo as int, hi as int)),
{
    let mut i = lo;
    while i < hi
        invariant
            lo <= i <= hi <= s@.len(),
            forall|k: int| lo <= k < i ==> is_digit(#[trigger] s@[k]),
        decreases hi - i,
    {
        if !is_ascii_digit(s[i]) {
            assert(s@.subrange(lo as int, hi as int)[i - lo] == s@[i as int]);
            return false;
        }
        i = i + 1;
    }
    assert forall|k: int| 0 <= k < hi - lo implies is_digit(
        #[trigger] s@.subrange(lo as int, hi as int)[k],
    ) by {
        assert(s@.subrange(lo as int, hi as int)[k] == s@[lo + k]);
    }
    true
}

/// Value of the digits in `s[lo..hi]`, or `None` past `limit`.
pub fn digits_in(s: &[char], lo: usize, hi: usize, limit: u64) -> (r: Option<u64>)
    requires
        lo <= hi <= s@.len(),
        all_digits(s@.subrange(lo as int, hi as int)),
    ensures
        r matches Some(v) ==> v == digits_value(s@.subrange(lo as int, hi as int)) && v <= limit,
        r is None ==> digits_value(s@.subrange(lo as int, hi as int)) > limit,
{
    let ghost t = s@.subrange(lo as int, hi as int);
    let mut acc: u128 = 0;
    let mut i = lo;
    proof {
        assert(t.take(0) =~= Seq::<char>::empty());
    }
    while i < hi
        invariant
            lo <= i <= hi <= s@.len(),
            t == s@.subrange(lo as int, hi as int),
            all_digits(t),
            acc == digits_value(t.take(i - lo)),
            acc <= limit,
        decreases hi - i,
    {
        let c = s[i];
        proof {
            assert(t[i - lo] == c);
            assert(is_digit(c));
            lemma_digits_value_step(t, i - lo);
        }
        let d = (c as u32 - '0' as u32) as u128;
        let next = acc * 10 + d;
        if next > limit as u128 {
            proof {
                lemma_digits_value_prefix_mono(t, (i - lo + 1) as int, t.len() as int);
                assert(t.take(t.len() as int) =~= t);
            }
            return None;
        }
        acc = next;
        i = i + 1;
    }
    proof {
        assert(t.take(hi - lo) =~= t);
    }
    Some(acc as u64)
}

/// Adding digits never lowers the value.
pub proof fn lemma_digits_value_prefix_mono(s: Seq<char>, i: int, j: int)
    requires
        0 <= i <= j <= s.len(),
    ensures
        digits_value(s.take(i)) <= digits_value(s.take(j)),
    decreases j - i,
{
    if i < j {
        lemma_digits_value_prefix_mono(s, i, j - 1);
        assert(s.take(j).drop_last() =~= s.take(j - 1));
    }
}

/// Decimal rendering of `n`, the way `Display` writes an unsigned integer.
pub open spec fn decimal(n: nat) -> Seq<char>
    decreases n,
{
    if n < 10 {
        seq![digit_char(n)]
    } else {
        decimal(n / 10).push(digit_char(n % 10))
    }
}

/// `{:0w}`: left-padded with zeros to at least `w` characters.
pub open spec fn zero_padded(n: nat, w: nat) -> Seq<char> {
    let d = decimal(n);
    if d.len() < w {
        Seq::new((w - d.len()) as nat, |i: int| '0') + d
    } else {
        d
    }
}

proof fn lemma_digit_roundtrip(d: nat)
    requires
        d < 10,
    ensures
        digit_value(digit_char(d)) == d,
        is_digit(digit_char(d)),
{
    let u = (d + 48) as u32;
    assert((u as char) as u32 == u);
}

pub open spec fn pow10(k: nat) -> nat
    decreases k,
{
    if k == 0 {
        1
    } else {
        10 * pow10((k - 1) as nat)
    }
}

pub proof fn lemma_pow10_mono(i: nat, j: nat)
    requires
        i <= j,
    ensures
        pow10(i) <= pow10(j),
        pow10(i) >= 1,
    decreases j,
{
    if j > 0 && i < j {
        lemma_pow10_mono(i, (j - 1) as nat);
    }
    if i > 0 {
        lemma_pow10_mono(0, (i - 1) as nat);
    }
}

/// `k` digits are worth less than `10^k`.
pub proof fn lemma_digits_value_bound(s: Seq<char>)
    requires
        all_digits(s),
    ensures
        digits_value(s) < pow10(s.len()),
    decreases s.len(),
{
    if s.len() > 0 {
        let p = s.drop_last();
        assert(all_digits(p)) by {
            assert forall|i: int| 0 <= i < p.len() implies is_digit(#[trigger] p[i]) by {
                assert(p[i] == s[i]);
            }
        }
        lemma_digits_value_bound(p);
        assert(is_digit(s.last()));
        let v = digits_value(p);
        let d = digit_value(s.last());
        let q = pow10(p.len());
        assert(d < 10);
        assert(v * 10 + d < q * 10) by (nonlinear_arith)
            requires
                v < q,
                d < 10,
        ;
    }
}

pub proof fn lemma_decimal_len_bound(n: nat, k: nat)
    requires
        k >= 1,
        n < pow10(k),
    ensures
        decimal(n).len() <= k,
    decreases k,
{
    if n >= 10 {
        let p = pow10((k - 1) as nat);
        assert(k >= 2) by {
            if k == 1 {
                assert(pow10(1) == 10 * pow10(0));
            }
        }
        assert(n / 10 < p) by (nonlinear_arith)
            requires
                n < 10 * p,
        ;
        lemma_decimal_len_bound(n / 10, (k - 1) as nat);
    }
}

pub proof fn lemma_decimal_digits(n: nat)
    ensures
        decimal(n).len() >= 1,
        all_digits(decimal(n)),
        digits_value(decimal(n)) == n,
    decreases n,
{
    lemma_digit_roundtrip(n % 10);
    if n >= 10 {
        lemma_decimal_digits(n / 10);
        let d = decimal(n);
        assert(d.drop_last() =~= decimal(n / 10));
        assert(d.last() == digit_char(n % 10));
        assert(digits_value(d) == digits_value(decimal(n / 10)) * 10 + digit_value(digit_char(n % 10)));
        assert forall|i: int| 0 <= i < d.len() implies is_digit(#[trigger] d[i]) by {
            if i < d.len() - 1 {
                assert(d[i] == decimal(n / 10)[i]);
            }
        }
    } else {
        let d = decimal(n);
        assert(d.drop_last() =~= Seq::<char>::empty());
        assert(digits_value(Seq::<char>::empty()) == 0);
        assert(digits_value(d) == digits_value(d.drop_last()) * 10 + digit_value(d.last()));
    }
}

fn digit(d: u64) -> (r: char)
    requires
        d < 10,
    ensures
        r == digit_char(d as nat),
{
    let b = (d as u8) + 48;
    b as char
}

/// Append `decimal(n)` to `out`.
pub fn push_decimal(out: &mut String, n: u64)
    ensures
        final(out)@ == old(out)@ + decimal(n as nat),
    decreases n,
{
    if n >= 10 {
        push_decimal(out, n / 10);
    }
    let d = digit(n % 10);
    push_char(out, d);
    proof {
        if n >= 10 {
            assert(old(out)@ + decimal((n / 10) as nat) + seq![d] =~= old(out)@ + decimal(n as nat));
        } else {
            assert(old(out)@ + seq![d] =~= old(out)@ + decimal(n as nat));
        }
    }
}

/// Append `decimal(n)` to `out`, for a 128-bit `n`.
pub fn push_decimal_u128(out: &mut String, n: u128)
    ensures
        final(out)@ == old(out)@ + decimal(n as nat),
    decreases n,
{
    if n >= 10 {
        push_decimal_u128(out, n / 10);
    }
    let d = digit((n % 10) as u64);
    push_char(out, d);
    proof {
        if n >= 10 {
            assert(old(out)@ + decimal((n / 10) as nat) + seq![d] =~= old(out)@ + decimal(n as nat));
        } else {
            assert(old(out)@ + seq![d] =~= old(out)@ + decimal(n as nat));
        }
    }
}

/// Append `zero_padded(n, w)` to `out`.
pub fn push_zero_padded(out: &mut String, n: u64, w: usize)
    ensures
        final(out)@ == old(out)@ + zero_padded(n as nat, w as nat),
{
    let len = decimal_len(n);
    let mut k = len;
    let ghost start = out@;
    while k < w
        invariant
            len == decimal(n as nat).len(),
            len <= k,
            len >= w ==> k == len,
            len < w ==> k <= w,
            out@ == start + Seq::new((k - len) as nat, |i: int| '0'),
        decreases w - k,
    {
        push_char(out, '0');
        assert(start + Seq::new((k - len) as nat, |i: int| '0') + seq!['0'] =~= start + Seq::new(
            (k + 1 - len) as nat,
            |i: int| '0',
        ));
        k = k + 1;
    }
    push_decimal(out, n);
    proof {
        if len < w {
            assert(start + Seq::new((k - len) as nat, |i: int| '0') + decimal(n as nat)
                =~= start + zero_padded(n as nat, w as nat));
        } else {
            assert(Seq::new((k - len) as nat, |i: int| '0') =~= Seq::<char>::empty());
            assert(start + Seq::<char>::empty() + decimal(n as nat) =~= start + zero_padded(
                n as nat,
                w as nat,
            ));
        }
    }
}

/// Number of characters `decimal(n)` has.
pub fn decimal_len(n: u64) -> (r: usize)
    ensures
        r == decimal(n as nat).len(),
        1 <= r <= 20,
    decreases n,
{
    proof {
        reveal_with_fuel(pow10, 21);
        assert(pow10(20) == 100000000000000000000nat);
        lemma_decimal_len_bound(n as nat, 20);
        if n >= 10 {
            lemma_decimal_len_bound((n / 10) as nat, 20);
        }
    }
    if n >= 10 {
        let k = decimal_len(n / 10);
        k + 1
    } else {
        1
    }
}

/// `n.to_string()`.
pub fn decimal_string(n: u64) -> (r: String)
    ensures
        r@ == decimal(n as nat),
{
    let mut s = String::new();
    push_decimal(&mut s, n);
    proof {
        assert(Seq::<char>::empty() + decimal(n as nat) =~= decimal(n as nat));
    }
    s
}

// ---------------------------------------------------------------------------------------
// Comparison
// ---------------------------------------------------------------------------------------

/// `str::eq_ignore_ascii_case`.
pub open spec fn eq_ignore_case(a: Seq<char>, b: Seq<char>) -> bool {
    a.len() == b.len() && forall|i: int| 0 <= i < a.len() ==> ascii_lower(#[trigger] a[i])
        == ascii_lower(b[i])
}

/// Compare `s[lo..hi]` with `b`, ignoring ASCII case.
pub fn range_eq_ignore_case(s: &[char], lo: usize, hi: usize, b: &[char]) -> (r: bool)
    requires
        lo <= hi <= s@.len(),
    ensures
        r == eq_ignore_case(s@.subrange(lo as int, hi as int), b@),
{
    if hi - lo != b.len() {
        return false;
    }
    let mut i: usize = 0;
    while i < b.len()
        invariant
            lo <= hi <= s@.len(),
            hi - lo == b@.len(),
            i <= b@.len(),
            forall|k: int|
                0 <= k < i ==> ascii_lower(#[trigger] s@.subrange(lo as int, hi as int)[k])
                    == ascii_lower(b@[k]),
        decreases b.len() - i,
    {
        if to_ascii_lower(s[lo + i]) != to_ascii_lower(b[i]) {
            assert(s@.subrange(lo as int, hi as int)[i as int] == s@[lo + i]);
            return false;
        }
        i = i + 1;
    }
    true
}

/// Compare `s[lo..hi]` with `b` exactly.
pub fn range_eq(s: &[char], lo: usize, hi: usize, b: &[char]) -> (r: bool)
    requires
        lo <= hi <= s@.len(),
    ensures
        r == (s@.subrange(lo as int, hi as int) == b@),
{
    if hi - lo != b.len() {
        return false;
    }
    let mut i: usize = 0;
    while i < b.len()
        invariant
            lo <= hi <= s@.len(),
            hi - lo == b@.len(),
            i <= b@.len(),
            forall|k: int| 0 <= k < i ==> #[trigger] s@.subrange(lo as int, hi as int)[k] == b@[k],
        decreases b.len() - i,
    {
        if s[lo + i] != b[i] {
            assert(s@.subrange(lo as int, hi as int)[i as int] == s@[lo + i]);
            return false;
        }
        i = i + 1;
    }
    assert(s@.subrange(lo as int, hi as int) =~= b@);
    true
}

// ---------------------------------------------------------------------------------------
// Conversions between `str`, `String` and char buffers
// ---------------------------------------------------------------------------------------

/// The characters of `s`, in order.
pub fn chars_of(s: &str) -> (r: Vec<char>)
    ensures
        r@ == s@,
{
    broadcast use vstd::string::group_string_axioms;

    let mut out: Vec<char> = Vec::new();
    for c in it: s.chars()
        invariant
            it.seq() == s@,
            out@ == s@.take(it.index() as int),
    {
        out.push(c);
    }
    out
}

/// `String::push`: the contract claims the string afterwards is the old one with `c` at its end.
#[verifier::external_body]
pub(crate) fn push_char(s: &mut String, c: char)
    ensures
        final(s)@ == old(s)@.push(c),
{
    s.push(c);
}

/// Append `s[lo..hi]` to `out`.
pub fn push_range(out: &mut String, s: &[char], lo: usize, hi: usize)
    requires
        lo <= hi <= s@.len(),
    ensures
        final(out)@ == old(out)@ + s@.subrange(lo as int, hi as int),
{
    let ghost start = out@;
    let mut i = lo;
    while i < hi
        invariant
            lo <= i <= hi <= s@.len(),
            out@ == start + s@.subrange(lo as int, i as int),
        decreases hi - i,
    {
        push_char(out, s[i]);
        assert(start + s@.subrange(lo as int, i as int) + seq![s@[i as int]] =~= start
            + s@.subrange(lo as int, i + 1));
        i = i + 1;
    }
}

/// A `String` holding `s[lo..hi]`.
pub fn string_of_range(s: &[char], lo: usize, hi: usize) -> (r: String)
    requires
        lo <= hi <= s@.len(),
    ensures
        r@ == s@.subrange(lo as int, hi as int),
{
    let mut out = String::new();
    push_range(&mut out, s, lo, hi);
    assert(Seq::<char>::empty() + s@.subrange(lo as int, hi as int) =~= s@.subrange(
        lo as int,
        hi as int,
    ));
    out
}

/// A `String` holding all of `s`.
pub fn string_of(s: &[char]) -> (r: String)
    ensures
        r@ == s@,
{
    let r = string_of_range(s, 0, s.len());
    assert(s@.subrange(0, s@.len() as int) =~= s@);
    r
}

/// Append a string slice to `out`.
pub fn push_str(out: &mut String, s: &str)
    ensures
        final(out)@ == old(out)@ + s@,
{
    out.append(s);
}


// ---------------------------------------------------------------------------------------
// Ordering
// ---------------------------------------------------------------------------------------

/// `str::cmp`: lexicographic by code point (the same order as the UTF-8 bytes), -1, 0 or 1.
pub open spec fn lex_order(a: Seq<char>, b: Seq<char>) -> int
    decreases a.len(),
{
    if a.len() == 0 {
        if b.len() == 0 {
            0
        } else {
            -1
        }
    } else if b.len() == 0 {
        1
    } else if a[0] < b[0] {
        -1
    } else if a[0] > b[0] {
        1
    } else {
        lex_order(a.drop_first(), b.drop_first())
    }
}

/// Swapping the arguments of `lex_order` flips its sign.
pub proof fn lemma_lex_order_antisymmetric(a: Seq<char>, b: Seq<char>)
    ensures
        lex_order(a, b) == -lex_order(b, a),
        -1 <= lex_order(a, b) <= 1,
    decreases a.len(),
{
    if a.len() > 0 && b.len() > 0 && a[0] == b[0] {
        lemma_lex_order_antisymmetric(a.drop_first(), b.drop_first());
    }
}

/// `lex_order` says equal only of equal strings, and always of a string and itself.
pub proof fn lemma_lex_order_zero(a: Seq<char>, b: Seq<char>)
    ensures
        lex_order(a, b) == 0 <==> a == b,
    decreases a.len(),
{
    if a.len() > 0 && b.len() > 0 && a[0] == b[0] {
        lemma_lex_order_zero(a.drop_first(), b.drop_first());
        if a.drop_first() == b.drop_first() {
            assert(a =~= seq![a[0]] + a.drop_first());
            assert(b =~= seq![b[0]] + b.drop_first());
        }
        if a == b {
            assert(a.drop_first() =~= b.drop_first());
        }
    } else if a.len() > 0 && b.len() > 0 {
        assert(a[0] != b[0]);
    } else if a.len() == 0 && b.len() == 0 {
        assert(a =~= b);
    }
}

/// `lex_order` is transitive, strictly when either step is strict.
pub proof fn lemma_lex_order_transitive(a: Seq<char>, b: Seq<char>, c: Seq<char>)
    requires
        lex_order(a, b) <= 0,
        lex_order(b, c) <= 0,
    ensures
        lex_order(a, c) <= 0,
        lex_order(a, b) < 0 || lex_order(b, c) < 0 ==> lex_order(a, c) < 0,
    decreases a.len(),
{
    if a.len() > 0 && b.len() > 0 && c.len() > 0 && a[0] == b[0] && b[0] == c[0] {
        lemma_lex_order_transitive(a.drop_first(), b.drop_first(), c.drop_first());
    }
}

proof fn lemma_lex_order_from(a: Seq<char>, b: Seq<char>, i: int)
    requires
        0 <= i <= a.len(),
        i <= b.len(),
        a.take(i) == b.take(i),
    ensures
        lex_order(a, b) == lex_order(a.skip(i), b.skip(i)),
    decreases i,
{
    if i > 0 {
        assert(a[0] == a.take(i)[0]);
        assert(b[0] == b.take(i)[0]);
        assert(a.drop_first().take(i - 1) =~= a.take(i).drop_first());
        assert(b.drop_first().take(i - 1) =~= b.take(i).drop_first());
        lemma_lex_order_from(a.drop_first(), b.drop_first(), i - 1);
        assert(a.drop_first().skip(i - 1) =~= a.skip(i));
        assert(b.drop_first().skip(i - 1) =~= b.skip(i));
    } else {
        assert(a.skip(0) =~= a);
        assert(b.skip(0) =~= b);
    }
}

/// `lex_order` of `a[alo..ahi]` and `b[blo..bhi]`.
pub fn lex_order_in(a: &[char], alo: usize, ahi: usize, b: &[char], blo: usize, bhi: usize) -> (r: i8)
    requires
        alo <= ahi <= a@.len(),
        blo <= bhi <= b@.len(),
    ensures
        r as int == lex_order(a@.subrange(alo as int, ahi as int), b@.subrange(blo as int, bhi as int)),
{
    let ghost x = a@.subrange(alo as int, ahi as int);
    let ghost y = b@.subrange(blo as int, bhi as int);
    let mut i: usize = 0;
    while alo + i < ahi && blo + i < bhi && a[alo + i] == b[blo + i]
        invariant
            alo <= ahi <= a@.len(),
            blo <= bhi <= b@.len(),
            x == a@.subrange(alo as int, ahi as int),
            y == b@.subrange(blo as int, bhi as int),
            i <= x.len(),
            i <= y.len(),
            x.take(i as int) == y.take(i as int),
        decreases ahi - alo - i,
    {
        assert(x.take(i + 1) =~= x.take(i as int).push(x[i as int]));
        assert(y.take(i + 1) =~= y.take(i as int).push(y[i as int]));
        i = i + 1;
    }
    proof {
        lemma_lex_order_from(x, y, i as int);
    }
    if alo + i == ahi {
        if blo + i == bhi {
            0
        } else {
            -1
        }
    } else if blo + i == bhi {
        1
    } else {
        let c = a[alo + i];
        let d = b[blo + i];
        assert(x.skip(i as int)[0] == a@[alo + i]);
        assert(y.skip(i as int)[0] == b@[blo + i]);
        if c < d {
            -1
        } else {
            1
        }
    }
}


/// Exact equality of two strings.
pub fn str_eq(a: &str, b: &str) -> (r: bool)
    ensures
        r == (a@ == b@),
{
    let x = chars_of(a);
    let y = chars_of(b);
    let r = range_eq(&x, 0, x.len(), &y);
    assert(x@.subrange(0, x@.len() as int) =~= x@);
    r
}

/// What `str::to_lowercase` makes of a string: Unicode's lowercase mapping, which can change
/// a string's length. Its tables are not restated here.
pub uninterp spec fn lowercase(s: Seq<char>) -> Seq<char>;

/// `str::to_lowercase`. Claimed: the result is the lowercase mapping of the argument, a
/// function of the argument alone.
#[verifier::external_body]
pub(crate) fn to_lowercase_of(s: &str) -> (r: String)
    ensures
        r@ == lowercase(s@),
{
    s.to_lowercase()
}

/// What `str::to_uppercase` makes of a string: Unicode's uppercase mapping, which can change
/// a string's length (`ß` becomes `SS`). Its tables are not restated here.
pub uninterp spec fn uppercase(s: Seq<char>) -> Seq<char>;

/// `str::to_uppercase`. Claimed: the result is the uppercase mapping of the argument, a
/// function of the argument alone.
#[verifier::external_body]
pub(crate) fn to_uppercase_of(s: &str) -> (r: String)
    ensures
        r@ == uppercase(s@),
{
    s.to_uppercase()
}

} // verus!
