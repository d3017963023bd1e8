//! Paths as text: their components, file name, stem and extension, and their order, as
//! `std::path::Path` reads a Unix path.
use vstd::prelude::*;

use crate::text::{
    chars_of, eq_ignore_case, find_char, find_from, lemma_find_from, lemma_find_shift, lex_order,
    lex_order_in, push_range, range_eq_ignore_case,
};

verus! {

#[derive(Debug, Clone, Copy, PartialEq, Eq, Structural)]
pub enum PartKind {
    Root,
    Cur,
    Parent,
    Normal,
}

/// One component of a path, and where its text sits in the path.
pub struct PathPart {
    pub kind: PartKind,
    pub lo: int,
    pub hi: int,
}

/// The component a piece `s[lo..hi]` between separators makes, if any: empty pieces and `.`
/// vanish, `..` is a parent step, anything else is a name.
pub open spec fn piece_parts(s: Seq<char>, lo: int, hi: int) -> Seq<PathPart> {
    let piece = s.subrange(lo, hi);
    if piece.len() == 0 || piece == seq!['.'] {
        seq![]
    } else if piece == seq!['.', '.'] {
        seq![PathPart { kind: PartKind::Parent, lo, hi }]
    } else {
        seq![PathPart { kind: PartKind::Normal, lo, hi }]
    }
}

/// The components of the pieces of `s` from `pos` on.
pub open spec fn parts_from(s: Seq<char>, pos: int) -> Seq<PathPart>
    decreases s.len() - pos,
    via parts_from_decreases
{
    if pos < 0 || pos > s.len() {
        seq![]
    } else {
        let end = find_from(s, pos, '/');
        if end >= s.len() {
            piece_parts(s, pos, s.len() as int)
        } else {
            piece_parts(s, pos, end) + parts_from(s, end + 1)
        }
    }
}

#[via_fn]
proof fn parts_from_decreases(s: Seq<char>, pos: int) {
    if 0 <= pos <= s.len() {
        lemma_find_from(s, pos, '/');
    }
}

/// `Path::components`: a leading `/` is the root, a leading `.` piece the current directory;
/// every later empty or `.` piece is dropped.
pub open spec fn path_parts(p: Seq<char>) -> Seq<PathPart> {
    if p.len() > 0 && p[0] == '/' {
        seq![PathPart { kind: PartKind::Root, lo: 0, hi: 1 }] + parts_from(p, 1)
    } else if p.len() > 0 && p[0] == '.' && (p.len() == 1 || p[1] == '/') {
        seq![PathPart { kind: PartKind::Cur, lo: 0, hi: 1 }] + parts_from(p, 0)
    } else {
        parts_from(p, 0)
    }
}

/// Index of the last `c` in `s`, or -1.
pub open spec fn rfind(s: Seq<char>, c: char) -> int
    decreases s.len(),
{
    if s.len() == 0 {
        -1
    } else if s.last() == c {
        s.len() - 1
    } else {
        rfind(s.drop_last(), c)
    }
}

/// The extension of a file name: what follows its last dot, unless that dot leads the name.
pub open spec fn name_extension(n: Seq<char>) -> Option<Seq<char>> {
    let i = rfind(n, '.');
    if i <= 0 {
        None
    } else {
        Some(n.skip(i + 1))
    }
}

/// The stem of a file name: what precedes its last dot, unless that dot leads the name.
pub open spec fn name_stem(n: Seq<char>) -> Seq<char> {
    let i = rfind(n, '.');
    if i <= 0 {
        n
    } else {
        n.take(i)
    }
}

/// The last component, when it is a name.
pub open spec fn last_name(p: Seq<char>) -> Option<PathPart> {
    let ps = path_parts(p);
    if ps.len() > 0 && ps.last().kind == PartKind::Normal {
        Some(ps.last())
    } else {
        None
    }
}

/// `Path::file_name`.
pub open spec fn file_name(p: Seq<char>) -> Option<Seq<char>> {
    match last_name(p) {
        Some(x) => Some(p.subrange(x.lo, x.hi)),
        None => None,
    }
}

/// `Path::extension`.
pub open spec fn path_extension(p: Seq<char>) -> Option<Seq<char>> {
    match file_name(p) {
        Some(n) => name_extension(n),
        None => None,
    }
}

/// `Path::file_stem`.
pub open spec fn path_stem(p: Seq<char>) -> Option<Seq<char>> {
    match file_name(p) {
        Some(n) => Some(name_stem(n)),
        None => None,
    }
}

/// `Path::with_extension`: everything after the stem is replaced by `.ext` (by nothing when
/// `ext` is empty); a path with no file name is returned as it is.
pub open spec fn with_extension(p: Seq<char>, ext: Seq<char>) -> Seq<char> {
    match last_name(p) {
        Some(x) => p.take(x.lo + name_stem(p.subrange(x.lo, x.hi)).len()) + if ext.len() == 0 {
            seq![]
        } else {
            seq!['.'] + ext
        },
        None => p,
    }
}

/// The name of the directory `k` levels above the file (`k == 0` is the file itself), as
/// `Path::parent` then `Path::file_name` read it: a step up exists while the last component
/// left is not the root.
pub open spec fn ancestor_name(p: Seq<char>, ps: Seq<PathPart>, k: nat) -> Option<Seq<char>>
    decreases k,
{
    if k == 0 {
        if ps.len() > 0 && ps.last().kind == PartKind::Normal {
            Some(p.subrange(ps.last().lo, ps.last().hi))
        } else {
            None
        }
    } else if ps.len() > 0 && ps.last().kind != PartKind::Root {
        ancestor_name(p, ps.drop_last(), (k - 1) as nat)
    } else {
        None
    }
}

// ---------------------------------------------------------------------------------------
// Reading the components
// ---------------------------------------------------------------------------------------

/// A component and the bounds of its text, as executable values.
#[derive(Clone, Copy)]
pub struct PartPos {
    pub kind: PartKind,
    pub lo: usize,
    pub hi: usize,
}

pub open spec fn part_views(v: Seq<PartPos>) -> Seq<PathPart> {
    v.map_values(|x: PartPos| PathPart { kind: x.kind, lo: x.lo as int, hi: x.hi as int })
}

pub open spec fn parts_in_bounds(v: Seq<PathPart>, n: int) -> bool {
    forall|i: int| 0 <= i < v.len() ==> 0 <= (#[trigger] v[i]).lo <= v[i].hi <= n
}

proof fn lemma_parts_from_bounds(s: Seq<char>, pos: int)
    ensures
        parts_in_bounds(parts_from(s, pos), s.len() as int),
    decreases s.len() - pos,
{
    if 0 <= pos <= s.len() {
        lemma_find_from(s, pos, '/');
        let end = find_from(s, pos, '/');
        if end < s.len() {
            lemma_parts_from_bounds(s, end + 1);
        }
    }
}

/// Every name among `v` ends at the end of `s` or at a separator.
pub open spec fn parts_end_at_separators(v: Seq<PathPart>, s: Seq<char>) -> bool {
    forall|i: int| 0 <= i < v.len() && (#[trigger] v[i]).kind == PartKind::Normal ==> v[i].hi == s.len() || s[v[i].hi] == '/'
}

proof fn lemma_parts_from_end_at_separators(s: Seq<char>, pos: int)
    ensures
        parts_end_at_separators(parts_from(s, pos), s),
    decreases s.len() - pos,
{
    if 0 <= pos <= s.len() {
        lemma_find_from(s, pos, '/');
        let end = find_from(s, pos, '/');
        if end < s.len() {
            lemma_parts_from_end_at_separators(s, end + 1);
            let a = piece_parts(s, pos, end);
            let b = parts_from(s, end + 1);
            assert forall|i: int| 0 <= i < (a + b).len() && (#[trigger] (a + b)[i]).kind == PartKind::Normal implies (a + b)[i].hi == s.len() || s[(a + b)[i].hi] == '/' by {
                if i >= a.len() {
                    assert((a + b)[i] == b[i - a.len()]);
                }
            }
        }
    }
}

/// The components of the pieces of `s` from `pos` up to `q`, a position just after a
/// separator.
pub open spec fn parts_between(s: Seq<char>, pos: int, q: int) -> Seq<PathPart>
    decreases s.len() + 1 - pos,
{
    if pos < 0 || pos >= q || pos > s.len() {
        seq![]
    } else {
        proof {
            lemma_find_from(s, pos, '/');
        }
        let end = find_from(s, pos, '/');
        piece_parts(s, pos, end) + parts_between(s, end + 1, q)
    }
}

proof fn lemma_find_before_separator(s: Seq<char>, t: Seq<char>, pos: int, q: int)
    requires
        0 <= pos < q <= s.len(),
        q <= t.len(),
        s[q - 1] == '/',
        forall|k: int| 0 <= k < q ==> s[k] == t[k],
    ensures
        find_from(s, pos, '/') == find_from(t, pos, '/'),
        pos <= find_from(s, pos, '/') < q,
{
    lemma_find_from(s, pos, '/');
    lemma_find_from(t, pos, '/');
    let f = find_from(s, pos, '/');
    let g = find_from(t, pos, '/');
    if f >= q {
        assert(s[q - 1] != '/');
    }
    assert(t[q - 1] == '/');
    if g >= q {
        assert(t[q - 1] != '/');
    }
    if f < g {
        assert(t[f] == s[f]);
    }
    if g < f {
        assert(s[g] == t[g]);
    }
}

/// Two texts that agree before `q`, a position just after a separator, have the same
/// components before it; the components from `pos` are those up to `q`, then those from `q`.
pub proof fn lemma_parts_split(s: Seq<char>, t: Seq<char>, pos: int, q: int)
    requires
        0 <= pos <= q <= s.len(),
        q <= t.len(),
        pos == q || s[q - 1] == '/',
        forall|k: int| 0 <= k < q ==> s[k] == t[k],
    ensures
        parts_from(s, pos) == parts_between(s, pos, q) + parts_from(s, q),
        parts_from(t, pos) == parts_between(s, pos, q) + parts_from(t, q),
    decreases q - pos,
{
    if pos == q {
        assert(parts_between(s, pos, q) =~= Seq::<PathPart>::empty());
        assert(parts_from(s, pos) =~= parts_between(s, pos, q) + parts_from(s, q));
        assert(parts_from(t, pos) =~= parts_between(s, pos, q) + parts_from(t, q));
    } else {
        lemma_find_before_separator(s, t, pos, q);
        let end = find_from(s, pos, '/');
        assert(s.subrange(pos, end) =~= t.subrange(pos, end));
        assert(piece_parts(s, pos, end) == piece_parts(t, pos, end));
        lemma_parts_split(s, t, end + 1, q);
        assert(parts_from(s, pos) == piece_parts(s, pos, end) + parts_from(s, end + 1));
        assert(parts_from(t, pos) == piece_parts(t, pos, end) + parts_from(t, end + 1));
        assert(parts_from(s, pos) =~= parts_between(s, pos, q) + parts_from(s, q));
        assert(parts_from(t, pos) =~= parts_between(s, pos, q) + parts_from(t, q));
    }
}

/// Where the named components of a path are read from: after a leading root.
pub open spec fn parts_start(p: Seq<char>) -> int {
    if p.len() > 0 && p[0] == '/' {
        1
    } else {
        0
    }
}

/// The root or current-directory component a path begins with, if any.
pub open spec fn parts_head(p: Seq<char>) -> Seq<PathPart> {
    if p.len() > 0 && p[0] == '/' {
        seq![PathPart { kind: PartKind::Root, lo: 0, hi: 1 }]
    } else if p.len() > 0 && p[0] == '.' && (p.len() == 1 || p[1] == '/') {
        seq![PathPart { kind: PartKind::Cur, lo: 0, hi: 1 }]
    } else {
        seq![]
    }
}

/// A path's file name is its last piece: it starts at the start or after a separator, holds
/// no separator, and the components are the head, those before it, and it.
pub proof fn lemma_last_name_parts(p: Seq<char>)
    requires
        last_name(p) is Some,
    ensures
        ({
            let x = last_name(p)->0;
            &&& parts_start(p) <= x.lo
            &&& x.lo == 0 || (x.lo >= 1 && p[x.lo - 1] == '/')
            &&& forall|k: int| x.lo <= k < x.hi ==> p[k] != '/'
            &&& path_parts(p) == parts_head(p) + parts_between(p, parts_start(p), x.lo) + seq![x]
        }),
{
    lemma_path_parts_bounds(p);
    lemma_path_parts_start_after_separators(p);
    lemma_path_parts_end_at_separators(p);
    let ps = path_parts(p);
    let x = last_name(p)->0;
    let st = parts_start(p);
    let head = parts_head(p);
    assert(ps == head + parts_from(p, st));
    lemma_parts_from_lo(p, st);
    assert(ps[ps.len() - 1] == x);
    assert(0 <= x.lo <= x.hi <= p.len());
    assert(st <= x.lo) by {
        if st == 1 && x.lo == 0 {
            let t = parts_from(p, st);
            assert(ps.len() >= 2);
            assert(ps[ps.len() - 1] == t[ps.len() - 2]);
        }
    }
    lemma_parts_split(p, p, st, x.lo);
    let b = parts_between(p, st, x.lo);
    lemma_parts_between_lo(p, st, x.lo);
    let tail = parts_from(p, x.lo);
    assert(ps =~= head + b + tail);
    lemma_find_from(p, x.lo, '/');
    let end = find_from(p, x.lo, '/');
    lemma_parts_from_lo(p, end + 1);
    assert(tail.len() > 0) by {
        if tail.len() == 0 {
            assert(ps =~= head + b);
            if b.len() > 0 {
                assert(ps[ps.len() - 1] == b[b.len() - 1]);
            }
        }
    }
    assert(tail[tail.len() - 1] == ps[ps.len() - 1]);
    let later = parts_from(p, end + 1);
    if end < p.len() {
        assert(tail == piece_parts(p, x.lo, end) + later);
        if later.len() > 0 {
            assert(tail[tail.len() - 1] == later[later.len() - 1]);
            assert(false);
        }
        assert(tail =~= piece_parts(p, x.lo, end));
    } else {
        assert(tail == piece_parts(p, x.lo, p.len() as int));
    }
    assert(tail.len() == 1);
    assert(tail =~= seq![x]);
}

/// Replacing a path's file name, from `lo` on, by a name holding no separator gives the same
/// components before it and the new name as the last one.
pub proof fn lemma_replace_last_name(p: Seq<char>, r: Seq<char>, lo: int)
    requires
        last_name(p) is Some,
        lo == last_name(p)->0.lo,
        lo + 2 <= p.len(),
        lo + 3 <= r.len(),
        forall|k: int| 0 <= k < lo + 2 ==> p[k] == r[k],
        forall|k: int| lo <= k < r.len() ==> r[k] != '/',
    ensures
        path_parts(r) == parts_head(p) + parts_between(p, parts_start(p), lo) + seq![PathPart { kind: PartKind::Normal, lo, hi: r.len() as int }],
{
    lemma_last_name_parts(p);
    let st = parts_start(p);
    assert(p[0] == r[0] && p[1] == r[1]);
    assert(parts_start(r) == st);
    assert(parts_head(r) == parts_head(p));
    assert(path_parts(r) == parts_head(p) + parts_from(r, st));
    lemma_parts_split(p, r, st, lo);
    lemma_find_from(r, lo, '/');
    assert(find_from(r, lo, '/') == r.len());
    let piece = r.subrange(lo, r.len() as int);
    assert(piece.len() >= 3);
    assert(piece != seq!['.']);
    assert(piece != seq!['.', '.']);
    assert(parts_from(r, lo) == piece_parts(r, lo, r.len() as int));
}

/// Every component among `v` starts at or after `pos`.
pub open spec fn parts_from_at_least(v: Seq<PathPart>, pos: int) -> bool {
    forall|i: int| 0 <= i < v.len() ==> (#[trigger] v[i]).lo >= pos
}

pub proof fn lemma_parts_from_lo(s: Seq<char>, pos: int)
    ensures
        parts_from_at_least(parts_from(s, pos), pos),
    decreases s.len() - pos,
{
    if 0 <= pos <= s.len() {
        lemma_find_from(s, pos, '/');
        let end = find_from(s, pos, '/');
        if end < s.len() {
            lemma_parts_from_lo(s, end + 1);
            let a = piece_parts(s, pos, end);
            let b = parts_from(s, end + 1);
            assert forall|i: int| 0 <= i < (a + b).len() implies (#[trigger] (a + b)[i]).lo >= pos by {
                if i >= a.len() {
                    assert((a + b)[i] == b[i - a.len()]);
                }
            }
        }
    }
}

pub proof fn lemma_parts_between_lo(s: Seq<char>, pos: int, q: int)
    ensures
        forall|i: int| 0 <= i < parts_between(s, pos, q).len() ==> (#[trigger] parts_between(s, pos, q)[i]).lo < q,
    decreases s.len() + 1 - pos,
{
    if !(pos < 0 || pos >= q || pos > s.len()) {
        lemma_find_from(s, pos, '/');
        let end = find_from(s, pos, '/');
        lemma_parts_between_lo(s, end + 1, q);
        let a = piece_parts(s, pos, end);
        let b = parts_between(s, end + 1, q);
        assert forall|i: int| 0 <= i < (a + b).len() implies (#[trigger] (a + b)[i]).lo < q by {
            if i >= a.len() {
                assert((a + b)[i] == b[i - a.len()]);
            }
        }
    }
}

/// Every name among `v` starts at the start of `s` or just after a separator.
pub open spec fn parts_start_after_separators(v: Seq<PathPart>, s: Seq<char>) -> bool {
    forall|i: int| 0 <= i < v.len() && (#[trigger] v[i]).kind == PartKind::Normal ==> v[i].lo == 0 || (v[i].lo >= 1 && s[v[i].lo - 1] == '/')
}

proof fn lemma_parts_from_start_after_separators(s: Seq<char>, pos: int)
    requires
        pos == 0 || (1 <= pos <= s.len() && s[pos - 1] == '/'),
    ensures
        parts_start_after_separators(parts_from(s, pos), s),
    decreases s.len() - pos,
{
    if 0 <= pos <= s.len() {
        lemma_find_from(s, pos, '/');
        let end = find_from(s, pos, '/');
        if end < s.len() {
            lemma_parts_from_start_after_separators(s, end + 1);
            let a = piece_parts(s, pos, end);
            let b = parts_from(s, end + 1);
            assert forall|i: int| 0 <= i < (a + b).len() && (#[trigger] (a + b)[i]).kind == PartKind::Normal implies (a + b)[i].lo == 0
                || ((a + b)[i].lo >= 1 && s[(a + b)[i].lo - 1] == '/') by {
                if i >= a.len() {
                    assert((a + b)[i] == b[i - a.len()]);
                }
            }
        }
    }
}

/// Every name in a path starts at its start or just after a separator.
pub proof fn lemma_path_parts_start_after_separators(p: Seq<char>)
    ensures
        parts_start_after_separators(path_parts(p), p),
{
    lemma_parts_from_start_after_separators(p, 0);
    if p.len() > 0 && p[0] == '/' {
        lemma_parts_from_start_after_separators(p, 1);
        let b = parts_from(p, 1);
        let ps = path_parts(p);
        assert forall|i: int| 0 <= i < ps.len() && (#[trigger] ps[i]).kind == PartKind::Normal implies ps[i].lo == 0
            || (ps[i].lo >= 1 && p[ps[i].lo - 1] == '/') by {
            if i >= 1 {
                assert(ps[i] == b[i - 1]);
            }
        }
    } else if p.len() > 0 && p[0] == '.' && (p.len() == 1 || p[1] == '/') {
        let b = parts_from(p, 0);
        let ps = path_parts(p);
        assert forall|i: int| 0 <= i < ps.len() && (#[trigger] ps[i]).kind == PartKind::Normal implies ps[i].lo == 0
            || (ps[i].lo >= 1 && p[ps[i].lo - 1] == '/') by {
            if i >= 1 {
                assert(ps[i] == b[i - 1]);
            }
        }
    }
}

/// Every name in a path ends at the end of the path or at a separator.
pub proof fn lemma_path_parts_end_at_separators(p: Seq<char>)
    ensures
        parts_end_at_separators(path_parts(p), p),
{
    lemma_parts_from_end_at_separators(p, 0);
    lemma_parts_from_end_at_separators(p, 1);
    let ps = path_parts(p);
    if p.len() > 0 && (p[0] == '/' || (p[0] == '.' && (p.len() == 1 || p[1] == '/'))) {
        let b = if p[0] == '/' { parts_from(p, 1) } else { parts_from(p, 0) };
        assert forall|i: int| 0 <= i < ps.len() && (#[trigger] ps[i]).kind == PartKind::Normal implies ps[i].hi == p.len() || p[ps[i].hi] == '/' by {
            if i >= 1 {
                assert(ps[i] == b[i - 1]);
            }
        }
    }
}

pub proof fn lemma_path_parts_bounds(p: Seq<char>)
    ensures
        parts_in_bounds(path_parts(p), p.len() as int),
{
    lemma_parts_from_bounds(p, 0);
    lemma_parts_from_bounds(p, 1);
}

fn push_piece(out: &mut Vec<PartPos>, s: &[char], lo: usize, hi: usize)
    requires
        lo <= hi <= s@.len(),
    ensures
        part_views(final(out)@) == part_views(old(out)@) + piece_parts(s@, lo as int, hi as int),
{
    let ghost before = part_views(out@);
    let ghost piece = s@.subrange(lo as int, hi as int);
    if hi == lo {
        assert(piece.len() == 0);
    } else if hi - lo == 1 && s[lo] == '.' {
        assert(piece =~= seq!['.']);
    } else if hi - lo == 2 && s[lo] == '.' && s[lo + 1] == '.' {
        assert(piece =~= seq!['.', '.']);
        out.push(PartPos { kind: PartKind::Parent, lo, hi });
    } else {
        proof {
            if piece == seq!['.'] {
                assert(piece.len() == 1);
                assert(piece[0] == s@[lo as int]);
                assert(false);
            }
            if piece == seq!['.', '.'] {
                assert(piece.len() == 2);
                assert(piece[0] == s@[lo as int]);
                assert(piece[1] == s@[lo + 1]);
                assert(false);
            }
        }
        out.push(PartPos { kind: PartKind::Normal, lo, hi });
    }
    assert(part_views(out@) =~= before + piece_parts(s@, lo as int, hi as int));
}

/// The components of `p`, with the bounds of each.
pub fn parts(p: &[char]) -> (r: Vec<PartPos>)
    ensures
        part_views(r@) == path_parts(p@),
        parts_in_bounds(part_views(r@), p@.len() as int),
{
    let n = p.len();
    let mut out: Vec<PartPos> = Vec::new();
    let mut pos: usize;
    if n > 0 && p[0] == '/' {
        out.push(PartPos { kind: PartKind::Root, lo: 0, hi: 1 });
        pos = 1;
    } else if n > 0 && p[0] == '.' && (n == 1 || p[1] == '/') {
        out.push(PartPos { kind: PartKind::Cur, lo: 0, hi: 1 });
        pos = 0;
    } else {
        pos = 0;
    }
    let ghost head = part_views(out@);
    assert(path_parts(p@) == head + parts_from(p@, pos as int)) by {
        assert(head =~= seq![] || head.len() == 1);
        if !(n > 0 && (p@[0] == '/' || (p@[0] == '.' && (n == 1 || p@[1] == '/')))) {
            assert(head =~= seq![]);
            assert(seq![] + parts_from(p@, 0) =~= parts_from(p@, 0));
        }
    }
    loop
        invariant
            pos <= n == p@.len(),
            path_parts(p@) == part_views(out@) + parts_from(p@, pos as int),
        decreases n - pos,
    {
        let end = find_char(p, pos, n, '/');
        proof {
            lemma_find_shift(p@, pos as int);
            assert(p@.subrange(pos as int, n as int) == p@.subrange(pos as int, p@.len() as int));
            assert(end == find_from(p@, pos as int, '/'));
            lemma_find_from(p@, pos as int, '/');
        }
        let ghost rest = parts_from(p@, pos as int);
        let ghost before = part_views(out@);
        push_piece(&mut out, p, pos, end);
        if end >= n {
            assert(part_views(out@) + parts_from(p@, n as int) =~= before + rest) by {
                assert(parts_from(p@, n as int) =~= seq![]) by {
                    lemma_find_from(p@, n as int, '/');
                }
            }
            proof {
                lemma_path_parts_bounds(p@);
                assert(parts_from(p@, n as int) =~= seq![]) by {
                    lemma_find_from(p@, n as int, '/');
                }
                assert(part_views(out@) =~= path_parts(p@));
            }
            return out;
        }
        assert(part_views(out@) + parts_from(p@, end + 1) =~= before + rest);
        pos = end + 1;
    }
}


// ---------------------------------------------------------------------------------------
// Names, stems and extensions
// ---------------------------------------------------------------------------------------

/// The last `c` in `s[lo..hi]`, as an index into `s`.
pub fn rfind_in(s: &[char], lo: usize, hi: usize, c: char) -> (r: Option<usize>)
    requires
        lo <= hi <= s@.len(),
    ensures
        match r {
            Some(k) => lo <= k < hi && k - lo == rfind(s@.subrange(lo as int, hi as int), c),
            None => rfind(s@.subrange(lo as int, hi as int), c) == -1,
        },
{
    let mut j = hi;
    while j > lo
        invariant
            lo <= j <= hi <= s@.len(),
            rfind(s@.subrange(lo as int, hi as int), c) == rfind(s@.subrange(lo as int, j as int), c),
        decreases j - lo,
    {
        if s[j - 1] == c {
            return Some(j - 1);
        }
        assert(s@.subrange(lo as int, j as int).drop_last() =~= s@.subrange(lo as int, j - 1));
        j = j - 1;
    }
    None
}

/// Bounds of the file name of `p`, when it has one.
pub fn file_name_range(p: &[char]) -> (r: Option<(usize, usize)>)
    ensures
        match r {
            Some((lo, hi)) => lo <= hi <= p@.len() && last_name(p@) == Some(
                PathPart { kind: PartKind::Normal, lo: lo as int, hi: hi as int },
            ),
            None => last_name(p@) is None,
        },
{
    let ps = parts(p);
    let n = ps.len();
    if n > 0 && ps[n - 1].kind == PartKind::Normal {
        let x = ps[n - 1];
        assert(part_views(ps@)[n - 1] == PathPart { kind: x.kind, lo: x.lo as int, hi: x.hi as int });
        Some((x.lo, x.hi))
    } else {
        proof {
            if n > 0 {
                assert(part_views(ps@)[n - 1].kind == ps@[n - 1].kind);
            }
        }
        None
    }
}

/// Bounds of the extension of the name `p[lo..hi]`.
fn name_extension_range(p: &[char], lo: usize, hi: usize) -> (r: Option<(usize, usize)>)
    requires
        lo <= hi <= p@.len(),
    ensures
        match r {
            Some((a, b)) => lo <= a <= b == hi && name_extension(p@.subrange(lo as int, hi as int))
                == Some(p@.subrange(a as int, b as int)),
            None => name_extension(p@.subrange(lo as int, hi as int)) is None,
        },
{
    match rfind_in(p, lo, hi, '.') {
        Some(k) => {
            if k == lo {
                None
            } else {
                assert(p@.subrange(lo as int, hi as int).skip(k - lo + 1) =~= p@.subrange(
                    k + 1,
                    hi as int,
                ));
                Some((k + 1, hi))
            }
        },
        None => None,
    }
}

/// End of the stem of the name `p[lo..hi]`.
fn name_stem_end(p: &[char], lo: usize, hi: usize) -> (r: usize)
    requires
        lo <= hi <= p@.len(),
    ensures
        lo <= r <= hi,
        name_stem(p@.subrange(lo as int, hi as int)) == p@.subrange(lo as int, r as int),
{
    match rfind_in(p, lo, hi, '.') {
        Some(k) => {
            if k == lo {
                hi
            } else {
                assert(p@.subrange(lo as int, hi as int).take(k - lo) =~= p@.subrange(
                    lo as int,
                    k as int,
                ));
                k
            }
        },
        None => hi,
    }
}

/// Bounds of the extension of `p`, when it has one.
pub fn extension_range(p: &[char]) -> (r: Option<(usize, usize)>)
    ensures
        match r {
            Some((a, b)) => a <= b <= p@.len() && path_extension(p@) == Some(
                p@.subrange(a as int, b as int),
            ),
            None => path_extension(p@) is None,
        },
{
    match file_name_range(p) {
        Some((lo, hi)) => name_extension_range(p, lo, hi),
        None => None,
    }
}

/// `Path::with_extension`, on a path given as text.
pub fn with_extension_of(p: &str, ext: &str) -> (r: String)
    ensures
        r@ == with_extension(p@, ext@),
{
    let cs = chars_of(p);
    match file_name_range(&cs) {
        Some((lo, hi)) => {
            let end = name_stem_end(&cs, lo, hi);
            let mut out = String::new();
            push_range(&mut out, &cs, 0, end);
            let ghost base = out@;
            if !ext.is_empty() {
                crate::text::push_char(&mut out, '.');
                crate::text::push_str(&mut out, ext);
                assert(out@ =~= base + (seq!['.'] + ext@));
            } else {
                assert(out@ =~= base + seq![]);
            }
            assert(base =~= cs@.take(end as int));
            out
        },
        None => {
            String::from_str(p)
        },
    }
}

/// The name `k` levels up from the end of `p`, as repeated `Path::parent` then
/// `Path::file_name` find it.
pub fn ancestor_name_of(p: &str, k: usize) -> (r: Option<String>)
    ensures
        opt_string_view(r) == ancestor_name(p@, path_parts(p@), k as nat),
{
    let cs = chars_of(p);
    let ps = parts(&cs);
    let mut n = ps.len();
    let mut up: usize = 0;
    proof {
        assert(part_views(ps@).take(n as int) =~= part_views(ps@));
    }
    while up < k
        invariant
            n <= ps@.len(),
            up <= k,
            ancestor_name(p@, path_parts(p@), k as nat) == ancestor_name(
                p@,
                part_views(ps@).take(n as int),
                (k - up) as nat,
            ),
            part_views(ps@) == path_parts(cs@),
            cs@ == p@,
        decreases k - up,
    {
        let ghost cur = part_views(ps@).take(n as int);
        if n > 0 && ps[n - 1].kind != PartKind::Root {
            assert(cur.last().kind == ps@[n - 1].kind);
            assert(cur.drop_last() =~= part_views(ps@).take(n - 1));
            n = n - 1;
            up = up + 1;
        } else {
            proof {
                if n > 0 {
                    assert(cur.last().kind == ps@[n - 1].kind);
                }
            }
            return None;
        }
    }
    let ghost cur = part_views(ps@).take(n as int);
    if n > 0 && ps[n - 1].kind == PartKind::Normal {
        let x = ps[n - 1];
        assert(cur.last() == PathPart { kind: x.kind, lo: x.lo as int, hi: x.hi as int });
        proof {
            lemma_path_parts_bounds(cs@);
            assert(part_views(ps@)[n - 1] == cur.last());
        }
        Some(crate::text::string_of_range(&cs, x.lo, x.hi))
    } else {
        proof {
            if n > 0 {
                assert(cur.last().kind == ps@[n - 1].kind);
            }
        }
        None
    }
}

pub open spec fn opt_string_view(o: Option<String>) -> Option<Seq<char>> {
    match o {
        Some(s) => Some(s@),
        None => None,
    }
}

// ---------------------------------------------------------------------------------------
// Order
// ---------------------------------------------------------------------------------------

pub open spec fn kind_rank(k: PartKind) -> int {
    match k {
        PartKind::Root => 0,
        PartKind::Cur => 1,
        PartKind::Parent => 2,
        PartKind::Normal => 3,
    }
}

/// Two components in `Component`'s order: by kind, then names by their text.
pub open spec fn part_order(p: Seq<char>, x: PathPart, q: Seq<char>, y: PathPart) -> int {
    if kind_rank(x.kind) < kind_rank(y.kind) {
        -1
    } else if kind_rank(x.kind) > kind_rank(y.kind) {
        1
    } else if x.kind == PartKind::Normal {
        lex_order(p.subrange(x.lo, x.hi), q.subrange(y.lo, y.hi))
    } else {
        0
    }
}

pub open spec fn parts_order(p: Seq<char>, ps: Seq<PathPart>, q: Seq<char>, qs: Seq<PathPart>) -> int
    decreases ps.len(),
{
    if ps.len() == 0 {
        if qs.len() == 0 {
            0
        } else {
            -1
        }
    } else if qs.len() == 0 {
        1
    } else {
        let o = part_order(p, ps[0], q, qs[0]);
        if o != 0 {
            o
        } else {
            parts_order(p, ps.drop_first(), q, qs.drop_first())
        }
    }
}

proof fn lemma_part_order_laws(p: Seq<char>, x: PathPart, q: Seq<char>, y: PathPart, r: Seq<char>, z: PathPart)
    ensures
        part_order(p, x, q, y) == -part_order(q, y, p, x),
        -1 <= part_order(p, x, q, y) <= 1,
        part_order(p, x, q, y) <= 0 && part_order(q, y, r, z) <= 0 ==> part_order(p, x, r, z) <= 0,
        part_order(p, x, q, y) <= 0 && part_order(q, y, r, z) <= 0 && (part_order(p, x, q, y) < 0
            || part_order(q, y, r, z) < 0) ==> part_order(p, x, r, z) < 0,
{
    let (a, b, c) = (p.subrange(x.lo, x.hi), q.subrange(y.lo, y.hi), r.subrange(z.lo, z.hi));
    crate::text::lemma_lex_order_antisymmetric(a, b);
    if part_order(p, x, q, y) <= 0 && part_order(q, y, r, z) <= 0 && x.kind == PartKind::Normal
        && y.kind == PartKind::Normal && z.kind == PartKind::Normal {
        crate::text::lemma_lex_order_transitive(a, b, c);
    }
}

proof fn lemma_parts_order_laws(p: Seq<char>, ps: Seq<PathPart>, q: Seq<char>, qs: Seq<PathPart>, r: Seq<char>, rs: Seq<PathPart>)
    ensures
        parts_order(p, ps, q, qs) == -parts_order(q, qs, p, ps),
        parts_order(p, ps, q, qs) <= 0 && parts_order(q, qs, r, rs) <= 0 ==> parts_order(p, ps, r, rs) <= 0,
    decreases ps.len(),
{
    if ps.len() > 0 && qs.len() > 0 {
        lemma_part_order_laws(p, ps[0], q, qs[0], r, if rs.len() > 0 { rs[0] } else { qs[0] });
        if rs.len() > 0 {
            lemma_part_order_laws(p, ps[0], r, rs[0], q, qs[0]);
        }
        lemma_parts_order_laws(p, ps.drop_first(), q, qs.drop_first(), r, if rs.len() > 0 { rs.drop_first() } else { rs });
    }
}

/// `path_order` is a total preorder: swapping the paths flips it, and it is transitive.
pub proof fn lemma_path_order_laws(a: Seq<char>, b: Seq<char>, c: Seq<char>)
    ensures
        path_order(a, b) == -path_order(b, a),
        path_order(a, b) <= 0 && path_order(b, c) <= 0 ==> path_order(a, c) <= 0,
{
    lemma_parts_order_laws(a, path_parts(a), b, path_parts(b), c, path_parts(c));
}

/// `Path::cmp`: the components compared in turn.
pub open spec fn path_order(a: Seq<char>, b: Seq<char>) -> int {
    parts_order(a, path_parts(a), b, path_parts(b))
}

fn kind_rank_of(k: PartKind) -> (r: u8)
    ensures
        r as int == kind_rank(k),
{
    match k {
        PartKind::Root => 0,
        PartKind::Cur => 1,
        PartKind::Parent => 2,
        PartKind::Normal => 3,
    }
}

/// `parts_order` of the first `n` components of `a` and the first `m` of `b`.
fn parts_order_in(ac: &Vec<char>, ap: &Vec<PartPos>, n: usize, bc: &Vec<char>, bp: &Vec<PartPos>, m: usize) -> (r: i8)
    requires
        n <= ap@.len(),
        m <= bp@.len(),
        parts_in_bounds(part_views(ap@), ac@.len() as int),
        parts_in_bounds(part_views(bp@), bc@.len() as int),
    ensures
        r as int == parts_order(ac@, part_views(ap@).take(n as int), bc@, part_views(bp@).take(m as int)),
{
    let ghost av = part_views(ap@).take(n as int);
    let ghost bv = part_views(bp@).take(m as int);
    let ghost whole = parts_order(ac@, av, bc@, bv);
    let mut i: usize = 0;
    proof {
        assert(av.skip(0) =~= av);
        assert(bv.skip(0) =~= bv);
    }
    loop
        invariant
            i <= n <= ap@.len(),
            i <= m <= bp@.len(),
            av == part_views(ap@).take(n as int),
            bv == part_views(bp@).take(m as int),
            parts_in_bounds(part_views(ap@), ac@.len() as int),
            parts_in_bounds(part_views(bp@), bc@.len() as int),
            whole == parts_order(ac@, av, bc@, bv),
            whole == parts_order(ac@, av.skip(i as int), bc@, bv.skip(i as int)),
        decreases n - i,
    {
        if i == n {
            if i == m {
                return 0;
            }
            return -1;
        }
        if i == m {
            return 1;
        }
        let x = ap[i];
        let y = bp[i];
        assert(av.skip(i as int)[0] == av[i as int]);
        assert(bv.skip(i as int)[0] == bv[i as int]);
        assert(av[i as int] == part_views(ap@)[i as int]);
        assert(bv[i as int] == part_views(bp@)[i as int]);
        assert(av[i as int] == PathPart { kind: x.kind, lo: x.lo as int, hi: x.hi as int });
        assert(bv[i as int] == PathPart { kind: y.kind, lo: y.lo as int, hi: y.hi as int });
        let rx = kind_rank_of(x.kind);
        let ry = kind_rank_of(y.kind);
        if rx < ry {
            return -1;
        }
        if rx > ry {
            return 1;
        }
        if x.kind == PartKind::Normal {
            let o = lex_order_in(ac, x.lo, x.hi, bc, y.lo, y.hi);
            if o != 0 {
                return o;
            }
        }
        assert(av.skip(i as int).drop_first() =~= av.skip(i + 1));
        assert(bv.skip(i as int).drop_first() =~= bv.skip(i + 1));
        i = i + 1;
    }
}

/// The order of two paths given as text, -1, 0 or 1.
pub fn path_order_of(a: &str, b: &str) -> (r: i8)
    ensures
        r as int == path_order(a@, b@),
{
    let ac = chars_of(a);
    let bc = chars_of(b);
    let ap = parts(&ac);
    let bp = parts(&bc);
    assert(part_views(ap@).take(ap@.len() as int) =~= part_views(ap@));
    assert(part_views(bp@).take(bp@.len() as int) =~= part_views(bp@));
    parts_order_in(&ac, &ap, ap.len(), &bc, &bp, bp.len())
}

/// Do two paths with a file name lie in the same directory, as `Path::parent` and `==` see
/// it: the same components before the last?
pub open spec fn same_parent(a: Seq<char>, b: Seq<char>) -> bool {
    parts_order(a, path_parts(a).drop_last(), b, path_parts(b).drop_last()) == 0
}

pub fn same_parent_of(a: &str, b: &str) -> (r: bool)
    requires
        path_parts(a@).len() > 0,
        path_parts(b@).len() > 0,
    ensures
        r == same_parent(a@, b@),
{
    let ac = chars_of(a);
    let bc = chars_of(b);
    let ap = parts(&ac);
    let bp = parts(&bc);
    assert(part_views(ap@).take(ap@.len() - 1) =~= part_views(ap@).drop_last());
    assert(part_views(bp@).take(bp@.len() - 1) =~= part_views(bp@).drop_last());
    parts_order_in(&ac, &ap, ap.len() - 1, &bc, &bp, bp.len() - 1) == 0
}

/// Bounds of the stem of `p`'s file name, when it has one.
pub fn stem_range(p: &[char]) -> (r: Option<(usize, usize)>)
    ensures
        match r {
            Some((a, b)) => a <= b <= p@.len() && path_stem(p@) == Some(p@.subrange(a as int, b as int)),
            None => path_stem(p@) is None,
        },
{
    match file_name_range(p) {
        Some((lo, hi)) => {
            let e = name_stem_end(p, lo, hi);
            Some((lo, e))
        },
        None => None,
    }
}

pub proof fn lemma_rfind(s: Seq<char>, c: char)
    ensures
        -1 <= rfind(s, c) < s.len(),
        rfind(s, c) >= 0 ==> s[rfind(s, c)] == c,
        forall|k: int| rfind(s, c) < k < s.len() ==> s[k] != c,
    decreases s.len(),
{
    if s.len() > 0 && s.last() != c {
        lemma_rfind(s.drop_last(), c);
        assert forall|k: int| rfind(s, c) < k < s.len() implies s[k] != c by {
            if k < s.len() - 1 {
                assert(s[k] == s.drop_last()[k]);
            }
        }
    }
}

} // verus!
