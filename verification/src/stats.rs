//! The coverage census of a library, `lyrics stats`: how many tracks have synced, plain or
//! no lyrics, by audio format, and which sidecars have lost their audio file.
use vstd::prelude::*;
use vstd::string::StrSliceExecFns;

use crate::meta::{has_extension, is_audio_file, spec_is_audio_file};
use crate::order::{insert_sorted, lemma_insert_sorted_at, lemma_sort_by_push, sort_by};
use crate::path::{
    extension_range, last_name, path_extension, path_order, path_order_of, path_parts,
    path_stem, same_parent, same_parent_of, stem_range,
};
use crate::sidecar::SidecarDetail;
use crate::text::{
    chars_of, decimal, eq_ignore_case, lex_order, lowercase, push_char, push_decimal, push_range,
    push_str, str_eq, string_of_range, to_lowercase_of,
};

verus! {

/// Coverage census of a library.
#[derive(Debug, Default)]
pub struct Stats {
    pub total: u32,
    pub synced: u32,
    pub instrumental: u32,
    pub plain: u32,
    pub missing: u32,
    /// Lowercased audio extension (no dot) and its count, sorted by extension.
    pub by_extension: Vec<(String, u32)>,
    /// `.lrc`/`.txt` sidecars with no same-stem audio file in the same directory, sorted.
    pub orphan_paths: Vec<String>,
}

pub struct StatsView {
    pub total: u32,
    pub synced: u32,
    pub instrumental: u32,
    pub plain: u32,
    pub missing: u32,
    pub by_extension: Seq<(Seq<char>, u32)>,
    pub orphan_paths: Seq<Seq<char>>,
}

pub open spec fn ext_views(v: Seq<(String, u32)>) -> Seq<(Seq<char>, u32)> {
    v.map_values(|e: (String, u32)| (e.0@, e.1))
}

pub open spec fn string_views(v: Seq<String>) -> Seq<Seq<char>> {
    v.map_values(|s: String| s@)
}

impl View for Stats {
    type V = StatsView;

    open spec fn view(&self) -> StatsView {
        StatsView {
            total: self.total,
            synced: self.synced,
            instrumental: self.instrumental,
            plain: self.plain,
            missing: self.missing,
            by_extension: ext_views(self.by_extension@),
            orphan_paths: string_views(self.orphan_paths@),
        }
    }
}

/// One file the walk of a library met: its path, and, for an audio file, the detail of its
/// sidecar.
pub struct WalkedFile {
    pub path: String,
    pub detail: SidecarDetail,
}

pub open spec fn walked_views(v: Seq<WalkedFile>) -> Seq<(Seq<char>, SidecarDetail)> {
    v.map_values(|f: WalkedFile| (f.path@, f.detail))
}

pub open spec fn sat_inc(n: u32) -> u32 {
    if n < u32::MAX {
        (n + 1) as u32
    } else {
        n
    }
}

/// Count one more of `k` in a table sorted by key.
pub open spec fn bump(m: Seq<(Seq<char>, u32)>, k: Seq<char>) -> Seq<(Seq<char>, u32)>
    decreases m.len(),
{
    if m.len() == 0 {
        seq![(k, 1u32)]
    } else if m[0].0 == k {
        seq![(k, sat_inc(m[0].1))] + m.drop_first()
    } else if lex_order(k, m[0].0) < 0 {
        seq![(k, 1u32)] + m
    } else {
        seq![m[0]] + bump(m.drop_first(), k)
    }
}

/// Is the path a lyrics sidecar (`.lrc` or `.txt`, any case)?
pub open spec fn spec_is_sidecar_file(p: Seq<char>) -> bool {
    path_extension(p) matches Some(e) && (eq_ignore_case("lrc"@, e) || eq_ignore_case("txt"@, e))
}

/// What the census has counted after some files.
pub struct CensusState {
    pub total: u32,
    pub synced: u32,
    pub instrumental: u32,
    pub plain: u32,
    pub missing: u32,
    pub exts: Seq<(Seq<char>, u32)>,
    pub audio: Seq<Seq<char>>,
    pub sidecars: Seq<Seq<char>>,
}

pub open spec fn census_step(st: CensusState, f: (Seq<char>, SidecarDetail)) -> CensusState {
    let p = f.0;
    if spec_is_audio_file(p) {
        CensusState {
            total: sat_inc(st.total),
            synced: if f.1 == SidecarDetail::Synced {
                sat_inc(st.synced)
            } else {
                st.synced
            },
            instrumental: if f.1 == SidecarDetail::Instrumental {
                sat_inc(st.instrumental)
            } else {
                st.instrumental
            },
            plain: if f.1 == SidecarDetail::Plain {
                sat_inc(st.plain)
            } else {
                st.plain
            },
            missing: if f.1 == SidecarDetail::Absent {
                sat_inc(st.missing)
            } else {
                st.missing
            },
            exts: match path_extension(p) {
                Some(e) => bump(st.exts, lowercase(e)),
                None => st.exts,
            },
            audio: st.audio.push(p),
            sidecars: st.sidecars,
        }
    } else if spec_is_sidecar_file(p) {
        CensusState { sidecars: st.sidecars.push(p), ..st }
    } else {
        st
    }
}

pub open spec fn census(fs: Seq<(Seq<char>, SidecarDetail)>) -> CensusState
    decreases fs.len(),
{
    if fs.len() == 0 {
        CensusState {
            total: 0,
            synced: 0,
            instrumental: 0,
            plain: 0,
            missing: 0,
            exts: seq![],
            audio: seq![],
            sidecars: seq![],
        }
    } else {
        census_step(census(fs.drop_last()), fs.last())
    }
}

/// Does a sidecar have an audio file in its directory with the same stem, ignoring case?
pub open spec fn has_audio_sibling(s: Seq<char>, audio: Seq<Seq<char>>) -> bool {
    exists|j: int|
        0 <= j < audio.len() && same_parent(#[trigger] audio[j], s) && lowercase(
            path_stem(audio[j])->0,
        ) == lowercase(path_stem(s)->0)
}

/// The sidecars without an audio sibling, in the order they were met.
pub open spec fn orphans(sidecars: Seq<Seq<char>>, audio: Seq<Seq<char>>) -> Seq<Seq<char>>
    decreases sidecars.len(),
{
    if sidecars.len() == 0 {
        seq![]
    } else {
        orphans(sidecars.drop_last(), audio) + if has_audio_sibling(sidecars.last(), audio) {
            seq![]
        } else {
            seq![sidecars.last()]
        }
    }
}

pub open spec fn path_le_fn() -> spec_fn(Seq<char>, Seq<char>) -> bool {
    |a: Seq<char>, b: Seq<char>| path_order(a, b) <= 0
}

/// The census of the files a walk met, in the order it met them.
pub open spec fn spec_collect(fs: Seq<(Seq<char>, SidecarDetail)>) -> StatsView {
    let c = census(fs);
    StatsView {
        total: c.total,
        synced: c.synced,
        instrumental: c.instrumental,
        plain: c.plain,
        missing: c.missing,
        by_extension: c.exts,
        orphan_paths: sort_by(orphans(c.sidecars, c.audio), path_le_fn()),
    }
}

/// Every audio file is counted once, in exactly one of synced, instrumental, plain and
/// missing: the four add up to the total, short of the counters' limit.
pub proof fn lemma_every_track_is_counted_once(fs: Seq<(Seq<char>, SidecarDetail)>)
    requires
        spec_collect(fs).total < u32::MAX,
    ensures
        spec_collect(fs).synced + spec_collect(fs).instrumental + spec_collect(fs).plain + spec_collect(fs).missing
            == spec_collect(fs).total,
    decreases fs.len(),
{
    if fs.len() > 0 {
        let prev = census(fs.drop_last());
        assert(prev.total <= census(fs).total);
        lemma_every_track_is_counted_once(fs.drop_last());
    }
}

proof fn lemma_path_le_total()
    ensures
        crate::order::total_preorder(path_le_fn()),
{
    let le = path_le_fn();
    assert forall|a: Seq<char>, b: Seq<char>| #[trigger] le(a, b) || le(b, a) by {
        crate::path::lemma_path_order_laws(a, b, b);
    }
    assert forall|a: Seq<char>, b: Seq<char>, c: Seq<char>| #[trigger] le(a, b) && #[trigger] le(b, c) implies le(a, c) by {
        crate::path::lemma_path_order_laws(a, b, c);
    }
}

proof fn lemma_orphans_are_orphans(sidecars: Seq<Seq<char>>, audio: Seq<Seq<char>>)
    ensures
        forall|k: int| 0 <= k < orphans(sidecars, audio).len() ==> {
            let o = #[trigger] orphans(sidecars, audio)[k];
            sidecars.contains(o) && !has_audio_sibling(o, audio)
        },
    decreases sidecars.len(),
{
    if sidecars.len() > 0 {
        let d = sidecars.drop_last();
        lemma_orphans_are_orphans(d, audio);
        let prev = orphans(d, audio);
        assert forall|k: int| 0 <= k < orphans(sidecars, audio).len() implies {
            let o = #[trigger] orphans(sidecars, audio)[k];
            sidecars.contains(o) && !has_audio_sibling(o, audio)
        } by {
            let o = orphans(sidecars, audio)[k];
            if k < prev.len() {
                assert(o == prev[k]);
                let j = choose|j: int| 0 <= j < d.len() && d[j] == o;
                assert(sidecars[j] == o);
            } else {
                assert(o == sidecars[sidecars.len() - 1]);
            }
        }
    }
}

/// The orphan list is in path order, and every path in it is a sidecar the walk met that has
/// no audio file beside it with the same stem.
pub proof fn lemma_orphans_sorted_and_orphaned(fs: Seq<(Seq<char>, SidecarDetail)>)
    ensures
        crate::order::sorted_by(spec_collect(fs).orphan_paths, path_le_fn()),
        forall|k: int| 0 <= k < spec_collect(fs).orphan_paths.len() ==> {
            let o = #[trigger] spec_collect(fs).orphan_paths[k];
            census(fs).sidecars.contains(o) && !has_audio_sibling(o, census(fs).audio)
        },
{
    let c = census(fs);
    let os = orphans(c.sidecars, c.audio);
    lemma_path_le_total();
    crate::order::lemma_sort_by_sorted(os, path_le_fn());
    lemma_orphans_are_orphans(c.sidecars, c.audio);
    let p = |o: Seq<char>| c.sidecars.contains(o) && !has_audio_sibling(o, c.audio);
    assert forall|k: int| 0 <= k < os.len() implies p(#[trigger] os[k]) by {}
    crate::order::lemma_sort_by_all(os, path_le_fn(), p);
    assert forall|k: int| 0 <= k < spec_collect(fs).orphan_paths.len() implies {
        let o = #[trigger] spec_collect(fs).orphan_paths[k];
        c.sidecars.contains(o) && !has_audio_sibling(o, c.audio)
    } by {
        assert(p(sort_by(os, path_le_fn())[k]));
    }
}

proof fn lemma_orphans_complete(sidecars: Seq<Seq<char>>, audio: Seq<Seq<char>>, x: Seq<char>)
    requires
        sidecars.contains(x),
        !has_audio_sibling(x, audio),
    ensures
        orphans(sidecars, audio).contains(x),
    decreases sidecars.len(),
{
    let d = sidecars.drop_last();
    let prev = orphans(d, audio);
    if sidecars.last() == x {
        assert(orphans(sidecars, audio) == prev + seq![x]);
        assert(orphans(sidecars, audio)[prev.len() as int] == x);
    } else {
        let i = choose|i: int| 0 <= i < sidecars.len() && sidecars[i] == x;
        assert(i < d.len());
        assert(d[i] == x);
        lemma_orphans_complete(d, audio, x);
        let j = choose|j: int| 0 <= j < prev.len() && prev[j] == x;
        assert(orphans(sidecars, audio)[j] == x);
    }
}

/// Every sidecar the walk met without an audio file beside it of the same stem is listed as
/// an orphan: with the lemma above, the orphan list holds exactly those sidecars.
pub proof fn lemma_every_orphan_is_listed(fs: Seq<(Seq<char>, SidecarDetail)>, x: Seq<char>)
    requires
        census(fs).sidecars.contains(x),
        !has_audio_sibling(x, census(fs).audio),
    ensures
        spec_collect(fs).orphan_paths.contains(x),
{
    let c = census(fs);
    lemma_orphans_complete(c.sidecars, c.audio, x);
    crate::order::lemma_sort_by_contains(orphans(c.sidecars, c.audio), path_le_fn(), x);
}

/// The counts of a table, added up.
pub open spec fn count_sum(m: Seq<(Seq<char>, u32)>) -> int
    decreases m.len(),
{
    if m.len() == 0 {
        0
    } else {
        m[0].1 + count_sum(m.drop_first())
    }
}

proof fn lemma_bump_sum(m: Seq<(Seq<char>, u32)>, k: Seq<char>, bound: u32)
    requires
        bound < u32::MAX,
        forall|i: int| 0 <= i < m.len() ==> (#[trigger] m[i]).1 <= bound,
    ensures
        count_sum(bump(m, k)) == count_sum(m) + 1,
        forall|i: int| 0 <= i < bump(m, k).len() ==> (#[trigger] bump(m, k)[i]).1 <= bound + 1,
    decreases m.len(),
{
    let b = bump(m, k);
    if m.len() == 0 {
        assert(b.drop_first() =~= Seq::<(Seq<char>, u32)>::empty());
        assert(count_sum(Seq::<(Seq<char>, u32)>::empty()) == 0);
        assert(count_sum(b) == b[0].1 + count_sum(b.drop_first()));
    } else if m[0].0 == k {
        assert(b.drop_first() =~= m.drop_first());
        assert forall|i: int| 0 <= i < b.len() implies (#[trigger] b[i]).1 <= bound + 1 by {
            if i > 0 {
                assert(b[i] == m[i]);
            }
        }
    } else if lex_order(k, m[0].0) < 0 {
        assert(b.drop_first() =~= m);
        assert forall|i: int| 0 <= i < b.len() implies (#[trigger] b[i]).1 <= bound + 1 by {
            if i > 0 {
                assert(b[i] == m[i - 1]);
            }
        }
    } else {
        let d = m.drop_first();
        assert forall|i: int| 0 <= i < d.len() implies (#[trigger] d[i]).1 <= bound by {
            assert(d[i] == m[i + 1]);
        }
        lemma_bump_sum(d, k, bound);
        assert(b.drop_first() =~= bump(d, k));
        assert(b[0] == m[0]);
        assert(count_sum(b) == b[0].1 + count_sum(b.drop_first()));
        assert forall|i: int| 0 <= i < b.len() implies (#[trigger] b[i]).1 <= bound + 1 by {
            if i > 0 {
                assert(b[i] == bump(d, k)[i - 1]);
            }
        }
    }
}

proof fn lemma_census_counts(fs: Seq<(Seq<char>, SidecarDetail)>)
    requires
        census(fs).total < u32::MAX,
    ensures
        count_sum(census(fs).exts) == census(fs).total,
        forall|i: int| 0 <= i < census(fs).exts.len() ==> (#[trigger] census(fs).exts[i]).1 <= census(fs).total,
    decreases fs.len(),
{
    if fs.len() == 0 {
        assert(census(fs).exts =~= Seq::<(Seq<char>, u32)>::empty());
    } else {
        let prev = census(fs.drop_last());
        assert(prev.total <= census(fs).total);
        lemma_census_counts(fs.drop_last());
        let p = fs.last().0;
        if spec_is_audio_file(p) {
            let e = path_extension(p)->0;
            lemma_bump_sum(prev.exts, lowercase(e), prev.total);
        }
    }
}

/// The per-format counts add up to the total: every audio file is counted under its
/// extension (lowercased) exactly once, short of the counters' limit.
pub proof fn lemma_format_counts_add_up(fs: Seq<(Seq<char>, SidecarDetail)>)
    requires
        spec_collect(fs).total < u32::MAX,
    ensures
        count_sum(spec_collect(fs).by_extension) == spec_collect(fs).total,
{
    lemma_census_counts(fs);
}

/// Percentages are rounded half up: `p` percent of `total` is within half of `total` of
/// `100 * count`, and a count no larger than the total is at most 100 percent.
pub proof fn lemma_percentage_rounds_half_up(count: u32, total: u32)
    requires
        total > 0,
        count <= total,
    ensures
        spec_percentage(count, total) <= 100,
        spec_percentage(count, total) * total <= 100 * count + total / 2,
        100 * count + total / 2 < (spec_percentage(count, total) + 1) * total,
{
    let n = count * 100 + total / 2;
    let t = total as int;
    assert(n / t <= 100) by (nonlinear_arith)
        requires
            n == count * 100 + total / 2,
            t == total,
            count <= total,
            t > 0,
    ;
    assert((n / t) * t <= n && n < (n / t + 1) * t) by (nonlinear_arith)
        requires
            t > 0,
            n >= 0,
    ;
}

proof fn lemma_format_order_total()
    ensures
        crate::order::total_preorder(format_le_fn()),
{
    let le = format_le_fn();
    assert forall|a: (Seq<char>, u32), b: (Seq<char>, u32)| #[trigger] le(a, b) || le(b, a) by {
        crate::text::lemma_lex_order_antisymmetric(a.0, b.0);
    }
    assert forall|a: (Seq<char>, u32), b: (Seq<char>, u32), c: (Seq<char>, u32)| #[trigger] le(a, b) && #[trigger] le(b, c) implies le(a, c) by {
        if a.1 == b.1 && b.1 == c.1 {
            crate::text::lemma_lex_order_transitive(a.0, b.0, c.0);
        }
    }
}

/// The formats are listed most common first, formats with equal counts by name, and each
/// counted format is listed once.
pub proof fn lemma_formats_listed_by_count(m: Seq<(Seq<char>, u32)>, x: (Seq<char>, u32))
    ensures
        crate::order::sorted_by(sort_by(m, format_le_fn()), format_le_fn()),
        forall|i: int, j: int|
            0 <= i < j < m.len() ==> #[trigger] sort_by(m, format_le_fn())[i].1 >= #[trigger] sort_by(
                m,
                format_le_fn(),
            )[j].1,
        sort_by(m, format_le_fn()).len() == m.len(),
        sort_by(m, format_le_fn()).contains(x) <==> m.contains(x),
{
    lemma_format_order_total();
    crate::order::lemma_sort_by_sorted(m, format_le_fn());
    crate::order::lemma_sort_by_len(m, format_le_fn());
    let s = sort_by(m, format_le_fn());
    assert forall|i: int, j: int| 0 <= i < j < m.len() implies #[trigger] s[i].1 >= #[trigger] s[j].1 by {
        assert((format_le_fn())(s[i], s[j]));
    }
    crate::order::lemma_sort_by_contains(m, format_le_fn(), x);
}

proof fn lemma_bump_skip(m: Seq<(Seq<char>, u32)>, k: Seq<char>, i: int)
    requires
        0 <= i <= m.len(),
        forall|j: int| 0 <= j < i ==> (#[trigger] m[j]).0 != k && lex_order(k, m[j].0) >= 0,
    ensures
        bump(m, k) == m.take(i) + bump(m.skip(i), k),
    decreases i,
{
    if i == 0 {
        assert(m.skip(0) =~= m);
        assert(m.take(0) + bump(m, k) =~= bump(m, k));
    } else {
        let d = m.drop_first();
        assert forall|j: int| 0 <= j < i - 1 implies (#[trigger] d[j]).0 != k && lex_order(k, d[j].0) >= 0 by {
            assert(d[j] == m[j + 1]);
        }
        lemma_bump_skip(d, k, i - 1);
        assert(d.skip(i - 1) =~= m.skip(i));
        assert(seq![m[0]] + d.take(i - 1) =~= m.take(i));
    }
}

fn bump_exec(v: &mut Vec<(String, u32)>, key: String)
    ensures
        ext_views(final(v)@) == bump(ext_views(old(v)@), key@),
{
    let ghost m = ext_views(v@);
    let mut i: usize = 0;
    while i < v.len() && !str_eq(v[i].0.as_str(), key.as_str()) && lex_of(key.as_str(), v[i].0.as_str()) >= 0
        invariant
            i <= v@.len(),
            m == ext_views(v@),
            forall|j: int| 0 <= j < i ==> (#[trigger] m[j]).0 != key@ && lex_order(key@, m[j].0) >= 0,
        decreases v@.len() - i,
    {
        assert(m[i as int] == (v@[i as int].0@, v@[i as int].1));
        i = i + 1;
    }
    proof {
        lemma_bump_skip(m, key@, i as int);
        if i < v@.len() {
            assert(m[i as int] == (v@[i as int].0@, v@[i as int].1));
            assert(m.skip(i as int)[0] == m[i as int]);
            assert(m.skip(i as int).drop_first() =~= m.skip(i + 1));
        } else {
            assert(m.skip(i as int) =~= seq![]);
        }
    }
    if i < v.len() && str_eq(v[i].0.as_str(), key.as_str()) {
        let (k, c) = v.remove(i);
        v.insert(i, (k, c.saturating_add(1)));
        assert(ext_views(v@) =~= m.take(i as int) + (seq![(key@, sat_inc(c))] + m.skip(i + 1)));
    } else {
        v.insert(i, (key, 1));
        assert(ext_views(v@) =~= m.take(i as int) + (seq![(key@, 1u32)] + m.skip(i as int)));
    }
}

pub(crate) fn lex_of(a: &str, b: &str) -> (r: i8)
    ensures
        r as int == lex_order(a@, b@),
{
    let x = chars_of(a);
    let y = chars_of(b);
    assert(x@.subrange(0, x@.len() as int) =~= x@);
    assert(y@.subrange(0, y@.len() as int) =~= y@);
    crate::text::lex_order_in(&x, 0, x.len(), &y, 0, y.len())
}

/// Is the path a lyrics sidecar (`.lrc` or `.txt`, any case)?
fn is_sidecar_file(path: &str) -> (r: bool)
    ensures
        r == spec_is_sidecar_file(path@),
{
    let exts: [&str; 2] = ["lrc", "txt"];
    let r = has_extension(path, &exts);
    proof {
        assert(exts@ =~= seq!["lrc", "txt"]);
        match path_extension(path@) {
            Some(e) => {
                if eq_ignore_case("lrc"@, e) {
                    assert(eq_ignore_case(exts@[0]@, e));
                } else if eq_ignore_case("txt"@, e) {
                    assert(eq_ignore_case(exts@[1]@, e));
                }
            },
            None => {},
        }
    }
    r
}

/// The lowercased stem of a path that has a file name.
fn lower_stem(p: &str) -> (r: String)
    requires
        path_stem(p@) is Some,
    ensures
        r@ == lowercase(path_stem(p@)->0),
{
    let cs = chars_of(p);
    match stem_range(&cs) {
        Some((a, b)) => {
            let s = string_of_range(&cs, a, b);
            to_lowercase_of(s.as_str())
        },
        None => {
            assert(false);
            String::new()
        },
    }
}

proof fn lemma_audio_has_stem(p: Seq<char>)
    requires
        spec_is_audio_file(p),
    ensures
        path_stem(p) is Some,
        path_parts(p).len() > 0,
{
}

fn has_sibling(s: &str, audio: &Vec<String>) -> (r: bool)
    requires
        spec_is_sidecar_file(s@),
        forall|j: int| 0 <= j < audio@.len() ==> spec_is_audio_file(#[trigger] audio@[j]@),
    ensures
        r == has_audio_sibling(s@, string_views(audio@)),
{
    let ghost av = string_views(audio@);
    let ls = lower_stem(s);
    let mut j: usize = 0;
    while j < audio.len()
        invariant
            j <= audio@.len(),
            av == string_views(audio@),
            spec_is_sidecar_file(s@),
            ls@ == lowercase(path_stem(s@)->0),
            forall|k: int| 0 <= k < audio@.len() ==> spec_is_audio_file(#[trigger] audio@[k]@),
            forall|k: int|
                0 <= k < j ==> !(same_parent(#[trigger] av[k], s@) && lowercase(path_stem(av[k])->0)
                    == lowercase(path_stem(s@)->0)),
        decreases audio@.len() - j,
    {
        let a = audio[j].as_str();
        assert(av[j as int] == a@);
        proof {
            lemma_audio_has_stem(a@);
        }
        if same_parent_of(a, s) {
            let la = lower_stem(a);
            if str_eq(la.as_str(), ls.as_str()) {
                return true;
            }
        }
        j = j + 1;
    }
    false
}


/// Insert `x` into `out`, sorted by path, after every path not later than it.
fn insert_path(out: &mut Vec<String>, x: String)
    ensures
        string_views(final(out)@) == insert_sorted(string_views(old(out)@), x@, path_le_fn()),
{
    let ghost before = string_views(out@);
    let mut j = out.len();
    while j > 0 && !(path_order_of(out[j - 1].as_str(), x.as_str()) <= 0)
        invariant
            j <= out@.len(),
            string_views(out@) == before,
            forall|k: int| j <= k < before.len() ==> !(path_le_fn())(#[trigger] before[k], x@),
        decreases j,
    {
        assert(before[j - 1] == out@[j - 1]@);
        j = j - 1;
    }
    proof {
        if j > 0 {
            assert(before[j - 1] == out@[j - 1]@);
        }
        lemma_insert_sorted_at(before, x@, path_le_fn(), j as int);
    }
    out.insert(j, x);
    assert(string_views(out@) =~= before.insert(j as int, x@));
}

/// Count a library: `files` is every file a walk of it met, in walk order, each audio file
/// with the detail of its sidecar. Orphan matching lowercases every stem, so it stays
/// case-insensitive whatever the filesystem.
pub fn collect(files: &Vec<WalkedFile>) -> (r: Stats)
    ensures
        r@ == spec_collect(walked_views(files@)),
{
    let ghost fv = walked_views(files@);
    let mut stats = Stats {
        total: 0,
        synced: 0,
        instrumental: 0,
        plain: 0,
        missing: 0,
        by_extension: Vec::new(),
        orphan_paths: Vec::new(),
    };
    let mut audio: Vec<String> = Vec::new();
    let mut sidecars: Vec<String> = Vec::new();
    let mut i: usize = 0;
    assert(ext_views(stats.by_extension@) =~= seq![]);
    assert(string_views(audio@) =~= seq![]);
    assert(string_views(sidecars@) =~= seq![]);
    assert(fv.take(0) =~= seq![]);
    while i < files.len()
        invariant
            i <= files@.len(),
            fv == walked_views(files@),
            ({
                let c = census(fv.take(i as int));
                &&& stats.total == c.total
                &&& stats.synced == c.synced
                &&& stats.instrumental == c.instrumental
                &&& stats.plain == c.plain
                &&& stats.missing == c.missing
                &&& ext_views(stats.by_extension@) == c.exts
                &&& string_views(audio@) == c.audio
                &&& string_views(sidecars@) == c.sidecars
            }),
            forall|j: int| 0 <= j < audio@.len() ==> spec_is_audio_file(#[trigger] audio@[j]@),
            forall|j: int| 0 <= j < sidecars@.len() ==> spec_is_sidecar_file(#[trigger] sidecars@[j]@),
        decreases files@.len() - i,
    {
        let f = &files[i];
        let p = f.path.as_str();
        assert(fv[i as int] == (p@, f.detail));
        assert(fv.take(i + 1).drop_last() =~= fv.take(i as int));
        let ghost a0 = string_views(audio@);
        let ghost s0 = string_views(sidecars@);
        if is_audio_file(p) {
            stats.total = stats.total.saturating_add(1);
            match f.detail {
                SidecarDetail::Synced => stats.synced = stats.synced.saturating_add(1),
                SidecarDetail::Instrumental => stats.instrumental = stats.instrumental.saturating_add(1),
                SidecarDetail::Plain => stats.plain = stats.plain.saturating_add(1),
                SidecarDetail::Absent => stats.missing = stats.missing.saturating_add(1),
            }
            let cs = chars_of(p);
            match extension_range(&cs) {
                Some((a, b)) => {
                    let e = string_of_range(&cs, a, b);
                    let lower = to_lowercase_of(e.as_str());
                    bump_exec(&mut stats.by_extension, lower);
                },
                None => {},
            }
            audio.push(f.path.clone());
            assert(string_views(audio@) =~= a0.push(p@));
        } else if is_sidecar_file(p) {
            sidecars.push(f.path.clone());
            assert(string_views(sidecars@) =~= s0.push(p@));
        }
        i = i + 1;
    }
    assert(fv.take(i as int) =~= fv);
    let ghost c = census(fv);
    let ghost av = string_views(audio@);
    let ghost ov = orphans(c.sidecars, c.audio);
    let mut found: Vec<String> = Vec::new();
    let ghost mut done: Seq<Seq<char>> = seq![];
    let mut k: usize = 0;
    assert(string_views(found@) =~= sort_by(orphans(c.sidecars.take(0), av), path_le_fn()));
    while k < sidecars.len()
        invariant
            k <= sidecars@.len(),
            string_views(sidecars@) == c.sidecars,
            av == string_views(audio@),
            av == c.audio,
            forall|j: int| 0 <= j < audio@.len() ==> spec_is_audio_file(#[trigger] audio@[j]@),
            forall|j: int| 0 <= j < sidecars@.len() ==> spec_is_sidecar_file(#[trigger] sidecars@[j]@),
            string_views(found@) == sort_by(orphans(c.sidecars.take(k as int), av), path_le_fn()),
        decreases sidecars@.len() - k,
    {
        let sc = sidecars[k].as_str();
        assert(c.sidecars[k as int] == sc@);
        assert(c.sidecars.take(k + 1).drop_last() =~= c.sidecars.take(k as int));
        if !has_sibling(sc, &audio) {
            proof {
                lemma_sort_by_push(orphans(c.sidecars.take(k as int), av), sc@, path_le_fn());
            }
            insert_path(&mut found, sidecars[k].clone());
            assert(orphans(c.sidecars.take(k + 1), av) =~= orphans(c.sidecars.take(k as int), av).push(sc@));
        } else {
            assert(orphans(c.sidecars.take(k + 1), av) =~= orphans(c.sidecars.take(k as int), av));
        }
        k = k + 1;
    }
    assert(c.sidecars.take(k as int) =~= c.sidecars);
    stats.orphan_paths = found;
    stats
}

impl Stats {
    /// Number of orphaned sidecars found (saturating at `u32::MAX`).
    pub fn orphan_count(&self) -> (r: u32)
        ensures
            r == if self@.orphan_paths.len() > u32::MAX {
                u32::MAX as int
            } else {
                self@.orphan_paths.len() as int
            },
    {
        if self.orphan_paths.len() > 0xffff_ffff {
            0xffff_ffff
        } else {
            self.orphan_paths.len() as u32
        }
    }

    /// The count recorded for an extension, if any file had it.
    pub fn extension_count(&self, ext: &str) -> (r: Option<u32>)
        ensures
            match r {
                Some(c) => exists|i: int|
                    0 <= i < self@.by_extension.len() && #[trigger] self@.by_extension[i] == (ext@, c),
                None => forall|i: int|
                    0 <= i < self@.by_extension.len() ==> (#[trigger] self@.by_extension[i]).0 != ext@,
            },
    {
        let mut i: usize = 0;
        while i < self.by_extension.len()
            invariant
                i <= self.by_extension@.len(),
                forall|j: int| 0 <= j < i ==> (#[trigger] self@.by_extension[j]).0 != ext@,
            decreases self.by_extension@.len() - i,
        {
            assert(self@.by_extension[i as int] == (self.by_extension@[i as int].0@, self.by_extension@[i as int].1));
            if str_eq(self.by_extension[i].0.as_str(), ext) {
                return Some(self.by_extension[i].1);
            }
            i = i + 1;
        }
        None
    }
}


// ---------------------------------------------------------------------------------------
// Rendering
// ---------------------------------------------------------------------------------------

/// Decimal digits grouped in threes from the right, separated by commas.
pub open spec fn group3(d: Seq<char>) -> Seq<char>
    decreases d.len(),
{
    if d.len() <= 3 {
        d
    } else {
        group3(d.take(d.len() - 3)) + seq![','] + d.skip(d.len() - 3)
    }
}

/// `n` with thousands separators, e.g. `1240` becomes `1,240`.
pub open spec fn spec_thousands(n: u32) -> Seq<char> {
    group3(decimal(n as nat))
}

fn push_group3(out: &mut String, d: &Vec<char>, hi: usize)
    requires
        hi <= d@.len(),
    ensures
        final(out)@ == old(out)@ + group3(d@.take(hi as int)),
    decreases hi,
{
    let ghost t = d@.take(hi as int);
    if hi <= 3 {
        push_range(out, d, 0, hi);
        assert(d@.subrange(0, hi as int) =~= t);
    } else {
        let ghost start = out@;
        push_group3(out, d, hi - 3);
        push_char(out, ',');
        push_range(out, d, hi - 3, hi);
        assert(t.take(t.len() - 3) =~= d@.take(hi - 3));
        assert(t.skip(t.len() - 3) =~= d@.subrange(hi - 3, hi as int));
        assert(out@ =~= start + group3(t));
    }
}

/// Render `n` with thousands separators, e.g. `1240` becomes `1,240`.
pub fn thousands(n: u32) -> (r: String)
    ensures
        r@ == spec_thousands(n),
{
    let digits = crate::text::decimal_string(n as u64);
    let d = chars_of(digits.as_str());
    let mut out = String::new();
    push_group3(&mut out, &d, d.len());
    assert(d@.take(d@.len() as int) =~= d@);
    assert(Seq::<char>::empty() + group3(d@) =~= group3(d@));
    out
}

/// `count` as a percentage of `total`, rounded to the nearest whole number; 0 when `total`
/// is 0.
pub open spec fn spec_percentage(count: u32, total: u32) -> u32 {
    if total == 0 {
        0
    } else {
        let p = (count * 100 + total / 2) / (total as int);
        if p > u32::MAX {
            u32::MAX
        } else {
            p as u32
        }
    }
}

pub fn percentage(count: u32, total: u32) -> (r: u32)
    ensures
        r == spec_percentage(count, total),
{
    if total == 0 {
        return 0;
    }
    let c = count as u64;
    let t = total as u64;
    let scaled = c * 100 + t / 2;
    let p = scaled / t;
    if p > 0xffff_ffff {
        0xffff_ffff
    } else {
        p as u32
    }
}

pub open spec fn spaces(n: int) -> Seq<char> {
    Seq::new(if n > 0 { n as nat } else { 0 }, |i: int| ' ')
}

/// `{:>w}`: right-aligned in `w` characters.
pub open spec fn pad_left(s: Seq<char>, w: int) -> Seq<char> {
    spaces(w - s.len()) + s
}

/// `{:<w}`: left-aligned in `w` characters.
pub open spec fn pad_right(s: Seq<char>, w: int) -> Seq<char> {
    s + spaces(w - s.len())
}

fn push_spaces(out: &mut String, n: usize)
    ensures
        final(out)@ == old(out)@ + spaces(n as int),
{
    let ghost start = out@;
    let mut i: usize = 0;
    while i < n
        invariant
            i <= n,
            out@ == start + spaces(i as int),
        decreases n - i,
    {
        push_char(out, ' ');
        assert(spaces(i + 1) =~= spaces(i as int).push(' '));
        i = i + 1;
    }
}

fn push_padded_left(out: &mut String, s: &str, w: usize)
    ensures
        final(out)@ == old(out)@ + pad_left(s@, w as int),
{
    let n = s.unicode_len();
    if n < w {
        push_spaces(out, w - n);
    } else {
        assert(spaces(w - s@.len()) =~= seq![]);
        assert(old(out)@ + seq![] =~= old(out)@);
    }
    let ghost mid = out@;
    push_str(out, s);
}

pub(crate) fn push_padded_right(out: &mut String, s: &str, w: usize)
    ensures
        final(out)@ == old(out)@ + pad_right(s@, w as int),
{
    let ghost start = out@;
    push_str(out, s);
    let n = s.unicode_len();
    if n < w {
        push_spaces(out, w - n);
    } else {
        assert(spaces(w - s@.len()) =~= seq![]);
    }
    assert(out@ =~= start + pad_right(s@, w as int));
}

pub open spec fn count_line(label: Seq<char>, count: u32, total: u32) -> Seq<char> {
    pad_right(label, 13) + pad_left(spec_thousands(count), 8) + "  ("@ + decimal(
        spec_percentage(count, total) as nat,
    ) + "%)\n"@
}

/// The census opens with the total, then one row for each state, in the order synced,
/// instrumental, plain, missing: each row is its label, left-aligned in 13 columns, then that
/// state's own count, right-aligned in 8, then that count's own percentage of the total.
pub proof fn lemma_census_rows_show_their_own_counts(s: StatsView)
    ensures
        ({
            let row = |label: Seq<char>, n: u32| pad_right(label, 13) + pad_left(spec_thousands(n), 8) + "  ("@
                + decimal(spec_percentage(n, s.total) as nat) + "%)\n"@;
            let head = "Total tracks: "@ + pad_left(spec_thousands(s.total), 8) + "\n"@ + "\n"@ + row("Synced"@, s.synced)
                + row("Instrumental"@, s.instrumental) + row("Plain"@, s.plain) + row("Missing"@, s.missing);
            head.is_prefix_of(spec_render(s))
        }),
{
    let row = |label: Seq<char>, n: u32| pad_right(label, 13) + pad_left(spec_thousands(n), 8) + "  ("@
        + decimal(spec_percentage(n, s.total) as nat) + "%)\n"@;
    let head = "Total tracks: "@ + pad_left(spec_thousands(s.total), 8) + "\n"@ + "\n"@ + row("Synced"@, s.synced)
        + row("Instrumental"@, s.instrumental) + row("Plain"@, s.plain) + row("Missing"@, s.missing);
    let tail = (if s.by_extension.len() > 0 {
        "\n"@ + "By format:\n"@ + format_lines(sort_by(s.by_extension, format_le_fn()))
    } else {
        seq![]
    }) + "\n"@ + "Orphaned sidecars: "@ + pad_left(spec_thousands(spec_orphan_count(s)), 4) + "\n"@;
    assert(spec_render(s) =~= head + tail);
    assert((head + tail).take(head.len() as int) =~= head);
}

/// The census closes with the number of orphaned sidecars, the length of the orphan list,
/// right-aligned in 4 columns.
pub proof fn lemma_census_ends_with_the_orphan_count(s: StatsView)
    requires
        s.orphan_paths.len() <= u32::MAX,
    ensures
        ("\n"@ + "Orphaned sidecars: "@ + pad_left(spec_thousands(s.orphan_paths.len() as u32), 4) + "\n"@).is_suffix_of(
            spec_render(s),
        ),
{
    let head = "Total tracks: "@ + pad_left(spec_thousands(s.total), 8) + "\n"@ + "\n"@ + count_line(
        "Synced"@,
        s.synced,
        s.total,
    ) + count_line("Instrumental"@, s.instrumental, s.total) + count_line("Plain"@, s.plain, s.total)
        + count_line("Missing"@, s.missing, s.total);
    let mid = if s.by_extension.len() > 0 {
        "\n"@ + "By format:\n"@ + format_lines(sort_by(s.by_extension, format_le_fn()))
    } else {
        seq![]
    };
    let tail = "\n"@ + "Orphaned sidecars: "@ + pad_left(spec_thousands(spec_orphan_count(s)), 4) + "\n"@;
    assert(spec_render(s) =~= (head + mid) + tail);
    assert(((head + mid) + tail).subrange((head + mid).len() as int, ((head + mid) + tail).len() as int) =~= tail);
}

pub open spec fn format_le_fn() -> spec_fn((Seq<char>, u32), (Seq<char>, u32)) -> bool {
    |a: (Seq<char>, u32), b: (Seq<char>, u32)| a.1 > b.1 || (a.1 == b.1 && lex_order(a.0, b.0) <= 0)
}

pub open spec fn format_lines(es: Seq<(Seq<char>, u32)>) -> Seq<char>
    decreases es.len(),
{
    if es.len() == 0 {
        seq![]
    } else {
        format_lines(es.drop_last()) + "  ."@ + pad_right(es.last().0, 8) + pad_left(
            spec_thousands(es.last().1),
            8,
        ) + "\n"@
    }
}

pub open spec fn spec_orphan_count(s: StatsView) -> u32 {
    if s.orphan_paths.len() > u32::MAX {
        u32::MAX
    } else {
        s.orphan_paths.len() as u32
    }
}

/// The census as `lyrics stats` prints it: totals with percentages, the formats by count
/// (most common first), and the orphan count.
pub open spec fn spec_render(s: StatsView) -> Seq<char> {
    "Total tracks: "@ + pad_left(spec_thousands(s.total), 8) + "\n"@ + "\n"@ + count_line(
        "Synced"@,
        s.synced,
        s.total,
    ) + count_line("Instrumental"@, s.instrumental, s.total) + count_line("Plain"@, s.plain, s.total)
        + count_line("Missing"@, s.missing, s.total) + (if s.by_extension.len() > 0 {
        "\n"@ + "By format:\n"@ + format_lines(sort_by(s.by_extension, format_le_fn()))
    } else {
        seq![]
    }) + "\n"@ + "Orphaned sidecars: "@ + pad_left(spec_thousands(spec_orphan_count(s)), 4) + "\n"@
}

fn push_count_line(out: &mut String, label: &str, count: u32, total: u32)
    ensures
        final(out)@ == old(out)@ + count_line(label@, count, total),
{
    let ghost start = out@;
    push_padded_right(out, label, 13);
    push_padded_left(out, thousands(count).as_str(), 8);
    push_str(out, "  (");
    push_decimal(out, percentage(count, total) as u64);
    push_str(out, "%)\n");
    assert(out@ =~= start + count_line(label@, count, total));
}

fn insert_format(out: &mut Vec<(String, u32)>, x: (String, u32))
    ensures
        ext_views(final(out)@) == insert_sorted(ext_views(old(out)@), (x.0@, x.1), format_le_fn()),
{
    let ghost before = ext_views(out@);
    let ghost xv = (x.0@, x.1);
    let mut j = out.len();
    while j > 0 && !(out[j - 1].1 > x.1 || (out[j - 1].1 == x.1 && lex_of(out[j - 1].0.as_str(), x.0.as_str()) <= 0))
        invariant
            j <= out@.len(),
            ext_views(out@) == before,
            xv == (x.0@, x.1),
            forall|k: int| j <= k < before.len() ==> !(format_le_fn())(#[trigger] before[k], xv),
        decreases j,
    {
        assert(before[j - 1] == (out@[j - 1].0@, out@[j - 1].1));
        j = j - 1;
    }
    proof {
        if j > 0 {
            assert(before[j - 1] == (out@[j - 1].0@, out@[j - 1].1));
        }
        lemma_insert_sorted_at(before, xv, format_le_fn(), j as int);
    }
    out.insert(j, x);
    assert(ext_views(out@) =~= before.insert(j as int, xv));
}

impl Stats {
    /// Render the census as the block `lyrics stats` prints.
    pub fn render(&self) -> (r: String)
        ensures
            r@ == spec_render(self@),
    {
        let mut out = String::new();
        push_str(&mut out, "Total tracks: ");
        push_padded_left(&mut out, thousands(self.total).as_str(), 8);
        push_str(&mut out, "\n");
        push_str(&mut out, "\n");
        push_count_line(&mut out, "Synced", self.synced, self.total);
        push_count_line(&mut out, "Instrumental", self.instrumental, self.total);
        push_count_line(&mut out, "Plain", self.plain, self.total);
        push_count_line(&mut out, "Missing", self.missing, self.total);
        let ghost t0 = out@;
        if self.by_extension.len() > 0 {
            push_str(&mut out, "\n");
            push_str(&mut out, "By format:\n");
            let ghost ev = ext_views(self.by_extension@);
            let mut sorted: Vec<(String, u32)> = Vec::new();
            let mut i: usize = 0;
            assert(ext_views(sorted@) =~= sort_by(ev.take(0), format_le_fn()));
            while i < self.by_extension.len()
                invariant
                    i <= self.by_extension@.len(),
                    ev == ext_views(self.by_extension@),
                    ext_views(sorted@) == sort_by(ev.take(i as int), format_le_fn()),
                decreases self.by_extension@.len() - i,
            {
                let e = &self.by_extension[i];
                let x = (e.0.clone(), e.1);
                assert(ev[i as int] == (x.0@, x.1));
                proof {
                    lemma_sort_by_push(ev.take(i as int), ev[i as int], format_le_fn());
                    assert(ev.take(i + 1) =~= ev.take(i as int).push(ev[i as int]));
                }
                insert_format(&mut sorted, x);
                i = i + 1;
            }
            assert(ev.take(i as int) =~= ev);
            let ghost sv = ext_views(sorted@);
            let ghost s1 = out@;
            let mut j: usize = 0;
            while j < sorted.len()
                invariant
                    j <= sorted@.len(),
                    sv == ext_views(sorted@),
                    out@ == s1 + format_lines(sv.take(j as int)),
                decreases sorted@.len() - j,
            {
                let e = &sorted[j];
                assert(sv[j as int] == (e.0@, e.1));
                push_str(&mut out, "  .");
                push_padded_right(&mut out, e.0.as_str(), 8);
                push_padded_left(&mut out, thousands(e.1).as_str(), 8);
                push_str(&mut out, "\n");
                assert(sv.take(j + 1).drop_last() =~= sv.take(j as int));
                assert(out@ =~= s1 + format_lines(sv.take(j + 1)));
                j = j + 1;
            }
            assert(sv.take(j as int) =~= sv);
        }
        let ghost t1 = out@;
        assert(t1 =~= t0 + if self@.by_extension.len() > 0 {
            "\n"@ + "By format:\n"@ + format_lines(sort_by(self@.by_extension, format_le_fn()))
        } else {
            seq![]
        });
        push_str(&mut out, "\n");
        push_str(&mut out, "Orphaned sidecars: ");
        push_padded_left(&mut out, thousands(self.orphan_count()).as_str(), 4);
        push_str(&mut out, "\n");
        assert(out@ =~= spec_render(self@));
        out
    }
}

} // verus!
