//! Stable sorting and grouping, as the spec functions the library's orderings are stated in.
use vstd::prelude::*;

verus! {

/// Insert `x` after the last element of `s` that `le` puts no later than it: the step of a
/// stable insertion sort.
pub open spec fn insert_sorted<T>(s: Seq<T>, x: T, le: spec_fn(T, T) -> bool) -> Seq<T>
    decreases s.len(),
{
    if s.len() == 0 {
        seq![x]
    } else if le(s.last(), x) {
        s.push(x)
    } else {
        insert_sorted(s.drop_last(), x, le).push(s.last())
    }
}

/// `s` stably sorted by `le`: what `slice::sort_by` returns for a comparator whose
/// "not greater" is `le`.
pub open spec fn sort_by<T>(s: Seq<T>, le: spec_fn(T, T) -> bool) -> Seq<T>
    decreases s.len(),
{
    if s.len() == 0 {
        s
    } else {
        insert_sorted(sort_by(s.drop_last(), le), s.last(), le)
    }
}

/// The maximal runs of consecutive elements with the same key.
pub open spec fn runs<T, K>(s: Seq<T>, key: spec_fn(T) -> K) -> Seq<Seq<T>>
    decreases s.len(),
{
    if s.len() == 0 {
        seq![]
    } else {
        let r = runs(s.drop_last(), key);
        if r.len() > 0 && key(r.last().last()) == key(s.last()) {
            r.update(r.len() - 1, r.last().push(s.last()))
        } else {
            r.push(seq![s.last()])
        }
    }
}

pub proof fn lemma_insert_sorted_at<T>(s: Seq<T>, x: T, le: spec_fn(T, T) -> bool, j: int)
    requires
        0 <= j <= s.len(),
        j == 0 || le(s[j - 1], x),
        forall|k: int| j <= k < s.len() ==> !le(#[trigger] s[k], x),
    ensures
        insert_sorted(s, x, le) == s.insert(j, x),
    decreases s.len(),
{
    if s.len() == 0 {
        assert(s.insert(j, x) =~= seq![x]);
    } else if le(s.last(), x) {
        assert(j == s.len());
        assert(s.insert(j, x) =~= s.push(x));
    } else {
        let d = s.drop_last();
        assert(j < s.len());
        assert forall|k: int| j <= k < d.len() implies !le(#[trigger] d[k], x) by {
            assert(d[k] == s[k]);
        }
        if j > 0 {
            assert(d[j - 1] == s[j - 1]);
        }
        lemma_insert_sorted_at(d, x, le, j);
        assert(s.insert(j, x) =~= d.insert(j, x).push(s.last()));
    }
}

pub proof fn lemma_insert_sorted_len<T>(s: Seq<T>, x: T, le: spec_fn(T, T) -> bool)
    ensures
        insert_sorted(s, x, le).len() == s.len() + 1,
    decreases s.len(),
{
    if s.len() > 0 && !le(s.last(), x) {
        lemma_insert_sorted_len(s.drop_last(), x, le);
    }
}

pub proof fn lemma_sort_by_len<T>(s: Seq<T>, le: spec_fn(T, T) -> bool)
    ensures
        sort_by(s, le).len() == s.len(),
    decreases s.len(),
{
    if s.len() > 0 {
        lemma_sort_by_len(s.drop_last(), le);
        lemma_insert_sorted_len(sort_by(s.drop_last(), le), s.last(), le);
    }
}

/// Sorting one more element is inserting it into the sorted rest.
pub proof fn lemma_sort_by_push<T>(s: Seq<T>, x: T, le: spec_fn(T, T) -> bool)
    ensures
        sort_by(s.push(x), le) == insert_sorted(sort_by(s, le), x, le),
{
    assert(s.push(x).drop_last() =~= s);
}

/// Grouping one more element: it joins the last run when its key matches, else starts one.
pub proof fn lemma_runs_push<T, K>(s: Seq<T>, x: T, key: spec_fn(T) -> K)
    ensures
        runs(s.push(x), key) == ({
            let r = runs(s, key);
            if r.len() > 0 && key(r.last().last()) == key(x) {
                r.update(r.len() - 1, r.last().push(x))
            } else {
                r.push(seq![x])
            }
        }),
{
    assert(s.push(x).drop_last() =~= s);
}

/// Every run is non-empty.
pub proof fn lemma_runs_nonempty<T, K>(s: Seq<T>, key: spec_fn(T) -> K)
    ensures
        forall|i: int| 0 <= i < runs(s, key).len() ==> (#[trigger] runs(s, key)[i]).len() > 0,
    decreases s.len(),
{
    if s.len() > 0 {
        lemma_runs_nonempty(s.drop_last(), key);
        let r = runs(s.drop_last(), key);
        assert forall|i: int| 0 <= i < runs(s, key).len() implies (#[trigger] runs(s, key)[i]).len()
            > 0 by {
            if r.len() > 0 && key(r.last().last()) == key(s.last()) {
                if i < r.len() - 1 {
                    assert(runs(s, key)[i] == r[i]);
                }
            } else {
                if i < r.len() {
                    assert(runs(s, key)[i] == r[i]);
                }
            }
        }
    }
}

/// Every element after the one before it in the order `le`.
pub open spec fn sorted_by<T>(s: Seq<T>, le: spec_fn(T, T) -> bool) -> bool {
    forall|i: int, j: int| 0 <= i < j < s.len() ==> le(#[trigger] s[i], #[trigger] s[j])
}

/// `le` orders any two values, and transitively.
pub open spec fn total_preorder<T>(le: spec_fn(T, T) -> bool) -> bool {
    &&& forall|a: T, b: T| #[trigger] le(a, b) || le(b, a)
    &&& forall|a: T, b: T, c: T| #[trigger] le(a, b) && #[trigger] le(b, c) ==> le(a, c)
}

pub proof fn lemma_insert_sorted_all<T>(s: Seq<T>, x: T, le: spec_fn(T, T) -> bool, p: spec_fn(T) -> bool)
    requires
        forall|k: int| 0 <= k < s.len() ==> p(#[trigger] s[k]),
        p(x),
    ensures
        forall|k: int| 0 <= k < insert_sorted(s, x, le).len() ==> p(#[trigger] insert_sorted(s, x, le)[k]),
    decreases s.len(),
{
    lemma_insert_sorted_len(s, x, le);
    if s.len() > 0 && !le(s.last(), x) {
        let d = s.drop_last();
        assert forall|k: int| 0 <= k < d.len() implies p(#[trigger] d[k]) by {
            assert(d[k] == s[k]);
        }
        lemma_insert_sorted_all(d, x, le, p);
        lemma_insert_sorted_len(d, x, le);
        let r = insert_sorted(d, x, le);
        assert forall|k: int| 0 <= k < insert_sorted(s, x, le).len() implies p(#[trigger] insert_sorted(s, x, le)[k]) by {
            if k < r.len() {
                assert(insert_sorted(s, x, le)[k] == r[k]);
            }
        }
    } else if s.len() > 0 {
        assert forall|k: int| 0 <= k < insert_sorted(s, x, le).len() implies p(#[trigger] insert_sorted(s, x, le)[k]) by {
            if k < s.len() {
                assert(insert_sorted(s, x, le)[k] == s[k]);
            }
        }
    }
}

proof fn lemma_insert_sorted_sorted<T>(s: Seq<T>, x: T, le: spec_fn(T, T) -> bool)
    requires
        total_preorder(le),
        sorted_by(s, le),
    ensures
        sorted_by(insert_sorted(s, x, le), le),
    decreases s.len(),
{
    lemma_insert_sorted_len(s, x, le);
    if s.len() == 0 {
    } else if le(s.last(), x) {
        let r = insert_sorted(s, x, le);
        assert(r == s.push(x));
        assert forall|i: int, j: int| 0 <= i < j < r.len() implies le(#[trigger] r[i], #[trigger] r[j]) by {
            if j < s.len() {
                assert(r[i] == s[i] && r[j] == s[j]);
            } else if i < s.len() - 1 {
                assert(le(s[i], s[s.len() - 1]));
                assert(le(s[i], s.last()) && le(s.last(), x));
            }
        }
    } else {
        let d = s.drop_last();
        let last = s.last();
        assert(sorted_by(d, le)) by {
            assert forall|i: int, j: int| 0 <= i < j < d.len() implies le(#[trigger] d[i], #[trigger] d[j]) by {
                assert(d[i] == s[i] && d[j] == s[j]);
            }
        }
        lemma_insert_sorted_sorted(d, x, le);
        let r = insert_sorted(d, x, le);
        lemma_insert_sorted_len(d, x, le);
        assert(le(x, last));
        let p = |e: T| le(e, last);
        assert forall|k: int| 0 <= k < d.len() implies p(#[trigger] d[k]) by {
            assert(d[k] == s[k]);
            assert(le(s[k], s[s.len() - 1]));
        }
        lemma_insert_sorted_all(d, x, le, p);
        let out = insert_sorted(s, x, le);
        assert(out == r.push(last));
        assert forall|i: int, j: int| 0 <= i < j < out.len() implies le(#[trigger] out[i], #[trigger] out[j]) by {
            if j < r.len() {
                assert(out[i] == r[i] && out[j] == r[j]);
            } else {
                assert(out[i] == r[i]);
                assert(p(r[i]));
            }
        }
    }
}

/// Sorting by a total preorder leaves every element after the one before it.
pub proof fn lemma_sort_by_sorted<T>(s: Seq<T>, le: spec_fn(T, T) -> bool)
    requires
        total_preorder(le),
    ensures
        sorted_by(sort_by(s, le), le),
    decreases s.len(),
{
    if s.len() > 0 {
        lemma_sort_by_sorted(s.drop_last(), le);
        lemma_insert_sorted_sorted(sort_by(s.drop_last(), le), s.last(), le);
    }
}

proof fn lemma_insert_sorted_contains<T>(s: Seq<T>, x: T, le: spec_fn(T, T) -> bool, y: T)
    ensures
        insert_sorted(s, x, le).contains(y) <==> s.contains(y) || y == x,
    decreases s.len(),
{
    let r = insert_sorted(s, x, le);
    if s.len() == 0 {
        assert(r == seq![x]);
        if r.contains(y) {
            let i = choose|i: int| 0 <= i < r.len() && r[i] == y;
            assert(i == 0);
        }
        if y == x {
            assert(r[0] == y);
        }
    } else if le(s.last(), x) {
        assert(r == s.push(x));
        if r.contains(y) {
            let i = choose|i: int| 0 <= i < r.len() && r[i] == y;
            if i < s.len() {
                assert(s[i] == y);
            }
        }
        if s.contains(y) {
            let i = choose|i: int| 0 <= i < s.len() && s[i] == y;
            assert(r[i] == y);
        }
        if y == x {
            assert(r[s.len() as int] == y);
        }
    } else {
        let d = s.drop_last();
        lemma_insert_sorted_contains(d, x, le, y);
        let q = insert_sorted(d, x, le);
        assert(r == q.push(s.last()));
        if r.contains(y) {
            let i = choose|i: int| 0 <= i < r.len() && r[i] == y;
            if i < q.len() {
                assert(q[i] == y);
                if d.contains(y) {
                    let j = choose|j: int| 0 <= j < d.len() && d[j] == y;
                    assert(s[j] == y);
                }
            } else {
                assert(s[s.len() - 1] == y);
            }
        }
        if s.contains(y) {
            let i = choose|i: int| 0 <= i < s.len() && s[i] == y;
            if i < d.len() {
                assert(d[i] == y);
                let j = choose|j: int| 0 <= j < q.len() && q[j] == y;
                assert(r[j] == y);
            } else {
                assert(r[q.len() as int] == y);
            }
        }
        if y == x {
            let j = choose|j: int| 0 <= j < q.len() && q[j] == y;
            assert(r[j] == y);
        }
    }
}

/// Sorting keeps every element and invents none.
pub proof fn lemma_sort_by_contains<T>(s: Seq<T>, le: spec_fn(T, T) -> bool, y: T)
    ensures
        sort_by(s, le).contains(y) <==> s.contains(y),
    decreases s.len(),
{
    if s.len() > 0 {
        let d = s.drop_last();
        lemma_sort_by_contains(d, le, y);
        lemma_insert_sorted_contains(sort_by(d, le), s.last(), le, y);
        if s.contains(y) {
            let i = choose|i: int| 0 <= i < s.len() && s[i] == y;
            if i < d.len() {
                assert(d[i] == y);
            }
        }
        if d.contains(y) {
            let i = choose|i: int| 0 <= i < d.len() && d[i] == y;
            assert(s[i] == y);
        }
    }
}

/// Whether some group of `rs` holds `x`.
pub open spec fn in_some<T>(rs: Seq<Seq<T>>, x: T) -> bool {
    exists|a: int| 0 <= a < rs.len() && (#[trigger] rs[a]).contains(x)
}

/// Grouping into runs loses no element and invents none.
pub proof fn lemma_runs_members<T, K>(s: Seq<T>, key: spec_fn(T) -> K, x: T)
    ensures
        in_some(runs(s, key), x) <==> s.contains(x),
    decreases s.len(),
{
    if s.len() > 0 {
        let d = s.drop_last();
        let y = s.last();
        lemma_runs_members(d, key, x);
        let r = runs(d, key);
        let rs = runs(s, key);
        if r.len() > 0 && key(r.last().last()) == key(y) {
            let k = r.len() - 1;
            assert(rs == r.update(k, r.last().push(y)));
            if in_some(rs, x) {
                let a = choose|a: int| 0 <= a < rs.len() && (#[trigger] rs[a]).contains(x);
                let q = choose|q: int| 0 <= q < rs[a].len() && rs[a][q] == x;
                if a < k || q < r[k].len() {
                    assert(r[a][q] == x);
                    assert(r[a].contains(x));
                    assert(d.contains(x));
                    let j = choose|j: int| 0 <= j < d.len() && d[j] == x;
                    assert(s[j] == x);
                } else {
                    assert(s[s.len() - 1] == x);
                }
            }
            if s.contains(x) {
                let j = choose|j: int| 0 <= j < s.len() && s[j] == x;
                if j < d.len() {
                    assert(d[j] == x);
                    let a = choose|a: int| 0 <= a < r.len() && (#[trigger] r[a]).contains(x);
                    let q = choose|q: int| 0 <= q < r[a].len() && r[a][q] == x;
                    assert(rs[a][q] == x);
                    assert(rs[a].contains(x));
                } else {
                    assert(rs[k][r[k].len() as int] == x);
                    assert(rs[k].contains(x));
                }
            }
        } else {
            assert(rs == r.push(seq![y]));
            if in_some(rs, x) {
                let a = choose|a: int| 0 <= a < rs.len() && (#[trigger] rs[a]).contains(x);
                if a < r.len() {
                    assert(rs[a] == r[a]);
                    assert(d.contains(x));
                    let j = choose|j: int| 0 <= j < d.len() && d[j] == x;
                    assert(s[j] == x);
                } else {
                    let q = choose|q: int| 0 <= q < rs[a].len() && rs[a][q] == x;
                    assert(s[s.len() - 1] == x);
                }
            }
            if s.contains(x) {
                let j = choose|j: int| 0 <= j < s.len() && s[j] == x;
                if j < d.len() {
                    assert(d[j] == x);
                    let a = choose|a: int| 0 <= a < r.len() && (#[trigger] r[a]).contains(x);
                    assert(rs[a] == r[a]);
                } else {
                    assert(rs[r.len() as int][0] == x);
                    assert(rs[r.len() as int].contains(x));
                }
            }
        }
    }
}

/// Sorting keeps every element's property: what holds of each element before holds of each
/// after.
pub proof fn lemma_sort_by_all<T>(s: Seq<T>, le: spec_fn(T, T) -> bool, p: spec_fn(T) -> bool)
    requires
        forall|k: int| 0 <= k < s.len() ==> p(#[trigger] s[k]),
    ensures
        forall|k: int| 0 <= k < sort_by(s, le).len() ==> p(#[trigger] sort_by(s, le)[k]),
    decreases s.len(),
{
    if s.len() > 0 {
        let d = s.drop_last();
        assert forall|k: int| 0 <= k < d.len() implies p(#[trigger] d[k]) by {
            assert(d[k] == s[k]);
        }
        lemma_sort_by_all(d, le, p);
        lemma_insert_sorted_all(sort_by(d, le), s.last(), le, p);
    }
}

/// Grouping keeps every element's property: what holds of each element of `s` holds of each
/// element of each run.
pub proof fn lemma_runs_all<T, K>(s: Seq<T>, key: spec_fn(T) -> K, p: spec_fn(T) -> bool)
    requires
        forall|k: int| 0 <= k < s.len() ==> p(#[trigger] s[k]),
    ensures
        forall|i: int, j: int| 0 <= i < runs(s, key).len() && 0 <= j < runs(s, key)[i].len() ==> p(#[trigger] runs(s, key)[i][j]),
    decreases s.len(),
{
    if s.len() > 0 {
        let d = s.drop_last();
        assert forall|k: int| 0 <= k < d.len() implies p(#[trigger] d[k]) by {
            assert(d[k] == s[k]);
        }
        lemma_runs_all(d, key, p);
        let r = runs(d, key);
        let x = s.last();
        assert(p(x));
        assert forall|i: int, j: int| 0 <= i < runs(s, key).len() && 0 <= j < runs(s, key)[i].len() implies p(#[trigger] runs(s, key)[i][j]) by {
            if r.len() > 0 && key(r.last().last()) == key(x) {
                if i < r.len() - 1 {
                    assert(runs(s, key)[i] == r[i]);
                } else {
                    assert(runs(s, key)[i] == r.last().push(x));
                    if j < r.last().len() {
                        assert(runs(s, key)[i][j] == r[i][j]);
                    }
                }
            } else {
                if i < r.len() {
                    assert(runs(s, key)[i] == r[i]);
                }
            }
        }
    }
}

} // verus!
