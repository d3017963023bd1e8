//! Turn a sidecar's raw contents into display-ready stanzas.
use vstd::prelude::*;

use crate::lrc::{classify_range, shape_view, spec_parse_line, LineView, Shape};
use crate::text::{chars_of, line_ranges, lines, ranges_match, string_of_range, trim, trim_range};

verus! {

/// One stanza: its lines, in order.
pub type Stanza = Vec<String>;

pub open spec fn strings_view(v: Seq<String>) -> Seq<Seq<char>> {
    v.map_values(|s: String| s@)
}

pub open spec fn stanzas_view(v: Seq<Stanza>) -> Seq<Seq<Seq<char>>> {
    v.map_values(|s: Stanza| strings_view(s@))
}

/// The stanza being gathered, and the finished ones.
pub struct StanzaState {
    pub current: Seq<Seq<char>>,
    pub done: Seq<Seq<Seq<char>>>,
}

/// Close the current stanza, if it has any line.
pub open spec fn end_stanza(st: StanzaState) -> StanzaState {
    if st.current.len() == 0 {
        st
    } else {
        StanzaState { current: seq![], done: st.done.push(st.current) }
    }
}

/// A line of words joins the current stanza; a line with none ends it.
pub open spec fn push_or_break(st: StanzaState, text: Seq<char>) -> StanzaState {
    if trim(text).len() == 0 {
        end_stanza(st)
    } else {
        StanzaState { current: st.current.push(trim(text)), done: st.done }
    }
}

pub open spec fn stanza_line(st: StanzaState, l: LineView) -> StanzaState {
    match l {
        LineView::Timed { text, .. } => push_or_break(st, text),
        LineView::Untimed(text) => push_or_break(st, text),
        LineView::Blank => end_stanza(st),
        _ => st,
    }
}

pub open spec fn stanza_lines(ls: Seq<Seq<char>>, i: int, st: StanzaState) -> StanzaState
    decreases ls.len() - i,
{
    if i < 0 || i >= ls.len() {
        st
    } else {
        stanza_lines(ls, i + 1, stanza_line(st, spec_parse_line(ls[i])))
    }
}

/// The stanzas of a sidecar: timestamps, tags and comments dropped, a blank line or a break
/// entry ending a stanza.
pub open spec fn spec_to_stanzas(contents: Seq<char>) -> Seq<Seq<Seq<char>>> {
    end_stanza(
        stanza_lines(lines(contents), 0, StanzaState { current: seq![], done: seq![] }),
    ).done
}

/// Every stanza has a line, and every line has words and no surrounding whitespace.
pub open spec fn well_formed_stanzas(s: Seq<Seq<Seq<char>>>) -> bool {
    forall|i: int|
        0 <= i < s.len() ==> {
            &&& (#[trigger] s[i]).len() > 0
            &&& forall|j: int|
                0 <= j < s[i].len() ==> (#[trigger] s[i][j]).len() > 0 && trim(s[i][j])
                    == s[i][j]
        }
}

pub open spec fn well_formed_state(st: StanzaState) -> bool {
    &&& well_formed_stanzas(st.done)
    &&& forall|j: int|
        0 <= j < st.current.len() ==> (#[trigger] st.current[j]).len() > 0 && trim(st.current[j])
            == st.current[j]
}

fn end_stanza_exec(current: &mut Stanza, stanzas: &mut Vec<Stanza>)
    ensures
        ({
            let st = end_stanza(
                StanzaState { current: strings_view(old(current)@), done: stanzas_view(old(stanzas)@) },
            );
            &&& strings_view(final(current)@) == st.current
            &&& stanzas_view(final(stanzas)@) == st.done
        }),
{
    if current.len() > 0 {
        let ghost before = stanzas_view(stanzas@);
        let ghost cur = strings_view(current@);
        let mut taken: Stanza = Vec::new();
        std::mem::swap(current, &mut taken);
        stanzas.push(taken);
        assert(stanzas_view(stanzas@) =~= before.push(cur));
        assert(strings_view(current@) =~= seq![]);
    }
}

fn push_or_break_exec(
    t: &Vec<char>,
    lo: usize,
    hi: usize,
    current: &mut Stanza,
    stanzas: &mut Vec<Stanza>,
)
    requires
        lo <= hi <= t@.len(),
    ensures
        ({
            let st = push_or_break(
                StanzaState { current: strings_view(old(current)@), done: stanzas_view(old(stanzas)@) },
                t@.subrange(lo as int, hi as int),
            );
            &&& strings_view(final(current)@) == st.current
            &&& stanzas_view(final(stanzas)@) == st.done
        }),
{
    let (a, b) = trim_range(t, lo, hi);
    if a == b {
        end_stanza_exec(current, stanzas);
    } else {
        let ghost before = strings_view(current@);
        let line = string_of_range(t, a, b);
        current.push(line);
        assert(strings_view(current@) =~= before.push(t@.subrange(a as int, b as int)));
    }
}

proof fn lemma_trim_idempotent(s: Seq<char>)
    ensures
        trim(trim(s)) == trim(s),
{
    crate::text::lemma_trim_trimmed(s);
}

proof fn lemma_state_step(st: StanzaState, l: LineView)
    requires
        well_formed_state(st),
    ensures
        well_formed_state(stanza_line(st, l)),
        well_formed_state(end_stanza(st)),
{
    match l {
        LineView::Timed { text, .. } => lemma_trim_idempotent(text),
        LineView::Untimed(text) => lemma_trim_idempotent(text),
        _ => {},
    }
    let e = end_stanza(st);
    assert(well_formed_stanzas(e.done));
}

proof fn lemma_stanza_lines_wf(ls: Seq<Seq<char>>, i: int, st: StanzaState)
    requires
        well_formed_state(st),
    ensures
        well_formed_state(stanza_lines(ls, i, st)),
    decreases ls.len() - i,
{
    if 0 <= i < ls.len() {
        lemma_state_step(st, spec_parse_line(ls[i]));
        lemma_stanza_lines_wf(ls, i + 1, stanza_line(st, spec_parse_line(ls[i])));
    }
}

/// The words a classified line contributes: the trimmed text of a timed or plain line, when
/// any is left.
pub open spec fn lyric_text(l: LineView) -> Seq<Seq<char>> {
    match l {
        LineView::Timed { text, .. } => if trim(text).len() > 0 {
            seq![trim(text)]
        } else {
            seq![]
        },
        LineView::Untimed(text) => if trim(text).len() > 0 {
            seq![trim(text)]
        } else {
            seq![]
        },
        _ => seq![],
    }
}

/// The words of lines `i..`, in order.
pub open spec fn lyric_texts_from(ls: Seq<Seq<char>>, i: int) -> Seq<Seq<char>>
    decreases ls.len() - i,
{
    if i < 0 || i >= ls.len() {
        seq![]
    } else {
        lyric_text(spec_parse_line(ls[i])) + lyric_texts_from(ls, i + 1)
    }
}

/// Every line gathered so far, finished stanzas first.
pub open spec fn gathered(st: StanzaState) -> Seq<Seq<char>> {
    st.done.flatten() + st.current
}

proof fn lemma_end_stanza_gathered(st: StanzaState)
    ensures
        gathered(end_stanza(st)) == gathered(st),
        end_stanza(st).current.len() == 0,
{
    if st.current.len() > 0 {
        st.done.lemma_flatten_push(st.current);
        assert(gathered(end_stanza(st)) =~= gathered(st));
    }
}

proof fn lemma_stanza_line_gathered(st: StanzaState, l: LineView)
    ensures
        gathered(stanza_line(st, l)) == gathered(st) + lyric_text(l),
{
    lemma_end_stanza_gathered(st);
    match l {
        LineView::Timed { text, .. } => {
            if trim(text).len() > 0 {
                assert(gathered(stanza_line(st, l)) =~= gathered(st) + lyric_text(l));
            } else {
                assert(gathered(st) + lyric_text(l) =~= gathered(st));
            }
        },
        LineView::Untimed(text) => {
            if trim(text).len() > 0 {
                assert(gathered(stanza_line(st, l)) =~= gathered(st) + lyric_text(l));
            } else {
                assert(gathered(st) + lyric_text(l) =~= gathered(st));
            }
        },
        _ => {
            assert(gathered(st) + lyric_text(l) =~= gathered(st));
        },
    }
}

proof fn lemma_stanza_lines_gathered(ls: Seq<Seq<char>>, i: int, st: StanzaState)
    requires
        0 <= i <= ls.len(),
    ensures
        gathered(stanza_lines(ls, i, st)) == gathered(st) + lyric_texts_from(ls, i),
    decreases ls.len() - i,
{
    if i < ls.len() {
        let l = spec_parse_line(ls[i]);
        let st2 = stanza_line(st, l);
        lemma_stanza_line_gathered(st, l);
        lemma_stanza_lines_gathered(ls, i + 1, st2);
        assert(gathered(st2) + lyric_texts_from(ls, i + 1) =~= gathered(st) + lyric_texts_from(ls, i));
    } else {
        assert(gathered(st) + lyric_texts_from(ls, i) =~= gathered(st));
    }
}

/// Read in order, the stanzas hold exactly the words of the file's timed and plain lines,
/// trimmed: a line is dropped only when it has no words, and none is invented.
pub proof fn lemma_stanzas_keep_every_lyric(contents: Seq<char>)
    ensures
        spec_to_stanzas(contents).flatten() == lyric_texts_from(lines(contents), 0),
{
    let init = StanzaState { current: seq![], done: seq![] };
    let ls = lines(contents);
    lemma_stanza_lines_gathered(ls, 0, init);
    let fin = stanza_lines(ls, 0, init);
    lemma_end_stanza_gathered(fin);
    assert(init.done.flatten() =~= seq![]);
    assert(gathered(init) =~= seq![]);
    assert(gathered(end_stanza(fin)) =~= end_stanza(fin).done.flatten());
    assert(seq![] + lyric_texts_from(ls, 0) =~= lyric_texts_from(ls, 0));
}

/// What one classified line means for the stanzas: its words; a break (`None`), for a blank
/// line or a timed or plain line with no words; or nothing, for tags, comments and
/// malformed lines.
pub open spec fn stanza_token(l: LineView) -> Seq<Option<Seq<char>>> {
    match l {
        LineView::Timed { text, .. } => if trim(text).len() > 0 {
            seq![Some(trim(text))]
        } else {
            seq![None]
        },
        LineView::Untimed(text) => if trim(text).len() > 0 {
            seq![Some(trim(text))]
        } else {
            seq![None]
        },
        LineView::Blank => seq![None],
        _ => seq![],
    }
}

/// The tokens of lines `i..`, in order.
pub open spec fn stanza_tokens_from(ls: Seq<Seq<char>>, i: int) -> Seq<Option<Seq<char>>>
    decreases ls.len() - i,
{
    if i < 0 || i >= ls.len() {
        seq![]
    } else {
        stanza_token(spec_parse_line(ls[i])) + stanza_tokens_from(ls, i + 1)
    }
}

/// The runs of words between breaks, empty runs included; there is always at least one.
pub open spec fn word_groups(ts: Seq<Option<Seq<char>>>) -> Seq<Seq<Seq<char>>>
    decreases ts.len(),
{
    if ts.len() == 0 {
        seq![seq![]]
    } else {
        let g = word_groups(ts.drop_last());
        match ts.last() {
            None => g.push(seq![]),
            Some(w) => g.update(g.len() - 1, g.last().push(w)),
        }
    }
}

/// The groups that hold any words, in order.
pub open spec fn non_empty_groups(gs: Seq<Seq<Seq<char>>>) -> Seq<Seq<Seq<char>>>
    decreases gs.len(),
{
    if gs.len() == 0 {
        seq![]
    } else if gs.last().len() > 0 {
        non_empty_groups(gs.drop_last()).push(gs.last())
    } else {
        non_empty_groups(gs.drop_last())
    }
}

proof fn lemma_word_groups_nonempty(ts: Seq<Option<Seq<char>>>)
    ensures
        word_groups(ts).len() >= 1,
    decreases ts.len(),
{
    if ts.len() > 0 {
        lemma_word_groups_nonempty(ts.drop_last());
    }
}

/// A stanza state that has read the tokens `t`: the finished stanzas are the non-empty
/// groups before the last, and the current stanza is the last group.
pub open spec fn state_has_read(st: StanzaState, t: Seq<Option<Seq<char>>>) -> bool {
    let g = word_groups(t);
    &&& st.done == non_empty_groups(g.drop_last())
    &&& st.current == g.last()
}

proof fn lemma_end_stanza_reads(st: StanzaState, t: Seq<Option<Seq<char>>>)
    requires
        state_has_read(st, t),
    ensures
        end_stanza(st).done == non_empty_groups(word_groups(t)),
        state_has_read(end_stanza(st), t.push(None)),
{
    lemma_word_groups_nonempty(t);
    let g = word_groups(t);
    assert(t.push(None).drop_last() =~= t);
    assert(t.push(None).last() == None::<Seq<char>>);
    assert(word_groups(t.push(None)) == g.push(seq![]));
    assert(g.push(seq![]).drop_last() =~= g);
    assert(g.push(seq![]).last() == Seq::<Seq<char>>::empty());
    assert(g.drop_last().push(g.last()) =~= g);
    assert(non_empty_groups(g) == if g.last().len() > 0 {
        non_empty_groups(g.drop_last()).push(g.last())
    } else {
        non_empty_groups(g.drop_last())
    });
    let e = end_stanza(st);
    assert(e.current =~= Seq::<Seq<char>>::empty());
    assert(e.done == non_empty_groups(g));
    assert(word_groups(t.push(None)).drop_last() =~= g);
    assert(word_groups(t.push(None)).last() =~= Seq::<Seq<char>>::empty());
}

proof fn lemma_stanza_line_reads(st: StanzaState, t: Seq<Option<Seq<char>>>, l: LineView)
    requires
        state_has_read(st, t),
    ensures
        state_has_read(stanza_line(st, l), t + stanza_token(l)),
{
    lemma_word_groups_nonempty(t);
    let g = word_groups(t);
    let tok = stanza_token(l);
    if tok.len() == 0 {
        assert(t + tok =~= t);
    } else {
        assert(t + tok =~= t.push(tok[0]));
        assert(t.push(tok[0]).drop_last() =~= t);
        match tok[0] {
            None => {
                lemma_end_stanza_reads(st, t);
            },
            Some(w) => {
                let g2 = g.update(g.len() - 1, g.last().push(w));
                assert(g2.drop_last() =~= g.drop_last());
            },
        }
    }
}

proof fn lemma_stanza_lines_read(ls: Seq<Seq<char>>, i: int, st: StanzaState, t: Seq<Option<Seq<char>>>)
    requires
        0 <= i <= ls.len(),
        state_has_read(st, t),
    ensures
        state_has_read(stanza_lines(ls, i, st), t + stanza_tokens_from(ls, i)),
    decreases ls.len() - i,
{
    if i < ls.len() {
        let l = spec_parse_line(ls[i]);
        lemma_stanza_line_reads(st, t, l);
        lemma_stanza_lines_read(ls, i + 1, stanza_line(st, l), t + stanza_token(l));
        assert(t + stanza_token(l) + stanza_tokens_from(ls, i + 1) =~= t + stanza_tokens_from(ls, i));
    } else {
        assert(t + stanza_tokens_from(ls, i) =~= t);
    }
}

/// Stanzas break exactly at blank lines and at timed or plain lines with no words: the
/// stanzas are the runs of words between those breaks, in order, runs without words left
/// out; tags, comments and malformed lines neither add words nor break a stanza.
pub proof fn lemma_stanzas_break_at_breaks(contents: Seq<char>)
    ensures
        spec_to_stanzas(contents) == non_empty_groups(word_groups(stanza_tokens_from(lines(contents), 0))),
{
    let init = StanzaState { current: seq![], done: seq![] };
    let e = Seq::<Option<Seq<char>>>::empty();
    assert(word_groups(e) == seq![Seq::<Seq<char>>::empty()]);
    assert(word_groups(e).drop_last() =~= Seq::<Seq<Seq<char>>>::empty());
    assert(non_empty_groups(Seq::<Seq<Seq<char>>>::empty()) == Seq::<Seq<Seq<char>>>::empty());
    assert(state_has_read(init, e));
    let ls = lines(contents);
    lemma_stanza_lines_read(ls, 0, init, e);
    assert(e + stanza_tokens_from(ls, 0) =~= stanza_tokens_from(ls, 0));
    lemma_end_stanza_reads(stanza_lines(ls, 0, init), stanza_tokens_from(ls, 0));
}

/// No stanza is empty, and every line of one has words and no surrounding whitespace.
pub proof fn lemma_stanzas_are_never_empty(contents: Seq<char>)
    ensures
        well_formed_stanzas(spec_to_stanzas(contents)),
{
    let init = StanzaState { current: seq![], done: seq![] };
    let ls = lines(contents);
    lemma_stanza_lines_wf(ls, 0, init);
    lemma_state_step(stanza_lines(ls, 0, init), LineView::Blank);
}

/// Split a sidecar's contents into stanzas: the words of each timed or plain line, trimmed,
/// grouped between blank lines and break entries. Tags, comments and malformed lines are
/// dropped; no stanza is ever empty.
pub fn to_stanzas(contents: &str) -> (r: Vec<Stanza>)
    ensures
        stanzas_view(r@) == spec_to_stanzas(contents@),
        well_formed_stanzas(stanzas_view(r@)),
{
    let cs = chars_of(contents);
    let ranges = line_ranges(&cs);
    let ghost ls = lines(cs@);
    let ghost init = StanzaState { current: seq![], done: seq![] };
    let mut stanzas: Vec<Stanza> = Vec::new();
    let mut current: Stanza = Vec::new();
    assert(strings_view(current@) =~= seq![]);
    assert(stanzas_view(stanzas@) =~= seq![]);
    let mut idx: usize = 0;
    while idx < ranges.len()
        invariant
            cs@ == contents@,
            ls == lines(cs@),
            ranges@.len() == ls.len(),
            ranges_match(cs@, ranges@),
            idx <= ranges@.len(),
            stanza_lines(ls, 0, init) == stanza_lines(
                ls,
                idx as int,
                StanzaState { current: strings_view(current@), done: stanzas_view(stanzas@) },
            ),
        decreases ranges@.len() - idx,
    {
        let (lo, hi) = ranges[idx];
        proof {
            assert(ranges@[idx as int] == (lo, hi));
            assert(cs@.subrange(lo as int, hi as int) == ls[idx as int]);
        }
        let (t, sh, _) = classify_range(&cs, lo, hi);
        let n = t.len();
        match sh {
            Shape::Timed(_, p) => {
                push_or_break_exec(&t, p, n, &mut current, &mut stanzas);
            },
            Shape::Untimed => {
                proof {
                    assert(t@.subrange(0, n as int) =~= t@);
                }
                push_or_break_exec(&t, 0, n, &mut current, &mut stanzas);
            },
            Shape::Blank => {
                end_stanza_exec(&mut current, &mut stanzas);
            },
            _ => {},
        }
        idx = idx + 1;
    }
    end_stanza_exec(&mut current, &mut stanzas);
    proof {
        lemma_stanza_lines_wf(ls, 0, init);
        lemma_state_step(stanza_lines(ls, 0, init), LineView::Blank);
    }
    stanzas
}

} // verus!
