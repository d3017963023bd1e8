//! Banner-sized letters for the countdown: each glyph five rows of five cells.
use vstd::prelude::*;

use crate::text::{chars_of, push_char, push_str, to_uppercase_of, uppercase};

verus! {

pub const GLYPH_HEIGHT: usize = 5;

pub const GLYPH_WIDTH: usize = 5;

/// The rows of the glyph for `c`, for the characters the countdown shows.
pub open spec fn spec_glyph(c: char) -> Option<Seq<Seq<char>>> {
    if c == '1' {
        Some(seq![" ##  "@, "  #  "@, "  #  "@, "  #  "@, " ### "@])
    } else if c == '2' {
        Some(seq![" ### "@, "#   #"@, "   # "@, "  #  "@, "#####"@])
    } else if c == '3' {
        Some(seq!["#### "@, "    #"@, " ### "@, "    #"@, "#### "@])
    } else if c == 'P' {
        Some(seq!["#### "@, "#   #"@, "#### "@, "#    "@, "#    "@])
    } else if c == 'L' {
        Some(seq!["#    "@, "#    "@, "#    "@, "#    "@, "#####"@])
    } else if c == 'A' {
        Some(seq![" ### "@, "#   #"@, "#####"@, "#   #"@, "#   #"@])
    } else if c == 'Y' {
        Some(seq!["#   #"@, " # # "@, "  #  "@, "  #  "@, "  #  "@])
    } else {
        None
    }
}

/// The rows of the glyph for `c`, or `None` for a character the countdown never shows.
pub fn glyph(c: char) -> (r: Option<[&'static str; 5]>)
    ensures
        match r {
            Some(g) => spec_glyph(c) is Some && spec_glyph(c)->0 == seq![g[0]@, g[1]@, g[2]@, g[3]@, g[4]@],
            None => spec_glyph(c) is None,
        },
{
    if c == '1' {
        Some([" ##  ", "  #  ", "  #  ", "  #  ", " ### "])
    } else if c == '2' {
        Some([" ### ", "#   #", "   # ", "  #  ", "#####"])
    } else if c == '3' {
        Some(["#### ", "    #", " ### ", "    #", "#### "])
    } else if c == 'P' {
        Some(["#### ", "#   #", "#### ", "#    ", "#    "])
    } else if c == 'L' {
        Some(["#    ", "#    ", "#    ", "#    ", "#####"])
    } else if c == 'A' {
        Some([" ### ", "#   #", "#####", "#   #", "#   #"])
    } else if c == 'Y' {
        Some(["#   #", " # # ", "  #  ", "  #  ", "  #  "])
    } else {
        None
    }
}

/// The glyphs of the characters of `s` that have one, in order.
pub open spec fn glyphs_of(s: Seq<char>) -> Seq<Seq<Seq<char>>>
    decreases s.len(),
{
    if s.len() == 0 {
        seq![]
    } else {
        let g = glyphs_of(s.drop_last());
        match spec_glyph(s.last()) {
            Some(rows) => g.push(rows),
            None => g,
        }
    }
}

/// Row `k` of each glyph, joined by one space.
pub open spec fn joined_row(gs: Seq<Seq<Seq<char>>>, k: int) -> Seq<char>
    decreases gs.len(),
{
    if gs.len() == 0 {
        seq![]
    } else if gs.len() == 1 {
        gs[0][k]
    } else {
        joined_row(gs.drop_last(), k) + seq![' '] + gs.last()[k]
    }
}

/// `text` in banner letters, case-insensitively, dropping characters with no glyph; none when
/// nothing is left.
pub open spec fn spec_render(text: Seq<char>) -> Option<Seq<Seq<char>>> {
    let gs = glyphs_of(uppercase(text));
    if gs.len() == 0 {
        None
    } else {
        Some(Seq::new(5, |k: int| joined_row(gs, k)))
    }
}

proof fn lemma_glyph_step(s: Seq<char>, i: int)
    requires
        0 <= i < s.len(),
    ensures
        glyphs_of(s.take(i + 1)) == match spec_glyph(s[i]) {
            Some(rows) => glyphs_of(s.take(i)).push(rows),
            None => glyphs_of(s.take(i)),
        },
{
    assert(s.take(i + 1).drop_last() =~= s.take(i));
}

proof fn lemma_glyphs_have_five_rows(s: Seq<char>)
    ensures
        forall|j: int| 0 <= j < glyphs_of(s).len() ==> (#[trigger] glyphs_of(s)[j]).len() == 5,
    decreases s.len(),
{
    if s.len() > 0 {
        lemma_glyphs_have_five_rows(s.drop_last());
        let g = glyphs_of(s.drop_last());
        assert forall|j: int| 0 <= j < glyphs_of(s).len() implies (#[trigger] glyphs_of(s)[j]).len() == 5 by {
            if j < g.len() {
                assert(glyphs_of(s)[j] == g[j]);
            }
        }
    }
}

/// Banner letters for `text`, five rows, or `None` when no character has a glyph.
pub fn render(text: &str) -> (r: Option<[String; 5]>)
    ensures
        match r {
            Some(rows) => spec_render(text@) == Some(seq![rows[0]@, rows[1]@, rows[2]@, rows[3]@, rows[4]@]),
            None => spec_render(text@) is None,
        },
{
    let upper = to_uppercase_of(text);
    let cs = chars_of(upper.as_str());
    let ghost u = cs@;
    let mut glyphs: Vec<[&'static str; 5]> = Vec::new();
    let mut i: usize = 0;
    while i < cs.len()
        invariant
            u == cs@,
            i <= cs.len(),
            glyphs@.len() == glyphs_of(u.take(i as int)).len(),
            forall|j: int| 0 <= j < glyphs@.len() ==> seq![glyphs@[j][0]@, glyphs@[j][1]@, glyphs@[j][2]@, glyphs@[j][3]@, glyphs@[j][4]@] == #[trigger] glyphs_of(u.take(i as int))[j],
        decreases cs.len() - i,
    {
        proof {
            lemma_glyph_step(u, i as int);
        }
        let g = glyph(cs[i]);
        match g {
            Some(rows) => {
                glyphs.push(rows);
            },
            None => {},
        }
        i = i + 1;
    }
    proof {
        assert(u.take(cs.len() as int) =~= u);
    }
    if glyphs.len() == 0 {
        return None;
    }
    let ghost gs = glyphs_of(u);
    let r0 = join_row(&glyphs, 0, Ghost(gs));
    let r1 = join_row(&glyphs, 1, Ghost(gs));
    let r2 = join_row(&glyphs, 2, Ghost(gs));
    let r3 = join_row(&glyphs, 3, Ghost(gs));
    let r4 = join_row(&glyphs, 4, Ghost(gs));
    proof {
        assert(Seq::new(5, |k: int| joined_row(gs, k)) =~= seq![r0@, r1@, r2@, r3@, r4@]);
    }
    Some([r0, r1, r2, r3, r4])
}

fn join_row(glyphs: &Vec<[&'static str; 5]>, k: usize, Ghost(gs): Ghost<Seq<Seq<Seq<char>>>>) -> (r: String)
    requires
        k < 5,
        glyphs@.len() == gs.len(),
        forall|j: int| 0 <= j < glyphs@.len() ==> seq![glyphs@[j][0]@, glyphs@[j][1]@, glyphs@[j][2]@, glyphs@[j][3]@, glyphs@[j][4]@] == #[trigger] gs[j],
    ensures
        r@ == joined_row(gs, k as int),
{
    let mut out = String::new();
    let mut j: usize = 0;
    while j < glyphs.len()
        invariant
            k < 5,
            glyphs@.len() == gs.len(),
            forall|j: int| 0 <= j < glyphs@.len() ==> seq![glyphs@[j][0]@, glyphs@[j][1]@, glyphs@[j][2]@, glyphs@[j][3]@, glyphs@[j][4]@] == #[trigger] gs[j],
            j <= glyphs.len(),
            out@ == joined_row(gs.take(j as int), k as int),
        decreases glyphs.len() - j,
    {
        let piece: &str = glyphs[j][k];
        proof {
            let t = gs.take(j as int + 1);
            assert(t.drop_last() =~= gs.take(j as int));
            assert(gs[j as int] == seq![glyphs@[j as int][0]@, glyphs@[j as int][1]@, glyphs@[j as int][2]@, glyphs@[j as int][3]@, glyphs@[j as int][4]@]);
            assert(gs[j as int][k as int] == piece@);
            if j == 0 {
                assert(t.len() == 1);
            }
        }
        if j > 0 {
            push_char(&mut out, ' ');
        }
        push_str(&mut out, piece);
        proof {
            let t = gs.take(j as int + 1);
            if j == 0 {
                assert(out@ =~= joined_row(t, k as int));
            } else {
                assert(out@ =~= joined_row(t, k as int));
            }
        }
        j = j + 1;
    }
    proof {
        assert(gs.take(glyphs.len() as int) =~= gs);
    }
    out
}

/// Columns taken by `glyph_count` glyphs side by side with one space between.
pub open spec fn spec_width(glyph_count: usize) -> usize {
    if glyph_count == 0 {
        0
    } else if glyph_count * 5 + (glyph_count - 1) > usize::MAX {
        usize::MAX
    } else {
        (glyph_count * 5 + (glyph_count - 1)) as usize
    }
}

/// Columns taken by `glyph_count` glyphs, saturating.
pub fn width(glyph_count: usize) -> (r: usize)
    ensures
        r == spec_width(glyph_count),
{
    if glyph_count == 0 {
        return 0;
    }
    match glyph_count.checked_mul(5) {
        Some(w) => w.saturating_add(glyph_count - 1),
        None => usize::MAX,
    }
}

proof fn lemma_rows_are_five_wide(c: char)
    requires
        spec_glyph(c) is Some,
    ensures
        forall|k: int| 0 <= k < 5 ==> (#[trigger] spec_glyph(c)->0[k]).len() == 5,
{
    reveal_strlit(" ##  ");
    reveal_strlit("  #  ");
    reveal_strlit(" ### ");
    reveal_strlit("#   #");
    reveal_strlit("   # ");
    reveal_strlit("#####");
    reveal_strlit("#### ");
    reveal_strlit("    #");
    reveal_strlit("#    ");
    reveal_strlit(" # # ");
}

proof fn lemma_joined_width(gs: Seq<Seq<Seq<char>>>, k: int)
    requires
        gs.len() > 0,
        forall|j: int| 0 <= j < gs.len() ==> (#[trigger] gs[j][k]).len() == 5,
    ensures
        joined_row(gs, k).len() == 5 * gs.len() + gs.len() - 1,
    decreases gs.len(),
{
    if gs.len() > 1 {
        let d = gs.drop_last();
        assert forall|j: int| 0 <= j < d.len() implies (#[trigger] d[j][k]).len() == 5 by {
            assert(d[j] == gs[j]);
        }
        lemma_joined_width(d, k);
        assert(gs.last()[k].len() == 5);
    } else {
        assert(gs[0][k].len() == 5);
    }
}

proof fn lemma_glyphs_are_glyphs(s: Seq<char>)
    ensures
        forall|j: int| 0 <= j < glyphs_of(s).len() ==> exists|c: char| spec_glyph(c) == Some(#[trigger] glyphs_of(s)[j]),
    decreases s.len(),
{
    if s.len() > 0 {
        lemma_glyphs_are_glyphs(s.drop_last());
        let g = glyphs_of(s.drop_last());
        assert forall|j: int| 0 <= j < glyphs_of(s).len() implies exists|c: char| spec_glyph(c) == Some(#[trigger] glyphs_of(s)[j]) by {
            if j < g.len() {
                assert(glyphs_of(s)[j] == g[j]);
            } else {
                assert(spec_glyph(s.last()) == Some(glyphs_of(s)[j]));
            }
        }
    }
}

proof fn lemma_no_glyphs(s: Seq<char>)
    ensures
        glyphs_of(s).len() == 0 <==> forall|k: int| 0 <= k < s.len() ==> spec_glyph(#[trigger] s[k]) is None,
    decreases s.len(),
{
    if s.len() > 0 {
        let d = s.drop_last();
        lemma_no_glyphs(d);
        if forall|k: int| 0 <= k < s.len() ==> spec_glyph(#[trigger] s[k]) is None {
            assert forall|k: int| 0 <= k < d.len() implies spec_glyph(#[trigger] d[k]) is None by {
                assert(d[k] == s[k]);
            }
            assert(spec_glyph(s[s.len() - 1]) is None);
        } else {
            let k = choose|k: int| 0 <= k < s.len() && spec_glyph(#[trigger] s[k]) is Some;
            if k < d.len() {
                assert(d[k] == s[k]);
            }
        }
    }
}

/// There is no rendering exactly when no character of the text, taken in upper case, has a
/// glyph.
pub proof fn lemma_render_none_exactly_without_glyphs(text: Seq<char>)
    ensures
        spec_render(text) is None <==> forall|k: int|
            0 <= k < uppercase(text).len() ==> spec_glyph(#[trigger] uppercase(text)[k]) is None,
{
    lemma_no_glyphs(uppercase(text));
}

/// Every row of a rendering is exactly as wide as its glyphs with the gaps between them.
pub proof fn lemma_render_rows_are_even(text: Seq<char>, k: int)
    requires
        spec_render(text) is Some,
        0 <= k < 5,
    ensures
        spec_render(text)->0[k].len() == 5 * glyphs_of(uppercase(text)).len() + glyphs_of(uppercase(text)).len() - 1,
{
    let gs = glyphs_of(uppercase(text));
    lemma_glyphs_are_glyphs(uppercase(text));
    assert forall|j: int| 0 <= j < gs.len() implies (#[trigger] gs[j][k]).len() == 5 by {
        let c = choose|c: char| spec_glyph(c) == Some(#[trigger] gs[j]);
        lemma_rows_are_five_wide(c);
        assert(spec_glyph(c)->0[k] == gs[j][k]);
    }
    lemma_joined_width(gs, k);
}

} // verus!
