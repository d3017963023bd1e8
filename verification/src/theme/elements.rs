//! The styleable parts of the terminal view, and the keys a theme file names them by.
use vstd::prelude::*;

use crate::text::{lex_order, str_eq};

verus! {

/// A part of the view a theme can style.
#[derive(Debug, Clone, Copy, PartialEq, Eq, Hash, Structural)]
pub enum Element {
    Body,
    Label,
    HeaderTitle,
    Status,
    StatusNotice,
    StatusError,
    Hint,
    ScrollProgress,
    CurrentLine,
    NearLine,
    FarLine,
    Countdown,
    HelpWindow,
}

/// Each element's position in [`Element::ALL`].
pub open spec fn spec_index(e: Element) -> int {
    match e {
        Element::Body => 0,
        Element::Label => 1,
        Element::HeaderTitle => 2,
        Element::Status => 3,
        Element::StatusNotice => 4,
        Element::StatusError => 5,
        Element::Hint => 6,
        Element::ScrollProgress => 7,
        Element::CurrentLine => 8,
        Element::NearLine => 9,
        Element::FarLine => 10,
        Element::Countdown => 11,
        Element::HelpWindow => 12,
    }
}

/// Each element's key in a theme file: its name in snake case.
pub open spec fn spec_key(e: Element) -> Seq<char> {
    match e {
        Element::Body => "body"@,
        Element::Label => "label"@,
        Element::HeaderTitle => "header_title"@,
        Element::Status => "status"@,
        Element::StatusNotice => "status_notice"@,
        Element::StatusError => "status_error"@,
        Element::Hint => "hint"@,
        Element::ScrollProgress => "scroll_progress"@,
        Element::CurrentLine => "current_line"@,
        Element::NearLine => "near_line"@,
        Element::FarLine => "far_line"@,
        Element::Countdown => "countdown"@,
        Element::HelpWindow => "help_window"@,
    }
}

pub open spec fn all_elements() -> Seq<Element> {
    seq![
        Element::Body,
        Element::Label,
        Element::HeaderTitle,
        Element::Status,
        Element::StatusNotice,
        Element::StatusError,
        Element::Hint,
        Element::ScrollProgress,
        Element::CurrentLine,
        Element::NearLine,
        Element::FarLine,
        Element::Countdown,
        Element::HelpWindow,
    ]
}

/// The first element, in [`Element::ALL`] order, whose key is `key`.
pub open spec fn find_key(key: Seq<char>, i: int) -> Option<Element>
    decreases 13 - i,
{
    if i < 0 || i >= 13 {
        None
    } else if spec_key(all_elements()[i]) == key {
        Some(all_elements()[i])
    } else {
        find_key(key, i + 1)
    }
}

impl Element {
    /// Every element, in index order.
    pub const ALL: [Element; 13] = [
        Element::Body,
        Element::Label,
        Element::HeaderTitle,
        Element::Status,
        Element::StatusNotice,
        Element::StatusError,
        Element::Hint,
        Element::ScrollProgress,
        Element::CurrentLine,
        Element::NearLine,
        Element::FarLine,
        Element::Countdown,
        Element::HelpWindow,
    ];

    /// The element's position in [`Element::ALL`].
    pub fn index(self) -> (r: usize)
        ensures
            r == spec_index(self),
    {
        match self {
            Element::Body => 0,
            Element::Label => 1,
            Element::HeaderTitle => 2,
            Element::Status => 3,
            Element::StatusNotice => 4,
            Element::StatusError => 5,
            Element::Hint => 6,
            Element::ScrollProgress => 7,
            Element::CurrentLine => 8,
            Element::NearLine => 9,
            Element::FarLine => 10,
            Element::Countdown => 11,
            Element::HelpWindow => 12,
        }
    }

    /// The element's key in a theme file.
    pub fn key(self) -> (r: &'static str)
        ensures
            r@ == spec_key(self),
    {
        match self {
            Element::Body => "body",
            Element::Label => "label",
            Element::HeaderTitle => "header_title",
            Element::Status => "status",
            Element::StatusNotice => "status_notice",
            Element::StatusError => "status_error",
            Element::Hint => "hint",
            Element::ScrollProgress => "scroll_progress",
            Element::CurrentLine => "current_line",
            Element::NearLine => "near_line",
            Element::FarLine => "far_line",
            Element::Countdown => "countdown",
            Element::HelpWindow => "help_window",
        }
    }

    fn nth(i: usize) -> (r: Element)
        requires
            i < 13,
        ensures
            r == all_elements()[i as int],
    {
        if i == 0 {
            Element::Body
        } else if i == 1 {
            Element::Label
        } else if i == 2 {
            Element::HeaderTitle
        } else if i == 3 {
            Element::Status
        } else if i == 4 {
            Element::StatusNotice
        } else if i == 5 {
            Element::StatusError
        } else if i == 6 {
            Element::Hint
        } else if i == 7 {
            Element::ScrollProgress
        } else if i == 8 {
            Element::CurrentLine
        } else if i == 9 {
            Element::NearLine
        } else if i == 10 {
            Element::FarLine
        } else if i == 11 {
            Element::Countdown
        } else {
            Element::HelpWindow
        }
    }

    /// The element a theme-file key names, if any.
    pub fn from_key(key: &str) -> (r: Option<Element>)
        ensures
            r == find_key(key@, 0),
    {
        let mut i: usize = 0;
        while i < 13
            invariant
                i <= 13,
                find_key(key@, i as int) == find_key(key@, 0),
            decreases 13 - i,
        {
            let e = Element::nth(i);
            if str_eq(e.key(), key) {
                return Some(e);
            }
            i = i + 1;
        }
        None
    }
}

proof fn lemma_keys_distinct(i: int, j: int)
    requires
        0 <= i < j < 13,
    ensures
        spec_key(all_elements()[i]) != spec_key(all_elements()[j]),
{
    reveal_strlit("body");
    reveal_strlit("label");
    reveal_strlit("header_title");
    reveal_strlit("status");
    reveal_strlit("status_notice");
    reveal_strlit("status_error");
    reveal_strlit("hint");
    reveal_strlit("scroll_progress");
    reveal_strlit("current_line");
    reveal_strlit("near_line");
    reveal_strlit("far_line");
    reveal_strlit("countdown");
    reveal_strlit("help_window");
    let a = spec_key(all_elements()[i]);
    let b = spec_key(all_elements()[j]);
    assert(a.len() != b.len() || a[0] != b[0]);
}

proof fn lemma_find_from(e: Element, i: int)
    requires
        0 <= i <= spec_index(e),
    ensures
        find_key(spec_key(e), i) == Some(e),
    decreases spec_index(e) - i,
{
    if i < spec_index(e) {
        lemma_keys_distinct(i, spec_index(e));
        lemma_find_from(e, i + 1);
    }
}

/// Every element is addressable by its key: looking the key up finds the element again.
pub proof fn lemma_from_key_finds_the_element(e: Element)
    ensures
        find_key(spec_key(e), 0) == Some(e),
{
    lemma_find_from(e, 0);
}

/// Every element sits at its own index in the list of all of them.
pub proof fn lemma_all_in_index_order(e: Element)
    ensures
        0 <= spec_index(e) < 13,
        all_elements()[spec_index(e)] == e,
{
}

/// A text modifier a theme file can name for an element.
#[derive(Debug, Clone, Copy, PartialEq, Eq, Structural)]
pub enum ModifierKind {
    Bold,
    Italic,
    Underlined,
    Dim,
    Reversed,
    CrossedOut,
}

/// The modifier a theme file's name stands for: exactly the documented lower-case names.
pub open spec fn spec_modifier(name: Seq<char>) -> Option<ModifierKind> {
    if name == "bold"@ {
        Some(ModifierKind::Bold)
    } else if name == "italic"@ {
        Some(ModifierKind::Italic)
    } else if name == "underline"@ {
        Some(ModifierKind::Underlined)
    } else if name == "dim"@ {
        Some(ModifierKind::Dim)
    } else if name == "reversed"@ {
        Some(ModifierKind::Reversed)
    } else if name == "crossed_out"@ {
        Some(ModifierKind::CrossedOut)
    } else {
        None
    }
}

/// The modifier a theme file names, or `None` for a name that is not one of them.
pub fn modifier(name: &str) -> (r: Option<ModifierKind>)
    ensures
        r == spec_modifier(name@),
{
    if str_eq(name, "bold") {
        Some(ModifierKind::Bold)
    } else if str_eq(name, "italic") {
        Some(ModifierKind::Italic)
    } else if str_eq(name, "underline") {
        Some(ModifierKind::Underlined)
    } else if str_eq(name, "dim") {
        Some(ModifierKind::Dim)
    } else if str_eq(name, "reversed") {
        Some(ModifierKind::Reversed)
    } else if str_eq(name, "crossed_out") {
        Some(ModifierKind::CrossedOut)
    } else {
        None
    }
}

/// A color of the palette a theme is built on.
#[derive(Debug, Clone, Copy, PartialEq, Eq, Structural)]
pub enum Slot {
    Foreground,
    Background,
    Accent,
    Muted,
    MutedText,
    Warning,
    Error,
}

/// An element's default look, by palette slot: the foreground and background colors it
/// takes, if any, and whether it is bold.
#[derive(Debug, Clone, Copy, PartialEq, Eq, Structural)]
pub struct DefaultStyle {
    pub fg: Option<Slot>,
    pub bg: Option<Slot>,
    pub bold: bool,
}

pub open spec fn spec_default_style(e: Element) -> DefaultStyle {
    match e {
        Element::Body | Element::NearLine => DefaultStyle { fg: Some(Slot::Foreground), bg: None, bold: false },
        Element::Label => DefaultStyle { fg: None, bg: None, bold: true },
        Element::HeaderTitle => DefaultStyle { fg: Some(Slot::Accent), bg: None, bold: true },
        Element::Status => DefaultStyle { fg: Some(Slot::MutedText), bg: None, bold: false },
        Element::StatusNotice => DefaultStyle { fg: Some(Slot::Warning), bg: None, bold: false },
        Element::StatusError => DefaultStyle { fg: Some(Slot::Error), bg: None, bold: false },
        Element::Hint | Element::FarLine => DefaultStyle { fg: Some(Slot::Muted), bg: None, bold: false },
        Element::ScrollProgress | Element::CurrentLine | Element::Countdown => DefaultStyle {
            fg: Some(Slot::Accent),
            bg: None,
            bold: true,
        },
        Element::HelpWindow => DefaultStyle { fg: Some(Slot::Foreground), bg: Some(Slot::Background), bold: false },
    }
}

/// The look an element has before a theme file changes it.
pub fn default_style(element: Element) -> (r: DefaultStyle)
    ensures
        r == spec_default_style(element),
{
    match element {
        Element::Body | Element::NearLine => DefaultStyle { fg: Some(Slot::Foreground), bg: None, bold: false },
        Element::Label => DefaultStyle { fg: None, bg: None, bold: true },
        Element::HeaderTitle => DefaultStyle { fg: Some(Slot::Accent), bg: None, bold: true },
        Element::Status => DefaultStyle { fg: Some(Slot::MutedText), bg: None, bold: false },
        Element::StatusNotice => DefaultStyle { fg: Some(Slot::Warning), bg: None, bold: false },
        Element::StatusError => DefaultStyle { fg: Some(Slot::Error), bg: None, bold: false },
        Element::Hint | Element::FarLine => DefaultStyle { fg: Some(Slot::Muted), bg: None, bold: false },
        Element::ScrollProgress | Element::CurrentLine | Element::Countdown => DefaultStyle {
            fg: Some(Slot::Accent),
            bg: None,
            bold: true,
        },
        Element::HelpWindow => DefaultStyle { fg: Some(Slot::Foreground), bg: Some(Slot::Background), bold: false },
    }
}

/// The line being sung stands out: accented and bold. Lines near it and far from it are
/// drawn from two different palette slots.
pub proof fn lemma_current_line_stands_out()
    ensures
        spec_default_style(Element::CurrentLine).fg == Some(Slot::Accent),
        spec_default_style(Element::CurrentLine).bold,
        spec_default_style(Element::NearLine).fg != spec_default_style(Element::FarLine).fg,
{
}


// ---------------------------------------------------------------------------------------
// One element's entry in a theme file, and how a theme's entry overrides its base's
// ---------------------------------------------------------------------------------------

/// One element's entry in a theme file: its colors (of the color type `C` the theme reads),
/// its modifiers, and any keys the element does not know, by name (values of type `V`), in
/// key order with no key twice.
pub struct ElementFile<C, V> {
    pub fg: Option<C>,
    pub bg: Option<C>,
    pub modifiers: Option<Vec<String>>,
    pub unknown: Vec<(String, V)>,
}

/// Keyed entries as plain values.
pub open spec fn keyed_view<V>(v: Seq<(String, V)>) -> Seq<(Seq<char>, V)> {
    v.map_values(|e: (String, V)| (e.0@, e.1))
}

/// Keys strictly ascending in `String`'s order: no key twice.
pub open spec fn keys_ascending<V>(m: Seq<(Seq<char>, V)>) -> bool {
    forall|i: int, j: int| 0 <= i < j < m.len() ==> lex_order(#[trigger] m[i].0, #[trigger] m[j].0) < 0
}

/// `k` set to `v` in a table kept in key order: the entry for `k` replaced, or a new one
/// put in its place.
pub open spec fn upsert<V>(m: Seq<(Seq<char>, V)>, k: Seq<char>, v: V) -> Seq<(Seq<char>, V)>
    decreases m.len(),
{
    if m.len() == 0 {
        seq![(k, v)]
    } else if m[0].0 == k {
        seq![(k, v)] + m.drop_first()
    } else if lex_order(k, m[0].0) < 0 {
        seq![(k, v)] + m
    } else {
        seq![m[0]] + upsert(m.drop_first(), k, v)
    }
}

/// `base` with every entry of `over` set in turn.
pub open spec fn upsert_all<V>(base: Seq<(Seq<char>, V)>, over: Seq<(Seq<char>, V)>) -> Seq<(Seq<char>, V)>
    decreases over.len(),
{
    if over.len() == 0 {
        base
    } else {
        upsert(upsert_all(base, over.drop_last()), over.last().0, over.last().1)
    }
}

pub open spec fn or_else<T>(a: Option<T>, b: Option<T>) -> Option<T> {
    match a {
        Some(x) => Some(x),
        None => b,
    }
}

pub open spec fn opt_strings(o: Option<Vec<String>>) -> Option<Seq<Seq<char>>> {
    match o {
        Some(v) => Some(v@.map_values(|s: String| s@)),
        None => None,
    }
}

proof fn lemma_upsert_skip<V>(m: Seq<(Seq<char>, V)>, k: Seq<char>, v: V, i: int)
    requires
        0 <= i <= m.len(),
        forall|j: int| 0 <= j < i ==> (#[trigger] m[j]).0 != k && lex_order(k, m[j].0) >= 0,
    ensures
        upsert(m, k, v) == m.take(i) + upsert(m.skip(i), k, v),
    decreases i,
{
    if i == 0 {
        assert(m.skip(0) =~= m);
        assert(m.take(0) + upsert(m, k, v) =~= upsert(m, k, v));
    } else {
        let d = m.drop_first();
        assert forall|j: int| 0 <= j < i - 1 implies (#[trigger] d[j]).0 != k && lex_order(k, d[j].0) >= 0 by {
            assert(d[j] == m[j + 1]);
        }
        lemma_upsert_skip(d, k, v, i - 1);
        assert(d.skip(i - 1) =~= m.skip(i));
        assert(seq![m[0]] + d.take(i - 1) =~= m.take(i));
    }
}

fn upsert_exec<V>(t: &mut Vec<(String, V)>, key: String, value: V)
    ensures
        keyed_view(final(t)@) == upsert(keyed_view(old(t)@), key@, value),
{
    let ghost m = keyed_view(t@);
    let mut i: usize = 0;
    while i < t.len() && !str_eq(t[i].0.as_str(), key.as_str()) && crate::stats::lex_of(key.as_str(), t[i].0.as_str()) >= 0
        invariant
            i <= t@.len(),
            m == keyed_view(t@),
            forall|j: int| 0 <= j < i ==> (#[trigger] m[j]).0 != key@ && lex_order(key@, m[j].0) >= 0,
        decreases t@.len() - i,
    {
        assert(m[i as int] == (t@[i as int].0@, t@[i as int].1));
        i = i + 1;
    }
    proof {
        lemma_upsert_skip(m, key@, value, i as int);
        if i < t@.len() {
            assert(m[i as int] == (t@[i as int].0@, t@[i as int].1));
            assert(m.skip(i as int)[0] == m[i as int]);
            assert(m.skip(i as int).drop_first() =~= m.skip(i + 1));
        } else {
            assert(m.skip(i as int) =~= seq![]);
        }
    }
    if i < t.len() && str_eq(t[i].0.as_str(), key.as_str()) {
        let _old = t.remove(i);
        t.insert(i, (key, value));
        assert(keyed_view(t@) =~= m.take(i as int) + (seq![(key@, value)] + m.skip(i + 1)));
    } else {
        t.insert(i, (key, value));
        assert(keyed_view(t@) =~= m.take(i as int) + (seq![(key@, value)] + m.skip(i as int)));
    }
}

impl<C, V> ElementFile<C, V> {
    /// This entry over `base`: each field is this entry's when it sets it, else the base's;
    /// the unknown keys are the base's with this entry's set over them. An empty list of
    /// modifiers is set, and clears the base's.
    pub fn merge(self, base: Self) -> (r: Self)
        ensures
            r.fg == or_else(self.fg, base.fg),
            r.bg == or_else(self.bg, base.bg),
            opt_strings(r.modifiers) == or_else(opt_strings(self.modifiers), opt_strings(base.modifiers)),
            keyed_view(r.unknown@) == upsert_all(keyed_view(base.unknown@), keyed_view(self.unknown@)),
    {
        let ElementFile { fg, bg, modifiers, unknown } = self;
        let ghost over = keyed_view(unknown@);
        let mut table = base.unknown;
        let ghost start = keyed_view(table@);
        let mut rest = unknown;
        let ghost mut n: int = 0;
        proof {
            assert(over.skip(0) =~= over);
            assert(over.take(0) =~= Seq::<(Seq<char>, V)>::empty());
        }
        while rest.len() > 0
            invariant
                0 <= n <= over.len(),
                keyed_view(rest@) == over.skip(n),
                keyed_view(table@) == upsert_all(start, over.take(n)),
            decreases rest@.len(),
        {
            let ghost before = rest@;
            proof {
                assert(keyed_view(before).len() == before.len());
                assert(n < over.len());
                assert(keyed_view(before)[0] == (before[0].0@, before[0].1));
            }
            let (k, v) = rest.remove(0);
            proof {
                assert(before[0] == (k, v));
                assert(over.skip(n)[0] == over[n]);
                assert(over[n] == (k@, v));
                assert(rest@ =~= before.drop_first());
                assert forall|j: int| 0 <= j < rest@.len() implies #[trigger] keyed_view(rest@)[j] == over.skip(n + 1)[j] by {
                    assert(rest@[j] == before[j + 1]);
                    assert(keyed_view(before)[j + 1] == over.skip(n)[j + 1]);
                }
                assert(keyed_view(rest@) =~= over.skip(n + 1));
                assert(over.take(n + 1).drop_last() =~= over.take(n));
                assert(over.take(n + 1).last() == over[n]);
            }
            upsert_exec(&mut table, k, v);
            proof {
                n = n + 1;
            }
        }
        proof {
            assert(over.take(n) =~= over);
        }
        ElementFile {
            fg: match fg {
                Some(c) => Some(c),
                None => base.fg,
            },
            bg: match bg {
                Some(c) => Some(c),
                None => base.bg,
            },
            modifiers: match modifiers {
                Some(m) => Some(m),
                None => base.modifiers,
            },
            unknown: table,
        }
    }
}

/// Setting a key in a table in key order keeps it in key order, holds the key with its new
/// value, and leaves every other key's entry as it was.
pub proof fn lemma_upsert_keeps_key_order<V>(m: Seq<(Seq<char>, V)>, k: Seq<char>, v: V)
    requires
        keys_ascending(m),
    ensures
        keys_ascending(upsert(m, k, v)),
        upsert(m, k, v).contains((k, v)),
        forall|i: int| 0 <= i < m.len() && (#[trigger] m[i]).0 != k ==> upsert(m, k, v).contains(m[i]),
        forall|i: int| 0 <= i < upsert(m, k, v).len() && (#[trigger] upsert(m, k, v)[i]).0 != k ==> m.contains(upsert(m, k, v)[i]),
    decreases m.len(),
{
    let u = upsert(m, k, v);
    if m.len() == 0 {
        assert(u[0] == (k, v));
    } else if m[0].0 == k {
        let d = m.drop_first();
        assert(u == seq![(k, v)] + d);
        assert(u[0] == (k, v));
        assert forall|i: int, j: int| 0 <= i < j < u.len() implies lex_order(#[trigger] u[i].0, #[trigger] u[j].0) < 0 by {
            assert(u[j] == m[j]);
            if i > 0 {
                assert(u[i] == m[i]);
            }
        }
        assert forall|i: int| 0 <= i < m.len() && (#[trigger] m[i]).0 != k implies u.contains(m[i]) by {
            assert(u[i] == m[i]);
        }
        assert forall|i: int| 0 <= i < u.len() && (#[trigger] u[i]).0 != k implies m.contains(u[i]) by {
            assert(u[i] == m[i]);
        }
    } else if lex_order(k, m[0].0) < 0 {
        assert(u == seq![(k, v)] + m);
        assert(u[0] == (k, v));
        assert forall|i: int, j: int| 0 <= i < j < u.len() implies lex_order(#[trigger] u[i].0, #[trigger] u[j].0) < 0 by {
            assert(u[j] == m[j - 1]);
            if i > 0 {
                assert(u[i] == m[i - 1]);
            } else if j > 1 {
                crate::text::lemma_lex_order_transitive(k, m[0].0, m[j - 1].0);
            }
        }
        assert forall|i: int| 0 <= i < m.len() && (#[trigger] m[i]).0 != k implies u.contains(m[i]) by {
            assert(u[i + 1] == m[i]);
        }
        assert forall|i: int| 0 <= i < u.len() && (#[trigger] u[i]).0 != k implies m.contains(u[i]) by {
            assert(u[i] == m[i - 1]);
        }
    } else {
        let d = m.drop_first();
        assert forall|i: int, j: int| 0 <= i < j < d.len() implies lex_order(#[trigger] d[i].0, #[trigger] d[j].0) < 0 by {
            assert(d[i] == m[i + 1] && d[j] == m[j + 1]);
        }
        lemma_upsert_keeps_key_order(d, k, v);
        let w = upsert(d, k, v);
        assert(u == seq![m[0]] + w);
        crate::text::lemma_lex_order_antisymmetric(k, m[0].0);
        crate::text::lemma_lex_order_zero(k, m[0].0);
        assert(lex_order(m[0].0, k) < 0);
        assert forall|q: int| 0 <= q < w.len() implies lex_order(m[0].0, (#[trigger] w[q]).0) < 0 by {
            if w[q].0 != k {
                assert(d.contains(w[q]));
                let j = choose|j: int| 0 <= j < d.len() && d[j] == w[q];
                assert(m[j + 1] == d[j]);
            }
        }
        assert forall|i: int, j: int| 0 <= i < j < u.len() implies lex_order(#[trigger] u[i].0, #[trigger] u[j].0) < 0 by {
            assert(u[j] == w[j - 1]);
            if i > 0 {
                assert(u[i] == w[i - 1]);
            }
        }
        let q = choose|q: int| 0 <= q < w.len() && w[q] == (k, v);
        assert(u[q + 1] == (k, v));
        assert forall|i: int| 0 <= i < m.len() && (#[trigger] m[i]).0 != k implies u.contains(m[i]) by {
            if i == 0 {
                assert(u[0] == m[0]);
            } else {
                assert(d[i - 1] == m[i]);
                let q2 = choose|q2: int| 0 <= q2 < w.len() && w[q2] == d[i - 1];
                assert(u[q2 + 1] == m[i]);
            }
        }
        assert forall|i: int| 0 <= i < u.len() && (#[trigger] u[i]).0 != k implies m.contains(u[i]) by {
            if i == 0 {
                assert(m[0] == u[0]);
            } else {
                assert(u[i] == w[i - 1]);
                let j = choose|j: int| 0 <= j < d.len() && d[j] == w[i - 1];
                assert(m[j + 1] == d[j]);
            }
        }
    }
}

} // verus!
