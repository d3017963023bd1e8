//! The key table shown over the lyrics, and where it floats.
use vstd::prelude::*;

use crate::text::{push_char, push_str};

verus! {

pub const TITLE: &'static str = " Keys ";

pub const WIDTH_FRACTION: u16 = 60;

pub const MIN_WIDTH: u16 = 40;

pub const MAX_WIDTH: u16 = 64;

pub const HEIGHT_FRACTION: u16 = 70;

pub const MIN_HEIGHT: u16 = 10;

pub const MAX_HEIGHT: u16 = 22;

/// Width the key names are padded to, in characters.
pub const KEYS_COLUMN: usize = 18;

/// A share of `extent`, clamped into `lo..=hi`, never more than `extent` itself.
pub open spec fn spec_share(extent: u16, fraction: u16, lo: u16, hi: u16) -> u16 {
    let scaled = if extent * fraction > u16::MAX {
        u16::MAX as int
    } else {
        extent * fraction
    } / 100;
    let clamped = if scaled < lo {
        lo as int
    } else if scaled > hi {
        hi as int
    } else {
        scaled
    };
    if clamped < extent {
        clamped as u16
    } else {
        extent
    }
}

fn share(extent: u16, fraction: u16, lo: u16, hi: u16) -> (r: u16)
    requires
        lo <= hi,
    ensures
        r == spec_share(extent, fraction, lo, hi),
{
    let product: u16 = match extent.checked_mul(fraction) {
        Some(p) => p,
        None => 0xffff,
    };
    let scaled = product / 100;
    let clamped = if scaled < lo {
        lo
    } else if scaled > hi {
        hi
    } else {
        scaled
    };
    if clamped < extent {
        clamped
    } else {
        extent
    }
}

/// The overlay's size over an area `width` by `height`: 60% by 70% of it, within bounds, but
/// never larger than the area.
pub fn outer(width: u16, height: u16) -> (r: (u16, u16))
    ensures
        r == (spec_share(width, WIDTH_FRACTION, MIN_WIDTH, MAX_WIDTH), spec_share(height, HEIGHT_FRACTION, MIN_HEIGHT, MAX_HEIGHT)),
        r.0 <= width,
        r.1 <= height,
{
    (share(width, WIDTH_FRACTION, MIN_WIDTH, MAX_WIDTH), share(height, HEIGHT_FRACTION, MIN_HEIGHT, MAX_HEIGHT))
}

/// Where the overlay floats over the area at `(x, y)`, `width` by `height`: centered, as
/// `(x, y, width, height)`; nowhere when it would have no room.
pub open spec fn spec_overlay(x: u16, y: u16, width: u16, height: u16) -> Option<(u16, u16, u16, u16)> {
    let w = spec_share(width, WIDTH_FRACTION, MIN_WIDTH, MAX_WIDTH);
    let h = spec_share(height, HEIGHT_FRACTION, MIN_HEIGHT, MAX_HEIGHT);
    if w == 0 || h == 0 {
        None
    } else {
        let ox = if x + (width - w) / 2 > u16::MAX { u16::MAX } else { (x + (width - w) / 2) as u16 };
        let oy = if y + (height - h) / 2 > u16::MAX { u16::MAX } else { (y + (height - h) / 2) as u16 };
        Some((ox, oy, w, h))
    }
}

pub fn overlay(x: u16, y: u16, width: u16, height: u16) -> (r: Option<(u16, u16, u16, u16)>)
    ensures
        r == spec_overlay(x, y, width, height),
{
    let (w, h) = outer(width, height);
    if w == 0 || h == 0 {
        return None;
    }
    Some((x.saturating_add((width - w) / 2), y.saturating_add((height - h) / 2), w, h))
}

/// The overlay fits inside the area it floats over, whatever its size.
pub proof fn lemma_overlay_fits(x: u16, y: u16, width: u16, height: u16)
    requires
        x + width <= u16::MAX,
        y + height <= u16::MAX,
    ensures
        match spec_overlay(x, y, width, height) {
            Some((ox, oy, w, h)) => x <= ox && ox + w <= x + width && y <= oy && oy + h <= y + height,
            None => true,
        },
{
}

/// A section of the key table as text: its heading and, for each entry, the keys and what
/// they do.
pub open spec fn section_views(v: Seq<(&'static str, Vec<(&'static str, &'static str)>)>) -> Seq<(Seq<char>, Seq<(Seq<char>, Seq<char>)>)> {
    v.map_values(|s: (&'static str, Vec<(&'static str, &'static str)>)| (s.0@, entry_views(s.1@)))
}

pub open spec fn entry_views(v: Seq<(&'static str, &'static str)>) -> Seq<(Seq<char>, Seq<char>)> {
    v.map_values(|e: (&'static str, &'static str)| (e.0@, e.1@))
}

/// The key table: playback, seeking and leaving, each key with what it does.
pub open spec fn spec_sections() -> Seq<(Seq<char>, Seq<(Seq<char>, Seq<char>)>)> {
    seq![
        ("Playback"@, seq![
            ("Space"@, "play · pause"@),
            ("c"@, "replay the countdown"@),
            ("0 r"@, "restart at 00:00, paused"@),
        ]),
        ("Seeking"@, seq![
            ("Left h"@, "back 5s"@),
            ("Right l"@, "forward 5s"@),
            ("Shift-Left H"@, "back 10s"@),
            ("Shift-Right L"@, "forward 10s"@),
            ("Up k"@, "jump to the previous line"@),
            ("Down j"@, "jump to the next line"@),
            (", ."@, "nudge -0.1s · +0.1s, for fine sync"@),
            ("< >"@, "nudge -0.5s · +0.5s"@),
            ("Enter"@, "snap to the nearest line, tap as it's sung"@),
        ]),
        ("Leaving"@, seq![
            ("? Esc q"@, "these keys · Esc or q closes this window"@),
            ("Ctrl-c"@, "quit"@),
        ]),
    ]
}

/// The key table: sections, each a heading and its keys with what they do.
pub fn sections() -> (r: Vec<(&'static str, Vec<(&'static str, &'static str)>)>)
    ensures
        section_views(r@) == spec_sections(),
{
    let mut playback = Vec::new();
    playback.push(("Space", "play · pause"));
    playback.push(("c", "replay the countdown"));
    playback.push(("0 r", "restart at 00:00, paused"));
    let mut seeking = Vec::new();
    seeking.push(("Left h", "back 5s"));
    seeking.push(("Right l", "forward 5s"));
    seeking.push(("Shift-Left H", "back 10s"));
    seeking.push(("Shift-Right L", "forward 10s"));
    seeking.push(("Up k", "jump to the previous line"));
    seeking.push(("Down j", "jump to the next line"));
    seeking.push((", .", "nudge -0.1s · +0.1s, for fine sync"));
    seeking.push(("< >", "nudge -0.5s · +0.5s"));
    seeking.push(("Enter", "snap to the nearest line, tap as it's sung"));
    let mut leaving = Vec::new();
    leaving.push(("? Esc q", "these keys · Esc or q closes this window"));
    leaving.push(("Ctrl-c", "quit"));
    proof {
        assert(entry_views(playback@) =~= spec_sections()[0].1);
        assert(entry_views(seeking@) =~= spec_sections()[1].1);
        assert(entry_views(leaving@) =~= spec_sections()[2].1);
    }
    let mut out = Vec::new();
    out.push(("Playback", playback));
    out.push(("Seeking", seeking));
    out.push(("Leaving", leaving));
    proof {
        assert(section_views(out@) =~= spec_sections());
    }
    out
}

/// One row of the key table.
pub enum HelpRow {
    /// The gap between sections.
    Blank,
    /// A section's heading.
    Heading(String),
    /// Key names padded to the keys column, and what they do.
    Entry(String, String),
}

pub enum HelpRowView {
    Blank,
    Heading(Seq<char>),
    Entry(Seq<char>, Seq<char>),
}

impl View for HelpRow {
    type V = HelpRowView;

    open spec fn view(&self) -> HelpRowView {
        match self {
            HelpRow::Blank => HelpRowView::Blank,
            HelpRow::Heading(h) => HelpRowView::Heading(h@),
            HelpRow::Entry(k, m) => HelpRowView::Entry(k@, m@),
        }
    }
}

pub open spec fn row_views(v: Seq<HelpRow>) -> Seq<HelpRowView> {
    v.map_values(|r: HelpRow| r@)
}

/// `s` left-aligned and padded with spaces to `width` characters, as `{:<width}` does.
pub open spec fn left_aligned(s: Seq<char>, width: nat) -> Seq<char> {
    if s.len() >= width {
        s
    } else {
        s + Seq::new((width - s.len()) as nat, |i: int| ' ')
    }
}

pub fn pad_keys(keys: &str) -> (r: String)
    ensures
        r@ == left_aligned(keys@, KEYS_COLUMN as nat),
{
    let mut out = String::new();
    push_str(&mut out, keys);
    let n = crate::text::chars_of(keys).len();
    let mut k = n;
    while k < KEYS_COLUMN
        invariant
            n == keys@.len(),
            n <= k,
            n >= KEYS_COLUMN ==> k == n,
            n < KEYS_COLUMN ==> k <= KEYS_COLUMN,
            out@ == keys@ + Seq::new((k - n) as nat, |i: int| ' '),
        decreases KEYS_COLUMN - k,
    {
        push_char(&mut out, ' ');
        proof {
            assert(keys@ + Seq::new((k - n) as nat, |i: int| ' ') + seq![' '] =~= keys@ + Seq::new((k + 1 - n) as nat, |i: int| ' '));
        }
        k = k + 1;
    }
    proof {
        assert(out@ =~= left_aligned(keys@, KEYS_COLUMN as nat));
    }
    out
}

/// The rows of one section's entries: the keys padded to the keys column, then what they do.
pub open spec fn entry_rows(es: Seq<(Seq<char>, Seq<char>)>) -> Seq<HelpRowView> {
    es.map_values(|e: (Seq<char>, Seq<char>)| HelpRowView::Entry(left_aligned(e.0, KEYS_COLUMN as nat), e.1))
}

/// The rows of a key table: each section's heading, then its entries, with a blank row
/// between sections.
pub open spec fn table_rows(secs: Seq<(Seq<char>, Seq<(Seq<char>, Seq<char>)>)>) -> Seq<HelpRowView>
    decreases secs.len(),
{
    if secs.len() == 0 {
        seq![]
    } else {
        table_rows(secs.drop_last()) + (if secs.len() > 1 {
            seq![HelpRowView::Blank]
        } else {
            seq![]
        }) + seq![HelpRowView::Heading(secs.last().0)] + entry_rows(secs.last().1)
    }
}

/// The table's rows: each section's heading and entries, a blank row between sections.
pub fn lines() -> (r: Vec<HelpRow>)
    ensures
        row_views(r@) == table_rows(spec_sections()),
{
    let secs = sections();
    let ghost sv = section_views(secs@);
    let mut out: Vec<HelpRow> = Vec::new();
    let mut i: usize = 0;
    while i < secs.len()
        invariant
            i <= secs.len(),
            sv == section_views(secs@),
            row_views(out@) == table_rows(sv.take(i as int)),
        decreases secs.len() - i,
    {
        proof {
            assert(sv.take(i as int + 1).drop_last() =~= sv.take(i as int));
        }
        let ghost before = row_views(out@);
        if i > 0 {
            out.push(HelpRow::Blank);
        }
        let mut heading = String::new();
        push_str(&mut heading, secs[i].0);
        out.push(HelpRow::Heading(heading));
        proof {
            assert(row_views(out@) =~= before + (if i + 1 > 1 {
                seq![HelpRowView::Blank]
            } else {
                seq![]
            }) + seq![HelpRowView::Heading(sv[i as int].0)]);
        }
        let ghost base = row_views(out@);
        let entries = &secs[i].1;
        let ghost ev = entry_views(entries@);
        assert(ev == sv[i as int].1);
        let mut j: usize = 0;
        while j < entries.len()
            invariant
                j <= entries.len(),
                ev == entry_views(entries@),
                row_views(out@) == base + entry_rows(ev.take(j as int)),
            decreases entries.len() - j,
        {
            let mut meaning = String::new();
            push_str(&mut meaning, entries[j].1);
            let ghost b2 = row_views(out@);
            out.push(HelpRow::Entry(pad_keys(entries[j].0), meaning));
            proof {
                assert(row_views(out@) =~= b2.push(HelpRowView::Entry(left_aligned(ev[j as int].0, KEYS_COLUMN as nat), ev[j as int].1)));
                assert(entry_rows(ev.take(j as int + 1)) =~= entry_rows(ev.take(j as int)).push(HelpRowView::Entry(left_aligned(ev[j as int].0, KEYS_COLUMN as nat), ev[j as int].1)));
            }
            j = j + 1;
        }
        proof {
            assert(ev.take(entries.len() as int) =~= ev);
            assert(row_views(out@) =~= table_rows(sv.take(i as int + 1)));
        }
        i = i + 1;
    }
    proof {
        assert(sv.take(secs.len() as int) =~= sv);
    }
    out
}

/// The whole key table, with the overlay's border, fits in the tallest overlay.
pub proof fn lemma_table_fits()
    ensures
        table_rows(spec_sections()).len() + 2 <= MAX_HEIGHT,
{
    let secs = spec_sections();
    let s2 = secs.drop_last();
    let s1 = s2.drop_last();
    let s0 = s1.drop_last();
    assert(s0 =~= Seq::<(Seq<char>, Seq<(Seq<char>, Seq<char>)>)>::empty());
    assert(s1.last() == secs[0]);
    assert(s2.last() == secs[1]);
    assert(table_rows(s0).len() == 0);
    assert(entry_rows(secs[0].1).len() == 3);
    assert(entry_rows(secs[1].1).len() == 9);
    assert(entry_rows(secs[2].1).len() == 2);
    assert(table_rows(s1).len() == 4);
    assert(table_rows(s2).len() == 4 + 1 + 1 + 9);
    assert(table_rows(secs).len() == 15 + 1 + 1 + 2);
}

} // verus!
