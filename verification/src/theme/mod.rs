//! Theming the terminal view: which parts it has, and a style for each of them.
//!
//! The style type is the drawing library's; the table only keeps one per element and hands
//! it out again.
pub mod elements;

use vstd::prelude::*;

use crate::theme::elements::{spec_index, Element};

verus! {

/// A style for every element the view draws, and the theme's name.
pub struct Theme<S> {
    styles: Vec<S>,
    pub name: String,
}

impl<S: Copy> Theme<S> {
    /// The styles, one per element in index order.
    pub closed spec fn styles(&self) -> Seq<S> {
        self.styles@
    }

    /// The theme's name.
    pub closed spec fn theme_name(&self) -> Seq<char> {
        self.name@
    }

    /// A theme holds exactly one style per element.
    pub closed spec fn wf(&self) -> bool {
        self.styles@.len() == 13
    }

    /// A theme named `name` from one style per element, given in index order.
    pub fn new(styles: [S; 13], name: String) -> (r: Theme<S>)
        ensures
            r.wf(),
            r.styles() == styles@,
            r.theme_name() == name@,
    {
        let mut v: Vec<S> = Vec::new();
        let mut i: usize = 0;
        while i < 13
            invariant
                i <= 13,
                v@ == styles@.take(i as int),
            decreases 13 - i,
        {
            v.push(styles[i]);
            proof {
                assert(v@ =~= styles@.take(i as int + 1));
            }
            i = i + 1;
        }
        proof {
            assert(styles@.take(13) =~= styles@);
        }
        Theme { styles: v, name }
    }

    /// The style of `element`.
    pub fn style(&self, element: Element) -> (r: S)
        requires
            self.wf(),
        ensures
            r == self.styles()[spec_index(element)],
    {
        self.styles[element.index()]
    }

    /// Replace the style of `element`, leaving every other element's as it was.
    pub fn set_style(&mut self, element: Element, style: S)
        requires
            old(self).wf(),
        ensures
            final(self).wf(),
            final(self).styles() == old(self).styles().update(spec_index(element), style),
            final(self).theme_name() == old(self).theme_name(),
    {
        let i = element.index();
        self.styles.set(i, style);
    }
}

/// A style set for one element is the one read back for it, and every other element keeps
/// the style it had.
pub proof fn lemma_set_style_touches_one_element<S>(styles: Seq<S>, element: Element, other: Element, style: S)
    requires
        styles.len() == 13,
        other != element,
    ensures
        styles.update(spec_index(element), style)[spec_index(element)] == style,
        styles.update(spec_index(element), style)[spec_index(other)] == styles[spec_index(other)],
{
    crate::theme::elements::lemma_all_in_index_order(element);
    crate::theme::elements::lemma_all_in_index_order(other);
}

} // verus!
