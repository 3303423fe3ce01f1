//! Change flags: which traversals have to visit a node again.

use vstd::prelude::*;

verus! {

/// A set over the three flags `style`, `layout` and `paint`.
///
/// A change of geometry always forces a repaint, so a well-formed set that
/// holds `layout` holds `paint` too. Every operation below returns a
/// well-formed set, whatever it is given.
#[derive(Clone, Copy, PartialEq, Eq, Structural, Debug)]
pub struct ChangeFlags {
    /// The computed style of the node is out of date.
    pub style: bool,
    /// The layout box of the node is out of date.
    pub layout: bool,
    /// The node has to be painted again.
    pub paint: bool,
}

impl ChangeFlags {
    /// `layout` implies `paint`.
    pub open spec fn wf(self) -> bool {
        self.layout ==> self.paint
    }

    /// The set with `paint` added where `layout` is present.
    pub open spec fn closed(self) -> ChangeFlags {
        ChangeFlags { style: self.style, layout: self.layout, paint: self.paint || self.layout }
    }

    pub open spec fn spec_empty() -> ChangeFlags {
        ChangeFlags { style: false, layout: false, paint: false }
    }

    pub open spec fn spec_style() -> ChangeFlags {
        ChangeFlags { style: true, layout: false, paint: false }
    }

    pub open spec fn spec_layout() -> ChangeFlags {
        ChangeFlags { style: false, layout: true, paint: true }
    }

    pub open spec fn spec_paint() -> ChangeFlags {
        ChangeFlags { style: false, layout: false, paint: true }
    }

    pub open spec fn spec_is_empty(self) -> bool {
        !self.style && !self.layout && !self.paint
    }

    /// Every flag of `other` is in `self`.
    pub open spec fn spec_contains(self, other: ChangeFlags) -> bool {
        &&& other.style ==> self.style
        &&& other.layout ==> self.layout
        &&& other.paint ==> self.paint
    }

    /// The flags of either set, closed under "layout implies paint".
    pub open spec fn spec_union(self, other: ChangeFlags) -> ChangeFlags {
        ChangeFlags {
            style: self.style || other.style,
            layout: self.layout || other.layout,
            paint: self.paint || other.paint || self.layout || other.layout,
        }
    }

    /// The flags of `self` that are not in `other`. `paint` stays for as
    /// long as `layout` does.
    pub open spec fn spec_difference(self, other: ChangeFlags) -> ChangeFlags {
        ChangeFlags {
            style: self.style && !other.style,
            layout: self.layout && !other.layout,
            paint: (self.paint && !other.paint) || (self.layout && !other.layout),
        }
    }

    /// No flag.
    #[verifier::when_used_as_spec(spec_empty)]
    pub fn empty() -> (r: ChangeFlags)
        ensures
            r == ChangeFlags::spec_empty(),
    {
        ChangeFlags { style: false, layout: false, paint: false }
    }

    /// The style has to be resolved again.
    #[verifier::when_used_as_spec(spec_style)]
    pub fn style() -> (r: ChangeFlags)
        ensures
            r == ChangeFlags::spec_style(),
    {
        ChangeFlags { style: true, layout: false, paint: false }
    }

    /// The layout has to be computed again, and so the node repainted.
    #[verifier::when_used_as_spec(spec_layout)]
    pub fn layout() -> (r: ChangeFlags)
        ensures
            r == ChangeFlags::spec_layout(),
    {
        ChangeFlags { style: false, layout: true, paint: true }
    }

    /// The node has to be painted again.
    #[verifier::when_used_as_spec(spec_paint)]
    pub fn paint() -> (r: ChangeFlags)
        ensures
            r == ChangeFlags::spec_paint(),
    {
        ChangeFlags { style: false, layout: false, paint: true }
    }

    #[verifier::when_used_as_spec(spec_is_empty)]
    pub fn is_empty(self) -> (r: bool)
        ensures
            r == self.spec_is_empty(),
    {
        !self.style && !self.layout && !self.paint
    }

    #[verifier::when_used_as_spec(spec_contains)]
    pub fn contains(self, other: ChangeFlags) -> (r: bool)
        ensures
            r == self.spec_contains(other),
    {
        (!other.style || self.style) && (!other.layout || self.layout) && (!other.paint
            || self.paint)
    }

    #[verifier::when_used_as_spec(spec_union)]
    pub fn union(self, other: ChangeFlags) -> (r: ChangeFlags)
        ensures
            r == self.spec_union(other),
            r.wf(),
    {
        ChangeFlags {
            style: self.style || other.style,
            layout: self.layout || other.layout,
            paint: self.paint || other.paint || self.layout || other.layout,
        }
    }

    #[verifier::when_used_as_spec(spec_difference)]
    pub fn difference(self, other: ChangeFlags) -> (r: ChangeFlags)
        ensures
            r == self.spec_difference(other),
            r.wf(),
    {
        let layout: bool = self.layout && !other.layout;
        ChangeFlags {
            style: self.style && !other.style,
            layout,
            paint: (self.paint && !other.paint) || layout,
        }
    }

    /// Adds the flags of `other`.
    pub fn insert(&mut self, other: ChangeFlags)
        ensures
            *final(self) == old(self).spec_union(other),
            final(self).wf(),
    {
        *self = self.union(other);
    }

    /// Takes the flags of `other` out.
    pub fn remove(&mut self, other: ChangeFlags)
        ensures
            *final(self) == old(self).spec_difference(other),
            final(self).wf(),
    {
        *self = self.difference(other);
    }
}

/// Adding flags loses none and is idempotent; taking flags out and adding
/// them again gives back at least what was there.
pub proof fn lemma_flag_algebra(a: ChangeFlags, b: ChangeFlags)
    ensures
        a.spec_union(b).spec_contains(a),
        a.spec_union(b).spec_contains(b),
        a.spec_union(b).spec_union(b) == a.spec_union(b),
        a.spec_union(b) == b.spec_union(a),
        a.spec_difference(b).spec_union(b).spec_contains(a),
        a.wf() ==> a.spec_union(ChangeFlags::spec_empty()) == a,
{
}

} // verus!
