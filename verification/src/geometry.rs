//! Points and axis-parallel rectangles on the integer pixel grid.

use vstd::prelude::*;

verus! {

/// A position, in pixels.
#[derive(Clone, Copy, PartialEq, Eq, Structural, Debug)]
pub struct Point {
    pub x: i64,
    pub y: i64,
}

/// A rectangle given by two corners: `(x0, y0)` and `(x1, y1)`.
#[derive(Clone, Copy, PartialEq, Eq, Structural, Debug)]
pub struct Rect {
    pub x0: i64,
    pub y0: i64,
    pub x1: i64,
    pub y1: i64,
}

/// `a + b`, held to the range of `i64`.
pub open spec fn clamped_sum(a: int, b: int) -> int {
    if a + b > i64::MAX {
        i64::MAX as int
    } else if a + b < i64::MIN {
        i64::MIN as int
    } else {
        a + b
    }
}

/// Adds two coordinates; a sum beyond the range of `i64` stops at its end.
pub fn add_clamped(a: i64, b: i64) -> (r: i64)
    ensures
        r == clamped_sum(a as int, b as int),
{
    if b >= 0 {
        if a > i64::MAX - b {
            i64::MAX
        } else {
            a + b
        }
    } else {
        if a < i64::MIN - b {
            i64::MIN
        } else {
            a + b
        }
    }
}

impl Point {
    pub open spec fn spec_zero() -> Point {
        Point { x: 0, y: 0 }
    }

    /// The origin.
    #[verifier::when_used_as_spec(spec_zero)]
    pub fn zero() -> (r: Point)
        ensures
            r == Point::spec_zero(),
    {
        Point { x: 0, y: 0 }
    }
}

impl Rect {
    pub open spec fn spec_zero() -> Rect {
        Rect { x0: 0, y0: 0, x1: 0, y1: 0 }
    }

    pub open spec fn spec_union(self, other: Rect) -> Rect {
        Rect {
            x0: if self.x0 <= other.x0 { self.x0 } else { other.x0 },
            y0: if self.y0 <= other.y0 { self.y0 } else { other.y0 },
            x1: if self.x1 >= other.x1 { self.x1 } else { other.x1 },
            y1: if self.y1 >= other.y1 { self.y1 } else { other.y1 },
        }
    }

    pub open spec fn spec_origin(self) -> Point {
        Point { x: self.x0, y: self.y0 }
    }

    pub open spec fn spec_offset(self, by: Point) -> Rect {
        Rect {
            x0: clamped_sum(self.x0 as int, by.x as int) as i64,
            y0: clamped_sum(self.y0 as int, by.y as int) as i64,
            x1: clamped_sum(self.x1 as int, by.x as int) as i64,
            y1: clamped_sum(self.y1 as int, by.y as int) as i64,
        }
    }

    pub open spec fn spec_from_origin_size(x: i64, y: i64, width: i64, height: i64) -> Rect {
        Rect {
            x0: x,
            y0: y,
            x1: clamped_sum(x as int, width as int) as i64,
            y1: clamped_sum(y as int, height as int) as i64,
        }
    }

    /// `other` lies within `self`: no edge of `other` is outside `self`.
    pub open spec fn encloses(self, other: Rect) -> bool {
        &&& self.x0 <= other.x0
        &&& self.y0 <= other.y0
        &&& other.x1 <= self.x1
        &&& other.y1 <= self.y1
    }

    /// The empty rectangle at the origin.
    #[verifier::when_used_as_spec(spec_zero)]
    pub fn zero() -> (r: Rect)
        ensures
            r == Rect::spec_zero(),
    {
        Rect { x0: 0, y0: 0, x1: 0, y1: 0 }
    }

    /// The rectangle with its first corner at `(x, y)` and the given size.
    #[verifier::when_used_as_spec(spec_from_origin_size)]
    pub fn from_origin_size(x: i64, y: i64, width: i64, height: i64) -> (r: Rect)
        ensures
            r == Rect::spec_from_origin_size(x, y, width, height),
    {
        Rect { x0: x, y0: y, x1: add_clamped(x, width), y1: add_clamped(y, height) }
    }

    /// The first corner.
    #[verifier::when_used_as_spec(spec_origin)]
    pub fn origin(self) -> (r: Point)
        ensures
            r == self.spec_origin(),
    {
        Point { x: self.x0, y: self.y0 }
    }

    /// The rectangle moved by `by`.
    #[verifier::when_used_as_spec(spec_offset)]
    pub fn offset(self, by: Point) -> (r: Rect)
        ensures
            r == self.spec_offset(by),
    {
        Rect {
            x0: add_clamped(self.x0, by.x),
            y0: add_clamped(self.y0, by.y),
            x1: add_clamped(self.x1, by.x),
            y1: add_clamped(self.y1, by.y),
        }
    }

    /// The smallest rectangle that encloses both `self` and `other`.
    #[verifier::when_used_as_spec(spec_union)]
    pub fn union(self, other: Rect) -> (r: Rect)
        ensures
            r == self.spec_union(other),
    {
        Rect {
            x0: if self.x0 <= other.x0 { self.x0 } else { other.x0 },
            y0: if self.y0 <= other.y0 { self.y0 } else { other.y0 },
            x1: if self.x1 >= other.x1 { self.x1 } else { other.x1 },
            y1: if self.y1 >= other.y1 { self.y1 } else { other.y1 },
        }
    }
}

/// The bounding rectangle of the first `k` rectangles of `rects`: the
/// empty rectangle at the origin for none of them, else their common hull.
pub open spec fn bounding(rects: Seq<Rect>, k: nat) -> Rect
    decreases k,
{
    if k == 0 || k > rects.len() {
        Rect::spec_zero()
    } else if k == 1 {
        rects[0]
    } else {
        bounding(rects, (k - 1) as nat).spec_union(rects[k - 1])
    }
}

/// The bounding rectangle of the first `k` rectangles does not depend on
/// the rectangles after them.
pub proof fn lemma_bounding_prefix(a: Seq<Rect>, b: Seq<Rect>, k: nat)
    requires
        k <= a.len(),
        k <= b.len(),
        forall|i: int| 0 <= i < k ==> a[i] == b[i],
    ensures
        bounding(a, k) == bounding(b, k),
    decreases k,
{
    if k > 1 {
        lemma_bounding_prefix(a, b, (k - 1) as nat);
    }
}

/// The union of two rectangles encloses both, and every rectangle that
/// encloses both encloses their union.
pub proof fn lemma_union_is_least(a: Rect, b: Rect, c: Rect)
    ensures
        a.spec_union(b).encloses(a),
        a.spec_union(b).encloses(b),
        c.encloses(a) && c.encloses(b) ==> c.encloses(a.spec_union(b)),
{
}

/// The bounding rectangle of `k >= 1` rectangles is the smallest rectangle
/// that contains them all: it encloses each of them, and any rectangle
/// `outer` that encloses each of them encloses it.
pub proof fn lemma_bounding_is_least(rects: Seq<Rect>, k: nat, outer: Rect)
    requires
        1 <= k <= rects.len(),
    ensures
        forall|i: int| 0 <= i < k ==> bounding(rects, k).encloses(#[trigger] rects[i]),
        (forall|i: int| 0 <= i < k ==> outer.encloses(#[trigger] rects[i])) ==> outer.encloses(
            bounding(rects, k),
        ),
    decreases k,
{
    if k > 1 {
        lemma_bounding_is_least(rects, (k - 1) as nat, outer);
        let inner = bounding(rects, (k - 1) as nat);
        lemma_union_is_least(inner, rects[k - 1], outer);
        assert forall|i: int| 0 <= i < k implies bounding(rects, k).encloses(
            #[trigger] rects[i],
        ) by {
            if i < k - 1 {
                assert(inner.encloses(rects[i]));
            }
        }
    }
}

} // verus!
