//! Grid vectors and axis-aligned bounds.
//!
//! Positions are integers on a fixed-point grid. Every operation on bounds is
//! exact; only [`Bounds::expand_by`], [`Bounds::center`] and
//! [`Bounds::extents`] round, and they round outwards.

use vstd::prelude::*;

verus! {

/// A point or displacement on the grid.
#[derive(Copy, Clone, PartialEq, Eq, Debug, Structural)]
pub struct Vec2 {
    pub x: i32,
    pub y: i32,
}

impl Vec2 {
    /// The vector with the given components.
    pub fn new(x: i32, y: i32) -> (r: Vec2)
        ensures
            r == (Vec2 { x, y }),
    {
        Vec2 { x, y }
    }

    /// The componentwise minimum.
    pub open spec fn spec_min(self, other: Vec2) -> Vec2 {
        Vec2 {
            x: if self.x <= other.x {
                self.x
            } else {
                other.x
            },
            y: if self.y <= other.y {
                self.y
            } else {
                other.y
            },
        }
    }

    /// The componentwise maximum.
    pub open spec fn spec_max(self, other: Vec2) -> Vec2 {
        Vec2 {
            x: if self.x >= other.x {
                self.x
            } else {
                other.x
            },
            y: if self.y >= other.y {
                self.y
            } else {
                other.y
            },
        }
    }

    /// Whether `self` is at most `other` in both components.
    pub open spec fn le(self, other: Vec2) -> bool {
        self.x <= other.x && self.y <= other.y
    }

    /// The componentwise minimum.
    pub fn min(&self, other: &Vec2) -> (r: Vec2)
        ensures
            r == self.spec_min(*other),
    {
        Vec2 {
            x: if self.x <= other.x {
                self.x
            } else {
                other.x
            },
            y: if self.y <= other.y {
                self.y
            } else {
                other.y
            },
        }
    }

    /// The componentwise maximum.
    pub fn max(&self, other: &Vec2) -> (r: Vec2)
        ensures
            r == self.spec_max(*other),
    {
        Vec2 {
            x: if self.x >= other.x {
                self.x
            } else {
                other.x
            },
            y: if self.y >= other.y {
                self.y
            } else {
                other.y
            },
        }
    }
}

/// What a side of length `width` grows by, at each end, when the box is
/// expanded by `percent` percent: half of that share of the width, rounded up.
pub open spec fn margin(width: int, percent: int) -> int {
    (width * percent + 199) / 200
}

/// `v` limited to the range of a grid coordinate.
pub open spec fn saturate(v: int) -> int {
    if v < i32::MIN {
        i32::MIN as int
    } else if v > i32::MAX {
        i32::MAX as int
    } else {
        v
    }
}

fn saturate_i32(v: i64) -> (r: i32)
    ensures
        r == saturate(v as int),
{
    if v < -2147483648 {
        -2147483648
    } else if v > 2147483647 {
        2147483647
    } else {
        v as i32
    }
}

/// An axis-aligned box. Its minimum corner never exceeds its maximum corner.
#[derive(Copy, Clone, PartialEq, Eq, Debug, Structural)]
pub struct Bounds {
    min: Vec2,
    max: Vec2,
}

impl Bounds {
    /// The minimum corner does not exceed the maximum corner.
    #[verifier::type_invariant]
    pub closed spec fn ordered(self) -> bool {
        self.min.le(self.max)
    }

    /// The minimum corner.
    pub closed spec fn spec_min(self) -> Vec2 {
        self.min
    }

    /// The maximum corner.
    pub closed spec fn spec_max(self) -> Vec2 {
        self.max
    }

    /// The invariant of the type, for values that occur only in ghost code.
    pub open spec fn wf(self) -> bool {
        self.spec_min().le(self.spec_max())
    }

    /// Two boxes with the same corners are the same box.
    pub proof fn lemma_corners(self, other: Bounds)
        ensures
            self.wf() == self.ordered(),
            (self.spec_min() == other.spec_min() && self.spec_max() == other.spec_max())
                == (self == other),
    {
    }

    /// The box with the given corners.
    pub fn new(min: Vec2, max: Vec2) -> (r: Bounds)
        requires
            min.le(max),
        ensures
            r == Self::of(min, max),
            r.spec_min() == min,
            r.spec_max() == max,
            r.wf(),
    {
        Bounds { min, max }
    }

    /// The box around `center` that reaches `extents` to each side.
    pub fn center_extents(center: Vec2, extents: Vec2) -> (r: Bounds)
        requires
            extents.x >= 0,
            extents.y >= 0,
            i32::MIN <= center.x - extents.x,
            center.x + extents.x <= i32::MAX,
            i32::MIN <= center.y - extents.y,
            center.y + extents.y <= i32::MAX,
        ensures
            r.spec_min() == (Vec2 { x: (center.x - extents.x) as i32, y: (center.y - extents.y) as i32 }),
            r.spec_max() == (Vec2 { x: (center.x + extents.x) as i32, y: (center.y + extents.y) as i32 }),
            r.wf(),
    {
        Bounds::new(
            Vec2 { x: center.x - extents.x, y: center.y - extents.y },
            Vec2 { x: center.x + extents.x, y: center.y + extents.y },
        )
    }

    /// The minimum corner.
    pub fn min(&self) -> (r: Vec2)
        ensures
            r == self.spec_min(),
    {
        self.min
    }

    /// The maximum corner.
    pub fn max(&self) -> (r: Vec2)
        ensures
            r == self.spec_max(),
    {
        self.max
    }

    /// Twice the width plus the height.
    pub open spec fn spec_perimeter(self) -> int {
        2 * ((self.spec_max().x - self.spec_min().x) + (self.spec_max().y - self.spec_min().y))
    }

    /// The perimeter of the box.
    pub fn perimeter(&self) -> (r: i64)
        ensures
            r == self.spec_perimeter(),
            self.wf(),
            0 <= r,
    {
        proof {
            use_type_invariant(self);
        }
        let w: i64 = self.max.x as i64 - self.min.x as i64;
        let h: i64 = self.max.y as i64 - self.min.y as i64;
        2 * (w + h)
    }

    /// The midpoint, each component rounded down.
    pub open spec fn spec_center(self) -> Vec2 {
        Vec2 {
            x: ((self.spec_max().x + self.spec_min().x) / 2) as i32,
            y: ((self.spec_max().y + self.spec_min().y) / 2) as i32,
        }
    }

    /// The midpoint of the box, each component rounded down.
    pub fn center(&self) -> (r: Vec2)
        ensures
            r == self.spec_center(),
    {
        Vec2 { x: floor_half(self.max.x as i64 + self.min.x as i64), y: floor_half(self.max.y as i64 + self.min.y as i64) }
    }

    /// Half the size, each component rounded up.
    pub open spec fn spec_extents(self) -> Vec2 {
        Vec2 {
            x: saturate((self.spec_max().x - self.spec_min().x + 1) / 2) as i32,
            y: saturate((self.spec_max().y - self.spec_min().y + 1) / 2) as i32,
        }
    }

    /// Half the size of the box, each component rounded up.
    pub fn extents(&self) -> (r: Vec2)
        ensures
            r == self.spec_extents(),
            self.wf(),
            r.x >= 0,
            r.y >= 0,
    {
        proof {
            use_type_invariant(self);
        }
        let w: i64 = self.max.x as i64 - self.min.x as i64;
        let h: i64 = self.max.y as i64 - self.min.y as i64;
        Vec2 { x: saturate_i32((w + 1) / 2), y: saturate_i32((h + 1) / 2) }
    }

    /// Whether the two boxes share a point.
    pub open spec fn spec_intersects(self, other: Bounds) -> bool {
        &&& self.spec_max().x >= other.spec_min().x
        &&& self.spec_min().x <= other.spec_max().x
        &&& self.spec_max().y >= other.spec_min().y
        &&& self.spec_min().y <= other.spec_max().y
    }

    /// Whether the two boxes share a point. Touching boxes intersect.
    pub fn intersects(&self, other: &Bounds) -> (r: bool)
        ensures
            r == self.spec_intersects(*other),
    {
        if self.max.x < other.min.x || self.min.x > other.max.x {
            false
        } else if self.max.y < other.min.y || self.min.y > other.max.y {
            false
        } else {
            true
        }
    }

    /// Whether `other` lies within this box.
    pub open spec fn spec_contains(self, other: Bounds) -> bool {
        self.spec_min().le(other.spec_min()) && other.spec_max().le(self.spec_max())
    }

    /// Whether `other` lies within this box.
    pub fn contains(&self, other: &Bounds) -> (r: bool)
        ensures
            r == self.spec_contains(*other),
    {
        self.min.min(&other.min) == self.min && self.max.max(&other.max) == self.max
    }

    /// The smallest box that holds both boxes.
    pub closed spec fn spec_union(self, other: Bounds) -> Bounds {
        Bounds { min: self.min.spec_min(other.min), max: self.max.spec_max(other.max) }
    }

    /// The corners of a union.
    pub proof fn lemma_union(self, other: Bounds)
        ensures
            self.spec_union(other).spec_min() == self.spec_min().spec_min(other.spec_min()),
            self.spec_union(other).spec_max() == self.spec_max().spec_max(other.spec_max()),
            self.wf() && other.wf() ==> self.spec_union(other).wf(),
            self.spec_union(other).spec_contains(self),
            self.spec_union(other).spec_contains(other),
            self.spec_union(other) == other.spec_union(self),
    {
    }

    /// The smallest box that holds both boxes.
    pub fn union(&self, other: &Bounds) -> (r: Bounds)
        ensures
            r == self.spec_union(*other),
            r.wf(),
    {
        proof {
            use_type_invariant(self);
            use_type_invariant(other);
        }
        Bounds::new(self.min.min(&other.min), self.max.max(&other.max))
    }

    /// The corners of the box grown by `percent` percent of its size.
    pub open spec fn spec_expand_by(self, percent: u16) -> (Vec2, Vec2) {
        let mx = margin(self.spec_max().x - self.spec_min().x, percent as int);
        let my = margin(self.spec_max().y - self.spec_min().y, percent as int);
        (
            Vec2 {
                x: saturate(self.spec_min().x - mx) as i32,
                y: saturate(self.spec_min().y - my) as i32,
            },
            Vec2 {
                x: saturate(self.spec_max().x + mx) as i32,
                y: saturate(self.spec_max().y + my) as i32,
            },
        )
    }

    /// The box with the given corners.
    pub closed spec fn of(min: Vec2, max: Vec2) -> Bounds {
        Bounds { min, max }
    }

    /// The corners of [`Self::of`] are the given ones.
    pub proof fn lemma_of(min: Vec2, max: Vec2)
        ensures
            Self::of(min, max).spec_min() == min,
            Self::of(min, max).spec_max() == max,
    {
    }

    /// The box grown by `percent` percent of its size.
    pub open spec fn spec_expanded(self, percent: u16) -> Bounds {
        Self::of(self.spec_expand_by(percent).0, self.spec_expand_by(percent).1)
    }

    /// The box grown about its centre by `percent` percent of its size: each
    /// side moves outwards by [`margin`], and stops at the edge of the grid.
    /// The result contains the box.
    pub fn expand_by(&self, percent: u16) -> (r: Bounds)
        ensures
            r == self.spec_expanded(percent),
            r.spec_min() == self.spec_expand_by(percent).0,
            r.spec_max() == self.spec_expand_by(percent).1,
            r.wf(),
            r.spec_contains(*self),
    {
        proof {
            use_type_invariant(self);
        }
        let w: i64 = self.max.x as i64 - self.min.x as i64;
        let h: i64 = self.max.y as i64 - self.min.y as i64;
        let p: i64 = percent as i64;
        assert(0 <= w * p <= 0x1_0000_0000 * 0x1_0000) by (nonlinear_arith)
            requires
                0 <= w < 0x1_0000_0000,
                0 <= p < 0x1_0000,
        ;
        assert(0 <= h * p <= 0x1_0000_0000 * 0x1_0000) by (nonlinear_arith)
            requires
                0 <= h < 0x1_0000_0000,
                0 <= p < 0x1_0000,
        ;
        let mx: i64 = (w * p + 199) / 200;
        let my: i64 = (h * p + 199) / 200;
        Bounds::new(
            Vec2 { x: saturate_i32(self.min.x as i64 - mx), y: saturate_i32(self.min.y as i64 - my) },
            Vec2 { x: saturate_i32(self.max.x as i64 + mx), y: saturate_i32(self.max.y as i64 + my) },
        )
    }
}

fn floor_half(v: i64) -> (r: i32)
    requires
        2 * i32::MIN <= v <= 2 * i32::MAX,
    ensures
        r == v / 2,
{
    let q: i64 = v / 2;
    if v < 0 && v % 2 != 0 {
        (q - 1) as i32
    } else {
        q as i32
    }
}

impl Default for Bounds {
    /// The box that holds only the origin.
    fn default() -> (r: Bounds)
        ensures
            r.spec_min() == (Vec2 { x: 0, y: 0 }),
            r.spec_max() == (Vec2 { x: 0, y: 0 }),
    {
        Bounds { min: Vec2 { x: 0, y: 0 }, max: Vec2 { x: 0, y: 0 } }
    }
}

} // verus!
