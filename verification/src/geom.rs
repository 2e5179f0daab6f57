//! Geometry primitives: 2D vectors, axis-aligned rectangles, overlap
//! queries and displacement resolution.

use vstd::prelude::*;

verus! {

/// A 2D point or displacement in world units.
#[derive(Clone, Copy, Debug, PartialEq, Eq, Structural)]
pub struct Vec2 {
    pub x: i32,
    pub y: i32,
}

/// A movement direction on the grid, `Up` being towards growing `y`.
#[derive(Clone, Copy, Debug, PartialEq, Eq, Structural)]
pub enum Dir {
    Up,
    Down,
    Left,
    Right,
}

impl Dir {
    /// The unit vector pointing in this direction.
    pub fn to_vec2(self) -> (r: Vec2)
        ensures
            self is Up ==> r == (Vec2 { x: 0, y: 1 }),
            self is Down ==> r == (Vec2 { x: 0, y: -1i32 }),
            self is Left ==> r == (Vec2 { x: -1i32, y: 0 }),
            self is Right ==> r == (Vec2 { x: 1, y: 0 }),
    {
        match self {
            Dir::Up => Vec2 { x: 0, y: 1 },
            Dir::Right => Vec2 { x: 1, y: 0 },
            Dir::Down => Vec2 { x: 0, y: -1 },
            Dir::Left => Vec2 { x: -1, y: 0 },
        }
    }
}

impl Vec2 {
    /// Componentwise sum, as when a displacement is applied to a position.
    pub fn plus(self, other: Vec2) -> (r: Vec2)
        requires
            i32::MIN <= self.x + other.x <= i32::MAX,
            i32::MIN <= self.y + other.y <= i32::MAX,
        ensures
            r.x == self.x + other.x,
            r.y == self.y + other.y,
    {
        Vec2 { x: self.x + other.x, y: self.y + other.y }
    }

    /// Componentwise difference.
    pub fn minus(self, other: Vec2) -> (r: Vec2)
        requires
            i32::MIN <= self.x - other.x <= i32::MAX,
            i32::MIN <= self.y - other.y <= i32::MAX,
        ensures
            r.x == self.x - other.x,
            r.y == self.y - other.y,
    {
        Vec2 { x: self.x - other.x, y: self.y - other.y }
    }

    /// Squared magnitude; the contact ordering policy sorts by this value.
    pub open spec fn spec_mag_sq(self) -> int {
        self.x * self.x + self.y * self.y
    }

    /// Squared magnitude of the vector.
    pub fn mag_sq(&self) -> (r: u64)
        ensures
            r == self.spec_mag_sq(),
    {
        proof {
            assert(self.x * self.x >= 0 && self.x * self.x <= 0x4000_0000_0000_0000)
                by (nonlinear_arith)
                requires -0x8000_0000 <= self.x <= 0x7fff_ffff;
            assert(self.y * self.y >= 0 && self.y * self.y <= 0x4000_0000_0000_0000)
                by (nonlinear_arith)
                requires -0x8000_0000 <= self.y <= 0x7fff_ffff;
        }
        let xx: u64 = ((self.x as i64) * (self.x as i64)) as u64;
        let yy: u64 = ((self.y as i64) * (self.y as i64)) as u64;
        xx + yy
    }
}

/// An axis-aligned box: `(x, y)` is the minimum corner, `w` and `h` are
/// non-negative extents.  A zero `w` or `h` marks an empty, inactive box.
#[derive(Clone, Copy, Debug, PartialEq, Eq, Structural)]
pub struct Rect {
    pub x: i32,
    pub y: i32,
    pub w: u16,
    pub h: u16,
}

impl Rect {
    /// The exclusive right edge of the rectangle.
    pub open spec fn x_end(self) -> int {
        self.x + self.w
    }

    /// The exclusive top edge of the rectangle (`y` grows upward).
    pub open spec fn y_end(self) -> int {
        self.y + self.h
    }

    /// Per-axis penetration depth along `x` between `self` and `other`;
    /// negative when the extents are separated on that axis.
    pub open spec fn spec_x_overlap(self, other: Rect) -> int {
        (if self.x_end() <= other.x_end() {
            self.x_end()
        } else {
            other.x_end()
        }) - (if self.x >= other.x {
            self.x as int
        } else {
            other.x as int
        })
    }

    /// Per-axis penetration depth along `y` between `self` and `other`.
    pub open spec fn spec_y_overlap(self, other: Rect) -> int {
        (if self.y_end() <= other.y_end() {
            self.y_end()
        } else {
            other.y_end()
        }) - (if self.y >= other.y {
            self.y as int
        } else {
            other.y as int
        })
    }

    /// The rectangles intersect or touch on both axes.
    pub open spec fn spec_overlaps(self, other: Rect) -> bool {
        self.spec_x_overlap(other) >= 0 && self.spec_y_overlap(other) >= 0
    }

    /// Per-axis penetration depth if the rectangles intersect or touch
    /// (both components non-negative), `None` when separated on some axis.
    pub fn overlap(&self, other: Rect) -> (r: Option<Vec2>)
        ensures
            r is Some <==> self.spec_overlaps(other),
            r matches Some(v) ==> v.x == self.spec_x_overlap(other) && v.y
                == self.spec_y_overlap(other),
    {
        let a_xe: i64 = self.x as i64 + self.w as i64;
        let b_xe: i64 = other.x as i64 + other.w as i64;
        let a_ye: i64 = self.y as i64 + self.h as i64;
        let b_ye: i64 = other.y as i64 + other.h as i64;
        let x_overlap: i64 = (if a_xe <= b_xe {
            a_xe
        } else {
            b_xe
        }) - (if self.x >= other.x {
            self.x as i64
        } else {
            other.x as i64
        });
        let y_overlap: i64 = (if a_ye <= b_ye {
            a_ye
        } else {
            b_ye
        }) - (if self.y >= other.y {
            self.y as i64
        } else {
            other.y as i64
        });
        if x_overlap >= 0 && y_overlap >= 0 {
            Some(Vec2 { x: x_overlap as i32, y: y_overlap as i32 })
        } else {
            None
        }
    }

    /// The minimum corner of the rectangle.
    pub fn origin(&self) -> (r: Vec2)
        ensures
            r == (Vec2 { x: self.x, y: self.y }),
    {
        Vec2 { x: self.x, y: self.y }
    }

    /// The rectangle moved by `d`, as after applying a resolved
    /// displacement to its position.
    pub fn translated(&self, d: Vec2) -> (r: Rect)
        requires
            i32::MIN <= self.x + d.x <= i32::MAX,
            i32::MIN <= self.y + d.y <= i32::MAX,
        ensures
            r.x == self.x + d.x,
            r.y == self.y + d.y,
            r.w == self.w,
            r.h == self.h,
    {
        Rect { x: self.x + d.x, y: self.y + d.y, w: self.w, h: self.h }
    }

    /// Whether the rectangle covers no area and so marks an inactive box.
    pub fn is_empty(&self) -> (r: bool)
        ensures
            r == (self.w == 0 || self.h == 0),
    {
        self.w == 0 || self.h == 0
    }
}

/// The displacement that `compute_displacement(a, b)` returns, as a pair of
/// mathematical integers.  The zero vector when the rectangles do not
/// overlap; otherwise the axis of larger penetration is zeroed (on an exact
/// tie the correction is along `x`), and the kept component points from `b`
/// towards `a`.
pub open spec fn spec_displacement(a: Rect, b: Rect) -> (int, int) {
    if !a.spec_overlaps(b) {
        (0, 0)
    } else {
        let ox = a.spec_x_overlap(b);
        let oy = a.spec_y_overlap(b);
        if oy < ox {
            (0, if a.y < b.y {
                -oy
            } else {
                oy
            })
        } else {
            (if a.x < b.x {
                -ox
            } else {
                ox
            }, 0)
        }
    }
}

/// The vector to add to `a`'s position to push it out of `b` along the axis
/// of least penetration.  Total: yields the zero vector when `a` and `b` do
/// not overlap, so it is safe to call speculatively.
pub fn compute_displacement(a: Rect, b: Rect) -> (r: Vec2)
    ensures
        r.x == spec_displacement(a, b).0,
        r.y == spec_displacement(a, b).1,
        !a.spec_overlaps(b) ==> r == (Vec2 { x: 0, y: 0 }),
{
    let Some(overlap) = a.overlap(b) else {
        return Vec2 { x: 0, y: 0 };
    };
    let mut disp = overlap;
    if overlap.y < overlap.x {
        disp.x = 0;
    } else {
        disp.y = 0;
    }
    if a.x < b.x {
        disp.x = -disp.x;
    }
    if a.y < b.y {
        disp.y = -disp.y;
    }
    disp
}

/// Penetration depth along `x` after translating `a` by `d`.
pub open spec fn x_overlap_shifted(a: Rect, b: Rect, d: (int, int)) -> int {
    (if a.x + d.0 + a.w <= b.x_end() {
        a.x + d.0 + a.w
    } else {
        b.x_end()
    }) - (if a.x + d.0 >= b.x {
        a.x + d.0
    } else {
        b.x as int
    })
}

/// Penetration depth along `y` after translating `a` by `d`.
pub open spec fn y_overlap_shifted(a: Rect, b: Rect, d: (int, int)) -> int {
    (if a.y + d.1 + a.h <= b.y_end() {
        a.y + d.1 + a.h
    } else {
        b.y_end()
    }) - (if a.y + d.1 >= b.y {
        a.y + d.1
    } else {
        b.y as int
    })
}

/// Overlap magnitudes do not depend on the order of the arguments: the
/// per-axis penetration depths, and hence the presence of a contact, are
/// symmetric in `a` and `b`.
pub proof fn lemma_overlap_symmetric(a: Rect, b: Rect)
    ensures
        a.spec_x_overlap(b) == b.spec_x_overlap(a),
        a.spec_y_overlap(b) == b.spec_y_overlap(a),
        a.spec_overlaps(b) == b.spec_overlaps(a),
{
}

/// A contact is reported exactly when the extents intersect or touch on
/// both axes, boundary included.
pub proof fn lemma_overlap_iff_touching(a: Rect, b: Rect)
    ensures
        a.spec_overlaps(b) <==> (a.x <= b.x_end() && b.x <= a.x_end() && a.y <= b.y_end() && b.y
            <= a.y_end()),
{
}

/// Non-overlapping rectangles resolve to the zero displacement.
pub proof fn lemma_no_overlap_zero_displacement(a: Rect, b: Rect)
    requires
        !a.spec_overlaps(b),
    ensures
        spec_displacement(a, b) == (0int, 0int),
{
}

/// Applying the resolved displacement to `a` separates the two rectangles
/// on the corrected axis: re-testing overlap there yields exactly zero.
///
/// This holds whenever neither extent strictly contains the other on the
/// corrected axis (with containment, one push of the minimum-translation
/// vector aligns an inner edge instead of separating the boxes).
pub proof fn lemma_displacement_separates(a: Rect, b: Rect)
    requires
        a.spec_overlaps(b),
        a.spec_y_overlap(b) < a.spec_x_overlap(b) ==> (if a.y < b.y {
            a.y_end() <= b.y_end()
        } else {
            b.y_end() <= a.y_end()
        }),
        a.spec_x_overlap(b) <= a.spec_y_overlap(b) ==> (if a.x < b.x {
            a.x_end() <= b.x_end()
        } else {
            b.x_end() <= a.x_end()
        }),
    ensures
        x_overlap_shifted(a, b, spec_displacement(a, b)) == 0 || y_overlap_shifted(
            a,
            b,
            spec_displacement(a, b),
        ) == 0,
        a.spec_y_overlap(b) < a.spec_x_overlap(b) ==> y_overlap_shifted(
            a,
            b,
            spec_displacement(a, b),
        ) == 0 && x_overlap_shifted(a, b, spec_displacement(a, b)) == a.spec_x_overlap(b),
        a.spec_x_overlap(b) <= a.spec_y_overlap(b) ==> x_overlap_shifted(
            a,
            b,
            spec_displacement(a, b),
        ) == 0 && y_overlap_shifted(a, b, spec_displacement(a, b)) == a.spec_y_overlap(b),
{
}

} // verus!
