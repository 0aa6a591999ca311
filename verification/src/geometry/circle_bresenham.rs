//! Midpoint (Bresenham) circle outline rasterization.
//!
//! Produces the discrete outline of a circle of a given integer radius: for
//! each generated arc offset, the eight symmetric points around the center
//! are yielded. Used to seed the ray fan for field of view; a non-positive
//! radius yields the degenerate outlines (empty for a negative radius, the
//! center alone for radius zero).

use vstd::prelude::*;

use crate::geometry::point::Point;

verus! {

/// The eight symmetric points of the arc offset `(x, y)` around `(cx, cy)`.
pub open spec fn circle8(cx: int, cy: int, x: int, y: int) -> Seq<(int, int)> {
    seq![
        (cx + x, cy + y),
        (cx + y, cy + x),
        (cx - y, cy + x),
        (cx - x, cy + y),
        (cx - x, cy - y),
        (cx - y, cy - x),
        (cx + y, cy - x),
        (cx + x, cy - y),
    ]
}

/// The points emitted by the midpoint-circle walk from arc state
/// `(x, y, err)`, eight per offset, in emission order.
pub open spec fn circle_walk(cx: int, cy: int, x: int, y: int, err: int) -> Seq<(int, int)>
    decreases (if y <= x {
        x - y + 1
    } else {
        0
    }),
{
    if y > x {
        Seq::empty()
    } else {
        let y2 = y + 1;
        let x2 = if err < 0 {
            x
        } else {
            x - 1
        };
        let e2 = if err < 0 {
            err + 2 * y2 + 1
        } else {
            err + 2 * (y2 - x2) + 1
        };
        circle8(cx, cy, x, y) + circle_walk(cx, cy, x2, y2, e2)
    }
}

/// The full outline of the circle of radius `r` centered on `(cx, cy)`.
pub open spec fn circle_pts(cx: int, cy: int, r: int) -> Seq<(int, int)> {
    circle_walk(cx, cy, r, 0, 1 - r)
}

/// A circle of non-negative radius has at least one outline point (its
/// first emitted point is `(cx + r, cy)`).
pub proof fn lemma_circle_nonempty(cx: int, cy: int, r: int)
    requires
        r >= 0,
    ensures
        circle_pts(cx, cy, r).len() >= 8,
        circle_pts(cx, cy, r)[0] == (cx + r, cy),
{
}

/// Every point of the outline walk lies within Chebyshev distance `x` of
/// the center (so the full outline lies within the radius).
pub proof fn lemma_circle_walk_within(cx: int, cy: int, x: int, y: int, err: int, r: int)
    requires
        0 <= y,
        y <= x ==> x <= r,
    ensures
        forall|k: int|
            0 <= k < circle_walk(cx, cy, x, y, err).len() ==> crate::geometry::chebyshev_spec(
                (cx, cy),
                #[trigger] circle_walk(cx, cy, x, y, err)[k],
            ) <= r,
    decreases (if y <= x {
        x - y + 1
    } else {
        0
    }),
{
    if y <= x {
        let y2 = y + 1;
        let x2 = if err < 0 {
            x
        } else {
            x - 1
        };
        let e2 = if err < 0 {
            err + 2 * y2 + 1
        } else {
            err + 2 * (y2 - x2) + 1
        };
        lemma_circle_walk_within(cx, cy, x2, y2, e2, r);
        let w = circle_walk(cx, cy, x, y, err);
        let oct = circle8(cx, cy, x, y);
        let wr = circle_walk(cx, cy, x2, y2, e2);
        assert(w =~= oct + wr);
        assert forall|k: int|
            0 <= k < w.len() implies crate::geometry::chebyshev_spec((cx, cy), #[trigger] w[k])
            <= r by {
            if k < 8 {
                assert(w[k] == oct[k]);
            } else {
                assert(w[k] == wr[k - 8]);
            }
        }
    }
}

/// Outline iterator for the midpoint circle algorithm. Yields the points of
/// [`circle_pts`] in order.
pub struct BresenhamCircle {
    cx: i64,
    cy: i64,
    x: i64,
    y: i64,
    err: i64,
    j: u8,
    center: Ghost<Point>,
    radius: Ghost<i32>,
}

impl BresenhamCircle {
    /// The center and radius this iterator was created for.
    pub closed spec fn parameters(&self) -> (Point, i32) {
        (self.center@, self.radius@)
    }

    /// The points not yet yielded.
    pub closed spec fn remaining(&self) -> Seq<(int, int)> {
        circle_walk(
            self.cx as int,
            self.cy as int,
            self.x as int,
            self.y as int,
            self.err as int,
        ).skip(self.j as int)
    }

    /// Internal consistency of the iterator state.
    pub closed spec fn wf(&self) -> bool {
        &&& self.cx == self.center@.x
        &&& self.cy == self.center@.y
        &&& (self.radius@ >= 0 ==> i32::MIN <= self.cx - self.radius@ && self.cx + self.radius@
            <= i32::MAX && i32::MIN <= self.cy - self.radius@ && self.cy + self.radius@
            <= i32::MAX)
        &&& (self.y <= self.x ==> {
            &&& 0 <= self.y <= self.x <= self.radius@
            &&& -(2 * self.x + 1) <= self.err <= 2 * self.y + 1
            &&& 0 <= self.j < 8
        })
        &&& (self.y > self.x ==> self.j == 0)
    }

    /// Creates an outline iterator for the circle centered on `(x, y)` with
    /// the given radius.
    pub fn new(x: i32, y: i32, radius: i32) -> (c: BresenhamCircle)
        requires
            radius >= 0 ==> i32::MIN <= x - radius && x + radius <= i32::MAX && i32::MIN <= y
                - radius && y + radius <= i32::MAX,
        ensures
            c.wf(),
            c.parameters() == (Point { x, y }, radius),
            c.remaining() == circle_pts(x as int, y as int, radius as int),
    {
        let c = BresenhamCircle {
            cx: x as i64,
            cy: y as i64,
            x: radius as i64,
            y: 0,
            err: 1 - radius as i64,
            j: 0,
            center: Ghost(Point { x, y }),
            radius: Ghost(radius),
        };
        proof {
            assert(c.remaining() =~= circle_pts(x as int, y as int, radius as int));
        }
        c
    }

    /// Yields the next outline point, or `None` once the outline is
    /// complete.
    pub fn next(&mut self) -> (r: Option<Point>)
        requires
            old(self).wf(),
        ensures
            final(self).wf(),
            final(self).parameters() == old(self).parameters(),
            match r {
                None => old(self).remaining().len() == 0 && final(self).remaining().len() == 0,
                Some(p) => old(self).remaining().len() > 0 && (p.x as int, p.y as int)
                    == old(self).remaining()[0] && final(self).remaining() == old(
                    self,
                ).remaining().drop_first(),
            },
    {
        if self.y > self.x {
            return None;
        }
        let ghost walk = circle_walk(
            self.cx as int,
            self.cy as int,
            self.x as int,
            self.y as int,
            self.err as int,
        );
        let ghost oct = circle8(self.cx as int, self.cy as int, self.x as int, self.y as int);
        let (px, py) = match self.j {
            0 => (self.cx + self.x, self.cy + self.y),
            1 => (self.cx + self.y, self.cy + self.x),
            2 => (self.cx - self.y, self.cy + self.x),
            3 => (self.cx - self.x, self.cy + self.y),
            4 => (self.cx - self.x, self.cy - self.y),
            5 => (self.cx - self.y, self.cy - self.x),
            6 => (self.cx + self.y, self.cy - self.x),
            _ => (self.cx + self.x, self.cy - self.y),
        };
        proof {
            assert(walk =~= oct + circle_walk(
                self.cx as int,
                self.cy as int,
                (if self.err < 0 {
                    self.x as int
                } else {
                    self.x - 1
                }),
                self.y + 1,
                (if self.err < 0 {
                    self.err + 2 * (self.y + 1) + 1
                } else {
                    self.err + 2 * ((self.y + 1) - (self.x - 1)) + 1
                }),
            ));
            assert((px as int, py as int) == oct[self.j as int]);
            assert(old(self).remaining()[0] == walk[self.j as int]);
        }
        let p = Point { x: px as i32, y: py as i32 };
        if self.j < 7 {
            self.j = self.j + 1;
            proof {
                assert(self.remaining() =~= old(self).remaining().drop_first());
            }
        } else {
            self.j = 0;
            self.y = self.y + 1;
            if self.err < 0 {
                self.err = self.err + 2 * self.y + 1;
            } else {
                self.x = self.x - 1;
                self.err = self.err + 2 * (self.y - self.x) + 1;
            }
            proof {
                assert(self.remaining() =~= walk.skip(8));
                assert(old(self).remaining().drop_first() =~= walk.skip(8));
            }
        }
        Some(p)
    }
}

} // verus!
