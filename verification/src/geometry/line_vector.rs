//! Vector-marching line rasterization.
//!
//! The rasterizer marches from the cell center of `start` straight toward
//! the cell center of `end`, sampling the segment at one point per king-move
//! of its Chebyshev length and truncating each sample back to an integer
//! cell. All arithmetic is exact, so the march is guaranteed to arrive: the
//! last point produced is `end` itself. Both `start` and `end` are included;
//! the degenerate case `start == end` yields the single point `start`.

use vstd::prelude::*;

use crate::geometry::chebyshev_spec;
use crate::geometry::point::Point;
use vstd::arithmetic::div_mod::lemma_fundamental_div_mod;
use vstd::arithmetic::div_mod::lemma_fundamental_div_mod_converse;
use vstd::arithmetic::div_mod::lemma_mod_bound;

verus! {

/// The offset of the `k`-th sample along an axis whose total displacement is
/// `d`, out of `n` samples: the truncation of `k * d / n + 1/2` (the sample
/// of the ideal segment between cell centers), as a floor division.
pub open spec fn interp_off(d: int, k: int, n: int) -> int {
    (2 * k * d + n) / (2 * n)
}

/// The points of the vector line from `start` to `end`, in marching order.
pub open spec fn vector_pts(start: Point, end: Point) -> Seq<(int, int)> {
    let sx = start.x as int;
    let sy = start.y as int;
    let n = chebyshev_spec((sx, sy), (end.x as int, end.y as int)) as int;
    if n == 0 {
        seq![(sx, sy)]
    } else {
        Seq::new(
            (n + 1) as nat,
            |k: int|
                (
                    sx + interp_off(end.x - start.x, k, n),
                    sy + interp_off(end.y - start.y, k, n),
                ),
        )
    }
}

/// The sample offsets start at zero, end at the full displacement, and never
/// overshoot it in either direction.
pub proof fn lemma_interp_off_bounds(d: int, k: int, n: int)
    requires
        1 <= n,
        0 <= k <= n,
    ensures
        d >= 0 ==> 0 <= interp_off(d, k, n) <= d,
        d < 0 ==> d <= interp_off(d, k, n) <= 0,
        k == 0 ==> interp_off(d, k, n) == 0,
        k == n ==> interp_off(d, k, n) == d,
{
    let m = 2 * n;
    let a = 2 * k * d + n;
    let q = a / m;
    let r = a % m;
    lemma_fundamental_div_mod(a, m);
    lemma_mod_bound(a, m);
    if k == 0 {
        assert(a == 0 * m + n) by (nonlinear_arith)
            requires
                a == 2 * k * d + n,
                k == 0,
                m == 2 * n,
        ;
        lemma_fundamental_div_mod_converse(a, m, 0, n);
    } else if k == n {
        assert(a == d * m + n) by (nonlinear_arith)
            requires
                a == 2 * k * d + n,
                k == n,
                m == 2 * n,
        ;
        lemma_fundamental_div_mod_converse(a, m, d, n);
    }
    if d >= 0 {
        assert(0 <= 2 * k * d <= 2 * n * d) by (nonlinear_arith)
            requires
                0 <= k <= n,
                d >= 0,
        ;
        assert(q >= 0) by (nonlinear_arith)
            requires
                a == m * q + r,
                0 <= r < m,
                a >= n,
                n >= 1,
                m == 2 * n,
        ;
        assert(q <= d) by (nonlinear_arith)
            requires
                a == m * q + r,
                0 <= r < m,
                a <= 2 * n * d + n,
                n >= 1,
                m == 2 * n,
                d >= 0,
        ;
    } else {
        assert(2 * n * d <= 2 * k * d <= 0) by (nonlinear_arith)
            requires
                0 <= k <= n,
                d < 0,
        ;
        assert(q <= 0) by (nonlinear_arith)
            requires
                a == m * q + r,
                0 <= r < m,
                a <= n,
                n >= 1,
                m == 2 * n,
        ;
        assert(q >= d) by (nonlinear_arith)
            requires
                a == m * q + r,
                0 <= r < m,
                a >= 2 * n * d + n,
                n >= 1,
                m == 2 * n,
                d < 0,
        ;
    }
}

/// Law: the vector line includes both endpoints exactly: its first point is
/// `start` and its last point is `end`, for any pair of points.
pub proof fn lemma_vector_line_contract(start: Point, end: Point)
    ensures
        ({
            let w = vector_pts(start, end);
            &&& w.len() >= 1
            &&& w[0] == (start.x as int, start.y as int)
            &&& w[w.len() - 1] == (end.x as int, end.y as int)
        }),
{
    let sx = start.x as int;
    let sy = start.y as int;
    let ex = end.x as int;
    let ey = end.y as int;
    let n = chebyshev_spec((sx, sy), (ex, ey)) as int;
    if n != 0 {
        lemma_interp_off_bounds(ex - sx, 0, n);
        lemma_interp_off_bounds(ey - sy, 0, n);
        lemma_interp_off_bounds(ex - sx, n, n);
        lemma_interp_off_bounds(ey - sy, n, n);
    }
}

/// Every point of the vector line lies within the Chebyshev reach of its
/// endpoints: no sample strays past `end`.
pub proof fn lemma_vector_line_within(start: Point, end: Point)
    ensures
        ({
            let w = vector_pts(start, end);
            forall|k: int|
                0 <= k < w.len() ==> chebyshev_spec(
                    (start.x as int, start.y as int),
                    #[trigger] w[k],
                ) <= chebyshev_spec(
                    (start.x as int, start.y as int),
                    (end.x as int, end.y as int),
                )
        }),
{
    let sx = start.x as int;
    let sy = start.y as int;
    let ex = end.x as int;
    let ey = end.y as int;
    let n = chebyshev_spec((sx, sy), (ex, ey)) as int;
    let w = vector_pts(start, end);
    if n != 0 {
        assert forall|k: int| 0 <= k < w.len() implies chebyshev_spec((sx, sy), #[trigger] w[k])
            <= n by {
            lemma_interp_off_bounds(ex - sx, k, n);
            lemma_interp_off_bounds(ey - sy, k, n);
        }
    }
}

/// Two consecutive sample offsets differ by at most one cell.
proof fn lemma_interp_off_step(d: int, k: int, n: int)
    requires
        1 <= n,
        0 <= k < n,
        -n <= d <= n,
    ensures
        interp_off(d, k, n) - 1 <= interp_off(d, k + 1, n) <= interp_off(d, k, n) + 1,
{
    let m = 2 * n;
    let a1 = 2 * k * d + n;
    let a2 = 2 * (k + 1) * d + n;
    lemma_fundamental_div_mod(a1, m);
    lemma_fundamental_div_mod(a2, m);
    lemma_mod_bound(a1, m);
    lemma_mod_bound(a2, m);
    assert(a2 == a1 + 2 * d) by (nonlinear_arith)
        requires
            a1 == 2 * k * d + n,
            a2 == 2 * (k + 1) * d + n,
    ;
    let q1 = a1 / m;
    let q2 = a2 / m;
    assert(-1 <= q2 - q1 <= 1) by (nonlinear_arith)
        requires
            a1 == m * q1 + (a1 % m),
            a2 == m * q2 + (a2 % m),
            0 <= a1 % m < m,
            0 <= a2 % m < m,
            a2 == a1 + 2 * d,
            -m <= 2 * d <= m,
            m >= 2,
    ;
}

/// Law: successive points of the vector line are at most one king-move
/// (Chebyshev distance 1) apart: each ray is a connected march of cells.
pub proof fn lemma_vector_line_connected(start: Point, end: Point)
    ensures
        ({
            let w = vector_pts(start, end);
            forall|k: int|
                0 <= k < w.len() - 1 ==> chebyshev_spec(#[trigger] w[k], w[k + 1]) <= 1
        }),
{
    let sx = start.x as int;
    let sy = start.y as int;
    let ex = end.x as int;
    let ey = end.y as int;
    let n = chebyshev_spec((sx, sy), (ex, ey)) as int;
    let w = vector_pts(start, end);
    if n != 0 {
        assert forall|k: int| 0 <= k < w.len() - 1 implies chebyshev_spec(
            #[trigger] w[k],
            w[k + 1],
        ) <= 1 by {
            lemma_interp_off_step(ex - sx, k, n);
            lemma_interp_off_step(ey - sy, k, n);
        }
    }
}

/// Marching-line iterator: yields the points of [`vector_pts`] in order.
pub struct VectorLine {
    sx: i64,
    sy: i64,
    dx: i64,
    dy: i64,
    n: i64,
    k: i64,
    start: Ghost<Point>,
    end: Ghost<Point>,
}

impl VectorLine {
    /// The endpoints this iterator was created for.
    pub closed spec fn endpoints(&self) -> (Point, Point) {
        (self.start@, self.end@)
    }

    /// The points not yet yielded.
    pub closed spec fn remaining(&self) -> Seq<(int, int)> {
        vector_pts(self.start@, self.end@).skip(self.k as int)
    }

    /// Internal consistency of the iterator state.
    pub closed spec fn wf(&self) -> bool {
        &&& self.sx == self.start@.x
        &&& self.sy == self.start@.y
        &&& self.dx == self.end@.x - self.start@.x
        &&& self.dy == self.end@.y - self.start@.y
        &&& self.n == chebyshev_spec(
            (self.start@.x as int, self.start@.y as int),
            (self.end@.x as int, self.end@.y as int),
        )
        &&& 0 <= self.k <= vector_pts(self.start@, self.end@).len()
    }

    /// Creates a new marching iterator from `start` to `end`.
    pub fn new(start: Point, end: Point) -> (l: VectorLine)
        ensures
            l.wf(),
            l.endpoints() == (start, end),
            l.remaining() == vector_pts(start, end),
    {
        let adx = if end.x >= start.x {
            end.x as i64 - start.x as i64
        } else {
            start.x as i64 - end.x as i64
        };
        let ady = if end.y >= start.y {
            end.y as i64 - start.y as i64
        } else {
            start.y as i64 - end.y as i64
        };
        let n = if adx >= ady {
            adx
        } else {
            ady
        };
        let l = VectorLine {
            sx: start.x as i64,
            sy: start.y as i64,
            dx: end.x as i64 - start.x as i64,
            dy: end.y as i64 - start.y as i64,
            n,
            k: 0,
            start: Ghost(start),
            end: Ghost(end),
        };
        proof {
            assert(l.remaining() =~= vector_pts(start, end));
        }
        l
    }

    /// Yields the next point of the march, or `None` once `end` has been
    /// produced.
    pub fn next(&mut self) -> (r: Option<Point>)
        requires
            old(self).wf(),
        ensures
            final(self).wf(),
            final(self).endpoints() == old(self).endpoints(),
            match r {
                None => old(self).remaining().len() == 0 && final(self).remaining().len() == 0,
                Some(p) => old(self).remaining().len() > 0 && (p.x as int, p.y as int)
                    == old(self).remaining()[0] && final(self).remaining() == old(
                    self,
                ).remaining().drop_first(),
            },
    {
        let ghost w = vector_pts(self.start@, self.end@);
        if self.n == 0 {
            if self.k == 0 {
                self.k = 1;
                let p = Point { x: self.sx as i32, y: self.sy as i32 };
                proof {
                    assert(self.remaining() =~= old(self).remaining().drop_first());
                }
                return Some(p);
            } else {
                return None;
            }
        }
        if self.k > self.n {
            return None;
        }
        proof {
            lemma_interp_off_bounds(self.dx as int, self.k as int, self.n as int);
            lemma_interp_off_bounds(self.dy as int, self.k as int, self.n as int);
        }
        let ox = interp_off_exec(self.dx, self.k, self.n);
        let oy = interp_off_exec(self.dy, self.k, self.n);
        let p = Point { x: (self.sx + ox) as i32, y: (self.sy + oy) as i32 };
        self.k = self.k + 1;
        proof {
            assert(w[old(self).k as int] == (
                self.start@.x + interp_off(self.dx as int, old(self).k as int, self.n as int),
                self.start@.y + interp_off(self.dy as int, old(self).k as int, self.n as int),
            ));
            assert(self.remaining() =~= old(self).remaining().drop_first());
        }
        Some(p)
    }
}

/// Computes [`interp_off`] exactly in integer arithmetic.
fn interp_off_exec(d: i64, k: i64, n: i64) -> (r: i64)
    requires
        1 <= n <= 0x1_0000_0000,
        0 <= k <= n,
        -0x1_0000_0000 <= d <= 0x1_0000_0000,
    ensures
        r == interp_off(d as int, k as int, n as int),
        d >= 0 ==> 0 <= r <= d,
        d < 0 ==> d <= r <= 0,
{
    proof {
        lemma_interp_off_bounds(d as int, k as int, n as int);
    }
    let m = 2 * (n as u128);
    if d >= 0 {
        proof {
            assert((k as u128) * (d as u128) <= 0x1_0000_0000 * 0x1_0000_0000)
                by (nonlinear_arith)
                requires
                    0 <= (k as u128) <= 0x1_0000_0000,
                    0 <= (d as u128) <= 0x1_0000_0000,
            ;
        }
        let kd = (k as u128) * (d as u128);
        let a = 2 * kd + (n as u128);
        let q = a / m;
        proof {
            assert(a as int == 2 * (k as int) * (d as int) + n) by (nonlinear_arith)
                requires
                    a == 2 * ((k as u128) * (d as u128)) + (n as u128),
                    d >= 0,
                    k >= 0,
                    n >= 1,
            ;
            assert(a as int / m as int == (2 * (k as int) * (d as int) + n) / (2 * (n as int)));
        }
        q as i64
    } else {
        // Floor division with a negative dividend, rewritten over
        // non-negative integers: floor((n - e) / m) == -floor((e + n - 1) / m)
        // where e = 2 * k * (-d).
        proof {
            assert((k as u128) * ((-d) as u128) <= 0x1_0000_0000 * 0x1_0000_0000)
                by (nonlinear_arith)
                requires
                    0 <= (k as u128) <= 0x1_0000_0000,
                    0 <= ((-d) as u128) <= 0x1_0000_0000,
            ;
        }
        let ke = (k as u128) * ((-d) as u128);
        let e = 2 * ke;
        let c = e + (n as u128) - 1;
        let qq = c / m;
        proof {
            let ei = 2 * (k as int) * ((-d) as int);
            assert(e as int == ei) by (nonlinear_arith)
                requires
                    e == 2 * ((k as u128) * ((-d) as u128)),
                    ei == 2 * (k as int) * ((-d) as int),
                    d < 0,
                    k >= 0,
            ;
            assert(ei >= 0) by (nonlinear_arith)
                requires
                    ei == 2 * (k as int) * ((-d) as int),
                    k >= 0,
                    d < 0,
            ;
            let a = 2 * (k as int) * (d as int) + n;
            assert(a == n as int - ei) by (nonlinear_arith)
                requires
                    ei == 2 * (k as int) * ((-d) as int),
                    a == 2 * (k as int) * (d as int) + n,
            ;
            let mi = 2 * (n as int);
            let q1 = a / mi;
            let r1 = a % mi;
            lemma_fundamental_div_mod(a, mi);
            lemma_mod_bound(a, mi);
            assert(c as int == (-q1) * mi + (mi - 1 - r1)) by (nonlinear_arith)
                requires
                    a == mi * q1 + r1,
                    a == n as int - ei,
                    c == ei + n - 1,
                    mi == 2 * (n as int),
            ;
            assert(0 <= mi - 1 - r1 < mi);
            lemma_fundamental_div_mod_converse(c as int, mi, -q1, mi - 1 - r1);
            assert(c as int / mi == -q1);
            assert(qq as int == c as int / (m as int));
        }
        let q = qq as i64;
        -q
    }
}

} // verus!
