//! Integer (Bresenham) line rasterization.
//!
//! The rasterizer normalizes the direction of the requested segment into the
//! first octant (x increasing fastest, y non-decreasing) with a sign/swap
//! transform, runs the canonical incremental-error walk there, and maps each
//! produced point back through the inverse transform. The walk includes the
//! start point and excludes the end point; callers append the end point when
//! a closed segment is required.

use vstd::prelude::*;

use crate::geometry::abs_diff_spec;
use crate::geometry::chebyshev_spec;
use crate::geometry::point::Point;

verus! {

/// The octant (0..8) that normalizes the direction `start -> end` so that
/// the transformed direction has `0 <= dy <= dx`.
pub open spec fn octant_of(sx: int, sy: int, ex: int, ey: int) -> int {
    let dx = ex - sx;
    let dy = ey - sy;
    let dx2 = if dy < 0 {
        -dx
    } else {
        dx
    };
    let dy2 = if dy < 0 {
        -dy
    } else {
        dy
    };
    let o1: int = if dy < 0 {
        4
    } else {
        0
    };
    let dx3 = if dx2 < 0 {
        dy2
    } else {
        dx2
    };
    let dy3 = if dx2 < 0 {
        -dx2
    } else {
        dy2
    };
    let o2: int = if dx2 < 0 {
        2
    } else {
        0
    };
    let o3: int = if dx3 < dy3 {
        1
    } else {
        0
    };
    o1 + o2 + o3
}

/// The sign/swap transform that carries a point into octant-0 coordinates.
pub open spec fn to_octant0(o: int, x: int, y: int) -> (int, int) {
    if o == 0 {
        (x, y)
    } else if o == 1 {
        (y, x)
    } else if o == 2 {
        (y, -x)
    } else if o == 3 {
        (-x, y)
    } else if o == 4 {
        (-x, -y)
    } else if o == 5 {
        (-y, -x)
    } else if o == 6 {
        (-y, x)
    } else {
        (x, -y)
    }
}

/// The inverse of [`to_octant0`].
pub open spec fn from_octant0(o: int, x: int, y: int) -> (int, int) {
    if o == 0 {
        (x, y)
    } else if o == 1 {
        (y, x)
    } else if o == 2 {
        (-y, x)
    } else if o == 3 {
        (-x, y)
    } else if o == 4 {
        (-x, -y)
    } else if o == 5 {
        (-y, -x)
    } else if o == 6 {
        (y, -x)
    } else {
        (x, -y)
    }
}

/// The points emitted by the octant-0 incremental-error walk from `(x, y)`
/// with error term `diff`, mapped back through octant `o`. The walk stops
/// (exclusively) at transformed x-coordinate `x1`.
pub open spec fn bres_walk(o: int, x: int, y: int, x1: int, dx: int, dy: int, diff: int) -> Seq<
    (int, int),
>
    decreases x1 - x,
{
    if x >= x1 {
        Seq::empty()
    } else {
        let stepped = diff >= 0;
        let y2 = if stepped {
            y + 1
        } else {
            y
        };
        let d2 = if stepped {
            diff - dx + dy
        } else {
            diff + dy
        };
        seq![from_octant0(o, x, y)] + bres_walk(o, x + 1, y2, x1, dx, dy, d2)
    }
}

/// The full integer line from `start` toward `end`: `start` included, `end`
/// excluded.
pub open spec fn bres_pts(start: Point, end: Point) -> Seq<(int, int)> {
    let o = octant_of(start.x as int, start.y as int, end.x as int, end.y as int);
    let s0 = to_octant0(o, start.x as int, start.y as int);
    let e0 = to_octant0(o, end.x as int, end.y as int);
    let dx = e0.0 - s0.0;
    let dy = e0.1 - s0.1;
    bres_walk(o, s0.0, s0.1, e0.0, dx, dy, dy - dx)
}

/// The view of a point vector as a sequence of integer pairs.
pub open spec fn view_pts(v: Seq<Point>) -> Seq<(int, int)> {
    v.map_values(|p: Point| (p.x as int, p.y as int))
}

/// The error-term invariant of the octant-0 walk: with `u` columns and `v`
/// rows left to cover, the error term tracks the ideal line to within one
/// cell, and the remaining slope never exceeds one row per column.
pub open spec fn bres_inv(x: int, y: int, x1: int, y1: int, dx: int, dy: int, diff: int) -> bool {
    let u = x1 - x;
    let v = y1 - y;
    &&& diff == v * dx - u * dy + dy - dx
    &&& -dx <= diff <= dy - 1
    &&& 0 <= v <= u
}

/// The transforms are mutually inverse.
proof fn lemma_octant_inverse(o: int, x: int, y: int)
    requires
        0 <= o < 8,
    ensures
        from_octant0(o, to_octant0(o, x, y).0, to_octant0(o, x, y).1) == (x, y),
        to_octant0(o, from_octant0(o, x, y).0, from_octant0(o, x, y).1) == (x, y),
{
}

/// The transforms preserve Chebyshev distance.
proof fn lemma_octant_chebyshev(o: int, a: (int, int), b: (int, int))
    requires
        0 <= o < 8,
    ensures
        chebyshev_spec(from_octant0(o, a.0, a.1), from_octant0(o, b.0, b.1)) == chebyshev_spec(
            a,
            b,
        ),
{
}

/// After normalization the direction satisfies `0 <= dy <= dx`.
proof fn lemma_octant_normalizes(sx: int, sy: int, ex: int, ey: int)
    ensures
        ({
            let o = octant_of(sx, sy, ex, ey);
            let s0 = to_octant0(o, sx, sy);
            let e0 = to_octant0(o, ex, ey);
            &&& 0 <= o < 8
            &&& 0 <= e0.1 - s0.1 <= e0.0 - s0.0
        }),
{
}

/// A point carried back from octant-0 coordinates lying between the two
/// transformed endpoints lies between the original endpoints, axis by axis.
proof fn lemma_octant_box(o: int, sx: int, sy: int, ex: int, ey: int, x: int, y: int)
    requires
        0 <= o < 8,
        to_octant0(o, sx, sy).0 <= x <= to_octant0(o, ex, ey).0,
        to_octant0(o, sx, sy).1 <= y <= to_octant0(o, ex, ey).1,
    ensures
        ({
            let p = from_octant0(o, x, y);
            &&& (sx <= p.0 <= ex || ex <= p.0 <= sx)
            &&& (sy <= p.1 <= ey || ey <= p.1 <= sy)
        }),
{
}

/// The walk from a well-formed state has one point per column: it starts at
/// the current position, never reaches the (exclusive) endpoint, advances by
/// exactly one king-move at a time, and ends one king-move short of the
/// endpoint.
proof fn lemma_walk_props(o: int, x: int, y: int, x1: int, y1: int, dx: int, dy: int, diff: int)
    requires
        0 <= o < 8,
        x < x1,
        1 <= dx,
        0 <= dy <= dx,
        bres_inv(x, y, x1, y1, dx, dy, diff),
    ensures
        ({
            let w = bres_walk(o, x, y, x1, dx, dy, diff);
            let e = from_octant0(o, x1, y1);
            &&& w.len() == x1 - x
            &&& w[0] == from_octant0(o, x, y)
            &&& (forall|i: int| 0 <= i < w.len() ==> w[i] != e)
            &&& (forall|i: int| 0 <= i < w.len() - 1 ==> chebyshev_spec(#[trigger] w[i], w[i + 1]) == 1)
            &&& chebyshev_spec(w[w.len() - 1], e) == 1
        }),
    decreases x1 - x,
{
    let u = x1 - x;
    let v = y1 - y;
    let stepped = diff >= 0;
    let y2: int = if stepped {
        y + 1
    } else {
        y
    };
    let d2: int = if stepped {
        diff - dx + dy
    } else {
        diff + dy
    };
    let w = bres_walk(o, x, y, x1, dx, dy, diff);
    let e = from_octant0(o, x1, y1);
    lemma_octant_inverse(o, x, y);
    lemma_octant_inverse(o, x1, y1);
    assert(w[0] == from_octant0(o, x, y));
    assert(w[0] != e);
    if stepped {
        assert(v >= 1) by (nonlinear_arith)
            requires
                diff == v * dx - u * dy + dy - dx,
                diff >= 0,
                u >= 1,
                0 <= dy <= dx,
                1 <= dx,
                0 <= v <= u,
        ;
    }
    if u == 1 {
        assert(-dx <= (v - 1) * dx <= dx - 1) by (nonlinear_arith)
            requires
                diff == v * dx - u * dy + dy - dx,
                u == 1,
                -dx <= diff <= dy - 1,
                0 <= dy <= dx,
                1 <= dx,
        ;
        assert(0 <= v <= 1) by (nonlinear_arith)
            requires
                -dx <= (v - 1) * dx <= dx - 1,
                1 <= dx,
                0 <= v,
        ;
        lemma_octant_chebyshev(o, (x, y), (x1, y1));
        assert(chebyshev_spec((x, y), (x1, y1)) == 1);
        assert(w =~= seq![from_octant0(o, x, y)]);
    } else {
        if stepped {
            assert(d2 == (v - 1) * dx - (u - 1) * dy + dy - dx) by (nonlinear_arith)
                requires
                    diff == v * dx - u * dy + dy - dx,
                    d2 == diff - dx + dy,
            ;
        } else {
            assert(v <= u - 1) by (nonlinear_arith)
                requires
                    diff == v * dx - u * dy + dy - dx,
                    diff < 0,
                    u >= 2,
                    0 <= dy <= dx,
                    1 <= dx,
                    0 <= v <= u,
            ;
            assert(d2 == v * dx - (u - 1) * dy + dy - dx) by (nonlinear_arith)
                requires
                    diff == v * dx - u * dy + dy - dx,
                    d2 == diff + dy,
            ;
        }
        assert(bres_inv(x + 1, y2, x1, y1, dx, dy, d2));
        lemma_walk_props(o, x + 1, y2, x1, y1, dx, dy, d2);
        let wr = bres_walk(o, x + 1, y2, x1, dx, dy, d2);
        assert(w =~= seq![from_octant0(o, x, y)] + wr);
        assert(w.len() == 1 + wr.len());
        assert(forall|i: int| 0 <= i < wr.len() ==> w[i + 1] == wr[i]);
        lemma_octant_chebyshev(o, (x, y), (x + 1, y2));
        assert(chebyshev_spec((x, y), (x + 1, y2)) == 1);
        assert(w[1] == wr[0]);
        assert forall|i: int| 0 <= i < w.len() - 1 implies chebyshev_spec(#[trigger] w[i], w[i + 1])
            == 1 by {
            if i == 0 {
                assert(chebyshev_spec(w[0], w[1]) == 1);
            } else {
                assert(w[i] == wr[i - 1] && w[i + 1] == wr[i]);
                assert(chebyshev_spec(wr[i - 1], wr[i]) == 1);
            }
        }
        assert forall|i: int| 0 <= i < w.len() implies w[i] != e by {
            if i > 0 {
                assert(w[i] == wr[i - 1]);
            }
        }
        assert(w[w.len() - 1] == wr[wr.len() - 1]);
    }
}

/// Law: for two distinct points, the integer line from `start` to `end`
/// begins at `start` and never contains `end`; appending `end` yields a
/// sequence whose successive points are each exactly one king-move
/// (Chebyshev distance 1) apart.
pub proof fn lemma_bresenham_line_contract(start: Point, end: Point)
    requires
        start != end,
    ensures
        ({
            let w = bres_pts(start, end);
            let closed = w + seq![(end.x as int, end.y as int)];
            &&& w.len() >= 1
            &&& w[0] == (start.x as int, start.y as int)
            &&& (forall|i: int| 0 <= i < w.len() ==> w[i] != (end.x as int, end.y as int))
            &&& (forall|i: int|
                0 <= i < closed.len() - 1 ==> chebyshev_spec(#[trigger] closed[i], closed[i + 1]) == 1)
        }),
{
    let sx = start.x as int;
    let sy = start.y as int;
    let ex = end.x as int;
    let ey = end.y as int;
    let o = octant_of(sx, sy, ex, ey);
    let s0 = to_octant0(o, sx, sy);
    let e0 = to_octant0(o, ex, ey);
    let dx = e0.0 - s0.0;
    let dy = e0.1 - s0.1;
    lemma_octant_normalizes(sx, sy, ex, ey);
    lemma_octant_inverse(o, sx, sy);
    lemma_octant_inverse(o, ex, ey);
    assert(s0 != e0);
    assert(dx >= 1);
    assert(dy * dx - dx * dy == 0) by (nonlinear_arith);
    assert(bres_inv(s0.0, s0.1, e0.0, e0.1, dx, dy, dy - dx));
    lemma_walk_props(o, s0.0, s0.1, e0.0, e0.1, dx, dy, dy - dx);
    let w = bres_pts(start, end);
    let closed = w + seq![(ex, ey)];
    assert(w == bres_walk(o, s0.0, s0.1, e0.0, dx, dy, dy - dx));
    assert(from_octant0(o, s0.0, s0.1) == (sx, sy));
    assert(from_octant0(o, e0.0, e0.1) == (ex, ey));
    assert forall|i: int| 0 <= i < closed.len() - 1 implies chebyshev_spec(
        #[trigger] closed[i],
        closed[i + 1],
    ) == 1 by {
        if i < w.len() - 1 {
            assert(closed[i] == w[i] && closed[i + 1] == w[i + 1]);
        } else {
            assert(closed[i] == w[w.len() - 1] && closed[i + 1] == (ex, ey));
        }
    }
}

/// The inverse transform is additive in its coordinates.
proof fn lemma_from_octant0_linear(o: int, ax: int, ay: int, bx: int, by: int)
    requires
        0 <= o < 8,
    ensures
        from_octant0(o, ax + bx, ay + by) == (
            from_octant0(o, ax, ay).0 + from_octant0(o, bx, by).0,
            from_octant0(o, ax, ay).1 + from_octant0(o, bx, by).1,
        ),
{
}

/// A walk with no rise never steps off its row: it yields one point per
/// column, all at the starting height.
proof fn lemma_walk_flat(o: int, x: int, y: int, x1: int, dx: int, diff: int)
    requires
        0 <= o < 8,
        diff < 0,
        x <= x1,
    ensures
        ({
            let w = bres_walk(o, x, y, x1, dx, 0, diff);
            &&& w.len() == x1 - x
            &&& forall|i: int| 0 <= i < w.len() ==> #[trigger] w[i] == from_octant0(o, x + i, y)
        }),
    decreases x1 - x,
{
    if x < x1 {
        lemma_walk_flat(o, x + 1, y, x1, dx, diff);
        let w = bres_walk(o, x, y, x1, dx, 0, diff);
        let wr = bres_walk(o, x + 1, y, x1, dx, 0, diff);
        assert(w =~= seq![from_octant0(o, x, y)] + wr);
        assert forall|i: int| 0 <= i < w.len() implies #[trigger] w[i] == from_octant0(
            o,
            x + i,
            y,
        ) by {
            if i > 0 {
                assert(w[i] == wr[i - 1]);
            }
        }
    }
}

/// A diagonal walk steps off its row at every column: it yields one point
/// per column, each one row higher than the last.
proof fn lemma_walk_diag(o: int, x: int, y: int, x1: int, dx: int, diff: int)
    requires
        0 <= o < 8,
        diff >= 0,
        x <= x1,
    ensures
        ({
            let w = bres_walk(o, x, y, x1, dx, dx, diff);
            &&& w.len() == x1 - x
            &&& forall|i: int|
                0 <= i < w.len() ==> #[trigger] w[i] == from_octant0(o, x + i, y + i)
        }),
    decreases x1 - x,
{
    if x < x1 {
        lemma_walk_diag(o, x + 1, y + 1, x1, dx, diff);
        let w = bres_walk(o, x, y, x1, dx, dx, diff);
        let wr = bres_walk(o, x + 1, y + 1, x1, dx, dx, diff);
        assert(w =~= seq![from_octant0(o, x, y)] + wr);
        assert forall|i: int| 0 <= i < w.len() implies #[trigger] w[i] == from_octant0(
            o,
            x + i,
            y + i,
        ) by {
            if i > 0 {
                assert(w[i] == wr[i - 1]);
            }
        }
    }
}

/// For a clean segment (axis-aligned or exactly diagonal), the closed line
/// toward `b` covers exactly the cells `a + k * u` for `0 <= k <= n`, where
/// `n` is the segment's Chebyshev length and `u = (b - a) / n` the unit step.
proof fn lemma_clean_closed_line(a: Point, b: Point, ux: int, uy: int)
    requires
        a != b,
        a.x == b.x || a.y == b.y || abs_diff_spec(a.x as int, b.x as int) == abs_diff_spec(
            a.y as int,
            b.y as int,
        ),
        b.x - a.x == chebyshev_spec((a.x as int, a.y as int), (b.x as int, b.y as int)) * ux,
        b.y - a.y == chebyshev_spec((a.x as int, a.y as int), (b.x as int, b.y as int)) * uy,
    ensures
        ({
            let n = chebyshev_spec((a.x as int, a.y as int), (b.x as int, b.y as int)) as int;
            let closed = bres_pts(a, b) + seq![(b.x as int, b.y as int)];
            &&& closed.len() == n + 1
            &&& forall|k: int|
                0 <= k <= n ==> #[trigger] closed[k] == (a.x + k * ux, a.y + k * uy)
        }),
{
    let ax = a.x as int;
    let ay = a.y as int;
    let bx = b.x as int;
    let by = b.y as int;
    let n = chebyshev_spec((ax, ay), (bx, by)) as int;
    let o = octant_of(ax, ay, bx, by);
    let s0 = to_octant0(o, ax, ay);
    let e0 = to_octant0(o, bx, by);
    let dx = e0.0 - s0.0;
    let dy = e0.1 - s0.1;
    lemma_octant_normalizes(ax, ay, bx, by);
    lemma_octant_inverse(o, ax, ay);
    lemma_octant_inverse(o, bx, by);
    assert(dx >= 1);
    assert(dx == n && (dy == 0 || dy == dx));
    let w = bres_pts(a, b);
    let d = if dy == 0 {
        (1, 0)
    } else {
        (1, 1)
    };
    if dy == 0 {
        lemma_walk_flat(o, s0.0, s0.1, e0.0, dx, -dx);
    } else {
        lemma_walk_diag(o, s0.0, s0.1, e0.0, dx, 0);
    }
    let u = from_octant0(o, d.0, d.1);
    let closed = w + seq![(bx, by)];
    assert forall|k: int| 0 <= k <= n implies #[trigger] closed[k] == (ax + k * ux, ay + k
        * uy) by {
        assert(closed[k] == from_octant0(o, s0.0 + k, s0.1 + k * d.1)) by {
            if k < n {
                assert(w[k] == from_octant0(o, s0.0 + k, if dy == 0 {
                    s0.1
                } else {
                    s0.1 + k
                }));
                assert(k * d.1 == (if dy == 0 {
                    0int
                } else {
                    k
                })) by (nonlinear_arith)
                    requires
                        d.1 == (if dy == 0 {
                            0int
                        } else {
                            1int
                        }),
                ;
            } else {
                assert(closed[k] == (bx, by));
                assert(e0.0 == s0.0 + n);
                assert(e0.1 == s0.1 + n * d.1) by (nonlinear_arith)
                    requires
                        e0.1 == s0.1 + dy,
                        d.1 == (if dy == 0 {
                            0int
                        } else {
                            1int
                        }),
                        dy == 0 || dy == n,
                ;
            }
        }
        lemma_from_octant0_linear(o, s0.0, s0.1, k, k * d.1);
        assert(from_octant0(o, k * d.0, k * d.1) == (k * u.0, k * u.1)) by {
            lemma_octant_scale(o, d.0, d.1, k);
        }
        assert(k * d.0 == k) by (nonlinear_arith)
            requires
                d.0 == 1,
        ;
        assert((b.x - a.x) as int == n * u.0 && (b.y - a.y) as int == n * u.1) by {
            lemma_from_octant0_linear(o, s0.0, s0.1, n, n * d.1);
            lemma_octant_scale(o, d.0, d.1, n);
            assert(e0.0 == s0.0 + n);
            assert(e0.1 == s0.1 + n * d.1) by (nonlinear_arith)
                requires
                    e0.1 == s0.1 + dy,
                    d.1 == (if dy == 0 {
                        0int
                    } else {
                        1int
                    }),
                    dy == 0 || dy == n,
            ;
        }
        assert(u.0 == ux && u.1 == uy) by (nonlinear_arith)
            requires
                n * u.0 == n * ux,
                n * u.1 == n * uy,
                n >= 1,
        ;
    }
}

/// Scaling commutes with the inverse transform.
proof fn lemma_octant_scale(o: int, x: int, y: int, k: int)
    requires
        0 <= o < 8,
    ensures
        from_octant0(o, k * x, k * y) == (
            k * from_octant0(o, x, y).0,
            k * from_octant0(o, x, y).1,
        ),
{
    assert(from_octant0(o, k * x, k * y) == (k * from_octant0(o, x, y).0, k * from_octant0(
        o,
        x,
        y,
    ).1)) by (nonlinear_arith)
        requires
            0 <= o < 8,
            from_octant0(o, k * x, k * y) == (if o == 0 {
                (k * x, k * y)
            } else if o == 1 {
                (k * y, k * x)
            } else if o == 2 {
                (-(k * y), k * x)
            } else if o == 3 {
                (-(k * x), k * y)
            } else if o == 4 {
                (-(k * x), -(k * y))
            } else if o == 5 {
                (-(k * y), -(k * x))
            } else if o == 6 {
                (k * y, -(k * x))
            } else {
                (k * x, -(k * y))
            }),
            from_octant0(o, x, y) == (if o == 0 {
                (x, y)
            } else if o == 1 {
                (y, x)
            } else if o == 2 {
                (-y, x)
            } else if o == 3 {
                (-x, y)
            } else if o == 4 {
                (-x, -y)
            } else if o == 5 {
                (-y, -x)
            } else if o == 6 {
                (y, -x)
            } else {
                (x, -y)
            }),
    ;
}

/// Law (restricted to clean slopes): for two distinct points on a common
/// row, a common column, or an exact diagonal, the integer line from `a` to
/// `b` and the integer line from `b` to `a` cover the same cells once each
/// line's missing endpoint is appended. On other slopes the two directions
/// may round a half-cell tie differently and the sets can differ.
pub proof fn lemma_bresenham_reverse_clean(a: Point, b: Point)
    requires
        a != b,
        a.x == b.x || a.y == b.y || abs_diff_spec(a.x as int, b.x as int) == abs_diff_spec(
            a.y as int,
            b.y as int,
        ),
    ensures
        (bres_pts(a, b) + seq![(b.x as int, b.y as int)]).to_set() == (bres_pts(b, a) + seq![
            (a.x as int, a.y as int),
        ]).to_set(),
{
    let ax = a.x as int;
    let ay = a.y as int;
    let bx = b.x as int;
    let by = b.y as int;
    let n = chebyshev_spec((ax, ay), (bx, by)) as int;
    let ux: int = if bx > ax {
        1
    } else if bx < ax {
        -1
    } else {
        0
    };
    let uy: int = if by > ay {
        1
    } else if by < ay {
        -1
    } else {
        0
    };
    assert(bx - ax == n * ux && by - ay == n * uy) by (nonlinear_arith)
        requires
            n == chebyshev_spec((ax, ay), (bx, by)),
            chebyshev_spec((ax, ay), (bx, by)) == chebyshev_spec((bx, by), (ax, ay)),
            ax == bx || ay == by || abs_diff_spec(ax, bx) == abs_diff_spec(ay, by),
            abs_diff_spec(ax, bx) == (if ax >= bx {
                ax - bx
            } else {
                bx - ax
            }),
            abs_diff_spec(ay, by) == (if ay >= by {
                ay - by
            } else {
                by - ay
            }),
            chebyshev_spec((ax, ay), (bx, by)) == (if abs_diff_spec(ax, bx) >= abs_diff_spec(
                ay,
                by,
            ) {
                abs_diff_spec(ax, bx)
            } else {
                abs_diff_spec(ay, by)
            }),
            ux == (if bx > ax {
                1int
            } else if bx < ax {
                -1int
            } else {
                0int
            }),
            uy == (if by > ay {
                1int
            } else if by < ay {
                -1int
            } else {
                0int
            }),
    ;
    lemma_clean_closed_line(a, b, ux, uy);
    assert(ax - bx == n * (-ux) && ay - by == n * (-uy)) by (nonlinear_arith)
        requires
            bx - ax == n * ux && by - ay == n * uy,
    ;
    lemma_clean_closed_line(b, a, -ux, -uy);
    let fwd = bres_pts(a, b) + seq![(bx, by)];
    let bwd = bres_pts(b, a) + seq![(ax, ay)];
    assert forall|p: (int, int)| fwd.to_set().contains(p) implies bwd.to_set().contains(p) by {
        let k = choose|k: int| 0 <= k < fwd.len() && fwd[k] == p;
        assert(fwd[k] == (ax + k * ux, ay + k * uy));
        assert(bwd[n - k] == (bx + (n - k) * (-ux), by + (n - k) * (-uy)));
        assert(bx + (n - k) * (-ux) == ax + k * ux && by + (n - k) * (-uy) == ay + k * uy)
            by (nonlinear_arith)
            requires
                bx - ax == n * ux && by - ay == n * uy,
        ;
        assert(bwd.contains(p));
    }
    assert forall|p: (int, int)| bwd.to_set().contains(p) implies fwd.to_set().contains(p) by {
        let k = choose|k: int| 0 <= k < bwd.len() && bwd[k] == p;
        assert(bwd[k] == (bx + k * (-ux), by + k * (-uy)));
        assert(fwd[n - k] == (ax + (n - k) * ux, ay + (n - k) * uy));
        assert(ax + (n - k) * ux == bx + k * (-ux) && ay + (n - k) * uy == by + k * (-uy))
            by (nonlinear_arith)
            requires
                bx - ax == n * ux && by - ay == n * uy,
        ;
        assert(fwd.contains(p));
    }
    assert(fwd.to_set() =~= bwd.to_set());
}

/// Line-drawing iterator for the integer (Bresenham) algorithm. Yields the
/// points of the segment in order, including `start` and excluding `end`.
pub struct Bresenham {
    x: i64,
    y: i64,
    dx: i64,
    dy: i64,
    x1: i64,
    diff: i64,
    octant: u8,
    start: Ghost<Point>,
    end: Ghost<Point>,
}

impl Bresenham {
    /// The endpoints this iterator was created for.
    pub closed spec fn endpoints(&self) -> (Point, Point) {
        (self.start@, self.end@)
    }

    /// The points not yet yielded.
    pub closed spec fn remaining(&self) -> Seq<(int, int)> {
        bres_walk(
            self.octant as int,
            self.x as int,
            self.y as int,
            self.x1 as int,
            self.dx as int,
            self.dy as int,
            self.diff as int,
        )
    }

    /// Internal consistency of the iterator state.
    pub closed spec fn wf(&self) -> bool {
        let o = octant_of(self.start@.x as int, self.start@.y as int, self.end@.x as int, self.end@.y as int);
        let s0 = to_octant0(o, self.start@.x as int, self.start@.y as int);
        let e0 = to_octant0(o, self.end@.x as int, self.end@.y as int);
        &&& self.octant == o
        &&& self.dx == e0.0 - s0.0
        &&& self.dy == e0.1 - s0.1
        &&& self.x1 == e0.0
        &&& 0 <= self.dy <= self.dx
        &&& s0.0 <= self.x <= self.x1
        &&& s0.1 <= self.y <= e0.1
        &&& (self.x < self.x1 ==> bres_inv(
            self.x as int,
            self.y as int,
            self.x1 as int,
            e0.1,
            self.dx as int,
            self.dy as int,
            self.diff as int,
        ))
    }

    /// Creates a new iterator. Yields intermediate points between `start`
    /// and `end`; includes `start` but not `end`.
    pub fn new(start: Point, end: Point) -> (b: Bresenham)
        ensures
            b.wf(),
            b.endpoints() == (start, end),
            b.remaining() == bres_pts(start, end),
    {
        let sx = start.x as i64;
        let sy = start.y as i64;
        let ex = end.x as i64;
        let ey = end.y as i64;

        let mut tdx = ex - sx;
        let mut tdy = ey - sy;
        let mut octant: u8 = 0;
        if tdy < 0 {
            tdx = -tdx;
            tdy = -tdy;
            octant += 4;
        }
        if tdx < 0 {
            let tmp = tdx;
            tdx = tdy;
            tdy = -tmp;
            octant += 2;
        }
        if tdx < tdy {
            octant += 1;
        }
        proof {
            assert(octant as int == octant_of(sx as int, sy as int, ex as int, ey as int));
            lemma_octant_normalizes(sx as int, sy as int, ex as int, ey as int);
        }

        let (x0, y0) = apply_to_octant0(octant, sx, sy);
        let (x1, y1) = apply_to_octant0(octant, ex, ey);
        let dx = x1 - x0;
        let dy = y1 - y0;
        let b = Bresenham {
            x: x0,
            y: y0,
            dx,
            dy,
            x1,
            diff: dy - dx,
            octant,
            start: Ghost(start),
            end: Ghost(end),
        };
        proof {
            if b.x < b.x1 {
                assert(dy as int * dx as int == dx as int * dy as int) by (nonlinear_arith);
            }
        }
        b
    }

    /// Yields the next point of the segment, or `None` once the (exclusive)
    /// end has been reached.
    pub fn next(&mut self) -> (r: Option<Point>)
        requires
            old(self).wf(),
        ensures
            final(self).wf(),
            final(self).endpoints() == old(self).endpoints(),
            match r {
                None => old(self).remaining().len() == 0 && final(self).remaining().len() == 0,
                Some(p) => old(self).remaining().len() > 0 && (p.x as int, p.y as int)
                    == old(self).remaining()[0] && final(self).remaining() == old(
                    self,
                ).remaining().drop_first(),
            },
    {
        if self.x >= self.x1 {
            return None;
        }
        let ghost o = self.octant as int;
        let ghost sx = self.start@.x as int;
        let ghost sy = self.start@.y as int;
        let ghost ex = self.end@.x as int;
        let ghost ey = self.end@.y as int;
        let ghost s0 = to_octant0(o, sx, sy);
        let ghost e0 = to_octant0(o, ex, ey);
        let ghost u = self.x1 as int - self.x as int;
        let ghost v = e0.1 - self.y as int;
        let ghost dxg = self.dx as int;
        let ghost dyg = self.dy as int;
        let ghost diffg = self.diff as int;

        let px = self.x;
        let py = self.y;
        let stepped = self.diff >= 0;
        if stepped {
            proof {
                assert(v >= 1) by (nonlinear_arith)
                    requires
                        diffg == v * dxg - u * dyg + dyg - dxg,
                        diffg >= 0,
                        u >= 1,
                        0 <= dyg <= dxg,
                        1 <= dxg,
                        0 <= v <= u,
                ;
            }
            self.y = self.y + 1;
            self.diff = self.diff - self.dx;
        }
        self.diff = self.diff + self.dy;
        self.x = self.x + 1;
        proof {
            if self.x < self.x1 {
                if stepped {
                    assert(self.diff as int == (v - 1) * dxg - (u - 1) * dyg + dyg - dxg)
                        by (nonlinear_arith)
                        requires
                            diffg == v * dxg - u * dyg + dyg - dxg,
                            self.diff as int == diffg - dxg + dyg,
                    ;
                } else {
                    assert(v <= u - 1) by (nonlinear_arith)
                        requires
                            diffg == v * dxg - u * dyg + dyg - dxg,
                            diffg < 0,
                            u >= 2,
                            0 <= dyg <= dxg,
                            1 <= dxg,
                            0 <= v <= u,
                    ;
                    assert(self.diff as int == v * dxg - (u - 1) * dyg + dyg - dxg)
                        by (nonlinear_arith)
                        requires
                            diffg == v * dxg - u * dyg + dyg - dxg,
                            self.diff as int == diffg + dyg,
                    ;
                }
            }
            lemma_octant_box(o, sx, sy, ex, ey, px as int, py as int);
            lemma_octant_normalizes(sx, sy, ex, ey);
        }
        let (rx, ry) = apply_from_octant0(self.octant, px, py);
        let p = Point { x: rx as i32, y: ry as i32 };
        proof {
            assert(old(self).remaining() =~= seq![from_octant0(o, px as int, py as int)]
                + self.remaining());
            assert(self.remaining() =~= old(self).remaining().drop_first());
        }
        Some(p)
    }
}

/// Applies the octant normalization transform to a coordinate pair.
fn apply_to_octant0(o: u8, x: i64, y: i64) -> (r: (i64, i64))
    requires
        o < 8,
        -0x8000_0000 <= x <= 0x8000_0000,
        -0x8000_0000 <= y <= 0x8000_0000,
    ensures
        (r.0 as int, r.1 as int) == to_octant0(o as int, x as int, y as int),
        -0x8000_0000 <= r.0 <= 0x8000_0000,
        -0x8000_0000 <= r.1 <= 0x8000_0000,
{
    match o {
        0 => (x, y),
        1 => (y, x),
        2 => (y, -x),
        3 => (-x, y),
        4 => (-x, -y),
        5 => (-y, -x),
        6 => (-y, x),
        _ => (x, -y),
    }
}

/// Applies the inverse octant transform to a coordinate pair.
fn apply_from_octant0(o: u8, x: i64, y: i64) -> (r: (i64, i64))
    requires
        o < 8,
        -0x8000_0000 <= x <= 0x8000_0000,
        -0x8000_0000 <= y <= 0x8000_0000,
    ensures
        (r.0 as int, r.1 as int) == from_octant0(o as int, x as int, y as int),
        -0x8000_0000 <= r.0 <= 0x8000_0000,
        -0x8000_0000 <= r.1 <= 0x8000_0000,
{
    match o {
        0 => (x, y),
        1 => (y, x),
        2 => (-y, x),
        3 => (-x, y),
        4 => (-x, -y),
        5 => (-y, -x),
        6 => (y, -x),
        _ => (x, -y),
    }
}

} // verus!
