//! A simple rectangular grid map.
//!
//! A ready-made implementation of the map capability interface: a
//! `width x height` grid of tiles stored row-major, where an opaque tile
//! both blocks sight and cannot be entered. Movement is eight-way with unit
//! cost, and the pathing distance is the Chebyshev metric, which never
//! overestimates the true remaining cost on such a grid.

use vstd::prelude::*;

use crate::geometry::DistanceAlg;
use crate::geometry::chebyshev_spec;
use crate::geometry::point::Point;
use crate::pathfinding::Algorithm2D;
use crate::pathfinding::BaseMap;
use crate::pathfinding::heuristic_consistent;
use crate::pathfinding::is_costed_path;
use vstd::arithmetic::div_mod::lemma_fundamental_div_mod_converse;

verus! {

/// A rectangular grid of tiles, stored row-major; `opaque[y * width + x]`
/// is true for wall tiles.
pub struct GridMap {
    /// Number of columns.
    pub width: i32,
    /// Number of rows.
    pub height: i32,
    /// Wall flags, one per tile, row-major.
    pub opaque: Vec<bool>,
}

impl GridMap {
    /// Well-formed dimensions: positive extents, a tile count that fits an
    /// index, and one wall flag per tile.
    pub open spec fn wf_dims(&self) -> bool {
        &&& 1 <= self.width
        &&& 1 <= self.height
        &&& self.width * self.height <= i32::MAX
        &&& self.opaque@.len() == self.width * self.height
    }

    /// Whether `idx` denotes a tile of the grid.
    pub open spec fn valid_idx(&self, idx: i32) -> bool {
        0 <= idx < self.width * self.height
    }

    /// The exit through offset `(dx, dy)` from the tile at `idx`: a single
    /// unit-cost edge if the neighbor exists and is not a wall, else
    /// nothing.
    pub open spec fn dir_exit(&self, idx: i32, dx: int, dy: int) -> Seq<(i32, u64)> {
        let p = self.spec_i2p(idx);
        let qx = p.x + dx;
        let qy = p.y + dy;
        if self.wf_dims() && self.valid_idx(idx) && 0 <= qx < self.width && 0 <= qy < self.height
            && !self.opaque@[qy * self.width + qx] {
            seq![((qy * self.width + qx) as i32, 1u64)]
        } else {
            Seq::empty()
        }
    }

    /// Creates an all-open grid of the given dimensions.
    pub fn new(width: i32, height: i32) -> (m: GridMap)
        requires
            1 <= width,
            1 <= height,
            width * height <= i32::MAX,
        ensures
            m.wf_dims(),
            m.width == width,
            m.height == height,
            forall|i: int| 0 <= i < m.opaque@.len() ==> !(#[trigger] m.opaque@[i]),
    {
        let total = (width as i64 * height as i64) as usize;
        let mut opaque: Vec<bool> = Vec::new();
        let mut i: usize = 0;
        while i < total
            invariant
                0 <= i <= total,
                opaque@.len() == i,
                forall|k: int| 0 <= k < i ==> !(#[trigger] opaque@[k]),
            decreases total - i,
        {
            opaque.push(false);
            i += 1;
        }
        GridMap { width, height, opaque }
    }

    /// Sets or clears the wall flag of the tile at `(x, y)`; a no-op for
    /// out-of-range coordinates.
    pub fn set_opaque(&mut self, x: i32, y: i32, v: bool)
        ensures
            final(self).width == old(self).width,
            final(self).height == old(self).height,
            ({
                let m = *old(self);
                if m.wf_dims() && 0 <= x < m.width && 0 <= y < m.height {
                    final(self).opaque@ == m.opaque@.update(y * m.width + x, v)
                } else {
                    final(self).opaque@ == m.opaque@
                }
            }),
    {
        if self.dims_ok() && x >= 0 && x < self.width && y >= 0 && y < self.height {
            proof {
                assert(0 <= y * self.width + x < self.width * self.height) by (nonlinear_arith)
                    requires
                        0 <= x < self.width,
                        0 <= y < self.height,
                ;
            }
            let idx = (y as i64 * self.width as i64 + x as i64) as usize;
            self.opaque[idx] = v;
        }
    }

    /// Whether the grid's dimensions are well formed.
    pub fn dims_ok(&self) -> (r: bool)
        ensures
            r == self.wf_dims(),
    {
        if self.width >= 1 && self.height >= 1 {
            proof {
                assert(1 <= (self.width as int) * (self.height as int)
                    <= 0x4000_0000_0000_0000) by (nonlinear_arith)
                    requires
                        1 <= self.width <= 0x7fff_ffff,
                        1 <= self.height <= 0x7fff_ffff,
                ;
            }
            let prod = (self.width as i64) * (self.height as i64);
            prod <= i32::MAX as i64 && self.opaque.len() == prod as usize
        } else {
            false
        }
    }

    /// Spec-level view of [`Algorithm2D::index_to_point2d`] for this grid.
    pub open spec fn spec_i2p(&self, idx: i32) -> Point {
        if self.wf_dims() && self.valid_idx(idx) {
            Point { x: ((idx as int) % (self.width as int)) as i32, y: ((idx as int) / (self.width as int)) as i32 }
        } else {
            Point { x: 0, y: 0 }
        }
    }

    /// Appends the exit through `(dx, dy)` from `idx`, if any, onto `r`.
    fn push_dir(&self, idx: i32, p: Point, dx: i32, dy: i32, r: &mut Vec<(i32, u64)>)
        requires
            self.wf_dims(),
            self.valid_idx(idx),
            p == self.spec_index_to_point2d(idx),
            -1 <= dx <= 1,
            -1 <= dy <= 1,
        ensures
            final(r)@ == old(r)@ + self.dir_exit(idx, dx as int, dy as int),
    {
        proof {
            assert(0 <= p.x < self.width && 0 <= p.y < self.height) by {
                assert(0 <= (idx as int) % (self.width as int) < self.width as int) by (nonlinear_arith)
                    requires
                        0 <= idx,
                        1 <= self.width,
                ;
                assert(0 <= (idx as int) / (self.width as int) < self.height as int) by (nonlinear_arith)
                    requires
                        0 <= idx < self.width * self.height,
                        1 <= self.width,
                        1 <= self.height,
                ;
            }
        }
        let qx = p.x + dx;
        let qy = p.y + dy;
        if qx >= 0 && qx < self.width && qy >= 0 && qy < self.height {
            proof {
                assert(0 <= qy * self.width + qx < self.width * self.height) by (nonlinear_arith)
                    requires
                        0 <= qx < self.width,
                        0 <= qy < self.height,
                        1 <= self.width,
                ;
            }
            let nidx = (qy as i64 * self.width as i64 + qx as i64) as usize;
            if !self.opaque[nidx] {
                r.push((nidx as i32, 1u64));
                proof {
                    assert(final(r)@ =~= old(r)@ + self.dir_exit(idx, dx as int, dy as int));
                }
                return ;
            }
        }
        proof {
            assert(final(r)@ =~= old(r)@ + self.dir_exit(idx, dx as int, dy as int));
        }
    }
}

impl BaseMap for GridMap {
    open spec fn spec_opaque(&self, idx: i32) -> bool {
        0 <= idx < self.opaque@.len() && self.opaque@[idx as int]
    }

    open spec fn spec_exits(&self, idx: i32) -> Seq<(i32, u64)> {
        self.dir_exit(idx, -1, 0) + self.dir_exit(idx, 1, 0) + self.dir_exit(idx, 0, -1)
            + self.dir_exit(idx, 0, 1) + self.dir_exit(idx, -1, -1) + self.dir_exit(idx, 1, -1)
            + self.dir_exit(idx, -1, 1) + self.dir_exit(idx, 1, 1)
    }

    open spec fn spec_pathing_distance(&self, idx1: i32, idx2: i32) -> u64 {
        let a = self.spec_i2p(idx1);
        let b = self.spec_i2p(idx2);
        chebyshev_spec((a.x as int, a.y as int), (b.x as int, b.y as int)) as u64
    }

    fn is_opaque(&self, idx: i32) -> (r: bool)
        ensures
            r == self.spec_opaque(idx),
    {
        idx >= 0 && (idx as usize) < self.opaque.len() && self.opaque[idx as usize]
    }

    fn get_available_exits(&self, idx: i32) -> (r: Vec<(i32, u64)>)
        ensures
            r@ == self.spec_exits(idx),
    {
        let mut r: Vec<(i32, u64)> = Vec::new();
        let total_ok = self.dims_ok();
        if total_ok && idx >= 0 && (idx as i64) < (self.width as i64) * (self.height as i64) {
            let p = self.index_to_point2d(idx);
            self.push_dir(idx, p, -1, 0, &mut r);
            self.push_dir(idx, p, 1, 0, &mut r);
            self.push_dir(idx, p, 0, -1, &mut r);
            self.push_dir(idx, p, 0, 1, &mut r);
            self.push_dir(idx, p, -1, -1, &mut r);
            self.push_dir(idx, p, 1, -1, &mut r);
            self.push_dir(idx, p, -1, 1, &mut r);
            self.push_dir(idx, p, 1, 1, &mut r);
            proof {
                assert(r@ =~= self.spec_exits(idx));
            }
        } else {
            proof {
                assert(r@ =~= self.spec_exits(idx));
            }
        }
        r
    }

    fn get_pathing_distance(&self, idx1: i32, idx2: i32) -> (r: u64)
        ensures
            r == self.spec_pathing_distance(idx1, idx2),
    {
        let a = self.index_to_point2d(idx1);
        let b = self.index_to_point2d(idx2);
        DistanceAlg::Chebyshev.distance2d(a, b)
    }
}

impl Algorithm2D for GridMap {
    open spec fn spec_point2d_to_index(&self, pt: Point) -> i32 {
        if self.wf_dims() && self.spec_in_bounds(pt) {
            (pt.y * self.width + pt.x) as i32
        } else {
            (-1) as i32
        }
    }

    open spec fn spec_index_to_point2d(&self, idx: i32) -> Point {
        self.spec_i2p(idx)
    }

    open spec fn spec_in_bounds(&self, pos: Point) -> bool {
        0 <= pos.x < self.width && 0 <= pos.y < self.height
    }

    fn point2d_to_index(&self, pt: Point) -> (r: i32)
        ensures
            r == self.spec_point2d_to_index(pt),
    {
        if self.dims_ok() && pt.x >= 0 && pt.x < self.width && pt.y >= 0 && pt.y < self.height {
            proof {
                assert(0 <= pt.y * self.width + pt.x < self.width * self.height)
                    by (nonlinear_arith)
                    requires
                        0 <= pt.x < self.width,
                        0 <= pt.y < self.height,
                        1 <= self.width,
                ;
            }
            (pt.y as i64 * self.width as i64 + pt.x as i64) as i32
        } else {
            -1
        }
    }

    fn index_to_point2d(&self, idx: i32) -> (r: Point)
        ensures
            r == self.spec_index_to_point2d(idx),
    {
        if self.dims_ok() && idx >= 0 && (idx as i64) < (self.width as i64) * (self.height
            as i64) {
            let x = (idx as u64) % (self.width as u64);
            let y = (idx as u64) / (self.width as u64);
            proof {
                assert(0 <= (idx as int) % (self.width as int) < self.width as int) by (nonlinear_arith)
                    requires
                        0 <= idx,
                        1 <= self.width,
                ;
                assert(0 <= (idx as int) / (self.width as int) < self.height as int) by (nonlinear_arith)
                    requires
                        0 <= idx < self.width * self.height,
                        1 <= self.width,
                        1 <= self.height,
                ;
            }
            Point { x: x as i32, y: y as i32 }
        } else {
            Point { x: 0, y: 0 }
        }
    }

    fn in_bounds(&self, pos: Point) -> (r: bool)
        ensures
            r == self.spec_in_bounds(pos),
    {
        pos.x >= 0 && pos.x < self.width && pos.y >= 0 && pos.y < self.height
    }
}

/// Every grid exit is a unit-cost edge to an in-range tile one king-move
/// away.
proof fn lemma_grid_exit_is_king_move(m: &GridMap, idx: i32, j: int)
    requires
        0 <= j < m.spec_exits(idx).len(),
    ensures
        ({
            let (b, w) = m.spec_exits(idx)[j];
            let p = m.spec_i2p(idx);
            let q = m.spec_i2p(b);
            &&& w == 1
            &&& m.wf_dims()
            &&& m.valid_idx(idx)
            &&& m.valid_idx(b)
            &&& chebyshev_spec((p.x as int, p.y as int), (q.x as int, q.y as int)) <= 1
        }),
{
    let exits = m.spec_exits(idx);
    let parts = seq![
        m.dir_exit(idx, -1, 0),
        m.dir_exit(idx, 1, 0),
        m.dir_exit(idx, 0, -1),
        m.dir_exit(idx, 0, 1),
        m.dir_exit(idx, -1, -1),
        m.dir_exit(idx, 1, -1),
        m.dir_exit(idx, -1, 1),
        m.dir_exit(idx, 1, 1),
    ];
    assert forall|dx: int, dy: int|
        -1 <= dx <= 1 && -1 <= dy <= 1 && m.dir_exit(idx, dx, dy).len() > 0 implies ({
        let (b, w) = m.dir_exit(idx, dx, dy)[0];
        let p = m.spec_i2p(idx);
        let q = m.spec_i2p(b);
        &&& w == 1
        &&& m.wf_dims()
        &&& m.valid_idx(idx)
        &&& m.valid_idx(b)
        &&& chebyshev_spec((p.x as int, p.y as int), (q.x as int, q.y as int)) <= 1
    }) by {
        let p = m.spec_i2p(idx);
        let qx = p.x + dx;
        let qy = p.y + dy;
        let b = m.dir_exit(idx, dx, dy)[0].0;
        assert(0 <= qy * m.width + qx < m.width * m.height) by (nonlinear_arith)
            requires
                0 <= qx < m.width,
                0 <= qy < m.height,
                1 <= m.width,
        ;
        assert(b == qy * m.width + qx);
        lemma_fundamental_div_mod_converse(qy * m.width + qx, m.width as int, qy, qx);
        assert(m.spec_i2p(b) == (Point { x: qx as i32, y: qy as i32 }));
    }
    if exits.len() > 0 {
        assert(exits == parts[0] + parts[1] + parts[2] + parts[3] + parts[4] + parts[5] + parts[6]
            + parts[7]);
        assert(exists|dx: int, dy: int|
            -1 <= dx <= 1 && -1 <= dy <= 1 && m.dir_exit(idx, dx, dy).len() > 0 && exits[j]
                == (#[trigger] m.dir_exit(idx, dx, dy))[0]) by {
            let l0 = parts[0].len();
            let l1 = l0 + parts[1].len();
            let l2 = l1 + parts[2].len();
            let l3 = l2 + parts[3].len();
            let l4 = l3 + parts[4].len();
            let l5 = l4 + parts[5].len();
            let l6 = l5 + parts[6].len();
            if j < l0 {
                assert(exits[j] == m.dir_exit(idx, -1, 0)[0]);
            } else if j < l1 {
                assert(exits[j] == m.dir_exit(idx, 1, 0)[0]);
            } else if j < l2 {
                assert(exits[j] == m.dir_exit(idx, 0, -1)[0]);
            } else if j < l3 {
                assert(exits[j] == m.dir_exit(idx, 0, 1)[0]);
            } else if j < l4 {
                assert(exits[j] == m.dir_exit(idx, -1, -1)[0]);
            } else if j < l5 {
                assert(exits[j] == m.dir_exit(idx, 1, -1)[0]);
            } else if j < l6 {
                assert(exits[j] == m.dir_exit(idx, -1, 1)[0]);
            } else {
                assert(exits[j] == m.dir_exit(idx, 1, 1)[0]);
            }
        }
    }
}

/// Law: the grid's pathing distance is a consistent heuristic: crossing one
/// exit lowers the distance-to-goal estimate by at most that exit's cost,
/// and the estimate at the goal itself is zero. On such a heuristic the
/// search never needs to reopen an expanded tile.
pub proof fn lemma_grid_heuristic_consistent(m: &GridMap, idx: i32, j: int, goal: i32)
    requires
        0 <= j < m.spec_exits(idx).len(),
    ensures
        m.spec_pathing_distance(idx, goal) <= m.spec_exits(idx)[j].1 + m.spec_pathing_distance(
            m.spec_exits(idx)[j].0,
            goal,
        ),
        m.spec_pathing_distance(goal, goal) == 0,
{
    lemma_grid_exit_is_king_move(m, idx, j);
    let a = m.spec_i2p(idx);
    let b = m.spec_i2p(m.spec_exits(idx)[j].0);
    let g = m.spec_i2p(goal);
    assert(chebyshev_spec((a.x as int, a.y as int), (g.x as int, g.y as int)) <= chebyshev_spec(
        (a.x as int, a.y as int),
        (b.x as int, b.y as int),
    ) + chebyshev_spec((b.x as int, b.y as int), (g.x as int, g.y as int)));
}

/// Law: the grid satisfies the consistency hypothesis of the search toward
/// any goal tile, so on a grid the search's returned cost is minimal.
pub proof fn lemma_grid_consistent(m: &GridMap, end: i32)
    ensures
        heuristic_consistent(m, end),
{
    assert forall|a: i32, j: int|
        0 <= j < m.spec_exits(a).len() implies m.spec_pathing_distance(a, end) <= (
    #[trigger] m.spec_exits(a)[j]).1 + m.spec_pathing_distance(
        m.spec_exits(a)[j].0,
        end,
    ) by {
        lemma_grid_heuristic_consistent(m, a, j, end);
    }
}

/// Law: the grid's pathing distance is an admissible heuristic. The
/// Chebyshev distance between two tiles never exceeds the cost of any walk
/// between them, because every exit costs one and moves one king-move.
pub proof fn lemma_grid_heuristic_admissible(m: &GridMap, p: Seq<i32>, e: int)
    requires
        is_costed_path(m, p, e),
    ensures
        m.spec_pathing_distance(p[0], p[p.len() - 1]) <= e,
    decreases p.len(),
{
    if p.len() == 1 {
        assert(m.spec_pathing_distance(p[0], p[0]) == 0);
    } else {
        let j = choose|j: int|
            {
                &&& 0 <= j < m.spec_exits(p[0]).len()
                &&& (#[trigger] m.spec_exits(p[0])[j]).0 == p[1]
                &&& is_costed_path(m, p.drop_first(), e - m.spec_exits(p[0])[j].1)
            };
        let w = m.spec_exits(p[0])[j].1;
        let rest = p.drop_first();
        lemma_grid_exit_is_king_move(m, p[0], j);
        lemma_grid_heuristic_admissible(m, rest, e - w);
        assert(rest[0] == p[1] && rest[rest.len() - 1] == p[p.len() - 1]);
        let a = m.spec_i2p(p[0]);
        let b = m.spec_i2p(p[1]);
        let c = m.spec_i2p(p[p.len() - 1]);
        assert(chebyshev_spec((a.x as int, a.y as int), (c.x as int, c.y as int))
            <= chebyshev_spec((a.x as int, a.y as int), (b.x as int, b.y as int))
            + chebyshev_spec((b.x as int, b.y as int), (c.x as int, c.y as int)));
    }
}

} // verus!
