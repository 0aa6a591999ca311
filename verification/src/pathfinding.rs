//! The map capability interface and pathfinding algorithms.
//!
//! A caller-owned map implements [`BaseMap`] (edges, costs, opacity) and
//! [`Algorithm2D`] / [`Algorithm3D`] (coordinate/index conversion); the
//! algorithms here and in the submodules operate purely through those
//! capabilities and retain no state between calls.

use vstd::prelude::*;

pub mod astar;
pub mod dijkstra;

use crate::geometry::point::Point;
use crate::geometry::point3::Point3;
use vstd::set_lib::lemma_int_range;
use vstd::set_lib::lemma_len_subset;
use vstd::set_lib::set_int_range;

pub use astar::NavigationPath;
pub use dijkstra::DijkstraMap;
pub use astar::a_star_search;

verus! {

/// Capabilities every pathfinding-capable map must provide. All costs are
/// non-negative integers; each implementation proves that its methods agree
/// with its own spec-level descriptions of them.
pub trait BaseMap {
    /// Spec-level view of [`Self::is_opaque`].
    spec fn spec_opaque(&self, idx: i32) -> bool;

    /// Spec-level view of [`Self::get_available_exits`].
    spec fn spec_exits(&self, idx: i32) -> Seq<(i32, u64)>;

    /// Spec-level view of [`Self::get_pathing_distance`].
    spec fn spec_pathing_distance(&self, idx1: i32, idx2: i32) -> u64;

    /// True if one cannot see through the tile at `idx`.
    fn is_opaque(&self, idx: i32) -> (r: bool)
        ensures
            r == self.spec_opaque(idx),
    ;

    /// The outgoing edges of the tile at `idx`, as (destination, cost)
    /// pairs. The destinations do not have to be geometrically contiguous.
    fn get_available_exits(&self, idx: i32) -> (r: Vec<(i32, u64)>)
        ensures
            r@ == self.spec_exits(idx),
    ;

    /// The distance to use for path-finding between two tiles. A heuristic
    /// that overestimates the true remaining cost makes A* return
    /// non-optimal (but still valid) paths.
    fn get_pathing_distance(&self, idx1: i32, idx2: i32) -> (r: u64)
        ensures
            r == self.spec_pathing_distance(idx1, idx2),
    ;
}

/// Conversion between 2D coordinates and tile indices, plus a bounds test.
pub trait Algorithm2D: BaseMap {
    /// Spec-level view of [`Self::point2d_to_index`].
    spec fn spec_point2d_to_index(&self, pt: Point) -> i32;

    /// Spec-level view of [`Self::index_to_point2d`].
    spec fn spec_index_to_point2d(&self, idx: i32) -> Point;

    /// Spec-level view of [`Self::in_bounds`]; unbounded unless overridden.
    open spec fn spec_in_bounds(&self, pos: Point) -> bool {
        true
    }

    /// Convert a point to a tile index.
    fn point2d_to_index(&self, pt: Point) -> (r: i32)
        ensures
            r == self.spec_point2d_to_index(pt),
    ;

    /// Convert a tile index to a point.
    fn index_to_point2d(&self, idx: i32) -> (r: Point)
        ensures
            r == self.spec_index_to_point2d(idx),
    ;

    /// Whether a coordinate lies within the map bounds. A map without
    /// bounds keeps the default spec above and implements this as `true`;
    /// the exec body cannot be defaulted, since a default body would have
    /// to compute an arbitrary implementation's spec-level bounds.
    fn in_bounds(&self, pos: Point) -> (r: bool)
        ensures
            r == self.spec_in_bounds(pos),
    ;
}

/// Conversion between 3D coordinates and tile indices.
pub trait Algorithm3D: BaseMap {
    /// Spec-level view of [`Self::point3d_to_index`].
    spec fn spec_point3d_to_index(&self, pt: Point3) -> i32;

    /// Spec-level view of [`Self::index_to_point3d`].
    spec fn spec_index_to_point3d(&self, idx: i32) -> Point3;

    /// Convert a 3D point to a tile index.
    fn point3d_to_index(&self, pt: Point3) -> (r: i32)
        ensures
            r == self.spec_point3d_to_index(pt),
    ;

    /// Convert a tile index to a 3D point.
    fn index_to_point3d(&self, idx: i32) -> (r: Point3)
        ensures
            r == self.spec_index_to_point3d(idx),
    ;
}

/// Whether the map has a directed edge from tile `a` to tile `b`.
pub open spec fn has_edge<M: BaseMap>(map: &M, a: i32, b: i32) -> bool {
    exists|j: int| 0 <= j < map.spec_exits(a).len() && (#[trigger] map.spec_exits(a)[j]).0 == b
}

/// Whether `p` is a walk along map edges (at least one tile long).
pub open spec fn is_path<M: BaseMap>(map: &M, p: Seq<i32>) -> bool {
    &&& p.len() >= 1
    &&& forall|i: int| 0 <= i < p.len() - 1 ==> has_edge(map, #[trigger] p[i], p[i + 1])
}

/// Whether `p` is a walk along map edges from `s` to `g`.
pub open spec fn is_path_between<M: BaseMap>(map: &M, p: Seq<i32>, s: i32, g: i32) -> bool {
    &&& is_path(map, p)
    &&& p[0] == s
    &&& p[p.len() - 1] == g
}

/// Whether tile `g` can be reached from tile `s` along map edges.
pub open spec fn reachable<M: BaseMap>(map: &M, s: i32, g: i32) -> bool {
    exists|p: Seq<i32>| is_path_between(map, p, s, g)
}

/// Whether `p` is a walk along map edges whose edge costs sum (exactly, as
/// unbounded integers) to `cost`.
pub open spec fn is_costed_path<M: BaseMap>(map: &M, p: Seq<i32>, cost: int) -> bool
    decreases p.len(),
{
    if p.len() == 0 {
        false
    } else if p.len() == 1 {
        cost == 0
    } else {
        exists|j: int|
            {
                &&& 0 <= j < map.spec_exits(p[0]).len()
                &&& (#[trigger] map.spec_exits(p[0])[j]).0 == p[1]
                &&& is_costed_path(map, p.drop_first(), cost - map.spec_exits(p[0])[j].1)
            }
    }
}

/// Saturation of an unbounded cost at the largest representable cost.
pub open spec fn sat64(c: int) -> int {
    if c > u64::MAX {
        u64::MAX as int
    } else {
        c
    }
}

/// Saturating addition of two costs.
pub fn sat_add_u64(a: u64, b: u64) -> (r: u64)
    ensures
        r == sat64(a + b),
{
    if a > u64::MAX - b {
        u64::MAX
    } else {
        a + b
    }
}

/// Whether the map's pathing distance toward `end` is a consistent
/// heuristic: zero at `end` itself, and crossing any exit lowers the
/// estimate by at most that exit's cost. Consistency implies admissibility
/// (see [`lemma_consistent_heuristic_admissible`]) and is what the search
/// with a closed set needs for minimal-cost results.
pub open spec fn heuristic_consistent<M: BaseMap>(map: &M, end: i32) -> bool {
    &&& map.spec_pathing_distance(end, end) == 0
    &&& forall|a: i32, j: int|
        0 <= j < map.spec_exits(a).len() ==> map.spec_pathing_distance(a, end) <= (
        #[trigger] map.spec_exits(a)[j]).1 + map.spec_pathing_distance(
            map.spec_exits(a)[j].0,
            end,
        )
}

/// Under a consistent heuristic, the estimate at a walk's first tile never
/// exceeds the walk's cost to `end`: consistency implies admissibility.
pub proof fn lemma_consistent_heuristic_admissible<M: BaseMap>(
    map: &M,
    end: i32,
    p: Seq<i32>,
    c: int,
)
    requires
        heuristic_consistent(map, end),
        is_costed_path(map, p, c),
        p[p.len() - 1] == end,
    ensures
        map.spec_pathing_distance(p[0], end) <= c,
    decreases p.len(),
{
    if p.len() > 1 {
        let j = choose|j: int|
            {
                &&& 0 <= j < map.spec_exits(p[0]).len()
                &&& (#[trigger] map.spec_exits(p[0])[j]).0 == p[1]
                &&& is_costed_path(map, p.drop_first(), c - map.spec_exits(p[0])[j].1)
            };
        let rest = p.drop_first();
        assert(rest[0] == p[1] && rest[rest.len() - 1] == end);
        lemma_consistent_heuristic_admissible(map, end, rest, c - map.spec_exits(p[0])[j].1);
    }
}

/// The cost of a costed path is non-negative.
pub proof fn lemma_costed_path_nonneg<M: BaseMap>(map: &M, p: Seq<i32>, cost: int)
    requires
        is_costed_path(map, p, cost),
    ensures
        cost >= 0,
    decreases p.len(),
{
    if p.len() > 1 {
        let j = choose|j: int|
            {
                &&& 0 <= j < map.spec_exits(p[0]).len()
                &&& (#[trigger] map.spec_exits(p[0])[j]).0 == p[1]
                &&& is_costed_path(map, p.drop_first(), cost - map.spec_exits(p[0])[j].1)
            };
        lemma_costed_path_nonneg(map, p.drop_first(), cost - map.spec_exits(p[0])[j].1);
    }
}

/// Extending a costed path by one edge adds that edge's cost.
pub proof fn lemma_costed_path_extend<M: BaseMap>(map: &M, p: Seq<i32>, cost: int, j: int)
    requires
        is_costed_path(map, p, cost),
        0 <= j < map.spec_exits(p[p.len() - 1]).len(),
    ensures
        is_costed_path(
            map,
            p.push(map.spec_exits(p[p.len() - 1])[j].0),
            cost + map.spec_exits(p[p.len() - 1])[j].1,
        ),
    decreases p.len(),
{
    let last = p[p.len() - 1];
    let b = map.spec_exits(last)[j].0;
    let w = map.spec_exits(last)[j].1;
    let q = p.push(b);
    if p.len() == 1 {
        assert(q.drop_first() =~= seq![b]);
        assert(is_costed_path(map, q.drop_first(), 0));
        assert(q[0] == last && q[1] == b);
        assert(is_costed_path(map, q, cost + w));
    } else {
        let j0 = choose|j0: int|
            {
                &&& 0 <= j0 < map.spec_exits(p[0]).len()
                &&& (#[trigger] map.spec_exits(p[0])[j0]).0 == p[1]
                &&& is_costed_path(map, p.drop_first(), cost - map.spec_exits(p[0])[j0].1)
            };
        let c2 = cost - map.spec_exits(p[0])[j0].1;
        let rest = p.drop_first();
        assert(rest[rest.len() - 1] == last);
        lemma_costed_path_extend(map, rest, c2, j);
        assert(q.drop_first() =~= rest.push(b));
        assert(q[0] == p[0] && q[1] == p[1]);
        assert(is_costed_path(map, q.drop_first(), c2 + w));
        assert(cost + w - map.spec_exits(q[0])[j0].1 == c2 + w);
        assert(is_costed_path(map, q, cost + w));
    }
}

/// A costed path is a path between its own endpoints.
pub proof fn lemma_costed_path_is_path<M: BaseMap>(map: &M, p: Seq<i32>, cost: int)
    requires
        is_costed_path(map, p, cost),
    ensures
        is_path(map, p),
    decreases p.len(),
{
    if p.len() > 1 {
        let j = choose|j: int|
            {
                &&& 0 <= j < map.spec_exits(p[0]).len()
                &&& (#[trigger] map.spec_exits(p[0])[j]).0 == p[1]
                &&& is_costed_path(map, p.drop_first(), cost - map.spec_exits(p[0])[j].1)
            };
        lemma_costed_path_is_path(map, p.drop_first(), cost - map.spec_exits(p[0])[j].1);
        let rest = p.drop_first();
        assert(has_edge(map, p[0], p[1]));
        assert forall|i: int| 0 <= i < p.len() - 1 implies has_edge(map, #[trigger] p[i], p[i + 1]) by {
            if i > 0 {
                assert(rest[i - 1] == p[i] && rest[i] == p[i + 1]);
                assert(has_edge(map, rest[i - 1], rest[i]));
            }
        }
    }
}

/// A set of tiles whose every outgoing edge lands back in the set traps any
/// walk that starts inside it: the walk's last tile is in the set too.
pub proof fn lemma_closed_covers_path<M: BaseMap>(map: &M, closed: Seq<i32>, p: Seq<i32>)
    requires
        is_path(map, p),
        closed.contains(p[0]),
        forall|ci: int, j: int|
            0 <= ci < closed.len() && 0 <= j < map.spec_exits(closed[ci]).len() ==> closed.contains(
                (#[trigger] map.spec_exits(closed[ci])[j]).0,
            ),
    ensures
        closed.contains(p[p.len() - 1]),
    decreases p.len(),
{
    if p.len() > 1 {
        let ci = choose|ci: int| 0 <= ci < closed.len() && closed[ci] == p[0];
        assert(has_edge(map, p[0], p[1]));
        let j = choose|j: int|
            0 <= j < map.spec_exits(p[0]).len() && (#[trigger] map.spec_exits(p[0])[j]).0 == p[1];
        assert(closed.contains(map.spec_exits(closed[ci])[j].0));
        assert(closed.contains(p[1]));
        let rest = p.drop_first();
        assert(is_path(map, rest)) by {
            assert forall|i: int| 0 <= i < rest.len() - 1 implies has_edge(
                map,
                #[trigger] rest[i],
                rest[i + 1],
            ) by {
                assert(rest[i] == p[i + 1] && rest[i + 1] == p[i + 2]);
                assert(has_edge(map, p[i + 1], p[i + 2]));
            }
        }
        lemma_closed_covers_path(map, closed, rest);
        assert(rest[rest.len() - 1] == p[p.len() - 1]);
    }
}

/// A duplicate-free sequence of `i32` values cannot be longer than the
/// number of distinct `i32` values.
pub proof fn lemma_distinct_i32_len(s: Seq<i32>)
    requires
        s.no_duplicates(),
    ensures
        s.len() <= 0x1_0000_0000,
{
    let t = s.map_values(|x: i32| x as int);
    assert(t.no_duplicates()) by {
        assert forall|i: int, j: int|
            0 <= i < t.len() && 0 <= j < t.len() && i != j implies t[i] != t[j] by {
            assert(s[i] != s[j]);
        }
    }
    t.unique_seq_to_set();
    let range = set_int_range(-0x8000_0000, 0x8000_0000);
    lemma_int_range(-0x8000_0000, 0x8000_0000);
    assert(t.to_set().subset_of(range)) by {
        assert forall|x: int| t.to_set().contains(x) implies range.contains(x) by {
            let i = choose|i: int| 0 <= i < t.len() && t[i] == x;
            assert(t[i] == s[i] as int);
        }
    }
    lemma_len_subset(t.to_set(), range);
}

} // verus!
