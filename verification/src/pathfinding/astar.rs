//! A* shortest-path search over the map capability interface.
//!
//! The open list is ordered by `f = g + h`, where `g` is the accumulated
//! cost along the best known path and `h` the map's pathing distance to the
//! goal. Ties on `f` are broken deterministically toward the most recently
//! enqueued candidate. A tile, once expanded, is never reopened; the search
//! succeeds when the goal is popped from the open list and fails when the
//! open list empties, which proves the goal unreachable. When the map's
//! pathing distance is a consistent heuristic, the returned path's cost is
//! minimal among all walks from start to goal.

use vstd::prelude::*;

use crate::pathfinding::BaseMap;
use crate::pathfinding::heuristic_consistent;
use crate::pathfinding::is_costed_path;
use crate::pathfinding::is_path_between;
use crate::pathfinding::lemma_closed_covers_path;
use crate::pathfinding::lemma_consistent_heuristic_admissible;
use crate::pathfinding::lemma_costed_path_extend;
use crate::pathfinding::lemma_costed_path_is_path;
use crate::pathfinding::lemma_costed_path_nonneg;
use crate::pathfinding::lemma_distinct_i32_len;
use crate::pathfinding::reachable;
use crate::pathfinding::sat64;
use crate::pathfinding::sat_add_u64;

verus! {

broadcast use vstd::seq_lib::lemma_seq_contains_after_push;

/// The result of a pathfinding search: an ordered tile sequence from start
/// to destination (inclusive of both ends on success), a success flag, and
/// the total cost of the path (edge costs summed, saturating at the largest
/// representable cost).
pub struct NavigationPath {
    /// The tile the search was aimed at.
    pub destination: i32,
    /// Whether a path to the destination was found.
    pub success: bool,
    /// The tiles of the path, from start to destination; empty on failure.
    pub steps: Vec<i32>,
    /// The total cost of the path; zero on failure.
    pub cost: u64,
}

/// A candidate on the open list: a tile, the best known path to it, that
/// path's cost `g` (with its exact unbounded value as a ghost), and the
/// heuristic-augmented priority `f`.
struct OpenNode {
    idx: i32,
    f: u64,
    g: u64,
    steps: Vec<i32>,
    exact: Ghost<int>,
}

/// A candidate is valid when its stored path really leads from the search
/// start to its tile at its stored cost, and its priority is its cost plus
/// the heuristic toward the goal.
spec fn node_valid<M: BaseMap>(map: &M, n: OpenNode, start: i32, end: i32) -> bool {
    &&& is_path_between(map, n.steps@, start, n.idx)
    &&& is_costed_path(map, n.steps@, n.exact@)
    &&& n.exact@ >= 0
    &&& n.g == sat64(n.exact@)
    &&& n.f == sat64(n.exact@ + map.spec_pathing_distance(n.idx, end))
}

/// All open-list candidates are valid.
spec fn open_valid<M: BaseMap>(map: &M, open: Seq<OpenNode>, start: i32, end: i32) -> bool {
    forall|k: int| 0 <= k < open.len() ==> node_valid(map, #[trigger] open[k], start, end)
}

/// Whether some open-list candidate sits on tile `idx`.
spec fn in_open(open: Seq<OpenNode>, idx: i32) -> bool {
    exists|k: int| 0 <= k < open.len() && (#[trigger] open[k]).idx == idx
}

/// Every edge out of an expanded tile leads to an expanded tile or to a
/// tile with an open-list candidate. When the open list empties, this makes
/// the expanded set closed under edges.
spec fn closure_inv<M: BaseMap>(map: &M, closed: Seq<i32>, open: Seq<OpenNode>) -> bool {
    forall|ci: int, j: int|
        0 <= ci < closed.len() && 0 <= j < map.spec_exits(closed[ci]).len() ==> closed.contains(
            (#[trigger] map.spec_exits(closed[ci])[j]).0,
        ) || in_open(open, map.spec_exits(closed[ci])[j].0)
}

/// A walk from `start` to `end` whose cost is small enough that the
/// minimality argument is not trivialized by saturation.
spec fn competing<M: BaseMap>(map: &M, p: Seq<i32>, c: int, start: i32, end: i32) -> bool {
    &&& is_path_between(map, p, start, end)
    &&& is_costed_path(map, p, c)
    &&& 0 <= c < u64::MAX
}

/// The walk `p` splits at position `k` into a costed prefix and a costed
/// suffix.
spec fn split_at<M: BaseMap>(map: &M, p: Seq<i32>, k: int, cpre: int, csuf: int) -> bool {
    &&& is_costed_path(map, p.subrange(0, k + 1), cpre)
    &&& is_costed_path(map, p.subrange(k, p.len() as int), csuf)
}

/// Every expanded tile has its exact cost at expansion time recorded; all
/// recorded costs are non-negative.
spec fn cg_dom(closed: Seq<i32>, cg: Map<i32, int>) -> bool {
    forall|ci: int|
        0 <= ci < closed.len() ==> cg.contains_key(#[trigger] closed[ci]) && cg[closed[ci]] >= 0
}

/// Every expanded tile's priority at expansion time is at or below every
/// open candidate's priority: expansion order never goes back down.
spec fn f_low<M: BaseMap>(
    map: &M,
    end: i32,
    closed: Seq<i32>,
    cg: Map<i32, int>,
    open: Seq<OpenNode>,
) -> bool {
    forall|ci: int, nk: int|
        0 <= ci < closed.len() && 0 <= nk < open.len() ==> sat64(
            cg[#[trigger] closed[ci]] + map.spec_pathing_distance(closed[ci], end),
        ) <= (#[trigger] open[nk]).f
}

/// One relaxed edge out of an expanded tile: its destination is expanded or
/// open, at a priority no worse than relaxing this edge once more.
spec fn edge_relaxed<M: BaseMap>(
    map: &M,
    end: i32,
    closed: Seq<i32>,
    cg: Map<i32, int>,
    open: Seq<OpenNode>,
    a: i32,
    b: i32,
    w: u64,
) -> bool {
    let hb = map.spec_pathing_distance(b, end);
    let bound = sat64(cg[a] + w + hb);
    ||| (closed.contains(b) && sat64(cg[b] + hb) <= bound)
    ||| (exists|nk: int|
        0 <= nk < open.len() && (#[trigger] open[nk]).idx == b && sat64(open[nk].exact@ + hb)
            <= bound)
}

/// Every edge out of every expanded tile is relaxed.
spec fn closed_relaxed<M: BaseMap>(
    map: &M,
    end: i32,
    closed: Seq<i32>,
    cg: Map<i32, int>,
    open: Seq<OpenNode>,
) -> bool {
    forall|ci: int, j: int|
        0 <= ci < closed.len() && 0 <= j < map.spec_exits(closed[ci]).len() ==> edge_relaxed(
            map,
            end,
            closed,
            cg,
            open,
            closed[ci],
            (#[trigger] map.spec_exits(closed[ci])[j]).0,
            map.spec_exits(closed[ci])[j].1,
        )
}

/// The walk `p` splits at `k` as in [`split_at`]; the extra candidate index
/// exists only so that one term can name a whole foothold.
spec fn witness_parts<M: BaseMap>(
    map: &M,
    p: Seq<i32>,
    nk: int,
    k: int,
    cpre: int,
    csuf: int,
) -> bool {
    split_at(map, p, k, cpre, csuf)
}

/// Every competing walk has a foothold on the frontier: some split position
/// whose tile is expanded at a recorded cost within the walk's prefix cost,
/// or carried by an open candidate within the walk's prefix cost.
spec fn opt_witness<M: BaseMap>(
    map: &M,
    p: Seq<i32>,
    c: int,
    open: Seq<OpenNode>,
    closed: Seq<i32>,
    cg: Map<i32, int>,
) -> bool {
    exists|nk: int, k: int, cpre: int, csuf: int|
        {
            &&& 0 <= k < p.len()
            &&& #[trigger] witness_parts(map, p, nk, k, cpre, csuf)
            &&& c == cpre + csuf
            &&& cpre >= 0
            &&& csuf >= 0
            &&& ((closed.contains(p[k]) && cg[p[k]] <= cpre) || (0 <= nk < open.len()
                && open[nk].idx == p[k] && open[nk].exact@ <= cpre))
        }
}

/// The frontier covers every competing walk.
spec fn opt_inv<M: BaseMap>(
    map: &M,
    start: i32,
    end: i32,
    open: Seq<OpenNode>,
    closed: Seq<i32>,
    cg: Map<i32, int>,
) -> bool {
    forall|p: Seq<i32>, c: int|
        #[trigger] competing(map, p, c, start, end) ==> opt_witness(map, p, c, open, closed, cg)
}

/// Splits one step further along a walk: peels the suffix's first edge onto
/// the prefix. Returns the edge's index and cost.
proof fn lemma_split_advance<M: BaseMap>(map: &M, p: Seq<i32>, k: int, cpre: int, csuf: int) -> (res:
    (int, int))
    requires
        0 <= k < p.len() - 1,
        split_at(map, p, k, cpre, csuf),
    ensures
        ({
            let (jj, w) = res;
            &&& 0 <= jj < map.spec_exits(p[k]).len()
            &&& map.spec_exits(p[k])[jj].0 == p[k + 1]
            &&& w == map.spec_exits(p[k])[jj].1
            &&& split_at(map, p, k + 1, cpre + w, csuf - w)
            &&& 0 <= w
            &&& csuf - w >= 0
        }),
{
    let q = p.subrange(k, p.len() as int);
    assert(q.len() >= 2);
    assert(q[0] == p[k] && q[1] == p[k + 1]);
    let jj = choose|jj: int|
        {
            &&& 0 <= jj < map.spec_exits(q[0]).len()
            &&& (#[trigger] map.spec_exits(q[0])[jj]).0 == q[1]
            &&& is_costed_path(map, q.drop_first(), csuf - map.spec_exits(q[0])[jj].1)
        };
    let w = map.spec_exits(p[k])[jj].1 as int;
    assert(q.drop_first() =~= p.subrange(k + 1, p.len() as int));
    lemma_costed_path_nonneg(map, q.drop_first(), csuf - w);
    let pre = p.subrange(0, k + 1);
    assert(pre[pre.len() - 1] == p[k]);
    lemma_costed_path_extend(map, pre, cpre, jj);
    assert(pre.push(p[k + 1]) =~= p.subrange(0, k + 2));
    (jj, w)
}

/// Walks a competing path's frontier foothold out of the expanded set: as
/// long as the foothold tile is expanded, its relaxed edges carry the
/// foothold forward, until an open candidate carries it (the path's last
/// tile, the goal, is never expanded while the search runs).
#[verifier::rlimit(100)]
proof fn lemma_closed_walk<M: BaseMap>(
    map: &M,
    end: i32,
    closed: Seq<i32>,
    cg: Map<i32, int>,
    open: Seq<OpenNode>,
    p: Seq<i32>,
    k: int,
    cpre: int,
    csuf: int,
)
    requires
        heuristic_consistent(map, end),
        closed_relaxed(map, end, closed, cg, open),
        cg_dom(closed, cg),
        !closed.contains(end),
        0 <= k < p.len(),
        p[p.len() - 1] == end,
        split_at(map, p, k, cpre, csuf),
        cpre >= 0,
        csuf >= 0,
        cpre + csuf < u64::MAX,
        closed.contains(p[k]),
        cg[p[k]] <= cpre,
    ensures
        exists|nk: int, k2: int, cpre2: int, csuf2: int|
            {
                &&& 0 <= nk < open.len()
                &&& 0 <= k2 < p.len()
                &&& open[nk].idx == p[k2]
                &&& #[trigger] witness_parts(map, p, nk, k2, cpre2, csuf2)
                &&& split_at(map, p, k2, cpre2, csuf2)
                &&& cpre2 + csuf2 == cpre + csuf
                &&& cpre2 >= 0
                &&& csuf2 >= 0
                &&& open[nk].exact@ <= cpre2
            },
    decreases p.len() - k,
{
    assert(p[k] != end);
    assert(k < p.len() - 1);
    let (jj, w) = lemma_split_advance(map, p, k, cpre, csuf);
    let b = p[k + 1];
    let hb = map.spec_pathing_distance(b, end) as int;
    let suf2 = p.subrange(k + 1, p.len() as int);
    assert(suf2[0] == b && suf2[suf2.len() - 1] == end);
    lemma_consistent_heuristic_admissible(map, end, suf2, csuf - w);
    assert(hb <= csuf - w);
    let ci = choose|ci: int| 0 <= ci < closed.len() && closed[ci] == p[k];
    assert(edge_relaxed(map, end, closed, cg, open, p[k], b, map.spec_exits(p[k])[jj].1));
    let bound = sat64(cg[p[k]] + w + hb);
    assert(bound <= cpre + w + hb);
    assert(cpre + w + hb <= cpre + csuf);
    if closed.contains(b) && sat64(cg[b] + hb) <= bound {
        assert(cg[b] <= cpre + w);
        lemma_closed_walk(map, end, closed, cg, open, p, k + 1, cpre + w, csuf - w);
    } else {
        let nk = choose|nk: int|
            0 <= nk < open.len() && (#[trigger] open[nk]).idx == b && sat64(open[nk].exact@ + hb)
                <= bound;
        assert(open[nk].exact@ <= cpre + w);
        assert(witness_parts(map, p, nk, k + 1, cpre + w, csuf - w));
    }
}

/// After removing the minimum-priority candidate, the expansion-order and
/// relaxation invariants survive (or name the removed candidate), and every
/// competing walk keeps its foothold (or its foothold was the removed
/// candidate).
#[verifier::rlimit(100)]
proof fn lemma_after_pop<M: BaseMap>(
    map: &M,
    start: i32,
    end: i32,
    pre_open: Seq<OpenNode>,
    best: int,
    open: Seq<OpenNode>,
    node: OpenNode,
    closed: Seq<i32>,
    cg: Map<i32, int>,
)
    requires
        heuristic_consistent(map, end),
        0 <= best < pre_open.len(),
        open == pre_open.remove(best),
        node == pre_open[best],
        f_low(map, end, closed, cg, pre_open),
        closed_relaxed(map, end, closed, cg, pre_open),
        opt_inv(map, start, end, pre_open, closed, cg),
    ensures
        f_low(map, end, closed, cg, open),
        forall|ci: int, j: int|
            0 <= ci < closed.len() && 0 <= j < map.spec_exits(closed[ci]).len() ==> edge_relaxed(
                map,
                end,
                closed,
                cg,
                open,
                closed[ci],
                (#[trigger] map.spec_exits(closed[ci])[j]).0,
                map.spec_exits(closed[ci])[j].1,
            ) || ({
                let b = map.spec_exits(closed[ci])[j].0;
                let w = map.spec_exits(closed[ci])[j].1;
                let hb = map.spec_pathing_distance(b, end);
                node.idx == b && sat64(node.exact@ + hb) <= sat64(cg[closed[ci]] + w + hb)
            }),
        forall|p: Seq<i32>, c: int|
            #[trigger] competing(map, p, c, start, end) ==> opt_witness(
                map,
                p,
                c,
                open,
                closed,
                cg,
            ) || (exists|k: int, cpre: int, csuf: int|
                {
                    &&& 0 <= k < p.len()
                    &&& #[trigger] split_at(map, p, k, cpre, csuf)
                    &&& c == cpre + csuf
                    &&& cpre >= 0
                    &&& csuf >= 0
                    &&& node.idx == p[k]
                    &&& node.exact@ <= cpre
                }),
{
    assert(f_low(map, end, closed, cg, open)) by {
        assert forall|ci: int, nk: int|
            0 <= ci < closed.len() && 0 <= nk < open.len() implies sat64(
            cg[#[trigger] closed[ci]] + map.spec_pathing_distance(closed[ci], end),
        ) <= (#[trigger] open[nk]).f by {
            if nk < best {
                assert(open[nk] == pre_open[nk]);
            } else {
                assert(open[nk] == pre_open[nk + 1]);
            }
        }
    }
    assert forall|ci: int, j: int|
        0 <= ci < closed.len() && 0 <= j < map.spec_exits(closed[ci]).len() implies edge_relaxed(
        map,
        end,
        closed,
        cg,
        open,
        closed[ci],
        (#[trigger] map.spec_exits(closed[ci])[j]).0,
        map.spec_exits(closed[ci])[j].1,
    ) || ({
        let b = map.spec_exits(closed[ci])[j].0;
        let w = map.spec_exits(closed[ci])[j].1;
        let hb = map.spec_pathing_distance(b, end);
        node.idx == b && sat64(node.exact@ + hb) <= sat64(cg[closed[ci]] + w + hb)
    }) by {
        let a = closed[ci];
        let b = map.spec_exits(a)[j].0;
        let w = map.spec_exits(a)[j].1;
        let hb = map.spec_pathing_distance(b, end);
        let bound = sat64(cg[a] + w + hb);
        assert(edge_relaxed(map, end, closed, cg, pre_open, a, b, w));
        if !(closed.contains(b) && sat64(cg[b] + hb) <= bound) {
            let nk = choose|nk: int|
                0 <= nk < pre_open.len() && (#[trigger] pre_open[nk]).idx == b && sat64(
                    pre_open[nk].exact@ + hb,
                ) <= bound;
            if nk == best {
                assert(node == pre_open[nk]);
            } else if nk < best {
                assert(open[nk] == pre_open[nk]);
            } else {
                assert(open[nk - 1] == pre_open[nk]);
            }
        }
    }
    assert forall|p: Seq<i32>, c: int|
        #[trigger] competing(map, p, c, start, end) implies opt_witness(
        map,
        p,
        c,
        open,
        closed,
        cg,
    ) || (exists|k: int, cpre: int, csuf: int|
        {
            &&& 0 <= k < p.len()
            &&& #[trigger] split_at(map, p, k, cpre, csuf)
            &&& c == cpre + csuf
            &&& cpre >= 0
            &&& csuf >= 0
            &&& node.idx == p[k]
            &&& node.exact@ <= cpre
        }) by {
        assert(opt_witness(map, p, c, pre_open, closed, cg));
        let (nk, k, cpre, csuf) = choose|nk: int, k: int, cpre: int, csuf: int|
            {
                &&& 0 <= k < p.len()
                &&& #[trigger] witness_parts(map, p, nk, k, cpre, csuf)
                &&& c == cpre + csuf
                &&& cpre >= 0
                &&& csuf >= 0
                &&& ((closed.contains(p[k]) && cg[p[k]] <= cpre) || (0 <= nk < pre_open.len()
                    && pre_open[nk].idx == p[k] && pre_open[nk].exact@ <= cpre))
            };
        assert(split_at(map, p, k, cpre, csuf));
        if closed.contains(p[k]) && cg[p[k]] <= cpre {
            assert(opt_witness(map, p, c, open, closed, cg)) by {
                assert(witness_parts(map, p, 0, k, cpre, csuf));
            }
        } else {
            if nk == best {
                assert(node == pre_open[nk]);
            } else if nk < best {
                assert(open[nk] == pre_open[nk]);
                assert(opt_witness(map, p, c, open, closed, cg)) by {
                    assert(witness_parts(map, p, nk, k, cpre, csuf));
                }
            } else {
                assert(open[nk - 1] == pre_open[nk]);
                assert(opt_witness(map, p, c, open, closed, cg)) by {
                    assert(witness_parts(map, p, nk - 1, k, cpre, csuf));
                }
            }
        }
    }
}

/// When the popped candidate's tile is already expanded, the relaxation
/// invariant and every foothold survive: the tile's recorded cost takes
/// over from the stale candidate.
#[verifier::rlimit(100)]
proof fn lemma_stale_restore<M: BaseMap>(
    map: &M,
    start: i32,
    end: i32,
    open: Seq<OpenNode>,
    node: OpenNode,
    closed: Seq<i32>,
    cg: Map<i32, int>,
)
    requires
        heuristic_consistent(map, end),
        cg_dom(closed, cg),
        closed.contains(node.idx),
        node.exact@ >= 0,
        node.f == sat64(node.exact@ + map.spec_pathing_distance(node.idx, end)),
        sat64(cg[node.idx] + map.spec_pathing_distance(node.idx, end)) <= node.f,
        forall|ci: int, j: int|
            0 <= ci < closed.len() && 0 <= j < map.spec_exits(closed[ci]).len() ==> edge_relaxed(
                map,
                end,
                closed,
                cg,
                open,
                closed[ci],
                (#[trigger] map.spec_exits(closed[ci])[j]).0,
                map.spec_exits(closed[ci])[j].1,
            ) || ({
                let b = map.spec_exits(closed[ci])[j].0;
                let w = map.spec_exits(closed[ci])[j].1;
                let hb = map.spec_pathing_distance(b, end);
                node.idx == b && sat64(node.exact@ + hb) <= sat64(cg[closed[ci]] + w + hb)
            }),
        forall|p: Seq<i32>, c: int|
            #[trigger] competing(map, p, c, start, end) ==> opt_witness(
                map,
                p,
                c,
                open,
                closed,
                cg,
            ) || (exists|k: int, cpre: int, csuf: int|
                {
                    &&& 0 <= k < p.len()
                    &&& #[trigger] split_at(map, p, k, cpre, csuf)
                    &&& c == cpre + csuf
                    &&& cpre >= 0
                    &&& csuf >= 0
                    &&& node.idx == p[k]
                    &&& node.exact@ <= cpre
                }),
    ensures
        closed_relaxed(map, end, closed, cg, open),
        opt_inv(map, start, end, open, closed, cg),
{
    let h_node = map.spec_pathing_distance(node.idx, end);
    assert forall|ci: int, j: int|
        0 <= ci < closed.len() && 0 <= j < map.spec_exits(closed[ci]).len() implies edge_relaxed(
        map,
        end,
        closed,
        cg,
        open,
        closed[ci],
        (#[trigger] map.spec_exits(closed[ci])[j]).0,
        map.spec_exits(closed[ci])[j].1,
    ) by {
        let a = closed[ci];
        let b = map.spec_exits(a)[j].0;
        let w = map.spec_exits(a)[j].1;
        let hb = map.spec_pathing_distance(b, end);
        let bound = sat64(cg[a] + w + hb);
        if !edge_relaxed(map, end, closed, cg, open, a, b, w) {
            assert(node.idx == b && sat64(node.exact@ + hb) <= bound);
            assert(sat64(cg[b] + hb) <= node.f);
            assert(node.f == sat64(node.exact@ + hb));
            assert(sat64(cg[b] + hb) <= bound);
        }
    }
    assert forall|p: Seq<i32>, c: int|
        #[trigger] competing(map, p, c, start, end) implies opt_witness(
        map,
        p,
        c,
        open,
        closed,
        cg,
    ) by {
        if !opt_witness(map, p, c, open, closed, cg) {
            let (k, cpre, csuf) = choose|k: int, cpre: int, csuf: int|
                {
                    &&& 0 <= k < p.len()
                    &&& #[trigger] split_at(map, p, k, cpre, csuf)
                    &&& c == cpre + csuf
                    &&& cpre >= 0
                    &&& csuf >= 0
                    &&& node.idx == p[k]
                    &&& node.exact@ <= cpre
                };
            let suf = p.subrange(k, p.len() as int);
            assert(suf[0] == p[k] && suf[suf.len() - 1] == end);
            lemma_consistent_heuristic_admissible(map, end, suf, csuf);
            assert(h_node <= csuf);
            assert(node.exact@ + h_node <= cpre + csuf);
            assert(sat64(cg[node.idx] + h_node) <= sat64(node.exact@ + h_node));
            assert(cg[node.idx] <= node.exact@);
            assert(closed.contains(p[k]) && cg[p[k]] <= cpre);
            assert(opt_witness(map, p, c, open, closed, cg)) by {
                assert(witness_parts(map, p, 0, k, cpre, csuf));
            }
        }
    }
}

/// When a fresh tile is expanded and recorded, the invariants move with it:
/// its record sits at the minimum priority, and every foothold that sat on
/// the popped candidate moves to the record.
#[verifier::rlimit(100)]
proof fn lemma_close_restore<M: BaseMap>(
    map: &M,
    start: i32,
    end: i32,
    open: Seq<OpenNode>,
    node: OpenNode,
    old_closed: Seq<i32>,
    old_cg: Map<i32, int>,
    closed: Seq<i32>,
    cg: Map<i32, int>,
)
    requires
        heuristic_consistent(map, end),
        closed == old_closed.push(node.idx),
        !old_closed.contains(node.idx),
        cg == old_cg.insert(node.idx, node.exact@),
        cg_dom(old_closed, old_cg),
        node.exact@ >= 0,
        node.f == sat64(node.exact@ + map.spec_pathing_distance(node.idx, end)),
        f_low(map, end, old_closed, old_cg, open),
        forall|nk: int| 0 <= nk < open.len() ==> (#[trigger] open[nk]).f >= node.f,
        forall|ci: int|
            0 <= ci < old_closed.len() ==> sat64(
                old_cg[#[trigger] old_closed[ci]] + map.spec_pathing_distance(
                    old_closed[ci],
                    end,
                ),
            ) <= node.f,
        forall|p: Seq<i32>, c: int|
            #[trigger] competing(map, p, c, start, end) ==> opt_witness(
                map,
                p,
                c,
                open,
                old_closed,
                old_cg,
            ) || (exists|k: int, cpre: int, csuf: int|
                {
                    &&& 0 <= k < p.len()
                    &&& #[trigger] split_at(map, p, k, cpre, csuf)
                    &&& c == cpre + csuf
                    &&& cpre >= 0
                    &&& csuf >= 0
                    &&& node.idx == p[k]
                    &&& node.exact@ <= cpre
                }),
    ensures
        cg_dom(closed, cg),
        cg[node.idx] == node.exact@,
        f_low(map, end, closed, cg, open),
        opt_inv(map, start, end, open, closed, cg),
        forall|ci: int|
            0 <= ci < closed.len() ==> sat64(
                cg[#[trigger] closed[ci]] + map.spec_pathing_distance(closed[ci], end),
            ) <= node.f,
{
    let h_node = map.spec_pathing_distance(node.idx, end);
    assert(cg_dom(closed, cg)) by {
        assert forall|ci: int| 0 <= ci < closed.len() implies cg.contains_key(
            #[trigger] closed[ci],
        ) && cg[closed[ci]] >= 0 by {
            if ci < closed.len() - 1 {
                assert(closed[ci] == old_closed[ci]);
                assert(closed[ci] != node.idx);
            }
        }
    }
    assert forall|ci: int| 0 <= ci < closed.len() implies sat64(
        cg[#[trigger] closed[ci]] + map.spec_pathing_distance(closed[ci], end),
    ) <= node.f by {
        if ci < closed.len() - 1 {
            assert(closed[ci] == old_closed[ci]);
            assert(closed[ci] != node.idx);
        } else {
            assert(closed[ci] == node.idx);
        }
    }
    assert(f_low(map, end, closed, cg, open)) by {
        assert forall|ci: int, nk: int|
            0 <= ci < closed.len() && 0 <= nk < open.len() implies sat64(
            cg[#[trigger] closed[ci]] + map.spec_pathing_distance(closed[ci], end),
        ) <= (#[trigger] open[nk]).f by {
            assert(sat64(cg[closed[ci]] + map.spec_pathing_distance(closed[ci], end)) <= node.f);
        }
    }
    assert forall|p: Seq<i32>, c: int|
        #[trigger] competing(map, p, c, start, end) implies opt_witness(
        map,
        p,
        c,
        open,
        closed,
        cg,
    ) by {
        if opt_witness(map, p, c, open, old_closed, old_cg) {
            assert(opt_witness(map, p, c, open, old_closed, old_cg));
            let (nk, k, cpre, csuf) = choose|nk: int, k: int, cpre: int, csuf: int|
                {
                    &&& 0 <= k < p.len()
                    &&& #[trigger] witness_parts(map, p, nk, k, cpre, csuf)
                    &&& c == cpre + csuf
                    &&& cpre >= 0
                    &&& csuf >= 0
                    &&& ((old_closed.contains(p[k]) && old_cg[p[k]] <= cpre) || (0 <= nk
                        < open.len() && open[nk].idx == p[k] && open[nk].exact@ <= cpre))
                };
            assert(split_at(map, p, k, cpre, csuf));
            if old_closed.contains(p[k]) && old_cg[p[k]] <= cpre {
                assert(closed.contains(p[k]));
                assert(p[k] != node.idx);
                assert(cg[p[k]] == old_cg[p[k]]);
                assert(opt_witness(map, p, c, open, closed, cg)) by {
                    assert(witness_parts(map, p, 0, k, cpre, csuf));
                }
            } else {
                assert(0 <= nk < open.len() && open[nk].idx == p[k] && open[nk].exact@ <= cpre);
                assert(opt_witness(map, p, c, open, closed, cg)) by {
                    assert(witness_parts(map, p, nk, k, cpre, csuf));
                }
            }
        } else {
            let (k, cpre, csuf) = choose|k: int, cpre: int, csuf: int|
                {
                    &&& 0 <= k < p.len()
                    &&& #[trigger] split_at(map, p, k, cpre, csuf)
                    &&& c == cpre + csuf
                    &&& cpre >= 0
                    &&& csuf >= 0
                    &&& node.idx == p[k]
                    &&& node.exact@ <= cpre
                };
            assert(closed.contains(p[k]) && cg[p[k]] <= cpre);
            assert(opt_witness(map, p, c, open, closed, cg)) by {
                assert(witness_parts(map, p, 0, k, cpre, csuf));
            }
        }
    }
}

/// One competing walk cannot undercut the popped goal: its frontier
/// foothold (walked out of the expanded stretch if needed) bounds the
/// goal's priority from above.
#[verifier::rlimit(100)]
proof fn lemma_goal_one<M: BaseMap>(
    map: &M,
    start: i32,
    end: i32,
    pre_open: Seq<OpenNode>,
    node: OpenNode,
    closed: Seq<i32>,
    cg: Map<i32, int>,
    p: Seq<i32>,
    c: int,
)
    requires
        heuristic_consistent(map, end),
        cg_dom(closed, cg),
        !closed.contains(end),
        closed_relaxed(map, end, closed, cg, pre_open),
        opt_witness(map, p, c, pre_open, closed, cg),
        open_valid(map, pre_open, start, end),
        forall|k: int| 0 <= k < pre_open.len() ==> (#[trigger] pre_open[k]).f >= node.f,
        node.idx == end,
        node.exact@ >= 0,
        node.g == sat64(node.exact@),
        node.f == sat64(node.exact@ + map.spec_pathing_distance(end, end)),
        p.len() >= 1,
        p[p.len() - 1] == end,
        0 <= c < u64::MAX,
    ensures
        node.g as int <= sat64(c),
{
    assert(map.spec_pathing_distance(end, end) == 0);
    assert(node.f == node.g);
    assert(opt_witness(map, p, c, pre_open, closed, cg));
    let (nk, k, cpre, csuf) = choose|nk: int, k: int, cpre: int, csuf: int|
        {
            &&& 0 <= k < p.len()
            &&& #[trigger] witness_parts(map, p, nk, k, cpre, csuf)
            &&& c == cpre + csuf
            &&& cpre >= 0
            &&& csuf >= 0
            &&& ((closed.contains(p[k]) && cg[p[k]] <= cpre) || (0 <= nk < pre_open.len()
                && pre_open[nk].idx == p[k] && pre_open[nk].exact@ <= cpre))
        };
    assert(split_at(map, p, k, cpre, csuf));
    if closed.contains(p[k]) && cg[p[k]] <= cpre {
        lemma_closed_walk(map, end, closed, cg, pre_open, p, k, cpre, csuf);
        let (nk2, k2, cpre2, csuf2) = choose|nk2: int, k2: int, cpre2: int, csuf2: int|
            {
                &&& 0 <= nk2 < pre_open.len()
                &&& 0 <= k2 < p.len()
                &&& pre_open[nk2].idx == p[k2]
                &&& #[trigger] witness_parts(map, p, nk2, k2, cpre2, csuf2)
                &&& split_at(map, p, k2, cpre2, csuf2)
                &&& cpre2 + csuf2 == cpre + csuf
                &&& cpre2 >= 0
                &&& csuf2 >= 0
                &&& pre_open[nk2].exact@ <= cpre2
            };
        let suf = p.subrange(k2, p.len() as int);
        assert(suf[0] == p[k2] && suf[suf.len() - 1] == end);
        lemma_consistent_heuristic_admissible(map, end, suf, csuf2);
        assert(node_valid(map, pre_open[nk2], start, end));
        assert(node.f <= pre_open[nk2].f);
        assert(pre_open[nk2].f == sat64(
            pre_open[nk2].exact@ + map.spec_pathing_distance(p[k2], end),
        ));
        assert(pre_open[nk2].exact@ + map.spec_pathing_distance(p[k2], end) <= cpre2 + csuf2);
    } else {
        let suf = p.subrange(k, p.len() as int);
        assert(suf[0] == p[k] && suf[suf.len() - 1] == end);
        lemma_consistent_heuristic_admissible(map, end, suf, csuf);
        assert(node_valid(map, pre_open[nk], start, end));
        assert(node.f <= pre_open[nk].f);
        assert(pre_open[nk].f == sat64(
            pre_open[nk].exact@ + map.spec_pathing_distance(p[k], end),
        ));
        assert(pre_open[nk].exact@ + map.spec_pathing_distance(p[k], end) <= cpre + csuf);
    }
}

/// When the goal is popped at minimum priority, its cost undercuts every
/// competing walk: the open foothold of the walk (reached directly, or by
/// walking its expanded stretch out through relaxed edges) carries at least
/// the goal's priority.
#[verifier::rlimit(100)]
proof fn lemma_goal_minimal<M: BaseMap>(
    map: &M,
    start: i32,
    end: i32,
    pre_open: Seq<OpenNode>,
    node: OpenNode,
    closed: Seq<i32>,
    cg: Map<i32, int>,
)
    requires
        heuristic_consistent(map, end),
        cg_dom(closed, cg),
        !closed.contains(end),
        closed_relaxed(map, end, closed, cg, pre_open),
        opt_inv(map, start, end, pre_open, closed, cg),
        open_valid(map, pre_open, start, end),
        forall|k: int| 0 <= k < pre_open.len() ==> (#[trigger] pre_open[k]).f >= node.f,
        node.idx == end,
        node.exact@ >= 0,
        node.g == sat64(node.exact@),
        node.f == sat64(node.exact@ + map.spec_pathing_distance(end, end)),
    ensures
        forall|p: Seq<i32>, c: int|
            #![trigger is_path_between(map, p, start, end), is_costed_path(map, p, c)]
            is_path_between(map, p, start, end) && is_costed_path(map, p, c) ==> node.g as int
                <= sat64(c),
{
    assert forall|p: Seq<i32>, c: int|
        #![trigger is_path_between(map, p, start, end), is_costed_path(map, p, c)]
        is_path_between(map, p, start, end) && is_costed_path(map, p, c) implies node.g as int
        <= sat64(c) by {
        lemma_costed_path_nonneg(map, p, c);
        if c < u64::MAX {
            assert(competing(map, p, c, start, end));
            assert(opt_witness(map, p, c, pre_open, closed, cg));
            lemma_goal_one(map, start, end, pre_open, node, closed, cg, p, c);
        } else {
            assert(node.g as int <= u64::MAX);
        }
    }
}

/// Whether a vector of tiles contains `x`.

/// Whether a vector of tiles contains `x`.

/// Whether a vector of tiles contains `x`.

/// Whether a vector of tiles contains `x`.
fn contains_i32(v: &Vec<i32>, x: i32) -> (r: bool)
    ensures
        r == v@.contains(x),
{
    let n = v.len();
    let mut i: usize = 0;
    while i < n
        invariant
            n == v@.len(),
            0 <= i <= n,
            forall|k: int| 0 <= k < i ==> v@[k] != x,
        decreases n - i,
    {
        if v[i] == x {
            return true;
        }
        i += 1;
    }
    false
}

/// Copies a vector of tiles.
fn copy_i32_vec(v: &Vec<i32>) -> (r: Vec<i32>)
    ensures
        r@ == v@,
{
    let n = v.len();
    let mut r: Vec<i32> = Vec::new();
    let mut i: usize = 0;
    while i < n
        invariant
            n == v@.len(),
            0 <= i <= n,
            r@ == v@.take(i as int),
        decreases n - i,
    {
        r.push(v[i]);
        proof {
            assert(r@ =~= v@.take(i as int + 1));
        }
        i += 1;
    }
    proof {
        assert(v@.take(n as int) =~= v@);
    }
    r
}

/// Searches for a path from `start` to `end` through the map's exits,
/// expanding lowest `f = g + h` first. On success the returned steps lead
/// from `start` to `end` along map edges and the returned cost is the
/// (saturating) sum of the traversed edge costs; the search fails exactly
/// when `end` is unreachable from `start`. When the heuristic is consistent
/// the returned cost is additionally minimal: no walk from `start` to `end`
/// costs less.
#[verifier::rlimit(100)]
pub fn a_star_search<M: BaseMap>(start: i32, end: i32, map: &M) -> (r: NavigationPath)
    ensures
        r.destination == end,
        r.success ==> is_path_between(map, r.steps@, start, end),
        r.success ==> exists|c: int| is_costed_path(map, r.steps@, c) && r.cost == sat64(c),
        !r.success ==> !reachable(map, start, end) && r.steps@.len() == 0,
        r.success && heuristic_consistent(map, end) ==> forall|p: Seq<i32>, c: int|
            #![trigger is_path_between(map, p, start, end), is_costed_path(map, p, c)]
            is_path_between(map, p, start, end) && is_costed_path(map, p, c) ==> r.cost as int
                <= sat64(c),
{
    if start == end {
        let mut steps: Vec<i32> = Vec::new();
        steps.push(start);
        proof {
            assert(is_costed_path(map, steps@, 0));
            assert(sat64(0) == 0);
            assert forall|p: Seq<i32>, c: int|
                is_path_between(map, p, start, end) && is_costed_path(
                    map,
                    p,
                    c,
                ) implies 0 <= sat64(c) by {
                lemma_costed_path_nonneg(map, p, c);
            }
        }
        return NavigationPath { destination: end, success: true, steps, cost: 0 };
    }
    let h0 = map.get_pathing_distance(start, end);
    let mut start_steps: Vec<i32> = Vec::new();
    start_steps.push(start);
    let mut open: Vec<OpenNode> = Vec::new();
    let first = OpenNode { idx: start, f: h0, g: 0, steps: start_steps, exact: Ghost(0) };
    proof {
        assert(is_costed_path(map, first.steps@, 0));
        assert(node_valid(map, first, start, end));
    }
    open.push(first);
    let mut closed: Vec<i32> = Vec::new();
    let ghost mut cg: Map<i32, int> = Map::empty();
    proof {
        assert(open@[0].idx == start);
        assert(in_open(open@, start));
        if heuristic_consistent(map, end) {
            assert forall|p: Seq<i32>, c: int|
                #[trigger] competing(map, p, c, start, end) implies opt_witness(
                map,
                p,
                c,
                open@,
                closed@,
                cg,
            ) by {
                lemma_costed_path_nonneg(map, p, c);
                assert(p.subrange(0, 1) =~= seq![start]);
                assert(is_costed_path(map, p.subrange(0, 1), 0));
                assert(p.subrange(0, p.len() as int) =~= p);
                assert(split_at(map, p, 0, 0, c));
                assert(witness_parts(map, p, 0, 0, 0, c));
                assert(open@[0].idx == p[0] && open@[0].exact@ <= 0);
            }
        }
    }
    loop
        invariant_except_break
            open_valid(map, open@, start, end),
            closure_inv(map, closed@, open@),
            closed@.contains(start) || in_open(open@, start),
            !closed@.contains(end),
            closed@.no_duplicates(),
            closed@.len() <= 0x1_0000_0000,
            heuristic_consistent(map, end) ==> cg_dom(closed@, cg) && f_low(
                map,
                end,
                closed@,
                cg,
                open@,
            ) && closed_relaxed(map, end, closed@, cg, open@) && opt_inv(
                map,
                start,
                end,
                open@,
                closed@,
                cg,
            ),
        ensures
            open@.len() == 0,
            closure_inv(map, closed@, open@),
            closed@.contains(start),
            !closed@.contains(end),
        decreases 0x1_0000_0001 - closed@.len(), open@.len(),
    {
        if open.len() == 0 {
            proof {
                assert(closed@.contains(start));
            }
            break ;
        }
        // Pick the lowest f; on ties the most recently enqueued wins.
        let mut best: usize = 0;
        let mut bi: usize = 1;
        while bi < open.len()
            invariant
                open@.len() >= 1,
                best < open@.len(),
                1 <= bi <= open@.len(),
                forall|k: int| 0 <= k < bi ==> (#[trigger] open@[k]).f >= open@[best as int].f,
            decreases open@.len() - bi,
        {
            if open[bi].f <= open[best].f {
                best = bi;
            }
            bi += 1;
        }
        let ghost pre_open = open@;
        let node = open.remove(best);
        proof {
            assert(node == pre_open[best as int]);
            assert(node_valid(map, node, start, end));
            assert(forall|k: int|
                0 <= k < pre_open.len() ==> (#[trigger] pre_open[k]).f >= node.f);
            assert(open_valid(map, open@, start, end)) by {
                assert forall|k: int| 0 <= k < open@.len() implies node_valid(
                    map,
                    #[trigger] open@[k],
                    start,
                    end,
                ) by {
                    if k < best {
                        assert(open@[k] == pre_open[k]);
                    } else {
                        assert(open@[k] == pre_open[k + 1]);
                    }
                }
            }
            assert(forall|k: int| 0 <= k < open@.len() ==> (#[trigger] open@[k]).f >= node.f) by {
                assert forall|k: int| 0 <= k < open@.len() implies (#[trigger] open@[k]).f
                    >= node.f by {
                    if k < best {
                        assert(open@[k] == pre_open[k]);
                    } else {
                        assert(open@[k] == pre_open[k + 1]);
                    }
                }
            }
        }
        proof {
            assert forall|ci: int, j: int|
                0 <= ci < closed@.len() && 0 <= j < map.spec_exits(
                    closed@[ci],
                ).len() implies closed@.contains(
                (#[trigger] map.spec_exits(closed@[ci])[j]).0,
            ) || in_open(open@, map.spec_exits(closed@[ci])[j].0) || map.spec_exits(
                closed@[ci],
            )[j].0 == node.idx by {
                let dest = map.spec_exits(closed@[ci])[j].0;
                if !closed@.contains(dest) && dest != node.idx {
                    let k = choose|k: int|
                        0 <= k < pre_open.len() && (#[trigger] pre_open[k]).idx == dest;
                    if k < best {
                        assert(open@[k] == pre_open[k]);
                        assert(in_open(open@, dest));
                    } else {
                        assert(open@[k - 1] == pre_open[k]);
                        assert(in_open(open@, dest));
                    }
                }
            }
            assert(closed@.contains(start) || in_open(open@, start) || node.idx == start) by {
                if !closed@.contains(start) {
                    let k = choose|k: int|
                        0 <= k < pre_open.len() && (#[trigger] pre_open[k]).idx == start;
                    if k != best {
                        if k < best {
                            assert(open@[k] == pre_open[k]);
                        } else {
                            assert(open@[k - 1] == pre_open[k]);
                        }
                    } else {
                        assert(node.idx == start);
                    }
                }
            }
            if heuristic_consistent(map, end) {
                lemma_after_pop(map, start, end, pre_open, best as int, open@, node, closed@, cg);
            }
        }
        if contains_i32(&closed, node.idx) {
            proof {
                if heuristic_consistent(map, end) {
                    let ci0 = choose|ci0: int|
                        0 <= ci0 < closed@.len() && closed@[ci0] == node.idx;
                    assert(sat64(
                        cg[node.idx] + map.spec_pathing_distance(node.idx, end),
                    ) <= pre_open[best as int].f);
                    lemma_stale_restore(map, start, end, open@, node, closed@, cg);
                }
            }
            continue ;
        }
        if node.idx == end {
            proof {
                assert(is_costed_path(map, node.steps@, node.exact@));
                assert(node.g == sat64(node.exact@));
                if heuristic_consistent(map, end) {
                    lemma_goal_minimal(map, start, end, pre_open, node, closed@, cg);
                }
            }
            return NavigationPath {
                destination: end,
                success: true,
                cost: node.g,
                steps: node.steps,
            };
        }
        let ghost pre_closed = closed@;
        let ghost pre_cg = cg;
        closed.push(node.idx);
        proof {
            lemma_distinct_i32_len(closed@);
        }
        let ghost base_closed = closed@;
        let ghost h_node = map.spec_pathing_distance(node.idx, end);
        proof {
            if heuristic_consistent(map, end) {
                cg = cg.insert(node.idx, node.exact@);
                assert forall|ci: int| 0 <= ci < pre_closed.len() implies sat64(
                    pre_cg[#[trigger] pre_closed[ci]] + map.spec_pathing_distance(
                        pre_closed[ci],
                        end,
                    ),
                ) <= node.f by {
                    assert(sat64(
                        pre_cg[pre_closed[ci]] + map.spec_pathing_distance(pre_closed[ci], end),
                    ) <= pre_open[best as int].f);
                }
                lemma_close_restore(
                    map,
                    start,
                    end,
                    open@,
                    node,
                    pre_closed,
                    pre_cg,
                    closed@,
                    cg,
                );
            }
        }
        let exits = map.get_available_exits(node.idx);
        let mut j: usize = 0;
        while j < exits.len()
            invariant
                exits@ == map.spec_exits(node.idx),
                0 <= j <= exits@.len(),
                closed@ == base_closed,
                closed@.no_duplicates(),
                closed@.len() <= 0x1_0000_0000,
                !closed@.contains(end),
                closed@.len() >= 1,
                closed@[closed@.len() - 1] == node.idx,
                node_valid(map, node, start, end),
                node.idx != end,
                h_node == map.spec_pathing_distance(node.idx, end),
                open_valid(map, open@, start, end),
                closed@.contains(start) || in_open(open@, start),
                forall|ci: int, jj: int|
                    0 <= ci < closed@.len() && 0 <= jj < map.spec_exits(closed@[ci]).len() && (ci
                        < closed@.len() - 1 || jj < j) ==> closed@.contains(
                        (#[trigger] map.spec_exits(closed@[ci])[jj]).0,
                    ) || in_open(open@, map.spec_exits(closed@[ci])[jj].0),
                heuristic_consistent(map, end) ==> {
                    &&& cg_dom(closed@, cg)
                    &&& cg[node.idx] == node.exact@
                    &&& f_low(map, end, closed@, cg, open@)
                    &&& opt_inv(map, start, end, open@, closed@, cg)
                    &&& (forall|ci: int|
                        0 <= ci < closed@.len() ==> sat64(
                            cg[#[trigger] closed@[ci]] + map.spec_pathing_distance(
                                closed@[ci],
                                end,
                            ),
                        ) <= node.f)
                    &&& (forall|ci: int, jj: int|
                        0 <= ci < closed@.len() && 0 <= jj < map.spec_exits(closed@[ci]).len()
                            && (ci < closed@.len() - 1 || jj < j) ==> edge_relaxed(
                            map,
                            end,
                            closed@,
                            cg,
                            open@,
                            closed@[ci],
                            (#[trigger] map.spec_exits(closed@[ci])[jj]).0,
                            map.spec_exits(closed@[ci])[jj].1,
                        ))
                },
            decreases exits@.len() - j,
        {
            let e = exits[j];
            let nbr = e.0;
            let w = e.1;
            let ghost pre = open@;
            let ghost hb = map.spec_pathing_distance(nbr, end);
            if !contains_i32(&closed, nbr) {
                let g2 = sat_add_u64(node.g, w);
                let h2 = map.get_pathing_distance(nbr, end);
                let f2 = sat_add_u64(g2, h2);
                let mut steps2 = copy_i32_vec(&node.steps);
                steps2.push(nbr);
                proof {
                    lemma_costed_path_nonneg(map, node.steps@, node.exact@);
                    lemma_costed_path_extend(map, node.steps@, node.exact@, j as int);
                    lemma_costed_path_is_path(map, steps2@, node.exact@ + w);
                }
                let next = OpenNode {
                    idx: nbr,
                    f: f2,
                    g: g2,
                    steps: steps2,
                    exact: Ghost(node.exact@ + w as int),
                };
                proof {
                    assert(next.steps@[0] == start);
                    assert(next.steps@[next.steps@.len() - 1] == nbr);
                    assert(g2 == sat64(node.exact@ + w));
                    assert(f2 == sat64(node.exact@ + w + hb));
                    assert(node_valid(map, next, start, end));
                }
                open.push(next);
                proof {
                    assert(open_valid(map, open@, start, end)) by {
                        assert forall|k: int| 0 <= k < open@.len() implies node_valid(
                            map,
                            #[trigger] open@[k],
                            start,
                            end,
                        ) by {
                            if k < pre.len() {
                                assert(open@[k] == pre[k]);
                            }
                        }
                    }
                    assert(in_open(open@, nbr)) by {
                        assert(open@[open@.len() - 1].idx == nbr);
                    }
                    assert forall|idx: i32| in_open(pre, idx) implies in_open(open@, idx) by {
                        let k = choose|k: int|
                            0 <= k < pre.len() && (#[trigger] pre[k]).idx == idx;
                        assert(open@[k] == pre[k]);
                    }
                    if heuristic_consistent(map, end) {
                        // The new candidate's priority is no better than the
                        // expanded tile's: the heuristic is consistent.
                        assert(h_node <= w + hb);
                        assert(next.f >= node.f);
                        assert(f_low(map, end, closed@, cg, open@)) by {
                            assert forall|ci: int, nk: int|
                                0 <= ci < closed@.len() && 0 <= nk < open@.len() implies sat64(
                                cg[#[trigger] closed@[ci]] + map.spec_pathing_distance(
                                    closed@[ci],
                                    end,
                                ),
                            ) <= (#[trigger] open@[nk]).f by {
                                if nk < pre.len() {
                                    assert(open@[nk] == pre[nk]);
                                } else {
                                    assert(open@[nk] == next);
                                    assert(sat64(
                                        cg[closed@[ci]] + map.spec_pathing_distance(
                                            closed@[ci],
                                            end,
                                        ),
                                    ) <= node.f);
                                }
                            }
                        }
                        assert forall|p: Seq<i32>, c: int|
                            #[trigger] competing(map, p, c, start, end) implies opt_witness(
                            map,
                            p,
                            c,
                            open@,
                            closed@,
                            cg,
                        ) by {
                            assert(opt_witness(map, p, c, pre, closed@, cg));
                            let (nk, k, cpre, csuf) = choose|
                                nk: int,
                                k: int,
                                cpre: int,
                                csuf: int,
                            |
                                {
                                    &&& 0 <= k < p.len()
                                    &&& #[trigger] witness_parts(map, p, nk, k, cpre, csuf)
                                    &&& c == cpre + csuf
                                    &&& cpre >= 0
                                    &&& csuf >= 0
                                    &&& ((closed@.contains(p[k]) && cg[p[k]] <= cpre) || (0 <= nk
                                        < pre.len() && pre[nk].idx == p[k] && pre[nk].exact@
                                        <= cpre))
                                };
                            assert(split_at(map, p, k, cpre, csuf));
                            if !(closed@.contains(p[k]) && cg[p[k]] <= cpre) {
                                assert(open@[nk] == pre[nk]);
                            }
                            assert(opt_witness(map, p, c, open@, closed@, cg));
                        }
                        // The processed edge is now relaxed by the push.
                        assert(sat64(next.exact@ + hb) <= sat64(cg[node.idx] + w + hb));
                    }
                }
            } else {
                proof {
                    if heuristic_consistent(map, end) {
                        // The destination is already expanded; its recorded
                        // priority sits below this tile's, so the edge is
                        // relaxed toward the record.
                        let ci2 = choose|ci2: int|
                            0 <= ci2 < closed@.len() && closed@[ci2] == nbr;
                        assert(sat64(cg[nbr] + hb) <= node.f);
                        assert(node.f == sat64(node.exact@ + h_node));
                        assert(h_node <= w + hb);
                        assert(sat64(node.exact@ + h_node) <= sat64(cg[node.idx] + w + hb));
                        assert(sat64(cg[nbr] + hb) <= sat64(cg[node.idx] + w + hb));
                    }
                }
            }
            proof {
                assert forall|idx: i32| in_open(pre, idx) implies in_open(open@, idx) by {
                    let k = choose|k: int| 0 <= k < pre.len() && (#[trigger] pre[k]).idx == idx;
                    assert(open@[k] == pre[k]);
                }
                assert(closed@.contains(nbr) || in_open(open@, nbr));
                assert(map.spec_exits(node.idx)[j as int].0 == nbr);
                if heuristic_consistent(map, end) {
                    assert forall|ci: int, jj: int|
                        0 <= ci < closed@.len() && 0 <= jj < map.spec_exits(closed@[ci]).len()
                            && (ci < closed@.len() - 1 || jj < j + 1) implies edge_relaxed(
                        map,
                        end,
                        closed@,
                        cg,
                        open@,
                        closed@[ci],
                        (#[trigger] map.spec_exits(closed@[ci])[jj]).0,
                        map.spec_exits(closed@[ci])[jj].1,
                    ) by {
                        let a = closed@[ci];
                        let b = map.spec_exits(a)[jj].0;
                        let w2 = map.spec_exits(a)[jj].1;
                        let hb2 = map.spec_pathing_distance(b, end);
                        if ci < closed@.len() - 1 || jj < j {
                            assert(edge_relaxed(map, end, closed@, cg, pre, a, b, w2));
                            if !(closed@.contains(b) && sat64(cg[b] + hb2) <= sat64(
                                cg[a] + w2 + hb2,
                            )) {
                                let nk = choose|nk: int|
                                    0 <= nk < pre.len() && (#[trigger] pre[nk]).idx == b && sat64(
                                        pre[nk].exact@ + hb2,
                                    ) <= sat64(cg[a] + w2 + hb2);
                                assert(open@[nk] == pre[nk]);
                            }
                        } else {
                            assert(ci == closed@.len() - 1 && jj == j);
                            assert(a == node.idx && b == nbr && w2 == w);
                            if closed@.contains(nbr) {
                                assert(sat64(cg[nbr] + hb) <= sat64(cg[node.idx] + w + hb));
                            } else {
                                assert(open@[open@.len() - 1].idx == nbr);
                                assert(sat64(open@[open@.len() - 1].exact@ + hb) <= sat64(
                                    cg[node.idx] + w + hb,
                                ));
                            }
                        }
                    }
                }
            }
            j += 1;
        }
        proof {
            assert(closure_inv(map, closed@, open@));
            if heuristic_consistent(map, end) {
                assert(closed_relaxed(map, end, closed@, cg, open@));
            }
        }
    }
    proof {
        if reachable(map, start, end) {
            let p = choose|p: Seq<i32>| is_path_between(map, p, start, end);
            assert forall|ci: int, j: int|
                0 <= ci < closed@.len() && 0 <= j < map.spec_exits(
                    closed@[ci],
                ).len() implies closed@.contains(
                (#[trigger] map.spec_exits(closed@[ci])[j]).0,
            ) by {
                assert(!in_open(open@, map.spec_exits(closed@[ci])[j].0));
            }
            lemma_closed_covers_path(map, closed@, p);
            assert(closed@.contains(end));
            assert(false);
        }
    }
    NavigationPath { destination: end, success: false, steps: Vec::new(), cost: 0 }
}

} // verus!
