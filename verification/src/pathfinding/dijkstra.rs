//! Flood-fill (Dijkstra-style) distance maps.
//!
//! A uniform-cost, multi-source labeling pass: starting from the seed tiles
//! at cost zero, expansion follows the map's exits and records the minimal
//! accumulated cost to reach every tile, capped at a maximum depth. The
//! output is a full distance map (`None` marks an unreached tile) that
//! callers reuse across many queries, for instance to walk toward a
//! decreasing-cost neighbor without re-running a full search.

use vstd::prelude::*;

use crate::pathfinding::BaseMap;
use crate::pathfinding::is_costed_path;
use crate::pathfinding::lemma_costed_path_extend;
use crate::pathfinding::lemma_costed_path_nonneg;
use crate::pathfinding::sat64;
use crate::pathfinding::sat_add_u64;

verus! {

/// Alias for a costed walk, used as a stable quantifier trigger.
pub open spec fn costed<M: BaseMap>(map: &M, p: Seq<i32>, e: int) -> bool {
    is_costed_path(map, p, e)
}

/// Whether cost `c` is realized by some walk that starts on a seed tile,
/// stays within the first `size` tiles, and ends on tile `b`; `c` is the
/// walk's exact cost, saturated.
pub open spec fn seeded_cost<M: BaseMap>(
    map: &M,
    starts: Seq<i32>,
    size: int,
    b: i32,
    c: int,
) -> bool {
    exists|p: Seq<i32>, e: int|
        #![trigger costed(map, p, e)]
        {
            &&& costed(map, p, e)
            &&& starts.contains(p[0])
            &&& p[p.len() - 1] == b
            &&& (forall|i: int| 0 <= i < p.len() ==> 0 <= #[trigger] p[i] < size)
            &&& c == sat64(e)
        }
}

/// One recorded edge obligation of the finished map: if following edge `j`
/// out of the labeled tile `a` stays in range and under the depth cap, its
/// destination is labeled with no more than that relaxation.
pub open spec fn edge_settled<M: BaseMap>(
    map: &M,
    d: Seq<Option<u64>>,
    cap: int,
    a: int,
    j: int,
) -> bool {
    let b = map.spec_exits(a as i32)[j].0;
    let w = map.spec_exits(a as i32)[j].1;
    let ca = d[a]->0;
    (0 <= b < d.len() && sat64(ca + w) <= cap) ==> d[b as int] is Some && d[b as int]->0 <= sat64(
        ca + w,
    )
}

/// The rank a tile contributes to the termination potential: its label, or
/// one past the cap for unlabeled tiles.
pub open spec fn rank(o: Option<u64>, cap: int) -> int {
    match o {
        Option::None => cap + 1,
        Option::Some(c) => c as int,
    }
}

/// The termination potential of a distance map: the sum of all tile ranks.
/// Every relaxation strictly lowers it.
pub open spec fn phi(d: Seq<Option<u64>>, cap: int) -> int
    decreases d.len(),
{
    if d.len() == 0 {
        0
    } else {
        rank(d[0], cap) + phi(d.drop_first(), cap)
    }
}

/// The potential is non-negative for a non-negative cap.
proof fn lemma_phi_nonneg(d: Seq<Option<u64>>, cap: int)
    requires
        cap >= 0,
    ensures
        phi(d, cap) >= 0,
    decreases d.len(),
{
    if d.len() > 0 {
        lemma_phi_nonneg(d.drop_first(), cap);
    }
}

/// Updating one tile changes the potential by the difference of ranks.
proof fn lemma_phi_update(d: Seq<Option<u64>>, i: int, v: Option<u64>, cap: int)
    requires
        0 <= i < d.len(),
    ensures
        phi(d.update(i, v), cap) == phi(d, cap) - rank(d[i], cap) + rank(v, cap),
    decreases d.len(),
{
    let du = d.update(i, v);
    if i == 0 {
        assert(du.drop_first() =~= d.drop_first());
    } else {
        assert(du.drop_first() =~= d.drop_first().update(i - 1, v));
        lemma_phi_update(d.drop_first(), i - 1, v, cap);
    }
}

/// A flood-fill distance map over the first `size` tiles of a map: for each
/// tile, the minimal accumulated exit cost from the nearest seed, computed
/// up to the depth cap; `None` marks tiles not reached within the cap.
pub struct DijkstraMap {
    /// The per-tile cost labels.
    pub map: Vec<Option<u64>>,
    /// The depth cap the map was built with.
    pub max_depth: u64,
}

impl DijkstraMap {
    /// Builds the distance map for the first `size` tiles, seeded at cost
    /// zero on every in-range tile of `starts`, expanding along `map`'s
    /// exits and recording costs up to `max_depth`.
    ///
    /// The result satisfies, for every labeled tile: its label is realized
    /// by an actual seeded walk (so labels are never too small), and no
    /// in-range edge under the cap could lower a neighbor's label (local
    /// optimality: the flood-fill monotonicity law).
    #[verifier::rlimit(100)]
    pub fn new<M: BaseMap>(size: usize, starts: &Vec<i32>, map: &M, max_depth: u64) -> (d:
        DijkstraMap)
        requires
            size <= 0x7fff_ffff,
        ensures
            d.map@.len() == size,
            d.max_depth == max_depth,
            forall|k: int|
                0 <= k < starts@.len() && 0 <= #[trigger] starts@[k] < size ==> d.map@[starts@[k] as int]
                    == Some(0u64),
            forall|i: int|
                0 <= i < size ==> ((#[trigger] d.map@[i]) is Some ==> d.map@[i]->0 <= max_depth
                    && seeded_cost(map, starts@, size as int, i as i32, d.map@[i]->0 as int)),
            forall|a: int, j: int|
                #![trigger d.map@[a], map.spec_exits(a as i32)[j]]
                0 <= a < size && d.map@[a] is Some && 0 <= j < map.spec_exits(a as i32).len()
                    ==> edge_settled(map, d.map@, max_depth as int, a, j),
    {
        let mut dist: Vec<Option<u64>> = Vec::new();
        let mut i: usize = 0;
        while i < size
            invariant
                0 <= i <= size,
                dist@.len() == i,
                forall|k: int| 0 <= k < i ==> (#[trigger] dist@[k]) is None,
            decreases size - i,
        {
            dist.push(None);
            i += 1;
        }
        let mut queue: Vec<i32> = Vec::new();
        let mut si: usize = 0;
        while si < starts.len()
            invariant
                0 <= si <= starts@.len(),
                dist@.len() == size,
                size <= 0x7fff_ffff,
                forall|k: int| 0 <= k < queue@.len() ==> 0 <= #[trigger] queue@[k] < size,
                forall|k: int|
                    0 <= k < queue@.len() ==> (#[trigger] dist@[queue@[k] as int]) is Some,
                forall|k: int|
                    0 <= k < si && 0 <= #[trigger] starts@[k] < size ==> dist@[starts@[k] as int]
                        == Some(0u64),
                forall|i2: int|
                    0 <= i2 < size ==> ((#[trigger] dist@[i2]) is Some ==> dist@[i2] == Some(0u64)
                        && seeded_cost(map, starts@, size as int, i2 as i32, 0)),
                forall|i2: int|
                    0 <= i2 < size ==> ((#[trigger] dist@[i2]) is Some ==> pending(queue@, 0, i2)),
            decreases starts@.len() - si,
        {
            let s = starts[si];
            if s >= 0 && (s as usize) < size {
                dist[s as usize] = Some(0u64);
                let ghost pre_q = queue@;
                queue.push(s);
                proof {
                    let p = seq![s];
                    assert(costed(map, p, 0));
                    assert(p[p.len() - 1] == s);
                    assert(starts@.contains(s)) by {
                        assert(starts@[si as int] == s);
                    }
                    assert(forall|i2: int| 0 <= i2 < p.len() ==> 0 <= #[trigger] p[i2] < size);
                    assert(seeded_cost(map, starts@, size as int, s, 0));
                    assert((s as usize) as int == s as int);
                    assert(queue@ =~= pre_q.push(s));
                    assert(queue@[queue@.len() - 1] == s);
                    assert forall|i2: int|
                        0 <= i2 < size && (#[trigger] dist@[i2]) is Some implies pending(
                        queue@,
                        0,
                        i2,
                    ) by {
                        if i2 == s as int {
                            assert(queue@[queue@.len() - 1] == i2 as i32);
                        } else {
                            let k = choose|k: int|
                                0 <= k < pre_q.len() && (#[trigger] pre_q[k]) == i2 as i32;
                            assert(queue@[k] == i2 as i32);
                        }
                    }
                }
            }
            si += 1;
        }
        let ghost startsg = starts@;
        let mut qhead: usize = 0;
        loop
            invariant_except_break
                dist@.len() == size,
                size <= 0x7fff_ffff,
                0 <= qhead <= queue@.len(),
                forall|k: int| 0 <= k < queue@.len() ==> 0 <= #[trigger] queue@[k] < size,
                forall|k: int|
                    0 <= k < queue@.len() ==> (#[trigger] dist@[queue@[k] as int]) is Some,
                forall|k: int|
                    0 <= k < startsg.len() && 0 <= #[trigger] startsg[k] < size ==> dist@[startsg[k] as int]
                        == Some(0u64),
                forall|i2: int|
                    0 <= i2 < size ==> ((#[trigger] dist@[i2]) is Some ==> dist@[i2]->0
                        <= max_depth && seeded_cost(
                        map,
                        startsg,
                        size as int,
                        i2 as i32,
                        dist@[i2]->0 as int,
                    )),
                forall|a: int, j: int|
                    #![trigger dist@[a], map.spec_exits(a as i32)[j]]
                    0 <= a < size && dist@[a] is Some && !pending(queue@, qhead as int, a) && 0
                        <= j < map.spec_exits(a as i32).len() ==> edge_settled(
                        map,
                        dist@,
                        max_depth as int,
                        a,
                        j,
                    ),
            ensures
                dist@.len() == size,
                forall|k: int|
                    0 <= k < startsg.len() && 0 <= #[trigger] startsg[k] < size ==> dist@[startsg[k] as int]
                        == Some(0u64),
                forall|i2: int|
                    0 <= i2 < size ==> ((#[trigger] dist@[i2]) is Some ==> dist@[i2]->0
                        <= max_depth && seeded_cost(
                        map,
                        startsg,
                        size as int,
                        i2 as i32,
                        dist@[i2]->0 as int,
                    )),
                forall|a: int, j: int|
                    #![trigger dist@[a], map.spec_exits(a as i32)[j]]
                    0 <= a < size && dist@[a] is Some && 0 <= j < map.spec_exits(a as i32).len()
                        ==> edge_settled(map, dist@, max_depth as int, a, j),
            decreases phi(dist@, max_depth as int), queue@.len() - qhead,
        {
            if qhead >= queue.len() {
                proof {
                    assert forall|a: int, j: int|
                        #![trigger dist@[a], map.spec_exits(a as i32)[j]]
                        0 <= a < size && dist@[a] is Some && 0 <= j < map.spec_exits(
                            a as i32,
                        ).len() implies edge_settled(map, dist@, max_depth as int, a, j) by {
                        assert(!pending(queue@, qhead as int, a));
                    }
                }
                break ;
            }
            let cur = queue[qhead];
            proof {
                assert(dist@[cur as int] is Some);
                lemma_phi_nonneg(dist@, max_depth as int);
            }
            qhead += 1;
            let cu = cur as usize;
            let dc = match dist[cu] {
                Some(c) => c,
                None => 0,
            };
            let ghost phi_pop = phi(dist@, max_depth as int);
            let ghost pre_qlen = queue@.len();
            let exits = map.get_available_exits(cur);
            let mut j: usize = 0;
            while j < exits.len()
                invariant
                    exits@ == map.spec_exits(cur),
                    0 <= j <= exits@.len(),
                    dist@.len() == size,
                    size <= 0x7fff_ffff,
                    0 <= cur < size,
                    qhead <= queue@.len(),
                    dist@[cur as int] == Some(dc),
                    dc <= max_depth,
                    phi(dist@, max_depth as int) <= phi_pop,
                    phi(dist@, max_depth as int) >= 0,
                    queue@.len() >= pre_qlen,
                    queue@.len() > pre_qlen ==> phi(dist@, max_depth as int) < phi_pop,
                    forall|k: int| 0 <= k < queue@.len() ==> 0 <= #[trigger] queue@[k] < size,
                    forall|k: int|
                        0 <= k < queue@.len() ==> (#[trigger] dist@[queue@[k] as int]) is Some,
                    forall|k: int|
                        0 <= k < startsg.len() && 0 <= #[trigger] startsg[k] < size
                            ==> dist@[startsg[k] as int] == Some(0u64),
                    forall|i2: int|
                        0 <= i2 < size ==> ((#[trigger] dist@[i2]) is Some ==> dist@[i2]->0
                            <= max_depth && seeded_cost(
                            map,
                            startsg,
                            size as int,
                            i2 as i32,
                            dist@[i2]->0 as int,
                        )),
                    forall|a: int, jj: int|
                        #![trigger dist@[a], map.spec_exits(a as i32)[jj]]
                        0 <= a < size && dist@[a] is Some && !pending(queue@, qhead as int, a) && 0
                            <= jj < map.spec_exits(a as i32).len() && (a != cur as int || jj < j)
                            ==> edge_settled(map, dist@, max_depth as int, a, jj),
                decreases exits@.len() - j,
            {
                let e = exits[j];
                let b = e.0;
                let w = e.1;
                if b >= 0 && (b as usize) < size {
                    let nd = sat_add_u64(dc, w);
                    if nd <= max_depth {
                        let bu = b as usize;
                        let needs = match dist[bu] {
                            None => true,
                            Some(cb) => nd < cb,
                        };
                        if needs {
                            let ghost pre_dist = dist@;
                            let ghost pre_queue = queue@;
                            dist[bu] = Some(nd);
                            queue.push(b);
                            proof {
                                lemma_phi_update(
                                    pre_dist,
                                    bu as int,
                                    Some(nd),
                                    max_depth as int,
                                );
                                assert(rank(Some(nd), max_depth as int) < rank(
                                    pre_dist[bu as int],
                                    max_depth as int,
                                ));
                                lemma_phi_nonneg(dist@, max_depth as int);
                                // The new label is realized by extending a
                                // seeded walk to `cur` by this edge.
                                let (p0, e0) = choose|p0: Seq<i32>, e0: int|
                                    #![trigger costed(map, p0, e0)]
                                    {
                                        &&& costed(map, p0, e0)
                                        &&& startsg.contains(p0[0])
                                        &&& p0[p0.len() - 1] == cur
                                        &&& (forall|i2: int|
                                            0 <= i2 < p0.len() ==> 0 <= #[trigger] p0[i2] < size)
                                        &&& dc as int == sat64(e0)
                                    };
                                lemma_costed_path_nonneg(map, p0, e0);
                                lemma_costed_path_extend(map, p0, e0, j as int);
                                let p1 = p0.push(b);
                                assert(costed(map, p1, e0 + w));
                                assert(p1[p1.len() - 1] == b);
                                assert(p1[0] == p0[0]);
                                assert(forall|i2: int|
                                    0 <= i2 < p1.len() ==> 0 <= #[trigger] p1[i2] < size);
                                assert(nd as int == sat64(e0 + w));
                                assert(seeded_cost(map, startsg, size as int, b, nd as int));
                                // Seeds keep their zero label: a seed's label
                                // cannot decrease below zero.
                                assert forall|k: int|
                                    0 <= k < startsg.len() && 0 <= #[trigger] startsg[k]
                                        < size implies dist@[startsg[k] as int] == Some(0u64) by {
                                    if startsg[k] as int == bu as int {
                                        assert(pre_dist[startsg[k] as int] == Some(0u64));
                                        assert(false);
                                    }
                                }
                                // The relaxed tile is pending, so settled
                                // obligations survive the update.
                                assert(pending(queue@, qhead as int, bu as int)) by {
                                    assert(queue@[queue@.len() - 1] == b);
                                }
                                assert forall|a: int, jj: int|
                                    #![trigger dist@[a], map.spec_exits(a as i32)[jj]]
                                    0 <= a < size && dist@[a] is Some && !pending(
                                        queue@,
                                        qhead as int,
                                        a,
                                    ) && 0 <= jj < map.spec_exits(a as i32).len() && (a
                                        != cur as int || jj < j + 1) implies edge_settled(
                                    map,
                                    dist@,
                                    max_depth as int,
                                    a,
                                    jj,
                                ) by {
                                    assert(a != bu as int);
                                    assert(dist@[a] == pre_dist[a]);
                                    assert(!pending(pre_queue, qhead as int, a)) by {
                                        if pending(pre_queue, qhead as int, a) {
                                            let k = choose|k: int|
                                                qhead <= k < pre_queue.len() && pre_queue[k]
                                                    == a as i32;
                                            assert(queue@[k] == a as i32);
                                        }
                                    }
                                    if a != cur as int || jj < j {
                                        assert(edge_settled(map, pre_dist, max_depth as int, a, jj));
                                        let b2 = map.spec_exits(a as i32)[jj].0;
                                        let w2 = map.spec_exits(a as i32)[jj].1;
                                        let ca = dist@[a]->0;
                                        if 0 <= b2 < size && sat64(ca + w2) <= max_depth {
                                            assert(pre_dist[b2 as int] is Some && pre_dist[b2 as int]->0
                                                <= sat64(ca + w2));
                                            if b2 as int == bu as int {
                                                assert(dist@[b2 as int]->0 == nd);
                                                assert(nd < pre_dist[b2 as int]->0);
                                            } else {
                                                assert(dist@[b2 as int] == pre_dist[b2 as int]);
                                            }
                                        }
                                    } else {
                                        assert(a == cur as int && jj == j);
                                        assert(map.spec_exits(a as i32)[jj].0 == b);
                                        assert(dist@[b as int] == Some(nd));
                                    }
                                }
                            }
                        } else {
                            proof {
                                assert(edge_settled(map, dist@, max_depth as int, cur as int, j as int));
                            }
                        }
                    } else {
                        proof {
                            assert(edge_settled(map, dist@, max_depth as int, cur as int, j as int));
                        }
                    }
                } else {
                    proof {
                        assert(edge_settled(map, dist@, max_depth as int, cur as int, j as int));
                    }
                }
                j += 1;
            }
        }
        DijkstraMap { map: dist, max_depth }
    }
}

/// Whether tile `a` still has an unprocessed queue entry.
pub open spec fn pending(queue: Seq<i32>, qhead: int, a: int) -> bool {
    exists|k: int| qhead <= k < queue.len() && (#[trigger] queue[k]) == a as i32
}

/// Law: in a finished distance map, no walk can beat the labels. If every
/// edge obligation is settled and a walk of exact cost `e` leads from a tile
/// labeled `c0` through in-range tiles to `b`, staying under the depth cap,
/// then `b` is labeled at most the walk's (saturated) total. Together with
/// the realizability of every label this pins each label to the minimal
/// seeded walk cost.
pub proof fn lemma_settled_labels_bound_walks<M: BaseMap>(
    map: &M,
    d: Seq<Option<u64>>,
    cap: int,
    p: Seq<i32>,
    e: int,
    c0: int,
)
    requires
        0 <= cap <= u64::MAX,
        forall|a: int, j: int|
            #![trigger d[a], map.spec_exits(a as i32)[j]]
            0 <= a < d.len() && d[a] is Some && 0 <= j < map.spec_exits(a as i32).len()
                ==> edge_settled(map, d, cap, a, j),
        is_costed_path(map, p, e),
        forall|i: int| 0 <= i < p.len() ==> 0 <= #[trigger] p[i] < d.len(),
        d[p[0] as int] is Some,
        c0 == d[p[0] as int]->0,
        sat64(c0 + e) <= cap,
    ensures
        d[p[p.len() - 1] as int] is Some,
        d[p[p.len() - 1] as int]->0 <= sat64(c0 + e),
    decreases p.len(),
{
    lemma_costed_path_nonneg(map, p, e);
    if p.len() > 1 {
        let j = choose|j: int|
            {
                &&& 0 <= j < map.spec_exits(p[0]).len()
                &&& (#[trigger] map.spec_exits(p[0])[j]).0 == p[1]
                &&& is_costed_path(map, p.drop_first(), e - map.spec_exits(p[0])[j].1)
            };
        let w = map.spec_exits(p[0])[j].1 as int;
        let rest = p.drop_first();
        let e2 = e - w;
        lemma_costed_path_nonneg(map, rest, e2);
        assert(edge_settled(map, d, cap, p[0] as int, j));
        assert(sat64(c0 + w) <= sat64(c0 + e));
        assert(d[p[1] as int] is Some && d[p[1] as int]->0 <= sat64(c0 + w));
        let c1 = d[p[1] as int]->0;
        assert(sat64(c1 + e2) <= sat64(c0 + e));
        assert(rest[0] == p[1]);
        assert(forall|i: int| 0 <= i < rest.len() ==> 0 <= #[trigger] rest[i] < d.len());
        lemma_settled_labels_bound_walks(map, d, cap, rest, e2, c1 as int);
        assert(rest[rest.len() - 1] == p[p.len() - 1]);
    }
}

} // verus!
