//! Field-of-view computation.
//!
//! Casts rays from an origin out to every point of the circle outline of
//! the given range, marching each ray with the vector line rasterizer. A
//! ray contributes every cell it crosses until it leaves the map (that cell
//! excluded) or hits an opaque cell (that cell included: a wall is itself
//! visible, but nothing behind it is). Cells shared by several rays are
//! reported once.

use vstd::prelude::*;

use crate::geometry::chebyshev_spec;
use crate::geometry::circle_bresenham::BresenhamCircle;
use crate::geometry::circle_bresenham::circle_pts;
use crate::geometry::circle_bresenham::lemma_circle_nonempty;
use crate::geometry::circle_bresenham::lemma_circle_walk_within;
use crate::geometry::line_vector::VectorLine;
use crate::geometry::line_vector::lemma_vector_line_contract;
use crate::geometry::line_vector::lemma_vector_line_within;
use crate::geometry::line_vector::vector_pts;
use crate::geometry::point::Point;
use crate::geometry::point_set::PointSet;
use crate::pathfinding::Algorithm2D;

verus! {

/// The cells a single ray makes visible: the ray's cells in order, cut off
/// exclusively at the first out-of-bounds cell and inclusively at the first
/// opaque cell.
pub open spec fn scan_visible<M: Algorithm2D>(m: &M, ray: Seq<(int, int)>) -> Set<Point>
    decreases ray.len(),
{
    if ray.len() == 0 {
        Set::empty()
    } else {
        let p = Point { x: ray[0].0 as i32, y: ray[0].1 as i32 };
        if !m.spec_in_bounds(p) {
            Set::empty()
        } else if m.spec_opaque(m.spec_point2d_to_index(p)) {
            Set::empty().insert(p)
        } else {
            scan_visible(m, ray.drop_first()).insert(p)
        }
    }
}

/// The union of the visible cells of the rays toward each target in `cs`.
pub open spec fn rays_visible<M: Algorithm2D>(m: &M, start: Point, cs: Seq<(int, int)>) -> Set<
    Point,
>
    decreases cs.len(),
{
    if cs.len() == 0 {
        Set::empty()
    } else {
        let c = Point { x: cs[0].0 as i32, y: cs[0].1 as i32 };
        scan_visible(m, vector_pts(start, c)).union(rays_visible(m, start, cs.drop_first()))
    }
}

/// The full field of view from `start` out to `range`: the union of the
/// visible cells of one ray per circle-outline point.
pub open spec fn fov_set_spec<M: Algorithm2D>(m: &M, start: Point, range: i32) -> Set<Point> {
    rays_visible(m, start, circle_pts(start.x as int, start.y as int, range as int))
}

/// Law: for a non-negative range, an origin within the map bounds is always
/// in its own field of view.
pub proof fn lemma_fov_self_visible<M: Algorithm2D>(m: &M, start: Point, range: i32)
    requires
        range >= 0,
        m.spec_in_bounds(start),
    ensures
        fov_set_spec(m, start, range).contains(start),
{
    lemma_circle_nonempty(start.x as int, start.y as int, range as int);
    let cs = circle_pts(start.x as int, start.y as int, range as int);
    let c = Point { x: cs[0].0 as i32, y: cs[0].1 as i32 };
    let ray = vector_pts(start, c);
    lemma_vector_line_contract(start, c);
    assert(ray[0] == (start.x as int, start.y as int));
    let p = Point { x: ray[0].0 as i32, y: ray[0].1 as i32 };
    assert(p == start);
    assert(scan_visible(m, ray).contains(start));
}

/// Each cell a ray makes visible is within the map bounds and sits on the
/// ray itself.
proof fn lemma_scan_visible_on_ray<M: Algorithm2D>(m: &M, ray: Seq<(int, int)>)
    requires
        forall|k: int|
            0 <= k < ray.len() ==> i32::MIN <= (#[trigger] ray[k]).0 <= i32::MAX && i32::MIN
                <= ray[k].1 <= i32::MAX,
    ensures
        forall|p: Point|
            #[trigger] scan_visible(m, ray).contains(p) ==> m.spec_in_bounds(p) && exists|k: int|
                0 <= k < ray.len() && ray[k] == (p.x as int, p.y as int),
    decreases ray.len(),
{
    if ray.len() > 0 {
        assert forall|k: int|
            0 <= k < ray.drop_first().len() implies i32::MIN <= (#[trigger] ray.drop_first()[k]).0
            <= i32::MAX && i32::MIN <= ray.drop_first()[k].1 <= i32::MAX by {
            assert(ray.drop_first()[k] == ray[k + 1]);
        }
        lemma_scan_visible_on_ray(m, ray.drop_first());
        let h = Point { x: ray[0].0 as i32, y: ray[0].1 as i32 };
        assert forall|p: Point| #[trigger] scan_visible(m, ray).contains(p) implies m.spec_in_bounds(
            p,
        ) && exists|k: int| 0 <= k < ray.len() && ray[k] == (p.x as int, p.y as int) by {
            if m.spec_in_bounds(h) && !m.spec_opaque(m.spec_point2d_to_index(h)) && p != h {
                assert(scan_visible(m, ray.drop_first()).contains(p));
                let k = choose|k: int|
                    0 <= k < ray.drop_first().len() && ray.drop_first()[k] == (
                        p.x as int,
                        p.y as int,
                    );
                assert(ray[k + 1] == (p.x as int, p.y as int));
            } else {
                assert(p == h);
                assert(ray[0] == (p.x as int, p.y as int));
            }
        }
    }
}

/// Law: every cell in the field of view lies within the map bounds and
/// within the requested range of the origin (in Chebyshev distance).
pub proof fn lemma_fov_bounded<M: Algorithm2D>(m: &M, start: Point, range: i32)
    requires
        range >= 0 ==> i32::MIN <= start.x - range && start.x + range <= i32::MAX && i32::MIN
            <= start.y - range && start.y + range <= i32::MAX,
    ensures
        forall|p: Point|
            #[trigger] fov_set_spec(m, start, range).contains(p) ==> m.spec_in_bounds(p)
                && chebyshev_spec((start.x as int, start.y as int), (p.x as int, p.y as int)) <= (
            if range >= 0 {
                range as int
            } else {
                0
            }),
{
    let r = if range >= 0 {
        range as int
    } else {
        0
    };
    let cs = circle_pts(start.x as int, start.y as int, range as int);
    lemma_circle_walk_within(start.x as int, start.y as int, range as int, 0, 1 - range, r);
    lemma_rays_bounded(m, start, cs, r);
}

/// The union of rays toward targets within reach `r` of the origin only
/// contains in-bounds cells within reach `r`.
proof fn lemma_rays_bounded<M: Algorithm2D>(m: &M, start: Point, cs: Seq<(int, int)>, r: int)
    requires
        0 <= r <= 0x7fff_ffff,
        i32::MIN <= start.x - r && start.x + r <= i32::MAX && i32::MIN <= start.y - r && start.y
            + r <= i32::MAX,
        forall|j: int|
            0 <= j < cs.len() ==> chebyshev_spec(
                (start.x as int, start.y as int),
                #[trigger] cs[j],
            ) <= r,
    ensures
        forall|p: Point|
            #[trigger] rays_visible(m, start, cs).contains(p) ==> m.spec_in_bounds(p)
                && chebyshev_spec((start.x as int, start.y as int), (p.x as int, p.y as int)) <= r,
    decreases cs.len(),
{
    if cs.len() > 0 {
        assert(chebyshev_spec((start.x as int, start.y as int), cs[0]) <= r);
        let c = Point { x: cs[0].0 as i32, y: cs[0].1 as i32 };
        assert((c.x as int, c.y as int) == cs[0]);
        let ray = vector_pts(start, c);
        lemma_vector_line_within(start, c);
        assert forall|k: int|
            0 <= k < ray.len() implies i32::MIN <= (#[trigger] ray[k]).0 <= i32::MAX && i32::MIN
            <= ray[k].1 <= i32::MAX by {
            assert(chebyshev_spec((start.x as int, start.y as int), ray[k]) <= chebyshev_spec(
                (start.x as int, start.y as int),
                (c.x as int, c.y as int),
            ));
        }
        lemma_scan_visible_on_ray(m, ray);
        assert(forall|j: int|
            0 <= j < cs.drop_first().len() ==> chebyshev_spec(
                (start.x as int, start.y as int),
                #[trigger] cs.drop_first()[j],
            ) <= r);
        lemma_rays_bounded(m, start, cs.drop_first(), r);
        assert forall|p: Point|
            #[trigger] rays_visible(m, start, cs).contains(p) implies m.spec_in_bounds(p)
            && chebyshev_spec((start.x as int, start.y as int), (p.x as int, p.y as int))
            <= r by {
            if scan_visible(m, ray).contains(p) {
                let k = choose|k: int|
                    0 <= k < ray.len() && ray[k] == (p.x as int, p.y as int);
                assert(chebyshev_spec((start.x as int, start.y as int), ray[k]) <= chebyshev_spec(
                    (start.x as int, start.y as int),
                    (c.x as int, c.y as int),
                ));
            } else {
                assert(rays_visible(m, start, cs.drop_first()).contains(p));
            }
        }
    }
}

/// Calculates the field of view on a map supporting [`Algorithm2D`],
/// returning the set of visible points. Rays near the origin revisit the
/// same cells many times; the set deduplicates them.
pub fn field_of_view_set<M: Algorithm2D>(start: Point, range: i32, fov_check: &M) -> (r: PointSet)
    requires
        range >= 0 ==> i32::MIN <= start.x - range && start.x + range <= i32::MAX && i32::MIN
            <= start.y - range && start.y + range <= i32::MAX,
    ensures
        r.wf(),
        r@ == fov_set_spec(fov_check, start, range),
{
    let mut visible = PointSet::new();
    let mut circle = BresenhamCircle::new(start.x, start.y, range);
    loop
        invariant_except_break
            circle.wf(),
            circle.parameters() == (start, range),
            visible.wf(),
            visible@.union(rays_visible(fov_check, start, circle.remaining())) =~= fov_set_spec(
                fov_check,
                start,
                range,
            ),
        ensures
            visible.wf(),
            visible@ == fov_set_spec(fov_check, start, range),
        decreases circle.remaining().len(),
    {
        let ghost pre_rem = circle.remaining();
        match circle.next() {
            Some(c) => {
                scan_fov_line(start, c, fov_check, &mut visible);
                proof {
                    assert(pre_rem[0] == (c.x as int, c.y as int));
                    assert(circle.remaining() =~= pre_rem.drop_first());
                    assert(visible@.union(
                        rays_visible(fov_check, start, circle.remaining()),
                    ) =~= fov_set_spec(fov_check, start, range));
                }
            },
            None => {
                proof {
                    assert(rays_visible(fov_check, start, circle.remaining())
                        =~= Set::<Point>::empty());
                    assert(visible@ =~= fov_set_spec(fov_check, start, range));
                }
                break ;
            },
        }
    }
    visible
}

/// Calculates the field of view, returning the visible points as a vector
/// without duplicates (a convenience conversion of the set result).
pub fn field_of_view<M: Algorithm2D>(start: Point, range: i32, fov_check: &M) -> (r: Vec<Point>)
    requires
        range >= 0 ==> i32::MIN <= start.x - range && start.x + range <= i32::MAX && i32::MIN
            <= start.y - range && start.y + range <= i32::MAX,
    ensures
        r@.to_set() == fov_set_spec(fov_check, start, range),
        r@.no_duplicates(),
{
    field_of_view_set(start, range, fov_check).into_vec()
}

/// Marches one ray from `start` to `end`, inserting each visible cell into
/// `visible`; stops on leaving the map (exclusive) or on an opaque cell
/// (inclusive).
fn scan_fov_line<M: Algorithm2D>(start: Point, end: Point, fov_check: &M, visible: &mut PointSet)
    requires
        old(visible).wf(),
    ensures
        final(visible).wf(),
        final(visible)@ == old(visible)@.union(scan_visible(fov_check, vector_pts(start, end))),
{
    let mut line = VectorLine::new(start, end);
    let ghost full = vector_pts(start, end);
    loop
        invariant_except_break
            line.wf(),
            line.endpoints() == (start, end),
            visible.wf(),
            visible@.union(scan_visible(fov_check, line.remaining())) =~= old(visible)@.union(
                scan_visible(fov_check, full),
            ),
        ensures
            visible.wf(),
            visible@ == old(visible)@.union(scan_visible(fov_check, full)),
        decreases line.remaining().len(),
    {
        let ghost pre_rem = line.remaining();
        match line.next() {
            Some(target) => {
                proof {
                    assert(pre_rem[0] == (target.x as int, target.y as int));
                    assert((Point { x: pre_rem[0].0 as i32, y: pre_rem[0].1 as i32 }) == target);
                }
                if !fov_check.in_bounds(target) {
                    proof {
                        assert(scan_visible(fov_check, pre_rem) =~= Set::<Point>::empty());
                        assert(visible@ =~= old(visible)@.union(scan_visible(fov_check, full)));
                    }
                    break ;
                }
                visible.insert(target);
                if fov_check.is_opaque(fov_check.point2d_to_index(target)) {
                    proof {
                        assert(scan_visible(fov_check, pre_rem) =~= Set::empty().insert(target));
                        assert(visible@ =~= old(visible)@.union(scan_visible(fov_check, full)));
                    }
                    break ;
                }
                proof {
                    assert(scan_visible(fov_check, pre_rem) =~= scan_visible(
                        fov_check,
                        line.remaining(),
                    ).insert(target));
                    assert(visible@.union(scan_visible(fov_check, line.remaining())) =~= old(
                        visible,
                    )@.union(scan_visible(fov_check, full)));
                }
            },
            None => {
                proof {
                    assert(scan_visible(fov_check, line.remaining()) =~= Set::<Point>::empty());
                    assert(visible@ =~= old(visible)@.union(scan_visible(fov_check, full)));
                }
                break ;
            },
        }
    }
}

} // verus!
