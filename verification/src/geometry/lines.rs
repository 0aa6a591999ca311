//! Plotting lines between points, with a choice of algorithm.

use vstd::prelude::*;

use crate::geometry::LineAlg;
use crate::geometry::line_bresenham::Bresenham;
use crate::geometry::line_bresenham::bres_pts;
use crate::geometry::line_bresenham::view_pts;
use crate::geometry::line_vector::VectorLine;
use crate::geometry::line_vector::vector_pts;
use crate::geometry::point::Point;

verus! {

/// Plots a line between two 2D points with the chosen algorithm and returns
/// the points along the line, in order. Both algorithms include `start` and
/// end the sequence with `end`.
pub fn line2d(algorithm: LineAlg, start: Point, end: Point) -> (r: Vec<Point>)
    ensures
        match algorithm {
            LineAlg::Bresenham => view_pts(r@) == bres_pts(start, end) + seq![
                (end.x as int, end.y as int),
            ],
            LineAlg::Vector => view_pts(r@) == vector_pts(start, end),
        },
{
    match algorithm {
        LineAlg::Bresenham => line2d_bresenham(start, end),
        LineAlg::Vector => line2d_vector(start, end),
    }
}

/// Plots a line with the integer (Bresenham) algorithm. The rasterized
/// segment excludes its endpoint, so `end` is appended to close the line.
pub fn line2d_bresenham(start: Point, end: Point) -> (r: Vec<Point>)
    ensures
        view_pts(r@) == bres_pts(start, end) + seq![(end.x as int, end.y as int)],
        r@.len() == bres_pts(start, end).len() + 1,
        r@[r@.len() - 1] == end,
{
    let mut line = Bresenham::new(start, end);
    let mut result: Vec<Point> = Vec::new();
    loop
        invariant_except_break
            line.wf(),
            line.endpoints() == (start, end),
            view_pts(result@) + line.remaining() =~= bres_pts(start, end),
        ensures
            view_pts(result@) =~= bres_pts(start, end),
        decreases line.remaining().len(),
    {
        match line.next() {
            Some(p) => {
                result.push(p);
                proof {
                    assert(view_pts(result@) =~= view_pts(result@.drop_last()).push(
                        (p.x as int, p.y as int),
                    ));
                }
            },
            None => {
                break ;
            },
        }
    }
    result.push(end);
    proof {
        assert(view_pts(result@) =~= view_pts(result@.drop_last()).push(
            (end.x as int, end.y as int),
        ));
        assert(view_pts(result@) =~= bres_pts(start, end) + seq![(end.x as int, end.y as int)]);
    }
    result
}

/// Plots a line with the vector-marching algorithm. Includes both `start`
/// and `end`; the last point produced is exactly `end`.
pub fn line2d_vector(start: Point, end: Point) -> (r: Vec<Point>)
    ensures
        view_pts(r@) == vector_pts(start, end),
        r@.len() == vector_pts(start, end).len(),
        r@.len() >= 1,
        r@[0] == start,
        r@[r@.len() - 1] == end,
{
    let mut line = VectorLine::new(start, end);
    let mut result: Vec<Point> = Vec::new();
    loop
        invariant_except_break
            line.wf(),
            line.endpoints() == (start, end),
            view_pts(result@) + line.remaining() =~= vector_pts(start, end),
        ensures
            view_pts(result@) =~= vector_pts(start, end),
        decreases line.remaining().len(),
    {
        match line.next() {
            Some(p) => {
                result.push(p);
                proof {
                    assert(view_pts(result@) =~= view_pts(result@.drop_last()).push(
                        (p.x as int, p.y as int),
                    ));
                }
            },
            None => {
                break ;
            },
        }
    }
    proof {
        crate::geometry::line_vector::lemma_vector_line_contract(start, end);
        assert((result@[0].x as int, result@[0].y as int) == (start.x as int, start.y as int));
        assert(result@[0] == start);
        let last = result@.len() - 1;
        assert((result@[last].x as int, result@[last].y as int) == (
            end.x as int,
            end.y as int,
        ));
        assert(result@[last] == end);
    }
    result
}

} // verus!
