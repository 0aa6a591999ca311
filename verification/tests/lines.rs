use fractal::geometry::Bresenham;
use fractal::geometry::LineAlg;
use fractal::geometry::Point;
use fractal::geometry::VectorLine;
use fractal::geometry::line2d;
use fractal::geometry::line2d_bresenham;
use fractal::geometry::line2d_vector;

fn chebyshev(a: Point, b: Point) -> i64 {
    let dx = (a.x as i64 - b.x as i64).abs();
    let dy = (a.y as i64 - b.y as i64).abs();
    dx.max(dy)
}

#[test]
fn bresenham_includes_start_excludes_end() {
    let cases = [
        (Point::new(0, 0), Point::new(5, 3)),
        (Point::new(2, 7), Point::new(-4, -1)),
        (Point::new(-3, 4), Point::new(6, 4)),
        (Point::new(1, 1), Point::new(1, -9)),
        (Point::new(0, 0), Point::new(4, 4)),
    ];
    for (start, end) in cases {
        let pts = line2d_bresenham(start, end);
        assert_eq!(pts[0], start);
        assert_eq!(*pts.last().unwrap(), end);
        // The rasterized segment proper excludes the endpoint; only the
        // appended closing point equals it.
        for p in &pts[..pts.len() - 1] {
            assert_ne!(*p, end);
        }
        // Successive points are exactly one king-move apart.
        for w in pts.windows(2) {
            assert_eq!(chebyshev(w[0], w[1]), 1);
        }
    }
}

#[test]
fn bresenham_exact_line() {
    // The canonical shallow line: one row step near the middle.
    let pts = line2d_bresenham(Point::new(0, 0), Point::new(5, 2));
    assert_eq!(
        pts,
        vec![
            Point::new(0, 0),
            Point::new(1, 0),
            Point::new(2, 0),
            Point::new(3, 1),
            Point::new(4, 1),
            Point::new(5, 2),
        ]
    );
}

#[test]
fn bresenham_degenerate_segment() {
    let p = Point::new(3, -2);
    assert_eq!(line2d_bresenham(p, p), vec![p]);
}

#[test]
fn bresenham_iterator_matches_function() {
    let start = Point::new(-2, 5);
    let end = Point::new(7, -1);
    let mut it = Bresenham::new(start, end);
    let mut collected = Vec::new();
    while let Some(p) = it.next() {
        collected.push(p);
    }
    collected.push(end);
    assert_eq!(collected, line2d_bresenham(start, end));
}

#[test]
fn bresenham_reverse_point_set_on_clean_slopes() {
    // Axis-aligned and perfectly diagonal lines rasterize to the same cell
    // set in both directions.
    let cases = [
        (Point::new(0, 0), Point::new(6, 0)),
        (Point::new(2, -3), Point::new(2, 5)),
        (Point::new(0, 0), Point::new(5, 5)),
        (Point::new(4, 1), Point::new(-2, 7)),
    ];
    for (a, b) in cases {
        let mut fwd = line2d_bresenham(a, b);
        let mut bwd = line2d_bresenham(b, a);
        fwd.sort_by_key(|p| (p.x, p.y));
        bwd.sort_by_key(|p| (p.x, p.y));
        assert_eq!(fwd, bwd);
    }
}

#[test]
fn vector_line_arrives_exactly() {
    let cases = [
        (Point::new(0, 0), Point::new(5, 3)),
        (Point::new(2, 7), Point::new(-4, -1)),
        (Point::new(-3, 4), Point::new(6, 4)),
        (Point::new(1, 1), Point::new(1, -9)),
        (Point::new(100, -250), Point::new(-77, 13)),
    ];
    for (start, end) in cases {
        let pts = line2d_vector(start, end);
        assert_eq!(pts[0], start);
        assert_eq!(*pts.last().unwrap(), end);
        for w in pts.windows(2) {
            assert_eq!(chebyshev(w[0], w[1]), 1);
        }
    }
}

#[test]
fn vector_line_degenerate_segment() {
    let p = Point::new(-8, 0);
    assert_eq!(line2d_vector(p, p), vec![p]);
}

#[test]
fn vector_line_iterator_matches_function() {
    let start = Point::new(3, 3);
    let end = Point::new(-4, 8);
    let mut it = VectorLine::new(start, end);
    let mut collected = Vec::new();
    while let Some(p) = it.next() {
        collected.push(p);
    }
    assert_eq!(collected, line2d_vector(start, end));
}

#[test]
fn long_lines_stay_connected() {
    let start = Point::new(-20000, 15000);
    let end = Point::new(17000, -21000);
    let b = line2d_bresenham(start, end);
    assert_eq!(b[0], start);
    assert_eq!(*b.last().unwrap(), end);
    for w in b.windows(2) {
        assert!(chebyshev(w[0], w[1]) <= 1);
    }
    let v = line2d_vector(start, end);
    assert_eq!(v[0], start);
    assert_eq!(*v.last().unwrap(), end);
    for w in v.windows(2) {
        assert!(chebyshev(w[0], w[1]) <= 1);
    }
}

#[test]
fn line2d_dispatches() {
    let start = Point::new(0, 0);
    let end = Point::new(4, 2);
    assert_eq!(
        line2d(LineAlg::Bresenham, start, end),
        line2d_bresenham(start, end)
    );
    assert_eq!(line2d(LineAlg::Vector, start, end), line2d_vector(start, end));
}
