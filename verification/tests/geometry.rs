use fractal::geometry::BresenhamCircle;
use fractal::geometry::DistanceAlg;
use fractal::geometry::Point;
use fractal::geometry::Point3;
use fractal::geometry::Rect;

#[test]
fn point_constructors() {
    assert_eq!(Point::new(3, -4), Point { x: 3, y: -4 });
    assert_eq!(Point::zero(), Point { x: 0, y: 0 });
    assert_eq!(Point::from_tuple((7, 9)), Point { x: 7, y: 9 });
    assert_eq!(Point3::new(1, 2, 3), Point3 { x: 1, y: 2, z: 3 });
}

#[test]
fn point_arithmetic() {
    let a = Point::new(3, -4);
    let b = Point::new(-1, 2);
    assert_eq!(a.add(b), Point::new(2, -2));
    assert_eq!(a.sub(b), Point::new(4, -6));
    assert_eq!(a.mul(b), Point::new(-3, -8));
    // Division rounds toward zero, as integer division does.
    assert_eq!(Point::new(7, -7).div(Point::new(2, 2)), Point::new(3, -3));
    assert_eq!(Point::new(-9, 9).div(Point::new(-2, -2)), Point::new(4, -4));
    // Scalar forms act on both coordinates at once.
    assert_eq!(a.add_scalar(10), Point::new(13, 6));
    assert_eq!(a.sub_scalar(1), Point::new(2, -5));
    assert_eq!(a.mul_scalar(-2), Point::new(-6, 8));
    assert_eq!(Point::new(7, -7).div_scalar(3), Point::new(2, -2));
}

#[test]
fn distance_metrics_2d() {
    let a = Point::new(0, 0);
    let b = Point::new(3, 4);
    assert_eq!(DistanceAlg::Pythagoras.distance2d(a, b), 5);
    assert_eq!(DistanceAlg::PythagorasSquared.distance2d(a, b), 25);
    assert_eq!(DistanceAlg::Manhattan.distance2d(a, b), 7);
    assert_eq!(DistanceAlg::Chebyshev.distance2d(a, b), 4);
    // Pythagoras truncates: distance between (0,0) and (1,1) is floor(√2).
    assert_eq!(DistanceAlg::Pythagoras.distance2d(a, Point::new(1, 1)), 1);
}

#[test]
fn distance_metrics_3d() {
    let a = Point3::new(0, 0, 0);
    let b = Point3::new(2, 3, 6);
    assert_eq!(DistanceAlg::Pythagoras.distance3d(a, b), 7);
    assert_eq!(DistanceAlg::PythagorasSquared.distance3d(a, b), 49);
    assert_eq!(DistanceAlg::Manhattan.distance3d(a, b), 11);
    // Chebyshev in 3D is the largest axis distance.
    assert_eq!(DistanceAlg::Chebyshev.distance3d(a, b), 6);
}

#[test]
fn rect_basics() {
    let r = Rect::new(1, 2, 3, 4);
    assert_eq!(r, Rect::new_exact(1, 2, 4, 6));
    assert_eq!(Rect::zero(), Rect::new_exact(0, 0, 0, 0));
    assert_eq!(Rect::default(), Rect::zero());
    assert_eq!(r.width(), 3);
    assert_eq!(r.height(), 4);
    assert_eq!(r.center(), Point::new(2, 4));
}

#[test]
fn rect_intersect_and_membership() {
    let a = Rect::new_exact(0, 0, 4, 4);
    let b = Rect::new_exact(3, 3, 6, 6);
    let c = Rect::new_exact(5, 5, 7, 7);
    assert!(a.intersect(&b));
    assert!(b.intersect(&a));
    assert!(!a.intersect(&c));
    assert!(a.point_in_rect(Point::new(0, 4)));
    assert!(a.point_in_rect(Point::new(4, 4)));
    assert!(!a.point_in_rect(Point::new(5, 2)));
}

#[test]
fn rect_point_set_and_for_each() {
    let r = Rect::new_exact(1, 1, 2, 3);
    let s = r.point_set();
    assert_eq!(s.len(), 6);
    assert!(s.contains(Point::new(1, 1)));
    assert!(s.contains(Point::new(2, 3)));
    assert!(!s.contains(Point::new(3, 1)));
    let count = std::cell::Cell::new(0u32);
    r.for_each(|p| {
        assert!(r.point_in_rect(p));
        count.set(count.get() + 1);
    });
    assert_eq!(count.get(), 6);
}

#[test]
fn rect_translating_add() {
    let r = Rect::new_exact(1, 2, 4, 6);
    let moved = r.add(Rect::new_exact(10, 20, 0, 0));
    assert_eq!(moved, Rect::new_exact(11, 22, 14, 26));
    assert_eq!(moved.width(), r.width());
    assert_eq!(moved.height(), r.height());
}

#[test]
fn circle_radius_one() {
    let mut c = BresenhamCircle::new(0, 0, 1);
    let mut pts = Vec::new();
    while let Some(p) = c.next() {
        pts.push(p);
    }
    pts.sort_by_key(|p| (p.x, p.y));
    pts.dedup();
    assert_eq!(
        pts,
        vec![
            Point::new(-1, 0),
            Point::new(0, -1),
            Point::new(0, 1),
            Point::new(1, 0),
        ]
    );
}

#[test]
fn circle_radius_zero_is_center() {
    let mut c = BresenhamCircle::new(4, -7, 0);
    let mut pts = Vec::new();
    while let Some(p) = c.next() {
        pts.push(p);
    }
    assert!(!pts.is_empty());
    assert!(pts.iter().all(|p| *p == Point::new(4, -7)));
}

#[test]
fn circle_outline_is_at_radius() {
    let mut c = BresenhamCircle::new(0, 0, 5);
    while let Some(p) = c.next() {
        let d2 = (p.x as i64).pow(2) + (p.y as i64).pow(2);
        // The midpoint outline stays within one cell of the true circle.
        assert!(d2 >= 9 && d2 <= 36, "outline point {:?} too far off", p);
    }
}
