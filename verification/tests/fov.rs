use fractal::fieldofview::field_of_view;
use fractal::fieldofview::field_of_view_set;
use fractal::geometry::Point;
use fractal::grid_map::GridMap;

#[test]
fn origin_always_visible() {
    let m = GridMap::new(10, 10);
    for range in 0..5 {
        let vis = field_of_view_set(Point::new(5, 5), range, &m);
        assert!(vis.contains(Point::new(5, 5)));
    }
}

#[test]
fn zero_range_sees_only_origin() {
    let m = GridMap::new(10, 10);
    let vis = field_of_view_set(Point::new(5, 5), 0, &m);
    assert_eq!(vis.len(), 1);
    assert!(vis.contains(Point::new(5, 5)));
}

#[test]
fn negative_range_sees_nothing() {
    let m = GridMap::new(10, 10);
    let vis = field_of_view_set(Point::new(5, 5), -1, &m);
    assert_eq!(vis.len(), 0);
}

#[test]
fn wall_is_visible_but_blocks_what_is_behind() {
    let mut m = GridMap::new(10, 10);
    // A wall directly east of the origin.
    m.set_opaque(6, 5, true);
    let vis = field_of_view_set(Point::new(5, 5), 3, &m);
    assert!(vis.contains(Point::new(6, 5)));
    assert!(!vis.contains(Point::new(7, 5)));
    assert!(!vis.contains(Point::new(8, 5)));
}

#[test]
fn range_growth_on_small_ranges() {
    // For small ranges growing the radius only adds cells.
    let m = GridMap::new(30, 30);
    let origin = Point::new(15, 15);
    for range in 0..4 {
        let small = field_of_view_set(origin, range, &m);
        let large = field_of_view_set(origin, range + 1, &m);
        for p in small.as_vec() {
            assert!(
                large.contains(*p),
                "range {}: {:?} lost when the range grew",
                range,
                p
            );
        }
    }
}

#[test]
fn range_growth_is_not_monotonic_in_general() {
    // Growing the range reshapes the ray fan, and a cell that was itself a
    // ray target can fall between the wider fan's rays: the diagonal cell
    // at offset (3, 3) is a perimeter target at range 4 but no ray of the
    // range-5 fan passes through it.
    let m = GridMap::new(30, 30);
    let origin = Point::new(15, 15);
    let at4 = field_of_view_set(origin, 4, &m);
    let at5 = field_of_view_set(origin, 5, &m);
    assert!(at4.contains(Point::new(18, 18)));
    assert!(!at5.contains(Point::new(18, 18)));
}

#[test]
fn out_of_bounds_cells_never_reported() {
    let m = GridMap::new(4, 4);
    let vis = field_of_view(Point::new(0, 0), 3, &m);
    for p in &vis {
        assert!(p.x >= 0 && p.x < 4 && p.y >= 0 && p.y < 4);
    }
}

#[test]
fn golden_open_map() {
    // 10x10 open map, origin (5,5), range 3: the visible set is pinned.
    let m = GridMap::new(10, 10);
    let vis = field_of_view_set(Point::new(5, 5), 3, &m);
    assert_eq!(vis.len(), 37);
    // The full axis arms are seen...
    for d in 1..=3 {
        assert!(vis.contains(Point::new(5 + d, 5)));
        assert!(vis.contains(Point::new(5 - d, 5)));
        assert!(vis.contains(Point::new(5, 5 + d)));
        assert!(vis.contains(Point::new(5, 5 - d)));
    }
    // ...the diagonals out to the rasterized circle...
    assert!(vis.contains(Point::new(6, 6)));
    assert!(vis.contains(Point::new(7, 7)));
    assert!(vis.contains(Point::new(8, 6)));
    assert!(vis.contains(Point::new(6, 8)));
    assert!(vis.contains(Point::new(7, 6)));
    // ...but not the cells the ray fan misses at this radius.
    assert!(!vis.contains(Point::new(8, 7)));
    assert!(!vis.contains(Point::new(8, 8)));
    // The set variant and the vector variant agree, without duplicates.
    let as_vec = field_of_view(Point::new(5, 5), 3, &m);
    assert_eq!(as_vec.len(), 37);
    for p in &as_vec {
        assert!(vis.contains(*p));
    }
}

#[test]
fn fov_never_duplicates() {
    let mut m = GridMap::new(10, 10);
    m.set_opaque(4, 4, true);
    let pts = field_of_view(Point::new(5, 5), 3, &m);
    for (i, p) in pts.iter().enumerate() {
        for q in &pts[i + 1..] {
            assert_ne!(p, q);
        }
    }
}
