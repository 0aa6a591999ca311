use fractal::geometry::Point;
use fractal::grid_map::GridMap;
use fractal::pathfinding::Algorithm2D;
use fractal::pathfinding::BaseMap;
use fractal::pathfinding::DijkstraMap;
use fractal::pathfinding::a_star_search;

fn idx(m: &GridMap, x: i32, y: i32) -> i32 {
    m.point2d_to_index(Point::new(x, y))
}

#[test]
fn a_star_open_grid_diagonal() {
    let m = GridMap::new(5, 5);
    let path = a_star_search(idx(&m, 0, 0), idx(&m, 4, 4), &m);
    assert!(path.success);
    assert_eq!(path.steps[0], idx(&m, 0, 0));
    assert_eq!(*path.steps.last().unwrap(), idx(&m, 4, 4));
    // Eight-way movement with unit costs: the diagonal is optimal.
    assert_eq!(path.cost, 4);
    assert_eq!(path.steps.len(), 5);
    // The tie-break (most recently enqueued among equal priorities) makes
    // the exact route deterministic: the straight diagonal.
    let diagonal: Vec<i32> = (0..5).map(|t| idx(&m, t, t)).collect();
    assert_eq!(path.steps, diagonal);
}

#[test]
fn a_star_optimal_around_wall() {
    // A wall on the central diagonal cell: every four-step path needs
    // (2, 2), so the best detour costs exactly one more step.
    let mut m = GridMap::new(5, 5);
    m.set_opaque(2, 2, true);
    let path = a_star_search(idx(&m, 0, 0), idx(&m, 4, 4), &m);
    assert!(path.success);
    assert_eq!(path.cost, 5);
    assert_eq!(path.steps.len(), 6);
    assert_eq!(path.steps[0], idx(&m, 0, 0));
    assert_eq!(*path.steps.last().unwrap(), idx(&m, 4, 4));
    // The path never crosses an opaque cell and each hop is a real exit.
    for w in path.steps.windows(2) {
        assert!(!m.is_opaque(w[1]));
        let exits = m.get_available_exits(w[0]);
        assert!(exits.iter().any(|e| e.0 == w[1]));
    }
}

#[test]
fn a_star_failure_on_walled_goal() {
    // The goal corner is sealed off: no exits lead into it.
    let mut m = GridMap::new(5, 5);
    m.set_opaque(3, 3, true);
    m.set_opaque(3, 4, true);
    m.set_opaque(4, 3, true);
    let path = a_star_search(idx(&m, 0, 0), idx(&m, 4, 4), &m);
    assert!(!path.success);
    assert!(path.steps.is_empty());
}

#[test]
fn a_star_trivial_self_path() {
    let m = GridMap::new(3, 3);
    let s = idx(&m, 1, 1);
    let path = a_star_search(s, s, &m);
    assert!(path.success);
    assert_eq!(path.steps, vec![s]);
    assert_eq!(path.cost, 0);
}

#[test]
fn dijkstra_distances_and_monotonicity() {
    let mut m = GridMap::new(5, 5);
    m.set_opaque(2, 2, true);
    let starts = vec![idx(&m, 0, 0)];
    let d = DijkstraMap::new(25, &starts, &m, 1024);
    // The seed is labeled zero.
    assert_eq!(d.map[idx(&m, 0, 0) as usize], Some(0));
    // The far corner needs the detour (see the A* case).
    assert_eq!(d.map[idx(&m, 4, 4) as usize], Some(5));
    // The wall is never entered, so it stays unlabeled.
    assert_eq!(d.map[idx(&m, 2, 2) as usize], None);
    // Local optimality at every edge: no neighbor label can be beaten by
    // relaxing an edge once more.
    for a in 0..25i32 {
        if let Some(ca) = d.map[a as usize] {
            for (b, w) in m.get_available_exits(a) {
                let via = ca.saturating_add(w);
                match d.map[b as usize] {
                    Some(cb) => assert!(cb <= via),
                    None => assert!(via > d.max_depth),
                }
            }
        }
    }
}

#[test]
fn dijkstra_multiple_seeds() {
    let m = GridMap::new(4, 4);
    let starts = vec![idx(&m, 0, 0), idx(&m, 3, 3)];
    let d = DijkstraMap::new(16, &starts, &m, 1024);
    assert_eq!(d.map[idx(&m, 0, 0) as usize], Some(0));
    assert_eq!(d.map[idx(&m, 3, 3) as usize], Some(0));
    // A cell between the seeds takes the nearer one.
    assert_eq!(d.map[idx(&m, 1, 0) as usize], Some(1));
    assert_eq!(d.map[idx(&m, 2, 2) as usize], Some(1));
}

#[test]
fn dijkstra_depth_cap() {
    let m = GridMap::new(9, 1);
    let starts = vec![idx(&m, 0, 0)];
    let d = DijkstraMap::new(9, &starts, &m, 3);
    assert_eq!(d.map[idx(&m, 3, 0) as usize], Some(3));
    assert_eq!(d.map[idx(&m, 4, 0) as usize], None);
    assert_eq!(d.map[idx(&m, 8, 0) as usize], None);
}

#[test]
fn dijkstra_out_of_range_seed_ignored() {
    let m = GridMap::new(3, 3);
    let starts = vec![-5, 100, idx(&m, 1, 1)];
    let d = DijkstraMap::new(9, &starts, &m, 100);
    assert_eq!(d.map[idx(&m, 1, 1) as usize], Some(0));
    assert_eq!(d.map[idx(&m, 0, 0) as usize], Some(1));
}

#[test]
fn grid_map_conversions() {
    let m = GridMap::new(7, 5);
    let p = Point::new(3, 2);
    let i = m.point2d_to_index(p);
    assert_eq!(i, 2 * 7 + 3);
    assert_eq!(m.index_to_point2d(i), p);
    assert!(m.in_bounds(p));
    assert!(!m.in_bounds(Point::new(7, 0)));
    assert!(!m.in_bounds(Point::new(0, -1)));
    assert_eq!(m.point2d_to_index(Point::new(9, 9)), -1);
}

#[test]
fn grid_map_exits_and_distance() {
    let mut m = GridMap::new(3, 3);
    m.set_opaque(1, 0, true);
    let exits = m.get_available_exits(idx(&m, 0, 0));
    // Of the three neighbors of a corner, the wall above-right is blocked.
    let dests: Vec<i32> = exits.iter().map(|e| e.0).collect();
    assert!(dests.contains(&idx(&m, 0, 1)));
    assert!(dests.contains(&idx(&m, 1, 1)));
    assert!(!dests.contains(&idx(&m, 1, 0)));
    assert!(exits.iter().all(|e| e.1 == 1));
    // The pathing distance is the Chebyshev metric.
    assert_eq!(m.get_pathing_distance(idx(&m, 0, 0), idx(&m, 2, 1)), 2);
}
