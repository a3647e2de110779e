use quadtree::aabb::AABB;
use quadtree::point::Point;
use quadtree::quad_tree::Quadtree;

fn region(cx: i64, cy: i64, half: i64) -> AABB {
    AABB::new(Point::new(cx, cy), half)
}

fn sorted(mut v: Vec<Point>) -> Vec<Point> {
    v.sort_by_key(|p| (p.x, p.y));
    v
}

fn scatter(n: usize, span: i64, mut seed: u64) -> Vec<Point> {
    let mut out = Vec::new();
    for _ in 0..n {
        seed = seed.wrapping_mul(6364136223846793005).wrapping_add(1442695040888963407);
        let x = ((seed >> 33) % (2 * span as u64 + 1)) as i64 - span;
        seed = seed.wrapping_mul(6364136223846793005).wrapping_add(1442695040888963407);
        let y = ((seed >> 33) % (2 * span as u64 + 1)) as i64 - span;
        out.push(Point::new(x, y));
    }
    out
}

fn build(boundary: AABB, capacity: usize, pts: &[Point]) -> Quadtree {
    let mut t = Quadtree::new(boundary, capacity);
    for p in pts {
        t.insert(p);
    }
    t
}

fn ask(t: &Quadtree, range: &AABB) -> Vec<Point> {
    let mut found = Vec::new();
    t.query(range, &mut found);
    found
}

#[test]
fn query_three_points_with_capacity_one() {
    let mut t = Quadtree::new(region(0, 0, 100), 1);
    t.insert(&Point::new(10, 10));
    t.insert(&Point::new(-10, -10));
    t.insert(&Point::new(60, 60));
    let found = ask(&t, &region(50, 50, 20));
    assert_eq!(found, vec![Point::new(60, 60)]);
}

#[test]
fn query_on_an_empty_tree_finds_nothing() {
    let t = Quadtree::new(region(0, 0, 100), 4);
    assert!(ask(&t, &region(0, 0, 100)).is_empty());
}

#[test]
fn query_outside_the_root_finds_nothing() {
    let pts = scatter(100, 100, 7);
    let t = build(region(0, 0, 100), 4, &pts);
    assert!(ask(&t, &region(500, 500, 50)).is_empty());
    assert!(ask(&t, &region(-202, 0, 100)).is_empty());
}

#[test]
fn query_with_an_empty_range_finds_nothing() {
    let pts = scatter(100, 100, 8);
    let t = build(region(0, 0, 100), 4, &pts);
    assert!(ask(&t, &region(0, 0, -1)).is_empty());
}

#[test]
fn query_with_a_single_point_range() {
    let mut t = Quadtree::new(region(0, 0, 64), 1);
    t.insert(&Point::new(3, 4));
    t.insert(&Point::new(3, 5));
    t.insert(&Point::new(-3, 4));
    assert_eq!(ask(&t, &region(3, 4, 0)), vec![Point::new(3, 4)]);
}

#[test]
fn query_includes_points_on_the_edge_of_the_range() {
    let mut t = Quadtree::new(region(0, 0, 64), 1);
    let edge = [
        Point::new(10, 0),
        Point::new(-10, 0),
        Point::new(0, 10),
        Point::new(0, -10),
        Point::new(10, 10),
    ];
    let outside = [Point::new(11, 0), Point::new(0, -11), Point::new(-11, -11)];
    for p in edge.iter().chain(outside.iter()) {
        t.insert(p);
    }
    assert_eq!(sorted(ask(&t, &region(0, 0, 10))), sorted(edge.to_vec()));
}

#[test]
fn query_covering_the_root_returns_every_point_once() {
    let mut pts = Vec::new();
    for i in 0..8 {
        for j in 0..8 {
            pts.push(Point::new(-875 + 250 * i + 3 * j, -875 + 250 * j + 7 * i));
        }
    }
    let t = build(region(0, 0, 1024), 3, &pts);
    assert!(t.divided);
    let found = ask(&t, &region(0, 0, 1024));
    assert_eq!(found.len(), 64);
    let unique = sorted(found.clone());
    for w in unique.windows(2) {
        assert_ne!(w[0], w[1]);
    }
    assert_eq!(unique, sorted(pts));
    let wider = ask(&t, &region(100, -100, 5000));
    assert_eq!(wider.len(), 64);
}

#[test]
fn query_returns_equal_points_as_often_as_inserted() {
    let mut t = Quadtree::new(region(0, 0, 16), 1);
    for _ in 0..5 {
        t.insert(&Point::new(2, 2));
    }
    t.insert(&Point::new(-2, -2));
    let found = ask(&t, &region(2, 2, 1));
    assert_eq!(found, vec![Point::new(2, 2); 5]);
}

#[test]
fn query_agrees_with_a_scan_over_the_kept_points() {
    let root = region(0, 0, 1024);
    let pts = scatter(500, 1200, 42);
    let windows = [
        region(0, 0, 50),
        region(0, 0, 1024),
        region(0, 0, 4000),
        region(512, 512, 512),
        region(-700, 300, 333),
        region(1024, 0, 100),
        region(1100, 1100, 80),
        region(5, -5, 0),
        region(0, 0, -3),
        region(-1024, -1024, 1),
    ];
    for capacity in [0usize, 1, 4, 16, 1000] {
        let t = build(root, capacity, &pts);
        for w in windows.iter() {
            let want: Vec<Point> = pts
                .iter()
                .filter(|p| root.contains(p) && w.contains(p))
                .cloned()
                .collect();
            assert_eq!(sorted(ask(&t, w)), sorted(want));
        }
    }
}

#[test]
fn query_gives_the_same_answer_for_the_same_insertions() {
    let root = region(0, 0, 1000);
    let pts = scatter(400, 1000, 2024);
    assert_eq!(pts.len(), 400);
    let first = build(root, 4, &pts);
    let second = build(root, 4, &pts);
    for w in [
        region(0, 0, 50),
        region(0, 0, 1000),
        region(250, -250, 125),
        region(-999, 999, 10),
        region(3000, 0, 10),
    ] {
        assert_eq!(ask(&first, &w), ask(&second, &w));
    }
    assert_eq!(format!("{:?}", first), format!("{:?}", second));
    assert_eq!(ask(&first, &region(0, 0, 1000)).len(), 400);
}

#[test]
fn query_appends_to_what_was_found_before() {
    let mut t = Quadtree::new(region(0, 0, 8), 4);
    t.insert(&Point::new(1, 1));
    let mut found = vec![Point::new(99, 99)];
    t.query(&region(0, 0, 8), &mut found);
    assert_eq!(found, vec![Point::new(99, 99), Point::new(1, 1)]);
    t.query(&region(0, 0, 8), &mut found);
    assert_eq!(found, vec![Point::new(99, 99), Point::new(1, 1), Point::new(1, 1)]);
}

#[test]
fn query_walks_own_points_then_ne_nw_se_sw() {
    let mut t = Quadtree::new(region(0, 0, 8), 4);
    t.insert(&Point::new(0, 0));
    t.subdivide();
    t.insert(&Point::new(-4, 4));
    t.insert(&Point::new(4, 4));
    t.insert(&Point::new(-4, -4));
    t.insert(&Point::new(4, -4));
    let found = ask(&t, &region(0, 0, 8));
    assert_eq!(
        found,
        vec![
            Point::new(0, 0),
            Point::new(4, -4),
            Point::new(-4, -4),
            Point::new(4, 4),
            Point::new(-4, 4),
        ]
    );
}

#[test]
fn query_keeps_insertion_order_within_a_leaf() {
    let mut t = Quadtree::new(region(0, 0, 8), 4);
    t.insert(&Point::new(3, 3));
    t.insert(&Point::new(-3, 3));
    t.insert(&Point::new(1, -1));
    assert_eq!(
        ask(&t, &region(0, 0, 3)),
        vec![Point::new(3, 3), Point::new(-3, 3), Point::new(1, -1)]
    );
    assert_eq!(ask(&t, &region(0, 3, 3)), vec![Point::new(3, 3), Point::new(-3, 3)]);
}
