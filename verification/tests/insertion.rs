use quadtree::aabb::AABB;
use quadtree::point::Point;
use quadtree::quad_tree::Quadtree;

fn tree(cx: i64, cy: i64, half: i64, capacity: usize) -> Quadtree {
    Quadtree::new(AABB::new(Point::new(cx, cy), half), capacity)
}

fn count_nodes(t: &Quadtree) -> usize {
    let mut n = 1;
    for child in [&t.ne, &t.nw, &t.se, &t.sw] {
        if let Some(c) = child {
            n += count_nodes(c);
        }
    }
    n
}

fn stored(t: &Quadtree) -> Vec<Point> {
    let mut out = t.points.clone();
    for child in [&t.ne, &t.nw, &t.se, &t.sw] {
        if let Some(c) = child {
            out.extend(stored(c));
        }
    }
    out
}

fn all_within(t: &Quadtree) -> bool {
    t.points.iter().all(|p| t.boundary.contains(p))
        && [&t.ne, &t.nw, &t.se, &t.sw].iter().all(|child| match child {
            Some(c) => all_within(c) && stored(c).iter().all(|p| t.boundary.contains(p)),
            None => true,
        })
}

#[test]
fn new_tree_is_an_empty_leaf() {
    let b = AABB::new(Point::new(1, 2), 16);
    let t = Quadtree::new(b, 4);
    assert_eq!(t.boundary, b);
    assert_eq!(t.capacity, 4);
    assert!(t.points.is_empty());
    assert!(!t.divided);
    assert!(t.ne.is_none() && t.nw.is_none() && t.se.is_none() && t.sw.is_none());
}

#[test]
fn insert_buffers_points_while_the_leaf_has_room() {
    let mut t = tree(0, 0, 100, 3);
    t.insert(&Point::new(1, 1));
    t.insert(&Point::new(-50, 20));
    t.insert(&Point::new(100, -100));
    assert!(!t.divided);
    assert_eq!(
        t.points,
        vec![Point::new(1, 1), Point::new(-50, 20), Point::new(100, -100)]
    );
    assert_eq!(count_nodes(&t), 1);
}

#[test]
fn insert_outside_the_region_changes_nothing() {
    let mut t = tree(0, 0, 100, 2);
    t.insert(&Point::new(10, 10));
    let before = format!("{:?}", t);
    t.insert(&Point::new(101, 0));
    t.insert(&Point::new(0, -101));
    t.insert(&Point::new(500, 500));
    assert_eq!(format!("{:?}", t), before);
    assert_eq!(stored(&t).len(), 1);
}

#[test]
fn insert_outside_a_divided_tree_changes_nothing() {
    let mut t = tree(0, 0, 100, 1);
    t.insert(&Point::new(10, 10));
    t.insert(&Point::new(-10, -10));
    assert!(t.divided);
    let before = format!("{:?}", t);
    t.insert(&Point::new(0, 101));
    assert_eq!(format!("{:?}", t), before);
    assert_eq!(stored(&t).len(), 2);
}

#[test]
fn insert_divides_a_full_leaf_and_hands_its_points_down() {
    let mut t = tree(0, 0, 100, 2);
    t.insert(&Point::new(10, -10));
    t.insert(&Point::new(-10, -10));
    assert!(!t.divided);
    t.insert(&Point::new(10, 10));
    assert!(t.divided);
    assert!(t.points.is_empty());
    assert_eq!(t.ne.as_ref().unwrap().points, vec![Point::new(10, -10)]);
    assert_eq!(t.nw.as_ref().unwrap().points, vec![Point::new(-10, -10)]);
    assert_eq!(t.se.as_ref().unwrap().points, vec![Point::new(10, 10)]);
    assert!(t.sw.as_ref().unwrap().points.is_empty());
    assert_eq!(count_nodes(&t), 5);
}

#[test]
fn insert_gives_each_point_to_one_child_only() {
    let mut t = tree(0, 0, 64, 1);
    let pts = [
        Point::new(0, 0),
        Point::new(0, -5),
        Point::new(-5, 0),
        Point::new(32, 32),
        Point::new(32, 0),
        Point::new(0, 32),
        Point::new(-64, 64),
        Point::new(64, -64),
    ];
    for p in pts.iter() {
        t.insert(p);
    }
    let mut got = stored(&t);
    let mut want = pts.to_vec();
    got.sort_by_key(|p| (p.x, p.y));
    want.sort_by_key(|p| (p.x, p.y));
    assert_eq!(got, want);
    assert!(all_within(&t));
}

#[test]
fn insert_puts_centre_line_points_east_and_south() {
    let mut t = tree(0, 0, 8, 0);
    t.subdivide();
    t.insert(&Point::new(0, 0));
    t.insert(&Point::new(0, -3));
    t.insert(&Point::new(-3, 0));
    assert_eq!(stored(t.se.as_ref().unwrap()), vec![Point::new(0, 0)]);
    assert_eq!(stored(t.ne.as_ref().unwrap()), vec![Point::new(0, -3)]);
    assert_eq!(stored(t.sw.as_ref().unwrap()), vec![Point::new(-3, 0)]);
    assert!(stored(t.nw.as_ref().unwrap()).is_empty());
}

#[test]
fn insert_keeps_equal_points_in_a_leaf_that_cannot_be_split() {
    let mut t = tree(0, 0, 64, 2);
    for _ in 0..50 {
        t.insert(&Point::new(5, 5));
    }
    let all = stored(&t);
    assert_eq!(all.len(), 50);
    assert!(all.iter().all(|p| *p == Point::new(5, 5)));
    assert!(all_within(&t));
}

#[test]
fn insert_fills_a_leaf_with_an_odd_half_size_beyond_capacity() {
    let mut t = tree(0, 0, 25, 1);
    t.insert(&Point::new(1, 1));
    t.insert(&Point::new(-1, -1));
    t.insert(&Point::new(20, 20));
    assert!(!t.divided);
    assert_eq!(t.points.len(), 3);
}

#[test]
fn insert_divides_down_to_the_smallest_region() {
    let mut t = tree(0, 0, 4, 1);
    t.insert(&Point::new(1, 1));
    t.insert(&Point::new(1, 1));
    t.insert(&Point::new(1, 1));
    // half 4 -> 2 -> 1: two levels of division, then the leaf keeps all.
    assert!(t.divided);
    let se = t.se.as_ref().unwrap();
    assert_eq!(se.boundary, AABB::new(Point::new(2, 2), 2));
    assert!(se.divided);
    let leaf = se.nw.as_ref().unwrap();
    assert_eq!(leaf.boundary, AABB::new(Point::new(1, 1), 1));
    assert!(!leaf.divided);
    assert_eq!(leaf.points.len(), 3);
    assert_eq!(count_nodes(&t), 9);
}

#[test]
fn insert_with_capacity_zero_divides_at_once() {
    let mut t = tree(0, 0, 2, 0);
    t.insert(&Point::new(1, -1));
    assert!(t.divided);
    assert!(t.points.is_empty());
    assert_eq!(t.ne.as_ref().unwrap().points, vec![Point::new(1, -1)]);
    assert_eq!(stored(&t).len(), 1);
}

#[test]
fn insert_into_an_empty_region_keeps_nothing() {
    let mut t = tree(0, 0, -1, 4);
    t.insert(&Point::new(0, 0));
    assert!(stored(&t).is_empty());
}

#[test]
fn insert_never_undoes_a_division() {
    let mut t = tree(0, 0, 100, 1);
    t.insert(&Point::new(10, 10));
    t.insert(&Point::new(-10, -10));
    assert!(t.divided);
    for i in 0..20 {
        t.insert(&Point::new(i, -i));
        assert!(t.divided);
        assert!(t.points.is_empty());
    }
}

#[test]
fn insert_counts_every_kept_point_once() {
    let mut t = tree(0, 0, 1024, 3);
    let mut kept = 0;
    let mut seed: u64 = 12345;
    for _ in 0..300 {
        seed = seed.wrapping_mul(6364136223846793005).wrapping_add(1442695040888963407);
        let x = ((seed >> 33) % 3000) as i64 - 1500;
        seed = seed.wrapping_mul(6364136223846793005).wrapping_add(1442695040888963407);
        let y = ((seed >> 33) % 3000) as i64 - 1500;
        let p = Point::new(x, y);
        if t.boundary.contains(&p) {
            kept += 1;
        }
        t.insert(&p);
        assert_eq!(stored(&t).len(), kept);
    }
    assert!(kept > 100 && kept < 300);
    assert!(all_within(&t));
}

#[test]
fn subdivide_creates_four_quadrants_of_half_the_size() {
    let mut t = tree(0, 0, 100, 4);
    t.subdivide();
    assert!(t.divided);
    let ne = t.ne.as_ref().unwrap();
    let nw = t.nw.as_ref().unwrap();
    let se = t.se.as_ref().unwrap();
    let sw = t.sw.as_ref().unwrap();
    assert_eq!(ne.boundary, AABB::new(Point::new(50, -50), 50));
    assert_eq!(nw.boundary, AABB::new(Point::new(-50, -50), 50));
    assert_eq!(se.boundary, AABB::new(Point::new(50, 50), 50));
    assert_eq!(sw.boundary, AABB::new(Point::new(-50, 50), 50));
    for c in [ne, nw, se, sw] {
        assert_eq!(c.capacity, 4);
        assert!(c.points.is_empty());
        assert!(!c.divided);
        assert!(c.ne.is_none() && c.nw.is_none() && c.se.is_none() && c.sw.is_none());
    }
}

#[test]
fn subdivide_around_another_centre() {
    let mut t = tree(10, -20, 6, 1);
    t.subdivide();
    assert_eq!(t.ne.as_ref().unwrap().boundary, AABB::new(Point::new(13, -23), 3));
    assert_eq!(t.nw.as_ref().unwrap().boundary, AABB::new(Point::new(7, -23), 3));
    assert_eq!(t.se.as_ref().unwrap().boundary, AABB::new(Point::new(13, -17), 3));
    assert_eq!(t.sw.as_ref().unwrap().boundary, AABB::new(Point::new(7, -17), 3));
}

#[test]
fn subdivide_leaves_the_buffer_alone() {
    let mut t = tree(0, 0, 100, 4);
    t.insert(&Point::new(1, 2));
    t.insert(&Point::new(-3, 4));
    t.subdivide();
    assert!(t.divided);
    assert_eq!(t.points, vec![Point::new(1, 2), Point::new(-3, 4)]);
    assert_eq!(stored(&t).len(), 2);
}

#[test]
fn subdivide_twice_is_subdivide_once() {
    let mut t = tree(0, 0, 100, 1);
    t.subdivide();
    t.insert(&Point::new(10, 10));
    t.insert(&Point::new(-10, 10));
    let before = format!("{:?}", t);
    t.subdivide();
    assert_eq!(format!("{:?}", t), before);
}

#[test]
fn subdivide_does_nothing_where_the_region_cannot_be_split() {
    for half in [25, 1, 0, -4] {
        let mut t = tree(0, 0, half, 1);
        let before = format!("{:?}", t);
        t.subdivide();
        assert!(!t.divided);
        assert_eq!(format!("{:?}", t), before);
    }
    let mut edge = tree(i64::MAX, 0, 4, 1);
    edge.subdivide();
    assert!(!edge.divided);
}
