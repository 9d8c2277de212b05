use quadtree::geometry::{Point, Rect};
use quadtree::quadtree::QuadNode;

fn universe() -> Rect {
    Rect::new(0, 0, 100, 100)
}

fn expanded(limit: usize) -> QuadNode {
    let mut t = QuadNode::new(universe(), limit);
    t.split();
    t
}

fn ids(found: &[(u32, Point)]) -> Vec<u32> {
    let mut v: Vec<u32> = found.iter().map(|e| e.0).collect();
    v.sort();
    v
}

#[test]
fn scenario_three_points_in_one_quadrant() {
    let mut t = expanded(2);
    t.add(0, &Point::new(10, 10));
    t.add(1, &Point::new(12, 12));
    assert!(t.quadrant(0).unwrap().leaf());
    t.add(2, &Point::new(14, 14));
    let tl = t.quadrant(0).unwrap();
    assert!(!tl.leaf());
    assert!(tl.points().is_empty());
    assert_eq!(ids(&t.query(&universe())), vec![0, 1, 2]);
    assert!(t.query(&Rect::new(50, 50, 50, 50)).is_empty());
}

#[test]
fn split_of_full_leaf() {
    let mut t = QuadNode::new(universe(), 2);
    t.add(0, &Point::new(10, 10));
    t.add(1, &Point::new(20, 20));
    assert!(t.leaf());
    assert_eq!(t.points().len(), 2);
    t.add(2, &Point::new(30, 30));
    assert!(!t.leaf());
    assert!(t.points().is_empty());
    for k in 0..4 {
        assert!(t.quadrant(k).is_some());
    }
    assert!(t.quadrant(4).is_none());
    assert_eq!(ids(&t.query(&universe())), vec![0, 1, 2]);
}

#[test]
fn quadrants_of_split_node() {
    let t = expanded(4);
    assert_eq!(t.quadrant(0).unwrap().region(), Rect::new(0, 0, 50, 50));
    assert_eq!(t.quadrant(1).unwrap().region(), Rect::new(50, 0, 50, 50));
    assert_eq!(t.quadrant(2).unwrap().region(), Rect::new(0, 50, 50, 50));
    assert_eq!(t.quadrant(3).unwrap().region(), Rect::new(50, 50, 50, 50));
    for k in 0..4 {
        assert_eq!(t.quadrant(k).unwrap().limit(), 4);
    }
}

#[test]
fn odd_sizes_give_remainder_to_right_and_bottom() {
    let r = Rect::new(-3, 4, 7, 5);
    let q = r.quadrants();
    assert_eq!(q[0], Rect::new(-3, 4, 3, 2));
    assert_eq!(q[1], Rect::new(0, 4, 4, 2));
    assert_eq!(q[2], Rect::new(-3, 6, 3, 3));
    assert_eq!(q[3], Rect::new(0, 6, 4, 3));
}

#[test]
fn quadrants_tile_the_region() {
    let r = Rect::new(-5, 2, 11, 9);
    let q = r.quadrants();
    let area: i32 = q.iter().map(|c| c.w * c.h).sum();
    assert_eq!(area, r.w * r.h);
    for x in -8..10 {
        for y in -1..14 {
            let p = Point::new(x, y);
            let n = q.iter().filter(|c| c.contains(p)).count();
            assert_eq!(n, if r.contains(p) { 1 } else { 0 });
        }
    }
}

#[test]
fn over_inclusion_at_leaf_granularity() {
    let mut t = expanded(10);
    t.add(0, &Point::new(10, 10));
    t.add(1, &Point::new(20, 20));
    t.add(2, &Point::new(40, 40));
    let q = Rect::new(0, 0, 30, 30);
    assert!(!q.contains(Point::new(40, 40)));
    assert_eq!(ids(&t.query(&q)), vec![0, 1, 2]);
}

#[test]
fn empty_tree_has_no_candidates() {
    let t = QuadNode::new(universe(), 10);
    assert!(t.query(&universe()).is_empty());
    assert!(t.query(&Rect::new(10, 10, 20, 20)).is_empty());
    let e = expanded(10);
    assert!(e.query(&universe()).is_empty());
}

#[test]
fn outside_points_are_dropped() {
    let mut t = expanded(2);
    t.add(0, &Point::new(10, 10));
    let before = t.query(&universe());
    t.add(1, &Point::new(150, 150));
    t.add(2, &Point::new(-1, 5));
    t.add(3, &Point::new(100, 50));
    t.add(4, &Point::new(50, 100));
    assert_eq!(t.query(&universe()), before);
    assert_eq!(t.query(&Rect::new(-50, -50, 300, 300)), before);
    assert_eq!(t.outlines().len(), 5);
}

#[test]
fn every_inserted_point_is_found_over_the_universe() {
    let mut t = expanded(3);
    let mut n: u32 = 0;
    for i in 0..40i32 {
        let p = Point::new((i * 37) % 100, (i * 53) % 100);
        t.add(n, &p);
        n += 1;
    }
    assert_eq!(ids(&t.query(&universe())), (0..40).collect::<Vec<u32>>());
}

#[test]
fn no_false_negatives_in_a_query_area() {
    let mut t = expanded(2);
    let mut pts = Vec::new();
    for i in 0..60i32 {
        let p = Point::new((i * 17 + 3) % 100, (i * 29 + 11) % 100);
        t.add(i as u32, &p);
        pts.push(p);
    }
    let q = Rect::new(20, 30, 35, 25);
    let found = ids(&t.query(&q));
    for (i, p) in pts.iter().enumerate() {
        if q.contains(*p) {
            assert!(found.contains(&(i as u32)));
        }
    }
    for e in t.query(&q) {
        assert_eq!(pts[e.0 as usize], e.1);
    }
}

#[test]
fn degenerate_query_area_finds_nothing() {
    let mut t = expanded(2);
    t.add(0, &Point::new(10, 10));
    assert!(t.query(&Rect::new(10, 10, 0, 5)).is_empty());
    assert!(t.query(&Rect::new(10, 10, 5, 0)).is_empty());
    assert!(t.query(&Rect::new(10, 10, -5, 5)).is_empty());
}

#[test]
fn touching_edges_do_not_intersect() {
    let mut t = expanded(2);
    t.add(0, &Point::new(60, 10));
    assert!(t.query(&Rect::new(0, 0, 50, 50)).is_empty());
    assert_eq!(ids(&t.query(&Rect::new(0, 0, 51, 50))), vec![0]);
    assert!(!Rect::new(0, 0, 50, 50).intersects(&Rect::new(50, 0, 10, 10)));
    assert!(Rect::new(0, 0, 50, 50).intersects(&Rect::new(49, 49, 10, 10)));
}

#[test]
fn unsplit_root_is_never_searched() {
    let mut t = QuadNode::new(universe(), 5);
    t.add(0, &Point::new(10, 10));
    assert_eq!(t.points().len(), 1);
    assert!(t.query(&universe()).is_empty());
}

#[test]
fn smallest_leaf_accepts_points_past_its_limit() {
    let mut t = QuadNode::new(Rect::new(0, 0, 1, 1), 1);
    for i in 0..5u32 {
        t.add(i, &Point::new(0, 0));
    }
    assert!(t.leaf());
    assert_eq!(t.points().len(), 5);
}

#[test]
fn clustered_points_stop_splitting() {
    let mut t = expanded(1);
    for i in 0..20u32 {
        t.add(i, &Point::new(7, 7));
    }
    assert_eq!(ids(&t.query(&universe())), (0..20).collect::<Vec<u32>>());
    assert_eq!(ids(&t.query(&Rect::new(7, 7, 1, 1))), (0..20).collect::<Vec<u32>>());
}

#[test]
fn outlines_list_parents_first() {
    let mut t = QuadNode::new(universe(), 1);
    assert_eq!(t.outlines(), vec![universe()]);
    t.add(0, &Point::new(10, 10));
    t.add(1, &Point::new(60, 60));
    let o = t.outlines();
    assert_eq!(o.len(), 5);
    assert_eq!(o[0], universe());
    assert_eq!(o[1], Rect::new(0, 0, 50, 50));
    assert_eq!(o[4], Rect::new(50, 50, 50, 50));
}

#[test]
fn rectangle_containment_is_half_open() {
    let r = Rect::new(0, 0, 10, 10);
    assert!(r.contains(Point::new(0, 0)));
    assert!(r.contains(Point::new(9, 9)));
    assert!(!r.contains(Point::new(10, 5)));
    assert!(!r.contains(Point::new(5, 10)));
    assert!(!r.contains(Point::new(-1, 5)));
    assert!(r.can_split());
    assert!(!Rect::new(0, 0, 1, 10).can_split());
}
