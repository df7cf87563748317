use map_tool::bbox::{Bbox, BboxTree};
use map_tool::map::{ClassPoint, HeightPoint, MapTileClass, Shape};
use map_tool::point::Polygon;
use map_tool::point::Point;

fn pt(x: i64, y: i64) -> Point {
    Point { x, y }
}

fn hp(x: i64, y: i64, height: i64) -> HeightPoint {
    HeightPoint { height, coords: pt(x, y) }
}

fn root() -> Bbox {
    Bbox { a: pt(0, 0), b: pt(1024, 1024) }
}

fn leaves<'a, T>(t: &'a BboxTree<T>, depth: usize, out: &mut Vec<(usize, &'a BboxTree<T>)>) {
    match t {
        BboxTree::Interior { children, .. } => {
            leaves(&children.0, depth + 1, out);
            leaves(&children.1, depth + 1, out);
            leaves(&children.2, depth + 1, out);
            leaves(&children.3, depth + 1, out);
        }
        BboxTree::Leaf { .. } => out.push((depth, t)),
    }
}

fn leaf_parts<T>(t: &BboxTree<T>) -> (Bbox, &Vec<T>) {
    match t {
        BboxTree::Leaf { bbox, items } => (*bbox, items),
        BboxTree::Interior { .. } => panic!("not a leaf"),
    }
}

fn scattered(n: i64) -> Vec<HeightPoint> {
    // Odd coordinates never lie on the split lines of the first levels.
    (0..n).map(|i| hp((i * 37) % 509 * 2 + 1, (i * 91) % 487 * 2 + 1, i)).collect()
}

fn build(points: &Vec<HeightPoint>) -> BboxTree<HeightPoint> {
    let mut t = BboxTree::new(root());
    for p in points {
        t = t.add_item(p, 0);
    }
    t
}

#[test]
fn inserting_keeps_every_point() {
    let points = scattered(60);
    let t = build(&points);
    assert_eq!(t.count_points(), 60);
    for p in &points {
        let leaf = t.find_box_for(&p.coords).expect("inside the root");
        let (_, items) = leaf_parts(leaf);
        assert!(items.contains(p));
    }
}

#[test]
fn boundary_point_is_held_by_every_leaf_it_touches() {
    let mut points = scattered(10);
    points.push(hp(512, 512, 7));
    let t = build(&points);
    assert!(t.count_points() >= 11);
    assert!(matches!(t, BboxTree::Interior { .. }));
}

#[test]
fn add_items_matches_one_by_one() {
    let points = scattered(40);
    let t = BboxTree::new(root()).add_items(&points);
    assert_eq!(t.count_points(), 40);
}

#[test]
fn leaves_respect_split_bound() {
    let t = build(&scattered(200));
    let mut ls = Vec::new();
    leaves(&t, 0, &mut ls);
    assert!(ls.len() > 4);
    for (depth, l) in ls {
        let (_, items) = leaf_parts(l);
        assert!(items.len() <= 10 || depth == 40);
    }
}

#[test]
fn tenth_item_splits_leaf() {
    let points = scattered(9);
    let t = build(&points);
    assert!(matches!(t, BboxTree::Leaf { .. }));
    let t = t.add_item(&hp(3, 3, 0), 0);
    assert!(matches!(t, BboxTree::Interior { .. }));
}

#[test]
fn identical_points_stop_splitting_at_depth_cap() {
    // Wide enough that the boxes down to the cap are at least four units
    // across, so the point never lies on a split line.
    let wide = Bbox { a: pt(0, 0), b: pt(4398046511104, 4398046511104) };
    let mut t = BboxTree::new(wide);
    for i in 0..15 {
        t = t.add_item(&hp(1, 1, i), 0);
    }
    assert_eq!(t.count_points(), 15);
    let mut ls = Vec::new();
    leaves(&t, 0, &mut ls);
    let deepest = ls.iter().map(|(d, _)| *d).max().unwrap();
    assert_eq!(deepest, 40);
    for (depth, l) in ls {
        let (_, items) = leaf_parts(l);
        assert!(items.len() <= 10 || depth == 40);
    }
}

#[test]
fn point_outside_root_is_not_found() {
    let t = build(&scattered(30));
    assert!(t.find_box_for(&pt(2000, 5)).is_none());
    assert!(t.find_box_for(&pt(-1, 5)).is_none());
}

#[test]
fn found_box_contains_point() {
    let t = build(&scattered(100));
    for (x, y) in [(0, 0), (1024, 1024), (512, 3), (700, 250), (33, 999)] {
        let p = pt(x, y);
        let leaf = t.find_box_for(&p).expect("inside the root");
        let (bbox, _) = leaf_parts(leaf);
        assert!(bbox.contains(&p));
    }
}

fn hand_built() -> BboxTree<ClassPoint> {
    let outer = Bbox { a: pt(0, 0), b: pt(100, 100) };
    let (q0, q1, q2, q3) = outer.split();
    let (s0, s1, s2, s3) = q3.split();
    let leaf = |bbox: Bbox| BboxTree::Leaf { bbox, items: Vec::new() };
    BboxTree::Interior {
        bbox: outer,
        children: (
            Box::new(leaf(q0)),
            Box::new(leaf(q1)),
            Box::new(leaf(q2)),
            Box::new(BboxTree::Interior {
                bbox: q3,
                children: (
                    Box::new(leaf(s0)),
                    Box::new(leaf(s1)),
                    Box::new(leaf(s2)),
                    Box::new(leaf(s3)),
                ),
            }),
        ),
    }
}

#[test]
fn overlapping_query_matches_brute_force() {
    let t = hand_built();
    let mut all = Vec::new();
    leaves(&t, 0, &mut all);
    assert_eq!(all.len(), 7);
    let queries = [
        Bbox { a: pt(10, 10), b: pt(20, 20) },
        Bbox { a: pt(60, 60), b: pt(70, 70) },
        Bbox { a: pt(40, 40), b: pt(80, 80) },
        Bbox { a: pt(50, 50), b: pt(50, 50) },
        Bbox { a: pt(101, 0), b: pt(120, 10) },
        Bbox { a: pt(-10, -10), b: pt(200, 200) },
    ];
    for q in queries {
        let found: Vec<Bbox> = t.find_boxes_overlapping(&q).iter().map(|l| leaf_parts(l).0).collect();
        let expected: Vec<Bbox> = all
            .iter()
            .map(|(_, l)| leaf_parts(l).0)
            .filter(|b| b.overlaps(&q))
            .collect();
        assert_eq!(found, expected);
    }
}

#[test]
fn overlapping_query_on_shared_edge() {
    let t = hand_built();
    let q = Bbox { a: pt(50, 50), b: pt(50, 50) };
    // The corner (50, 50) touches the three leaf quadrants and the first
    // leaf inside the fourth quadrant.
    assert_eq!(t.find_boxes_overlapping(&q).len(), 4);
}

#[test]
fn class_points_index_like_heights() {
    let mut t = BboxTree::new(root());
    for i in 0..12 {
        t = t.add_item(&ClassPoint { class: MapTileClass::ROAD, coords: pt(i * 80 + 1, 7) }, 0);
    }
    assert_eq!(t.count_points(), 12);
}

#[test]
fn max_height_of_tree() {
    let t = build(&scattered(50));
    assert_eq!(t.max_height(), 49);
    let empty: BboxTree<HeightPoint> = BboxTree::new(root());
    assert_eq!(empty.max_height(), 0);
    let neg = BboxTree::new(root()).add_items(&vec![hp(1, 1, -5), hp(3, 3, -2)]);
    assert_eq!(neg.max_height(), -2);
}

#[test]
fn average_height_of_leaf_truncates() {
    let t = BboxTree::new(root()).add_items(&vec![hp(1, 1, 10), hp(3, 3, 21)]);
    assert_eq!(t.average_height(), 15);
    let t = BboxTree::new(root()).add_items(&vec![hp(1, 1, -10), hp(3, 3, -21)]);
    assert_eq!(t.average_height(), -15);
}

#[test]
fn average_height_divides_by_four() {
    // Nine samples of 40 in the lower-left quadrant and one of 80 in the
    // lower-right split the root once; the two empty quadrants still count.
    let mut points: Vec<HeightPoint> = (0..9).map(|i| hp(2 * i + 1, 3, 40)).collect();
    points.push(hp(601, 3, 80));
    let t = BboxTree::new(root()).add_items(&points);
    assert!(matches!(t, BboxTree::Interior { .. }));
    assert_eq!(t.average_height(), 30);
}

#[test]
fn every_overlapping_leaf_holds_the_shape() {
    let mut t = BboxTree::new(root());
    let mut boxes = Vec::new();
    for i in 0..30i64 {
        let (x, y) = ((i * 131) % 900 + 3, (i * 277) % 900 + 5);
        let poly = Polygon::new(vec![pt(x, y), pt(x + 90, y), pt(x + 90, y + 60), pt(x, y + 60)]);
        boxes.push(*poly.bbox());
        t = t.add_item(&Shape::Polygon(poly, MapTileClass::BUILDING), 0);
    }
    let mut ls = Vec::new();
    leaves(&t, 0, &mut ls);
    assert!(ls.len() > 1);
    for (_, l) in ls {
        let (bbox, items) = leaf_parts(l);
        for b in &boxes {
            let held = items.iter().any(|s| match s {
                Shape::Polygon(p, _) => p.bbox() == b,
                Shape::LineSegment(..) => false,
            });
            assert_eq!(bbox.overlaps(b), held);
        }
    }
}
