use map_tool::bbox::Bbox;
use map_tool::point::{segments_of, Line, LineSegment, Point, Polygon, Vec2};

fn pt(x: i64, y: i64) -> Point {
    Point { x, y }
}

fn square() -> Polygon {
    Polygon::new(vec![pt(0, 0), pt(4, 0), pt(4, 4), pt(0, 4)])
}

#[test]
fn square_excludes_outside_point() {
    assert!(!square().contains_point(&pt(5, 5)));
}

#[test]
fn square_contains_off_diagonal_point() {
    assert!(square().contains_point(&pt(2, 1)));
    assert!(square().contains_point(&pt(1, 3)));
}

#[test]
fn square_contains_centre() {
    // The ray to (2, 2) starts at (-1, -1) and passes through the vertex
    // (0, 0); the half-open rule counts that vertex once.
    assert!(square().contains_point(&pt(2, 2)));
}

#[test]
fn ray_through_vertex_counts_once() {
    let diamond = Polygon::new(vec![pt(2, 0), pt(4, 2), pt(2, 4), pt(0, 2)]);
    // The rays start at (-1, -1), one unit below-left of the box.
    assert!(diamond.contains_point(&pt(2, 2)));
    assert!(diamond.contains_point(&pt(3, 2)));
    // Inside the box but outside the diamond: two crossings, or none.
    assert!(!diamond.contains_point(&pt(4, 4)));
    assert!(!diamond.contains_point(&pt(0, 0)));
}

#[test]
fn edge_crossing_is_half_open() {
    let ray = LineSegment { a: pt(-1, -1), b: pt(2, 2) };
    // Both edges meet the ray at the vertex (0, 0); only one counts.
    assert!(LineSegment { a: pt(0, 0), b: pt(4, 0) }.crosses_ray(&ray));
    assert!(!LineSegment { a: pt(0, 4), b: pt(0, 0) }.crosses_ray(&ray));
    // An edge lying along the ray counts for nothing.
    assert!(!LineSegment { a: pt(0, 0), b: pt(1, 1) }.crosses_ray(&ray));
    // The segment test itself still accepts a touch at an endpoint.
    assert!(LineSegment { a: pt(0, 4), b: pt(0, 0) }.intersects_segment(&ray));
}

#[test]
fn polygon_bbox_and_edges() {
    let p = Polygon::new(vec![pt(3, -2), pt(7, 5), pt(-1, 4)]);
    assert_eq!(*p.bbox(), Bbox { a: pt(-1, -2), b: pt(7, 5) });
    let e = p.edges();
    assert_eq!(e.len(), 3);
    assert_eq!(e[0], LineSegment { a: pt(3, -2), b: pt(7, 5) });
    assert_eq!(e[2], LineSegment { a: pt(-1, 4), b: pt(3, -2) });
    assert_eq!(p.vertices().len(), 3);
}

#[test]
fn single_vertex_polygon_has_closing_edge() {
    let p = Polygon::new(vec![pt(1, 1)]);
    assert_eq!(p.edges().len(), 1);
    assert_eq!(p.edges()[0], LineSegment { a: pt(1, 1), b: pt(1, 1) });
}

#[test]
fn segment_distance_to_side_point() {
    let s = LineSegment { a: pt(0, 0), b: pt(10, 0) };
    assert_eq!(s.distance_squared_to_point(&pt(5, 5)), 25);
}

#[test]
fn segment_distance_clamps_to_endpoint() {
    let s = LineSegment { a: pt(0, 0), b: pt(10, 0) };
    assert_eq!(s.distance_squared_to_point(&pt(-5, 0)), 25);
    assert_eq!(s.distance_squared_to_point(&pt(13, 4)), 25);
}

#[test]
fn segment_distance_rounds_down() {
    // Exact squared distance from (1, 0) to the line y = x is 1/2.
    let s = LineSegment { a: pt(0, 0), b: pt(4, 4) };
    assert_eq!(s.distance_squared_to_point(&pt(1, 0)), 0);
    // From (3, 0): 9/2.
    assert_eq!(s.distance_squared_to_point(&pt(3, 0)), 4);
}

#[test]
fn zero_length_segment_measures_to_endpoint() {
    let s = LineSegment { a: pt(2, 2), b: pt(2, 2) };
    assert_eq!(s.distance_squared_to_point(&pt(5, 6)), 25);
    assert_eq!(s.length_squared(), 0);
}

#[test]
fn segments_crossing_and_apart() {
    let a = LineSegment { a: pt(0, 0), b: pt(4, 4) };
    let b = LineSegment { a: pt(0, 4), b: pt(4, 0) };
    let c = LineSegment { a: pt(5, 0), b: pt(9, 1) };
    assert!(a.intersects_segment(&b));
    assert!(!a.intersects_segment(&c));
    let touching = LineSegment { a: pt(4, 4), b: pt(8, 0) };
    assert!(a.intersects_segment(&touching));
}

#[test]
fn line_through_segment() {
    let s = LineSegment { a: pt(1, 2), b: pt(4, 6) };
    assert_eq!(s.to_line(), Line { a: 4, b: -3, c: 2 });
    let crossing = LineSegment { a: pt(0, 5), b: pt(5, 0) };
    assert!(crossing.intersects_line(&s.to_line()));
    let beside = LineSegment { a: pt(5, 0), b: pt(6, 1) };
    assert!(!beside.intersects_line(&s.to_line()));
}

#[test]
fn segment_bbox_orders_corners() {
    let s = LineSegment { a: pt(5, -1), b: pt(2, 3) };
    assert_eq!(s.bbox(), Bbox { a: pt(2, -1), b: pt(5, 3) });
}

#[test]
fn vector_helpers() {
    let u = pt(4, 6).vector_from(&pt(1, 2));
    assert_eq!(u, Vec2 { x: 3, y: 4 });
    assert_eq!(u.length_squared(), 25);
    assert_eq!(u.dot(&Vec2 { x: -1, y: 2 }), 5);
    assert_eq!(pt(1, 1).distance_squared(&pt(4, 5)), 25);
}

#[test]
fn bbox_predicates() {
    let b = Bbox { a: pt(0, 0), b: pt(10, 10) };
    assert!(b.contains(&pt(10, 0)));
    assert!(!b.contains(&pt(11, 0)));
    assert!(b.overlaps(&Bbox { a: pt(10, 10), b: pt(20, 20) }));
    assert!(!b.overlaps(&Bbox { a: pt(11, 0), b: pt(20, 20) }));
}

#[test]
fn bbox_split_quarters() {
    let b = Bbox { a: pt(0, 0), b: pt(11, 20) };
    let (q0, q1, q2, q3) = b.split();
    assert_eq!(q0, Bbox { a: pt(0, 0), b: pt(5, 10) });
    assert_eq!(q1, Bbox { a: pt(5, 0), b: pt(11, 10) });
    assert_eq!(q2, Bbox { a: pt(0, 10), b: pt(5, 20) });
    assert_eq!(q3, Bbox { a: pt(5, 10), b: pt(11, 20) });
}

#[test]
fn polyline_segments() {
    let pts = vec![pt(0, 0), pt(3, 1), pt(5, 5)];
    assert_eq!(
        segments_of(&pts),
        vec![LineSegment { a: pt(0, 0), b: pt(3, 1) }, LineSegment { a: pt(3, 1), b: pt(5, 5) }]
    );
    assert!(segments_of(&vec![pt(1, 1)]).is_empty());
    assert!(segments_of(&vec![]).is_empty());
}
