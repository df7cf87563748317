use map_tool::bbox::BboxTree;
use map_tool::map::{
    average_of, build_height_map, build_shape_index, class_name, classify, root_bbox,
    search_box, tile_class, tile_height, tile_point, ClassPoint, HeightPoint, MapTile,
    MapTileClass, Shape, TileMap, LAT_MAX, LONG_MIN, MAP_SIZE,
};
use map_tool::point::{LineSegment, Point, Polygon};

fn pt(x: i64, y: i64) -> Point {
    Point { x, y }
}

/// A rectangle around `c`, off-centre so that the cast ray meets no vertex.
fn rect_around(c: Point) -> Polygon {
    Polygon::new(vec![
        pt(c.x - 50, c.y - 30),
        pt(c.x + 50, c.y - 30),
        pt(c.x + 50, c.y + 70),
        pt(c.x - 50, c.y + 70),
    ])
}

fn empty_classes() -> BboxTree<ClassPoint> {
    BboxTree::new(root_bbox())
}

#[test]
fn tile_positions() {
    assert_eq!(tile_point(0, 0), pt(LONG_MIN, LAT_MAX));
    assert_eq!(tile_point(2, 4), pt(LONG_MIN + 976, LAT_MAX - 1953));
    assert_eq!(tile_point(MAP_SIZE - 1, 0).x, LONG_MIN + 249511);
}

#[test]
fn two_samples_average_to_fifteen() {
    let p = tile_point(0, 0);
    let samples = vec![
        HeightPoint { height: 10, coords: pt(p.x + 10, p.y + 10) },
        HeightPoint { height: 20, coords: pt(p.x - 10, p.y - 10) },
    ];
    let t = BboxTree::new(root_bbox()).add_items(&samples);
    assert_eq!(tile_height(&t, &p), 15);
}

#[test]
fn tile_without_samples_has_height_zero() {
    let t: BboxTree<HeightPoint> = BboxTree::new(root_bbox());
    assert_eq!(tile_height(&t, &tile_point(3, 3)), 0);
}

#[test]
fn lake_wins_over_building() {
    let p = tile_point(0, 0);
    let lakes = vec![rect_around(p)];
    let buildings = vec![rect_around(p)];
    let shapes = build_shape_index(&vec![], &buildings);
    assert_eq!(tile_class(&shapes, &empty_classes(), &lakes, &p), MapTileClass::WATER);
}

#[test]
fn lake_wins_whatever_the_order() {
    let p = tile_point(10, 10);
    let far = Polygon::new(vec![pt(p.x + 500, p.y), pt(p.x + 600, p.y), pt(p.x + 600, p.y + 90)]);
    let lakes_a = vec![far.duplicate(), rect_around(p)];
    let lakes_b = vec![rect_around(p), far.duplicate()];
    let buildings_a = vec![far.duplicate(), rect_around(p)];
    let buildings_b = vec![rect_around(p), far];
    for lakes in [&lakes_a, &lakes_b] {
        for buildings in [&buildings_a, &buildings_b] {
            let shapes = build_shape_index(&vec![], buildings);
            assert_eq!(tile_class(&shapes, &empty_classes(), lakes, &p), MapTileClass::WATER);
        }
    }
}

#[test]
fn building_wins_over_road() {
    let p = tile_point(5, 6);
    let roads = vec![LineSegment { a: pt(p.x - 40, p.y), b: pt(p.x + 40, p.y) }];
    let shapes = build_shape_index(&roads, &vec![rect_around(p)]);
    assert_eq!(tile_class(&shapes, &empty_classes(), &vec![], &p), MapTileClass::BUILDING);
}

#[test]
fn road_close_enough() {
    let p = tile_point(5, 6);
    let near = vec![LineSegment { a: pt(p.x - 40, p.y + 99), b: pt(p.x + 40, p.y + 99) }];
    let shapes = build_shape_index(&near, &vec![]);
    assert_eq!(tile_class(&shapes, &empty_classes(), &vec![], &p), MapTileClass::ROAD);
    let far = vec![LineSegment { a: pt(p.x - 40, p.y + 100), b: pt(p.x + 40, p.y + 100) }];
    let shapes = build_shape_index(&far, &vec![]);
    assert_eq!(tile_class(&shapes, &empty_classes(), &vec![], &p), MapTileClass::EMPTY);
}

#[test]
fn nearest_class_point_decides_last() {
    let p = pt(0, 0);
    let a = ClassPoint { class: MapTileClass::ROAD, coords: pt(30, 40) };
    let b = ClassPoint { class: MapTileClass::WATER, coords: pt(0, 20) };
    let c = ClassPoint { class: MapTileClass::BUILDING, coords: pt(20, 0) };
    let far = ClassPoint { class: MapTileClass::WATER, coords: pt(4000, 0) };
    assert_eq!(classify(&vec![], &vec![], &vec![&a, &b, &c], &p), MapTileClass::WATER);
    assert_eq!(classify(&vec![], &vec![], &vec![&a, &c, &b], &p), MapTileClass::BUILDING);
    assert_eq!(classify(&vec![], &vec![], &vec![&far], &p), MapTileClass::EMPTY);
    assert_eq!(classify(&vec![], &vec![], &vec![&far, &a], &p), MapTileClass::ROAD);
}

#[test]
fn classify_priority_chain() {
    let p = pt(1000, 1000);
    let lake = rect_around(p);
    let building = Shape::Polygon(rect_around(p), MapTileClass::BUILDING);
    let road = Shape::LineSegment(LineSegment { a: pt(900, 1000), b: pt(1100, 1000) }, MapTileClass::ROAD);
    let cp = ClassPoint { class: MapTileClass::WATER, coords: pt(1000, 1001) };
    assert_eq!(classify(&vec![lake], &vec![&road, &building], &vec![], &p), MapTileClass::WATER);
    assert_eq!(classify(&vec![], &vec![&road, &building], &vec![&cp], &p), MapTileClass::BUILDING);
    assert_eq!(classify(&vec![], &vec![&road], &vec![&cp], &p), MapTileClass::ROAD);
    assert_eq!(classify(&vec![], &vec![], &vec![&cp], &p), MapTileClass::WATER);
    // A building-shaped polygon tagged as a road counts for nothing.
    let odd = Shape::Polygon(rect_around(p), MapTileClass::ROAD);
    assert_eq!(classify(&vec![], &vec![&odd], &vec![], &p), MapTileClass::EMPTY);
}

#[test]
fn class_names() {
    assert_eq!(class_name(MapTileClass::WATER), "WATER");
    assert_eq!(class_name(MapTileClass::BUILDING), "BUILDING");
    assert_eq!(class_name(MapTileClass::ROAD), "ROAD");
    assert_eq!(class_name(MapTileClass::EMPTY), "EMPTY");
}

#[test]
fn full_grid() {
    let p = tile_point(1, 2);
    let samples = vec![
        HeightPoint { height: 10, coords: pt(p.x, p.y) },
        HeightPoint { height: 20, coords: pt(p.x + 1, p.y + 1) },
    ];
    let map = TileMap::new(samples, vec![], vec![rect_around(p)], vec![]);
    assert_eq!(map.tiles.len(), MAP_SIZE);
    assert!(map.tiles.iter().all(|r| r.len() == MAP_SIZE));
    assert_eq!(map.tiles[2][1], MapTile { height: 15, class: MapTileClass::WATER });
    // Both samples sit in the root leaf, which every height window overlaps.
    assert_eq!(map.tiles[300][300], MapTile { height: 15, class: MapTileClass::EMPTY });
    let names = map.class_map();
    assert_eq!(names[2][1], "WATER");
    assert_eq!(names[0][511], "EMPTY");
    assert!(map.buildings.is_empty());
}

#[test]
fn mean_of_samples_rounds_toward_zero() {
    let s = |h: i64| HeightPoint { height: h, coords: pt(0, 0) };
    assert_eq!(average_of(&vec![]), 0);
    assert_eq!(average_of(&vec![s(1), s(2)]), 1);
    assert_eq!(average_of(&vec![s(-1), s(-2)]), -1);
    assert_eq!(average_of(&vec![s(i64::MAX), s(i64::MAX)]), i64::MAX);
}

#[test]
fn search_window_is_centred() {
    let b = search_box(&pt(1000, 2000), 300);
    assert_eq!(b.a, pt(700, 1700));
    assert_eq!(b.b, pt(1300, 2300));
}

#[test]
fn height_grid_has_every_row() {
    let p = tile_point(7, 9);
    let t = BboxTree::new(root_bbox()).add_items(&vec![HeightPoint { height: 42, coords: p }]);
    let rows = build_height_map(&t);
    assert_eq!(rows.len(), MAP_SIZE);
    assert_eq!(rows[9][7], 42);
    assert_eq!(rows[511][511], 42);
}

#[test]
fn class_grid_ignores_building_order() {
    let p = tile_point(20, 30);
    let roads = vec![LineSegment { a: pt(p.x - 400, p.y + 50), b: pt(p.x + 400, p.y + 50) }];
    let mut buildings: Vec<Polygon> = (0..14)
        .map(|i| {
            let c = pt(p.x - 700 + i * 100, p.y - 200);
            Polygon::new(vec![pt(c.x, c.y), pt(c.x + 60, c.y), pt(c.x + 60, c.y + 40), pt(c.x, c.y + 40)])
        })
        .collect();
    buildings.push(rect_around(tile_point(22, 30)));
    let reversed: Vec<Polygon> = buildings.iter().rev().map(|b| b.duplicate()).collect();
    let a = build_shape_index(&roads, &buildings);
    let b = build_shape_index(&roads, &reversed);
    for x in 15..26 {
        for y in 25..36 {
            let q = tile_point(x, y);
            assert_eq!(
                tile_class(&a, &empty_classes(), &vec![], &q),
                tile_class(&b, &empty_classes(), &vec![], &q)
            );
        }
    }
    assert_eq!(tile_class(&a, &empty_classes(), &vec![], &tile_point(22, 30)), MapTileClass::BUILDING);
}
