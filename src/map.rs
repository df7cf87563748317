use vstd::prelude::*;

use crate::bbox::Bbox;
use crate::bbox::BboxTree;
use crate::bbox::derefs;
use crate::bbox::gather_items;
use crate::bbox::leaf_items;
use crate::bbox::lemma_box_for_contains;
use crate::bbox::lemma_box_for_found;
use crate::bbox::lemma_index_complete;
use crate::bbox::lemma_leaf_items_contains;
use crate::bbox::lemma_overlapping_items_held;
use crate::bbox::lemma_overlapping_leaves_exact;
use crate::bbox::insert_all_model;
use crate::bbox::item_views;
use crate::bbox::HasCoords;
use crate::bbox::TreeModel;
use crate::point::all_within;
use crate::point::bounds_of;
use crate::point::dist_sq;
use crate::point::polygon_contains;
use crate::point::lemma_near_segment_box;
use crate::point::seg_dist_sq;
use crate::point::COORD_LIMIT;
use crate::point::lemma_bounds_well_formed;
use crate::point::LineSegment;
use crate::point::Point;
use crate::point::Polygon;

verus! {

/// An elevation sample: a pre-scaled fixed-point height at a position.
#[derive(Debug, Clone, Copy, PartialEq, Eq, Structural)]
pub struct HeightPoint {
    pub height: i64,
    pub coords: Point,
}

impl View for HeightPoint {
    type V = HeightPoint;

    open spec fn view(&self) -> HeightPoint {
        *self
    }
}

impl HasCoords for HeightPoint {
    open spec fn fits_view(v: HeightPoint, bbox: Bbox) -> bool {
        bbox.contains_spec(v.coords)
    }

    fn fits_into(&self, bbox: &Bbox) -> (r: bool) {
        bbox.contains(&self.coords)
    }

    fn duplicate(&self) -> (r: HeightPoint) {
        *self
    }

    proof fn lemma_fits_some_quarter(v: HeightPoint, bbox: Bbox) {
        bbox.lemma_point_in_some_quarter(v.coords);
    }

    proof fn lemma_fits_monotone(v: HeightPoint, inner: Bbox, outer: Bbox) {
    }
}

/// The land-use class of a tile.
#[derive(Debug, Clone, Copy, PartialEq, Eq, Structural)]
pub enum MapTileClass {
    WATER,
    BUILDING,
    ROAD,
    EMPTY,
}

/// A class sample at a position.
#[derive(Debug, Clone, Copy, PartialEq, Eq, Structural)]
pub struct ClassPoint {
    pub class: MapTileClass,
    pub coords: Point,
}

impl View for ClassPoint {
    type V = ClassPoint;

    open spec fn view(&self) -> ClassPoint {
        *self
    }
}

impl HasCoords for ClassPoint {
    open spec fn fits_view(v: ClassPoint, bbox: Bbox) -> bool {
        bbox.contains_spec(v.coords)
    }

    fn fits_into(&self, bbox: &Bbox) -> (r: bool) {
        bbox.contains(&self.coords)
    }

    fn duplicate(&self) -> (r: ClassPoint) {
        *self
    }

    proof fn lemma_fits_some_quarter(v: ClassPoint, bbox: Bbox) {
        bbox.lemma_point_in_some_quarter(v.coords);
    }

    proof fn lemma_fits_monotone(v: ClassPoint, inner: Bbox, outer: Bbox) {
    }
}

/// A classified shape: a line segment or a polygon, with its class.
pub enum Shape {
    LineSegment(LineSegment, MapTileClass),
    Polygon(Polygon, MapTileClass),
}

/// The model of a shape: a polygon is seen through its vertices.
pub ghost enum ShapeView {
    LineSegment(LineSegment, MapTileClass),
    Polygon(Seq<Point>, MapTileClass),
}

/// The bounding box of a shape's model.
pub open spec fn shape_bbox(v: ShapeView) -> Bbox {
    match v {
        ShapeView::LineSegment(s, _) => s.bbox_spec(),
        ShapeView::Polygon(vs, _) => bounds_of(vs),
    }
}

impl View for Shape {
    type V = ShapeView;

    open spec fn view(&self) -> ShapeView {
        match self {
            Shape::LineSegment(s, c) => ShapeView::LineSegment(*s, *c),
            Shape::Polygon(p, c) => ShapeView::Polygon(p@, *c),
        }
    }
}

impl HasCoords for Shape {
    /// A shape belongs in every box that its bounding box overlaps.
    open spec fn fits_view(v: ShapeView, bbox: Bbox) -> bool {
        bbox.overlaps_spec(shape_bbox(v))
    }

    fn fits_into(&self, bbox: &Bbox) -> (r: bool) {
        let b = match self {
            Shape::LineSegment(x, ..) => x.bbox(),
            Shape::Polygon(x, ..) => *x.bbox(),
        };
        bbox.overlaps(&b)
    }

    fn duplicate(&self) -> (r: Shape) {
        match self {
            Shape::LineSegment(s, c) => Shape::LineSegment(*s, *c),
            Shape::Polygon(p, c) => Shape::Polygon(p.duplicate(), *c),
        }
    }

    proof fn lemma_fits_some_quarter(v: ShapeView, bbox: Bbox) {
        match v {
            ShapeView::LineSegment(..) => {},
            ShapeView::Polygon(vs, _) => lemma_bounds_well_formed(vs),
        }
        bbox.lemma_overlap_some_quarter(shape_bbox(v));
    }

    proof fn lemma_fits_monotone(v: ShapeView, inner: Bbox, outer: Bbox) {
    }
}

/// Sum of the heights of `hs`.
pub open spec fn sum_heights(hs: Seq<HeightPoint>) -> int
    decreases hs.len(),
{
    if hs.len() == 0 {
        0
    } else {
        sum_heights(hs.drop_last()) + hs.last().height
    }
}

/// Largest height of `hs`, or zero when `hs` is empty.
pub open spec fn max_heights(hs: Seq<HeightPoint>) -> int
    decreases hs.len(),
{
    if hs.len() == 0 {
        0
    } else if hs.len() == 1 {
        hs[0].height as int
    } else {
        let m = max_heights(hs.drop_last());
        if hs.last().height > m {
            hs.last().height as int
        } else {
            m
        }
    }
}

/// Integer division rounding toward zero, as machine division does.
pub open spec fn div_toward_zero(a: int, n: int) -> int {
    if a >= 0 {
        a / n
    } else {
        -((-a) / n)
    }
}

/// Arithmetic mean of the heights of `hs`, rounded toward zero, or zero when
/// `hs` is empty.
pub open spec fn mean_height(hs: Seq<HeightPoint>) -> int {
    if hs.len() == 0 {
        0
    } else {
        div_toward_zero(sum_heights(hs), hs.len() as int)
    }
}

pub open spec fn max4(a: int, b: int, c: int, d: int) -> int {
    let ab = if a >= b { a } else { b };
    let cd = if c >= d { c } else { d };
    if ab >= cd { ab } else { cd }
}

pub open spec fn positive_part(a: int) -> int {
    if a > 0 { a } else { 0 }
}

impl BboxTree<HeightPoint> {
    /// Largest height over the tree: a leaf gives the maximum of its items
    /// (zero when empty), an interior node the maximum of its children.
    pub open spec fn max_height_spec(self) -> int
        decreases self,
    {
        match self {
            BboxTree::Interior { children, .. } => max4(
                (*children.0).max_height_spec(),
                (*children.1).max_height_spec(),
                (*children.2).max_height_spec(),
                (*children.3).max_height_spec(),
            ),
            BboxTree::Leaf { items, .. } => max_heights(items@),
        }
    }

    /// A leaf gives the mean of its items; an interior node adds up the
    /// positive averages of its children and divides by four, however many
    /// of them were positive.
    pub open spec fn average_height_spec(self) -> int
        decreases self,
    {
        match self {
            BboxTree::Interior { children, .. } => (positive_part(
                (*children.0).average_height_spec(),
            ) + positive_part((*children.1).average_height_spec()) + positive_part(
                (*children.2).average_height_spec(),
            ) + positive_part((*children.3).average_height_spec())) / 4,
            BboxTree::Leaf { items, .. } => mean_height(items@),
        }
    }

    pub fn max_height(&self) -> (r: i64)
        ensures
            r == self.max_height_spec(),
        decreases self,
    {
        match self {
            BboxTree::Interior { children, .. } => {
                let m0 = (*children.0).max_height();
                let m1 = (*children.1).max_height();
                let m2 = (*children.2).max_height();
                let m3 = (*children.3).max_height();
                let ab = if m0 >= m1 { m0 } else { m1 };
                let cd = if m2 >= m3 { m2 } else { m3 };
                if ab >= cd { ab } else { cd }
            },
            BboxTree::Leaf { items, .. } => max_of_heights(items),
        }
    }

    pub fn average_height(&self) -> (r: i64)
        ensures
            r == self.average_height_spec(),
        decreases self,
    {
        match self {
            BboxTree::Interior { children, .. } => {
                let a0 = (*children.0).average_height() as i128;
                let a1 = (*children.1).average_height() as i128;
                let a2 = (*children.2).average_height() as i128;
                let a3 = (*children.3).average_height() as i128;
                let s = (if a0 > 0 { a0 } else { 0 }) + (if a1 > 0 { a1 } else { 0 }) + (if a2
                    > 0 { a2 } else { 0 }) + (if a3 > 0 { a3 } else { 0 });
                (s / 4) as i64
            },
            BboxTree::Leaf { items, .. } => average_of(items),
        }
    }
}

fn max_of_heights(items: &Vec<HeightPoint>) -> (r: i64)
    ensures
        r == max_heights(items@),
{
    if items.len() == 0 {
        return 0;
    }
    let mut m = items[0].height;
    let mut i: usize = 1;
    while i < items.len()
        invariant
            1 <= i <= items@.len(),
            m == max_heights(items@.subrange(0, i as int)),
        decreases items@.len() - i,
    {
        proof {
            let s = items@.subrange(0, i + 1);
            assert(s.drop_last() == items@.subrange(0, i as int));
        }
        if items[i].height > m {
            m = items[i].height;
        }
        i = i + 1;
    }
    assert(items@.subrange(0, items@.len() as int) == items@);
    m
}

proof fn lemma_quotient_bounds(a: int, n: int)
    requires
        0 < n,
        n * (-0x8000_0000_0000_0000) <= a <= n * 0x7fff_ffff_ffff_ffff,
    ensures
        -0x8000_0000_0000_0000 <= div_toward_zero(a, n) <= 0x7fff_ffff_ffff_ffff,
{
    if a >= 0 {
        vstd::arithmetic::div_mod::lemma_fundamental_div_mod(a, n);
        let q = a / n;
        let r = a % n;
        assert(0 <= r < n);
        assert(0 <= q <= 0x7fff_ffff_ffff_ffff) by (nonlinear_arith)
            requires
                a == n * q + r,
                0 <= r < n,
                0 <= a <= n * 0x7fff_ffff_ffff_ffff,
                0 < n,
        ;
    } else {
        let b = -a;
        vstd::arithmetic::div_mod::lemma_fundamental_div_mod(b, n);
        let q = b / n;
        let r = b % n;
        assert(0 <= r < n);
        assert(0 <= q <= 0x8000_0000_0000_0000) by (nonlinear_arith)
            requires
                b == n * q + r,
                0 <= r < n,
                0 < b <= n * 0x8000_0000_0000_0000,
                0 < n,
        ;
    }
}

/// Mean height of `items`, rounded toward zero; zero when there are none.
pub fn average_of(items: &Vec<HeightPoint>) -> (r: i64)
    ensures
        r == mean_height(items@),
{
    let n = items.len();
    if n == 0 {
        return 0;
    }
    let mut sum: i128 = 0;
    let mut i: usize = 0;
    while i < n
        invariant
            n == items@.len(),
            i <= n,
            sum == sum_heights(items@.subrange(0, i as int)),
            (i as int) * (-0x8000_0000_0000_0000) <= sum <= (i as int) * 0x7fff_ffff_ffff_ffff,
        decreases n - i,
    {
        proof {
            let s = items@.subrange(0, i + 1);
            assert(s.drop_last() == items@.subrange(0, i as int));
        }
        sum = sum + items[i].height as i128;
        i = i + 1;
    }
    assert(items@.subrange(0, n as int) == items@);
    proof {
        lemma_quotient_bounds(sum as int, n as int);
    }
    let q = if sum >= 0 {
        sum / (n as i128)
    } else {
        -((-sum) / (n as i128))
    };
    q as i64
}

/// Number of tiles along each side of the grid.
pub const MAP_SIZE: usize = 512;

/// Longitude of the grid's left edge, in fixed-point units of 1e-7 degree.
pub const LONG_MIN: i64 = 237575000;

/// Latitude of the grid's top edge, in fixed-point units of 1e-7 degree.
pub const LAT_MAX: i64 = 615025000;

/// Extent of the grid along each axis, in fixed-point units.
pub const MAP_SPAN: i64 = 250000;

/// Half-width of the window searched for height samples around a tile.
pub const HEIGHT_SEARCH: i64 = 300;

/// Half-width of the window searched for shapes and class samples.
pub const CLASS_SEARCH: i64 = 100;

/// A tile closer than this to a road, squared, is a road tile.
pub const ROAD_DIST_SQ: i128 = 10000;

/// A class sample closer than this to a tile, squared, can classify it.
pub const CLASS_POINT_DIST_SQ: i128 = 10000000;

/// The region every index covers.
pub open spec fn root_bbox_spec() -> Bbox {
    Bbox { a: Point { x: 230000000, y: 600000000 }, b: Point { x: 240000000, y: 620000000 } }
}

pub fn root_bbox() -> (r: Bbox)
    ensures
        r == root_bbox_spec(),
        r.well_formed(),
{
    Bbox { a: Point { x: 230000000, y: 600000000 }, b: Point { x: 240000000, y: 620000000 } }
}

/// The geographic position of the tile in column `x` and row `y`: columns
/// run east from `LONG_MIN`, rows run south from `LAT_MAX`.
pub open spec fn tile_point_spec(x: int, y: int) -> Point {
    Point {
        x: (LONG_MIN + MAP_SPAN * x / MAP_SIZE as int) as i64,
        y: (LAT_MAX - MAP_SPAN * y / MAP_SIZE as int) as i64,
    }
}

pub fn tile_point(x: usize, y: usize) -> (r: Point)
    requires
        x < MAP_SIZE,
        y < MAP_SIZE,
    ensures
        r == tile_point_spec(x as int, y as int),
        r.within(COORD_LIMIT as int),
{
    let dx = MAP_SPAN * (x as i64) / (MAP_SIZE as i64);
    let dy = MAP_SPAN * (y as i64) / (MAP_SIZE as i64);
    proof {
        assert(0 <= dx <= MAP_SPAN) by (nonlinear_arith)
            requires
                dx == MAP_SPAN * (x as int) / 512,
                0 <= x < 512,
        ;
        assert(0 <= dy <= MAP_SPAN) by (nonlinear_arith)
            requires
                dy == MAP_SPAN * (y as int) / 512,
                0 <= y < 512,
        ;
    }
    Point { x: LONG_MIN + dx, y: LAT_MAX - dy }
}

/// The square window of half-width `half` centred on `p`.
pub open spec fn search_box_spec(p: Point, half: int) -> Bbox {
    Bbox {
        a: Point { x: (p.x - half) as i64, y: (p.y - half) as i64 },
        b: Point { x: (p.x + half) as i64, y: (p.y + half) as i64 },
    }
}

pub fn search_box(p: &Point, half: i64) -> (r: Bbox)
    requires
        p.within(COORD_LIMIT as int),
        0 <= half <= COORD_LIMIT,
    ensures
        r == search_box_spec(*p, half as int),
        r.well_formed(),
{
    Bbox { a: Point { x: p.x - half, y: p.y - half }, b: Point { x: p.x + half, y: p.y + half } }
}

/// Height of the tile at `p`: the mean of every sample in the leaves that
/// overlap the height window around `p`, or zero when there is none.
pub open spec fn tile_height_spec(t: BboxTree<HeightPoint>, p: Point) -> int {
    mean_height(leaf_items(t.overlapping_leaves(search_box_spec(p, HEIGHT_SEARCH as int))))
}

pub fn tile_height(t: &BboxTree<HeightPoint>, p: &Point) -> (r: i64)
    requires
        p.within(COORD_LIMIT as int),
    ensures
        r == tile_height_spec(*t, *p),
{
    let window = search_box(p, HEIGHT_SEARCH);
    let leaves = t.find_boxes_overlapping(&window);
    let found = gather_items(&leaves);
    let mut samples: Vec<HeightPoint> = Vec::new();
    let mut i: usize = 0;
    while i < found.len()
        invariant
            i <= found@.len(),
            samples@ == derefs(found@).subrange(0, i as int),
        decreases found@.len() - i,
    {
        samples.push(*found[i]);
        proof {
            assert(samples@ =~= derefs(found@).subrange(0, i + 1));
        }
        i = i + 1;
    }
    assert(derefs(found@).subrange(0, found@.len() as int) == derefs(found@));
    average_of(&samples)
}

/// The vertex sequences of `ps`.
pub open spec fn polygon_views(ps: Seq<Polygon>) -> Seq<Seq<Point>> {
    ps.map_values(|p: Polygon| p@)
}

/// The models of `ss`.
pub open spec fn shape_views(ss: Seq<Shape>) -> Seq<ShapeView> {
    ss.map_values(|s: Shape| s@)
}

/// The shape's coordinates are small enough for exact geometry.
pub open spec fn shape_within(v: ShapeView) -> bool {
    match v {
        ShapeView::LineSegment(s, _) => s.within(COORD_LIMIT as int),
        ShapeView::Polygon(vs, _) => all_within(vs, COORD_LIMIT as int),
    }
}

/// Some lake contains `p`.
pub open spec fn in_lake(lakes: Seq<Seq<Point>>, p: Point) -> bool {
    exists|i: int| 0 <= i < lakes.len() && polygon_contains(#[trigger] lakes[i], p)
}

/// Some building polygon among `shapes` contains `p`.
pub open spec fn in_building(shapes: Seq<ShapeView>, p: Point) -> bool {
    exists|i: int|
        0 <= i < shapes.len() && match #[trigger] shapes[i] {
            ShapeView::Polygon(vs, MapTileClass::BUILDING) => polygon_contains(vs, p),
            _ => false,
        }
}

/// Some road segment among `shapes` passes closer to `p` than the road
/// distance.
pub open spec fn near_road(shapes: Seq<ShapeView>, p: Point) -> bool {
    exists|i: int|
        0 <= i < shapes.len() && match #[trigger] shapes[i] {
            ShapeView::LineSegment(s, MapTileClass::ROAD) => seg_dist_sq(s, p) < ROAD_DIST_SQ,
            _ => false,
        }
}

/// Among the class samples closer to `p` than the class distance, the first
/// one at the smallest distance.
pub open spec fn nearest_class_point(cps: Seq<ClassPoint>, p: Point) -> Option<ClassPoint>
    decreases cps.len(),
{
    if cps.len() == 0 {
        None
    } else {
        let prev = nearest_class_point(cps.drop_last(), p);
        let c = cps.last();
        let d = dist_sq(c.coords, p);
        if d < CLASS_POINT_DIST_SQ && (prev is None || d < dist_sq(prev->0.coords, p)) {
            Some(c)
        } else {
            prev
        }
    }
}

/// The class of the tile at `p`, by strict priority: water, then building,
/// then road, then the nearest class sample, then empty.
pub open spec fn class_of(
    lakes: Seq<Seq<Point>>,
    shapes: Seq<ShapeView>,
    cps: Seq<ClassPoint>,
    p: Point,
) -> MapTileClass {
    if in_lake(lakes, p) {
        MapTileClass::WATER
    } else if in_building(shapes, p) {
        MapTileClass::BUILDING
    } else if near_road(shapes, p) {
        MapTileClass::ROAD
    } else {
        match nearest_class_point(cps, p) {
            Some(c) => c.class,
            None => MapTileClass::EMPTY,
        }
    }
}

/// Water takes precedence: a tile inside any lake is water, whatever
/// buildings, roads or class samples surround it and in whatever order the
/// lakes and shapes were given.
pub proof fn lemma_water_takes_precedence(
    lakes: Seq<Seq<Point>>,
    shapes: Seq<ShapeView>,
    cps: Seq<ClassPoint>,
    p: Point,
    i: int,
)
    requires
        0 <= i < lakes.len(),
        polygon_contains(lakes[i], p),
    ensures
        class_of(lakes, shapes, cps, p) == MapTileClass::WATER,
        forall|other: Seq<Seq<Point>>|
            other.to_multiset() == lakes.to_multiset() ==> class_of(other, shapes, cps, p)
                == MapTileClass::WATER,
{
    assert forall|other: Seq<Seq<Point>>|
        other.to_multiset() == lakes.to_multiset() implies class_of(other, shapes, cps, p)
        == MapTileClass::WATER by {
        vstd::seq_lib::lemma_multiset_commutative(lakes, other);
        lakes.to_multiset_ensures();
        other.to_multiset_ensures();
        assert(lakes.to_multiset().count(lakes[i]) > 0);
        assert(other.contains(lakes[i]));
    }
}

/// Classifies the tile at `p` from the lakes, the candidate shapes and the
/// candidate class samples around it.
pub fn classify(
    lakes: &Vec<Polygon>,
    shapes: &Vec<&Shape>,
    cps: &Vec<&ClassPoint>,
    p: &Point,
) -> (r: MapTileClass)
    requires
        p.within(COORD_LIMIT as int),
        forall|i: int| 0 <= i < lakes@.len() ==> all_within((#[trigger] lakes@[i])@, COORD_LIMIT as int),
        forall|i: int| 0 <= i < shapes@.len() ==> shape_within((#[trigger] shapes@[i])@),
        forall|i: int| 0 <= i < cps@.len() ==> (#[trigger] cps@[i]).coords.within(COORD_LIMIT as int),
    ensures
        r == class_of(polygon_views(lakes@), shape_views(derefs(shapes@)), derefs(cps@), *p),
{
    let ghost lv = polygon_views(lakes@);
    let ghost sv = shape_views(derefs(shapes@));
    let ghost cv = derefs(cps@);
    let mut i: usize = 0;
    while i < lakes.len()
        invariant
            i <= lakes@.len(),
            lv == polygon_views(lakes@),
            p.within(COORD_LIMIT as int),
            forall|k: int| 0 <= k < lakes@.len() ==> all_within((#[trigger] lakes@[k])@, COORD_LIMIT as int),
            forall|k: int| 0 <= k < i ==> !polygon_contains(#[trigger] lv[k], *p),
        decreases lakes@.len() - i,
    {
        if lakes[i].contains_point(p) {
            assert(polygon_contains(lv[i as int], *p));
            return MapTileClass::WATER;
        }
        i = i + 1;
    }
    let mut i: usize = 0;
    while i < shapes.len()
        invariant
            i <= shapes@.len(),
            sv == shape_views(derefs(shapes@)),
            lv == polygon_views(lakes@),
            p.within(COORD_LIMIT as int),
            !in_lake(lv, *p),
            forall|k: int| 0 <= k < shapes@.len() ==> shape_within((#[trigger] shapes@[k])@),
            forall|k: int|
                0 <= k < i ==> !match #[trigger] sv[k] {
                    ShapeView::Polygon(vs, MapTileClass::BUILDING) => polygon_contains(vs, *p),
                    _ => false,
                },
        decreases shapes@.len() - i,
    {
        let sh: &Shape = shapes[i];
        assert(sv[i as int] == sh@);
        if let Shape::Polygon(poly, MapTileClass::BUILDING) = sh {
            if poly.contains_point(p) {
                assert(sv[i as int] == ShapeView::Polygon(poly@, MapTileClass::BUILDING));
                assert(in_building(sv, *p));
                return MapTileClass::BUILDING;
            }
        }
        i = i + 1;
    }
    let mut i: usize = 0;
    while i < shapes.len()
        invariant
            i <= shapes@.len(),
            sv == shape_views(derefs(shapes@)),
            lv == polygon_views(lakes@),
            p.within(COORD_LIMIT as int),
            !in_lake(lv, *p),
            !in_building(sv, *p),
            forall|k: int| 0 <= k < shapes@.len() ==> shape_within((#[trigger] shapes@[k])@),
            forall|k: int|
                0 <= k < i ==> !match #[trigger] sv[k] {
                    ShapeView::LineSegment(s, MapTileClass::ROAD) => seg_dist_sq(s, *p) < ROAD_DIST_SQ,
                    _ => false,
                },
        decreases shapes@.len() - i,
    {
        let sh: &Shape = shapes[i];
        assert(sv[i as int] == sh@);
        if let Shape::LineSegment(seg, MapTileClass::ROAD) = sh {
            if seg.distance_squared_to_point(p) < ROAD_DIST_SQ {
                assert(sv[i as int] == ShapeView::LineSegment(*seg, MapTileClass::ROAD));
                assert(near_road(sv, *p));
                return MapTileClass::ROAD;
            }
        }
        i = i + 1;
    }
    let mut best: Option<ClassPoint> = None;
    let mut best_d: i128 = 0;
    let mut i: usize = 0;
    while i < cps.len()
        invariant
            i <= cps@.len(),
            cv == derefs(cps@),
            sv == shape_views(derefs(shapes@)),
            lv == polygon_views(lakes@),
            !in_lake(lv, *p),
            !in_building(sv, *p),
            !near_road(sv, *p),
            p.within(COORD_LIMIT as int),
            forall|k: int| 0 <= k < cps@.len() ==> (#[trigger] cps@[k]).coords.within(COORD_LIMIT as int),
            best == nearest_class_point(cv.subrange(0, i as int), *p),
            best matches Some(b) ==> best_d == dist_sq(b.coords, *p),
        decreases cps@.len() - i,
    {
        let c: ClassPoint = *cps[i];
        proof {
            assert(cv.subrange(0, i + 1).drop_last() == cv.subrange(0, i as int));
            assert(cv.subrange(0, i + 1).last() == c);
        }
        let d = c.coords.distance_squared(p);
        if d < CLASS_POINT_DIST_SQ && (best.is_none() || d < best_d) {
            best = Some(c);
            best_d = d;
        }
        i = i + 1;
    }
    assert(cv.subrange(0, cps@.len() as int) == cv);
    match best {
        Some(c) => c.class,
        None => MapTileClass::EMPTY,
    }
}

/// Class of the tile at `p`, drawing candidate shapes and class samples
/// from the leaves that overlap the class window around `p`.
pub open spec fn tile_class_spec(
    shapes: BboxTree<Shape>,
    class_points: BboxTree<ClassPoint>,
    lakes: Seq<Seq<Point>>,
    p: Point,
) -> MapTileClass {
    let window = search_box_spec(p, CLASS_SEARCH as int);
    class_of(
        lakes,
        shape_views(leaf_items(shapes.overlapping_leaves(window))),
        leaf_items(class_points.overlapping_leaves(window)),
        p,
    )
}

/// Every shape the index holds has coordinates fit for exact geometry.
pub open spec fn shapes_within(t: BboxTree<Shape>) -> bool {
    forall|v: ShapeView| #[trigger] t.holds(v) ==> shape_within(v)
}

/// Every class sample the index holds has coordinates fit for exact
/// geometry.
pub open spec fn class_points_within(t: BboxTree<ClassPoint>) -> bool {
    forall|v: ClassPoint| #[trigger] t.holds(v) ==> v.coords.within(COORD_LIMIT as int)
}

/// Every lake has coordinates fit for exact geometry.
pub open spec fn lakes_within(lakes: Seq<Polygon>) -> bool {
    forall|i: int| 0 <= i < lakes.len() ==> all_within((#[trigger] lakes[i])@, COORD_LIMIT as int)
}

pub fn tile_class(
    shapes: &BboxTree<Shape>,
    class_points: &BboxTree<ClassPoint>,
    lakes: &Vec<Polygon>,
    p: &Point,
) -> (r: MapTileClass)
    requires
        p.within(COORD_LIMIT as int),
        lakes_within(lakes@),
        shapes_within(*shapes),
        class_points_within(*class_points),
    ensures
        r == tile_class_spec(*shapes, *class_points, polygon_views(lakes@), *p),
{
    let window = search_box(p, CLASS_SEARCH);
    let shape_leaves = shapes.find_boxes_overlapping(&window);
    let found_shapes = gather_items(&shape_leaves);
    let point_leaves = class_points.find_boxes_overlapping(&window);
    let found_points = gather_items(&point_leaves);
    proof {
        lemma_overlapping_items_held(*shapes, window);
        lemma_overlapping_items_held(*class_points, window);
        assert forall|i: int| 0 <= i < found_shapes@.len() implies shape_within((#[trigger] found_shapes@[i])@) by {
            assert(derefs(found_shapes@)[i] == *found_shapes@[i]);
            assert(shapes.holds(leaf_items(shapes.overlapping_leaves(window))[i]@));
        }
        assert forall|i: int| 0 <= i < found_points@.len() implies (#[trigger] found_points@[i]).coords.within(COORD_LIMIT as int) by {
            assert(derefs(found_points@)[i] == *found_points@[i]);
            assert(class_points.holds(leaf_items(class_points.overlapping_leaves(window))[i]@));
        }
    }
    classify(lakes, &found_shapes, &found_points, p)
}

/// The height of every tile, row by row.
pub fn build_height_map(t: &BboxTree<HeightPoint>) -> (r: Vec<Vec<i64>>)
    ensures
        r@.len() == MAP_SIZE,
        forall|y: int|
            0 <= y < MAP_SIZE ==> (#[trigger] r@[y])@.len() == MAP_SIZE && forall|x: int|
                0 <= x < MAP_SIZE ==> (#[trigger] r@[y]@[x]) == tile_height_spec(
                    *t,
                    tile_point_spec(x, y),
                ),
{
    let mut rows: Vec<Vec<i64>> = Vec::new();
    let mut y: usize = 0;
    while y < MAP_SIZE
        invariant
            y <= MAP_SIZE,
            rows@.len() == y,
            forall|yy: int|
                0 <= yy < y ==> (#[trigger] rows@[yy])@.len() == MAP_SIZE && forall|x: int|
                    0 <= x < MAP_SIZE ==> (#[trigger] rows@[yy]@[x]) == tile_height_spec(
                        *t,
                        tile_point_spec(x, yy),
                    ),
        decreases MAP_SIZE - y,
    {
        let mut row: Vec<i64> = Vec::new();
        let mut x: usize = 0;
        while x < MAP_SIZE
            invariant
                x <= MAP_SIZE,
                y < MAP_SIZE,
                row@.len() == x,
                forall|xx: int|
                    0 <= xx < x ==> (#[trigger] row@[xx]) == tile_height_spec(
                        *t,
                        tile_point_spec(xx, y as int),
                    ),
            decreases MAP_SIZE - x,
        {
            let p = tile_point(x, y);
            row.push(tile_height(t, &p));
            x = x + 1;
        }
        rows.push(row);
        y = y + 1;
    }
    rows
}

/// The class of every tile, row by row.
pub fn build_class_map(
    shapes: &BboxTree<Shape>,
    class_points: &BboxTree<ClassPoint>,
    lakes: &Vec<Polygon>,
) -> (r: Vec<Vec<MapTileClass>>)
    requires
        lakes_within(lakes@),
        shapes_within(*shapes),
        class_points_within(*class_points),
    ensures
        r@.len() == MAP_SIZE,
        forall|y: int|
            0 <= y < MAP_SIZE ==> (#[trigger] r@[y])@.len() == MAP_SIZE && forall|x: int|
                0 <= x < MAP_SIZE ==> (#[trigger] r@[y]@[x]) == tile_class_spec(
                    *shapes,
                    *class_points,
                    polygon_views(lakes@),
                    tile_point_spec(x, y),
                ),
{
    let mut rows: Vec<Vec<MapTileClass>> = Vec::new();
    let mut y: usize = 0;
    while y < MAP_SIZE
        invariant
            y <= MAP_SIZE,
            rows@.len() == y,
            lakes_within(lakes@),
            shapes_within(*shapes),
            class_points_within(*class_points),
            forall|yy: int|
                0 <= yy < y ==> (#[trigger] rows@[yy])@.len() == MAP_SIZE && forall|x: int|
                    0 <= x < MAP_SIZE ==> (#[trigger] rows@[yy]@[x]) == tile_class_spec(
                        *shapes,
                        *class_points,
                        polygon_views(lakes@),
                        tile_point_spec(x, yy),
                    ),
        decreases MAP_SIZE - y,
    {
        let mut row: Vec<MapTileClass> = Vec::new();
        let mut x: usize = 0;
        while x < MAP_SIZE
            invariant
                x <= MAP_SIZE,
                y < MAP_SIZE,
                row@.len() == x,
                lakes_within(lakes@),
                shapes_within(*shapes),
                class_points_within(*class_points),
                forall|xx: int|
                    0 <= xx < x ==> (#[trigger] row@[xx]) == tile_class_spec(
                        *shapes,
                        *class_points,
                        polygon_views(lakes@),
                        tile_point_spec(xx, y as int),
                    ),
            decreases MAP_SIZE - x,
        {
            let p = tile_point(x, y);
            row.push(tile_class(shapes, class_points, lakes, &p));
            x = x + 1;
        }
        rows.push(row);
        y = y + 1;
    }
    rows
}

/// One cell of the grid: its height and its class.
#[derive(Debug, Clone, Copy, PartialEq, Eq, Structural)]
pub struct MapTile {
    pub height: i64,
    pub class: MapTileClass,
}

/// The filled tile grid, with the building polygons kept for consumers that
/// need their geometry.
pub struct TileMap {
    pub tiles: Vec<Vec<MapTile>>,
    pub buildings: Vec<Polygon>,
}

/// An empty leaf over the root region.
pub open spec fn empty_root_model<V>() -> TreeModel<V> {
    TreeModel::Leaf { bbox: root_bbox_spec(), items: Seq::empty() }
}

/// `t` is the height index built from `pts`: its shape is that of inserting
/// every sample in order into an empty leaf over the root region. So it
/// covers the root region, respects the split bound, holds nothing but
/// samples of `pts`, and, when every sample lies in the root region, is well
/// formed and holds them all.
pub open spec fn indexes_heights(t: BboxTree<HeightPoint>, pts: Seq<HeightPoint>) -> bool {
    &&& t.model() == insert_all_model::<HeightPoint>(empty_root_model(), item_views(pts))
    &&& t.bbox_of() == root_bbox_spec()
    &&& t.split_bound(0)
    &&& forall|v: HeightPoint| #[trigger] t.holds(v) ==> pts.contains(v)
    &&& (forall|i: int| 0 <= i < pts.len() ==> root_bbox_spec().contains_spec((#[trigger] pts[i]).coords))
        ==> t.wf() && forall|i: int| 0 <= i < pts.len() ==> t.holds(#[trigger] pts[i])
}

/// The model of road `s`.
pub open spec fn road_view(s: LineSegment) -> ShapeView {
    ShapeView::LineSegment(s, MapTileClass::ROAD)
}

/// The model of building `vs`.
pub open spec fn building_view(vs: Seq<Point>) -> ShapeView {
    ShapeView::Polygon(vs, MapTileClass::BUILDING)
}

/// The shapes that the roads and buildings become, roads first.
pub open spec fn road_and_building_views(
    roads: Seq<LineSegment>,
    buildings: Seq<Seq<Point>>,
) -> Seq<ShapeView> {
    roads.map_values(|s: LineSegment| road_view(s)) + buildings.map_values(|vs: Seq<Point>| building_view(vs))
}

/// `t` is the shape index built from `roads` and `buildings`, roads first,
/// in the sense of `indexes_heights`.
pub open spec fn indexes_shapes(
    t: BboxTree<Shape>,
    roads: Seq<LineSegment>,
    buildings: Seq<Seq<Point>>,
) -> bool {
    let all = road_and_building_views(roads, buildings);
    &&& t.model() == insert_all_model::<Shape>(empty_root_model(), all)
    &&& t.bbox_of() == root_bbox_spec()
    &&& t.split_bound(0)
    &&& forall|v: ShapeView| #[trigger] t.holds(v) ==> all.contains(v)
    &&& (forall|i: int| 0 <= i < all.len() ==> Shape::fits_view(#[trigger] all[i], root_bbox_spec()))
        ==> t.wf() && forall|i: int| 0 <= i < all.len() ==> t.holds(#[trigger] all[i])
}

/// Builds the height index: every sample inserted at the root.
pub fn build_height_index(pts: &Vec<HeightPoint>) -> (r: BboxTree<HeightPoint>)
    ensures
        indexes_heights(r, pts@),
{
    let t = BboxTree::new(root_bbox());
    let r = t.add_items(pts);
    proof {
        assert forall|v: HeightPoint| #[trigger] r.holds(v) implies pts@.contains(v) by {
            let i = choose|i: int| 0 <= i < pts@.len() && (#[trigger] pts@[i])@ == v;
        }
    }
    r
}

/// Builds the shape index: each road as a road segment, then each building
/// as a building polygon, inserted at the root.
pub fn build_shape_index(roads: &Vec<LineSegment>, buildings: &Vec<Polygon>) -> (r: BboxTree<Shape>)
    ensures
        indexes_shapes(r, roads@, polygon_views(buildings@)),
{
    let ghost all = road_and_building_views(roads@, polygon_views(buildings@));
    let mut shapes: Vec<Shape> = Vec::new();
    let mut i: usize = 0;
    while i < roads.len()
        invariant
            i <= roads@.len(),
            shapes@.len() == i,
            forall|k: int| 0 <= k < i ==> (#[trigger] shapes@[k])@ == road_view(roads@[k]),
        decreases roads@.len() - i,
    {
        shapes.push(Shape::LineSegment(roads[i], MapTileClass::ROAD));
        i = i + 1;
    }
    let mut i: usize = 0;
    while i < buildings.len()
        invariant
            i <= buildings@.len(),
            shapes@.len() == roads@.len() + i,
            forall|k: int| 0 <= k < roads@.len() ==> (#[trigger] shapes@[k])@ == road_view(roads@[k]),
            forall|k: int| 0 <= k < i ==> (#[trigger] shapes@[roads@.len() + k])@ == building_view(buildings@[k]@),
        decreases buildings@.len() - i,
    {
        shapes.push(Shape::Polygon(buildings[i].duplicate(), MapTileClass::BUILDING));
        i = i + 1;
    }
    proof {
        assert forall|k: int| 0 <= k < shapes@.len() implies (#[trigger] shapes@[k])@ == all[k] by {
            if k >= roads@.len() {
                assert(shapes@[roads@.len() + (k - roads@.len())] == shapes@[k]);
            }
        }
    }
    let t = BboxTree::new(root_bbox());
    let r = t.add_items(&shapes);
    proof {
        assert(item_views(shapes@) =~= all);
        assert(all.len() == shapes@.len());
        assert forall|v: ShapeView| #[trigger] r.holds(v) implies all.contains(v) by {
            let k = choose|k: int| 0 <= k < shapes@.len() && (#[trigger] shapes@[k])@ == v;
            assert(all[k] == v);
        }
        if forall|i: int| 0 <= i < all.len() ==> Shape::fits_view(#[trigger] all[i], root_bbox_spec()) {
            assert forall|k: int| 0 <= k < shapes@.len() implies Shape::fits_view((#[trigger] shapes@[k])@, t.bbox_of()) by {
                assert(all[k] == shapes@[k]@);
            }
            assert forall|k: int| 0 <= k < all.len() implies r.holds(#[trigger] all[k]) by {
                assert(all[k] == shapes@[k]@);
            }
        }
    }
    r
}

/// The name of a class, as the grid's consumers spell it.
pub open spec fn class_label(c: MapTileClass) -> Seq<char> {
    match c {
        MapTileClass::WATER => "WATER"@,
        MapTileClass::BUILDING => "BUILDING"@,
        MapTileClass::ROAD => "ROAD"@,
        MapTileClass::EMPTY => "EMPTY"@,
    }
}

pub fn class_name(c: MapTileClass) -> (r: String)
    ensures
        r@ == class_label(c),
{
    match c {
        MapTileClass::BUILDING => "BUILDING".to_owned(),
        MapTileClass::WATER => "WATER".to_owned(),
        MapTileClass::ROAD => "ROAD".to_owned(),
        MapTileClass::EMPTY => "EMPTY".to_owned(),
    }
}

/// Every road, lake and building has coordinates fit for exact geometry.
pub open spec fn inputs_within(
    roads: Seq<LineSegment>,
    lakes: Seq<Polygon>,
    buildings: Seq<Polygon>,
) -> bool {
    &&& forall|i: int| 0 <= i < roads.len() ==> (#[trigger] roads[i]).within(COORD_LIMIT as int)
    &&& lakes_within(lakes)
    &&& lakes_within(buildings)
}

/// The tile that the grid holds at `(x, y)` when built from these indices.
pub open spec fn expected_tile(
    heights: BboxTree<HeightPoint>,
    shapes: BboxTree<Shape>,
    class_points: BboxTree<ClassPoint>,
    lakes: Seq<Seq<Point>>,
    x: int,
    y: int,
) -> MapTile {
    MapTile {
        height: tile_height_spec(heights, tile_point_spec(x, y)) as i64,
        class: tile_class_spec(shapes, class_points, lakes, tile_point_spec(x, y)),
    }
}

impl TileMap {
    /// Fills the grid: indexes the height samples and the road and building
    /// shapes, then computes the height and class of every tile. The class
    /// sample index starts, and stays, empty.
    pub fn new(
        height_points: Vec<HeightPoint>,
        roads: Vec<LineSegment>,
        lakes: Vec<Polygon>,
        buildings: Vec<Polygon>,
    ) -> (r: TileMap)
        requires
            inputs_within(roads@, lakes@, buildings@),
        ensures
            polygon_views(r.buildings@) == polygon_views(buildings@),
            r.tiles@.len() == MAP_SIZE,
            forall|y: int| 0 <= y < MAP_SIZE ==> (#[trigger] r.tiles@[y])@.len() == MAP_SIZE,
            exists|ht: BboxTree<HeightPoint>, st: BboxTree<Shape>, ct: BboxTree<ClassPoint>|
                {
                    &&& indexes_heights(ht, height_points@)
                    &&& indexes_shapes(st, roads@, polygon_views(buildings@))
                    &&& ct is Leaf && ct->items@.len() == 0 && ct.bbox_of() == root_bbox_spec()
                    &&& forall|y: int, x: int|
                        0 <= y < MAP_SIZE && 0 <= x < MAP_SIZE ==> (#[trigger] r.tiles@[y]@[x])
                            == expected_tile(ht, st, ct, polygon_views(lakes@), x, y)
                },
    {
        let ht = build_height_index(&height_points);
        let ct: BboxTree<ClassPoint> = BboxTree::new(root_bbox());
        let st = build_shape_index(&roads, &buildings);
        proof {
            let all = road_and_building_views(roads@, polygon_views(buildings@));
            assert forall|v: ShapeView| #[trigger] st.holds(v) implies shape_within(v) by {
                let k = choose|k: int| 0 <= k < all.len() && all[k] == v;
                if k < roads@.len() {
                    assert(all[k] == road_view(roads@[k]));
                } else {
                    let b = k - roads@.len();
                    assert(all[k] == building_view(buildings@[b]@));
                }
            }
        }
        let heights = build_height_map(&ht);
        let classes = build_class_map(&st, &ct, &lakes);
        let mut tiles: Vec<Vec<MapTile>> = Vec::new();
        let mut y: usize = 0;
        while y < MAP_SIZE
            invariant
                y <= MAP_SIZE,
                tiles@.len() == y,
                heights@.len() == MAP_SIZE,
                classes@.len() == MAP_SIZE,
                forall|yy: int| 0 <= yy < MAP_SIZE ==> (#[trigger] heights@[yy])@.len() == MAP_SIZE,
                forall|yy: int| 0 <= yy < MAP_SIZE ==> (#[trigger] classes@[yy])@.len() == MAP_SIZE,
                forall|yy: int|
                    0 <= yy < y ==> (#[trigger] tiles@[yy])@.len() == MAP_SIZE && forall|x: int|
                        0 <= x < MAP_SIZE ==> (#[trigger] tiles@[yy]@[x]) == (MapTile {
                            height: heights@[yy]@[x],
                            class: classes@[yy]@[x],
                        }),
            decreases MAP_SIZE - y,
        {
            let mut row: Vec<MapTile> = Vec::new();
            let mut x: usize = 0;
            while x < MAP_SIZE
                invariant
                    x <= MAP_SIZE,
                    y < MAP_SIZE,
                    row@.len() == x,
                    heights@.len() == MAP_SIZE,
                    classes@.len() == MAP_SIZE,
                    heights@[y as int]@.len() == MAP_SIZE,
                    classes@[y as int]@.len() == MAP_SIZE,
                    forall|xx: int|
                        0 <= xx < x ==> (#[trigger] row@[xx]) == (MapTile {
                            height: heights@[y as int]@[xx],
                            class: classes@[y as int]@[xx],
                        }),
                decreases MAP_SIZE - x,
            {
                row.push(MapTile { class: classes[y][x], height: heights[y][x] });
                x = x + 1;
            }
            tiles.push(row);
            y = y + 1;
        }
        proof {
            assert forall|yy: int, x: int|
                0 <= yy < MAP_SIZE && 0 <= x < MAP_SIZE implies (#[trigger] tiles@[yy]@[x])
                    == expected_tile(ht, st, ct, polygon_views(lakes@), x, yy) by {
                assert(heights@[yy]@[x] == tile_height_spec(ht, tile_point_spec(x, yy)));
                assert(classes@[yy]@[x] == tile_class_spec(st, ct, polygon_views(lakes@), tile_point_spec(x, yy)));
            }
        }
        TileMap { tiles, buildings }
    }

    /// The class name of every tile, row by row.
    pub fn class_map(&self) -> (r: Vec<Vec<String>>)
        ensures
            r@.len() == self.tiles@.len(),
            forall|y: int|
                0 <= y < r@.len() ==> (#[trigger] r@[y])@.len() == self.tiles@[y]@.len()
                    && forall|x: int|
                    0 <= x < r@[y]@.len() ==> (#[trigger] r@[y]@[x])@ == class_label(
                        self.tiles@[y]@[x].class,
                    ),
    {
        let mut rows: Vec<Vec<String>> = Vec::new();
        let mut y: usize = 0;
        while y < self.tiles.len()
            invariant
                y <= self.tiles@.len(),
                rows@.len() == y,
                forall|yy: int|
                    0 <= yy < y ==> (#[trigger] rows@[yy])@.len() == self.tiles@[yy]@.len()
                        && forall|x: int|
                        0 <= x < rows@[yy]@.len() ==> (#[trigger] rows@[yy]@[x])@ == class_label(
                            self.tiles@[yy]@[x].class,
                        ),
            decreases self.tiles@.len() - y,
        {
            let tiles_row = &self.tiles[y];
            let mut row: Vec<String> = Vec::new();
            let mut x: usize = 0;
            while x < tiles_row.len()
                invariant
                    x <= tiles_row@.len(),
                    *tiles_row == self.tiles@[y as int],
                    row@.len() == x,
                    forall|xx: int|
                        0 <= xx < x ==> (#[trigger] row@[xx])@ == class_label(tiles_row@[xx].class),
                decreases tiles_row@.len() - x,
            {
                row.push(class_name(tiles_row[x].class));
                x = x + 1;
            }
            rows.push(row);
            y = y + 1;
        }
        rows
    }
}

/// Building classification does not depend on how the shape index is
/// laid out: when every shape belongs in the root region and the tile lies
/// in it, some candidate drawn from the index is a building containing the
/// tile exactly when some building of the input contains it. The order in
/// which buildings were inserted therefore cannot change it.
pub proof fn lemma_building_candidates_exact(
    st: BboxTree<Shape>,
    roads: Seq<LineSegment>,
    buildings: Seq<Seq<Point>>,
    p: Point,
)
    requires
        indexes_shapes(st, roads, buildings),
        forall|i: int|
            0 <= i < road_and_building_views(roads, buildings).len() ==> Shape::fits_view(
                #[trigger] road_and_building_views(roads, buildings)[i],
                root_bbox_spec(),
            ),
        root_bbox_spec().contains_spec(p),
        p.within(COORD_LIMIT as int),
    ensures
        in_building(
            shape_views(leaf_items(st.overlapping_leaves(search_box_spec(p, CLASS_SEARCH as int)))),
            p,
        ) <==> exists|i: int| 0 <= i < buildings.len() && polygon_contains(#[trigger] buildings[i], p),
{
    let all = road_and_building_views(roads, buildings);
    let window = search_box_spec(p, CLASS_SEARCH as int);
    let items = leaf_items(st.overlapping_leaves(window));
    let cands = shape_views(items);
    if in_building(cands, p) {
        let i = choose|i: int|
            0 <= i < cands.len() && match #[trigger] cands[i] {
                ShapeView::Polygon(vs, MapTileClass::BUILDING) => polygon_contains(vs, p),
                _ => false,
            };
        lemma_overlapping_items_held(st, window);
        assert(st.holds(items[i]@));
        assert(all.contains(cands[i]));
        let k = choose|k: int| 0 <= k < all.len() && all[k] == cands[i];
        if k < roads.len() {
            assert(all[k] == road_view(roads[k]));
        } else {
            let b = k - roads.len();
            assert(all[k] == building_view(buildings[b]));
            assert(polygon_contains(buildings[b], p));
        }
    }
    if exists|i: int| 0 <= i < buildings.len() && polygon_contains(#[trigger] buildings[i], p) {
        let b = choose|b: int| 0 <= b < buildings.len() && polygon_contains(#[trigger] buildings[b], p);
        let v = building_view(buildings[b]);
        assert(all[roads.len() + b] == v);
        lemma_box_for_found(st, p);
        lemma_box_for_contains(st, p);
        let leaf = st.box_for(p)->0;
        let k = choose|k: int| 0 <= k < st.leaves().len() && st.leaves()[k] == leaf;
        assert(Shape::fits_view(v, leaf.bbox_of()));
        lemma_index_complete(st, root_bbox_spec(), all);
        assert(Shape::fits_view(all[roads.len() + b], st.leaves()[k].bbox_of()));
        assert(leaf.holds(v));
        let j = choose|j: int| 0 <= j < leaf->items@.len() && (#[trigger] leaf->items@[j])@ == v;
        lemma_overlapping_leaves_exact(st, window);
        let pred = |l: BboxTree<Shape>| l.bbox_of().overlaps_spec(window);
        assert(pred(st.leaves()[k]));
        st.leaves().lemma_filter_contains(pred, k);
        let ol = st.overlapping_leaves(window);
        let kk = choose|kk: int| 0 <= kk < ol.len() && ol[kk] == leaf;
        lemma_leaf_items_contains(ol, kk, j);
        let m = choose|m: int| 0 <= m < items.len() && items[m] == leaf->items@[j];
        assert(cands[m] == v);
    }
}

/// The order of the lakes never matters: any reordering of them gives the
/// same class, tile by tile.
pub proof fn lemma_lake_order_irrelevant(
    lakes: Seq<Seq<Point>>,
    other: Seq<Seq<Point>>,
    shapes: Seq<ShapeView>,
    cps: Seq<ClassPoint>,
    p: Point,
)
    requires
        other.to_multiset() == lakes.to_multiset(),
    ensures
        class_of(other, shapes, cps, p) == class_of(lakes, shapes, cps, p),
{
    lakes.to_multiset_ensures();
    other.to_multiset_ensures();
    if in_lake(lakes, p) {
        let i = choose|i: int| 0 <= i < lakes.len() && polygon_contains(#[trigger] lakes[i], p);
        assert(lakes.to_multiset().count(lakes[i]) > 0);
        assert(other.contains(lakes[i]));
    }
    if in_lake(other, p) {
        let i = choose|i: int| 0 <= i < other.len() && polygon_contains(#[trigger] other[i], p);
        assert(other.to_multiset().count(other[i]) > 0);
        assert(lakes.contains(other[i]));
    }
}

/// Road classification does not depend on how the shape index is laid out:
/// when every shape belongs in the root region and the tile's class window
/// lies in it, some candidate drawn from the index is a road close to the
/// tile exactly when some road of the input is.
pub proof fn lemma_road_candidates_exact(
    st: BboxTree<Shape>,
    roads: Seq<LineSegment>,
    buildings: Seq<Seq<Point>>,
    p: Point,
)
    requires
        indexes_shapes(st, roads, buildings),
        forall|i: int|
            0 <= i < road_and_building_views(roads, buildings).len() ==> Shape::fits_view(
                #[trigger] road_and_building_views(roads, buildings)[i],
                root_bbox_spec(),
            ),
        forall|i: int| 0 <= i < roads.len() ==> (#[trigger] roads[i]).within(COORD_LIMIT as int),
        search_box_spec(p, CLASS_SEARCH as int).inside(root_bbox_spec()),
        p.within(COORD_LIMIT as int),
    ensures
        near_road(
            shape_views(leaf_items(st.overlapping_leaves(search_box_spec(p, CLASS_SEARCH as int)))),
            p,
        ) <==> exists|i: int| 0 <= i < roads.len() && seg_dist_sq(#[trigger] roads[i], p) < ROAD_DIST_SQ,
{
    let all = road_and_building_views(roads, buildings);
    let window = search_box_spec(p, CLASS_SEARCH as int);
    let items = leaf_items(st.overlapping_leaves(window));
    let cands = shape_views(items);
    if near_road(cands, p) {
        let i = choose|i: int|
            0 <= i < cands.len() && match #[trigger] cands[i] {
                ShapeView::LineSegment(s, MapTileClass::ROAD) => seg_dist_sq(s, p) < ROAD_DIST_SQ,
                _ => false,
            };
        lemma_overlapping_items_held(st, window);
        assert(st.holds(items[i]@));
        assert(all.contains(cands[i]));
        let k = choose|k: int| 0 <= k < all.len() && all[k] == cands[i];
        if k < roads.len() {
            assert(all[k] == road_view(roads[k]));
            assert(seg_dist_sq(roads[k], p) < ROAD_DIST_SQ);
        } else {
            let b = k - roads.len();
            assert(all[k] == building_view(buildings[b]));
        }
    }
    if exists|i: int| 0 <= i < roads.len() && seg_dist_sq(#[trigger] roads[i], p) < ROAD_DIST_SQ {
        let r = choose|r: int| 0 <= r < roads.len() && seg_dist_sq(#[trigger] roads[r], p) < ROAD_DIST_SQ;
        let road = roads[r];
        let v = road_view(road);
        assert(all[r] == v);
        lemma_near_segment_box(road, p, CLASS_SEARCH as int);
        let rb = road.bbox_spec();
        let z = Point {
            x: if window.a.x >= rb.a.x { window.a.x } else { rb.a.x },
            y: if window.a.y >= rb.a.y { window.a.y } else { rb.a.y },
        };
        assert(window.contains_spec(z));
        assert(rb.contains_spec(z));
        assert(root_bbox_spec().contains_spec(z));
        lemma_box_for_found(st, z);
        lemma_box_for_contains(st, z);
        let leaf = st.box_for(z)->0;
        let k = choose|k: int| 0 <= k < st.leaves().len() && st.leaves()[k] == leaf;
        assert(Shape::fits_view(v, leaf.bbox_of()));
        lemma_index_complete(st, root_bbox_spec(), all);
        assert(Shape::fits_view(all[r], st.leaves()[k].bbox_of()));
        assert(leaf.holds(v));
        let j = choose|j: int| 0 <= j < leaf->items@.len() && (#[trigger] leaf->items@[j])@ == v;
        lemma_overlapping_leaves_exact(st, window);
        let pred = |l: BboxTree<Shape>| l.bbox_of().overlaps_spec(window);
        assert(pred(st.leaves()[k]));
        st.leaves().lemma_filter_contains(pred, k);
        let ol = st.overlapping_leaves(window);
        let kk = choose|kk: int| 0 <= kk < ol.len() && ol[kk] == leaf;
        lemma_leaf_items_contains(ol, kk, j);
        let m = choose|m: int| 0 <= m < items.len() && items[m] == leaf->items@[j];
        assert(cands[m] == v);
    }
}

/// Every shape of `roads` and `buildings` belongs in the root region and
/// every road has coordinates fit for exact geometry.
pub open spec fn shapes_in_root(roads: Seq<LineSegment>, buildings: Seq<Seq<Point>>) -> bool {
    &&& forall|i: int|
        0 <= i < road_and_building_views(roads, buildings).len() ==> Shape::fits_view(
            #[trigger] road_and_building_views(roads, buildings)[i],
            root_bbox_spec(),
        )
    &&& forall|i: int| 0 <= i < roads.len() ==> (#[trigger] roads[i]).within(COORD_LIMIT as int)
}

/// Class precedence does not depend on input order: for a tile whose class
/// window lies in the root region, indices built from the same roads and
/// from reorderings of the same buildings, with reorderings of the same
/// lakes, give the tile the same class.
pub proof fn lemma_class_order_irrelevant(
    st1: BboxTree<Shape>,
    st2: BboxTree<Shape>,
    class_points: BboxTree<ClassPoint>,
    roads: Seq<LineSegment>,
    buildings1: Seq<Seq<Point>>,
    buildings2: Seq<Seq<Point>>,
    lakes1: Seq<Seq<Point>>,
    lakes2: Seq<Seq<Point>>,
    p: Point,
)
    requires
        indexes_shapes(st1, roads, buildings1),
        indexes_shapes(st2, roads, buildings2),
        buildings1.to_multiset() == buildings2.to_multiset(),
        lakes1.to_multiset() == lakes2.to_multiset(),
        shapes_in_root(roads, buildings1),
        shapes_in_root(roads, buildings2),
        search_box_spec(p, CLASS_SEARCH as int).inside(root_bbox_spec()),
        p.within(COORD_LIMIT as int),
    ensures
        tile_class_spec(st1, class_points, lakes1, p) == tile_class_spec(
            st2,
            class_points,
            lakes2,
            p,
        ),
{
    let window = search_box_spec(p, CLASS_SEARCH as int);
    let s1 = shape_views(leaf_items(st1.overlapping_leaves(window)));
    let s2 = shape_views(leaf_items(st2.overlapping_leaves(window)));
    let cps = leaf_items(class_points.overlapping_leaves(window));
    assert(window.a.x <= p.x <= window.b.x && window.a.y <= p.y <= window.b.y);
    assert(root_bbox_spec().contains_spec(p));
    lemma_building_candidates_exact(st1, roads, buildings1, p);
    lemma_building_candidates_exact(st2, roads, buildings2, p);
    lemma_road_candidates_exact(st1, roads, buildings1, p);
    lemma_road_candidates_exact(st2, roads, buildings2, p);
    buildings1.to_multiset_ensures();
    buildings2.to_multiset_ensures();
    if exists|i: int| 0 <= i < buildings1.len() && polygon_contains(#[trigger] buildings1[i], p) {
        let i = choose|i: int| 0 <= i < buildings1.len() && polygon_contains(#[trigger] buildings1[i], p);
        assert(buildings1.to_multiset().count(buildings1[i]) > 0);
        assert(buildings2.contains(buildings1[i]));
    }
    if exists|i: int| 0 <= i < buildings2.len() && polygon_contains(#[trigger] buildings2[i], p) {
        let i = choose|i: int| 0 <= i < buildings2.len() && polygon_contains(#[trigger] buildings2[i], p);
        assert(buildings2.to_multiset().count(buildings2[i]) > 0);
        assert(buildings1.contains(buildings2[i]));
    }
    lemma_lake_order_irrelevant(lakes1, lakes2, s1, cps, p);
    assert(in_building(s1, p) == in_building(s2, p));
    assert(near_road(s1, p) == near_road(s2, p));
}

/// The class window of every tile lies in the root region, so the order
/// lemmas above apply to the whole grid.
pub proof fn lemma_tile_window_in_root(x: int, y: int)
    requires
        0 <= x < MAP_SIZE,
        0 <= y < MAP_SIZE,
    ensures
        search_box_spec(tile_point_spec(x, y), CLASS_SEARCH as int).inside(root_bbox_spec()),
        tile_point_spec(x, y).within(COORD_LIMIT as int),
{
    let dx = MAP_SPAN * x / MAP_SIZE as int;
    let dy = MAP_SPAN * y / MAP_SIZE as int;
    assert(0 <= dx <= MAP_SPAN) by (nonlinear_arith)
        requires
            dx == MAP_SPAN * x / 512,
            0 <= x < 512,
    ;
    assert(0 <= dy <= MAP_SPAN) by (nonlinear_arith)
        requires
            dy == MAP_SPAN * y / 512,
            0 <= y < 512,
    ;
}

} // verus!
