use vstd::prelude::*;

use crate::point::Point;

verus! {

/// Axis-aligned rectangle with minimum corner `a` and maximum corner `b`.
/// Both edges are part of the rectangle.
#[derive(Debug, Clone, Copy, PartialEq, Eq, Structural)]
pub struct Bbox {
    pub a: Point,
    pub b: Point,
}

/// Half of `w`, rounded toward zero.
pub open spec fn half_toward_zero(w: int) -> int {
    if w >= 0 {
        w / 2
    } else {
        -((-w) / 2)
    }
}

fn half(w: i128) -> (r: i128)
    requires
        -0x1_0000_0000_0000_0000 <= w <= 0x1_0000_0000_0000_0000,
    ensures
        r == half_toward_zero(w as int),
{
    if w >= 0 {
        w / 2
    } else {
        -((-w) / 2)
    }
}

impl Bbox {
    /// The corners are ordered: `a` is the minimum, `b` the maximum.
    pub open spec fn well_formed(self) -> bool {
        self.a.x <= self.b.x && self.a.y <= self.b.y
    }

    pub open spec fn contains_spec(self, p: Point) -> bool {
        self.a.x <= p.x && p.x <= self.b.x && self.a.y <= p.y && p.y <= self.b.y
    }

    pub open spec fn overlaps_spec(self, o: Bbox) -> bool {
        !(self.b.x < o.a.x || self.a.x > o.b.x || self.b.y < o.a.y || self.a.y > o.b.y)
    }

    /// Every point of `self` lies in `outer`.
    pub open spec fn inside(self, outer: Bbox) -> bool {
        outer.a.x <= self.a.x && self.b.x <= outer.b.x && outer.a.y <= self.a.y && self.b.y
            <= outer.b.y
    }

    /// The horizontal coordinate that splits the box in two halves.
    pub open spec fn mid_x(self) -> int {
        self.a.x + half_toward_zero(self.b.x - self.a.x)
    }

    pub open spec fn mid_y(self) -> int {
        self.a.y + half_toward_zero(self.b.y - self.a.y)
    }

    /// The four quadrants: lower-left, lower-right, upper-left, upper-right.
    pub open spec fn quarters(self) -> (Bbox, Bbox, Bbox, Bbox) {
        let mx = self.mid_x() as i64;
        let my = self.mid_y() as i64;
        (
            Bbox { a: Point { x: self.a.x, y: self.a.y }, b: Point { x: mx, y: my } },
            Bbox { a: Point { x: mx, y: self.a.y }, b: Point { x: self.b.x, y: my } },
            Bbox { a: Point { x: self.a.x, y: my }, b: Point { x: mx, y: self.b.y } },
            Bbox { a: Point { x: mx, y: my }, b: Point { x: self.b.x, y: self.b.y } },
        )
    }

    /// The quadrants of a well-formed box are well formed and lie inside it.
    pub proof fn lemma_quarters_inside(self)
        requires
            self.well_formed(),
        ensures
            self.quarters().0.well_formed() && self.quarters().0.inside(self),
            self.quarters().1.well_formed() && self.quarters().1.inside(self),
            self.quarters().2.well_formed() && self.quarters().2.inside(self),
            self.quarters().3.well_formed() && self.quarters().3.inside(self),
    {
    }

    /// The quadrants of a well-formed box cover it.
    pub proof fn lemma_point_in_some_quarter(self, p: Point)
        requires
            self.well_formed(),
            self.contains_spec(p),
        ensures
            self.quarters().0.contains_spec(p) || self.quarters().1.contains_spec(p)
                || self.quarters().2.contains_spec(p) || self.quarters().3.contains_spec(p),
    {
    }

    /// A well-formed box that overlaps a well-formed box overlaps one of its
    /// quadrants.
    pub proof fn lemma_overlap_some_quarter(self, o: Bbox)
        requires
            self.well_formed(),
            o.well_formed(),
            self.overlaps_spec(o),
        ensures
            self.quarters().0.overlaps_spec(o) || self.quarters().1.overlaps_spec(o)
                || self.quarters().2.overlaps_spec(o) || self.quarters().3.overlaps_spec(o),
    {
    }

    pub fn contains(&self, point: &Point) -> (r: bool)
        ensures
            r == self.contains_spec(*point),
    {
        self.a.x <= point.x && point.x <= self.b.x && self.a.y <= point.y && point.y <= self.b.y
    }

    pub fn overlaps(&self, other: &Bbox) -> (r: bool)
        ensures
            r == self.overlaps_spec(*other),
    {
        !(self.b.x < other.a.x || self.a.x > other.b.x || self.b.y < other.a.y || self.a.y
            > other.b.y)
    }

    /// Splits the box into four quadrants that share their inner edges.
    pub fn split(&self) -> (r: (Bbox, Bbox, Bbox, Bbox))
        ensures
            r == self.quarters(),
    {
        let half_width = half((self.b.x as i128) - (self.a.x as i128));
        let half_height = half((self.b.y as i128) - (self.a.y as i128));
        let mx = ((self.a.x as i128) + half_width) as i64;
        let my = ((self.a.y as i128) + half_height) as i64;
        (
            Bbox { a: Point { x: self.a.x, y: self.a.y }, b: Point { x: mx, y: my } },
            Bbox { a: Point { x: mx, y: self.a.y }, b: Point { x: self.b.x, y: my } },
            Bbox { a: Point { x: self.a.x, y: my }, b: Point { x: mx, y: self.b.y } },
            Bbox { a: Point { x: mx, y: my }, b: Point { x: self.b.x, y: self.b.y } },
        )
    }
}

/// An item that a region quadtree can index: it says whether it belongs in a
/// given rectangle.
pub trait HasCoords: View + Sized {
    /// Whether an item with model `v` belongs in `bbox`.
    spec fn fits_view(v: Self::V, bbox: Bbox) -> bool;

    fn fits_into(&self, bbox: &Bbox) -> (r: bool)
        ensures
            r == Self::fits_view(self@, *bbox),
    ;

    /// A copy of the item, with the same model.
    fn duplicate(&self) -> (r: Self)
        ensures
            r@ == self@,
    ;

    /// An item that belongs in a box belongs in at least one of its quadrants.
    proof fn lemma_fits_some_quarter(v: Self::V, bbox: Bbox)
        requires
            bbox.well_formed(),
            Self::fits_view(v, bbox),
        ensures
            Self::fits_view(v, bbox.quarters().0) || Self::fits_view(v, bbox.quarters().1)
                || Self::fits_view(v, bbox.quarters().2) || Self::fits_view(v, bbox.quarters().3),
    ;

    /// An item that belongs in a box belongs in every box around it.
    proof fn lemma_fits_monotone(v: Self::V, inner: Bbox, outer: Bbox)
        requires
            inner.inside(outer),
            Self::fits_view(v, inner),
        ensures
            Self::fits_view(v, outer),
    ;
}

/// Largest number of items a leaf above the depth cap holds: a leaf that
/// reaches it is split.
pub const SPLIT_THRESHOLD: usize = 10;

/// Depth at which leaves stop splitting and grow without bound.
pub const MAX_DEPTH: usize = 40;

/// A region quadtree node. Each child of an interior node covers one quadrant
/// of its parent's box.
#[derive(Debug)]
pub enum BboxTree<T> {
    Interior {
        bbox: Bbox,
        children: (Box<BboxTree<T>>, Box<BboxTree<T>>, Box<BboxTree<T>>, Box<BboxTree<T>>),
    },
    Leaf { bbox: Bbox, items: Vec<T> },
}

/// The part of the insertion measure that falls with depth.
pub open spec fn depth_measure(depth: int) -> int {
    if depth < MAX_DEPTH {
        MAX_DEPTH - depth
    } else {
        0
    }
}

/// The shape of a tree with each item replaced by its model.
pub ghost enum TreeModel<V> {
    Interior {
        bbox: Bbox,
        children: (Box<TreeModel<V>>, Box<TreeModel<V>>, Box<TreeModel<V>>, Box<TreeModel<V>>),
    },
    Leaf { bbox: Bbox, items: Seq<V> },
}

impl<V> TreeModel<V> {
    pub open spec fn bbox_of(self) -> Bbox {
        match self {
            TreeModel::Interior { bbox, .. } => bbox,
            TreeModel::Leaf { bbox, .. } => bbox,
        }
    }

    pub open spec fn size(self) -> nat
        decreases self,
    {
        match self {
            TreeModel::Interior { children, .. } => 1 + (*children.0).size() + (*children.1).size()
                + (*children.2).size() + (*children.3).size(),
            TreeModel::Leaf { .. } => 1,
        }
    }
}

/// The depth handed to the children of a node at `depth`.
pub open spec fn next_depth(depth: int) -> int {
    if depth < MAX_DEPTH {
        depth + 1
    } else {
        depth
    }
}

/// Offers `v` to the node `m` at `depth`: inserted if it belongs in the
/// node's box, and left out otherwise.
pub open spec fn offer_model<T: HasCoords>(m: TreeModel<T::V>, v: T::V, depth: int) -> TreeModel<
    T::V,
>
    decreases depth_measure(depth), 0nat, m.size(), 1nat,
{
    if T::fits_view(v, m.bbox_of()) {
        insert_model::<T>(m, v, depth)
    } else {
        m
    }
}

/// Insertion of `v` at `depth`. An interior node offers `v` to each child;
/// a leaf appends it, and a leaf above the depth cap that reaches the
/// threshold becomes an interior node whose children are empty leaves over
/// the quadrants, each offered all the leaf's items in order.
pub open spec fn insert_model<T: HasCoords>(m: TreeModel<T::V>, v: T::V, depth: int) -> TreeModel<
    T::V,
>
    decreases depth_measure(depth), 0nat, m.size(), 0nat,
{
    let next = next_depth(depth);
    match m {
        TreeModel::Interior { bbox, children } => TreeModel::Interior {
            bbox,
            children: (
                Box::new(offer_model::<T>(*children.0, v, next)),
                Box::new(offer_model::<T>(*children.1, v, next)),
                Box::new(offer_model::<T>(*children.2, v, next)),
                Box::new(offer_model::<T>(*children.3, v, next)),
            ),
        },
        TreeModel::Leaf { bbox, items } => {
            let all = items.push(v);
            if all.len() >= SPLIT_THRESHOLD && depth < MAX_DEPTH {
                let q = bbox.quarters();
                TreeModel::Interior {
                    bbox,
                    children: (
                        Box::new(
                            offer_all_model::<T>(
                                TreeModel::Leaf { bbox: q.0, items: Seq::empty() },
                                all,
                                next,
                            ),
                        ),
                        Box::new(
                            offer_all_model::<T>(
                                TreeModel::Leaf { bbox: q.1, items: Seq::empty() },
                                all,
                                next,
                            ),
                        ),
                        Box::new(
                            offer_all_model::<T>(
                                TreeModel::Leaf { bbox: q.2, items: Seq::empty() },
                                all,
                                next,
                            ),
                        ),
                        Box::new(
                            offer_all_model::<T>(
                                TreeModel::Leaf { bbox: q.3, items: Seq::empty() },
                                all,
                                next,
                            ),
                        ),
                    ),
                }
            } else {
                TreeModel::Leaf { bbox, items: all }
            }
        },
    }
}

/// Offers each of `vs`, in order, to the node `m` at `depth`.
pub open spec fn offer_all_model<T: HasCoords>(
    m: TreeModel<T::V>,
    vs: Seq<T::V>,
    depth: int,
) -> TreeModel<T::V>
    decreases depth_measure(depth), vs.len() + 1, 0nat, 0nat,
{
    if vs.len() == 0 {
        m
    } else {
        offer_model::<T>(offer_all_model::<T>(m, vs.drop_last(), depth), vs.last(), depth)
    }
}

/// An empty leaf over `bbox` offered each of `vs`, in order, at `depth`.
pub open spec fn fill_model<T: HasCoords>(bbox: Bbox, vs: Seq<T::V>, depth: int) -> TreeModel<T::V> {
    offer_all_model::<T>(TreeModel::Leaf { bbox, items: Seq::empty() }, vs, depth)
}

/// Insertion of each of `vs`, in order, at the root.
pub open spec fn insert_all_model<T: HasCoords>(m: TreeModel<T::V>, vs: Seq<T::V>) -> TreeModel<T::V>
    decreases vs.len(),
{
    if vs.len() == 0 {
        m
    } else {
        insert_model::<T>(insert_all_model::<T>(m, vs.drop_last()), vs.last(), 0)
    }
}

/// The models of `items`.
pub open spec fn item_views<T: View>(items: Seq<T>) -> Seq<T::V> {
    items.map_values(|x: T| x@)
}

impl<T: HasCoords> BboxTree<T> {
    pub open spec fn bbox_of(self) -> Bbox {
        match self {
            BboxTree::Interior { bbox, .. } => bbox,
            BboxTree::Leaf { bbox, .. } => bbox,
        }
    }

    /// The tree with each item replaced by its model.
    pub open spec fn model(self) -> TreeModel<T::V>
        decreases self,
    {
        match self {
            BboxTree::Interior { bbox, children } => TreeModel::Interior {
                bbox,
                children: (
                    Box::new((*children.0).model()),
                    Box::new((*children.1).model()),
                    Box::new((*children.2).model()),
                    Box::new((*children.3).model()),
                ),
            },
            BboxTree::Leaf { bbox, items } => TreeModel::Leaf { bbox, items: item_views(items@) },
        }
    }

    pub open spec fn is_leaf(self) -> bool {
        self is Leaf
    }

    /// Number of items over all leaves, counting an item once for each leaf
    /// that holds it.
    pub open spec fn count(self) -> nat
        decreases self,
    {
        match self {
            BboxTree::Interior { children, .. } => (*children.0).count() + (*children.1).count()
                + (*children.2).count() + (*children.3).count(),
            BboxTree::Leaf { items, .. } => items@.len(),
        }
    }

    /// Some leaf holds an item whose model is `v`.
    pub open spec fn holds(self, v: T::V) -> bool
        decreases self,
    {
        match self {
            BboxTree::Interior { children, .. } => (*children.0).holds(v) || (*children.1).holds(v)
                || (*children.2).holds(v) || (*children.3).holds(v),
            BboxTree::Leaf { items, .. } => exists|i: int|
                0 <= i < items.len() && (#[trigger] items@[i])@ == v,
        }
    }

    /// Boxes are well formed, each child covers its quadrant, and every item
    /// belongs in the box of the leaf that holds it.
    pub open spec fn wf(self) -> bool
        decreases self,
    {
        match self {
            BboxTree::Interior { bbox, children } => {
                &&& bbox.well_formed()
                &&& (*children.0).bbox_of() == bbox.quarters().0
                &&& (*children.1).bbox_of() == bbox.quarters().1
                &&& (*children.2).bbox_of() == bbox.quarters().2
                &&& (*children.3).bbox_of() == bbox.quarters().3
                &&& (*children.0).wf()
                &&& (*children.1).wf()
                &&& (*children.2).wf()
                &&& (*children.3).wf()
            },
            BboxTree::Leaf { bbox, items } => {
                &&& bbox.well_formed()
                &&& forall|i: int| 0 <= i < items.len() ==> T::fits_view((#[trigger] items@[i])@, bbox)
            },
        }
    }

    /// Seen from a node at `depth`: leaves above the depth cap hold at most
    /// the threshold, and interior nodes stand above the cap.
    pub open spec fn split_bound(self, depth: int) -> bool
        decreases self,
    {
        match self {
            BboxTree::Interior { children, .. } => {
                &&& depth < MAX_DEPTH
                &&& (*children.0).split_bound(depth + 1)
                &&& (*children.1).split_bound(depth + 1)
                &&& (*children.2).split_bound(depth + 1)
                &&& (*children.3).split_bound(depth + 1)
            },
            BboxTree::Leaf { items, .. } => items.len() <= SPLIT_THRESHOLD || depth == MAX_DEPTH,
        }
    }

    pub fn bbox(&self) -> (r: &Bbox)
        ensures
            *r == self.bbox_of(),
    {
        match self {
            BboxTree::Interior { bbox, .. } => bbox,
            BboxTree::Leaf { bbox, .. } => bbox,
        }
    }

    /// Inserts `item` into the subtree at `depth`. An interior node offers it
    /// to each child whose box it fits; a leaf appends it, and a leaf above
    /// the depth cap that reaches the threshold becomes an interior node over
    /// its quadrants, with all its items offered to the new children.
    pub fn add_item(self, item: &T, depth: usize) -> (r: BboxTree<T>)
        ensures
            r.model() == insert_model::<T>(self.model(), item@, depth as int),
            r.bbox_of() == self.bbox_of(),
            forall|v: T::V| #[trigger] r.holds(v) ==> self.holds(v) || v == item@,
            self.split_bound(depth as int) && depth <= MAX_DEPTH ==> r.split_bound(depth as int),
            self.wf() && T::fits_view(item@, self.bbox_of()) ==> {
                &&& r.wf()
                &&& r.holds(item@)
                &&& r.count() >= self.count() + 1
                &&& forall|v: T::V| #[trigger] self.holds(v) ==> r.holds(v)
            },
        decreases depth_measure(depth as int), self, 1int,
    {
        let next = if depth < MAX_DEPTH {
            depth + 1
        } else {
            depth
        };
        match self {
            BboxTree::Interior { bbox, children } => {
                let c0 = add_item_if_fits(*children.0, item, next);
                let c1 = add_item_if_fits(*children.1, item, next);
                let c2 = add_item_if_fits(*children.2, item, next);
                let c3 = add_item_if_fits(*children.3, item, next);
                let r = BboxTree::Interior {
                    bbox,
                    children: (Box::new(c0), Box::new(c1), Box::new(c2), Box::new(c3)),
                };
                proof {
                    assert(next == next_depth(depth as int));
                    assert(r.model() == insert_model::<T>(self.model(), item@, depth as int));
                    assert forall|v: T::V| #[trigger] r.holds(v) implies self.holds(v) || v == item@ by {
                        assert(r.holds(v) == (c0.holds(v) || c1.holds(v) || c2.holds(v) || c3.holds(v)));
                    }
                    if self.wf() && T::fits_view(item@, self.bbox_of()) {
                        T::lemma_fits_some_quarter(item@, bbox);
                        assert forall|v: T::V| #[trigger] self.holds(v) implies r.holds(v) by {
                            assert(children.0.holds(v) || children.1.holds(v) || children.2.holds(v)
                                || children.3.holds(v));
                        }
                    }
                }
                r
            },
            BboxTree::Leaf { bbox, items: held } => {
                let ghost old_items = held@;
                let ghost good = self.wf() && T::fits_view(item@, bbox);
                proof {
                    assert forall|v: T::V|
                        self.holds(v) <==> exists|j: int|
                            0 <= j < old_items.len() && (#[trigger] old_items[j])@ == v by {
                        if self.holds(v) {
                            let j = choose|j: int| 0 <= j < held@.len() && (#[trigger] held@[j])@ == v;
                            assert(old_items[j]@ == v);
                        }
                    }
                    if good {
                        assert(forall|j: int|
                            0 <= j < old_items.len() ==> T::fits_view((#[trigger] old_items[j])@, bbox));
                    }
                }
                let mut items = held;
                items.push(item.duplicate());
                if items.len() >= SPLIT_THRESHOLD && depth < MAX_DEPTH {
                    let q = bbox.split();
                    let ghost quarters = bbox.quarters();
                    let mut c0: BboxTree<T> = BboxTree::Leaf { bbox: q.0, items: Vec::new() };
                    let mut c1: BboxTree<T> = BboxTree::Leaf { bbox: q.1, items: Vec::new() };
                    let mut c2: BboxTree<T> = BboxTree::Leaf { bbox: q.2, items: Vec::new() };
                    let mut c3: BboxTree<T> = BboxTree::Leaf { bbox: q.3, items: Vec::new() };
                    proof {
                        assert(item_views(c0->items@) =~= Seq::<T::V>::empty());
                        assert(item_views(c1->items@) =~= Seq::<T::V>::empty());
                        assert(item_views(c2->items@) =~= Seq::<T::V>::empty());
                        assert(item_views(c3->items@) =~= Seq::<T::V>::empty());
                        assert(item_views(items@.subrange(0, 0)) =~= Seq::<T::V>::empty());
                    }
                    let mut i: usize = 0;
                    while i < items.len()
                        invariant
                            i <= items.len(),
                            quarters == bbox.quarters(),
                            q == quarters,
                            c0.model() == fill_model::<T>(q.0, item_views(items@.subrange(0, i as int)), next as int),
                            c1.model() == fill_model::<T>(q.1, item_views(items@.subrange(0, i as int)), next as int),
                            c2.model() == fill_model::<T>(q.2, item_views(items@.subrange(0, i as int)), next as int),
                            c3.model() == fill_model::<T>(q.3, item_views(items@.subrange(0, i as int)), next as int),
                            depth < MAX_DEPTH,
                            next == depth + 1,
                            items@.len() == old_items.len() + 1,
                            forall|j: int| 0 <= j < old_items.len() ==> items@[j] == old_items[j],
                            items@[old_items.len() as int]@ == item@,
                            c0.bbox_of() == q.0,
                            c1.bbox_of() == q.1,
                            c2.bbox_of() == q.2,
                            c3.bbox_of() == q.3,
                            c0.split_bound(next as int),
                            c1.split_bound(next as int),
                            c2.split_bound(next as int),
                            c3.split_bound(next as int),
                            forall|v: T::V| #[trigger] c0.holds(v) ==> exists|j: int|
                                0 <= j < i && (#[trigger] items@[j])@ == v,
                            forall|v: T::V| #[trigger] c1.holds(v) ==> exists|j: int|
                                0 <= j < i && (#[trigger] items@[j])@ == v,
                            forall|v: T::V| #[trigger] c2.holds(v) ==> exists|j: int|
                                0 <= j < i && (#[trigger] items@[j])@ == v,
                            forall|v: T::V| #[trigger] c3.holds(v) ==> exists|j: int|
                                0 <= j < i && (#[trigger] items@[j])@ == v,
                            good ==> {
                                &&& bbox.well_formed()
                                &&& c0.wf() && c1.wf() && c2.wf() && c3.wf()
                                &&& c0.count() + c1.count() + c2.count() + c3.count() >= i
                                &&& forall|j: int| 0 <= j < i ==> c0.holds((#[trigger] items@[j])@) || c1.holds(items@[j]@)
                                    || c2.holds(items@[j]@) || c3.holds(items@[j]@)
                                &&& forall|j: int| 0 <= j < items.len() ==> T::fits_view((#[trigger] items@[j])@, bbox)
                            },
                        decreases items.len() - i,
                    {
                        let it = &items[i];
                        proof {
                            if good {
                                assert(*it == items@[i as int]);
                                assert(T::fits_view(it@, bbox));
                                T::lemma_fits_some_quarter(it@, bbox);
                                assert(T::fits_view(it@, c0.bbox_of()) || T::fits_view(it@, c1.bbox_of())
                                    || T::fits_view(it@, c2.bbox_of()) || T::fits_view(it@, c3.bbox_of()));
                            }
                        }
                        let ghost (o0, o1, o2, o3) = (c0, c1, c2, c3);
                        proof {
                            let pre = item_views(items@.subrange(0, i as int));
                            let post = item_views(items@.subrange(0, i + 1));
                            assert(post.drop_last() =~= pre);
                            assert(post.last() == it@);
                        }
                        c0 = add_item_if_fits(c0, it, next);
                        c1 = add_item_if_fits(c1, it, next);
                        c2 = add_item_if_fits(c2, it, next);
                        c3 = add_item_if_fits(c3, it, next);
                        proof {
                            if good {
                                assert(c0.count() + c1.count() + c2.count() + c3.count() >= i + 1);
                                assert forall|j: int| 0 <= j < i + 1 implies c0.holds((#[trigger] items@[j])@) || c1.holds(items@[j]@)
                                    || c2.holds(items@[j]@) || c3.holds(items@[j]@) by {
                                    if j < i {
                                        assert(o0.holds(items@[j]@) || o1.holds(items@[j]@)
                                            || o2.holds(items@[j]@) || o3.holds(items@[j]@));
                                    }
                                }
                            }
                        }
                        i = i + 1;
                    }
                    let r = BboxTree::Interior {
                        bbox,
                        children: (Box::new(c0), Box::new(c1), Box::new(c2), Box::new(c3)),
                    };
                    proof {
                        assert(items@.subrange(0, items@.len() as int) == items@);
                        assert(item_views(items@) =~= item_views(old_items).push(item@));
                        assert(next == next_depth(depth as int));
                        assert(r.model() == insert_model::<T>(self.model(), item@, depth as int));
                        assert forall|v: T::V| #[trigger] r.holds(v) implies self.holds(v) || v == item@ by {
                            assert(c0.holds(v) || c1.holds(v) || c2.holds(v) || c3.holds(v));
                            let j = choose|j: int| 0 <= j < items.len() && (#[trigger] items@[j])@ == v;
                            if j < old_items.len() {
                                assert(old_items[j]@ == v);
                            }
                        }
                        if good {
                            assert(r.wf());
                            assert(r.count() >= self.count() + 1);
                            assert(r.holds(items@[old_items.len() as int]@));
                            assert forall|v: T::V| #[trigger] self.holds(v) implies r.holds(v) by {
                                let j = choose|j: int| 0 <= j < old_items.len() && (#[trigger] old_items[j])@ == v;
                                assert(items@[j] == old_items[j]);
                                assert(c0.holds(items@[j]@) || c1.holds(items@[j]@)
                                    || c2.holds(items@[j]@) || c3.holds(items@[j]@));
                            }
                        }
                    }
                    r
                } else {
                    let ghost new_items = items@;
                    let r = BboxTree::Leaf { bbox, items };
                    proof {
                        assert(item_views(new_items) =~= item_views(old_items).push(item@));
                        assert(r.model() == insert_model::<T>(self.model(), item@, depth as int));
                        assert(r->items@ == new_items);
                        assert(r.holds(item@));
                        assert forall|v: T::V| #[trigger] self.holds(v) implies r.holds(v) by {
                            let i = choose|i: int| 0 <= i < old_items.len() && (#[trigger] old_items[i])@ == v;
                            assert(new_items[i] == old_items[i]);
                            assert(new_items[i]@ == v);
                        }
                        if good {
                            assert forall|j: int| 0 <= j < new_items.len() implies T::fits_view((#[trigger] new_items[j])@, bbox) by {
                                if j < old_items.len() {
                                    assert(new_items[j] == old_items[j]);
                                }
                            }
                            assert(r.wf());
                            assert(r.count() >= self.count() + 1);
                        }
                        assert forall|v: T::V| #[trigger] r.holds(v) implies self.holds(v) || v == item@ by {
                            let i = choose|i: int| 0 <= i < new_items.len() && (#[trigger] new_items[i])@ == v;
                            if i < old_items.len() {
                                assert(new_items[i] == old_items[i]);
                            }
                        }
                    }
                    r
                }
            },
        }
    }
}

impl<T: HasCoords> BboxTree<T> {
    /// The leaves that a pruned descent reaches: a node whose box misses
    /// `q` contributes nothing, and the children's results are concatenated
    /// in order.
    pub open spec fn overlapping_leaves(self, q: Bbox) -> Seq<BboxTree<T>>
        decreases self,
    {
        if !self.bbox_of().overlaps_spec(q) {
            Seq::empty()
        } else {
            match self {
                BboxTree::Interior { children, .. } => (*children.0).overlapping_leaves(q) + (
                *children.1).overlapping_leaves(q) + (*children.2).overlapping_leaves(q) + (
                *children.3).overlapping_leaves(q),
                BboxTree::Leaf { .. } => seq![self],
            }
        }
    }

    /// All leaves, left to right.
    pub open spec fn leaves(self) -> Seq<BboxTree<T>>
        decreases self,
    {
        match self {
            BboxTree::Interior { children, .. } => (*children.0).leaves() + (*children.1).leaves()
                + (*children.2).leaves() + (*children.3).leaves(),
            BboxTree::Leaf { .. } => seq![self],
        }
    }

    /// The first leaf, in child order, whose box contains `p`, looking only
    /// below nodes whose box contains `p`.
    pub open spec fn box_for(self, p: Point) -> Option<BboxTree<T>>
        decreases self,
    {
        if !self.bbox_of().contains_spec(p) {
            None
        } else {
            match self {
                BboxTree::Interior { children, .. } => {
                    let r0 = (*children.0).box_for(p);
                    let r1 = (*children.1).box_for(p);
                    let r2 = (*children.2).box_for(p);
                    let r3 = (*children.3).box_for(p);
                    if r0 is Some {
                        r0
                    } else if r1 is Some {
                        r1
                    } else if r2 is Some {
                        r2
                    } else {
                        r3
                    }
                },
                BboxTree::Leaf { .. } => Some(self),
            }
        }
    }

    /// Every leaf whose box overlaps `other`, in left-to-right order.
    pub fn find_boxes_overlapping(&self, other: &Bbox) -> (r: Vec<&BboxTree<T>>)
        ensures
            derefs(r@) == self.overlapping_leaves(*other),
        decreases self,
    {
        match self {
            BboxTree::Interior { bbox, children } => {
                if bbox.overlaps(other) {
                    let mut v = Vec::new();
                    let mut v0 = (*children.0).find_boxes_overlapping(other);
                    let mut v1 = (*children.1).find_boxes_overlapping(other);
                    let mut v2 = (*children.2).find_boxes_overlapping(other);
                    let mut v3 = (*children.3).find_boxes_overlapping(other);
                    v.append(&mut v0);
                    v.append(&mut v1);
                    v.append(&mut v2);
                    v.append(&mut v3);
                    proof {
                        assert(derefs(v@) =~= self.overlapping_leaves(*other));
                    }
                    return v;
                }
                Vec::new()
            },
            BboxTree::Leaf { bbox, .. } => {
                if bbox.overlaps(other) {
                    let v = vec![self];
                    proof {
                        assert(derefs(v@) =~= self.overlapping_leaves(*other));
                    }
                    return v;
                }
                Vec::new()
            },
        }
    }

    /// The first leaf whose box contains `point`, if any.
    pub fn find_box_for(&self, point: &Point) -> (r: Option<&BboxTree<T>>)
        ensures
            match r {
                Some(l) => self.box_for(*point) == Some(*l),
                None => self.box_for(*point) is None,
            },
        decreases self,
    {
        match self {
            BboxTree::Interior { bbox, children } => {
                if bbox.contains(point) {
                    let r0 = (*children.0).find_box_for(point);
                    if r0.is_some() {
                        return r0;
                    }
                    let r1 = (*children.1).find_box_for(point);
                    if r1.is_some() {
                        return r1;
                    }
                    let r2 = (*children.2).find_box_for(point);
                    if r2.is_some() {
                        return r2;
                    }
                    return (*children.3).find_box_for(point);
                }
                None
            },
            BboxTree::Leaf { bbox, .. } => {
                if bbox.contains(point) {
                    return Some(self);
                }
                None
            },
        }
    }

    /// Number of items over all leaves.
    pub fn count_points(&self) -> (r: usize)
        requires
            self.count() <= usize::MAX,
        ensures
            r == self.count(),
        decreases self,
    {
        match self {
            BboxTree::Interior { children, .. } => {
                (*children.0).count_points() + (*children.1).count_points()
                    + (*children.2).count_points() + (*children.3).count_points()
            },
            BboxTree::Leaf { items, .. } => items.len(),
        }
    }
}

impl<T: HasCoords> BboxTree<T> {
    /// An empty leaf over `bbox`: the starting point of every tree.
    pub fn new(bbox: Bbox) -> (r: BboxTree<T>)
        ensures
            r == (BboxTree::<T>::Leaf { bbox, items: r->items }),
            r->items@.len() == 0,
            r.model() == (TreeModel::<T::V>::Leaf { bbox, items: Seq::empty() }),
            r.count() == 0,
            r.split_bound(0),
            bbox.well_formed() ==> r.wf(),
            forall|v: T::V| !#[trigger] r.holds(v),
    {
        let r = BboxTree::Leaf { bbox, items: Vec::new() };
        assert(item_views(r->items@) =~= Seq::<T::V>::empty());
        r
    }

    /// Inserts every item of `items`, in order, at the root.
    ///
    /// Nothing is lost: when the tree is well formed and every item belongs
    /// in its box, each item is held afterwards, the items held before still
    /// are, and the count grows by at least the number of items. An item on a
    /// quadrant boundary may be held by more than one leaf, so the count can
    /// grow by more.
    pub fn add_items(self, items: &Vec<T>) -> (r: BboxTree<T>)
        ensures
            r.model() == insert_all_model::<T>(self.model(), item_views(items@)),
            r.bbox_of() == self.bbox_of(),
            self.split_bound(0) ==> r.split_bound(0),
            forall|v: T::V| #[trigger] r.holds(v) ==> self.holds(v) || exists|i: int|
                0 <= i < items@.len() && (#[trigger] items@[i])@ == v,
            self.wf() && (forall|i: int|
                0 <= i < items@.len() ==> T::fits_view((#[trigger] items@[i])@, self.bbox_of()))
                ==> {
                &&& r.wf()
                &&& r.count() >= self.count() + items@.len()
                &&& forall|i: int| 0 <= i < items@.len() ==> r.holds((#[trigger] items@[i])@)
                &&& forall|v: T::V| #[trigger] self.holds(v) ==> r.holds(v)
            },
    {
        let ghost good = self.wf() && (forall|i: int|
            0 <= i < items@.len() ==> T::fits_view((#[trigger] items@[i])@, self.bbox_of()));
        let ghost start = self;
        let mut t = self;
        let mut i: usize = 0;
        assert(item_views(items@.subrange(0, 0)) =~= Seq::<T::V>::empty());
        while i < items.len()
            invariant
                i <= items@.len(),
                t.model() == insert_all_model::<T>(start.model(), item_views(items@.subrange(0, i as int))),
                t.bbox_of() == start.bbox_of(),
                start.split_bound(0) ==> t.split_bound(0),
                forall|v: T::V| #[trigger] t.holds(v) ==> start.holds(v) || exists|k: int|
                    0 <= k < i && (#[trigger] items@[k])@ == v,
                good ==> {
                    &&& t.wf()
                    &&& t.count() >= start.count() + i
                    &&& forall|k: int| 0 <= k < i ==> t.holds((#[trigger] items@[k])@)
                    &&& forall|v: T::V| #[trigger] start.holds(v) ==> t.holds(v)
                    &&& forall|k: int|
                        0 <= k < items@.len() ==> T::fits_view((#[trigger] items@[k])@, start.bbox_of())
                },
            decreases items@.len() - i,
        {
            let ghost before = t;
            t = t.add_item(&items[i], 0);
            proof {
                let pre = item_views(items@.subrange(0, i as int));
                let post = item_views(items@.subrange(0, i + 1));
                assert(post.drop_last() =~= pre);
                assert(post.last() == items@[i as int]@);
                assert forall|v: T::V| #[trigger] t.holds(v) implies start.holds(v) || exists|k: int|
                    0 <= k < i + 1 && (#[trigger] items@[k])@ == v by {
                    if !before.holds(v) {
                        assert(items@[i as int]@ == v);
                    }
                }
                if good {
                    assert forall|k: int| 0 <= k < i + 1 implies t.holds((#[trigger] items@[k])@) by {
                        if k < i {
                            assert(before.holds(items@[k]@));
                        }
                    }
                }
            }
            i = i + 1;
        }
        assert(items@.subrange(0, items@.len() as int) == items@);
        t
    }
}

/// The values behind a sequence of references.
pub open spec fn derefs<A>(s: Seq<&A>) -> Seq<A> {
    s.map_values(|x: &A| *x)
}

/// The items of `leaves`, leaf after leaf; interior nodes contribute none.
pub open spec fn leaf_items<T>(leaves: Seq<BboxTree<T>>) -> Seq<T>
    decreases leaves.len(),
{
    if leaves.len() == 0 {
        Seq::empty()
    } else {
        leaf_items(leaves.drop_last()) + match leaves.last() {
            BboxTree::Leaf { items, .. } => items@,
            BboxTree::Interior { .. } => Seq::empty(),
        }
    }
}

proof fn lemma_leaf_items_append<T>(a: Seq<BboxTree<T>>, b: Seq<BboxTree<T>>)
    ensures
        leaf_items(a + b) == leaf_items(a) + leaf_items(b),
    decreases b.len(),
{
    if b.len() == 0 {
        assert(a + b == a);
        assert(leaf_items(b) == Seq::<T>::empty());
        assert(leaf_items(a) + leaf_items(b) == leaf_items(a));
    } else {
        lemma_leaf_items_append(a, b.drop_last());
        assert((a + b).drop_last() == a + b.drop_last());
        assert((a + b).last() == b.last());
    }
}

/// Every item of a leaf that a range query returns is held by the tree.
pub proof fn lemma_overlapping_items_held<T: HasCoords>(t: BboxTree<T>, q: Bbox)
    ensures
        forall|k: int|
            0 <= k < leaf_items(t.overlapping_leaves(q)).len() ==> t.holds(
                (#[trigger] leaf_items(t.overlapping_leaves(q))[k])@,
            ),
    decreases t,
{
    let s = leaf_items(t.overlapping_leaves(q));
    if !t.bbox_of().overlaps_spec(q) {
        assert(s.len() == 0);
    } else {
        match t {
            BboxTree::Interior { children, .. } => {
                lemma_overlapping_items_held(*children.0, q);
                lemma_overlapping_items_held(*children.1, q);
                lemma_overlapping_items_held(*children.2, q);
                lemma_overlapping_items_held(*children.3, q);
                let l0 = (*children.0).overlapping_leaves(q);
                let l1 = (*children.1).overlapping_leaves(q);
                let l2 = (*children.2).overlapping_leaves(q);
                let l3 = (*children.3).overlapping_leaves(q);
                lemma_leaf_items_append(l0 + l1 + l2, l3);
                lemma_leaf_items_append(l0 + l1, l2);
                lemma_leaf_items_append(l0, l1);
                let (i0, i1, i2, i3) = (leaf_items(l0), leaf_items(l1), leaf_items(l2), leaf_items(l3));
                assert(s == i0 + i1 + i2 + i3);
                assert forall|k: int| 0 <= k < s.len() implies t.holds((#[trigger] s[k])@) by {
                    if k < i0.len() {
                        assert(s[k] == i0[k]);
                    } else if k < i0.len() + i1.len() {
                        assert(s[k] == i1[k - i0.len()]);
                    } else if k < i0.len() + i1.len() + i2.len() {
                        assert(s[k] == i2[k - i0.len() - i1.len()]);
                    } else {
                        assert(s[k] == i3[k - i0.len() - i1.len() - i2.len()]);
                    }
                }
            },
            BboxTree::Leaf { items, .. } => {
                assert(t.overlapping_leaves(q) == seq![t]);
                assert(seq![t].drop_last() == Seq::<BboxTree<T>>::empty());
                assert(seq![t].last() == t);
                assert(leaf_items(seq![t].drop_last()) == Seq::<T>::empty());
                assert(s =~= items@);
                assert forall|k: int| 0 <= k < s.len() implies t.holds((#[trigger] s[k])@) by {
                    assert(items@[k] == s[k]);
                }
            },
        }
    }
}

/// The items of a leaf among `leaves` are among `leaf_items(leaves)`.
pub proof fn lemma_leaf_items_contains<T>(leaves: Seq<BboxTree<T>>, k: int, j: int)
    requires
        0 <= k < leaves.len(),
        leaves[k] is Leaf,
        0 <= j < leaves[k]->items@.len(),
    ensures
        leaf_items(leaves).contains(leaves[k]->items@[j]),
    decreases leaves.len(),
{
    let rest = leaves.drop_last();
    let tail = match leaves.last() {
        BboxTree::Leaf { items, .. } => items@,
        BboxTree::Interior { .. } => Seq::empty(),
    };
    assert(leaf_items(leaves) == leaf_items(rest) + tail);
    if k < leaves.len() - 1 {
        assert(rest[k] == leaves[k]);
        lemma_leaf_items_contains(rest, k, j);
        let m = choose|m: int| 0 <= m < leaf_items(rest).len() && leaf_items(rest)[m] == leaves[k]->items@[j];
        assert(leaf_items(leaves)[m] == leaves[k]->items@[j]);
    } else {
        assert(leaf_items(leaves)[leaf_items(rest).len() + j] == leaves[k]->items@[j]);
    }
}

/// The items of the leaves that `find_boxes_overlapping` returned, leaf
/// after leaf.
pub fn gather_items<'a, T: HasCoords>(leaves: &Vec<&'a BboxTree<T>>) -> (r: Vec<&'a T>)
    ensures
        derefs(r@) == leaf_items(derefs(leaves@)),
{
    let ghost ls = derefs(leaves@);
    let mut r: Vec<&T> = Vec::new();
    let mut i: usize = 0;
    while i < leaves.len()
        invariant
            i <= leaves@.len(),
            ls == derefs(leaves@),
            derefs(r@) == leaf_items(ls.subrange(0, i as int)),
        decreases leaves@.len() - i,
    {
        let leaf: &BboxTree<T> = leaves[i];
        proof {
            assert(ls.subrange(0, i + 1).drop_last() == ls.subrange(0, i as int));
            assert(ls.subrange(0, i + 1).last() == *leaf);
        }
        match leaf {
            BboxTree::Leaf { items, .. } => {
                let ghost before = derefs(r@);
                let mut k: usize = 0;
                while k < items.len()
                    invariant
                        k <= items@.len(),
                        derefs(r@) == before + items@.subrange(0, k as int),
                    decreases items@.len() - k,
                {
                    let ghost old_r = r@;
                    r.push(&items[k]);
                    proof {
                        assert(r@ == old_r.push(&items@[k as int]));
                        assert(derefs(old_r) == before + items@.subrange(0, k as int));
                        assert(derefs(old_r).len() == old_r.len());
                        assert(old_r.len() == before.len() + k);
                        assert forall|m: int| 0 <= m < r@.len() implies (#[trigger] derefs(r@)[m]) == (
                        before + items@.subrange(0, k + 1))[m] by {
                            if m == old_r.len() {
                                assert(derefs(r@)[m] == items@[k as int]);
                                assert(items@.subrange(0, k + 1)[k as int] == items@[k as int]);
                                assert((before + items@.subrange(0, k + 1))[m] == items@[k as int]);
                            } else {
                                assert(r@[m] == old_r[m]);
                                assert(derefs(old_r)[m] == (before + items@.subrange(0, k as int))[m]);
                            }
                        }
                        assert(derefs(r@) =~= before + items@.subrange(0, k + 1));
                    }
                    k = k + 1;
                }
                assert(items@.subrange(0, items@.len() as int) == items@);
            },
            BboxTree::Interior { .. } => {
                assert(derefs(r@) =~= leaf_items(ls.subrange(0, i as int)) + Seq::empty());
            },
        }
        i = i + 1;
    }
    assert(ls.subrange(0, leaves@.len() as int) == ls);
    r
}

/// Inserts `item` into `node` at `depth` if it fits the node's box, and hands
/// `node` back unchanged otherwise.
pub fn add_item_if_fits<T: HasCoords>(node: BboxTree<T>, item: &T, depth: usize) -> (r: BboxTree<T>)
    ensures
        r.model() == offer_model::<T>(node.model(), item@, depth as int),
        r.bbox_of() == node.bbox_of(),
        !T::fits_view(item@, node.bbox_of()) ==> r == node,
        forall|v: T::V| #[trigger] r.holds(v) ==> node.holds(v) || v == item@,
        node.split_bound(depth as int) && depth <= MAX_DEPTH ==> r.split_bound(depth as int),
        node.wf() ==> r.wf(),
        node.wf() && T::fits_view(item@, node.bbox_of()) ==> {
            &&& r.holds(item@)
            &&& r.count() >= node.count() + 1
        },
        node.wf() ==> r.count() >= node.count(),
        node.wf() ==> forall|v: T::V| #[trigger] node.holds(v) ==> r.holds(v),
    decreases depth_measure(depth as int), node, 2int,
{
    if item.fits_into(node.bbox()) {
        node.add_item(item, depth)
    } else {
        node
    }
}


impl<V> TreeModel<V> {
    /// Number of items over all leaves.
    pub open spec fn count(self) -> nat
        decreases self,
    {
        match self {
            TreeModel::Interior { children, .. } => (*children.0).count() + (*children.1).count()
                + (*children.2).count() + (*children.3).count(),
            TreeModel::Leaf { items, .. } => items.len(),
        }
    }
}

/// A tree counts as many items as its model.
pub proof fn lemma_count_model<T: HasCoords>(t: BboxTree<T>)
    ensures
        t.count() == t.model().count(),
    decreases t,
{
    if let BboxTree::Interior { children, .. } = t {
        lemma_count_model(*children.0);
        lemma_count_model(*children.1);
        lemma_count_model(*children.2);
        lemma_count_model(*children.3);
    }
}

/// The item `v`, inside `bbox` at `depth`, belongs in at most one quadrant,
/// and so on inside that quadrant down to the depth cap: it lies on none of
/// the split lines it meets on its way down.
pub open spec fn single_path<T: HasCoords>(v: T::V, bbox: Bbox, depth: int) -> bool
    decreases depth_measure(depth),
{
    if depth >= MAX_DEPTH {
        true
    } else {
        let q = bbox.quarters();
        let f0 = T::fits_view(v, q.0);
        let f1 = T::fits_view(v, q.1);
        let f2 = T::fits_view(v, q.2);
        let f3 = T::fits_view(v, q.3);
        &&& (f0 as int) + (f1 as int) + (f2 as int) + (f3 as int) <= 1
        &&& f0 ==> single_path::<T>(v, q.0, depth + 1)
        &&& f1 ==> single_path::<T>(v, q.1, depth + 1)
        &&& f2 ==> single_path::<T>(v, q.2, depth + 1)
        &&& f3 ==> single_path::<T>(v, q.3, depth + 1)
    }
}

/// The model at `depth` is well formed and each item lies on a single path
/// from its leaf down.
pub open spec fn single_wf<T: HasCoords>(m: TreeModel<T::V>, depth: int) -> bool
    decreases m,
{
    match m {
        TreeModel::Interior { bbox, children } => {
            &&& bbox.well_formed()
            &&& depth < MAX_DEPTH
            &&& (*children.0).bbox_of() == bbox.quarters().0
            &&& (*children.1).bbox_of() == bbox.quarters().1
            &&& (*children.2).bbox_of() == bbox.quarters().2
            &&& (*children.3).bbox_of() == bbox.quarters().3
            &&& single_wf::<T>(*children.0, depth + 1)
            &&& single_wf::<T>(*children.1, depth + 1)
            &&& single_wf::<T>(*children.2, depth + 1)
            &&& single_wf::<T>(*children.3, depth + 1)
        },
        TreeModel::Leaf { bbox, items } => {
            &&& bbox.well_formed()
            &&& forall|i: int|
                0 <= i < items.len() ==> T::fits_view(#[trigger] items[i], bbox)
                    && single_path::<T>(items[i], bbox, depth)
        },
    }
}

/// How many of `vs` belong in `bbox`.
pub open spec fn count_fitting<T: HasCoords>(vs: Seq<T::V>, bbox: Bbox) -> nat
    decreases vs.len(),
{
    if vs.len() == 0 {
        0
    } else {
        count_fitting::<T>(vs.drop_last(), bbox) + if T::fits_view(vs.last(), bbox) {
            1nat
        } else {
            0nat
        }
    }
}

proof fn lemma_count_fitting_split<T: HasCoords>(vs: Seq<T::V>, bbox: Bbox, depth: int)
    requires
        bbox.well_formed(),
        depth < MAX_DEPTH,
        forall|i: int|
            0 <= i < vs.len() ==> T::fits_view(#[trigger] vs[i], bbox) && single_path::<T>(
                vs[i],
                bbox,
                depth,
            ),
    ensures
        count_fitting::<T>(vs, bbox.quarters().0) + count_fitting::<T>(vs, bbox.quarters().1)
            + count_fitting::<T>(vs, bbox.quarters().2) + count_fitting::<T>(vs, bbox.quarters().3)
            == vs.len(),
    decreases vs.len(),
{
    if vs.len() > 0 {
        lemma_count_fitting_split::<T>(vs.drop_last(), bbox, depth);
        let v = vs.last();
        assert(T::fits_view(vs[vs.len() - 1], bbox));
        assert(single_path::<T>(vs[vs.len() - 1], bbox, depth));
        T::lemma_fits_some_quarter(v, bbox);
    }
}

/// Inserting an item that belongs in the node and lies on a single path adds
/// exactly one to the count and keeps every item on a single path.
proof fn lemma_insert_single<T: HasCoords>(m: TreeModel<T::V>, v: T::V, depth: int)
    requires
        single_wf::<T>(m, depth),
        T::fits_view(v, m.bbox_of()),
        single_path::<T>(v, m.bbox_of(), depth),
    ensures
        single_wf::<T>(insert_model::<T>(m, v, depth), depth),
        insert_model::<T>(m, v, depth).bbox_of() == m.bbox_of(),
        insert_model::<T>(m, v, depth).count() == m.count() + 1,
    decreases depth_measure(depth), 0nat, m.size(), 0nat,
{
    let next = next_depth(depth);
    match m {
        TreeModel::Interior { bbox, children } => {
            T::lemma_fits_some_quarter(v, bbox);
            let q = bbox.quarters();
            if T::fits_view(v, q.0) {
                lemma_insert_single::<T>(*children.0, v, next);
            }
            if T::fits_view(v, q.1) {
                lemma_insert_single::<T>(*children.1, v, next);
            }
            if T::fits_view(v, q.2) {
                lemma_insert_single::<T>(*children.2, v, next);
            }
            if T::fits_view(v, q.3) {
                lemma_insert_single::<T>(*children.3, v, next);
            }
        },
        TreeModel::Leaf { bbox, items } => {
            let all = items.push(v);
            assert forall|i: int| 0 <= i < all.len() implies T::fits_view(#[trigger] all[i], bbox)
                && single_path::<T>(all[i], bbox, depth) by {
                if i < items.len() {
                    assert(all[i] == items[i]);
                }
            }
            if all.len() >= SPLIT_THRESHOLD && depth < MAX_DEPTH {
                let q = bbox.quarters();
                bbox.lemma_quarters_inside();
                lemma_offer_all_single::<T>(TreeModel::Leaf { bbox: q.0, items: Seq::empty() }, all, next);
                lemma_offer_all_single::<T>(TreeModel::Leaf { bbox: q.1, items: Seq::empty() }, all, next);
                lemma_offer_all_single::<T>(TreeModel::Leaf { bbox: q.2, items: Seq::empty() }, all, next);
                lemma_offer_all_single::<T>(TreeModel::Leaf { bbox: q.3, items: Seq::empty() }, all, next);
                lemma_count_fitting_split::<T>(all, bbox, depth);
            }
        },
    }
}

/// Offering items one by one to a node adds one to its count for each item
/// that belongs in it.
proof fn lemma_offer_all_single<T: HasCoords>(m: TreeModel<T::V>, vs: Seq<T::V>, depth: int)
    requires
        single_wf::<T>(m, depth),
        forall|i: int|
            0 <= i < vs.len() && T::fits_view(#[trigger] vs[i], m.bbox_of()) ==> single_path::<T>(
                vs[i],
                m.bbox_of(),
                depth,
            ),
    ensures
        single_wf::<T>(offer_all_model::<T>(m, vs, depth), depth),
        offer_all_model::<T>(m, vs, depth).bbox_of() == m.bbox_of(),
        offer_all_model::<T>(m, vs, depth).count() == m.count() + count_fitting::<T>(vs, m.bbox_of()),
    decreases depth_measure(depth), vs.len() + 1, 0nat, 0nat,
{
    if vs.len() > 0 {
        let rest = vs.drop_last();
        assert forall|i: int|
            0 <= i < rest.len() && T::fits_view(#[trigger] rest[i], m.bbox_of()) implies single_path::<T>(
                rest[i],
                m.bbox_of(),
                depth,
            ) by {
            assert(rest[i] == vs[i]);
        }
        lemma_offer_all_single::<T>(m, rest, depth);
        let m1 = offer_all_model::<T>(m, rest, depth);
        let v = vs.last();
        assert(offer_all_model::<T>(m, vs, depth) == offer_model::<T>(m1, v, depth));
        assert(count_fitting::<T>(vs, m.bbox_of()) == count_fitting::<T>(rest, m.bbox_of()) + if T::fits_view(v, m.bbox_of()) {
            1nat
        } else {
            0nat
        });
        if T::fits_view(v, m1.bbox_of()) {
            assert(single_path::<T>(vs[vs.len() - 1], m.bbox_of(), depth));
            lemma_insert_single::<T>(m1, v, depth);
        }
    }
}

/// Inserting one more item that belongs in the tree's box and lies on a
/// single path adds exactly one to the count.
pub proof fn lemma_add_item_counts_once<T: HasCoords>(
    t: BboxTree<T>,
    r: BboxTree<T>,
    v: T::V,
    depth: int,
)
    requires
        single_wf::<T>(t.model(), depth),
        T::fits_view(v, t.bbox_of()),
        single_path::<T>(v, t.bbox_of(), depth),
        r.model() == insert_model::<T>(t.model(), v, depth),
    ensures
        r.count() == t.count() + 1,
        single_wf::<T>(r.model(), depth),
{
    lemma_count_model(t);
    lemma_count_model(r);
    assert(t.model().bbox_of() == t.bbox_of());
    lemma_insert_single::<T>(t.model(), v, depth);
}

/// No silent loss: inserting at the root, one by one, items that each
/// belong in the root's box and lie on no split line on their way down
/// gives a tree that counts each of them exactly once.
pub proof fn lemma_no_silent_loss<T: HasCoords>(t: BboxTree<T>, root: Bbox, vs: Seq<T::V>)
    requires
        root.well_formed(),
        t.model() == insert_all_model::<T>(TreeModel::Leaf { bbox: root, items: Seq::empty() }, vs),
        forall|i: int|
            0 <= i < vs.len() ==> T::fits_view(#[trigger] vs[i], root) && single_path::<T>(
                vs[i],
                root,
                0,
            ),
    ensures
        t.count() == vs.len(),
{
    lemma_count_model(t);
    lemma_insert_all_single::<T>(root, vs);
}

proof fn lemma_insert_all_single<T: HasCoords>(root: Bbox, vs: Seq<T::V>)
    requires
        root.well_formed(),
        forall|i: int|
            0 <= i < vs.len() ==> T::fits_view(#[trigger] vs[i], root) && single_path::<T>(
                vs[i],
                root,
                0,
            ),
    ensures
        single_wf::<T>(insert_all_model::<T>(TreeModel::Leaf { bbox: root, items: Seq::empty() }, vs), 0),
        insert_all_model::<T>(TreeModel::Leaf { bbox: root, items: Seq::empty() }, vs).bbox_of() == root,
        insert_all_model::<T>(TreeModel::Leaf { bbox: root, items: Seq::empty() }, vs).count() == vs.len(),
    decreases vs.len(),
{
    if vs.len() > 0 {
        let rest = vs.drop_last();
        assert forall|i: int| 0 <= i < rest.len() implies T::fits_view(#[trigger] rest[i], root)
            && single_path::<T>(rest[i], root, 0) by {
            assert(rest[i] == vs[i]);
        }
        lemma_insert_all_single::<T>(root, rest);
        let m1 = insert_all_model::<T>(TreeModel::Leaf { bbox: root, items: Seq::empty() }, rest);
        assert(T::fits_view(vs[vs.len() - 1], root));
        lemma_insert_single::<T>(m1, vs.last(), 0);
    }
}

/// Every box of the model is well formed and each child covers its quadrant.
pub open spec fn quad_wf<V>(m: TreeModel<V>) -> bool
    decreases m,
{
    match m {
        TreeModel::Interior { bbox, children } => {
            &&& bbox.well_formed()
            &&& (*children.0).bbox_of() == bbox.quarters().0
            &&& (*children.1).bbox_of() == bbox.quarters().1
            &&& (*children.2).bbox_of() == bbox.quarters().2
            &&& (*children.3).bbox_of() == bbox.quarters().3
            &&& quad_wf(*children.0)
            &&& quad_wf(*children.1)
            &&& quad_wf(*children.2)
            &&& quad_wf(*children.3)
        },
        TreeModel::Leaf { bbox, .. } => bbox.well_formed(),
    }
}

/// Wherever `v` belongs in a node's box, the node keeps it: a leaf holds
/// it, and an interior node keeps it in every child.
pub open spec fn complete<T: HasCoords>(m: TreeModel<T::V>, v: T::V) -> bool
    decreases m,
{
    if !T::fits_view(v, m.bbox_of()) {
        true
    } else {
        match m {
            TreeModel::Interior { children, .. } => {
                &&& complete::<T>(*children.0, v)
                &&& complete::<T>(*children.1, v)
                &&& complete::<T>(*children.2, v)
                &&& complete::<T>(*children.3, v)
            },
            TreeModel::Leaf { items, .. } => items.contains(v),
        }
    }
}

proof fn lemma_insert_complete<T: HasCoords>(m: TreeModel<T::V>, w: T::V, depth: int)
    requires
        quad_wf(m),
        T::fits_view(w, m.bbox_of()),
    ensures
        quad_wf(insert_model::<T>(m, w, depth)),
        insert_model::<T>(m, w, depth).bbox_of() == m.bbox_of(),
        complete::<T>(insert_model::<T>(m, w, depth), w),
        forall|v: T::V| #[trigger] complete::<T>(m, v) ==> complete::<T>(insert_model::<T>(m, w, depth), v),
    decreases depth_measure(depth), 0nat, m.size(), 0nat,
{
    let next = next_depth(depth);
    let r = insert_model::<T>(m, w, depth);
    match m {
        TreeModel::Interior { bbox, children } => {
            if T::fits_view(w, (*children.0).bbox_of()) {
                lemma_insert_complete::<T>(*children.0, w, next);
            }
            if T::fits_view(w, (*children.1).bbox_of()) {
                lemma_insert_complete::<T>(*children.1, w, next);
            }
            if T::fits_view(w, (*children.2).bbox_of()) {
                lemma_insert_complete::<T>(*children.2, w, next);
            }
            if T::fits_view(w, (*children.3).bbox_of()) {
                lemma_insert_complete::<T>(*children.3, w, next);
            }
            let o0 = offer_model::<T>(*children.0, w, next);
            let o1 = offer_model::<T>(*children.1, w, next);
            let o2 = offer_model::<T>(*children.2, w, next);
            let o3 = offer_model::<T>(*children.3, w, next);
            assert(complete::<T>(o0, w));
            assert(complete::<T>(o1, w));
            assert(complete::<T>(o2, w));
            assert(complete::<T>(o3, w));
            assert(r == TreeModel::Interior {
                bbox,
                children: (Box::new(o0), Box::new(o1), Box::new(o2), Box::new(o3)),
            });
            assert forall|v: T::V| #[trigger] complete::<T>(m, v) implies complete::<T>(r, v) by {
                if T::fits_view(v, bbox) {
                    assert(complete::<T>(*children.0, v));
                    assert(complete::<T>(o0, v));
                    assert(complete::<T>(*children.1, v));
                    assert(complete::<T>(o1, v));
                    assert(complete::<T>(*children.2, v));
                    assert(complete::<T>(o2, v));
                    assert(complete::<T>(*children.3, v));
                    assert(complete::<T>(o3, v));
                }
            }
        },
        TreeModel::Leaf { bbox, items } => {
            let all = items.push(w);
            assert(all[items.len() as int] == w);
            assert forall|v: T::V| #[trigger] items.contains(v) implies all.contains(v) by {
                let k = choose|k: int| 0 <= k < items.len() && items[k] == v;
                assert(all[k] == v);
            }
            if all.len() >= SPLIT_THRESHOLD && depth < MAX_DEPTH {
                let q = bbox.quarters();
                bbox.lemma_quarters_inside();
                lemma_offer_all_complete::<T>(TreeModel::Leaf { bbox: q.0, items: Seq::empty() }, all, next);
                lemma_offer_all_complete::<T>(TreeModel::Leaf { bbox: q.1, items: Seq::empty() }, all, next);
                lemma_offer_all_complete::<T>(TreeModel::Leaf { bbox: q.2, items: Seq::empty() }, all, next);
                lemma_offer_all_complete::<T>(TreeModel::Leaf { bbox: q.3, items: Seq::empty() }, all, next);
                let f0 = offer_all_model::<T>(TreeModel::Leaf { bbox: q.0, items: Seq::empty() }, all, next);
                let f1 = offer_all_model::<T>(TreeModel::Leaf { bbox: q.1, items: Seq::empty() }, all, next);
                let f2 = offer_all_model::<T>(TreeModel::Leaf { bbox: q.2, items: Seq::empty() }, all, next);
                let f3 = offer_all_model::<T>(TreeModel::Leaf { bbox: q.3, items: Seq::empty() }, all, next);
                assert(r == TreeModel::Interior {
                    bbox,
                    children: (Box::new(f0), Box::new(f1), Box::new(f2), Box::new(f3)),
                });
                assert forall|v: T::V| all.contains(v) implies #[trigger] complete::<T>(r, v) by {
                    assert(complete::<T>(f0, v));
                    assert(complete::<T>(f1, v));
                    assert(complete::<T>(f2, v));
                    assert(complete::<T>(f3, v));
                }
                assert(all.contains(w));
                assert forall|v: T::V| #[trigger] complete::<T>(m, v) implies complete::<T>(r, v) by {
                    if T::fits_view(v, bbox) {
                        assert(items.contains(v));
                        assert(all.contains(v));
                    }
                }
            } else {
                assert(all.contains(w));
                assert forall|v: T::V| #[trigger] complete::<T>(m, v) implies complete::<T>(r, v) by {
                    if T::fits_view(v, bbox) {
                        assert(items.contains(v));
                        assert(all.contains(v));
                    }
                }
            }
        },
    }
}

proof fn lemma_offer_all_complete<T: HasCoords>(m: TreeModel<T::V>, vs: Seq<T::V>, depth: int)
    requires
        quad_wf(m),
    ensures
        quad_wf(offer_all_model::<T>(m, vs, depth)),
        offer_all_model::<T>(m, vs, depth).bbox_of() == m.bbox_of(),
        forall|v: T::V|
            vs.contains(v) || complete::<T>(m, v) ==> #[trigger] complete::<T>(
                offer_all_model::<T>(m, vs, depth),
                v,
            ),
    decreases depth_measure(depth), vs.len() + 1, 0nat, 0nat,
{
    if vs.len() > 0 {
        let rest = vs.drop_last();
        lemma_offer_all_complete::<T>(m, rest, depth);
        let m1 = offer_all_model::<T>(m, rest, depth);
        let w = vs.last();
        assert(offer_all_model::<T>(m, vs, depth) == offer_model::<T>(m1, w, depth));
        if T::fits_view(w, m1.bbox_of()) {
            lemma_insert_complete::<T>(m1, w, depth);
        }
        assert forall|v: T::V|
            vs.contains(v) || complete::<T>(m, v) implies #[trigger] complete::<T>(
                offer_all_model::<T>(m, vs, depth),
                v,
            ) by {
            if vs.contains(v) && v != w {
                let k = choose|k: int| 0 <= k < vs.len() && vs[k] == v;
                assert(k != vs.len() - 1);
                assert(rest[k] == v);
                assert(rest.contains(v));
            }
            if v == w {
                if !T::fits_view(w, m1.bbox_of()) {
                    assert(complete::<T>(m1, w));
                }
            } else {
                assert(complete::<T>(m1, v));
            }
        }
    } else {
        assert(offer_all_model::<T>(m, vs, depth) == m);
    }
}

proof fn lemma_insert_all_complete<T: HasCoords>(root: Bbox, vs: Seq<T::V>)
    requires
        root.well_formed(),
        forall|i: int| 0 <= i < vs.len() ==> T::fits_view(#[trigger] vs[i], root),
    ensures
        quad_wf(insert_all_model::<T>(TreeModel::Leaf { bbox: root, items: Seq::empty() }, vs)),
        insert_all_model::<T>(TreeModel::Leaf { bbox: root, items: Seq::empty() }, vs).bbox_of() == root,
        forall|i: int|
            0 <= i < vs.len() ==> complete::<T>(
                insert_all_model::<T>(TreeModel::Leaf { bbox: root, items: Seq::empty() }, vs),
                #[trigger] vs[i],
            ),
    decreases vs.len(),
{
    if vs.len() > 0 {
        let rest = vs.drop_last();
        assert forall|i: int| 0 <= i < rest.len() implies T::fits_view(#[trigger] rest[i], root) by {
            assert(rest[i] == vs[i]);
        }
        lemma_insert_all_complete::<T>(root, rest);
        let m1 = insert_all_model::<T>(TreeModel::Leaf { bbox: root, items: Seq::empty() }, rest);
        assert(T::fits_view(vs[vs.len() - 1], root));
        lemma_insert_complete::<T>(m1, vs.last(), 0);
        assert forall|i: int| 0 <= i < vs.len() implies complete::<T>(
            insert_all_model::<T>(TreeModel::Leaf { bbox: root, items: Seq::empty() }, vs),
            #[trigger] vs[i],
        ) by {
            if i < rest.len() {
                assert(rest[i] == vs[i]);
            }
        }
    }
}

/// In a tree whose model is complete for `v`, every leaf whose box `v`
/// belongs in holds `v`; and every leaf lies inside the root's box.
proof fn lemma_complete_leaves<T: HasCoords>(t: BboxTree<T>, v: T::V)
    requires
        quad_wf(t.model()),
        complete::<T>(t.model(), v),
    ensures
        forall|i: int|
            0 <= i < t.leaves().len() ==> (#[trigger] t.leaves()[i]).bbox_of().inside(t.bbox_of())
                && (T::fits_view(v, t.leaves()[i].bbox_of()) ==> t.leaves()[i].holds(v)),
    decreases t, 0nat,
{
    match t {
        BboxTree::Interior { bbox, children } => {
            bbox.lemma_quarters_inside();
            let fits_here = T::fits_view(v, bbox);
            lemma_complete_leaves_child(*children.0, v, bbox, fits_here);
            lemma_complete_leaves_child(*children.1, v, bbox, fits_here);
            lemma_complete_leaves_child(*children.2, v, bbox, fits_here);
            lemma_complete_leaves_child(*children.3, v, bbox, fits_here);
            let s0 = (*children.0).leaves();
            let s1 = (*children.1).leaves();
            let s2 = (*children.2).leaves();
            let s3 = (*children.3).leaves();
            assert forall|i: int| 0 <= i < t.leaves().len() implies (#[trigger] t.leaves()[i]).bbox_of().inside(t.bbox_of())
                && (T::fits_view(v, t.leaves()[i].bbox_of()) ==> t.leaves()[i].holds(v)) by {
                assert(t.leaves() == s0 + s1 + s2 + s3);
                if i < s0.len() {
                    assert(t.leaves()[i] == s0[i]);
                } else if i < s0.len() + s1.len() {
                    assert(t.leaves()[i] == s1[i - s0.len()]);
                } else if i < s0.len() + s1.len() + s2.len() {
                    assert(t.leaves()[i] == s2[i - s0.len() - s1.len()]);
                } else {
                    assert(t.leaves()[i] == s3[i - s0.len() - s1.len() - s2.len()]);
                }
            }
        },
        BboxTree::Leaf { items, .. } => {
            assert(t.leaves()[0] == t);
            if T::fits_view(v, t.bbox_of()) {
                let k = choose|k: int| 0 <= k < item_views(items@).len() && item_views(items@)[k] == v;
                assert(items@[k]@ == v);
            }
        },
    }
}

proof fn lemma_complete_leaves_child<T: HasCoords>(c: BboxTree<T>, v: T::V, outer: Bbox, fits_outer: bool)
    requires
        quad_wf(c.model()),
        c.bbox_of().inside(outer),
        fits_outer == T::fits_view(v, outer),
        fits_outer ==> complete::<T>(c.model(), v),
    ensures
        forall|i: int|
            0 <= i < c.leaves().len() ==> (#[trigger] c.leaves()[i]).bbox_of().inside(outer)
                && (T::fits_view(v, c.leaves()[i].bbox_of()) ==> c.leaves()[i].holds(v)),
    decreases c, 1nat,
{
    if fits_outer {
        lemma_complete_leaves(c, v);
        assert forall|i: int| 0 <= i < c.leaves().len() implies (#[trigger] c.leaves()[i]).bbox_of().inside(outer) by {
            assert(c.leaves()[i].bbox_of().inside(c.bbox_of()));
        }
    } else {
        lemma_boxes_inside(c);
        assert forall|i: int| 0 <= i < c.leaves().len() implies (#[trigger] c.leaves()[i]).bbox_of().inside(outer)
            && !T::fits_view(v, c.leaves()[i].bbox_of()) by {
            assert(c.leaves()[i].bbox_of().inside(c.bbox_of()));
            if T::fits_view(v, c.leaves()[i].bbox_of()) {
                T::lemma_fits_monotone(v, c.leaves()[i].bbox_of(), outer);
            }
        }
    }
}

proof fn lemma_boxes_inside<T: HasCoords>(t: BboxTree<T>)
    requires
        quad_wf(t.model()),
    ensures
        forall|i: int| 0 <= i < t.leaves().len() ==> (#[trigger] t.leaves()[i]).bbox_of().inside(t.bbox_of()),
    decreases t,
{
    if let BboxTree::Interior { bbox, children } = t {
        bbox.lemma_quarters_inside();
        lemma_boxes_inside(*children.0);
        lemma_boxes_inside(*children.1);
        lemma_boxes_inside(*children.2);
        lemma_boxes_inside(*children.3);
        let s0 = (*children.0).leaves();
        let s1 = (*children.1).leaves();
        let s2 = (*children.2).leaves();
        let s3 = (*children.3).leaves();
        assert forall|i: int| 0 <= i < t.leaves().len() implies (#[trigger] t.leaves()[i]).bbox_of().inside(t.bbox_of()) by {
            assert(t.leaves() == s0 + s1 + s2 + s3);
            if i < s0.len() {
                assert(t.leaves()[i] == s0[i]);
            } else if i < s0.len() + s1.len() {
                assert(t.leaves()[i] == s1[i - s0.len()]);
            } else if i < s0.len() + s1.len() + s2.len() {
                assert(t.leaves()[i] == s2[i - s0.len() - s1.len()]);
            } else {
                assert(t.leaves()[i] == s3[i - s0.len() - s1.len() - s2.len()]);
            }
        }
    } else {
        assert(t.leaves()[0] == t);
    }
}

/// An index built by inserting items that all belong in the root's box
/// keeps each item wherever it belongs: every leaf whose box an item
/// belongs in (for a shape, every leaf whose box overlaps the shape's box)
/// holds that item.
pub proof fn lemma_index_complete<T: HasCoords>(t: BboxTree<T>, root: Bbox, vs: Seq<T::V>)
    requires
        root.well_formed(),
        t.model() == insert_all_model::<T>(TreeModel::Leaf { bbox: root, items: Seq::empty() }, vs),
        forall|i: int| 0 <= i < vs.len() ==> T::fits_view(#[trigger] vs[i], root),
    ensures
        forall|i: int, k: int|
            0 <= i < vs.len() && 0 <= k < t.leaves().len() && T::fits_view(
                vs[i],
                (#[trigger] t.leaves()[k]).bbox_of(),
            ) ==> t.leaves()[k].holds(#[trigger] vs[i]),
{
    lemma_insert_all_complete::<T>(root, vs);
    assert forall|i: int, k: int|
        0 <= i < vs.len() && 0 <= k < t.leaves().len() && T::fits_view(
            vs[i],
            (#[trigger] t.leaves()[k]).bbox_of(),
        ) implies t.leaves()[k].holds(#[trigger] vs[i]) by {
        lemma_complete_leaves(t, vs[i]);
    }
}

/// Every leaf of a well-formed tree lies inside the root's box.
pub proof fn lemma_leaves_inside<T: HasCoords>(t: BboxTree<T>)
    requires
        t.wf(),
    ensures
        forall|i: int|
            0 <= i < t.leaves().len() ==> (#[trigger] t.leaves()[i]).is_leaf()
                && t.leaves()[i].wf() && t.leaves()[i].bbox_of().inside(t.bbox_of()),
    decreases t,
{
    if let BboxTree::Interior { bbox, children } = t {
        bbox.lemma_quarters_inside();
        lemma_leaves_inside(*children.0);
        lemma_leaves_inside(*children.1);
        lemma_leaves_inside(*children.2);
        lemma_leaves_inside(*children.3);
        let s0 = (*children.0).leaves();
        let s1 = (*children.1).leaves();
        let s2 = (*children.2).leaves();
        let s3 = (*children.3).leaves();
        assert forall|i: int| 0 <= i < t.leaves().len() implies (#[trigger] t.leaves()[i]).is_leaf()
            && t.leaves()[i].wf() && t.leaves()[i].bbox_of().inside(t.bbox_of()) by {
            assert(t.leaves() == s0 + s1 + s2 + s3);
            if i < s0.len() {
                assert(t.leaves()[i] == s0[i]);
            } else if i < s0.len() + s1.len() {
                assert(t.leaves()[i] == s1[i - s0.len()]);
            } else if i < s0.len() + s1.len() + s2.len() {
                assert(t.leaves()[i] == s2[i - s0.len() - s1.len()]);
            } else {
                assert(t.leaves()[i] == s3[i - s0.len() - s1.len() - s2.len()]);
            }
        }
    }
}

/// Range queries are exact: in a well-formed tree, the leaves that the pruned
/// descent returns are precisely the leaves whose box overlaps the query, in
/// left-to-right order.
pub proof fn lemma_overlapping_leaves_exact<T: HasCoords>(t: BboxTree<T>, q: Bbox)
    requires
        t.wf(),
    ensures
        t.overlapping_leaves(q) == t.leaves().filter(|l: BboxTree<T>| l.bbox_of().overlaps_spec(q)),
    decreases t,
{
    broadcast use Seq::filter_distributes_over_add;

    let pred = |l: BboxTree<T>| l.bbox_of().overlaps_spec(q);
    if !t.bbox_of().overlaps_spec(q) {
        lemma_leaves_inside(t);
        assert(t.leaves().all(|x: BboxTree<T>| !pred(x)));
        t.leaves().lemma_all_neg_filter_empty(pred);
        assert(t.leaves().filter(pred) =~= Seq::empty());
    } else {
        match t {
            BboxTree::Interior { children, .. } => {
                lemma_overlapping_leaves_exact(*children.0, q);
                lemma_overlapping_leaves_exact(*children.1, q);
                lemma_overlapping_leaves_exact(*children.2, q);
                lemma_overlapping_leaves_exact(*children.3, q);
                let s0 = (*children.0).leaves();
                let s1 = (*children.1).leaves();
                let s2 = (*children.2).leaves();
                let s3 = (*children.3).leaves();
                assert((s0 + s1 + s2 + s3).filter(pred) == (s0 + s1 + s2).filter(pred) + s3.filter(pred));
                assert((s0 + s1 + s2).filter(pred) == (s0 + s1).filter(pred) + s2.filter(pred));
                assert((s0 + s1).filter(pred) == s0.filter(pred) + s1.filter(pred));
            },
            BboxTree::Leaf { .. } => {
                reveal_with_fuel(Seq::filter, 2);
                assert(seq![t].filter(pred) =~= seq![t]) by {
                    assert(seq![t].drop_last() =~= Seq::<BboxTree<T>>::empty());
                }
            },
        }
    }
}

/// Point queries are sound: a leaf returned for `p` is a leaf of the tree
/// whose box contains `p`.
pub proof fn lemma_box_for_contains<T: HasCoords>(t: BboxTree<T>, p: Point)
    ensures
        t.box_for(p) matches Some(l) ==> l.is_leaf() && l.bbox_of().contains_spec(p)
            && t.leaves().contains(l),
    decreases t,
{
    if let BboxTree::Interior { children, .. } = t {
        lemma_box_for_contains(*children.0, p);
        lemma_box_for_contains(*children.1, p);
        lemma_box_for_contains(*children.2, p);
        lemma_box_for_contains(*children.3, p);
        let s0 = (*children.0).leaves();
        let s1 = (*children.1).leaves();
        let s2 = (*children.2).leaves();
        let s3 = (*children.3).leaves();
        if let Some(l) = t.box_for(p) {
            let all = s0 + s1 + s2 + s3;
            assert(t.leaves() == all);
            if (*children.0).box_for(p) is Some {
                let k = choose|k: int| 0 <= k < s0.len() && s0[k] == l;
                assert(all[k] == l);
            } else if (*children.1).box_for(p) is Some {
                let k = choose|k: int| 0 <= k < s1.len() && s1[k] == l;
                assert(all[s0.len() + k] == l);
            } else if (*children.2).box_for(p) is Some {
                let k = choose|k: int| 0 <= k < s2.len() && s2[k] == l;
                assert(all[s0.len() + s1.len() + k] == l);
            } else {
                let k = choose|k: int| 0 <= k < s3.len() && s3[k] == l;
                assert(all[s0.len() + s1.len() + s2.len() + k] == l);
            }
        }
    } else {
        if t.box_for(p) is Some {
            assert(t.leaves()[0] == t);
        }
    }
}

/// Point queries are complete: in a well-formed tree, a point inside the
/// root's box always finds a leaf.
pub proof fn lemma_box_for_found<T: HasCoords>(t: BboxTree<T>, p: Point)
    requires
        t.wf(),
        t.bbox_of().contains_spec(p),
    ensures
        t.box_for(p) is Some,
    decreases t,
{
    if let BboxTree::Interior { bbox, children } = t {
        bbox.lemma_point_in_some_quarter(p);
        if (*children.0).bbox_of().contains_spec(p) {
            lemma_box_for_found(*children.0, p);
        } else if (*children.1).bbox_of().contains_spec(p) {
            lemma_box_for_found(*children.1, p);
        } else if (*children.2).bbox_of().contains_spec(p) {
            lemma_box_for_found(*children.2, p);
        } else {
            lemma_box_for_found(*children.3, p);
        }
    }
}

} // verus!
