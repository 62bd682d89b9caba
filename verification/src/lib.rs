//! A two-dimensional spatial index over axis-aligned bounding rectangles.
//!
//! Callers build a quadtree over a bounding rectangle, insert shapes with
//! tags, and query with a shape; the query returns the tags of every stored
//! item whose leaf region could be near the query shape. The index is a
//! conservative broad-phase filter: callers still perform exact checks on
//! the candidates it returns.

use vstd::prelude::*;

mod rect;

pub use rect::Rect;
pub use rect::ToRect;
pub use rect::COORD_LIMIT;
pub use rect::rect_wf;
pub use rect::spec_intersects;
pub use rect::splittable;
pub use rect::lemma_intersects_reflexive;
pub use rect::lemma_intersects_symmetric;
pub use rect::lemma_quadrants_partition;
pub use rect::point_in_rect;
pub use rect::point_strictly_in_rect;
pub use rect::rect_contains;
pub use rect::mid_x;
pub use rect::mid_y;
pub use rect::quad_top_left;
pub use rect::quad_top_right;
pub use rect::quad_bottom_left;
pub use rect::quad_bottom_right;

use rect::rect_size;
use rect::lemma_quadrant_size;
use rect::lemma_quadrants_wf;
use rect::lemma_intersects_some_quadrant;
use rect::lemma_contained_intersects;

verus! {

/// A point in the plane. Coordinates grow rightward in `x` and downward in
/// `y`, as in common 2-D screen conventions.
#[derive(Copy, Clone, Debug, PartialEq, Eq, Structural)]
pub struct Point {
    pub x: i64,
    pub y: i64,
}

/// An inserted item: a caller tag paired with the bounding rectangle
/// computed from the caller's shape at insertion time. The index stores
/// this rectangle, never the shape itself.
#[derive(Copy, Clone)]
struct TaggedRect<T> {
    tag: T,
    rect: Rect,
}

/// A quadtree node covering a fixed bounding rectangle. A node is either a
/// leaf holding up to `N` tagged items, or a branch holding four children,
/// one per quadrant of its rectangle. The root node is the whole index.
///
/// An item whose rectangle straddles a split line is filed independently
/// in every quadrant it touches, so one tag can come back several times
/// from a single query; the index never deduplicates.
pub struct QuadTree<T, const N: usize> {
    rect: Rect,
    items: Items<T, N>,
}

/// The body of a node: its own items while a leaf, four children once it
/// has split. Splitting is one-way; a branch never reverts to a leaf.
enum Items<T, const N: usize> {
    Whole(Vec<TaggedRect<T>>),
    Split(Box<Split<T, N>>),
}

/// The four children of a branch, one per quadrant of the parent's
/// rectangle.
struct Split<T, const N: usize> {
    top_left: QuadTree<T, N>,
    top_right: QuadTree<T, N>,
    bottom_left: QuadTree<T, N>,
    bottom_right: QuadTree<T, N>,
}

/// The larger of two naturals.
spec fn nat_max(a: nat, b: nat) -> nat {
    if a >= b {
        a
    } else {
        b
    }
}

/// Termination measure of a branch body: strictly above each child's
/// rectangle size, and, when the children cover the quadrants of a
/// splittable parent, strictly below the parent's rectangle size.
spec fn split_measure<T, const N: usize>(s: Split<T, N>) -> nat {
    nat_max(
        nat_max(rect_size(s.top_left.rect), rect_size(s.top_right.rect)),
        nat_max(rect_size(s.bottom_left.rect), rect_size(s.bottom_right.rect)),
    ) + 1
}

/// An element of a four-way concatenation comes from one of the four
/// parts.
proof fn lemma_concat4_contains<A>(a: Seq<A>, b: Seq<A>, c: Seq<A>, d: Seq<A>, p: A)
    requires
        (a + b + c + d).contains(p),
    ensures
        a.contains(p) || b.contains(p) || c.contains(p) || d.contains(p),
{
    let s = a + b + c + d;
    let i = choose|i: int| 0 <= i < s.len() && s[i] == p;
    if i < a.len() {
        assert(a[i] == p);
    } else if i < a.len() + b.len() {
        assert(b[i - a.len()] == p);
    } else if i < a.len() + b.len() + c.len() {
        assert(c[i - a.len() - b.len()] == p);
    } else {
        assert(d[i - a.len() - b.len() - c.len()] == p);
    }
}

/// An element of one of four parts is an element of their concatenation.
proof fn lemma_concat4_contains_intro<A>(a: Seq<A>, b: Seq<A>, c: Seq<A>, d: Seq<A>, p: A)
    requires
        a.contains(p) || b.contains(p) || c.contains(p) || d.contains(p),
    ensures
        (a + b + c + d).contains(p),
{
    let s = a + b + c + d;
    if a.contains(p) {
        let k = choose|k: int| 0 <= k < a.len() && a[k] == p;
        assert(s[k] == p);
    } else if b.contains(p) {
        let k = choose|k: int| 0 <= k < b.len() && b[k] == p;
        assert(s[a.len() + k] == p);
    } else if c.contains(p) {
        let k = choose|k: int| 0 <= k < c.len() && c[k] == p;
        assert(s[a.len() + b.len() + k] == p);
    } else {
        let k = choose|k: int| 0 <= k < d.len() && d[k] == p;
        assert(s[a.len() + b.len() + c.len() + k] == p);
    }
}

/// All four children satisfy the node invariant.
spec fn split_inv<T, const N: usize>(s: Split<T, N>) -> bool
    decreases s,
{
    &&& s.top_left.inv()
    &&& s.top_right.inv()
    &&& s.bottom_left.inv()
    &&& s.bottom_right.inv()
}

/// The `(tag, rectangle)` pairs of a leaf's item sequence.
spec fn pairs_of<T>(v: Seq<TaggedRect<T>>) -> Seq<(T, Rect)> {
    v.map_values(|it: TaggedRect<T>| (it.tag, it.rect))
}

/// An abstract picture of a node: the same tree shape, with a leaf's
/// items as a plain sequence of `(tag, rectangle)` pairs. Insertion is
/// specified as a function over this model (see [`model_insert`]), which
/// pins the tree after every insertion exactly: where an item is filed,
/// how often, and that nothing else moves.
pub ghost enum NodeModel<T> {
    Leaf { rect: Rect, items: Seq<(T, Rect)> },
    Branch {
        rect: Rect,
        top_left: Box<NodeModel<T>>,
        top_right: Box<NodeModel<T>>,
        bottom_left: Box<NodeModel<T>>,
        bottom_right: Box<NodeModel<T>>,
    },
}

/// The bounding rectangle of a model node.
pub open spec fn model_rect<T>(m: NodeModel<T>) -> Rect {
    match m {
        NodeModel::Leaf { rect, .. } => rect,
        NodeModel::Branch { rect, .. } => rect,
    }
}

/// The model after filing one item. A leaf with room (or over a region
/// too small to split) appends the pair. A full splittable leaf becomes a
/// branch of four fresh leaves, each of which refiles, oldest first, the
/// items touching its quadrant — the new item last. A branch refiles the
/// item into exactly the children whose quadrants its rectangle touches,
/// once each, and leaves the other children untouched.
///
/// The arms that return `m` unchanged only keep the function total; they
/// are never reached from a tree satisfying the node invariant.
pub open spec fn model_insert<T, const N: usize>(m: NodeModel<T>, tag: T, rect: Rect) -> NodeModel<
    T,
>
    decreases rect_size(model_rect(m)), 0int, 0int,
{
    match m {
        NodeModel::Leaf { rect: region, items } => {
            if items.len() < N || !splittable(region) {
                NodeModel::Leaf { rect: region, items: items.push((tag, rect)) }
            } else if !rect_wf(region) {
                m
            } else {
                let all = items.push((tag, rect));
                NodeModel::Branch {
                    rect: region,
                    top_left: Box::new(
                        model_fill::<T, N>(quad_top_left(region), all, all.len() as int),
                    ),
                    top_right: Box::new(
                        model_fill::<T, N>(quad_top_right(region), all, all.len() as int),
                    ),
                    bottom_left: Box::new(
                        model_fill::<T, N>(quad_bottom_left(region), all, all.len() as int),
                    ),
                    bottom_right: Box::new(
                        model_fill::<T, N>(quad_bottom_right(region), all, all.len() as int),
                    ),
                }
            }
        },
        NodeModel::Branch { rect: region, top_left, top_right, bottom_left, bottom_right } => {
            if rect_wf(region) && splittable(region) && model_rect(*top_left) == quad_top_left(
                region,
            ) && model_rect(*top_right) == quad_top_right(region) && model_rect(*bottom_left)
                == quad_bottom_left(region) && model_rect(*bottom_right) == quad_bottom_right(
                region,
            ) {
                NodeModel::Branch {
                    rect: region,
                    top_left: if spec_intersects(quad_top_left(region), rect) {
                        Box::new(model_insert::<T, N>(*top_left, tag, rect))
                    } else {
                        top_left
                    },
                    top_right: if spec_intersects(quad_top_right(region), rect) {
                        Box::new(model_insert::<T, N>(*top_right, tag, rect))
                    } else {
                        top_right
                    },
                    bottom_left: if spec_intersects(quad_bottom_left(region), rect) {
                        Box::new(model_insert::<T, N>(*bottom_left, tag, rect))
                    } else {
                        bottom_left
                    },
                    bottom_right: if spec_intersects(quad_bottom_right(region), rect) {
                        Box::new(model_insert::<T, N>(*bottom_right, tag, rect))
                    } else {
                        bottom_right
                    },
                }
            } else {
                m
            }
        },
    }
}

/// A fresh leaf over `region` after filing, in order, those of the first
/// `n` items whose rectangles touch `region`: how overflow redistributes
/// an overfull leaf's items into one quadrant child.
pub open spec fn model_fill<T, const N: usize>(
    region: Rect,
    items: Seq<(T, Rect)>,
    n: int,
) -> NodeModel<T>
    decreases rect_size(region), 1int, n,
{
    if n <= 0 {
        NodeModel::Leaf { rect: region, items: Seq::empty() }
    } else {
        let prev = model_fill::<T, N>(region, items, n - 1);
        if model_rect(prev) == region && spec_intersects(region, items[n - 1].1) {
            model_insert::<T, N>(prev, items[n - 1].0, items[n - 1].1)
        } else {
            prev
        }
    }
}

/// The pairs stored in a model node, in traversal order (a leaf's items,
/// a branch's children concatenated in child order).
pub open spec fn model_contents<T>(m: NodeModel<T>) -> Seq<(T, Rect)>
    decreases m,
{
    match m {
        NodeModel::Leaf { items, .. } => items,
        NodeModel::Branch { top_left, top_right, bottom_left, bottom_right, .. } => model_contents(
            *top_left,
        ) + model_contents(*top_right) + model_contents(*bottom_left) + model_contents(
            *bottom_right,
        ),
    }
}

/// What a query over `q` returns from a model node: every tag of a leaf
/// reached by descending only into children whose rectangles touch `q`.
pub open spec fn model_nearby<T>(m: NodeModel<T>, q: Rect) -> Seq<T>
    decreases m,
{
    match m {
        NodeModel::Leaf { items, .. } => items.map_values(|p: (T, Rect)| p.0),
        NodeModel::Branch { top_left, top_right, bottom_left, bottom_right, .. } => (if spec_intersects(
            model_rect(*top_left),
            q,
        ) {
            model_nearby(*top_left, q)
        } else {
            Seq::empty()
        }) + (if spec_intersects(model_rect(*top_right), q) {
            model_nearby(*top_right, q)
        } else {
            Seq::empty()
        }) + (if spec_intersects(model_rect(*bottom_left), q) {
            model_nearby(*bottom_left, q)
        } else {
            Seq::empty()
        }) + (if spec_intersects(model_rect(*bottom_right), q) {
            model_nearby(*bottom_right, q)
        } else {
            Seq::empty()
        }),
    }
}

/// Filing the first `n` items reads nothing past them: equal prefixes
/// give equal results.
proof fn lemma_model_fill_prefix<T, const N: usize>(
    region: Rect,
    items1: Seq<(T, Rect)>,
    items2: Seq<(T, Rect)>,
    n: int,
)
    requires
        forall|j: int| 0 <= j < n ==> items1[j] == items2[j],
    ensures
        model_fill::<T, N>(region, items1, n) == model_fill::<T, N>(region, items2, n),
    decreases n,
{
    if n > 0 {
        lemma_model_fill_prefix::<T, N>(region, items1, items2, n - 1);
    }
}

/// The items stored beneath the four children, in child order
/// (top-left, top-right, bottom-left, bottom-right). An item filed in
/// several quadrants appears once per quadrant.
spec fn split_contents<T, const N: usize>(s: Split<T, N>) -> Seq<(T, Rect)>
    decreases s,
{
    s.top_left.contents() + s.top_right.contents() + s.bottom_left.contents()
        + s.bottom_right.contents()
}

/// The item is filed, recursively, in every child whose rectangle its own
/// rectangle touches.
spec fn split_holds<T, const N: usize>(s: Split<T, N>, tag: T, rect: Rect) -> bool
    decreases s,
{
    &&& (spec_intersects(s.top_left.rect, rect) ==> s.top_left.indexed(tag, rect))
    &&& (spec_intersects(s.top_right.rect, rect) ==> s.top_right.indexed(tag, rect))
    &&& (spec_intersects(s.bottom_left.rect, rect) ==> s.bottom_left.indexed(tag, rect))
    &&& (spec_intersects(s.bottom_right.rect, rect) ==> s.bottom_right.indexed(tag, rect))
}

/// What a query over `q` collects beneath a branch: the results of the
/// children whose rectangles touch `q`, concatenated in child order.
spec fn split_nearby_seq<T, const N: usize>(s: Split<T, N>, q: Rect) -> Seq<T>
    decreases s,
{
    (if spec_intersects(s.top_left.rect, q) {
        s.top_left.nearby_seq(q)
    } else {
        Seq::empty()
    }) + (if spec_intersects(s.top_right.rect, q) {
        s.top_right.nearby_seq(q)
    } else {
        Seq::empty()
    }) + (if spec_intersects(s.bottom_left.rect, q) {
        s.bottom_left.nearby_seq(q)
    } else {
        Seq::empty()
    }) + (if spec_intersects(s.bottom_right.rect, q) {
        s.bottom_right.nearby_seq(q)
    } else {
        Seq::empty()
    })
}

impl<T, const N: usize> QuadTree<T, N> {
    /// The fixed bounding rectangle this node covers.
    pub closed spec fn bounds(self) -> Rect {
        self.rect
    }

    /// The node has split into four quadrant children.
    pub closed spec fn is_branch(self) -> bool {
        self.items is Split
    }

    /// The structural invariant: the bounding rectangle is well-formed;
    /// a leaf respects its capacity unless its rectangle is too small to
    /// split, and stores only well-formed item rectangles; a branch covers
    /// a splittable rectangle and its children cover exactly its four
    /// quadrants.
    pub closed spec fn inv(self) -> bool
        decreases self,
    {
        &&& rect_wf(self.rect)
        &&& match self.items {
            Items::Whole(v) => {
                &&& (splittable(self.rect) ==> v@.len() <= N)
                &&& (forall|j: int| 0 <= j < v@.len() ==> rect_wf((#[trigger] v@[j]).rect))
            },
            Items::Split(s) => {
                &&& splittable(self.rect)
                &&& s.top_left.rect == quad_top_left(self.rect)
                &&& s.top_right.rect == quad_top_right(self.rect)
                &&& s.bottom_left.rect == quad_bottom_left(self.rect)
                &&& s.bottom_right.rect == quad_bottom_right(self.rect)
                &&& split_inv(*s)
            },
        }
    }

    /// Every `(tag, rectangle)` pair stored beneath this node, in
    /// traversal order. A pair filed in several quadrants appears once per
    /// leaf that holds it.
    pub closed spec fn contents(self) -> Seq<(T, Rect)>
        decreases self,
    {
        match self.items {
            Items::Whole(v) => pairs_of(v@),
            Items::Split(s) => split_contents(*s),
        }
    }

    /// The item is filed soundly under this node: its rectangle touches
    /// the node's rectangle, and at every branch beneath, the item is
    /// present in every child whose rectangle it touches. An item filed
    /// this way survives later splits and is found by a query over its own
    /// rectangle.
    pub closed spec fn indexed(self, tag: T, rect: Rect) -> bool
        decreases self,
    {
        &&& spec_intersects(self.rect, rect)
        &&& match self.items {
            Items::Whole(v) => v@.contains(TaggedRect { tag, rect }),
            Items::Split(s) => split_holds(*s, tag, rect),
        }
    }

    /// What a query over `q` returns from this node: every tag of a leaf
    /// reached by descending only into children whose rectangles touch
    /// `q`. Leaf items are returned unconditionally; the leaf's rectangle
    /// was already confirmed to touch `q` by its parent.
    pub closed spec fn nearby_seq(self, q: Rect) -> Seq<T>
        decreases self,
    {
        match self.items {
            Items::Whole(v) => v@.map_values(|it: TaggedRect<T>| it.tag),
            Items::Split(s) => split_nearby_seq(*s, q),
        }
    }

    /// The abstract model of this node: the same shape, with each leaf's
    /// items as its sequence of `(tag, rectangle)` pairs.
    pub closed spec fn model(self) -> NodeModel<T>
        decreases self,
    {
        match self.items {
            Items::Whole(v) => NodeModel::Leaf { rect: self.rect, items: pairs_of(v@) },
            Items::Split(s) => NodeModel::Branch {
                rect: self.rect,
                top_left: Box::new(s.top_left.model()),
                top_right: Box::new(s.top_right.model()),
                bottom_left: Box::new(s.bottom_left.model()),
                bottom_right: Box::new(s.bottom_right.model()),
            },
        }
    }

    /// The model keeps the node's bounding rectangle.
    pub proof fn lemma_model_rect(self)
        ensures
            model_rect(self.model()) == self.bounds(),
    {
        match self.items {
            Items::Whole(_) => {},
            Items::Split(_) => {},
        }
    }

    /// The model determines what can be observed: a node's stored pairs
    /// and its query results are exactly those of its model. Together
    /// with the insertion contract — the model after an insertion is
    /// `model_insert` of the model before — this pins every query result
    /// over any sequence of insertions exactly.
    pub proof fn lemma_model_observations(self, q: Rect)
        ensures
            self.contents() == model_contents(self.model()),
            self.nearby_seq(q) == model_nearby(self.model(), q),
        decreases self,
    {
        match self.items {
            Items::Whole(v) => {
                assert(self.nearby_seq(q) =~= model_nearby(self.model(), q));
            },
            Items::Split(s) => {
                s.top_left.lemma_model_observations(q);
                s.top_right.lemma_model_observations(q);
                s.bottom_left.lemma_model_observations(q);
                s.bottom_right.lemma_model_observations(q);
                s.top_left.lemma_model_rect();
                s.top_right.lemma_model_rect();
                s.bottom_left.lemma_model_rect();
                s.bottom_right.lemma_model_rect();
            },
        }
    }

    /// Creates an empty index over `rect`: a single empty leaf. No child
    /// nodes are allocated until the first overflow.
    pub fn new(rect: Rect) -> (t: Self)
        requires
            rect_wf(rect),
        ensures
            t.inv(),
            t.bounds() == rect,
            !t.is_branch(),
            t.contents() == Seq::<(T, Rect)>::empty(),
    {
        let t = QuadTree { rect, items: Items::Whole(Vec::new()) };
        proof {
            assert(t.contents() =~= Seq::<(T, Rect)>::empty());
        }
        t
    }

    /// Whether this node has split into four quadrant children.
    pub fn is_split(&self) -> (b: bool)
        ensures
            b == self.is_branch(),
    {
        match &self.items {
            Items::Whole(_) => false,
            Items::Split(_) => true,
        }
    }

    /// The top-left child of a branch node.
    pub closed spec fn child_top_left(self) -> QuadTree<T, N>
        recommends
            self.is_branch(),
    {
        match self.items {
            Items::Split(s) => s.top_left,
            Items::Whole(_) => self,
        }
    }

    /// The top-right child of a branch node.
    pub closed spec fn child_top_right(self) -> QuadTree<T, N>
        recommends
            self.is_branch(),
    {
        match self.items {
            Items::Split(s) => s.top_right,
            Items::Whole(_) => self,
        }
    }

    /// The bottom-left child of a branch node.
    pub closed spec fn child_bottom_left(self) -> QuadTree<T, N>
        recommends
            self.is_branch(),
    {
        match self.items {
            Items::Split(s) => s.bottom_left,
            Items::Whole(_) => self,
        }
    }

    /// The bottom-right child of a branch node.
    pub closed spec fn child_bottom_right(self) -> QuadTree<T, N>
        recommends
            self.is_branch(),
    {
        match self.items {
            Items::Split(s) => s.bottom_right,
            Items::Whole(_) => self,
        }
    }

    /// Leaf query law: a query at a leaf returns exactly the stored tags,
    /// in storage order, whatever the query rectangle. Filtering happens
    /// only while descending branches.
    pub proof fn lemma_leaf_query(self, q: Rect)
        requires
            !self.is_branch(),
        ensures
            self.nearby_seq(q) == self.contents().map_values(|p: (T, Rect)| p.0),
    {
        match self.items {
            Items::Whole(v) => {
                assert(self.nearby_seq(q) =~= self.contents().map_values(|p: (T, Rect)| p.0));
            },
            Items::Split(_) => {},
        }
    }

    /// Branch query law: a query at a branch concatenates, in child
    /// order, the results of exactly those children whose rectangles
    /// touch the query rectangle.
    pub proof fn lemma_branch_query(self, q: Rect)
        requires
            self.is_branch(),
        ensures
            self.nearby_seq(q) == (if spec_intersects(self.child_top_left().bounds(), q) {
                self.child_top_left().nearby_seq(q)
            } else {
                Seq::empty()
            }) + (if spec_intersects(self.child_top_right().bounds(), q) {
                self.child_top_right().nearby_seq(q)
            } else {
                Seq::empty()
            }) + (if spec_intersects(self.child_bottom_left().bounds(), q) {
                self.child_bottom_left().nearby_seq(q)
            } else {
                Seq::empty()
            }) + (if spec_intersects(self.child_bottom_right().bounds(), q) {
                self.child_bottom_right().nearby_seq(q)
            } else {
                Seq::empty()
            }),
    {
    }

    /// Branch contents law: what a branch stores is what its four
    /// children store, concatenated in child order; the children satisfy
    /// the invariant in turn.
    pub proof fn lemma_branch_contents(self)
        requires
            self.inv(),
            self.is_branch(),
        ensures
            self.contents() == self.child_top_left().contents()
                + self.child_top_right().contents() + self.child_bottom_left().contents()
                + self.child_bottom_right().contents(),
            self.child_top_left().inv(),
            self.child_top_right().inv(),
            self.child_bottom_left().inv(),
            self.child_bottom_right().inv(),
    {
    }

    /// Capacity law: a leaf node over a splittable region never holds
    /// more than `N` items; only a leaf whose region is too small to
    /// subdivide may exceed the nominal capacity.
    pub proof fn lemma_leaf_capacity(self)
        requires
            self.inv(),
            !self.is_branch(),
            splittable(self.bounds()),
        ensures
            self.contents().len() <= N,
    {
    }

    /// Partition law: the four children of a branch node cover exactly
    /// the four quadrants of its bounding rectangle; together the
    /// quadrants cover exactly the parent's points, and no point lies
    /// strictly inside two different quadrants.
    pub proof fn lemma_branch_partition(self)
        requires
            self.inv(),
            self.is_branch(),
        ensures
            self.child_top_left().bounds() == quad_top_left(self.bounds()),
            self.child_top_right().bounds() == quad_top_right(self.bounds()),
            self.child_bottom_left().bounds() == quad_bottom_left(self.bounds()),
            self.child_bottom_right().bounds() == quad_bottom_right(self.bounds()),
            forall|x: int, y: int|
                point_in_rect(self.bounds(), x, y) <==> (point_in_rect(
                    quad_top_left(self.bounds()),
                    x,
                    y,
                ) || point_in_rect(quad_top_right(self.bounds()), x, y) || point_in_rect(
                    quad_bottom_left(self.bounds()),
                    x,
                    y,
                ) || point_in_rect(quad_bottom_right(self.bounds()), x, y)),
            forall|x: int, y: int|
                point_strictly_in_rect(quad_top_left(self.bounds()), x, y)
                    ==> !point_strictly_in_rect(quad_top_right(self.bounds()), x, y)
                        && !point_strictly_in_rect(quad_bottom_left(self.bounds()), x, y)
                        && !point_strictly_in_rect(quad_bottom_right(self.bounds()), x, y),
            forall|x: int, y: int|
                point_strictly_in_rect(quad_top_right(self.bounds()), x, y)
                    ==> !point_strictly_in_rect(quad_bottom_left(self.bounds()), x, y)
                        && !point_strictly_in_rect(quad_bottom_right(self.bounds()), x, y),
            forall|x: int, y: int|
                point_strictly_in_rect(quad_bottom_left(self.bounds()), x, y)
                    ==> !point_strictly_in_rect(quad_bottom_right(self.bounds()), x, y),
    {
        lemma_quadrants_partition(self.bounds());
    }

    /// A soundly filed item reaches some leaf: its pair occurs in the
    /// node's contents.
    proof fn lemma_indexed_in_contents(self, tag: T, rect: Rect)
        requires
            self.inv(),
            rect_wf(rect),
            self.indexed(tag, rect),
        ensures
            self.contents().contains((tag, rect)),
        decreases self,
    {
        match self.items {
            Items::Whole(v) => {
                let j = choose|j: int|
                    0 <= j < v@.len() && v@[j] == (TaggedRect { tag, rect });
                assert(self.contents()[j] == (tag, rect));
            },
            Items::Split(s) => {
                lemma_intersects_some_quadrant(self.rect, rect);
                if spec_intersects(s.top_left.rect, rect) {
                    s.top_left.lemma_indexed_in_contents(tag, rect);
                } else if spec_intersects(s.top_right.rect, rect) {
                    s.top_right.lemma_indexed_in_contents(tag, rect);
                } else if spec_intersects(s.bottom_left.rect, rect) {
                    s.bottom_left.lemma_indexed_in_contents(tag, rect);
                } else {
                    s.bottom_right.lemma_indexed_in_contents(tag, rect);
                }
                lemma_concat4_contains_intro(
                    s.top_left.contents(),
                    s.top_right.contents(),
                    s.bottom_left.contents(),
                    s.bottom_right.contents(),
                    (tag, rect),
                );
            },
        }
    }

    /// Exact re-query law: a soundly filed item is found by a query over
    /// its own bounding rectangle. Together with the contract of
    /// `push_with_tag` — which files every inserted item whose rectangle
    /// touches the tree bounds soundly, and keeps every previously filed
    /// item soundly filed — this gives no false negatives for exact
    /// re-query, over any sequence of insertions.
    pub proof fn lemma_indexed_found(self, tag: T, rect: Rect)
        requires
            self.inv(),
            rect_wf(rect),
            self.indexed(tag, rect),
        ensures
            self.nearby_seq(rect).contains(tag),
        decreases self,
    {
        match self.items {
            Items::Whole(v) => {
                let j = choose|j: int|
                    0 <= j < v@.len() && v@[j] == (TaggedRect { tag, rect });
                assert(self.nearby_seq(rect)[j] == tag);
            },
            Items::Split(s) => {
                lemma_intersects_some_quadrant(self.rect, rect);
                let sa = if spec_intersects(s.top_left.rect, rect) {
                    s.top_left.nearby_seq(rect)
                } else {
                    Seq::empty()
                };
                let sb = if spec_intersects(s.top_right.rect, rect) {
                    s.top_right.nearby_seq(rect)
                } else {
                    Seq::empty()
                };
                let sc = if spec_intersects(s.bottom_left.rect, rect) {
                    s.bottom_left.nearby_seq(rect)
                } else {
                    Seq::empty()
                };
                let sd = if spec_intersects(s.bottom_right.rect, rect) {
                    s.bottom_right.nearby_seq(rect)
                } else {
                    Seq::empty()
                };
                if spec_intersects(s.top_left.rect, rect) {
                    s.top_left.lemma_indexed_found(tag, rect);
                } else if spec_intersects(s.top_right.rect, rect) {
                    s.top_right.lemma_indexed_found(tag, rect);
                } else if spec_intersects(s.bottom_left.rect, rect) {
                    s.bottom_left.lemma_indexed_found(tag, rect);
                } else {
                    s.bottom_right.lemma_indexed_found(tag, rect);
                }
                lemma_concat4_contains_intro(sa, sb, sc, sd, tag);
                assert(self.nearby_seq(rect) == sa + sb + sc + sd);
            },
        }
    }

    /// A query whose rectangle covers this node's whole region returns
    /// the tag of every stored item.
    proof fn lemma_covering_query_finds(self, q: Rect, tag: T, rect: Rect)
        requires
            self.inv(),
            rect_contains(q, self.bounds()),
            self.contents().contains((tag, rect)),
        ensures
            self.nearby_seq(q).contains(tag),
        decreases self,
    {
        match self.items {
            Items::Whole(v) => {
                let j = choose|j: int|
                    0 <= j < self.contents().len() && self.contents()[j] == (tag, rect);
                assert(self.nearby_seq(q)[j] == tag);
            },
            Items::Split(s) => {
                lemma_quadrants_wf(self.rect);
                lemma_concat4_contains(
                    s.top_left.contents(),
                    s.top_right.contents(),
                    s.bottom_left.contents(),
                    s.bottom_right.contents(),
                    (tag, rect),
                );
                let sa = if spec_intersects(s.top_left.rect, q) {
                    s.top_left.nearby_seq(q)
                } else {
                    Seq::empty()
                };
                let sb = if spec_intersects(s.top_right.rect, q) {
                    s.top_right.nearby_seq(q)
                } else {
                    Seq::empty()
                };
                let sc = if spec_intersects(s.bottom_left.rect, q) {
                    s.bottom_left.nearby_seq(q)
                } else {
                    Seq::empty()
                };
                let sd = if spec_intersects(s.bottom_right.rect, q) {
                    s.bottom_right.nearby_seq(q)
                } else {
                    Seq::empty()
                };
                if s.top_left.contents().contains((tag, rect)) {
                    s.top_left.lemma_covering_query_finds(q, tag, rect);
                } else if s.top_right.contents().contains((tag, rect)) {
                    s.top_right.lemma_covering_query_finds(q, tag, rect);
                } else if s.bottom_left.contents().contains((tag, rect)) {
                    s.bottom_left.lemma_covering_query_finds(q, tag, rect);
                } else {
                    s.bottom_right.lemma_covering_query_finds(q, tag, rect);
                }
                lemma_concat4_contains_intro(sa, sb, sc, sd, tag);
                assert(self.nearby_seq(q) == sa + sb + sc + sd);
            },
        }
    }

    /// Straddling-item law: an item filed in a branch whose rectangle
    /// spans both of the branch's split lines is returned by the query of
    /// every one of the four quadrants.
    pub proof fn lemma_straddling_item_in_quadrant_queries(self, tag: T, rect: Rect)
        requires
            self.inv(),
            self.is_branch(),
            self.indexed(tag, rect),
            rect_wf(rect),
            rect.top_left.x <= mid_x(self.bounds()) <= rect.bottom_right.x,
            rect.top_left.y <= mid_y(self.bounds()) <= rect.bottom_right.y,
        ensures
            self.nearby_seq(quad_top_left(self.bounds())).contains(tag),
            self.nearby_seq(quad_top_right(self.bounds())).contains(tag),
            self.nearby_seq(quad_bottom_left(self.bounds())).contains(tag),
            self.nearby_seq(quad_bottom_right(self.bounds())).contains(tag),
    {
        lemma_quadrants_wf(self.rect);
        match self.items {
            Items::Split(s) => {
                assert(spec_intersects(s.top_left.rect, rect));
                assert(spec_intersects(s.top_right.rect, rect));
                assert(spec_intersects(s.bottom_left.rect, rect));
                assert(spec_intersects(s.bottom_right.rect, rect));
                s.top_left.lemma_indexed_in_contents(tag, rect);
                s.top_right.lemma_indexed_in_contents(tag, rect);
                s.bottom_left.lemma_indexed_in_contents(tag, rect);
                s.bottom_right.lemma_indexed_in_contents(tag, rect);
                self.lemma_one_quadrant_query(s.top_left, tag, rect);
                self.lemma_one_quadrant_query(s.top_right, tag, rect);
                self.lemma_one_quadrant_query(s.bottom_left, tag, rect);
                self.lemma_one_quadrant_query(s.bottom_right, tag, rect);
            },
            Items::Whole(_) => {},
        }
    }

    /// Helper for the straddling-item law: querying a branch with one
    /// child's own rectangle returns every item stored under that child.
    proof fn lemma_one_quadrant_query(self, child: QuadTree<T, N>, tag: T, rect: Rect)
        requires
            self.inv(),
            self.is_branch(),
            child == self.child_top_left() || child == self.child_top_right() || child
                == self.child_bottom_left() || child == self.child_bottom_right(),
            child.contents().contains((tag, rect)),
        ensures
            self.nearby_seq(child.bounds()).contains(tag),
    {
        lemma_quadrants_wf(self.rect);
        match self.items {
            Items::Split(s) => {
                let q = child.rect;
                child.lemma_covering_query_finds(q, tag, rect);
                let sa = if spec_intersects(s.top_left.rect, q) {
                    s.top_left.nearby_seq(q)
                } else {
                    Seq::empty()
                };
                let sb = if spec_intersects(s.top_right.rect, q) {
                    s.top_right.nearby_seq(q)
                } else {
                    Seq::empty()
                };
                let sc = if spec_intersects(s.bottom_left.rect, q) {
                    s.bottom_left.nearby_seq(q)
                } else {
                    Seq::empty()
                };
                let sd = if spec_intersects(s.bottom_right.rect, q) {
                    s.bottom_right.nearby_seq(q)
                } else {
                    Seq::empty()
                };
                lemma_concat4_contains_intro(sa, sb, sc, sd, tag);
                assert(self.nearby_seq(q) == sa + sb + sc + sd);
            },
            Items::Whole(_) => {},
        }
    }
}

impl<T: Copy, const N: usize> QuadTree<T, N> {
    /// Computes the shape's bounding rectangle and files the tagged item
    /// starting at this node. Insertion never fails: a leaf with room (or
    /// one too small to split) appends the item; a full splittable leaf
    /// becomes a branch, its items are redistributed into the four fresh
    /// quadrant children, and the new item follows the same path; a branch
    /// routes the item into every child whose quadrant its rectangle
    /// touches.
    ///
    /// The tree afterwards is exactly `model_insert` of the tree before:
    /// the item is filed into exactly the quadrants it overlaps, once
    /// each, and nothing else moves. An item whose rectangle touches this
    /// node's bounds becomes `indexed`: a later query over its own
    /// rectangle returns its tag. An item wholly outside the bounds is
    /// still accepted, but once the tree has split it overlaps no
    /// quadrant and the call leaves the tree unchanged: the silent-drop
    /// policy for out-of-bounds shapes.
    pub fn push_with_tag<R: ToRect>(&mut self, shape: &R, tag: T)
        requires
            old(self).inv(),
            rect_wf(shape.spec_rect()),
        ensures
            final(self).inv(),
            final(self).bounds() == old(self).bounds(),
            spec_intersects(old(self).bounds(), shape.spec_rect())
                ==> final(self).indexed(tag, shape.spec_rect()),
            forall|tg: T, r: Rect| #[trigger] old(self).indexed(tg, r)
                ==> final(self).indexed(tg, r),
            old(self).is_branch() ==> final(self).is_branch(),
            (!old(self).is_branch() && (old(self).contents().len() < N || !splittable(
                old(self).bounds(),
            ))) ==> (!final(self).is_branch() && final(self).contents() == old(
                self,
            ).contents().push((tag, shape.spec_rect()))),
            (!old(self).is_branch() && old(self).contents().len() >= N && splittable(
                old(self).bounds(),
            )) ==> final(self).is_branch(),
            forall|p: (T, Rect)| #[trigger] final(self).contents().contains(p)
                ==> old(self).contents().contains(p) || p == (tag, shape.spec_rect()),
            final(self).model() == model_insert::<T, N>(
                old(self).model(),
                tag,
                shape.spec_rect(),
            ),
            (old(self).is_branch() && !spec_intersects(old(self).bounds(), shape.spec_rect()))
                ==> *final(self) == *old(self),
    {
        let rect = shape.to_rect();
        let tagged_rect = TaggedRect { tag, rect };
        self.push_tagged(tagged_rect);
    }

    /// Files one tagged item at this node, splitting an overflowing leaf
    /// on the way.
    fn push_tagged(&mut self, tagged_rect: TaggedRect<T>)
        requires
            old(self).inv(),
            rect_wf(tagged_rect.rect),
        ensures
            final(self).inv(),
            final(self).rect == old(self).rect,
            spec_intersects(old(self).rect, tagged_rect.rect)
                ==> final(self).indexed(tagged_rect.tag, tagged_rect.rect),
            forall|tg: T, r: Rect| #[trigger] old(self).indexed(tg, r)
                ==> final(self).indexed(tg, r),
            old(self).is_branch() ==> final(self).is_branch(),
            (!old(self).is_branch() && (old(self).contents().len() < N || !splittable(
                old(self).rect,
            ))) ==> (!final(self).is_branch() && final(self).contents() == old(
                self,
            ).contents().push((tagged_rect.tag, tagged_rect.rect))),
            (!old(self).is_branch() && old(self).contents().len() >= N && splittable(
                old(self).rect,
            )) ==> final(self).is_branch(),
            forall|p: (T, Rect)| #[trigger] final(self).contents().contains(p)
                ==> old(self).contents().contains(p) || p == (tagged_rect.tag, tagged_rect.rect),
            final(self).model() == model_insert::<T, N>(
                old(self).model(),
                tagged_rect.tag,
                tagged_rect.rect,
            ),
            (old(self).is_branch() && !spec_intersects(old(self).rect, tagged_rect.rect))
                ==> *final(self) == *old(self),
        decreases rect_size(old(self).rect),
    {
        let rect = self.rect;
        let can = rect.can_split();
        let mut body: Items<T, N> = Items::Whole(Vec::new());
        core::mem::swap(&mut body, &mut self.items);
        match body {
            Items::Split(mut split_box) => {
                proof {
                    lemma_quadrant_size(rect);
                }
                let ghost pre_split = *split_box;
                (&mut *split_box).push_tagged(tagged_rect);
                let ghost done = *split_box;
                self.items = Items::Split(split_box);
                proof {
                    assert(self.contents() == split_contents(done));
                    assert(self.inv());
                    assert forall|tg: T, r: Rect| #[trigger] old(self).indexed(tg, r)
                        implies self.indexed(tg, r) by {
                        assert(split_holds(pre_split, tg, r));
                        assert(split_holds(done, tg, r));
                    }
                    assert forall|p: (T, Rect)| #[trigger] self.contents().contains(p)
                        implies old(self).contents().contains(p) || p == (
                        tagged_rect.tag,
                        tagged_rect.rect,
                    ) by {}
                    pre_split.top_left.lemma_model_rect();
                    pre_split.top_right.lemma_model_rect();
                    pre_split.bottom_left.lemma_model_rect();
                    pre_split.bottom_right.lemma_model_rect();
                    assert(self.model() == model_insert::<T, N>(
                        old(self).model(),
                        tagged_rect.tag,
                        tagged_rect.rect,
                    ));
                    if !spec_intersects(rect, tagged_rect.rect) {
                        lemma_quadrants_wf(rect);
                        assert(!spec_intersects(pre_split.top_left.rect, tagged_rect.rect)) by {
                            if spec_intersects(pre_split.top_left.rect, tagged_rect.rect) {
                                lemma_contained_intersects(
                                    rect,
                                    pre_split.top_left.rect,
                                    tagged_rect.rect,
                                );
                            }
                        }
                        assert(!spec_intersects(pre_split.top_right.rect, tagged_rect.rect)) by {
                            if spec_intersects(pre_split.top_right.rect, tagged_rect.rect) {
                                lemma_contained_intersects(
                                    rect,
                                    pre_split.top_right.rect,
                                    tagged_rect.rect,
                                );
                            }
                        }
                        assert(!spec_intersects(pre_split.bottom_left.rect, tagged_rect.rect)) by {
                            if spec_intersects(pre_split.bottom_left.rect, tagged_rect.rect) {
                                lemma_contained_intersects(
                                    rect,
                                    pre_split.bottom_left.rect,
                                    tagged_rect.rect,
                                );
                            }
                        }
                        assert(!spec_intersects(pre_split.bottom_right.rect, tagged_rect.rect))
                            by {
                            if spec_intersects(pre_split.bottom_right.rect, tagged_rect.rect) {
                                lemma_contained_intersects(
                                    rect,
                                    pre_split.bottom_right.rect,
                                    tagged_rect.rect,
                                );
                            }
                        }
                        assert(done == pre_split);
                        assert(*self == *old(self));
                    }
                }
            },
            Items::Whole(mut items) => {
                if items.len() < N || !can {
                    let ghost orig = items@;
                    items.push(tagged_rect);
                    self.items = Items::Whole(items);
                    proof {
                        assert(self.contents() =~= old(self).contents().push(
                            (tagged_rect.tag, tagged_rect.rect),
                        ));
                        assert forall|tg: T, r: Rect| #[trigger] old(self).indexed(tg, r)
                            implies self.indexed(tg, r) by {
                            let j = choose|j: int|
                                0 <= j < orig.len() && orig[j] == (TaggedRect {
                                    tag: tg,
                                    rect: r,
                                });
                            assert(orig.push(tagged_rect)[j] == (TaggedRect { tag: tg, rect: r }));
                        }
                        assert(orig.push(tagged_rect)[orig.len() as int] == tagged_rect);
                        assert(orig.push(tagged_rect).contains(tagged_rect));
                        assert(self.inv());
                        assert forall|p: (T, Rect)| #[trigger] self.contents().contains(p)
                            implies old(self).contents().contains(p) || p == (
                            tagged_rect.tag,
                            tagged_rect.rect,
                        ) by {
                            let j = choose|j: int|
                                0 <= j < self.contents().len() && self.contents()[j] == p;
                            if j < orig.len() {
                                assert(old(self).contents()[j] == p);
                            }
                        }
                        assert(self.model() == model_insert::<T, N>(
                            old(self).model(),
                            tagged_rect.tag,
                            tagged_rect.rect,
                        ));
                    }
                } else {
                    let ghost orig = items@;
                    let mut split: Split<T, N> = rect.split();
                    let mut i: usize = 0;
                    while i < items.len()
                        invariant
                            i <= items@.len(),
                            items@ == orig,
                            rect == old(self).rect,
                            rect_wf(rect),
                            splittable(rect),
                            forall|j: int|
                                0 <= j < orig.len() ==> rect_wf((#[trigger] orig[j]).rect),
                            split.top_left.rect == quad_top_left(rect),
                            split.top_right.rect == quad_top_right(rect),
                            split.bottom_left.rect == quad_bottom_left(rect),
                            split.bottom_right.rect == quad_bottom_right(rect),
                            split_inv(split),
                            forall|j: int|
                                0 <= j < i ==> split_holds(
                                    split,
                                    (#[trigger] orig[j]).tag,
                                    orig[j].rect,
                                ),
                            forall|p: (T, Rect)| #[trigger] split_contents(split).contains(p)
                                ==> exists|j: int|
                                    0 <= j < i && p == ((#[trigger] orig[j]).tag, orig[j].rect),
                            split.top_left.model() == model_fill::<T, N>(
                                quad_top_left(rect),
                                pairs_of(orig),
                                i as int,
                            ),
                            split.top_right.model() == model_fill::<T, N>(
                                quad_top_right(rect),
                                pairs_of(orig),
                                i as int,
                            ),
                            split.bottom_left.model() == model_fill::<T, N>(
                                quad_bottom_left(rect),
                                pairs_of(orig),
                                i as int,
                            ),
                            split.bottom_right.model() == model_fill::<T, N>(
                                quad_bottom_right(rect),
                                pairs_of(orig),
                                i as int,
                            ),
                        decreases items@.len() - i,
                    {
                        proof {
                            lemma_quadrant_size(rect);
                            split.top_left.lemma_model_rect();
                            split.top_right.lemma_model_rect();
                            split.bottom_left.lemma_model_rect();
                            split.bottom_right.lemma_model_rect();
                            assert(pairs_of(orig)[i as int] == (
                                orig[i as int].tag,
                                orig[i as int].rect,
                            ));
                        }
                        let ghost step_pre = split;
                        split.push_tagged(items[i]);
                        proof {
                            assert(split.top_left.model() == model_fill::<T, N>(
                                quad_top_left(rect),
                                pairs_of(orig),
                                i + 1,
                            ));
                            assert(split.top_right.model() == model_fill::<T, N>(
                                quad_top_right(rect),
                                pairs_of(orig),
                                i + 1,
                            ));
                            assert(split.bottom_left.model() == model_fill::<T, N>(
                                quad_bottom_left(rect),
                                pairs_of(orig),
                                i + 1,
                            ));
                            assert(split.bottom_right.model() == model_fill::<T, N>(
                                quad_bottom_right(rect),
                                pairs_of(orig),
                                i + 1,
                            ));
                        }
                        i += 1;
                    }
                    let ghost all_pairs = pairs_of(orig).push((tagged_rect.tag, tagged_rect.rect));
                    proof {
                        lemma_quadrant_size(rect);
                        split.top_left.lemma_model_rect();
                        split.top_right.lemma_model_rect();
                        split.bottom_left.lemma_model_rect();
                        split.bottom_right.lemma_model_rect();
                        lemma_model_fill_prefix::<T, N>(
                            quad_top_left(rect),
                            all_pairs,
                            pairs_of(orig),
                            orig.len() as int,
                        );
                        lemma_model_fill_prefix::<T, N>(
                            quad_top_right(rect),
                            all_pairs,
                            pairs_of(orig),
                            orig.len() as int,
                        );
                        lemma_model_fill_prefix::<T, N>(
                            quad_bottom_left(rect),
                            all_pairs,
                            pairs_of(orig),
                            orig.len() as int,
                        );
                        lemma_model_fill_prefix::<T, N>(
                            quad_bottom_right(rect),
                            all_pairs,
                            pairs_of(orig),
                            orig.len() as int,
                        );
                        assert(all_pairs[orig.len() as int] == (tagged_rect.tag, tagged_rect.rect));
                    }
                    let ghost before_last = split;
                    split.push_tagged(tagged_rect);
                    let ghost done = split;
                    self.items = Items::Split(Box::new(split));
                    proof {
                        assert(self.contents() == split_contents(done));
                        assert(self.inv());
                        assert forall|tg: T, r: Rect| #[trigger] old(self).indexed(tg, r)
                            implies self.indexed(tg, r) by {
                            let j = choose|j: int|
                                0 <= j < orig.len() && orig[j] == (TaggedRect {
                                    tag: tg,
                                    rect: r,
                                });
                            assert(split_holds(before_last, orig[j].tag, orig[j].rect));
                            assert(split_holds(done, tg, r));
                        }
                        assert forall|p: (T, Rect)| #[trigger] self.contents().contains(p)
                            implies old(self).contents().contains(p) || p == (
                            tagged_rect.tag,
                            tagged_rect.rect,
                        ) by {
                            if p != (tagged_rect.tag, tagged_rect.rect) {
                                assert(split_contents(before_last).contains(p));
                                let j = choose|j: int|
                                    0 <= j < orig.len() && p == ((#[trigger] orig[j]).tag,
                                    orig[j].rect,
                                );
                                assert(old(self).contents()[j] == p);
                            }
                        }
                        assert(done.top_left.model() == model_fill::<T, N>(
                            quad_top_left(rect),
                            all_pairs,
                            orig.len() as int + 1,
                        ));
                        assert(done.top_right.model() == model_fill::<T, N>(
                            quad_top_right(rect),
                            all_pairs,
                            orig.len() as int + 1,
                        ));
                        assert(done.bottom_left.model() == model_fill::<T, N>(
                            quad_bottom_left(rect),
                            all_pairs,
                            orig.len() as int + 1,
                        ));
                        assert(done.bottom_right.model() == model_fill::<T, N>(
                            quad_bottom_right(rect),
                            all_pairs,
                            orig.len() as int + 1,
                        ));
                        assert(self.model() == model_insert::<T, N>(
                            old(self).model(),
                            tagged_rect.tag,
                            tagged_rect.rect,
                        ));
                    }
                }
            },
        }
    }

    /// Returns the tags of every stored item that a walk from this node
    /// can reach while staying inside regions touching the query shape's
    /// bounding rectangle. The result is a fresh collection, computed
    /// anew on every call and in a fixed traversal order, so the same
    /// query on an unchanged tree returns the same sequence. It is a
    /// conservative candidate set: leaf items are not filtered against
    /// the query individually.
    pub fn nearby<R: ToRect>(&self, shape: &R) -> (out: Vec<T>)
        requires
            self.inv(),
            rect_wf(shape.spec_rect()),
        ensures
            out@ == self.nearby_seq(shape.spec_rect()),
        decreases self,
    {
        match &self.items {
            Items::Whole(items) => {
                let mut out: Vec<T> = Vec::new();
                let mut i: usize = 0;
                while i < items.len()
                    invariant
                        i <= items@.len(),
                        out@ == items@.take(i as int).map_values(|it: TaggedRect<T>| it.tag),
                    decreases items@.len() - i,
                {
                    out.push(items[i].tag);
                    proof {
                        assert(items@.take(i + 1 as int)
                            =~= items@.take(i as int).push(items@[i as int]));
                        assert(items@.take(i + 1 as int).map_values(
                            |it: TaggedRect<T>| it.tag,
                        ) =~= items@.take(i as int).map_values(
                            |it: TaggedRect<T>| it.tag,
                        ).push(items@[i as int].tag));
                    }
                    i += 1;
                }
                proof {
                    assert(items@.take(items@.len() as int) =~= items@);
                }
                out
            },
            Items::Split(split) => split.nearby(&shape.to_rect()),
        }
    }
}

impl<T: Copy, const N: usize> Split<T, N> {
    /// Files one tagged item into every child whose quadrant rectangle
    /// the item's rectangle touches: one to four children, independently.
    /// Correctness of queries requires the item to be reachable from
    /// every leaf region it touches, at the cost of bounded duplication.
    #[verifier::rlimit(50)]
    fn push_tagged(&mut self, tagged_rect: TaggedRect<T>)
        requires
            split_inv(*old(self)),
            rect_wf(tagged_rect.rect),
        ensures
            split_inv(*final(self)),
            final(self).top_left.rect == old(self).top_left.rect,
            final(self).top_right.rect == old(self).top_right.rect,
            final(self).bottom_left.rect == old(self).bottom_left.rect,
            final(self).bottom_right.rect == old(self).bottom_right.rect,
            !spec_intersects(old(self).top_left.rect, tagged_rect.rect)
                ==> final(self).top_left == old(self).top_left,
            !spec_intersects(old(self).top_right.rect, tagged_rect.rect)
                ==> final(self).top_right == old(self).top_right,
            !spec_intersects(old(self).bottom_left.rect, tagged_rect.rect)
                ==> final(self).bottom_left == old(self).bottom_left,
            !spec_intersects(old(self).bottom_right.rect, tagged_rect.rect)
                ==> final(self).bottom_right == old(self).bottom_right,
            spec_intersects(old(self).top_left.rect, tagged_rect.rect)
                ==> final(self).top_left.model() == model_insert::<T, N>(
                old(self).top_left.model(),
                tagged_rect.tag,
                tagged_rect.rect,
            ),
            spec_intersects(old(self).top_right.rect, tagged_rect.rect)
                ==> final(self).top_right.model() == model_insert::<T, N>(
                old(self).top_right.model(),
                tagged_rect.tag,
                tagged_rect.rect,
            ),
            spec_intersects(old(self).bottom_left.rect, tagged_rect.rect)
                ==> final(self).bottom_left.model() == model_insert::<T, N>(
                old(self).bottom_left.model(),
                tagged_rect.tag,
                tagged_rect.rect,
            ),
            spec_intersects(old(self).bottom_right.rect, tagged_rect.rect)
                ==> final(self).bottom_right.model() == model_insert::<T, N>(
                old(self).bottom_right.model(),
                tagged_rect.tag,
                tagged_rect.rect,
            ),
            split_holds(*final(self), tagged_rect.tag, tagged_rect.rect),
            forall|tg: T, r: Rect| #[trigger] split_holds(*old(self), tg, r)
                ==> split_holds(*final(self), tg, r),
            forall|p: (T, Rect)| #[trigger] split_contents(*final(self)).contains(p)
                ==> split_contents(*old(self)).contains(p) || p == (
                tagged_rect.tag,
                tagged_rect.rect,
            ),
        decreases split_measure(*old(self)),
    {
        let (tl, tr, bl, br) = self.intersecting_quadrants(&tagged_rect.rect);
        if tl {
            self.top_left.push_tagged(tagged_rect);
        }
        if tr {
            self.top_right.push_tagged(tagged_rect);
        }
        if bl {
            self.bottom_left.push_tagged(tagged_rect);
        }
        if br {
            self.bottom_right.push_tagged(tagged_rect);
        }
        proof {
            assert forall|tg: T, r: Rect| #[trigger] split_holds(*old(self), tg, r)
                implies split_holds(*self, tg, r) by {
                if spec_intersects(self.top_left.rect, r) {
                    assert(old(self).top_left.indexed(tg, r));
                    assert(self.top_left.indexed(tg, r));
                }
                if spec_intersects(self.top_right.rect, r) {
                    assert(old(self).top_right.indexed(tg, r));
                    assert(self.top_right.indexed(tg, r));
                }
                if spec_intersects(self.bottom_left.rect, r) {
                    assert(old(self).bottom_left.indexed(tg, r));
                    assert(self.bottom_left.indexed(tg, r));
                }
                if spec_intersects(self.bottom_right.rect, r) {
                    assert(old(self).bottom_right.indexed(tg, r));
                    assert(self.bottom_right.indexed(tg, r));
                }
            }
            assert forall|p: (T, Rect)| #[trigger] split_contents(*self).contains(p)
                implies split_contents(*old(self)).contains(p) || p == (
                tagged_rect.tag,
                tagged_rect.rect,
            ) by {
                lemma_concat4_contains(
                    self.top_left.contents(),
                    self.top_right.contents(),
                    self.bottom_left.contents(),
                    self.bottom_right.contents(),
                    p,
                );
                if split_contents(*old(self)).contains(p) || p == (
                    tagged_rect.tag,
                    tagged_rect.rect,
                ) {
                } else {
                    let a = old(self).top_left.contents();
                    let b = old(self).top_right.contents();
                    let c = old(self).bottom_left.contents();
                    let d = old(self).bottom_right.contents();
                    if a.contains(p) {
                        let j = choose|j: int| 0 <= j < a.len() && a[j] == p;
                        assert(split_contents(*old(self))[j] == p);
                    } else if b.contains(p) {
                        let j = choose|j: int| 0 <= j < b.len() && b[j] == p;
                        assert(split_contents(*old(self))[a.len() + j] == p);
                    } else if c.contains(p) {
                        let j = choose|j: int| 0 <= j < c.len() && c[j] == p;
                        assert(split_contents(*old(self))[a.len() + b.len() + j] == p);
                    } else if d.contains(p) {
                        let j = choose|j: int| 0 <= j < d.len() && d[j] == p;
                        assert(split_contents(*old(self))[a.len() + b.len() + c.len() + j] == p);
                    }
                }
            }
        }
    }

    /// Tests the query rectangle against each child's rectangle
    /// independently and reports, per quadrant, whether the child region
    /// touches it. One to four quadrants can match; a rectangle
    /// straddling the exact center matches all four.
    fn intersecting_quadrants(&self, rect: &Rect) -> (q: (bool, bool, bool, bool))
        requires
            split_inv(*self),
            rect_wf(*rect),
        ensures
            q.0 == spec_intersects(self.top_left.rect, *rect),
            q.1 == spec_intersects(self.top_right.rect, *rect),
            q.2 == spec_intersects(self.bottom_left.rect, *rect),
            q.3 == spec_intersects(self.bottom_right.rect, *rect),
    {
        (
            self.top_left.rect.intersects(rect),
            self.top_right.rect.intersects(rect),
            self.bottom_left.rect.intersects(rect),
            self.bottom_right.rect.intersects(rect),
        )
    }

    /// Collects the query results of every child whose rectangle touches
    /// the query rectangle, in child order.
    fn nearby(&self, rect: &Rect) -> (out: Vec<T>)
        requires
            split_inv(*self),
            rect_wf(*rect),
        ensures
            out@ == split_nearby_seq(*self, *rect),
        decreases self,
    {
        let (tl, tr, bl, br) = self.intersecting_quadrants(rect);

        let mut out: Vec<T> = Vec::new();

        if tl {
            let mut part = self.top_left.nearby(rect);
            out.append(&mut part);
        }
        if tr {
            let mut part = self.top_right.nearby(rect);
            out.append(&mut part);
        }
        if bl {
            let mut part = self.bottom_left.nearby(rect);
            out.append(&mut part);
        }
        if br {
            let mut part = self.bottom_right.nearby(rect);
            out.append(&mut part);
        }
        proof {
            assert(out@ =~= split_nearby_seq(*self, *rect));
        }
        out
    }
}

} // verus!
