//! Binary split tree describing how panes tile the window.
//!
//! The tree is stored in an arena (`Vec<Entry>`), so that nodes refer to each
//! other by index. A `Leaf` holds a pane; a `Split` holds two children, the
//! axis they are arranged on and the ratio of space given to the first child.
//!
//! What a tree stands for is a [`Layout`]: the contracts of [`Tree`] say how
//! each operation changes it.

pub use crate::geometry::{Divider, DIVIDER};
pub use crate::navigation::neighbor;

use crate::geometry::{given_by, tiled, Cuts, Marks, Rect, Span};
use crate::scalar::Scalar;
use crate::shape::{
    joined, lemma_around, lemma_attach_wf, lemma_close_wf, lemma_copied, lemma_find,
    lemma_pool_rest, lemma_with_ratio_slots, lemma_without_slots, Layout, Pool, Shape,
};
use vstd::pervasive::unreached;
use vstd::prelude::*;

verus! {

pub type PaneId = u64;

/// The ratio of a fresh split: one half.
pub const HALF: u32 = 0x3F00_0000;

/// The smallest ratio a split can be given: 0.05.
pub const MIN_RATIO: u32 = 0x3D4C_CCCD;

/// The largest ratio a split can be given: 0.95.
pub const MAX_RATIO: u32 = 0x3F73_3333;

/// How a split arranges its two children.
#[derive(Clone, Copy, PartialEq, Eq, Structural, Debug)]
pub enum Axis {
    /// Children sit side by side (left | right). The divider is vertical and
    /// drags along X. Produced by "split right" (Cmd+D).
    Horizontal,
    /// Children stack (top / bottom). The divider is horizontal and drags
    /// along Y. Produced by "split down" (Cmd+Shift+D).
    Vertical,
}

/// Cardinal direction for pane-to-pane navigation.
#[derive(Clone, Copy, PartialEq, Eq, Structural, Debug)]
pub enum Dir {
    Left,
    Right,
    Up,
    Down,
}

#[derive(Clone, Copy)]
enum Node {
    Leaf { pane: PaneId },
    Split { axis: Axis, ratio: Scalar, a: usize, b: usize },
}

#[derive(Clone, Copy)]
struct Entry {
    node: Node,
    parent: Option<usize>,
}

impl Node {
    /// Whether this is a split with the given axis, ratio and children.
    spec fn is_split(self, axis: Axis, ratio: Scalar, a: int, b: int) -> bool {
        self matches Node::Split { axis: x, ratio: r, a: i, b: j } && x == axis && r == ratio && i
            == a && j == b
    }
}

impl Entry {
    /// Whether this entry hangs under the node `parent`, or is a root.
    spec fn parent_is(self, parent: Option<int>) -> bool {
        match parent {
            None => self.parent is None,
            Some(p) => self.parent matches Some(i) && i == p,
        }
    }
}

/// A tree of panes in an arena.
pub struct Tree {
    nodes: Vec<Entry>,
    root: usize,
    free: Vec<usize>,
    shape: Ghost<Shape>,
}

/// Whether the arena `nodes` holds the tree `shape`, under the node `parent`.
spec fn holds(nodes: Seq<Entry>, parent: Option<int>, shape: Shape) -> bool
    decreases shape,
{
    &&& 0 <= shape.slot() < nodes.len()
    &&& nodes[shape.slot()].parent_is(parent)
    &&& match shape {
        Shape::Leaf { slot, pane } => nodes[slot].node == (Node::Leaf { pane }),
        Shape::Split { slot, axis, ratio, a, b } => {
            &&& nodes[slot].node.is_split(axis, ratio, a.slot(), b.slot())
            &&& holds(nodes, Some(slot), *a)
            &&& holds(nodes, Some(slot), *b)
        },
    }
}

/// The pool that an arena of `slots` entries with the free list `free` stands for.
spec fn pool_of(free: Seq<usize>, slots: nat) -> Pool {
    Pool { free: free.map_values(|i: usize| i as int), slots }
}

/// What holds of a tree keeps holding while no entry that it occupies changes.
proof fn lemma_holds_frame(before: Seq<Entry>, after: Seq<Entry>, parent: Option<int>, shape: Shape)
    requires
        holds(before, parent, shape),
        forall|i: int|
            #[trigger] shape.owns(i) ==> 0 <= i < after.len() && after[i] == before[i],
    ensures
        holds(after, parent, shape),
    decreases shape,
{
    assert(shape.owns(shape.slot()));
    if let Shape::Split { slot, a, b, .. } = shape {
        assert forall|i: int| #[trigger] a.owns(i) implies 0 <= i < after.len() && after[i]
            == before[i] by {
            assert(shape.owns(i));
        }
        assert forall|i: int| #[trigger] b.owns(i) implies 0 <= i < after.len() && after[i]
            == before[i] by {
            assert(shape.owns(i));
        }
        lemma_holds_frame(before, after, Some(slot), *a);
        lemma_holds_frame(before, after, Some(slot), *b);
    }
}

/// Trees that an arena holds stay in it while only available slots are written.
proof fn lemma_holds_spared(before: Seq<Entry>, after: Seq<Entry>, pool: Pool)
    requires
        before.len() <= after.len(),
        forall|j: int|
            0 <= j < before.len() && !pool.offers(j) ==> after[j] == #[trigger] before[j],
    ensures
        forall|up: Option<int>, kept: Shape|
            holds(before, up, kept) && pool.spares(kept) ==> #[trigger] holds(after, up, kept),
{
    assert forall|up: Option<int>, kept: Shape|
        holds(before, up, kept) && pool.spares(kept) implies #[trigger] holds(after, up, kept) by {
        assert forall|i: int| #[trigger] kept.owns(i) implies 0 <= i < after.len() && after[i]
            == before[i] by {
            lemma_owned_in_range(before, up, kept, i);
        }
        lemma_holds_frame(before, after, up, kept);
    }
}

/// Every slot that a tree occupies lies in the arena.
proof fn lemma_owned_in_range(nodes: Seq<Entry>, parent: Option<int>, shape: Shape, i: int)
    requires
        holds(nodes, parent, shape),
        shape.owns(i),
    ensures
        0 <= i < nodes.len(),
    decreases shape,
{
    if let Shape::Split { slot, a, b, .. } = shape {
        if a.owns(i) {
            lemma_owned_in_range(nodes, Some(slot), *a, i);
        } else if b.owns(i) {
            lemma_owned_in_range(nodes, Some(slot), *b, i);
        }
    }
}

/// Where the first leaf that holds `pane` hangs, in a tree under `parent`.
spec fn parent_of(parent: Option<int>, shape: Shape, pane: PaneId) -> Option<int> {
    match shape.around(pane) {
        None => parent,
        Some((p, _)) => Some(p),
    }
}

/// The first leaf that holds a pane hangs under the smallest split around it.
proof fn lemma_leaf_parent(nodes: Seq<Entry>, parent: Option<int>, shape: Shape, pane: PaneId)
    requires
        holds(nodes, parent, shape),
        shape.has(pane),
    ensures
        nodes[shape.find(pane).unwrap()].parent_is(parent_of(parent, shape, pane)),
    decreases shape,
{
    if let Shape::Split { slot, a, b, .. } = shape {
        lemma_around(*a, pane);
        lemma_around(*b, pane);
        if a.has(pane) {
            lemma_leaf_parent(nodes, Some(slot), *a, pane);
        } else {
            lemma_leaf_parent(nodes, Some(slot), *b, pane);
        }
    }
}

/// A tree is held after a graft if what is grafted is held in the slot of the
/// leaf that it replaces, and nothing else in the tree has changed.
proof fn lemma_holds_graft(
    before: Seq<Entry>,
    after: Seq<Entry>,
    parent: Option<int>,
    shape: Shape,
    pane: PaneId,
    sub: Shape,
)
    requires
        holds(before, parent, shape),
        shape.distinct(),
        shape.has(pane),
        shape.find(pane) == Some(sub.slot()),
        holds(after, parent_of(parent, shape, pane), sub),
        forall|i: int|
            #[trigger] shape.owns(i) && i != sub.slot() ==> 0 <= i < after.len() && after[i]
                == before[i],
    ensures
        holds(after, parent, shape.graft(pane, sub)),
        shape.graft(pane, sub).slot() == shape.slot(),
    decreases shape,
{
    if let Shape::Split { slot, a, b, .. } = shape {
        lemma_find(shape, pane);
        lemma_find(*a, pane);
        lemma_find(*b, pane);
        lemma_around(*a, pane);
        lemma_around(*b, pane);
        assert(shape.owns(slot));
        assert forall|i: int| #[trigger] a.owns(i) && i != sub.slot() implies 0 <= i < after.len()
            && after[i] == before[i] by {
            assert(shape.owns(i));
        }
        assert forall|i: int| #[trigger] b.owns(i) && i != sub.slot() implies 0 <= i < after.len()
            && after[i] == before[i] by {
            assert(shape.owns(i));
        }
        if a.has(pane) {
            lemma_holds_graft(before, after, Some(slot), *a, pane, sub);
            lemma_holds_frame(before, after, Some(slot), *b);
        } else {
            lemma_holds_graft(before, after, Some(slot), *b, pane, sub);
            lemma_holds_frame(before, after, Some(slot), *a);
        }
    }
}

/// A node that points to `new` where it pointed to `old_child`.
spec fn redirected(node: Node, old_child: int, new: int) -> Node {
    match node {
        Node::Leaf { .. } => node,
        Node::Split { axis, ratio, a, b } => if a == old_child {
            Node::Split { axis, ratio, a: new as usize, b }
        } else if b == old_child {
            Node::Split { axis, ratio, a, b: new as usize }
        } else {
            node
        },
    }
}

/// How the arena holds the leaf of a pane, the split around it and the child
/// beside it.
proof fn lemma_around_nodes(nodes: Seq<Entry>, parent: Option<int>, shape: Shape, pane: PaneId)
    requires
        holds(nodes, parent, shape),
        shape.distinct(),
        shape.around(pane) is Some,
    ensures
        ({
            let leaf = shape.find(pane).unwrap();
            let (p, sibling) = shape.around(pane).unwrap();
            &&& holds(nodes, Some(p), sibling)
            &&& nodes[p].node matches Node::Split { a, b, .. } && {
                ||| a == leaf && b == sibling.slot()
                ||| a != leaf && a == sibling.slot() && b == leaf
            }
            &&& p == shape.slot() ==> nodes[p].parent_is(parent)
            &&& p != shape.slot() ==> (nodes[p].parent matches Some(g) && shape.owns(g as int)
                && g != p && g != sibling.slot() && g != leaf)
        }),
    decreases shape,
{
    lemma_without_slots(shape, pane);
    if let Shape::Split { slot, a, b, .. } = shape {
        lemma_around(*a, pane);
        lemma_around(*b, pane);
        assert(a.owns(a.slot()));
        assert(b.owns(b.slot()));
        if a.has(pane) {
            if *a is Split {
                lemma_without_slots(*a, pane);
                lemma_around_nodes(nodes, Some(slot), *a, pane);
            }
        } else if *b is Split {
            lemma_without_slots(*b, pane);
            lemma_around_nodes(nodes, Some(slot), *b, pane);
        }
    }
}

/// A tree hangs under another node once its root says so.
proof fn lemma_holds_moved(
    before: Seq<Entry>,
    after: Seq<Entry>,
    from: Option<int>,
    to: Option<int>,
    shape: Shape,
)
    requires
        holds(before, from, shape),
        shape.distinct(),
        0 <= shape.slot() < after.len(),
        after[shape.slot()].node == before[shape.slot()].node,
        after[shape.slot()].parent_is(to),
        forall|i: int|
            #[trigger] shape.owns(i) && i != shape.slot() ==> 0 <= i < after.len() && after[i]
                == before[i],
    ensures
        holds(after, to, shape),
{
    if let Shape::Split { slot, a, b, .. } = shape {
        assert forall|i: int| #[trigger] a.owns(i) implies 0 <= i < after.len() && after[i]
            == before[i] by {
            assert(shape.owns(i));
        }
        assert forall|i: int| #[trigger] b.owns(i) implies 0 <= i < after.len() && after[i]
            == before[i] by {
            assert(shape.owns(i));
        }
        lemma_holds_frame(before, after, Some(slot), *a);
        lemma_holds_frame(before, after, Some(slot), *b);
    }
}

/// A tree is held without a pane once the child beside it has taken the place
/// of the split around it.
proof fn lemma_holds_without(
    before: Seq<Entry>,
    after: Seq<Entry>,
    parent: Option<int>,
    shape: Shape,
    pane: PaneId,
)
    requires
        holds(before, parent, shape),
        shape.distinct(),
        shape.around(pane) is Some,
        parent matches Some(x) ==> !shape.owns(x),
        before.len() == after.len(),
        before.len() <= usize::MAX,
        ({
            let leaf = shape.find(pane).unwrap();
            let (p, sibling) = shape.around(pane).unwrap();
            let s = sibling.slot();
            &&& after[s].node == before[s].node
            &&& after[s].parent == before[p].parent
            &&& p != shape.slot() ==> {
                let g = before[p].parent.unwrap() as int;
                after[g] == (Entry {
                    node: redirected(before[g].node, p, s),
                    parent: before[g].parent,
                })
            }
            &&& forall|i: int|
                #[trigger] shape.owns(i) && i != leaf && i != p && i != s && !(before[p].parent
                    matches Some(g) && g == i) ==> after[i] == before[i]
        }),
    ensures
        holds(after, parent, shape.without(pane)),
    decreases shape,
{
    let leaf = shape.find(pane).unwrap();
    let (p, sibling) = shape.around(pane).unwrap();
    let s = sibling.slot();
    lemma_without_slots(shape, pane);
    lemma_around_nodes(before, parent, shape, pane);
    assert forall|i: int| #[trigger] shape.owns(i) implies 0 <= i < after.len() by {
        lemma_owned_in_range(before, parent, shape, i);
    }
    if let Shape::Split { slot, a, b, .. } = shape {
        assert(shape.owns(slot));
        lemma_around(*a, pane);
        lemma_around(*b, pane);
        assert(a.owns(a.slot()));
        assert(b.owns(b.slot()));
        let (near, far) = if a.has(pane) {
            (*a, *b)
        } else {
            (*b, *a)
        };
        assert forall|i: int| #[trigger] near.owns(i) implies shape.owns(i) && !far.owns(i) by {
            assert(a.owns(i) || b.owns(i));
        }
        assert forall|i: int| #[trigger] far.owns(i) implies shape.owns(i) by {}
        if near is Leaf {
            lemma_holds_moved(before, after, Some(slot), parent, far);
        } else {
            lemma_around_nodes(before, Some(slot), near, pane);
            lemma_without_slots(near, pane);
            assert(near.owns(p));
            assert(near.owns(leaf));
            assert(near.owns(s));
            lemma_holds_without(before, after, Some(slot), near, pane);
            assert forall|i: int| #[trigger] far.owns(i) implies 0 <= i < after.len() && after[i]
                == before[i] by {
                assert(shape.owns(i));
            }
            lemma_holds_frame(before, after, Some(slot), far);
        }
    }
}

/// A tree is held with a new ratio once the entry of that split carries it.
proof fn lemma_holds_with_ratio(
    before: Seq<Entry>,
    after: Seq<Entry>,
    parent: Option<int>,
    shape: Shape,
    node: int,
    value: Scalar,
)
    requires
        holds(before, parent, shape),
        shape.distinct(),
        before.len() == after.len(),
        0 <= node < before.len(),
        after[node].parent == before[node].parent,
        match before[node].node {
            Node::Leaf { .. } => after[node].node == before[node].node,
            Node::Split { axis, a, b, .. } => after[node].node == (Node::Split {
                axis,
                ratio: value,
                a,
                b,
            }),
        },
        forall|i: int| 0 <= i < before.len() && i != node ==> #[trigger] after[i] == before[i],
    ensures
        holds(after, parent, shape.with_ratio(node, value)),
    decreases shape,
{
    if let Shape::Split { slot, a, b, .. } = shape {
        lemma_holds_with_ratio(before, after, Some(slot), *a, node, value);
        lemma_holds_with_ratio(before, after, Some(slot), *b, node, value);
        lemma_with_ratio_slots(*a, node, value);
        lemma_with_ratio_slots(*b, node, value);
    }
}

impl View for Tree {
    type V = Layout;

    closed spec fn view(&self) -> Layout {
        Layout { shape: self.shape@, pool: pool_of(self.free@, self.nodes@.len()) }
    }
}

impl Tree {
    /// The arena holds the tree, and each of its slots is either in use or free.
    pub closed spec fn wf(&self) -> bool {
        &&& self@.wf()
        &&& self.root == self.shape@.slot()
        &&& holds(self.nodes@, None, self.shape@)
    }

    /// No slot of the arena is lost, and none is used twice: each holds one node of
    /// the tree, or is free.
    pub proof fn law_no_slot_is_lost(&self)
        requires
            self.wf(),
        ensures
            self@.wf(),
            self@.pool.slots <= usize::MAX,
            forall|i: int| #[trigger] self@.shape.owns(i) ==> 0 <= i < self@.pool.slots,
    {
        assert(self.nodes@.len() == self.nodes.len());
    }

    /// A fresh tree containing a single full-window pane.
    pub fn new(root_pane: PaneId) -> (tree: Self)
        ensures
            tree.wf(),
            tree@ == Layout::single(root_pane),
    {
        let tree = Self {
            nodes: vec![Entry { node: Node::Leaf { pane: root_pane }, parent: None }],
            root: 0,
            free: Vec::new(),
            shape: Ghost(Shape::Leaf { slot: 0, pane: root_pane }),
        };
        assert(tree@.pool.free =~= Seq::empty());
        tree
    }

    fn find_leaf(&self, pane: PaneId) -> (leaf: Option<usize>)
        requires
            self.wf(),
        ensures
            leaf is Some <==> self@.shape.has(pane),
            leaf matches Some(i) ==> self@.shape.find(pane) == Some(i as int),
    {
        self.find_leaf_from(self.root, pane, Ghost(None), Ghost(self.shape@))
    }

    /// Search only the nodes reachable from `idx`, so that slots which are free
    /// can never produce a false match.
    fn find_leaf_from(
        &self,
        idx: usize,
        pane: PaneId,
        Ghost(parent): Ghost<Option<int>>,
        Ghost(shape): Ghost<Shape>,
    ) -> (leaf: Option<usize>)
        requires
            holds(self.nodes@, parent, shape),
            idx == shape.slot(),
        ensures
            leaf is Some <==> shape.has(pane),
            leaf matches Some(i) ==> shape.find(pane) == Some(i as int),
        decreases shape,
    {
        match self.nodes[idx].node {
            Node::Leaf { pane: p } => if p == pane {
                Some(idx)
            } else {
                None
            },
            Node::Split { a, b, .. } => {
                let ghost (sa, sb) = (*shape->a, *shape->b);
                match self.find_leaf_from(a, pane, Ghost(Some(idx as int)), Ghost(sa)) {
                    Some(leaf) => Some(leaf),
                    None => self.find_leaf_from(b, pane, Ghost(Some(idx as int)), Ghost(sb)),
                }
            },
        }
    }

    /// Whether this tree (tab) currently holds the given pane.
    pub fn contains(&self, pane: PaneId) -> (r: bool)
        requires
            self.wf(),
        ensures
            r == self@.shape.has(pane),
    {
        self.find_leaf(pane).is_some()
    }

    fn allot(&mut self, node: Node, parent: Option<usize>) -> (i: usize)
        requires
            old(self).pool().wf(),
        ensures
            i == old(self).pool().next(),
            final(self).pool() == old(self).pool().rest(),
            i < final(self).nodes@.len(),
            final(self).nodes@[i as int] == (Entry { node, parent }),
            old(self).nodes@.len() <= final(self).nodes@.len(),
            forall|j: int|
                0 <= j < old(self).nodes@.len() && j != i ==> final(self).nodes@[j]
                    == #[trigger] old(self).nodes@[j],
            final(self).root == old(self).root,
            final(self).shape == old(self).shape,
    {
        let ghost before = self.pool();
        if let Some(i) = self.free.pop() {
            assert(before.free.last() == i);
            assert(self.pool().free =~= before.free.drop_last());
            self.nodes[i] = Entry { node, parent };
            i
        } else {
            self.nodes.push(Entry { node, parent });
            self.nodes.len() - 1
        }
    }

    /// The slots that are free for new nodes.
    spec fn pool(&self) -> Pool {
        pool_of(self.free@, self.nodes@.len())
    }

    /// Recursively copy the subtree rooted at `src_idx` in `src` into this
    /// arena, returning the new root index. Pane ids are globally unique, so
    /// they carry over unchanged: only structural indices are remapped. What the
    /// arena held before, it still holds.
    fn import_from(
        &mut self,
        src: &Tree,
        src_idx: usize,
        parent: Option<usize>,
        Ghost(src_parent): Ghost<Option<int>>,
        Ghost(shape): Ghost<Shape>,
    ) -> (root: usize)
        requires
            old(self).pool().wf(),
            holds(src.nodes@, src_parent, shape),
            src_idx == shape.slot(),
        ensures
            final(self).pool() == shape.copied(old(self).pool()).1,
            root == shape.copied(old(self).pool()).0.slot(),
            holds(
                final(self).nodes@,
                match parent {
                    Some(p) => Some(p as int),
                    None => None,
                },
                shape.copied(old(self).pool()).0,
            ),
            old(self).nodes@.len() <= final(self).nodes@.len(),
            forall|j: int|
                0 <= j < old(self).nodes@.len() && !old(self).pool().offers(j)
                    ==> final(self).nodes@[j] == #[trigger] old(self).nodes@[j],
            forall|up: Option<int>, kept: Shape|
                holds(old(self).nodes@, up, kept) && old(self).pool().spares(kept)
                    ==> #[trigger] holds(final(self).nodes@, up, kept),
            final(self).root == old(self).root,
            final(self).shape == old(self).shape,
        decreases shape,
    {
        let ghost before = self.pool();
        proof {
            lemma_pool_rest(before);
        }
        match src.nodes[src_idx].node {
            Node::Leaf { pane } => {
                let new = self.allot(Node::Leaf { pane }, parent);
                proof {
                    lemma_holds_spared(old(self).nodes@, self.nodes@, before);
                }
                new
            },
            Node::Split { axis, ratio, a, b } => {
                let ghost (sa, sb) = (*shape->a, *shape->b);
                let new = self.allot(Node::Split { axis, ratio, a: 0, b: 0 }, parent);
                let ghost nodes_0 = self.nodes@;
                let ghost pool_0 = self.pool();
                let ghost from = Some(src_idx as int);
                let na = self.import_from(src, a, Some(new), Ghost(from), Ghost(sa));
                let ghost nodes_1 = self.nodes@;
                let ghost pool_1 = self.pool();
                proof {
                    lemma_copied(sa, pool_0);
                    lemma_copied(sb, pool_1);
                }
                let nb = self.import_from(src, b, Some(new), Ghost(from), Ghost(sb));
                let ghost nodes_2 = self.nodes@;
                self.nodes[new] = Entry { node: Node::Split { axis, ratio, a: na, b: nb }, parent };
                proof {
                    let ca = sa.copied(pool_0).0;
                    let cb = sb.copied(pool_1).0;
                    let up = Some(new as int);
                    assert forall|i: int| #[trigger] ca.owns(i) implies 0 <= i < nodes_2.len()
                        && self.nodes@[i] == nodes_1[i] by {
                        lemma_owned_in_range(nodes_1, up, ca, i);
                        assert(!pool_1.offers(i));
                        assert(pool_0.offers(i));
                    }
                    lemma_holds_frame(nodes_1, self.nodes@, up, ca);
                    assert forall|i: int| #[trigger] cb.owns(i) implies 0 <= i < nodes_2.len()
                        && self.nodes@[i] == nodes_2[i] by {
                        lemma_owned_in_range(nodes_2, up, cb, i);
                        assert(pool_1.offers(i));
                        assert(pool_0.offers(i));
                    }
                    lemma_holds_frame(nodes_2, self.nodes@, up, cb);
                    assert forall|j: int|
                        0 <= j < old(self).nodes@.len() && !before.offers(j) implies self.nodes@[j]
                        == #[trigger] old(self).nodes@[j] by {
                        assert(!pool_0.offers(j));
                        assert(!pool_1.offers(j));
                        assert(nodes_0[j] == old(self).nodes@[j]);
                        assert(nodes_1[j] == nodes_0[j]);
                    }
                    lemma_holds_spared(old(self).nodes@, self.nodes@, before);
                }
                new
            },
        }
    }

    /// Split the pane `target` into two, inserting `new_pane`. `new_after`
    /// places the new pane to the right/below (true) or left/above (false).
    pub fn split(&mut self, target: PaneId, new_pane: PaneId, axis: Axis, new_after: bool)
        requires
            old(self).wf(),
        ensures
            final(self).wf(),
            final(self)@ == old(self)@.split(target, new_pane, axis, new_after),
    {
        proof {
            lemma_find(self.shape@, target);
        }
        let leaf = match self.find_leaf(target) {
            Some(leaf) => leaf,
            None => {
                return;
            },
        };
        let ghost pool_0 = self.pool();
        proof {
            lemma_pool_rest(pool_0);
            lemma_pool_rest(pool_0.rest());
        }
        // The existing pane moves into a fresh leaf; the old slot becomes a split.
        let kept = self.allot(Node::Leaf { pane: target }, Some(leaf));
        let fresh = self.allot(Node::Leaf { pane: new_pane }, Some(leaf));
        self.join_at(
            target,
            leaf,
            kept,
            fresh,
            axis,
            new_after,
            Ghost(*old(self)),
            Ghost(Shape::Leaf { slot: 0, pane: new_pane }),
        );
    }

    /// Splice another tree's entire layout next to `target`, splitting along
    /// `axis`. `new_after` puts the imported panes to the right/below. Used to
    /// merge a dragged tab into this tab as new panes.
    pub fn attach_subtree(
        &mut self,
        target: PaneId,
        src: &Tree,
        axis: Axis,
        new_after: bool,
    ) -> (attached: bool)
        requires
            old(self).wf(),
            src.wf(),
        ensures
            final(self).wf(),
            attached == old(self)@.shape.has(target),
            final(self)@ == old(self)@.attach(target, src@.shape, axis, new_after),
    {
        proof {
            lemma_find(self.shape@, target);
        }
        let leaf = match self.find_leaf(target) {
            Some(leaf) => leaf,
            None => {
                return false;
            },
        };
        let ghost pool_0 = self.pool();
        proof {
            lemma_pool_rest(pool_0);
        }
        let kept = self.allot(Node::Leaf { pane: target }, Some(leaf));
        let imported = self.import_from(src, src.root, Some(leaf), Ghost(None), Ghost(src.shape@));
        self.join_at(
            target,
            leaf,
            kept,
            imported,
            axis,
            new_after,
            Ghost(*old(self)),
            Ghost(src.shape@),
        );
        true
    }

    /// Turn the slot `leaf` into an even split between `kept`, which has taken
    /// over its pane, and the tree at `other`.
    fn join_at(
        &mut self,
        target: PaneId,
        leaf: usize,
        kept: usize,
        other: usize,
        axis: Axis,
        new_after: bool,
        Ghost(before): Ghost<Tree>,
        Ghost(src): Ghost<Shape>,
    )
        requires
            before.wf(),
            before@.shape.find(target) == Some(leaf as int),
            kept == before.pool().next(),
            old(self).root == before.root,
            old(self).shape == before.shape,
            old(self).pool() == src.copied(before.pool().rest()).1,
            other == src.copied(before.pool().rest()).0.slot(),
            kept < old(self).nodes@.len(),
            old(self).nodes@[kept as int] == (Entry {
                node: Node::Leaf { pane: target },
                parent: Some(leaf),
            }),
            holds(
                old(self).nodes@,
                Some(leaf as int),
                src.copied(before.pool().rest()).0,
            ),
            before.nodes@.len() <= old(self).nodes@.len(),
            forall|j: int|
                0 <= j < before.nodes@.len() && !before.pool().offers(j) ==> old(self).nodes@[j]
                    == #[trigger] before.nodes@[j],
        ensures
            final(self).wf(),
            final(self)@ == before@.attach(target, src, axis, new_after),
    {
        let ghost nodes_1 = self.nodes@;
        let ghost shape = self.shape@;
        let ghost kept_shape = Shape::Leaf { slot: kept as int, pane: target };
        let ghost copy = src.copied(before.pool().rest()).0;
        let ghost up = Some(leaf as int);
        proof {
            lemma_find(shape, target);
            lemma_leaf_parent(before.nodes@, None, shape, target);
            lemma_owned_in_range(before.nodes@, None, shape, leaf as int);
            lemma_pool_rest(before.pool());
            lemma_copied(src, before.pool().rest());
            assert(shape.owns(leaf as int));
            assert(!before.pool().offers(leaf as int));
            assert(!before.pool().rest().offers(leaf as int));
        }
        let (a, b) = if new_after {
            (kept, other)
        } else {
            (other, kept)
        };
        let parent = self.nodes[leaf].parent;
        self.nodes[leaf] = Entry {
            node: Node::Split { axis, ratio: Scalar { bits: HALF }, a, b },
            parent,
        };
        proof {
            let sub = joined(leaf as int, axis, Scalar { bits: HALF }, kept_shape, copy, new_after);
            assert forall|i: int| #[trigger] copy.owns(i) implies 0 <= i < self.nodes@.len()
                && self.nodes@[i] == nodes_1[i] by {
                lemma_owned_in_range(nodes_1, up, copy, i);
                assert(before.pool().rest().offers(i));
            }
            lemma_holds_frame(nodes_1, self.nodes@, up, copy);
            assert(holds(self.nodes@, up, kept_shape));
            assert(holds(self.nodes@, parent_of(None, shape, target), sub));
            assert forall|i: int| #[trigger] shape.owns(i) && i != leaf implies 0 <= i
                < self.nodes@.len() && self.nodes@[i] == before.nodes@[i] by {
                lemma_owned_in_range(before.nodes@, None, shape, i);
                assert(!before.pool().offers(i));
            }
            lemma_holds_graft(before.nodes@, self.nodes@, None, shape, target, sub);
            lemma_attach_wf(before@, target, src, axis, new_after);
            self.shape@ = shape.graft(target, sub);
        }
    }

    /// Remove `pane`, collapsing its parent split into the surviving sibling.
    /// Returns `true` if a pane was removed; `false` if it was the last pane.
    pub fn close(&mut self, pane: PaneId) -> (removed: bool)
        requires
            old(self).wf(),
        ensures
            final(self).wf(),
            removed == (old(self)@.shape.has(pane) && old(self)@.shape is Split),
            final(self)@ == old(self)@.close(pane),
    {
        let ghost shape = self.shape@;
        proof {
            lemma_find(shape, pane);
            lemma_around(shape, pane);
        }
        let leaf = match self.find_leaf(pane) {
            Some(leaf) => leaf,
            None => {
                return false;
            },
        };
        proof {
            lemma_leaf_parent(self.nodes@, None, shape, pane);
            lemma_owned_in_range(self.nodes@, None, shape, leaf as int);
        }
        let parent = match self.nodes[leaf].parent {
            Some(parent) => parent,
            // Closing the root leaf: nothing left to tile.
            None => {
                return false;
            },
        };
        let ghost before = self.nodes@;
        let ghost sibling_shape = shape.around(pane).unwrap().1;
        proof {
            lemma_around_nodes(before, None, shape, pane);
            lemma_without_slots(shape, pane);
            lemma_owned_in_range(before, None, shape, parent as int);
            lemma_owned_in_range(before, None, shape, sibling_shape.slot());
        }
        let sibling = match self.nodes[parent].node {
            Node::Split { a, b, .. } => if a == leaf {
                b
            } else {
                a
            },
            Node::Leaf { .. } => unreached(),
        };
        let grandparent = self.nodes[parent].parent;
        self.nodes[sibling] = Entry { node: self.nodes[sibling].node, parent: grandparent };
        match grandparent {
            None => {
                self.root = sibling;
            },
            Some(gp) => {
                proof {
                    lemma_owned_in_range(before, None, shape, gp as int);
                }
                let entry = self.nodes[gp];
                if let Node::Split { axis, ratio, a, b } = entry.node {
                    if a == parent {
                        self.nodes[gp] = Entry {
                            node: Node::Split { axis, ratio, a: sibling, b },
                            parent: entry.parent,
                        };
                    } else if b == parent {
                        self.nodes[gp] = Entry {
                            node: Node::Split { axis, ratio, a, b: sibling },
                            parent: entry.parent,
                        };
                    }
                }
            },
        }
        self.free.push(leaf);
        self.free.push(parent);
        proof {
            assert(self.nodes.len() == before.len());
            lemma_holds_without(before, self.nodes@, None, shape, pane);
            lemma_close_wf(old(self)@, pane);
            self.shape@ = shape.without(pane);
            assert(self@.pool.free =~= old(self)@.close(pane).pool.free);
        }
        true
    }

    /// Update a split's ratio (clamped to keep both panes usable).
    pub fn set_ratio(&mut self, node: usize, ratio: Scalar)
        requires
            old(self).wf(),
        ensures
            final(self).wf(),
            final(self)@ == old(self)@.with_ratio(
                node as int,
                ratio.clamped(Scalar { bits: MIN_RATIO }, Scalar { bits: MAX_RATIO }),
            ),
    {
        let value = ratio.clamp(Scalar { bits: MIN_RATIO }, Scalar { bits: MAX_RATIO });
        let ghost shape = self.shape@;
        proof {
            lemma_with_ratio_slots(shape, node as int, value);
        }
        if node < self.nodes.len() {
            let entry = self.nodes[node];
            if let Node::Split { axis, a, b, .. } = entry.node {
                self.nodes[node] = Entry {
                    node: Node::Split { axis, ratio: value, a, b },
                    parent: entry.parent,
                };
            }
            proof {
                lemma_holds_with_ratio(
                    old(self).nodes@,
                    self.nodes@,
                    None,
                    shape,
                    node as int,
                    value,
                );
                self.shape@ = shape.with_ratio(node as int, value);
                assert forall|i: int| #[trigger] self@.shape.owns(i) <==> 0 <= i
                    && !self@.pool.offers(i) by {
                    assert(shape.owns(i) <==> 0 <= i && !old(self)@.pool.offers(i));
                }
            }
        } else {
            proof {
                if shape.owns(node as int) {
                    lemma_owned_in_range(self.nodes@, None, shape, node as int);
                }
            }
        }
    }

    /// The first pane in the tree: a safe fallback focus target.
    pub fn first_pane(&self) -> (pane: PaneId)
        requires
            self.wf(),
        ensures
            pane == self@.shape.first_pane(),
    {
        self.first_leaf(self.root, Ghost(None), Ghost(self.shape@))
    }

    /// Panes in stable tree order (top/left child first): the order used for
    /// indexed focus switching.
    pub fn panes_in_order(&self) -> (panes: Vec<PaneId>)
        requires
            self.wf(),
        ensures
            panes@ == self@.shape.panes(),
    {
        let mut out = Vec::new();
        self.collect_panes(self.root, &mut out, Ghost(None), Ghost(self.shape@));
        assert(out@ =~= self.shape@.panes());
        out
    }

    fn collect_panes(
        &self,
        idx: usize,
        out: &mut Vec<PaneId>,
        Ghost(parent): Ghost<Option<int>>,
        Ghost(shape): Ghost<Shape>,
    )
        requires
            holds(self.nodes@, parent, shape),
            idx == shape.slot(),
        ensures
            final(out)@ == old(out)@ + shape.panes(),
        decreases shape,
    {
        match self.nodes[idx].node {
            Node::Leaf { pane } => {
                out.push(pane);
            },
            Node::Split { a, b, .. } => {
                let ghost (sa, sb) = (*shape->a, *shape->b);
                self.collect_panes(a, out, Ghost(Some(idx as int)), Ghost(sa));
                self.collect_panes(b, out, Ghost(Some(idx as int)), Ghost(sb));
            },
        }
    }

    /// First pane reachable from a node (depth-first, first child).
    fn first_leaf(
        &self,
        idx: usize,
        Ghost(parent): Ghost<Option<int>>,
        Ghost(shape): Ghost<Shape>,
    ) -> (pane: PaneId)
        requires
            holds(self.nodes@, parent, shape),
            idx == shape.slot(),
        ensures
            pane == shape.first_pane(),
        decreases shape,
    {
        match self.nodes[idx].node {
            Node::Leaf { pane } => pane,
            Node::Split { a, .. } => self.first_leaf(
                a,
                Ghost(Some(idx as int)),
                Ghost(*shape->a),
            ),
        }
    }

    /// A sensible pane to focus after `pane` is closed: the sibling subtree's
    /// first leaf, which keeps focus local to the closed split.
    pub fn focus_after_close(&self, pane: PaneId) -> (next: Option<PaneId>)
        requires
            self.wf(),
        ensures
            next == self@.focus_after_close(pane),
    {
        let ghost shape = self.shape@;
        proof {
            lemma_find(shape, pane);
            lemma_around(shape, pane);
        }
        let leaf = match self.find_leaf(pane) {
            Some(leaf) => leaf,
            None => {
                return None;
            },
        };
        proof {
            lemma_leaf_parent(self.nodes@, None, shape, pane);
            lemma_owned_in_range(self.nodes@, None, shape, leaf as int);
        }
        let parent = match self.nodes[leaf].parent {
            Some(parent) => parent,
            None => {
                return None;
            },
        };
        proof {
            lemma_around_nodes(self.nodes@, None, shape, pane);
            lemma_owned_in_range(self.nodes@, None, shape, parent as int);
        }
        let sibling = match self.nodes[parent].node {
            Node::Split { a, b, .. } => if a == leaf {
                b
            } else {
                a
            },
            Node::Leaf { .. } => {
                return None;
            },
        };
        Some(
            self.first_leaf(
                sibling,
                Ghost(Some(parent as int)),
                Ghost(shape.around(pane).unwrap().1),
            ),
        )
    }

    /// Compute on-screen rects for every pane and divider within `area`.
    /// `mark` does the arithmetic of one split: see [`Marks`].
    pub fn geometry<M: Fn(Span, Span, Scalar) -> Marks>(&self, area: Rect, mark: &M) -> (tiles: (
        Vec<(PaneId, Rect)>,
        Vec<Divider>,
    ))
        requires
            self.wf(),
            forall|along: Span, across: Span, ratio: Scalar|
                call_requires(*mark, (along, across, ratio)),
        ensures
            tiled(*mark, self@.shape, area, tiles.0@, tiles.1@),
    {
        let mut leaves: Vec<(PaneId, Rect)> = Vec::new();
        let mut dividers: Vec<Divider> = Vec::new();
        let ghost shape = self.shape@;
        let cuts = self.layout_into(
            self.root,
            area,
            &mut leaves,
            &mut dividers,
            mark,
            Ghost(None),
            Ghost(shape),
        );
        proof {
            assert(leaves@ =~= cuts@.panes(shape, area));
            assert(dividers@ =~= cuts@.dividers(shape, area));
        }
        (leaves, dividers)
    }

    fn layout_into<M: Fn(Span, Span, Scalar) -> Marks>(
        &self,
        idx: usize,
        rect: Rect,
        leaves: &mut Vec<(PaneId, Rect)>,
        dividers: &mut Vec<Divider>,
        mark: &M,
        Ghost(parent): Ghost<Option<int>>,
        Ghost(shape): Ghost<Shape>,
    ) -> (cuts: Ghost<Cuts>)
        requires
            holds(self.nodes@, parent, shape),
            idx == shape.slot(),
            forall|along: Span, across: Span, ratio: Scalar|
                call_requires(*mark, (along, across, ratio)),
        ensures
            cuts@.made_by(given_by(*mark), shape, rect),
            final(leaves)@ == old(leaves)@ + cuts@.panes(shape, rect),
            final(dividers)@ == old(dividers)@ + cuts@.dividers(shape, rect),
        decreases shape,
    {
        match self.nodes[idx].node {
            Node::Leaf { pane } => {
                leaves.push((pane, rect));
                proof {
                    assert(dividers@ =~= old(dividers)@ + Seq::<Divider>::empty());
                }
                Ghost(Cuts::Whole)
            },
            Node::Split { axis, ratio, a, b } => {
                let ghost (sa, sb) = (*shape->a, *shape->b);
                let marks = mark(rect.along(axis), rect.across(axis), ratio);
                let (a_rect, div_rect, b_rect) = rect.divide(axis, marks);
                let avail = marks.avail;
                dividers.push(Divider { node: idx, axis, rect: div_rect, ratio, avail });
                let ca = self.layout_into(
                    a,
                    a_rect,
                    leaves,
                    dividers,
                    mark,
                    Ghost(Some(idx as int)),
                    Ghost(sa),
                );
                let cb = self.layout_into(
                    b,
                    b_rect,
                    leaves,
                    dividers,
                    mark,
                    Ghost(Some(idx as int)),
                    Ghost(sb),
                );
                let ghost cuts = Cuts::Cut { marks, a: Box::new(ca@), b: Box::new(cb@) };
                proof {
                    assert(leaves@ =~= old(leaves)@ + cuts.panes(shape, rect));
                    assert(dividers@ =~= old(dividers)@ + cuts.dividers(shape, rect));
                }
                Ghost(cuts)
            },
        }
    }
}

} // verus!
