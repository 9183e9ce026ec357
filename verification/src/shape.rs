//! The mathematical model of a pane layout.
//!
//! A layout is a binary tree whose leaves hold panes. Every node occupies one
//! slot of an arena; the slots that no node occupies wait in a [`Pool`].

use crate::layout::{Axis, PaneId, HALF};
use crate::scalar::Scalar;
use vstd::prelude::*;

verus! {

/// A tree of panes. `slot` is the arena index of a node.
pub enum Shape {
    Leaf { slot: int, pane: PaneId },
    Split { slot: int, axis: Axis, ratio: Scalar, a: Box<Shape>, b: Box<Shape> },
}

/// The arena slots that are not in use: those given back, the latest last, and
/// all from `slots` on, which the arena has not reached yet.
#[verifier::ext_equal]
pub struct Pool {
    pub free: Seq<int>,
    pub slots: nat,
}

/// A tree together with the slots that are left for it to grow into.
#[verifier::ext_equal]
pub struct Layout {
    pub shape: Shape,
    pub pool: Pool,
}

impl Pool {
    /// The slots given back are slots of the arena, each given back once.
    pub open spec fn wf(self) -> bool {
        &&& self.free.no_duplicates()
        &&& forall|k: int| 0 <= k < self.free.len() ==> 0 <= #[trigger] self.free[k] < self.slots
    }

    /// Whether slot `i` is available.
    pub open spec fn offers(self, i: int) -> bool {
        self.free.contains(i) || self.slots <= i
    }

    /// Whether no slot that `shape` occupies is available.
    pub open spec fn spares(self, shape: Shape) -> bool {
        forall|i: int| #[trigger] shape.owns(i) ==> !self.offers(i)
    }

    /// The slot that is handed out next: the one given back last, or a new one.
    pub open spec fn next(self) -> int {
        if self.free.len() > 0 {
            self.free.last()
        } else {
            self.slots as int
        }
    }

    /// What is left once the next slot is handed out.
    pub open spec fn rest(self) -> Pool {
        if self.free.len() > 0 {
            Pool { free: self.free.drop_last(), slots: self.slots }
        } else {
            Pool { free: self.free, slots: self.slots + 1 }
        }
    }

    /// The pool after slot `i` is given back.
    pub open spec fn give_back(self, i: int) -> Pool {
        Pool { free: self.free.push(i), slots: self.slots }
    }
}

impl Shape {
    /// The slot of the root.
    pub open spec fn slot(self) -> int {
        match self {
            Shape::Leaf { slot, .. } => slot,
            Shape::Split { slot, .. } => slot,
        }
    }

    /// The panes in tree order, first child first.
    pub open spec fn panes(self) -> Seq<PaneId>
        decreases self,
    {
        match self {
            Shape::Leaf { pane, .. } => seq![pane],
            Shape::Split { a, b, .. } => a.panes() + b.panes(),
        }
    }

    /// Whether some leaf holds `pane`.
    pub open spec fn has(self, pane: PaneId) -> bool
        decreases self,
    {
        match self {
            Shape::Leaf { pane: p, .. } => p == pane,
            Shape::Split { a, b, .. } => a.has(pane) || b.has(pane),
        }
    }

    /// Whether some node occupies slot `i`.
    pub open spec fn owns(self, i: int) -> bool
        decreases self,
    {
        match self {
            Shape::Leaf { slot, .. } => slot == i,
            Shape::Split { slot, a, b, .. } => slot == i || a.owns(i) || b.owns(i),
        }
    }

    /// Whether no two nodes share a slot.
    pub open spec fn distinct(self) -> bool
        decreases self,
    {
        match self {
            Shape::Leaf { .. } => true,
            Shape::Split { slot, a, b, .. } => {
                &&& a.distinct()
                &&& b.distinct()
                &&& !a.owns(slot)
                &&& !b.owns(slot)
                &&& forall|i: int| !(#[trigger] a.owns(i) && b.owns(i))
            },
        }
    }

    /// The slot of the first leaf, in tree order, that holds `pane`.
    pub open spec fn find(self, pane: PaneId) -> Option<int>
        decreases self,
    {
        match self {
            Shape::Leaf { slot, pane: p } => if p == pane {
                Some(slot)
            } else {
                None
            },
            Shape::Split { a, b, .. } => if a.has(pane) {
                a.find(pane)
            } else {
                b.find(pane)
            },
        }
    }

    /// The pane of the first leaf.
    pub open spec fn first_pane(self) -> PaneId
        decreases self,
    {
        match self {
            Shape::Leaf { pane, .. } => pane,
            Shape::Split { a, .. } => a.first_pane(),
        }
    }

    /// The tree with `sub` in place of the first leaf that holds `pane`.
    pub open spec fn graft(self, pane: PaneId, sub: Shape) -> Shape
        decreases self,
    {
        match self {
            Shape::Leaf { pane: p, .. } => if p == pane {
                sub
            } else {
                self
            },
            Shape::Split { slot, axis, ratio, a, b } => if a.has(pane) {
                Shape::Split { slot, axis, ratio, a: Box::new(a.graft(pane, sub)), b }
            } else {
                Shape::Split { slot, axis, ratio, a, b: Box::new(b.graft(pane, sub)) }
            },
        }
    }

    /// The smallest split around the first leaf that holds `pane`: its slot, and
    /// the child beside that leaf. `None` where the root is that leaf, or where
    /// there is none.
    pub open spec fn around(self, pane: PaneId) -> Option<(int, Shape)>
        decreases self,
    {
        match self {
            Shape::Leaf { .. } => None,
            Shape::Split { slot, a, b, .. } => if a.has(pane) {
                if *a is Leaf {
                    Some((slot, *b))
                } else {
                    a.around(pane)
                }
            } else if b.has(pane) {
                if *b is Leaf {
                    Some((slot, *a))
                } else {
                    b.around(pane)
                }
            } else {
                None
            },
        }
    }

    /// The tree without the first leaf that holds `pane`: the split around that
    /// leaf gives way to the child beside it. A lone leaf stays.
    pub open spec fn without(self, pane: PaneId) -> Shape
        decreases self,
    {
        match self {
            Shape::Leaf { .. } => self,
            Shape::Split { slot, axis, ratio, a, b } => if a.has(pane) {
                if *a is Leaf {
                    *b
                } else {
                    Shape::Split { slot, axis, ratio, a: Box::new(a.without(pane)), b }
                }
            } else if b.has(pane) {
                if *b is Leaf {
                    *a
                } else {
                    Shape::Split { slot, axis, ratio, a, b: Box::new(b.without(pane)) }
                }
            } else {
                self
            },
        }
    }

    /// The tree with the ratio of the split in slot `node` replaced.
    pub open spec fn with_ratio(self, node: int, value: Scalar) -> Shape
        decreases self,
    {
        match self {
            Shape::Leaf { .. } => self,
            Shape::Split { slot, axis, ratio, a, b } => Shape::Split {
                slot,
                axis,
                ratio: if slot == node {
                    value
                } else {
                    ratio
                },
                a: Box::new(a.with_ratio(node, value)),
                b: Box::new(b.with_ratio(node, value)),
            },
        }
    }

    /// A copy of the tree in slots drawn from `pool`, a split before its
    /// children and the first child before the second, with what the pool
    /// then has left.
    pub open spec fn copied(self, pool: Pool) -> (Shape, Pool)
        decreases self,
    {
        match self {
            Shape::Leaf { pane, .. } => (Shape::Leaf { slot: pool.next(), pane }, pool.rest()),
            Shape::Split { axis, ratio, a, b, .. } => {
                let (na, pool_a) = a.copied(pool.rest());
                let (nb, pool_b) = b.copied(pool_a);
                (
                    Shape::Split {
                        slot: pool.next(),
                        axis,
                        ratio,
                        a: Box::new(na),
                        b: Box::new(nb),
                    },
                    pool_b,
                )
            },
        }
    }
}

/// A split of `first` and `second`, which come in this order or in the other.
pub open spec fn joined(
    slot: int,
    axis: Axis,
    ratio: Scalar,
    first: Shape,
    second: Shape,
    in_order: bool,
) -> Shape {
    if in_order {
        Shape::Split { slot, axis, ratio, a: Box::new(first), b: Box::new(second) }
    } else {
        Shape::Split { slot, axis, ratio, a: Box::new(second), b: Box::new(first) }
    }
}

impl Layout {
    /// No two nodes share a slot, and a slot is in use exactly when the pool
    /// does not offer it: none is lost.
    pub open spec fn wf(self) -> bool {
        &&& self.pool.wf()
        &&& self.shape.distinct()
        &&& forall|i: int| #[trigger] self.shape.owns(i) <==> 0 <= i && !self.pool.offers(i)
    }

    /// The layout of a single pane.
    pub open spec fn single(pane: PaneId) -> Layout {
        Layout {
            shape: Shape::Leaf { slot: 0, pane },
            pool: Pool { free: Seq::empty(), slots: 1 },
        }
    }

    /// The layout once the leaf of `target` has become an even split between
    /// `target` and the tree `other`, the latter second if `after`.
    pub open spec fn attach(self, target: PaneId, other: Shape, axis: Axis, after: bool) -> Layout {
        match self.shape.find(target) {
            None => self,
            Some(leaf) => {
                let kept = Shape::Leaf { slot: self.pool.next(), pane: target };
                let (copy, pool) = other.copied(self.pool.rest());
                Layout {
                    shape: self.shape.graft(
                        target,
                        joined(leaf, axis, Scalar { bits: HALF }, kept, copy, after),
                    ),
                    pool,
                }
            },
        }
    }

    /// The layout once the leaf of `target` has become an even split between
    /// `target` and `pane`, the latter second if `after`.
    pub open spec fn split(self, target: PaneId, pane: PaneId, axis: Axis, after: bool) -> Layout {
        self.attach(target, Shape::Leaf { slot: 0, pane }, axis, after)
    }

    /// The layout without the first leaf of `pane`. Nothing changes where that
    /// leaf is the whole tree, or where there is none.
    pub open spec fn close(self, pane: PaneId) -> Layout {
        match self.shape.around(pane) {
            None => self,
            Some((parent, _)) => Layout {
                shape: self.shape.without(pane),
                pool: self.pool.give_back(self.shape.find(pane).unwrap()).give_back(parent),
            },
        }
    }

    /// The layout with the ratio of the split in slot `node` replaced.
    pub open spec fn with_ratio(self, node: int, value: Scalar) -> Layout {
        Layout { shape: self.shape.with_ratio(node, value), pool: self.pool }
    }

    /// The pane to turn to when `pane` is closed: the first one beside it.
    pub open spec fn focus_after_close(self, pane: PaneId) -> Option<PaneId> {
        match self.shape.around(pane) {
            None => None,
            Some((_, sibling)) => Some(sibling.first_pane()),
        }
    }
}

/// Handing out a slot takes that slot, and no other, from what a pool offers.
pub proof fn lemma_pool_rest(pool: Pool)
    requires
        pool.wf(),
    ensures
        pool.rest().wf(),
        0 <= pool.next(),
        pool.offers(pool.next()),
        forall|i: int|
            #[trigger] pool.rest().offers(i) <==> pool.offers(i) && i != pool.next(),
{
    if pool.free.len() > 0 {
        let rest = pool.free.drop_last();
        assert(pool.free.contains(pool.free[pool.free.len() - 1]));
        assert forall|i: int| #[trigger] pool.rest().offers(i) <==> pool.offers(i) && i
            != pool.next() by {
            if rest.contains(i) {
                let k = rest.index_of(i);
                assert(pool.free[k] == i);
            }
            if pool.free.contains(i) && i != pool.next() {
                let k = pool.free.index_of(i);
                assert(rest[k] == i);
            }
        }
    }
}

/// Giving back a slot that is in use makes a pool offer it too.
pub proof fn lemma_pool_give_back(pool: Pool, slot: int)
    requires
        pool.wf(),
        0 <= slot,
        !pool.offers(slot),
    ensures
        pool.give_back(slot).wf(),
        forall|i: int| #[trigger] pool.give_back(slot).offers(i) <==> pool.offers(i) || i == slot,
{
    let free = pool.free.push(slot);
    assert forall|i: int| #[trigger] pool.give_back(slot).offers(i) <==> pool.offers(i) || i
        == slot by {
        assert(free[free.len() - 1] == slot);
        if pool.free.contains(i) {
            let k = pool.free.index_of(i);
            assert(free[k] == i);
        }
    }
    assert forall|j: int, k: int|
        0 <= j < free.len() && 0 <= k < free.len() && j != k implies free[j] != free[k] by {
        if j < pool.free.len() {
            assert(pool.free.contains(pool.free[j]));
        }
        if k < pool.free.len() {
            assert(pool.free.contains(pool.free[k]));
        }
    }
}

/// A copy of a tree has the same panes, in distinct slots, which are just
/// those that the pool has lost.
pub proof fn lemma_copied(shape: Shape, pool: Pool)
    requires
        pool.wf(),
    ensures
        shape.copied(pool).1.wf(),
        shape.copied(pool).0.slot() == pool.next(),
        shape.copied(pool).0.distinct(),
        shape.copied(pool).0.panes() == shape.panes(),
        forall|p: PaneId| #[trigger] shape.copied(pool).0.has(p) == shape.has(p),
        forall|i: int| #[trigger] shape.copied(pool).1.offers(i) ==> pool.offers(i),
        forall|i: int|
            #[trigger] shape.copied(pool).0.owns(i) <==> pool.offers(i) && !shape.copied(
                pool,
            ).1.offers(i),
    decreases shape,
{
    lemma_pool_rest(pool);
    if let Shape::Split { a, b, .. } = shape {
        let (na, pool_a) = a.copied(pool.rest());
        let (nb, pool_b) = b.copied(pool_a);
        lemma_copied(*a, pool.rest());
        lemma_copied(*b, pool_a);
        let copy = shape.copied(pool).0;
        assert forall|i: int| #[trigger] copy.owns(i) <==> pool.offers(i) && !pool_b.offers(i) by {
            assert(na.owns(i) <==> pool.rest().offers(i) && !pool_a.offers(i));
            assert(nb.owns(i) <==> pool_a.offers(i) && !pool_b.offers(i));
        }
        assert forall|i: int| #[trigger] pool_b.offers(i) implies pool.offers(i) by {
            assert(pool_a.offers(i));
            assert(pool.rest().offers(i));
        }
        assert(!pool.rest().offers(pool.next()));
        assert(!pool_a.offers(pool.next()));
        assert forall|p: PaneId| #[trigger] copy.has(p) == shape.has(p) by {
            assert(na.has(p) == a.has(p));
            assert(nb.has(p) == b.has(p));
        }
    }
}

/// A tree finds a pane exactly where it has it.
pub proof fn lemma_find(shape: Shape, pane: PaneId)
    ensures
        shape.find(pane) is Some <==> shape.has(pane),
        shape.find(pane) is Some ==> shape.owns(shape.find(pane).unwrap()),
    decreases shape,
{
    if let Shape::Split { a, b, .. } = shape {
        lemma_find(*a, pane);
        lemma_find(*b, pane);
    }
}

/// There is a split around a pane unless the tree lacks it or is a lone leaf.
pub proof fn lemma_around(shape: Shape, pane: PaneId)
    ensures
        shape.around(pane) is Some <==> shape is Split && shape.has(pane),
        shape.around(pane) matches Some((parent, sibling)) ==> shape.owns(parent) && shape.owns(
            sibling.slot(),
        ),
    decreases shape,
{
    if let Shape::Split { a, b, .. } = shape {
        lemma_around(*a, pane);
        lemma_around(*b, pane);
        assert(a.owns(a.slot()));
        assert(b.owns(b.slot()));
    }
}

/// Grafting keeps the slots of a tree distinct and adds those of what is grafted.
pub proof fn lemma_graft_slots(shape: Shape, pane: PaneId, sub: Shape)
    requires
        shape.distinct(),
        sub.distinct(),
        shape.find(pane) == Some(sub.slot()),
        forall|i: int| #[trigger] shape.owns(i) && sub.owns(i) ==> i == sub.slot(),
    ensures
        shape.graft(pane, sub).distinct(),
        shape.graft(pane, sub).slot() == shape.slot(),
        forall|i: int|
            #[trigger] shape.graft(pane, sub).owns(i) <==> shape.owns(i) || sub.owns(i),
    decreases shape,
{
    lemma_find(shape, pane);
    assert(sub.owns(sub.slot()));
    if let Shape::Split { slot, a, b, .. } = shape {
        lemma_find(*a, pane);
        lemma_find(*b, pane);
        assert(shape.owns(slot));
        if a.has(pane) {
            assert forall|i: int| #[trigger] a.owns(i) && sub.owns(i) implies i == sub.slot() by {
                assert(shape.owns(i));
            }
            lemma_graft_slots(*a, pane, sub);
            let na = a.graft(pane, sub);
            assert forall|i: int| !(#[trigger] na.owns(i) && b.owns(i)) by {
                assert(shape.owns(i) || !b.owns(i));
            }
            assert forall|i: int|
                #[trigger] shape.graft(pane, sub).owns(i) <==> shape.owns(i) || sub.owns(i) by {
                assert(na.owns(i) <==> a.owns(i) || sub.owns(i));
            }
        } else {
            assert forall|i: int| #[trigger] b.owns(i) && sub.owns(i) implies i == sub.slot() by {
                assert(shape.owns(i));
            }
            lemma_graft_slots(*b, pane, sub);
            let nb = b.graft(pane, sub);
            assert forall|i: int| !(#[trigger] a.owns(i) && nb.owns(i)) by {
                assert(shape.owns(i) || !a.owns(i));
            }
            assert forall|i: int|
                #[trigger] shape.graft(pane, sub).owns(i) <==> shape.owns(i) || sub.owns(i) by {
                assert(nb.owns(i) <==> b.owns(i) || sub.owns(i));
            }
        }
    }
}

/// Attaching a tree beside a pane loses no slot and shares none.
pub proof fn lemma_attach_wf(layout: Layout, target: PaneId, other: Shape, axis: Axis, after: bool)
    requires
        layout.wf(),
    ensures
        layout.attach(target, other, axis, after).wf(),
{
    lemma_find(layout.shape, target);
    if let Some(leaf) = layout.shape.find(target) {
        let pool_1 = layout.pool.rest();
        lemma_pool_rest(layout.pool);
        lemma_copied(other, pool_1);
        let kept = Shape::Leaf { slot: layout.pool.next(), pane: target };
        let (copy, pool_2) = other.copied(pool_1);
        let sub = joined(leaf, axis, Scalar { bits: HALF }, kept, copy, after);
        assert(layout.shape.owns(leaf));
        assert(!layout.pool.offers(leaf));
        assert(!pool_1.offers(leaf));
        assert(!pool_1.offers(layout.pool.next()));
        assert forall|i: int| #[trigger] sub.owns(i) <==> i == leaf || i == layout.pool.next()
            || copy.owns(i) by {
            assert(kept.owns(i) <==> i == layout.pool.next());
        }
        assert(kept.distinct());
        assert(sub.distinct());
        assert forall|i: int| #[trigger] layout.shape.owns(i) && sub.owns(i) implies i == leaf by {
            assert(!layout.pool.offers(i));
            assert(!pool_1.offers(i));
        }
        lemma_graft_slots(layout.shape, target, sub);
        let new = layout.attach(target, other, axis, after);
        assert forall|i: int| #[trigger] new.shape.owns(i) <==> 0 <= i && !new.pool.offers(i) by {
            assert(layout.shape.owns(i) <==> 0 <= i && !layout.pool.offers(i));
            assert(pool_1.offers(i) <==> layout.pool.offers(i) && i != layout.pool.next());
            assert(copy.owns(i) <==> pool_1.offers(i) && !pool_2.offers(i));
            assert(pool_2.offers(i) ==> pool_1.offers(i));
            if pool_1.offers(i) && i < 0 {
                assert(pool_1.free.contains(i));
            }
        }
    }
}

/// Taking a pane out frees just the slots of its leaf and of the split around it.
pub proof fn lemma_without_slots(shape: Shape, pane: PaneId)
    requires
        shape.distinct(),
        shape.around(pane) is Some,
    ensures
        ({
            let leaf = shape.find(pane).unwrap();
            let (parent, sibling) = shape.around(pane).unwrap();
            let rest = shape.without(pane);
            &&& leaf != parent
            &&& shape.owns(leaf)
            &&& shape.owns(parent)
            &&& shape.owns(sibling.slot())
            &&& sibling.slot() != leaf
            &&& sibling.slot() != parent
            &&& rest.distinct()
            &&& rest.slot() == (if parent == shape.slot() {
                sibling.slot()
            } else {
                shape.slot()
            })
            &&& forall|i: int|
                #[trigger] rest.owns(i) <==> shape.owns(i) && i != leaf && i != parent
        }),
    decreases shape,
{
    if let Shape::Split { slot, a, b, .. } = shape {
        let rest = shape.without(pane);
        let leaf = shape.find(pane).unwrap();
        let (parent, _) = shape.around(pane).unwrap();
        lemma_find(shape, pane);
        lemma_around(shape, pane);
        lemma_around(*a, pane);
        lemma_around(*b, pane);
        assert(a.owns(a.slot()));
        assert(b.owns(b.slot()));
        if a.has(pane) {
            if *a is Split {
                lemma_without_slots(*a, pane);
                let na = a.without(pane);
                assert forall|i: int| #[trigger] rest.owns(i) <==> shape.owns(i) && i != leaf && i
                    != parent by {
                    assert(na.owns(i) <==> a.owns(i) && i != leaf && i != parent);
                }
                assert forall|i: int| !(#[trigger] na.owns(i) && b.owns(i)) by {
                    assert(a.owns(i) || !na.owns(i));
                }
            } else {
                assert forall|i: int| #[trigger] rest.owns(i) <==> shape.owns(i) && i != leaf && i
                    != parent by {
                    assert(a.owns(i) <==> i == leaf);
                }
            }
        } else {
            if *b is Split {
                lemma_without_slots(*b, pane);
                let nb = b.without(pane);
                assert(!a.owns(leaf));
                assert(!a.owns(parent));
                assert forall|i: int| #[trigger] rest.owns(i) <==> shape.owns(i) && i != leaf && i
                    != parent by {
                    assert(nb.owns(i) <==> b.owns(i) && i != leaf && i != parent);
                }
                assert forall|i: int| !(#[trigger] a.owns(i) && nb.owns(i)) by {
                    assert(b.owns(i) || !nb.owns(i));
                }
            } else {
                assert forall|i: int| #[trigger] rest.owns(i) <==> shape.owns(i) && i != leaf && i
                    != parent by {
                    assert(b.owns(i) <==> i == leaf);
                }
            }
        }
    }
}

/// Closing a pane loses no slot and shares none.
pub proof fn lemma_close_wf(layout: Layout, pane: PaneId)
    requires
        layout.wf(),
    ensures
        layout.close(pane).wf(),
{
    if let Some((parent, _)) = layout.shape.around(pane) {
        lemma_without_slots(layout.shape, pane);
        let leaf = layout.shape.find(pane).unwrap();
        let pool_1 = layout.pool.give_back(leaf);
        assert(layout.shape.owns(leaf));
        assert(layout.shape.owns(parent));
        lemma_pool_give_back(layout.pool, leaf);
        assert(!pool_1.offers(parent));
        lemma_pool_give_back(pool_1, parent);
        let new = layout.close(pane);
        assert forall|i: int| #[trigger] new.shape.owns(i) <==> 0 <= i && !new.pool.offers(i) by {
            assert(layout.shape.owns(i) <==> 0 <= i && !layout.pool.offers(i));
            assert(pool_1.offers(i) <==> layout.pool.offers(i) || i == leaf);
        }
    }
}

/// Changing a ratio moves no node.
pub proof fn lemma_with_ratio_slots(shape: Shape, node: int, value: Scalar)
    ensures
        shape.with_ratio(node, value).slot() == shape.slot(),
        shape.with_ratio(node, value).panes() == shape.panes(),
        shape.distinct() ==> shape.with_ratio(node, value).distinct(),
        forall|i: int| #[trigger] shape.with_ratio(node, value).owns(i) == shape.owns(i),
        forall|p: PaneId| #[trigger] shape.with_ratio(node, value).has(p) == shape.has(p),
        !shape.owns(node) ==> shape.with_ratio(node, value) == shape,
    decreases shape,
{
    if let Shape::Split { a, b, .. } = shape {
        lemma_with_ratio_slots(*a, node, value);
        lemma_with_ratio_slots(*b, node, value);
        let new = shape.with_ratio(node, value);
        let (na, nb) = (a.with_ratio(node, value), b.with_ratio(node, value));
        assert forall|i: int| #[trigger] new.owns(i) == shape.owns(i) by {
            assert(na.owns(i) == a.owns(i));
            assert(nb.owns(i) == b.owns(i));
        }
        assert forall|p: PaneId| #[trigger] new.has(p) == shape.has(p) by {
            assert(na.has(p) == a.has(p));
            assert(nb.has(p) == b.has(p));
        }
        if shape.distinct() {
            assert forall|i: int| !(#[trigger] na.owns(i) && nb.owns(i)) by {
                assert(na.owns(i) == a.owns(i));
                assert(nb.owns(i) == b.owns(i));
            }
        }
    }
}

} // verus!
