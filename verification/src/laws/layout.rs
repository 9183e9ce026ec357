//! Laws of pane layouts: what splitting, merging, closing and resizing do to the
//! panes, to the handles of splits and to their ratios.

use crate::layout::{Axis, PaneId, HALF, MAX_RATIO, MIN_RATIO};
use crate::scalar::Scalar;
use crate::shape::{
    joined, lemma_around, lemma_copied, lemma_find, lemma_pool_rest, lemma_with_ratio_slots,
    lemma_without_slots, Layout, Pool, Shape,
};
use vstd::prelude::*;

verus! {

impl Shape {
    /// Whether no pane occurs twice.
    pub open spec fn unique(self) -> bool
        decreases self,
    {
        match self {
            Shape::Leaf { .. } => true,
            Shape::Split { a, b, .. } => {
                &&& a.unique()
                &&& b.unique()
                &&& forall|p: PaneId| !(#[trigger] a.has(p) && b.has(p))
            },
        }
    }

    /// The same tree with every node in slot zero.
    pub open spec fn unplaced(self) -> Shape
        decreases self,
    {
        match self {
            Shape::Leaf { pane, .. } => Shape::Leaf { slot: 0, pane },
            Shape::Split { axis, ratio, a, b, .. } => Shape::Split {
                slot: 0,
                axis,
                ratio,
                a: Box::new(a.unplaced()),
                b: Box::new(b.unplaced()),
            },
        }
    }

    /// The axis and the ratio of the split in slot `node`, if there is one.
    pub open spec fn split_in(self, node: int) -> Option<(Axis, Scalar)>
        decreases self,
    {
        match self {
            Shape::Leaf { .. } => None,
            Shape::Split { slot, axis, ratio, a, b } => if slot == node {
                Some((axis, ratio))
            } else if a.split_in(node) is Some {
                a.split_in(node)
            } else {
                b.split_in(node)
            },
        }
    }

    /// Whether every split leaves room for both of its children.
    pub open spec fn usable(self) -> bool
        decreases self,
    {
        match self {
            Shape::Leaf { .. } => true,
            Shape::Split { ratio, a, b, .. } => usable_ratio(ratio) && a.usable() && b.usable(),
        }
    }
}

/// Whether a ratio lies within the limits.
pub open spec fn usable_ratio(ratio: Scalar) -> bool {
    &&& ratio.is_number()
    &&& !ratio.below(Scalar { bits: MIN_RATIO })
    &&& !(Scalar { bits: MAX_RATIO }).below(ratio)
}

/// A tree has a pane exactly if it lists it.
pub proof fn law_listed(shape: Shape, pane: PaneId)
    ensures
        shape.has(pane) <==> shape.panes().contains(pane),
        shape.panes().len() > 0,
        shape.first_pane() == shape.panes()[0],
        shape is Split <==> shape.panes().len() > 1,
    decreases shape,
{
    match shape {
        Shape::Leaf { pane: p, .. } => {
            assert(shape.panes()[0] == p);
        },
        Shape::Split { a, b, .. } => {
            law_listed(*a, pane);
            law_listed(*b, pane);
            let (pa, pb) = (a.panes(), b.panes());
            if pa.contains(pane) {
                assert((pa + pb)[pa.index_of(pane)] == pane);
            }
            if pb.contains(pane) {
                assert((pa + pb)[pa.len() + pb.index_of(pane)] == pane);
            }
        },
    }
}

/// No pane occurs twice in a tree exactly if none is listed twice.
pub proof fn law_listed_once(shape: Shape)
    ensures
        shape.unique() <==> shape.panes().no_duplicates(),
    decreases shape,
{
    if let Shape::Split { a, b, .. } = shape {
        law_listed_once(*a);
        law_listed_once(*b);
        let (pa, pb) = (a.panes(), b.panes());
        let all = pa + pb;
        if shape.unique() {
            assert forall|i: int, j: int| 0 <= i < j < all.len() implies all[i] != all[j] by {
                if i < pa.len() && j >= pa.len() {
                    law_listed(*a, all[i]);
                    law_listed(*b, all[i]);
                    assert(pa[i] == all[i]);
                    if all[i] == all[j] {
                        assert(pb[j - pa.len()] == all[i]);
                        assert(a.has(all[i]));
                    }
                }
            }
        }
        if all.no_duplicates() {
            assert forall|i: int, j: int| 0 <= i < j < pa.len() implies pa[i] != pa[j] by {
                assert(all[i] == pa[i] && all[j] == pa[j]);
            }
            assert forall|i: int, j: int| 0 <= i < j < pb.len() implies pb[i] != pb[j] by {
                assert(all[pa.len() + i] == pb[i] && all[pa.len() + j] == pb[j]);
            }
            assert forall|p: PaneId| !(#[trigger] a.has(p) && b.has(p)) by {
                law_listed(*a, p);
                law_listed(*b, p);
                if a.has(p) && b.has(p) {
                    let (i, j) = (pa.index_of(p), pb.index_of(p));
                    assert(all[i] == p && all[pa.len() + j] == p);
                }
            }
        }
    }
}

/// Grafting lists the panes of what is grafted where the pane was listed first.
proof fn lemma_graft_panes(shape: Shape, pane: PaneId, sub: Shape, k: int)
    requires
        0 <= k < shape.panes().len(),
        shape.panes()[k] == pane,
        forall|j: int| 0 <= j < k ==> shape.panes()[j] != pane,
    ensures
        shape.graft(pane, sub).panes() == shape.panes().take(k) + sub.panes()
            + shape.panes().skip(k + 1),
    decreases shape,
{
    let all = shape.panes();
    match shape {
        Shape::Leaf { .. } => {
            assert(all.take(k) + sub.panes() + all.skip(k + 1) =~= sub.panes());
        },
        Shape::Split { a, b, .. } => {
            let (pa, pb) = (a.panes(), b.panes());
            law_listed(*a, pane);
            if k < pa.len() {
                assert(pa[k] == pane);
                assert forall|j: int| 0 <= j < k implies pa[j] != pane by {
                    assert(all[j] == pa[j]);
                }
                lemma_graft_panes(*a, pane, sub, k);
                assert(pa.take(k) + sub.panes() + pa.skip(k + 1) + pb =~= all.take(k) + sub.panes()
                    + all.skip(k + 1));
            } else {
                let m = k - pa.len();
                assert(pb[m] == pane);
                if pa.contains(pane) {
                    assert(all[pa.index_of(pane)] == pane);
                }
                assert forall|j: int| 0 <= j < m implies pb[j] != pane by {
                    assert(all[pa.len() + j] == pb[j]);
                }
                lemma_graft_panes(*b, pane, sub, m);
                assert(pa + (pb.take(m) + sub.panes() + pb.skip(m + 1)) =~= all.take(k)
                    + sub.panes() + all.skip(k + 1));
            }
        },
    }
}

/// A copy of a tree lists the same panes, and is arranged as the tree is.
pub proof fn lemma_copied_panes(shape: Shape, pool: Pool)
    ensures
        shape.copied(pool).0.panes() == shape.panes(),
        shape.copied(pool).0.unplaced() == shape.unplaced(),
    decreases shape,
{
    if let Shape::Split { a, b, .. } = shape {
        let pool_a = a.copied(pool.rest()).1;
        lemma_copied_panes(*a, pool.rest());
        lemma_copied_panes(*b, pool_a);
    }
}

/// Merging a tree in beside a pane lists its panes, in their order, right behind
/// or right before that pane, and leaves the rest of the list as it is.
pub proof fn law_attach_panes(
    layout: Layout,
    target: PaneId,
    other: Shape,
    axis: Axis,
    after: bool,
    k: int,
)
    requires
        0 <= k < layout.shape.panes().len(),
        layout.shape.panes()[k] == target,
        forall|j: int| 0 <= j < k ==> layout.shape.panes()[j] != target,
    ensures
        layout.attach(target, other, axis, after).shape.panes() == layout.shape.panes().take(k) + (
        if after {
            seq![target] + other.panes()
        } else {
            other.panes() + seq![target]
        }) + layout.shape.panes().skip(k + 1),
{
    law_listed(layout.shape, target);
    lemma_find(layout.shape, target);
    let leaf = layout.shape.find(target).unwrap();
    let kept = Shape::Leaf { slot: layout.pool.next(), pane: target };
    let copy = other.copied(layout.pool.rest()).0;
    let sub = joined(leaf, axis, Scalar { bits: HALF }, kept, copy, after);
    lemma_copied_panes(other, layout.pool.rest());
    assert(kept.panes() =~= seq![target]);
    lemma_graft_panes(layout.shape, target, sub, k);
}

/// Splitting a pane lists the new pane right behind or right before it, and
/// leaves the rest of the list as it is.
pub proof fn law_split_panes(
    layout: Layout,
    target: PaneId,
    pane: PaneId,
    axis: Axis,
    after: bool,
    k: int,
)
    requires
        0 <= k < layout.shape.panes().len(),
        layout.shape.panes()[k] == target,
        forall|j: int| 0 <= j < k ==> layout.shape.panes()[j] != target,
    ensures
        layout.split(target, pane, axis, after).shape.panes() == layout.shape.panes().take(k) + (
        if after {
            seq![target, pane]
        } else {
            seq![pane, target]
        }) + layout.shape.panes().skip(k + 1),
{
    let other = Shape::Leaf { slot: 0, pane };
    law_attach_panes(layout, target, other, axis, after, k);
    assert(other.panes() =~= seq![pane]);
    assert(seq![target] + seq![pane] =~= seq![target, pane]);
    assert(seq![pane] + seq![target] =~= seq![pane, target]);
}

/// Merging in a tab of a single pane is splitting.
pub proof fn law_merge_of_one_pane(
    layout: Layout,
    target: PaneId,
    slot: int,
    pane: PaneId,
    axis: Axis,
    after: bool,
)
    ensures
        layout.attach(target, Shape::Leaf { slot, pane }, axis, after) == layout.split(
            target,
            pane,
            axis,
            after,
        ),
{
}

/// Merging two trees that share no pane gives one in which no pane occurs twice,
/// and which has just the panes of both. The merged part is arranged as it was.
pub proof fn law_merge_keeps_unique(
    layout: Layout,
    target: PaneId,
    other: Shape,
    axis: Axis,
    after: bool,
)
    requires
        layout.shape.unique(),
        other.unique(),
        layout.shape.has(target),
        forall|p: PaneId| !(#[trigger] layout.shape.has(p) && other.has(p)),
    ensures
        layout.attach(target, other, axis, after).shape.unique(),
        forall|p: PaneId| #[trigger]
            layout.attach(target, other, axis, after).shape.has(p) <==> layout.shape.has(p)
                || other.has(p),
        other.copied(layout.pool.rest()).0.unplaced() == other.unplaced(),
{
    lemma_find(layout.shape, target);
    let leaf = layout.shape.find(target).unwrap();
    let kept = Shape::Leaf { slot: layout.pool.next(), pane: target };
    let copy = other.copied(layout.pool.rest()).0;
    let sub = joined(leaf, axis, Scalar { bits: HALF }, kept, copy, after);
    lemma_copied_panes(other, layout.pool.rest());
    lemma_copied_unique(other, layout.pool.rest());
    assert forall|p: PaneId| #[trigger] sub.has(p) <==> p == target || other.has(p) by {
        assert(kept.has(p) <==> p == target);
        assert(copy.has(p) <==> other.has(p));
    }
    assert(kept.unique());
    assert forall|p: PaneId| !(#[trigger] kept.has(p) && copy.has(p)) by {
        assert(layout.shape.has(target));
    }
    assert(sub.unique());
    lemma_graft_unique(layout.shape, target, sub);
}

proof fn lemma_copied_unique(shape: Shape, pool: Pool)
    requires
        shape.unique(),
    ensures
        shape.copied(pool).0.unique(),
        forall|p: PaneId| #[trigger] shape.copied(pool).0.has(p) <==> shape.has(p),
    decreases shape,
{
    if let Shape::Split { a, b, .. } = shape {
        let pool_a = a.copied(pool.rest()).1;
        lemma_copied_unique(*a, pool.rest());
        lemma_copied_unique(*b, pool_a);
        let (na, nb) = (a.copied(pool.rest()).0, b.copied(pool_a).0);
        assert forall|p: PaneId| !(#[trigger] na.has(p) && nb.has(p)) by {
            assert(na.has(p) <==> a.has(p));
            assert(nb.has(p) <==> b.has(p));
        }
        assert forall|p: PaneId| #[trigger] shape.copied(pool).0.has(p) <==> shape.has(p) by {
            assert(na.has(p) <==> a.has(p));
            assert(nb.has(p) <==> b.has(p));
        }
    }
}

/// Taking a pane out leaves the others listed in their order.
proof fn lemma_without_panes(shape: Shape, pane: PaneId, k: int)
    requires
        shape is Split,
        0 <= k < shape.panes().len(),
        shape.panes()[k] == pane,
        forall|j: int| 0 <= j < k ==> shape.panes()[j] != pane,
    ensures
        shape.without(pane).panes() == shape.panes().take(k) + shape.panes().skip(k + 1),
    decreases shape,
{
    let all = shape.panes();
    if let Shape::Split { a, b, .. } = shape {
        let (pa, pb) = (a.panes(), b.panes());
        law_listed(*a, pane);
        law_listed(*b, pane);
        if k < pa.len() {
            assert(pa[k] == pane);
            assert forall|j: int| 0 <= j < k implies pa[j] != pane by {
                assert(all[j] == pa[j]);
            }
            if *a is Split {
                lemma_without_panes(*a, pane, k);
                assert(pa.take(k) + pa.skip(k + 1) + pb =~= all.take(k) + all.skip(k + 1));
            } else {
                assert(all.take(k) + all.skip(k + 1) =~= pb);
            }
        } else {
            let m = k - pa.len();
            assert(pb[m] == pane);
            if pa.contains(pane) {
                assert(all[pa.index_of(pane)] == pane);
            }
            assert forall|j: int| 0 <= j < m implies pb[j] != pane by {
                assert(all[pa.len() + j] == pb[j]);
            }
            if *b is Split {
                lemma_without_panes(*b, pane, m);
                assert(pa + (pb.take(m) + pb.skip(m + 1)) =~= all.take(k) + all.skip(k + 1));
            } else {
                assert(all.take(k) + all.skip(k + 1) =~= pa);
            }
        }
    }
}

/// Closing a pane takes it out of the list where it is listed first, and leaves
/// the rest as it is, unless it is the only one.
pub proof fn law_close_panes(layout: Layout, pane: PaneId, k: int)
    requires
        layout.shape.panes().len() > 1,
        0 <= k < layout.shape.panes().len(),
        layout.shape.panes()[k] == pane,
        forall|j: int| 0 <= j < k ==> layout.shape.panes()[j] != pane,
    ensures
        layout.close(pane).shape.panes() == layout.shape.panes().take(k)
            + layout.shape.panes().skip(k + 1),
{
    law_listed(layout.shape, pane);
    lemma_around(layout.shape, pane);
    lemma_without_panes(layout.shape, pane, k);
}

/// Nothing is split, merged or closed where the pane is not listed, and the only
/// pane is not closed.
pub proof fn law_nothing_to_do(
    layout: Layout,
    pane: PaneId,
    new_pane: PaneId,
    other: Shape,
    axis: Axis,
    after: bool,
)
    ensures
        !layout.shape.panes().contains(pane) ==> {
            &&& layout.split(pane, new_pane, axis, after) == layout
            &&& layout.attach(pane, other, axis, after) == layout
            &&& layout.close(pane) == layout
        },
        layout.shape.panes().len() == 1 ==> layout.close(pane) == layout,
{
    law_listed(layout.shape, pane);
    lemma_find(layout.shape, pane);
    lemma_around(layout.shape, pane);
}

/// Taking out what has just been grafted beside a leaf brings the tree back.
proof fn lemma_without_graft(shape: Shape, target: PaneId, pane: PaneId, sub: Shape)
    requires
        shape.has(target),
        !shape.has(pane),
        sub is Split,
        sub.has(pane),
        sub.without(pane) is Leaf,
        sub.without(pane).panes() == seq![target],
    ensures
        shape.graft(target, sub).has(pane),
        shape.graft(target, sub) is Split,
        shape.graft(target, sub).without(pane).unplaced() == shape.unplaced(),
    decreases shape,
{
    match shape {
        Shape::Leaf { .. } => {
            assert(sub.without(pane)->pane == sub.without(pane).panes()[0]);
        },
        Shape::Split { a, b, .. } => {
            if a.has(target) {
                lemma_without_graft(*a, target, pane, sub);
            } else {
                lemma_without_graft(*b, target, pane, sub);
            }
        },
    }
}

/// Closing a pane undoes the split that brought it in: the layout is what it
/// was before, but for the slots that its nodes occupy.
pub proof fn law_close_undoes_split(
    layout: Layout,
    target: PaneId,
    pane: PaneId,
    axis: Axis,
    after: bool,
)
    requires
        layout.shape.has(target),
        !layout.shape.has(pane),
    ensures
        layout.split(target, pane, axis, after).close(pane).shape.unplaced()
            == layout.shape.unplaced(),
{
    lemma_find(layout.shape, target);
    let leaf = layout.shape.find(target).unwrap();
    let kept = Shape::Leaf { slot: layout.pool.next(), pane: target };
    let fresh = Shape::Leaf { slot: layout.pool.rest().next(), pane };
    let sub = joined(leaf, axis, Scalar { bits: HALF }, kept, fresh, after);
    assert(target != pane);
    assert(kept.has(target) && !kept.has(pane) && fresh.has(pane));
    assert(kept.panes() =~= seq![target]);
    lemma_without_graft(layout.shape, target, pane, sub);
    lemma_around(layout.split(target, pane, axis, after).shape, pane);
}

/// The pane to turn to when a pane is closed is still there afterwards. There is
/// one exactly if the pane is listed beside others.
pub proof fn law_focus_after_close(layout: Layout, pane: PaneId)
    ensures
        layout.focus_after_close(pane) is Some <==> layout.shape.has(pane)
            && layout.shape.panes().len() > 1,
        layout.focus_after_close(pane) matches Some(next) ==> layout.close(pane).shape.has(next),
{
    law_listed(layout.shape, pane);
    lemma_around(layout.shape, pane);
    if layout.shape.around(pane) is Some {
        lemma_sibling_stays(layout.shape, pane);
    }
}

/// The child beside a pane is part of the tree without that pane.
proof fn lemma_sibling_stays(shape: Shape, pane: PaneId)
    requires
        shape.around(pane) is Some,
    ensures
        shape.without(pane).has(shape.around(pane).unwrap().1.first_pane()),
    decreases shape,
{
    if let Shape::Split { a, b, .. } = shape {
        lemma_around(*a, pane);
        lemma_around(*b, pane);
        law_listed(*a, a.first_pane());
        law_listed(*b, b.first_pane());
        if a.has(pane) {
            if *a is Split {
                lemma_sibling_stays(*a, pane);
            }
        } else if *b is Split {
            lemma_sibling_stays(*b, pane);
        }
    }
}

/// In a tree where no pane occurs twice, a graft of panes that are new to it
/// keeps that so, and adds just those panes.
pub proof fn lemma_graft_unique(shape: Shape, pane: PaneId, sub: Shape)
    requires
        shape.unique(),
        sub.unique(),
        shape.has(pane),
        sub.has(pane),
        forall|p: PaneId| #[trigger] sub.has(p) && shape.has(p) ==> p == pane,
    ensures
        shape.graft(pane, sub).unique(),
        forall|p: PaneId|
            #[trigger] shape.graft(pane, sub).has(p) <==> shape.has(p) || sub.has(p),
    decreases shape,
{
    if let Shape::Split { a, b, .. } = shape {
        let new = shape.graft(pane, sub);
        if a.has(pane) {
            lemma_graft_unique(*a, pane, sub);
            let na = a.graft(pane, sub);
            assert forall|p: PaneId| !(#[trigger] na.has(p) && b.has(p)) by {
                assert(na.has(p) <==> a.has(p) || sub.has(p));
            }
            assert forall|p: PaneId| #[trigger] new.has(p) <==> shape.has(p) || sub.has(p) by {
                assert(na.has(p) <==> a.has(p) || sub.has(p));
            }
        } else {
            lemma_graft_unique(*b, pane, sub);
            let nb = b.graft(pane, sub);
            assert forall|p: PaneId| !(#[trigger] a.has(p) && nb.has(p)) by {
                assert(nb.has(p) <==> b.has(p) || sub.has(p));
            }
            assert forall|p: PaneId| #[trigger] new.has(p) <==> shape.has(p) || sub.has(p) by {
                assert(nb.has(p) <==> b.has(p) || sub.has(p));
            }
        }
    }
}

/// In a tree where no pane occurs twice, closing a pane keeps that so, and takes
/// away that pane only.
pub proof fn lemma_without_unique(shape: Shape, pane: PaneId)
    requires
        shape.unique(),
        shape.has(pane),
        shape is Split,
    ensures
        shape.without(pane).unique(),
        forall|p: PaneId| #[trigger] shape.without(pane).has(p) <==> shape.has(p) && p != pane,
    decreases shape,
{
    if let Shape::Split { a, b, .. } = shape {
        let new = shape.without(pane);
        if a.has(pane) {
            if *a is Split {
                lemma_without_unique(*a, pane);
                let na = a.without(pane);
                assert forall|p: PaneId| !(#[trigger] na.has(p) && b.has(p)) by {
                    assert(na.has(p) ==> a.has(p));
                }
                assert forall|p: PaneId| #[trigger] new.has(p) <==> shape.has(p) && p != pane by {
                    assert(na.has(p) <==> a.has(p) && p != pane);
                }
            } else {
                assert forall|p: PaneId| #[trigger] new.has(p) <==> shape.has(p) && p != pane by {
                    assert(a.has(p) <==> p == pane);
                }
            }
        } else if *b is Split {
            lemma_without_unique(*b, pane);
            let nb = b.without(pane);
            assert forall|p: PaneId| !(#[trigger] a.has(p) && nb.has(p)) by {
                assert(nb.has(p) ==> b.has(p));
            }
            assert forall|p: PaneId| #[trigger] new.has(p) <==> shape.has(p) && p != pane by {
                assert(nb.has(p) <==> b.has(p) && p != pane);
            }
        } else {
            assert forall|p: PaneId| #[trigger] new.has(p) <==> shape.has(p) && p != pane by {
                assert(b.has(p) <==> p == pane);
            }
        }
    }
}

/// A split is found only in a slot that the tree occupies.
pub proof fn lemma_split_in_owned(shape: Shape, node: int)
    ensures
        shape.split_in(node) is Some ==> shape.owns(node),
    decreases shape,
{
    if let Shape::Split { a, b, .. } = shape {
        lemma_split_in_owned(*a, node);
        lemma_split_in_owned(*b, node);
    }
}

/// The slot of the first leaf of a pane holds no split.
proof fn lemma_leaf_is_no_split(shape: Shape, pane: PaneId)
    requires
        shape.distinct(),
        shape.has(pane),
    ensures
        shape.split_in(shape.find(pane).unwrap()) is None,
    decreases shape,
{
    lemma_find(shape, pane);
    if let Shape::Split { a, b, .. } = shape {
        lemma_find(*a, pane);
        lemma_find(*b, pane);
        let leaf = shape.find(pane).unwrap();
        lemma_split_in_owned(*a, leaf);
        lemma_split_in_owned(*b, leaf);
        if a.has(pane) {
            lemma_leaf_is_no_split(*a, pane);
        } else {
            lemma_leaf_is_no_split(*b, pane);
        }
    }
}

/// Setting a ratio changes the ratio of that split alone: the panes, the axes
/// and the other ratios stay as they are.
pub proof fn law_set_ratio(layout: Layout, node: int, value: Scalar, other: int)
    ensures
        layout.with_ratio(node, value).shape.panes() == layout.shape.panes(),
        layout.with_ratio(node, value).shape.split_in(node) == match layout.shape.split_in(node) {
            Some((axis, _)) => Some((axis, value)),
            None => None,
        },
        other != node ==> layout.with_ratio(node, value).shape.split_in(other)
            == layout.shape.split_in(other),
{
    lemma_with_ratio_split_in(layout.shape, node, value, other);
    lemma_with_ratio_slots(layout.shape, node, value);
}

proof fn lemma_with_ratio_split_in(shape: Shape, node: int, value: Scalar, other: int)
    ensures
        shape.with_ratio(node, value).split_in(node) == match shape.split_in(node) {
            Some((axis, _)) => Some((axis, value)),
            None => None,
        },
        other != node ==> shape.with_ratio(node, value).split_in(other) == shape.split_in(other),
    decreases shape,
{
    if let Shape::Split { a, b, .. } = shape {
        lemma_with_ratio_split_in(*a, node, value, other);
        lemma_with_ratio_split_in(*b, node, value, other);
    }
}

/// Splits keep their slots, axes and ratios while panes are split or merged in;
/// the slot of the leaf that is split becomes the handle of the new split.
pub proof fn law_attach_keeps_splits(
    layout: Layout,
    target: PaneId,
    other: Shape,
    axis: Axis,
    after: bool,
    node: int,
)
    requires
        layout.wf(),
    ensures
        layout.shape.split_in(node) is Some ==> layout.attach(
            target,
            other,
            axis,
            after,
        ).shape.split_in(node) == layout.shape.split_in(node),
        layout.shape.find(target) == Some(node) ==> layout.attach(
            target,
            other,
            axis,
            after,
        ).shape.split_in(node) == Some((axis, Scalar { bits: HALF })),
{
    lemma_find(layout.shape, target);
    if let Some(leaf) = layout.shape.find(target) {
        let pool_1 = layout.pool.rest();
        lemma_pool_rest(layout.pool);
        lemma_copied(other, pool_1);
        let kept = Shape::Leaf { slot: layout.pool.next(), pane: target };
        let copy = other.copied(pool_1).0;
        let sub = joined(leaf, axis, Scalar { bits: HALF }, kept, copy, after);
        assert forall|i: int| #[trigger] layout.shape.owns(i) && sub.owns(i) implies i == leaf by {
            assert(kept.owns(i) <==> i == layout.pool.next());
            assert(sub.owns(i) ==> i == leaf || kept.owns(i) || copy.owns(i));
            assert(!layout.pool.offers(i));
            assert(!pool_1.offers(i));
        }
        lemma_leaf_is_no_split(layout.shape, target);
        lemma_graft_split_in(layout.shape, target, sub, node);
    }
}

proof fn lemma_graft_split_in(shape: Shape, pane: PaneId, sub: Shape, node: int)
    requires
        shape.distinct(),
        shape.has(pane),
        shape.find(pane) == Some(sub.slot()),
        forall|i: int| #[trigger] shape.owns(i) && sub.owns(i) ==> i == sub.slot(),
    ensures
        shape.split_in(node) is Some && node != sub.slot() ==> shape.graft(pane, sub).split_in(node)
            == shape.split_in(node),
        node == sub.slot() ==> shape.graft(pane, sub).split_in(node) == sub.split_in(node),
    decreases shape,
{
    lemma_split_in_owned(shape, node);
    lemma_split_in_owned(sub, node);
    lemma_find(shape, pane);
    if let Shape::Split { slot, a, b, .. } = shape {
        lemma_find(*a, pane);
        lemma_find(*b, pane);
        lemma_split_in_owned(*a, node);
        lemma_split_in_owned(*b, node);
        if a.has(pane) {
            assert forall|i: int| #[trigger] a.owns(i) && sub.owns(i) implies i == sub.slot() by {
                assert(shape.owns(i));
            }
            lemma_graft_split_in(*a, pane, sub, node);
            lemma_graft_owns(*a, pane, sub, node);
            lemma_split_in_owned(a.graft(pane, sub), node);
        } else {
            assert forall|i: int| #[trigger] b.owns(i) && sub.owns(i) implies i == sub.slot() by {
                assert(shape.owns(i));
            }
            lemma_graft_split_in(*b, pane, sub, node);
            lemma_graft_owns(*b, pane, sub, node);
            lemma_split_in_owned(b.graft(pane, sub), node);
            assert(a.owns(node) ==> !b.owns(node));
        }
    }
}

proof fn lemma_graft_owns(shape: Shape, pane: PaneId, sub: Shape, i: int)
    ensures
        shape.graft(pane, sub).owns(i) ==> shape.owns(i) || sub.owns(i),
    decreases shape,
{
    if let Shape::Split { a, b, .. } = shape {
        lemma_graft_owns(*a, pane, sub, i);
        lemma_graft_owns(*b, pane, sub, i);
    }
}

/// Closing a pane removes the split around it; all others keep their slots, axes
/// and ratios.
pub proof fn law_close_keeps_splits(layout: Layout, pane: PaneId, node: int)
    requires
        layout.wf(),
    ensures
        match layout.shape.around(pane) {
            Some((parent, _)) if parent == node => layout.close(pane).shape.split_in(node) is None,
            _ => layout.close(pane).shape.split_in(node) == layout.shape.split_in(node),
        },
{
    if let Some((parent, _)) = layout.shape.around(pane) {
        lemma_without_split_in(layout.shape, pane, node);
    }
}

proof fn lemma_without_split_in(shape: Shape, pane: PaneId, node: int)
    requires
        shape.distinct(),
        shape.around(pane) is Some,
    ensures
        shape.without(pane).split_in(node) == if node == shape.around(pane).unwrap().0 {
            None
        } else {
            shape.split_in(node)
        },
    decreases shape,
{
    lemma_without_slots(shape, pane);
    lemma_split_in_owned(shape.without(pane), node);
    if let Shape::Split { slot, a, b, .. } = shape {
        lemma_around(*a, pane);
        lemma_around(*b, pane);
        lemma_split_in_owned(*a, node);
        lemma_split_in_owned(*b, node);
        if a.has(pane) {
            if *a is Split {
                lemma_without_split_in(*a, pane, node);
            }
        } else if *b is Split {
            lemma_without_split_in(*b, pane, node);
        }
    }
}

/// The ratios of splits stay within the limits: those of a single pane, where
/// there are none, and those that splitting, merging, closing and setting a ratio
/// to a number leave.
pub proof fn law_ratios_stay_usable(
    layout: Layout,
    pane: PaneId,
    new_pane: PaneId,
    other: Shape,
    axis: Axis,
    after: bool,
    node: int,
    ratio: Scalar,
)
    requires
        layout.shape.usable(),
        other.usable(),
        ratio.is_number(),
    ensures
        Layout::single(pane).shape.usable(),
        layout.split(pane, new_pane, axis, after).shape.usable(),
        layout.attach(pane, other, axis, after).shape.usable(),
        layout.close(pane).shape.usable(),
        layout.with_ratio(
            node,
            ratio.clamped(Scalar { bits: MIN_RATIO }, Scalar { bits: MAX_RATIO }),
        ).shape.usable(),
{
    let fresh = Shape::Leaf { slot: 0, pane: new_pane };
    assert(fresh.usable());
    lemma_attach_usable(layout, pane, fresh, axis, after);
    lemma_attach_usable(layout, pane, other, axis, after);
    lemma_without_usable(layout.shape, pane);
    lemma_with_ratio_usable(
        layout.shape,
        node,
        ratio.clamped(Scalar { bits: MIN_RATIO }, Scalar { bits: MAX_RATIO }),
    );
}

proof fn lemma_attach_usable(
    layout: Layout,
    target: PaneId,
    other: Shape,
    axis: Axis,
    after: bool,
)
    requires
        layout.shape.usable(),
        other.usable(),
    ensures
        layout.attach(target, other, axis, after).shape.usable(),
{
    if let Some(leaf) = layout.shape.find(target) {
        let kept = Shape::Leaf { slot: layout.pool.next(), pane: target };
        let copy = other.copied(layout.pool.rest()).0;
        lemma_copied_usable(other, layout.pool.rest());
        assert(kept.usable());
        let sub = joined(leaf, axis, Scalar { bits: HALF }, kept, copy, after);
        lemma_graft_usable(layout.shape, target, sub);
    }
}

proof fn lemma_copied_usable(shape: Shape, pool: Pool)
    requires
        shape.usable(),
    ensures
        shape.copied(pool).0.usable(),
    decreases shape,
{
    if let Shape::Split { a, b, .. } = shape {
        lemma_copied_usable(*a, pool.rest());
        lemma_copied_usable(*b, a.copied(pool.rest()).1);
    }
}

proof fn lemma_graft_usable(shape: Shape, pane: PaneId, sub: Shape)
    requires
        shape.usable(),
        sub.usable(),
    ensures
        shape.graft(pane, sub).usable(),
    decreases shape,
{
    if let Shape::Split { a, b, .. } = shape {
        lemma_graft_usable(*a, pane, sub);
        lemma_graft_usable(*b, pane, sub);
    }
}

proof fn lemma_without_usable(shape: Shape, pane: PaneId)
    requires
        shape.usable(),
    ensures
        shape.without(pane).usable(),
    decreases shape,
{
    if let Shape::Split { a, b, .. } = shape {
        lemma_without_usable(*a, pane);
        lemma_without_usable(*b, pane);
    }
}

proof fn lemma_with_ratio_usable(shape: Shape, node: int, value: Scalar)
    requires
        shape.usable(),
        usable_ratio(value),
    ensures
        shape.with_ratio(node, value).usable(),
    decreases shape,
{
    if let Shape::Split { a, b, .. } = shape {
        lemma_with_ratio_usable(*a, node, value);
        lemma_with_ratio_usable(*b, node, value);
    }
}

} // verus!
