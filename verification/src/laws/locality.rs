//! Laws of locality: splitting, merging, closing and resizing change the screen in
//! one place only.

use crate::geometry::{given_by, lemma_tiled, tiled, Cuts, Divider, Marks, Rect, Span};
use crate::laws::geometry::{law_one_rect_per_pane, lemma_cuts_are_settled, steady};
use crate::laws::layout::law_listed;
use crate::layout::{Axis, PaneId, HALF};
use crate::navigation::rect_of;
use crate::scalar::Scalar;
use crate::shape::{joined, lemma_around, lemma_find, lemma_with_ratio_slots, Layout, Pool, Shape};
use vstd::prelude::*;

verus! {

impl Shape {
    /// Whether `other` is this tree with the part `new` in one place where it has
    /// the part `part`.
    pub open spec fn swapped(self, other: Shape, part: Shape, new: Shape) -> bool
        decreases self,
    {
        ||| self == part && other == new
        ||| {
            &&& self matches Shape::Split { slot, axis, ratio, a, b }
            &&& other matches Shape::Split { slot: s2, axis: x2, ratio: r2, a: a2, b: b2 }
            &&& slot == s2 && axis == x2 && ratio == r2
            &&& a.swapped(*a2, part, new) && b == b2 || a == a2 && b.swapped(*b2, part, new)
        }
    }

    /// The smallest split around the first leaf that holds `pane`.
    pub open spec fn split_around(self, pane: PaneId) -> Shape
        decreases self,
    {
        match self {
            Shape::Leaf { .. } => self,
            Shape::Split { a, b, .. } => if a.has(pane) {
                if *a is Leaf {
                    self
                } else {
                    a.split_around(pane)
                }
            } else if *b is Leaf {
                self
            } else {
                b.split_around(pane)
            },
        }
    }

    /// The part of the tree whose root occupies slot `node`.
    pub open spec fn part_at(self, node: int) -> Shape
        decreases self,
    {
        match self {
            Shape::Leaf { .. } => self,
            Shape::Split { slot, a, b, .. } => if slot == node {
                self
            } else if a.owns(node) {
                a.part_at(node)
            } else {
                b.part_at(node)
            },
        }
    }
}

/// A place on the screen: a rect that some part of a tree fills, and what is listed
/// before and behind the panes and the dividers of that part.
pub struct Spot {
    pub room: Rect,
    pub leaves_before: Seq<(PaneId, Rect)>,
    pub leaves_behind: Seq<(PaneId, Rect)>,
    pub dividers_before: Seq<Divider>,
    pub dividers_behind: Seq<Divider>,
}

/// Whether `leaves` and `dividers` are what is listed around `spot`, with `part`
/// laid out in the rect there.
pub open spec fn fills<M: Fn(Span, Span, Scalar) -> Marks>(
    mark: M,
    part: Shape,
    spot: Spot,
    leaves: Seq<(PaneId, Rect)>,
    dividers: Seq<Divider>,
) -> bool {
    exists|l: Seq<(PaneId, Rect)>, d: Seq<Divider>|
        {
            &&& #[trigger] tiled(mark, part, spot.room, l, d)
            &&& leaves == spot.leaves_before + l + spot.leaves_behind
            &&& dividers == spot.dividers_before + d + spot.dividers_behind
        }
}

/// Whether two screens differ in one spot only, which `part` fills on the first and
/// `new` on the second.
pub open spec fn differ_in_one_spot<M: Fn(Span, Span, Scalar) -> Marks>(
    mark: M,
    part: Shape,
    new: Shape,
    leaves_1: Seq<(PaneId, Rect)>,
    dividers_1: Seq<Divider>,
    leaves_2: Seq<(PaneId, Rect)>,
    dividers_2: Seq<Divider>,
) -> bool {
    exists|spot: Spot|
        {
            &&& #[trigger] fills(mark, part, spot, leaves_1, dividers_1)
            &&& fills(mark, new, spot, leaves_2, dividers_2)
        }
}

/// Swapping a part of a tree changes the screen in one spot only: the new part
/// fills the rect that the old one filled, and all else is where it was.
pub proof fn law_swap_is_local<M: Fn(Span, Span, Scalar) -> Marks>(
    mark: M,
    shape_1: Shape,
    shape_2: Shape,
    part: Shape,
    new: Shape,
    area: Rect,
    leaves_1: Seq<(PaneId, Rect)>,
    dividers_1: Seq<Divider>,
    leaves_2: Seq<(PaneId, Rect)>,
    dividers_2: Seq<Divider>,
)
    requires
        shape_1.swapped(shape_2, part, new),
        tiled(mark, shape_1, area, leaves_1, dividers_1),
        tiled(mark, shape_2, area, leaves_2, dividers_2),
        steady(mark),
    ensures
        differ_in_one_spot(mark, part, new, leaves_1, dividers_1, leaves_2, dividers_2),
        forall|q: PaneId|
            !part.has(q) && !new.has(q) ==> #[trigger] rect_of(leaves_1, q) == rect_of(leaves_2, q),
{
    let cuts_1 = lemma_tiled(mark, shape_1, area, leaves_1, dividers_1);
    let cuts_2 = lemma_tiled(mark, shape_2, area, leaves_2, dividers_2);
    let spot = lemma_swap(mark, cuts_1, cuts_2, shape_1, shape_2, part, new, area);
    assert(fills(mark, part, spot, leaves_1, dividers_1));
    assert forall|q: PaneId| !part.has(q) && !new.has(q) implies #[trigger] rect_of(leaves_1, q)
        == rect_of(leaves_2, q) by {
        lemma_rect_outside(mark, part, spot, leaves_1, dividers_1, q);
        lemma_rect_outside(mark, new, spot, leaves_2, dividers_2, q);
    }
}

proof fn lemma_swap<M: Fn(Span, Span, Scalar) -> Marks>(
    mark: M,
    cuts_1: Cuts,
    cuts_2: Cuts,
    shape_1: Shape,
    shape_2: Shape,
    part: Shape,
    new: Shape,
    rect: Rect,
) -> (spot: Spot)
    requires
        shape_1.swapped(shape_2, part, new),
        cuts_1.made_by(given_by(mark), shape_1, rect),
        cuts_2.made_by(given_by(mark), shape_2, rect),
        steady(mark),
    ensures
        fills(mark, part, spot, cuts_1.panes(shape_1, rect), cuts_1.dividers(shape_1, rect)),
        fills(mark, new, spot, cuts_2.panes(shape_2, rect), cuts_2.dividers(shape_2, rect)),
    decreases shape_1,
{
    let (l_1, d_1) = (cuts_1.panes(shape_1, rect), cuts_1.dividers(shape_1, rect));
    let (l_2, d_2) = (cuts_2.panes(shape_2, rect), cuts_2.dividers(shape_2, rect));
    if shape_1 == part && shape_2 == new {
        let spot = Spot {
            room: rect,
            leaves_before: Seq::empty(),
            leaves_behind: Seq::empty(),
            dividers_before: Seq::empty(),
            dividers_behind: Seq::empty(),
        };
        assert(cuts_1.made_by(given_by(mark), part, spot.room));
        assert(tiled(mark, part, spot.room, l_1, d_1));
        assert(tiled(mark, new, spot.room, l_2, d_2));
        assert(l_1 =~= spot.leaves_before + l_1 + spot.leaves_behind);
        assert(d_1 =~= spot.dividers_before + d_1 + spot.dividers_behind);
        assert(l_2 =~= spot.leaves_before + l_2 + spot.leaves_behind);
        assert(d_2 =~= spot.dividers_before + d_2 + spot.dividers_behind);
        assert(fills(mark, part, spot, l_1, d_1));
        assert(fills(mark, new, spot, l_2, d_2));
        spot
    } else {
        let (axis, a1, b1) = (shape_1->axis, *shape_1->a, *shape_1->b);
        let (a2, b2) = (*shape_2->a, *shape_2->b);
        let (marks, ca1, cb1) = (cuts_1->marks, *cuts_1->a, *cuts_1->b);
        let (ca2, cb2) = (*cuts_2->a, *cuts_2->b);
        assert(marks == cuts_2->marks);
        let (ra, _, rb) = rect.parts(axis, marks);
        let handle = d_1[0];
        assert(d_2[0] == handle);
        if a1.swapped(a2, part, new) && b1 == b2 {
            lemma_cuts_are_settled(given_by(mark), b1, rb, cb1, cb2);
            let inner = lemma_swap(mark, ca1, ca2, a1, a2, part, new, ra);
            let spot = Spot {
                room: inner.room,
                leaves_before: inner.leaves_before,
                leaves_behind: inner.leaves_behind + cb1.panes(b1, rb),
                dividers_before: seq![handle] + inner.dividers_before,
                dividers_behind: inner.dividers_behind + cb1.dividers(b1, rb),
            };
            lemma_widen(
                mark,
                part,
                inner,
                spot,
                ca1.panes(a1, ra),
                ca1.dividers(a1, ra),
                l_1,
                d_1,
                Seq::empty(),
                cb1.panes(b1, rb),
                seq![handle],
                cb1.dividers(b1, rb),
            );
            lemma_widen(
                mark,
                new,
                inner,
                spot,
                ca2.panes(a2, ra),
                ca2.dividers(a2, ra),
                l_2,
                d_2,
                Seq::empty(),
                cb1.panes(b1, rb),
                seq![handle],
                cb1.dividers(b1, rb),
            );
            spot
        } else {
            lemma_cuts_are_settled(given_by(mark), a1, ra, ca1, ca2);
            let inner = lemma_swap(mark, cb1, cb2, b1, b2, part, new, rb);
            let spot = Spot {
                room: inner.room,
                leaves_before: ca1.panes(a1, ra) + inner.leaves_before,
                leaves_behind: inner.leaves_behind,
                dividers_before: seq![handle] + ca1.dividers(a1, ra) + inner.dividers_before,
                dividers_behind: inner.dividers_behind,
            };
            lemma_widen(
                mark,
                part,
                inner,
                spot,
                cb1.panes(b1, rb),
                cb1.dividers(b1, rb),
                l_1,
                d_1,
                ca1.panes(a1, ra),
                Seq::empty(),
                seq![handle] + ca1.dividers(a1, ra),
                Seq::empty(),
            );
            lemma_widen(
                mark,
                new,
                inner,
                spot,
                cb2.panes(b2, rb),
                cb2.dividers(b2, rb),
                l_2,
                d_2,
                ca1.panes(a1, ra),
                Seq::empty(),
                seq![handle] + ca1.dividers(a1, ra),
                Seq::empty(),
            );
            spot
        }
    }
}

/// A spot in a list is one in a longer list.
proof fn lemma_widen<M: Fn(Span, Span, Scalar) -> Marks>(
    mark: M,
    part: Shape,
    inner: Spot,
    spot: Spot,
    leaves: Seq<(PaneId, Rect)>,
    dividers: Seq<Divider>,
    all_leaves: Seq<(PaneId, Rect)>,
    all_dividers: Seq<Divider>,
    l_before: Seq<(PaneId, Rect)>,
    l_behind: Seq<(PaneId, Rect)>,
    d_before: Seq<Divider>,
    d_behind: Seq<Divider>,
)
    requires
        fills(mark, part, inner, leaves, dividers),
        all_leaves =~= l_before + leaves + l_behind,
        all_dividers =~= d_before + dividers + d_behind,
        spot.room == inner.room,
        spot.leaves_before =~= l_before + inner.leaves_before,
        spot.leaves_behind =~= inner.leaves_behind + l_behind,
        spot.dividers_before =~= d_before + inner.dividers_before,
        spot.dividers_behind =~= inner.dividers_behind + d_behind,
    ensures
        fills(mark, part, spot, all_leaves, all_dividers),
{
    let (l, d) = choose|l: Seq<(PaneId, Rect)>, d: Seq<Divider>|
        {
            &&& #[trigger] tiled(mark, part, inner.room, l, d)
            &&& leaves == inner.leaves_before + l + inner.leaves_behind
            &&& dividers == inner.dividers_before + d + inner.dividers_behind
        };
    assert(tiled(mark, part, spot.room, l, d));
    assert(all_leaves =~= spot.leaves_before + l + spot.leaves_behind);
    assert(all_dividers =~= spot.dividers_before + d + spot.dividers_behind);
}

/// Of two lists in a row, the first entry for a pane is that of the first list
/// that has one.
pub proof fn lemma_rect_of_both(first: Seq<(PaneId, Rect)>, second: Seq<(PaneId, Rect)>, q: PaneId)
    ensures
        rect_of(first + second, q) == match rect_of(first, q) {
            Some(r) => Some(r),
            None => rect_of(second, q),
        },
    decreases first.len(),
{
    if first.len() == 0 {
        assert(first + second =~= second);
    } else {
        assert((first + second).drop_first() =~= first.drop_first() + second);
        lemma_rect_of_both(first.drop_first(), second, q);
    }
}

/// A pane has a rect exactly if the tree has the pane.
pub proof fn lemma_rect_of_listed(leaves: Seq<(PaneId, Rect)>, q: PaneId)
    ensures
        rect_of(leaves, q) is Some <==> leaves.map_values(
            |leaf: (PaneId, Rect)| leaf.0,
        ).contains(q),
    decreases leaves.len(),
{
    let id = |leaf: (PaneId, Rect)| leaf.0;
    let ids = leaves.map_values(id);
    if leaves.len() > 0 {
        let rest = leaves.drop_first();
        lemma_rect_of_listed(rest, q);
        if leaves[0].0 == q {
            assert(ids[0] == q);
        } else {
            if rest.map_values(id).contains(q) {
                let k = rest.map_values(id).index_of(q);
                assert(rest.map_values(id)[k] == q);
                assert(ids[k + 1] == q);
            }
            if ids.contains(q) {
                let k = ids.index_of(q);
                assert(ids[k] == q);
                assert(rest.map_values(id)[k - 1] == q);
            }
        }
    }
}

proof fn lemma_rect_outside<M: Fn(Span, Span, Scalar) -> Marks>(
    mark: M,
    part: Shape,
    spot: Spot,
    leaves: Seq<(PaneId, Rect)>,
    dividers: Seq<Divider>,
    q: PaneId,
)
    requires
        fills(mark, part, spot, leaves, dividers),
        !part.has(q),
    ensures
        rect_of(leaves, q) == rect_of(spot.leaves_before + spot.leaves_behind, q),
{
    let (l, d) = choose|l: Seq<(PaneId, Rect)>, d: Seq<Divider>|
        {
            &&& #[trigger] tiled(mark, part, spot.room, l, d)
            &&& leaves == spot.leaves_before + l + spot.leaves_behind
            &&& dividers == spot.dividers_before + d + spot.dividers_behind
        };
    law_one_rect_per_pane(mark, part, spot.room, l, d);
    law_listed(part, q);
    lemma_rect_of_listed(l, q);
    lemma_rect_of_both(spot.leaves_before + l, spot.leaves_behind, q);
    lemma_rect_of_both(spot.leaves_before, l, q);
    lemma_rect_of_both(spot.leaves_before, spot.leaves_behind, q);
}

/// Taking a pane out puts the child beside it in the place of the split around it.
proof fn lemma_without_swaps(shape: Shape, pane: PaneId)
    requires
        shape.around(pane) is Some,
    ensures
        shape.swapped(
            shape.without(pane),
            shape.split_around(pane),
            shape.around(pane).unwrap().1,
        ),
        shape.split_around(pane) is Split,
        shape.split_around(pane).slot() == shape.around(pane).unwrap().0,
        forall|q: PaneId| #[trigger]
            shape.split_around(pane).has(q) <==> q == pane || shape.around(pane).unwrap().1.has(q),
    decreases shape,
{
    if let Shape::Split { a, b, .. } = shape {
        lemma_around(*a, pane);
        lemma_around(*b, pane);
        let (part, new) = (shape.split_around(pane), shape.around(pane).unwrap().1);
        if a.has(pane) {
            if *a is Split {
                lemma_without_swaps(*a, pane);
            } else {
                assert forall|q: PaneId| #[trigger] part.has(q) <==> q == pane || new.has(q) by {
                    assert(a.has(q) <==> q == pane);
                }
            }
        } else if *b is Split {
            lemma_without_swaps(*b, pane);
        } else {
            assert forall|q: PaneId| #[trigger] part.has(q) <==> q == pane || new.has(q) by {
                assert(b.has(q) <==> q == pane);
            }
        }
    }
}

/// Closing a pane changes the screen in one spot only. The child beside the pane
/// takes over the rect of the split that held both, and every pane outside that
/// split keeps its rect.
pub proof fn law_close_is_local<M: Fn(Span, Span, Scalar) -> Marks>(
    mark: M,
    layout: Layout,
    pane: PaneId,
    area: Rect,
    leaves_1: Seq<(PaneId, Rect)>,
    dividers_1: Seq<Divider>,
    leaves_2: Seq<(PaneId, Rect)>,
    dividers_2: Seq<Divider>,
)
    requires
        layout.shape.around(pane) is Some,
        tiled(mark, layout.shape, area, leaves_1, dividers_1),
        tiled(mark, layout.close(pane).shape, area, leaves_2, dividers_2),
        steady(mark),
    ensures
        ({
            let (parent, sibling) = layout.shape.around(pane).unwrap();
            let split = layout.shape.split_around(pane);
            &&& split is Split && split.slot() == parent
            &&& differ_in_one_spot(
                mark,
                split,
                sibling,
                leaves_1,
                dividers_1,
                leaves_2,
                dividers_2,
            )
            &&& forall|q: PaneId|
                q != pane && !sibling.has(q) ==> #[trigger] rect_of(leaves_1, q) == rect_of(
                    leaves_2,
                    q,
                )
        }),
{
    let sibling = layout.shape.around(pane).unwrap().1;
    let split = layout.shape.split_around(pane);
    lemma_without_swaps(layout.shape, pane);
    law_swap_is_local(
        mark,
        layout.shape,
        layout.close(pane).shape,
        split,
        sibling,
        area,
        leaves_1,
        dividers_1,
        leaves_2,
        dividers_2,
    );
    assert forall|q: PaneId| q != pane && !sibling.has(q) implies #[trigger] rect_of(leaves_1, q)
        == rect_of(leaves_2, q) by {
        assert(split.has(q) <==> q == pane || sibling.has(q));
    }
}

/// Setting a ratio swaps the part in that slot.
proof fn lemma_with_ratio_swaps(shape: Shape, node: int, value: Scalar)
    requires
        shape.distinct(),
        shape.owns(node),
    ensures
        shape.swapped(
            shape.with_ratio(node, value),
            shape.part_at(node),
            shape.part_at(node).with_ratio(node, value),
        ),
        shape.part_at(node).slot() == node,
    decreases shape,
{
    if let Shape::Split { slot, a, b, .. } = shape {
        if slot != node {
            if a.owns(node) {
                lemma_with_ratio_swaps(*a, node, value);
                assert(!b.owns(node));
                lemma_with_ratio_slots(*b, node, value);
            } else {
                lemma_with_ratio_swaps(*b, node, value);
                lemma_with_ratio_slots(*a, node, value);
            }
        }
    }
}

/// Dragging a divider changes the screen in one spot only: the rect of the split
/// that it belongs to. Every pane outside that split keeps its rect.
pub proof fn law_drag_is_local<M: Fn(Span, Span, Scalar) -> Marks>(
    mark: M,
    layout: Layout,
    node: int,
    value: Scalar,
    area: Rect,
    leaves_1: Seq<(PaneId, Rect)>,
    dividers_1: Seq<Divider>,
    leaves_2: Seq<(PaneId, Rect)>,
    dividers_2: Seq<Divider>,
)
    requires
        layout.shape.distinct(),
        layout.shape.owns(node),
        tiled(mark, layout.shape, area, leaves_1, dividers_1),
        tiled(mark, layout.with_ratio(node, value).shape, area, leaves_2, dividers_2),
        steady(mark),
    ensures
        ({
            let split = layout.shape.part_at(node);
            &&& split.slot() == node
            &&& differ_in_one_spot(
                mark,
                split,
                split.with_ratio(node, value),
                leaves_1,
                dividers_1,
                leaves_2,
                dividers_2,
            )
            &&& forall|q: PaneId|
                !split.has(q) ==> #[trigger] rect_of(leaves_1, q) == rect_of(leaves_2, q)
        }),
{
    let split = layout.shape.part_at(node);
    lemma_with_ratio_swaps(layout.shape, node, value);
    lemma_with_ratio_slots(split, node, value);
    law_swap_is_local(
        mark,
        layout.shape,
        layout.with_ratio(node, value).shape,
        split,
        split.with_ratio(node, value),
        area,
        leaves_1,
        dividers_1,
        leaves_2,
        dividers_2,
    );
    assert forall|q: PaneId| !split.has(q) implies #[trigger] rect_of(leaves_1, q) == rect_of(
        leaves_2,
        q,
    ) by {
        assert(split.with_ratio(node, value).has(q) == split.has(q));
    }
}

/// Grafting swaps a leaf.
proof fn lemma_graft_swaps(shape: Shape, pane: PaneId, sub: Shape)
    requires
        shape.has(pane),
    ensures
        shape.swapped(
            shape.graft(pane, sub),
            Shape::Leaf { slot: shape.find(pane).unwrap(), pane },
            sub,
        ),
    decreases shape,
{
    if let Shape::Split { a, b, .. } = shape {
        lemma_find(*a, pane);
        if a.has(pane) {
            lemma_graft_swaps(*a, pane, sub);
        } else {
            lemma_graft_swaps(*b, pane, sub);
        }
    }
}

/// Splitting a pane, or merging a tree in beside it, changes the screen in one spot
/// only: the rect of that pane, which the new split fills. Every other pane keeps
/// its rect.
pub proof fn law_merge_is_local<M: Fn(Span, Span, Scalar) -> Marks>(
    mark: M,
    layout: Layout,
    target: PaneId,
    other: Shape,
    axis: Axis,
    after: bool,
    area: Rect,
    leaves_1: Seq<(PaneId, Rect)>,
    dividers_1: Seq<Divider>,
    leaves_2: Seq<(PaneId, Rect)>,
    dividers_2: Seq<Divider>,
)
    requires
        layout.shape.has(target),
        tiled(mark, layout.shape, area, leaves_1, dividers_1),
        tiled(mark, layout.attach(target, other, axis, after).shape, area, leaves_2, dividers_2),
        steady(mark),
    ensures
        ({
            let leaf = layout.shape.find(target).unwrap();
            let kept = Shape::Leaf { slot: layout.pool.next(), pane: target };
            let copy = other.copied(layout.pool.rest()).0;
            differ_in_one_spot(
                mark,
                Shape::Leaf { slot: leaf, pane: target },
                joined(leaf, axis, Scalar { bits: HALF }, kept, copy, after),
                leaves_1,
                dividers_1,
                leaves_2,
                dividers_2,
            )
        }),
        forall|q: PaneId|
            q != target && !other.has(q) ==> #[trigger] rect_of(leaves_1, q) == rect_of(
                leaves_2,
                q,
            ),
{
    lemma_find(layout.shape, target);
    let leaf = layout.shape.find(target).unwrap();
    let kept = Shape::Leaf { slot: layout.pool.next(), pane: target };
    let copy = other.copied(layout.pool.rest()).0;
    let old_leaf = Shape::Leaf { slot: leaf, pane: target };
    let sub = joined(leaf, axis, Scalar { bits: HALF }, kept, copy, after);
    lemma_graft_swaps(layout.shape, target, sub);
    law_swap_is_local(
        mark,
        layout.shape,
        layout.attach(target, other, axis, after).shape,
        old_leaf,
        sub,
        area,
        leaves_1,
        dividers_1,
        leaves_2,
        dividers_2,
    );
    assert forall|q: PaneId| q != target && !other.has(q) implies #[trigger] rect_of(leaves_1, q)
        == rect_of(leaves_2, q) by {
        lemma_copied_has(other, layout.pool.rest(), q);
        assert(kept.has(q) <==> q == target);
        assert(!old_leaf.has(q));
        assert(!sub.has(q));
    }
}

proof fn lemma_copied_has(shape: Shape, pool: Pool, q: PaneId)
    ensures
        shape.copied(pool).0.has(q) == shape.has(q),
    decreases shape,
{
    if let Shape::Split { a, b, .. } = shape {
        lemma_copied_has(*a, pool.rest(), q);
        lemma_copied_has(*b, a.copied(pool.rest()).1, q);
    }
}

} // verus!
