//! Laws of geometry: panes and dividers tile the area of a tab, and the focus
//! moves from one pane to another.

use crate::geometry::{given_by, lemma_tiled, tiled, Cuts, Divider, Marks, Rect, Span};
use crate::laws::layout::{
    law_close_undoes_split, law_set_ratio, lemma_copied_panes, lemma_split_in_owned,
};
use crate::layout::{Axis, Dir, PaneId};
use crate::navigation::{faces, is_nearest, leads_to, reachable, rect_of, Gauge};
use crate::scalar::Scalar;
use crate::shape::{Layout, Pool, Shape};
use vstd::prelude::*;

verus! {

impl Scalar {
    /// The comparison `self <= other`.
    pub open spec fn up_to(self, other: Scalar) -> bool {
        self.is_number() && other.is_number() && self.rank() <= other.rank()
    }
}

impl Rect {
    /// Whether no edge of this rect lies before the opposite one.
    pub open spec fn proper(self) -> bool {
        self.min_x.up_to(self.max_x) && self.min_y.up_to(self.max_y)
    }

    /// Whether this rect lies within `area`.
    pub open spec fn inside(self, area: Rect) -> bool {
        &&& self.proper()
        &&& area.min_x.up_to(self.min_x)
        &&& area.min_y.up_to(self.min_y)
        &&& self.max_x.up_to(area.max_x)
        &&& self.max_y.up_to(area.max_y)
    }

    /// Whether this rect and `other` share at most an edge.
    pub open spec fn apart(self, other: Rect) -> bool {
        ||| self.max_x.up_to(other.min_x)
        ||| other.max_x.up_to(self.min_x)
        ||| self.max_y.up_to(other.min_y)
        ||| other.max_y.up_to(self.min_y)
    }

    /// Whether the point whose coordinates have the ranks `x` and `y` lies in
    /// this rect, which holds its top and left but not its other edges.
    pub open spec fn covers(self, x: int, y: int) -> bool {
        &&& self.min_x.rank() <= x < self.max_x.rank()
        &&& self.min_y.rank() <= y < self.max_y.rank()
    }
}

/// Whether a split has room: its marks follow one another within its rect.
pub open spec fn in_order(rect: Rect, axis: Axis, marks: Marks) -> bool {
    &&& rect.along(axis).start.up_to(marks.first_end)
    &&& marks.first_end.up_to(marks.second_start)
    &&& marks.second_start.up_to(marks.second_end)
    &&& marks.second_end.up_to(rect.along(axis).end)
    &&& rect.across(axis).start.up_to(marks.cross_end)
    &&& marks.cross_end.up_to(rect.across(axis).end)
}

/// Whether the marks of a split follow one another, whatever the room in its rect.
pub open spec fn follow(rect: Rect, axis: Axis, marks: Marks) -> bool {
    &&& rect.along(axis).start.up_to(marks.first_end)
    &&& marks.first_end.up_to(marks.second_start)
    &&& marks.second_start.up_to(marks.second_end)
    &&& rect.across(axis).start.up_to(marks.cross_end)
}

/// Whether `mark` gives equal results for equal arguments.
pub open spec fn steady<M: Fn(Span, Span, Scalar) -> Marks>(mark: M) -> bool {
    forall|args: (Span, Span, Scalar), m1: Marks, m2: Marks|
        #![trigger call_ensures(mark, args, m1), call_ensures(mark, args, m2)]
        call_ensures(mark, args, m1) && call_ensures(mark, args, m2) ==> m1 == m2
}

/// The number zero.
pub open spec fn zero() -> Scalar {
    Scalar { bits: 0 }
}

impl Divider {
    /// The same divider without its handle.
    pub open spec fn unplaced(self) -> Divider {
        Divider { node: 0, ..self }
    }
}

/// Whether two lists of dividers differ in their handles only.
pub open spec fn alike(dividers_1: Seq<Divider>, dividers_2: Seq<Divider>) -> bool {
    &&& dividers_1.len() == dividers_2.len()
    &&& forall|k: int|
        0 <= k < dividers_1.len() ==> (#[trigger] dividers_1[k]).unplaced()
            == dividers_2[k].unplaced()
}

/// Whether the marks of a split reach just to the far edges of its rect.
pub open spec fn flush(rect: Rect, axis: Axis, marks: Marks) -> bool {
    &&& marks.second_end.rank() == rect.along(axis).end.rank()
    &&& marks.cross_end.rank() == rect.across(axis).end.rank()
}

impl Cuts {
    /// Whether each split of a tree that fills `rect` has room.
    pub open spec fn roomy(self, shape: Shape, rect: Rect) -> bool
        decreases shape,
    {
        match shape {
            Shape::Leaf { .. } => true,
            Shape::Split { axis, a, b, .. } => {
                &&& self matches Cuts::Cut { marks, a: ca, b: cb }
                &&& in_order(rect, axis, marks)
                &&& ca.roomy(*a, rect.parts(axis, marks).0)
                &&& cb.roomy(*b, rect.parts(axis, marks).2)
            },
        }
    }

    /// Whether the marks of each split of a tree that fills `rect` follow one
    /// another.
    pub open spec fn forward(self, shape: Shape, rect: Rect) -> bool
        decreases shape,
    {
        match shape {
            Shape::Leaf { .. } => true,
            Shape::Split { axis, a, b, .. } => {
                &&& self matches Cuts::Cut { marks, a: ca, b: cb }
                &&& follow(rect, axis, marks)
                &&& ca.forward(*a, rect.parts(axis, marks).0)
                &&& cb.forward(*b, rect.parts(axis, marks).2)
            },
        }
    }

    /// Whether the marks of each split of a tree that fills `rect` reach just to
    /// the far edges of its rect.
    pub open spec fn all_flush(self, shape: Shape, rect: Rect) -> bool
        decreases shape,
    {
        match shape {
            Shape::Leaf { .. } => true,
            Shape::Split { axis, a, b, .. } => {
                &&& self matches Cuts::Cut { marks, a: ca, b: cb }
                &&& flush(rect, axis, marks)
                &&& ca.all_flush(*a, rect.parts(axis, marks).0)
                &&& cb.all_flush(*b, rect.parts(axis, marks).2)
            },
        }
    }
}

/// The first child of a split starts where its rect does, the divider starts
/// where the first child ends, and the second child where the divider ends; all
/// three are aligned across the axis.
pub proof fn law_divider_between(rect: Rect, axis: Axis, marks: Marks)
    ensures
        ({
            let (a, handle, b) = rect.parts(axis, marks);
            &&& a.along(axis).start == rect.along(axis).start
            &&& a.along(axis).end == handle.along(axis).start
            &&& handle.along(axis).end == b.along(axis).start
            &&& a.across(axis) == handle.across(axis)
            &&& handle.across(axis) == b.across(axis)
        }),
{
}

/// The geometry pass gives every pane one rect, in tree order, and there is one
/// divider less than there are panes.
pub proof fn law_one_rect_per_pane<M: Fn(Span, Span, Scalar) -> Marks>(
    mark: M,
    shape: Shape,
    area: Rect,
    leaves: Seq<(PaneId, Rect)>,
    dividers: Seq<Divider>,
)
    requires
        tiled(mark, shape, area, leaves, dividers),
    ensures
        leaves.map_values(|leaf: (PaneId, Rect)| leaf.0) == shape.panes(),
        leaves.len() == dividers.len() + 1,
{
    let cuts = lemma_tiled(mark, shape, area, leaves, dividers);
    lemma_one_rect_per_pane(given_by(mark), cuts, shape, area);
}

pub proof fn lemma_one_rect_per_pane(
    given: spec_fn(Span, Span, Scalar, Marks) -> bool,
    cuts: Cuts,
    shape: Shape,
    rect: Rect,
)
    requires
        cuts.made_by(given, shape, rect),
    ensures
        cuts.panes(shape, rect).map_values(|leaf: (PaneId, Rect)| leaf.0) == shape.panes(),
        cuts.panes(shape, rect).len() == cuts.dividers(shape, rect).len() + 1,
    decreases shape,
{
    let id = |leaf: (PaneId, Rect)| leaf.0;
    match shape {
        Shape::Leaf { .. } => {
            assert(cuts.panes(shape, rect).map_values(id) =~= shape.panes());
        },
        Shape::Split { axis, a, b, .. } => {
            if let Cuts::Cut { marks, a: ca, b: cb } = cuts {
                let (ra, _, rb) = rect.parts(axis, marks);
                lemma_one_rect_per_pane(given, *ca, *a, ra);
                lemma_one_rect_per_pane(given, *cb, *b, rb);
                assert(cuts.panes(shape, rect).map_values(id) =~= ca.panes(*a, ra).map_values(id)
                    + cb.panes(*b, rb).map_values(id));
            }
        },
    }
}

/// Every divider belongs to a split of the tree, and carries its slot, its axis
/// and its ratio.
pub proof fn law_dividers_belong<M: Fn(Span, Span, Scalar) -> Marks>(
    mark: M,
    shape: Shape,
    area: Rect,
    leaves: Seq<(PaneId, Rect)>,
    dividers: Seq<Divider>,
    k: int,
)
    requires
        tiled(mark, shape, area, leaves, dividers),
        shape.distinct(),
        forall|i: int| #[trigger] shape.owns(i) ==> 0 <= i <= usize::MAX,
        0 <= k < dividers.len(),
    ensures
        shape.split_in(dividers[k].node as int) == Some((dividers[k].axis, dividers[k].ratio)),
{
    let cuts = lemma_tiled(mark, shape, area, leaves, dividers);
    lemma_dividers_belong(given_by(mark), cuts, shape, area, k);
}

proof fn lemma_dividers_belong(
    given: spec_fn(Span, Span, Scalar, Marks) -> bool,
    cuts: Cuts,
    shape: Shape,
    rect: Rect,
    k: int,
)
    requires
        cuts.made_by(given, shape, rect),
        shape.distinct(),
        forall|i: int| #[trigger] shape.owns(i) ==> 0 <= i <= usize::MAX,
        0 <= k < cuts.dividers(shape, rect).len(),
    ensures
        ({
            let d = cuts.dividers(shape, rect)[k];
            &&& shape.owns(d.node as int)
            &&& shape.split_in(d.node as int) == Some((d.axis, d.ratio))
        }),
    decreases shape,
{
    if let Shape::Split { slot, axis, a, b, .. } = shape {
        if let Cuts::Cut { marks, a: ca, b: cb } = cuts {
            let (ra, _, rb) = rect.parts(axis, marks);
            let n = ca.dividers(*a, ra).len();
            assert(shape.owns(slot));
            assert forall|i: int| #[trigger] a.owns(i) implies 0 <= i <= usize::MAX by {
                assert(shape.owns(i));
            }
            assert forall|i: int| #[trigger] b.owns(i) implies 0 <= i <= usize::MAX by {
                assert(shape.owns(i));
            }
            if 1 <= k < 1 + n {
                assert(cuts.dividers(shape, rect)[k] == ca.dividers(*a, ra)[k - 1]);
                lemma_dividers_belong(given, *ca, *a, ra, k - 1);
            } else if k > n {
                assert(cuts.dividers(shape, rect)[k] == cb.dividers(*b, rb)[k - 1 - n]);
                lemma_dividers_belong(given, *cb, *b, rb, k - 1 - n);
                let d = cb.dividers(*b, rb)[k - 1 - n];
                lemma_split_in_owned(*a, d.node as int);
                assert(a.owns(d.node as int) ==> !b.owns(d.node as int));
            }
        }
    }
}

/// No two dividers have the same handle, so a drag reaches one split only.
pub proof fn law_dividers_are_distinct<M: Fn(Span, Span, Scalar) -> Marks>(
    mark: M,
    shape: Shape,
    area: Rect,
    leaves: Seq<(PaneId, Rect)>,
    dividers: Seq<Divider>,
)
    requires
        tiled(mark, shape, area, leaves, dividers),
        shape.distinct(),
        forall|i: int| #[trigger] shape.owns(i) ==> 0 <= i <= usize::MAX,
    ensures
        forall|j: int, k: int|
            0 <= j < k < dividers.len() ==> (#[trigger] dividers[j]).node != (
            #[trigger] dividers[k]).node,
{
    let cuts = lemma_tiled(mark, shape, area, leaves, dividers);
    assert forall|j: int, k: int| 0 <= j < k < dividers.len() implies (
    #[trigger] dividers[j]).node != (#[trigger] dividers[k]).node by {
        lemma_dividers_are_distinct(given_by(mark), cuts, shape, area, j, k);
    }
}

proof fn lemma_dividers_are_distinct(
    given: spec_fn(Span, Span, Scalar, Marks) -> bool,
    cuts: Cuts,
    shape: Shape,
    rect: Rect,
    j: int,
    k: int,
)
    requires
        cuts.made_by(given, shape, rect),
        shape.distinct(),
        forall|i: int| #[trigger] shape.owns(i) ==> 0 <= i <= usize::MAX,
        0 <= j < k < cuts.dividers(shape, rect).len(),
    ensures
        cuts.dividers(shape, rect)[j].node != cuts.dividers(shape, rect)[k].node,
    decreases shape,
{
    if let Shape::Split { slot, axis, a, b, .. } = shape {
        if let Cuts::Cut { marks, a: ca, b: cb } = cuts {
            let (ra, _, rb) = rect.parts(axis, marks);
            let (da, db) = (ca.dividers(*a, ra), cb.dividers(*b, rb));
            let n = da.len();
            let all = cuts.dividers(shape, rect);
            assert(shape.owns(slot));
            assert forall|i: int| #[trigger] a.owns(i) implies 0 <= i <= usize::MAX by {
                assert(shape.owns(i));
            }
            assert forall|i: int| #[trigger] b.owns(i) implies 0 <= i <= usize::MAX by {
                assert(shape.owns(i));
            }
            if k <= n {
                assert(all[k] == da[k - 1]);
                lemma_dividers_belong(given, *ca, *a, ra, k - 1);
                if j > 0 {
                    assert(all[j] == da[j - 1]);
                    lemma_dividers_are_distinct(given, *ca, *a, ra, j - 1, k - 1);
                }
            } else {
                assert(all[k] == db[k - 1 - n]);
                lemma_dividers_belong(given, *cb, *b, rb, k - 1 - n);
                if 0 < j <= n {
                    assert(all[j] == da[j - 1]);
                    lemma_dividers_belong(given, *ca, *a, ra, j - 1);
                    assert(!(a.owns(all[j].node as int) && b.owns(all[j].node as int)));
                } else if j > n {
                    assert(all[j] == db[j - 1 - n]);
                    lemma_dividers_are_distinct(given, *cb, *b, rb, j - 1 - n, k - 1 - n);
                }
            }
        }
    }
}

/// A lone pane fills the area. Of a split, the divider comes first, and no other
/// divider has its handle.
pub proof fn law_root_comes_first<M: Fn(Span, Span, Scalar) -> Marks>(
    mark: M,
    shape: Shape,
    area: Rect,
    leaves: Seq<(PaneId, Rect)>,
    dividers: Seq<Divider>,
)
    requires
        tiled(mark, shape, area, leaves, dividers),
        shape.distinct(),
        forall|i: int| #[trigger] shape.owns(i) ==> 0 <= i <= usize::MAX,
    ensures
        match shape {
            Shape::Leaf { pane, .. } => leaves == seq![(pane, area)] && dividers.len() == 0,
            Shape::Split { slot, axis, ratio, .. } => {
                &&& dividers.len() > 0
                &&& dividers[0].node == slot
                &&& dividers[0].axis == axis
                &&& dividers[0].ratio == ratio
                &&& forall|k: int|
                    0 < k < dividers.len() ==> (#[trigger] dividers[k]).node != slot
            },
        },
{
    let cuts = lemma_tiled(mark, shape, area, leaves, dividers);
    law_dividers_are_distinct(mark, shape, area, leaves, dividers);
    assert(shape.owns(shape.slot()));
    if shape is Split {
        assert(dividers[0].node == shape.slot());
    }
}

/// Setting the ratio of the split that a divider belongs to, as a drag does,
/// changes that ratio only.
pub proof fn law_drag_reaches_one_split<M: Fn(Span, Span, Scalar) -> Marks>(
    mark: M,
    layout: Layout,
    area: Rect,
    leaves: Seq<(PaneId, Rect)>,
    dividers: Seq<Divider>,
    k: int,
    value: Scalar,
)
    requires
        tiled(mark, layout.shape, area, leaves, dividers),
        layout.shape.distinct(),
        forall|i: int| #[trigger] layout.shape.owns(i) ==> 0 <= i <= usize::MAX,
        0 <= k < dividers.len(),
    ensures
        forall|j: int|
            0 <= j < dividers.len() ==> layout.with_ratio(
                dividers[k].node as int,
                value,
            ).shape.split_in((#[trigger] dividers[j]).node as int) == Some(
                (
                    dividers[j].axis,
                    if j == k {
                        value
                    } else {
                        dividers[j].ratio
                    },
                ),
            ),
{
    let node = dividers[k].node as int;
    law_dividers_are_distinct(mark, layout.shape, area, leaves, dividers);
    assert forall|j: int| 0 <= j < dividers.len() implies layout.with_ratio(
        node,
        value,
    ).shape.split_in((#[trigger] dividers[j]).node as int) == Some(
        (
            dividers[j].axis,
            if j == k {
                value
            } else {
                dividers[j].ratio
            },
        ),
    ) by {
        law_dividers_belong(mark, layout.shape, area, leaves, dividers, j);
        law_set_ratio(layout, node, value, dividers[j].node as int);
    }
}

/// No rect of a pane or of a divider is turned inside out, however little room
/// there is, as long as the marks of each split follow one another.
pub proof fn law_rects_stay_proper(cuts: Cuts, shape: Shape, area: Rect)
    requires
        area.proper(),
        cuts.forward(shape, area),
    ensures
        forall|i: int|
            0 <= i < cuts.panes(shape, area).len() ==> (#[trigger] cuts.panes(
                shape,
                area,
            )[i]).1.proper(),
        forall|k: int|
            0 <= k < cuts.dividers(shape, area).len() ==> (#[trigger] cuts.dividers(
                shape,
                area,
            )[k]).rect.proper(),
    decreases shape,
{
    if let Shape::Split { axis, a, b, .. } = shape {
        if let Cuts::Cut { marks, a: ca, b: cb } = cuts {
            let (ra, handle, rb) = area.parts(axis, marks);
            law_rects_stay_proper(*ca, *a, ra);
            law_rects_stay_proper(*cb, *b, rb);
            let (la, lb) = (ca.panes(*a, ra), cb.panes(*b, rb));
            let (da, db) = (ca.dividers(*a, ra), cb.dividers(*b, rb));
            let leaves = cuts.panes(shape, area);
            let dividers = cuts.dividers(shape, area);
            assert(handle.proper());
            assert forall|i: int| 0 <= i < leaves.len() implies (
            #[trigger] leaves[i]).1.proper() by {
                if i < la.len() {
                    assert(leaves[i] == la[i]);
                } else {
                    assert(leaves[i] == lb[i - la.len()]);
                }
            }
            assert forall|k: int| 0 <= k < dividers.len() implies (
            #[trigger] dividers[k]).rect.proper() by {
                if 1 <= k < 1 + da.len() {
                    assert(dividers[k] == da[k - 1]);
                } else if k >= 1 + da.len() {
                    assert(dividers[k] == db[k - 1 - da.len()]);
                }
            }
        }
    }
}

/// Panes and dividers lie within the area and do not overlap, as long as each
/// split has room for its divider.
pub proof fn law_tiles_stay_apart(cuts: Cuts, shape: Shape, area: Rect)
    requires
        area.proper(),
        cuts.roomy(shape, area),
    ensures
        ({
            let leaves = cuts.panes(shape, area);
            let dividers = cuts.dividers(shape, area);
            &&& forall|i: int| 0 <= i < leaves.len() ==> (#[trigger] leaves[i]).1.inside(area)
            &&& forall|k: int|
                0 <= k < dividers.len() ==> (#[trigger] dividers[k]).rect.inside(area)
            &&& forall|i: int, j: int|
                0 <= i < j < leaves.len() ==> (#[trigger] leaves[i]).1.apart(
                    (#[trigger] leaves[j]).1,
                )
            &&& forall|k: int, l: int|
                0 <= k < l < dividers.len() ==> (#[trigger] dividers[k]).rect.apart(
                    (#[trigger] dividers[l]).rect,
                )
            &&& forall|i: int, k: int|
                0 <= i < leaves.len() && 0 <= k < dividers.len()
                    ==> (#[trigger] leaves[i]).1.apart((#[trigger] dividers[k]).rect)
        }),
    decreases shape,
{
    if let Shape::Split { axis, a, b, .. } = shape {
        if let Cuts::Cut { marks, a: ca, b: cb } = cuts {
            let (ra, handle, rb) = area.parts(axis, marks);
            law_tiles_stay_apart(*ca, *a, ra);
            law_tiles_stay_apart(*cb, *b, rb);
            let (la, lb) = (ca.panes(*a, ra), cb.panes(*b, rb));
            let (da, db) = (ca.dividers(*a, ra), cb.dividers(*b, rb));
            let leaves = cuts.panes(shape, area);
            let dividers = cuts.dividers(shape, area);
            assert(leaves =~= la + lb);
            assert forall|i: int| 0 <= i < leaves.len() implies {
                ||| i < la.len() && #[trigger] leaves[i] == la[i] && la[i].1.inside(ra)
                ||| i >= la.len() && leaves[i] == lb[i - la.len()] && lb[i - la.len()].1.inside(rb)
            } by {}
            assert forall|k: int| 0 <= k < dividers.len() implies {
                ||| k == 0 && (#[trigger] dividers[k]).rect == handle
                ||| 1 <= k < 1 + da.len() && dividers[k] == da[k - 1] && da[k - 1].rect.inside(ra)
                ||| k >= 1 + da.len() && dividers[k] == db[k - 1 - da.len()] && db[k - 1
                    - da.len()].rect.inside(rb)
            } by {}
        }
    }
}

/// Whether divider `d` lies between `first` and `second`, in this order, on its
/// axis.
pub open spec fn between(first: Rect, d: Divider, second: Rect) -> bool {
    &&& first.along(d.axis).end.up_to(d.rect.along(d.axis).start)
    &&& d.rect.along(d.axis).start.up_to(d.rect.along(d.axis).end)
    &&& d.rect.along(d.axis).end.up_to(second.along(d.axis).start)
}

/// Whether some of the dividers lies between `first` and `second`.
pub open spec fn parted(first: Rect, dividers: Seq<Divider>, second: Rect) -> bool {
    exists|k: int| 0 <= k < dividers.len() && between(first, #[trigger] dividers[k], second)
}

/// Panes come in order: of any two, the earlier one is the left or the upper one,
/// and some divider lies between them, as long as each split has room.
pub proof fn law_panes_come_in_order(cuts: Cuts, shape: Shape, area: Rect)
    requires
        area.proper(),
        cuts.roomy(shape, area),
    ensures
        ({
            let leaves = cuts.panes(shape, area);
            let dividers = cuts.dividers(shape, area);
            forall|i: int, j: int|
                0 <= i < j < leaves.len() ==> {
                    let (first, second) = (#[trigger] leaves[i], #[trigger] leaves[j]);
                    &&& first.1.max_x.up_to(second.1.min_x) || first.1.max_y.up_to(second.1.min_y)
                    &&& parted(first.1, dividers, second.1)
                }
        }),
{
    let leaves = cuts.panes(shape, area);
    let dividers = cuts.dividers(shape, area);
    assert forall|i: int, j: int| 0 <= i < j < leaves.len() implies {
        let (first, second) = (#[trigger] leaves[i], #[trigger] leaves[j]);
        &&& first.1.max_x.up_to(second.1.min_x) || first.1.max_y.up_to(second.1.min_y)
        &&& parted(first.1, dividers, second.1)
    } by {
        let k = lemma_divider_between(cuts, shape, area, i, j);
        assert(between(leaves[i].1, dividers[k], leaves[j].1));
    }
}

proof fn lemma_divider_between(cuts: Cuts, shape: Shape, area: Rect, i: int, j: int) -> (k: int)
    requires
        area.proper(),
        cuts.roomy(shape, area),
        0 <= i < j < cuts.panes(shape, area).len(),
    ensures
        0 <= k < cuts.dividers(shape, area).len(),
        between(
            cuts.panes(shape, area)[i].1,
            cuts.dividers(shape, area)[k],
            cuts.panes(shape, area)[j].1,
        ),
    decreases shape,
{
    if let Shape::Split { axis, a, b, .. } = shape {
        if let Cuts::Cut { marks, a: ca, b: cb } = cuts {
            let (ra, _, rb) = area.parts(axis, marks);
            let (la, lb) = (ca.panes(*a, ra), cb.panes(*b, rb));
            let (da, db) = (ca.dividers(*a, ra), cb.dividers(*b, rb));
            let leaves = cuts.panes(shape, area);
            let dividers = cuts.dividers(shape, area);
            if j < la.len() {
                let k = lemma_divider_between(*ca, *a, ra, i, j);
                assert(dividers[k + 1] == da[k]);
                k + 1
            } else if i >= la.len() {
                let k = lemma_divider_between(*cb, *b, rb, i - la.len(), j - la.len());
                assert(dividers[k + 1 + da.len()] == db[k]);
                k + 1 + da.len()
            } else {
                law_tiles_stay_apart(*ca, *a, ra);
                law_tiles_stay_apart(*cb, *b, rb);
                assert(leaves[i] == la[i]);
                assert(leaves[j] == lb[j - la.len()]);
                0
            }
        } else {
            0
        }
    } else {
        0
    }
}

/// Every point of the area lies in a pane or in a divider, as long as each split
/// has room and its marks reach just to the far edges.
pub proof fn law_tiles_cover(cuts: Cuts, shape: Shape, area: Rect, x: int, y: int)
    requires
        area.proper(),
        cuts.roomy(shape, area),
        cuts.all_flush(shape, area),
        area.covers(x, y),
    ensures
        ({
            ||| exists|i: int|
                0 <= i < cuts.panes(shape, area).len() && (#[trigger] cuts.panes(
                    shape,
                    area,
                )[i]).1.covers(x, y)
            ||| exists|k: int|
                0 <= k < cuts.dividers(shape, area).len() && (#[trigger] cuts.dividers(
                    shape,
                    area,
                )[k]).rect.covers(x, y)
        }),
    decreases shape,
{
    let leaves = cuts.panes(shape, area);
    let dividers = cuts.dividers(shape, area);
    match shape {
        Shape::Leaf { .. } => {
            assert(leaves[0].1.covers(x, y));
        },
        Shape::Split { axis, a, b, .. } => {
            if let Cuts::Cut { marks, a: ca, b: cb } = cuts {
                let (ra, handle, rb) = area.parts(axis, marks);
                let (la, lb) = (ca.panes(*a, ra), cb.panes(*b, rb));
                let (da, db) = (ca.dividers(*a, ra), cb.dividers(*b, rb));
                if ra.covers(x, y) {
                    law_tiles_cover(*ca, *a, ra, x, y);
                    if exists|i: int| 0 <= i < la.len() && (#[trigger] la[i]).1.covers(x, y) {
                        let i = choose|i: int|
                            0 <= i < la.len() && (#[trigger] la[i]).1.covers(x, y);
                        assert(leaves[i].1.covers(x, y));
                    } else {
                        let k = choose|k: int|
                            0 <= k < da.len() && (#[trigger] da[k]).rect.covers(x, y);
                        assert(dividers[k + 1].rect.covers(x, y));
                    }
                } else if rb.covers(x, y) {
                    law_tiles_cover(*cb, *b, rb, x, y);
                    if exists|i: int| 0 <= i < lb.len() && (#[trigger] lb[i]).1.covers(x, y) {
                        let i = choose|i: int|
                            0 <= i < lb.len() && (#[trigger] lb[i]).1.covers(x, y);
                        assert(leaves[la.len() + i].1.covers(x, y));
                    } else {
                        let k = choose|k: int|
                            0 <= k < db.len() && (#[trigger] db[k]).rect.covers(x, y);
                        assert(dividers[1 + da.len() + k].rect.covers(x, y));
                    }
                } else {
                    assert(handle.covers(x, y));
                    assert(dividers[0].rect.covers(x, y));
                }
            }
        },
    }
}

/// The geometry of a tree is settled by the tree, its area and the arithmetic of
/// a split, where that arithmetic gives equal results for equal arguments.
pub proof fn law_geometry_is_settled<M: Fn(Span, Span, Scalar) -> Marks>(
    mark: M,
    shape: Shape,
    area: Rect,
    leaves_1: Seq<(PaneId, Rect)>,
    dividers_1: Seq<Divider>,
    leaves_2: Seq<(PaneId, Rect)>,
    dividers_2: Seq<Divider>,
)
    requires
        tiled(mark, shape, area, leaves_1, dividers_1),
        tiled(mark, shape, area, leaves_2, dividers_2),
        steady(mark),
    ensures
        leaves_1 == leaves_2,
        dividers_1 == dividers_2,
{
    let cuts_1 = lemma_tiled(mark, shape, area, leaves_1, dividers_1);
    let cuts_2 = lemma_tiled(mark, shape, area, leaves_2, dividers_2);
    lemma_cuts_are_settled(given_by(mark), shape, area, cuts_1, cuts_2);
}

pub proof fn lemma_cuts_are_settled(
    given: spec_fn(Span, Span, Scalar, Marks) -> bool,
    shape: Shape,
    rect: Rect,
    cuts_1: Cuts,
    cuts_2: Cuts,
)
    requires
        cuts_1.made_by(given, shape, rect),
        cuts_2.made_by(given, shape, rect),
        forall|along: Span, across: Span, ratio: Scalar, m1: Marks, m2: Marks|
            #![trigger given(along, across, ratio, m1), given(along, across, ratio, m2)]
            given(along, across, ratio, m1) && given(along, across, ratio, m2) ==> m1 == m2,
    ensures
        cuts_1 == cuts_2,
    decreases shape,
{
    if let Shape::Split { axis, a, b, .. } = shape {
        if let Cuts::Cut { marks, a: a1, b: b1 } = cuts_1 {
            if let Cuts::Cut { marks: m2, a: a2, b: b2 } = cuts_2 {
                assert(marks == m2);
                lemma_cuts_are_settled(given, *a, rect.parts(axis, marks).0, *a1, *a2);
                lemma_cuts_are_settled(given, *b, rect.parts(axis, marks).2, *b1, *b2);
            }
        }
    }
}

/// Geometry is blind to slots: trees that differ in the slots of their nodes only
/// give every pane the same rect, and the same dividers but for their handles.
pub proof fn law_geometry_is_blind_to_slots<M: Fn(Span, Span, Scalar) -> Marks>(
    mark: M,
    shape_1: Shape,
    shape_2: Shape,
    area: Rect,
    leaves_1: Seq<(PaneId, Rect)>,
    dividers_1: Seq<Divider>,
    leaves_2: Seq<(PaneId, Rect)>,
    dividers_2: Seq<Divider>,
)
    requires
        shape_1.unplaced() == shape_2.unplaced(),
        tiled(mark, shape_1, area, leaves_1, dividers_1),
        tiled(mark, shape_2, area, leaves_2, dividers_2),
        steady(mark),
    ensures
        leaves_1 == leaves_2,
        alike(dividers_1, dividers_2),
{
    let cuts_1 = lemma_tiled(mark, shape_1, area, leaves_1, dividers_1);
    let cuts_2 = lemma_tiled(mark, shape_2, area, leaves_2, dividers_2);
    lemma_blind_to_slots(given_by(mark), cuts_2, shape_2, shape_1, area);
    lemma_cuts_are_settled(given_by(mark), shape_1, area, cuts_1, cuts_2);
}

proof fn lemma_blind_to_slots(
    given: spec_fn(Span, Span, Scalar, Marks) -> bool,
    cuts: Cuts,
    shape_1: Shape,
    shape_2: Shape,
    rect: Rect,
)
    requires
        shape_1.unplaced() == shape_2.unplaced(),
        cuts.made_by(given, shape_1, rect),
    ensures
        cuts.made_by(given, shape_2, rect),
        cuts.panes(shape_1, rect) == cuts.panes(shape_2, rect),
        alike(cuts.dividers(shape_2, rect), cuts.dividers(shape_1, rect)),
    decreases shape_1,
{
    if let Shape::Split { axis, a: a1, b: b1, .. } = shape_1 {
        if let Shape::Split { a: a2, b: b2, .. } = shape_2 {
            if let Cuts::Cut { marks, a: ca, b: cb } = cuts {
                let (ra, _, rb) = rect.parts(axis, marks);
                lemma_blind_to_slots(given, *ca, *a1, *a2, ra);
                lemma_blind_to_slots(given, *cb, *b1, *b2, rb);
                let (da_1, da_2) = (ca.dividers(*a1, ra), ca.dividers(*a2, ra));
                let (db_1, db_2) = (cb.dividers(*b1, rb), cb.dividers(*b2, rb));
                let (d_1, d_2) = (cuts.dividers(shape_1, rect), cuts.dividers(shape_2, rect));
                assert forall|k: int| 0 <= k < d_2.len() implies (#[trigger] d_2[k]).unplaced()
                    == d_1[k].unplaced() by {
                    if 1 <= k < 1 + da_2.len() {
                        assert(d_2[k] == da_2[k - 1] && d_1[k] == da_1[k - 1]);
                    } else if k >= 1 + da_2.len() {
                        let l = k - 1 - da_2.len();
                        assert(d_2[k] == db_2[l] && d_1[k] == db_1[l]);
                    }
                }
            }
        }
    }
}

/// Closing a pane undoes on screen the split that brought it in: every pane is
/// back where it was, and so is every divider.
pub proof fn law_close_restores_the_screen<M: Fn(Span, Span, Scalar) -> Marks>(
    mark: M,
    layout: Layout,
    target: PaneId,
    pane: PaneId,
    axis: Axis,
    after: bool,
    area: Rect,
    leaves_1: Seq<(PaneId, Rect)>,
    dividers_1: Seq<Divider>,
    leaves_2: Seq<(PaneId, Rect)>,
    dividers_2: Seq<Divider>,
)
    requires
        layout.shape.has(target),
        !layout.shape.has(pane),
        tiled(mark, layout.shape, area, leaves_1, dividers_1),
        tiled(
            mark,
            layout.split(target, pane, axis, after).close(pane).shape,
            area,
            leaves_2,
            dividers_2,
        ),
        steady(mark),
    ensures
        leaves_1 == leaves_2,
        alike(dividers_1, dividers_2),
{
    law_close_undoes_split(layout, target, pane, axis, after);
    law_geometry_is_blind_to_slots(
        mark,
        layout.shape,
        layout.split(target, pane, axis, after).close(pane).shape,
        area,
        leaves_1,
        dividers_1,
        leaves_2,
        dividers_2,
    );
}

/// A copy of a tree, as merging makes one, is laid out in any area as the tree is.
pub proof fn law_copy_is_laid_out_alike<M: Fn(Span, Span, Scalar) -> Marks>(
    mark: M,
    shape: Shape,
    pool: Pool,
    area: Rect,
    leaves_1: Seq<(PaneId, Rect)>,
    dividers_1: Seq<Divider>,
    leaves_2: Seq<(PaneId, Rect)>,
    dividers_2: Seq<Divider>,
)
    requires
        tiled(mark, shape, area, leaves_1, dividers_1),
        tiled(mark, shape.copied(pool).0, area, leaves_2, dividers_2),
        steady(mark),
    ensures
        leaves_1 == leaves_2,
        alike(dividers_1, dividers_2),
{
    lemma_copied_panes(shape, pool);
    law_geometry_is_blind_to_slots(
        mark,
        shape,
        shape.copied(pool).0,
        area,
        leaves_1,
        dividers_1,
        leaves_2,
        dividers_2,
    );
}

/// The focus moves to a pane other than the current one, which lies in the given
/// direction and overlaps it on the perpendicular axis; none that does is nearer.
pub proof fn law_neighbor_is_elsewhere(
    leaves: Seq<(PaneId, Rect)>,
    gauges: Seq<Gauge>,
    current: PaneId,
    dir: Dir,
    pane: PaneId,
)
    requires
        leads_to(leaves, gauges, current, dir, Some(pane)),
    ensures
        pane != current,
        rect_of(leaves, current) is Some,
        exists|i: int|
            {
                &&& 0 <= i < leaves.len()
                &&& (#[trigger] leaves[i]).0 == pane
                &&& gauges[i].lies(dir)
                &&& faces(leaves[i].1, rect_of(leaves, current).unwrap(), dir)
                &&& forall|j: int|
                    #[trigger] reachable(
                        leaves,
                        gauges,
                        current,
                        rect_of(leaves, current).unwrap(),
                        dir,
                        j,
                    ) ==> !gauges[j].distance.below(gauges[i].distance)
            },
{
    let cur = rect_of(leaves, current).unwrap();
    let i = choose|i: int| #[trigger]
        is_nearest(leaves, gauges, current, cur, dir, i) && leaves[i].0 == pane;
    assert(leaves[i].0 == pane);
    assert forall|j: int|
        #[trigger] reachable(leaves, gauges, current, cur, dir, j) implies
        !gauges[j].distance.below(gauges[i].distance) by {}
}

/// Where the focus goes is settled by what was measured.
pub proof fn law_neighbor_is_settled(
    leaves: Seq<(PaneId, Rect)>,
    gauges: Seq<Gauge>,
    current: PaneId,
    dir: Dir,
    found_1: Option<PaneId>,
    found_2: Option<PaneId>,
)
    requires
        leads_to(leaves, gauges, current, dir, found_1),
        leads_to(leaves, gauges, current, dir, found_2),
    ensures
        found_1 == found_2,
{
    if let Some(cur) = rect_of(leaves, current) {
        if found_1 is Some && found_2 is Some {
            let i = choose|i: int| #[trigger]
                is_nearest(leaves, gauges, current, cur, dir, i) && leaves[i].0 == found_1.unwrap();
            let j = choose|j: int| #[trigger]
                is_nearest(leaves, gauges, current, cur, dir, j) && leaves[j].0 == found_2.unwrap();
            assert(reachable(leaves, gauges, current, cur, dir, i));
            assert(reachable(leaves, gauges, current, cur, dir, j));
        }
    }
}

/// How a split cuts its rect, by coordinates: a split to the right at the marks from
/// left to right, a split down at the marks from top to bottom.
pub proof fn law_parts(rect: Rect, marks: Marks)
    ensures
        rect.parts(Axis::Horizontal, marks) == (
            Rect {
                min_x: rect.min_x,
                min_y: rect.min_y,
                max_x: marks.first_end,
                max_y: marks.cross_end,
            },
            Rect {
                min_x: marks.first_end,
                min_y: rect.min_y,
                max_x: marks.second_start,
                max_y: marks.cross_end,
            },
            Rect {
                min_x: marks.second_start,
                min_y: rect.min_y,
                max_x: marks.second_end,
                max_y: marks.cross_end,
            },
        ),
        rect.parts(Axis::Vertical, marks) == (
            Rect {
                min_x: rect.min_x,
                min_y: rect.min_y,
                max_x: marks.cross_end,
                max_y: marks.first_end,
            },
            Rect {
                min_x: rect.min_x,
                min_y: marks.first_end,
                max_x: marks.cross_end,
                max_y: marks.second_start,
            },
            Rect {
                min_x: rect.min_x,
                min_y: marks.second_start,
                max_x: marks.cross_end,
                max_y: marks.second_end,
            },
        ),
{
}

/// What the geometry pass gives for a single pane: the pane, with the whole area.
pub proof fn law_pane_on_screen<M: Fn(Span, Span, Scalar) -> Marks>(
    mark: M,
    slot: int,
    pane: PaneId,
    area: Rect,
    leaves: Seq<(PaneId, Rect)>,
    dividers: Seq<Divider>,
)
    requires
        tiled(mark, Shape::Leaf { slot, pane }, area, leaves, dividers),
    ensures
        leaves == seq![(pane, area)],
        dividers.len() == 0,
{
    let cuts = lemma_tiled(mark, Shape::Leaf { slot, pane }, area, leaves, dividers);
}

/// What a split shows: `marks` are given for the extents of the area, along the axis
/// and across it, and for the ratio; the first child fills the part up to the divider
/// and the second child the part behind it; the panes of the first child are listed
/// first, and the divider of the split before all others.
pub open spec fn split_on_screen<M: Fn(Span, Span, Scalar) -> Marks>(
    mark: M,
    slot: int,
    axis: Axis,
    ratio: Scalar,
    a: Shape,
    b: Shape,
    area: Rect,
    leaves: Seq<(PaneId, Rect)>,
    dividers: Seq<Divider>,
    marks: Marks,
    first: (Seq<(PaneId, Rect)>, Seq<Divider>),
    second: (Seq<(PaneId, Rect)>, Seq<Divider>),
) -> bool {
    let x = Span { start: area.min_x, end: area.max_x };
    let y = Span { start: area.min_y, end: area.max_y };
    let (ra, handle, rb) = match axis {
        Axis::Horizontal => (
            Rect { max_x: marks.first_end, max_y: marks.cross_end, ..area },
            Rect {
                min_x: marks.first_end,
                max_x: marks.second_start,
                max_y: marks.cross_end,
                ..area
            },
            Rect {
                min_x: marks.second_start,
                max_x: marks.second_end,
                max_y: marks.cross_end,
                ..area
            },
        ),
        Axis::Vertical => (
            Rect { max_x: marks.cross_end, max_y: marks.first_end, ..area },
            Rect {
                min_y: marks.first_end,
                max_x: marks.cross_end,
                max_y: marks.second_start,
                ..area
            },
            Rect {
                min_y: marks.second_start,
                max_x: marks.cross_end,
                max_y: marks.second_end,
                ..area
            },
        ),
    };
    &&& match axis {
        Axis::Horizontal => call_ensures(mark, (x, y, ratio), marks),
        Axis::Vertical => call_ensures(mark, (y, x, ratio), marks),
    }
    &&& tiled(mark, a, ra, first.0, first.1)
    &&& tiled(mark, b, rb, second.0, second.1)
    &&& leaves == first.0 + second.0
    &&& dividers.len() == 1 + first.1.len() + second.1.len()
    &&& dividers[0].node == slot as usize
    &&& dividers[0].axis == axis
    &&& dividers[0].rect == handle
    &&& dividers[0].ratio == ratio
    &&& dividers[0].avail == marks.avail
    &&& dividers.skip(1) == first.1 + second.1
}

/// What the geometry pass gives for a split is made up of what it gives for its two
/// children, each in its part of the area.
pub proof fn law_split_on_screen<M: Fn(Span, Span, Scalar) -> Marks>(
    mark: M,
    slot: int,
    axis: Axis,
    ratio: Scalar,
    a: Shape,
    b: Shape,
    area: Rect,
    leaves: Seq<(PaneId, Rect)>,
    dividers: Seq<Divider>,
)
    requires
        tiled(
            mark,
            Shape::Split { slot, axis, ratio, a: Box::new(a), b: Box::new(b) },
            area,
            leaves,
            dividers,
        ),
    ensures
        exists|
            marks: Marks,
            first: (Seq<(PaneId, Rect)>, Seq<Divider>),
            second: (Seq<(PaneId, Rect)>, Seq<Divider>),
        | #[trigger]
            split_on_screen(
                mark,
                slot,
                axis,
                ratio,
                a,
                b,
                area,
                leaves,
                dividers,
                marks,
                first,
                second,
            ),
{
    let shape = Shape::Split { slot, axis, ratio, a: Box::new(a), b: Box::new(b) };
    let cuts = lemma_tiled(mark, shape, area, leaves, dividers);
    let (marks, ca, cb) = (cuts->marks, *cuts->a, *cuts->b);
    let (ra, _, rb) = area.parts(axis, marks);
    let first = (ca.panes(a, ra), ca.dividers(a, ra));
    let second = (cb.panes(b, rb), cb.dividers(b, rb));
    assert(ca.made_by(given_by(mark), a, ra));
    assert(cb.made_by(given_by(mark), b, rb));
    assert(tiled(mark, a, ra, first.0, first.1));
    assert(tiled(mark, b, rb, second.0, second.1));
    assert(dividers.skip(1) =~= first.1 + second.1);
    assert(given_by(mark)(area.along(axis), area.across(axis), ratio, marks));
    assert(split_on_screen(
        mark,
        slot,
        axis,
        ratio,
        a,
        b,
        area,
        leaves,
        dividers,
        marks,
        first,
        second,
    ));
}

/// A drag moves a divider by as much as the pointer moves along its axis, provided
/// that there is more than a point to share; else not at all.
pub proof fn law_drag(divider: Divider, dx: Scalar, dy: Scalar)
    ensures
        ({
            let room = divider.avail.is_number() && divider.avail.rank() > 0x3F80_0000;
            &&& divider.dragged(dx, dy) is Some <==> room
            &&& room && divider.axis == Axis::Horizontal ==> divider.dragged(dx, dy) == Some(dx)
            &&& room && divider.axis == Axis::Vertical ==> divider.dragged(dx, dy) == Some(dy)
        }),
{
}

} // verus!
