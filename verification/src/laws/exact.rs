//! Laws of exact arithmetic: what holds of the screen where computing it takes no
//! rounding.
//!
//! Every finite single-precision number is a whole multiple of the smallest
//! positive one, so that sums, differences and products can be spoken of in
//! integers.

use crate::geometry::{
    given_by, lemma_tiled, tiled, Cuts, Divider, Marks, Rect, Span, DIVIDER, MIN_AVAIL,
};
use crate::laws::geometry::{
    between, follow, in_order, law_panes_come_in_order, law_rects_stay_proper,
    lemma_one_rect_per_pane, parted, zero,
};
use crate::laws::layout::{law_listed, lemma_without_unique, usable_ratio};
use crate::laws::locality::{lemma_rect_of_both, lemma_rect_of_listed};
use crate::layout::{Axis, Dir, PaneId};
use crate::navigation::{faces, is_nearest, leads_to, reachable, rect_of, Gauge};
use crate::scalar::{Scalar, INFINITY, SIGN};
use crate::shape::{lemma_around, Layout, Shape};
use vstd::arithmetic::power2::{
    lemma2_to64, lemma_pow2_adds, lemma_pow2_pos, lemma_pow2_unfold, pow2,
};
use vstd::prelude::*;

verus! {

/// What the magnitude `m` of an encoding stands for, in multiples of the smallest
/// positive number.
pub open spec fn worth(m: int) -> int {
    let exponent = m / 0x80_0000;
    let fraction = m % 0x80_0000;
    if exponent == 0 {
        fraction
    } else {
        (fraction + 0x80_0000) * pow2((exponent - 1) as nat)
    }
}

/// The number one, in multiples of the smallest positive number.
pub open spec fn one() -> int {
    pow2(149) as int
}

impl Scalar {
    /// What this stands for, in multiples of the smallest positive number.
    pub open spec fn value(self) -> int {
        if self.bits >= SIGN {
            -worth(self.magnitude())
        } else {
            worth(self.magnitude())
        }
    }

    /// Whether this is a number other than the infinities.
    pub open spec fn is_finite(self) -> bool {
        self.magnitude() < INFINITY
    }
}

proof fn lemma_worth_step(m: int)
    requires
        0 <= m,
    ensures
        0 <= worth(m) < worth(m + 1),
{
    let n: int = 0x80_0000;
    let (e, f) = (m / n, m % n);
    assert(m == e * n + f && 0 <= f < n);
    if f + 1 < n {
        assert((m + 1) / n == e && (m + 1) % n == f + 1);
        if e > 0 {
            let p = pow2((e - 1) as nat) as int;
            lemma_pow2_pos((e - 1) as nat);
            assert(0 <= (f + n) * p < (f + 1 + n) * p) by (nonlinear_arith)
                requires
                    p > 0,
                    f >= 0,
                    n > 0,
            ;
        }
    } else {
        assert((m + 1) / n == e + 1 && (m + 1) % n == 0);
        if e > 0 {
            let p = pow2((e - 1) as nat) as int;
            lemma_pow2_pos((e - 1) as nat);
            lemma_pow2_unfold(e as nat);
            assert(0 <= (f + n) * p < n * (2 * p)) by (nonlinear_arith)
                requires
                    p > 0,
                    0 <= f,
                    f < n,
            ;
        } else {
            lemma2_to64();
        }
    }
}

proof fn lemma_worth_less(m: int, n: int)
    requires
        0 <= m < n,
    ensures
        0 <= worth(m) < worth(n),
    decreases n - m,
{
    lemma_worth_step(n - 1);
    if m < n - 1 {
        lemma_worth_less(m, n - 1);
    }
}

/// Numbers compare as what they stand for.
pub proof fn law_values_compare(a: Scalar, b: Scalar)
    requires
        a.is_number(),
        b.is_number(),
    ensures
        a.below(b) <==> a.value() < b.value(),
        a.up_to(b) <==> a.value() <= b.value(),
        a.rank() == b.rank() <==> a.value() == b.value(),
{
    let (m, n) = (a.magnitude(), b.magnitude());
    lemma_worth_step(m);
    lemma_worth_step(n);
    if m > 0 {
        lemma_worth_less(0, m);
    }
    if n > 0 {
        lemma_worth_less(0, n);
    }
    if m < n {
        lemma_worth_less(m, n);
    } else if n < m {
        lemma_worth_less(n, m);
    }
}

/// What the constants stand for: a divider is eight points thick, and a ratio lies
/// between zero and one.
pub proof fn law_constants()
    ensures
        (Scalar { bits: MIN_AVAIL }).value() == one(),
        (Scalar { bits: DIVIDER }).value() == 8 * one(),
        one() > 0,
        forall|ratio: Scalar| #[trigger]
            usable_ratio(ratio) ==> 0 <= ratio.value() <= one(),
{
    lemma2_to64();
    lemma_pow2_pos(149);
    lemma_pow2_adds(23, 126);
    lemma_pow2_adds(23, 129);
    lemma_pow2_adds(3, 149);
    assert forall|ratio: Scalar| #[trigger] usable_ratio(ratio) implies 0 <= ratio.value()
        <= one() by {
        law_values_compare(ratio, Scalar { bits: MIN_AVAIL });
        law_values_compare(Scalar { bits: 0 }, ratio);
    }
}

impl Marks {
    /// Whether all of these are finite.
    pub open spec fn are_finite(self) -> bool {
        &&& self.avail.is_finite()
        &&& self.first_end.is_finite()
        &&& self.second_start.is_finite()
        &&& self.second_end.is_finite()
        &&& self.cross_end.is_finite()
    }
}

/// Whether `marks` are those of a split, computed without rounding: the divider
/// takes its thickness, as far as there is room; of the rest, the first child gets
/// the share that the ratio says, and the second child what is left.
pub open spec fn exact(along: Span, across: Span, ratio: Scalar, marks: Marks) -> bool {
    let thickness = (Scalar { bits: DIVIDER }).value();
    let length = along.end.value() - along.start.value();
    let avail = if length > thickness {
        length - thickness
    } else {
        0
    };
    let share = marks.first_end.value() - along.start.value();
    &&& marks.are_finite()
    &&& marks.avail.value() == avail
    &&& share * one() == avail * ratio.value()
    &&& marks.second_start.value() == marks.first_end.value() + thickness
    &&& marks.second_end.value() == marks.second_start.value() + avail - share
    &&& marks.cross_end.value() == across.end.value()
}

/// Which marks go with which arguments where nothing is rounded.
pub open spec fn exactly() -> spec_fn(Span, Span, Scalar, Marks) -> bool {
    |along: Span, across: Span, ratio: Scalar, marks: Marks| exact(along, across, ratio, marks)
}

impl Rect {
    pub open spec fn width(self) -> int {
        self.max_x.value() - self.min_x.value()
    }

    pub open spec fn height(self) -> int {
        self.max_y.value() - self.min_y.value()
    }

    /// Whether all four coordinates are finite.
    pub open spec fn is_finite(self) -> bool {
        &&& self.min_x.is_finite()
        &&& self.min_y.is_finite()
        &&& self.max_x.is_finite()
        &&& self.max_y.is_finite()
    }
}

impl Divider {
    /// How thick the divider is.
    pub open spec fn thickness(self) -> int {
        match self.axis {
            Axis::Horizontal => self.rect.width(),
            Axis::Vertical => self.rect.height(),
        }
    }
}

/// A share is no more than what is shared.
proof fn lemma_share(avail: int, ratio: int, share: int)
    requires
        share * one() == avail * ratio,
        0 <= avail,
        0 <= ratio <= one(),
        one() > 0,
    ensures
        0 <= share <= avail,
{
    let u = one();
    assert(0 <= share <= avail) by (nonlinear_arith)
        requires
            share * u == avail * ratio,
            0 <= avail,
            0 <= ratio <= u,
            u > 0,
    ;
}

/// Without rounding, and where every split has something to share, all that a tree
/// shows fits: the marks of each split follow one another and reach just to the far
/// edges of its rect, and every divider has its full thickness.
pub proof fn law_exact_fits(cuts: Cuts, shape: Shape, area: Rect)
    requires
        cuts.made_by(exactly(), shape, area),
        shape.usable(),
        area.proper(),
        area.is_finite(),
        forall|k: int|
            0 <= k < cuts.dividers(shape, area).len() ==> (#[trigger] cuts.dividers(
                shape,
                area,
            )[k]).avail.value() > 0,
    ensures
        cuts.roomy(shape, area),
        cuts.all_flush(shape, area),
        forall|k: int|
            0 <= k < cuts.dividers(shape, area).len() ==> (#[trigger] cuts.dividers(
                shape,
                area,
            )[k]).thickness() == (Scalar { bits: DIVIDER }).value(),
    decreases shape,
{
    if let Shape::Split { axis, ratio, a, b, .. } = shape {
        if let Cuts::Cut { marks, a: ca, b: cb } = cuts {
            let (ra, handle, rb) = area.parts(axis, marks);
            let (da, db) = (ca.dividers(*a, ra), cb.dividers(*b, rb));
            let all = cuts.dividers(shape, area);
            law_constants();
            assert(all[0].avail.value() > 0);
            let start = area.along(axis).start;
            lemma_share(
                marks.avail.value(),
                ratio.value(),
                marks.first_end.value() - start.value(),
            );
            law_values_compare(start, marks.first_end);
            law_values_compare(marks.first_end, marks.second_start);
            law_values_compare(marks.second_start, marks.second_end);
            law_values_compare(marks.second_end, area.along(axis).end);
            law_values_compare(area.across(axis).start, area.across(axis).end);
            law_values_compare(area.across(axis).start, marks.cross_end);
            law_values_compare(marks.cross_end, area.across(axis).end);
            assert(in_order(area, axis, marks));
            assert forall|k: int| 0 <= k < da.len() implies (#[trigger] da[k]).avail.value()
                > 0 by {
                assert(all[k + 1] == da[k]);
            }
            assert forall|k: int| 0 <= k < db.len() implies (#[trigger] db[k]).avail.value()
                > 0 by {
                assert(all[k + 1 + da.len()] == db[k]);
            }
            law_exact_fits(*ca, *a, ra);
            law_exact_fits(*cb, *b, rb);
            assert forall|k: int| 0 <= k < all.len() implies (#[trigger] all[k]).thickness() == (
            Scalar { bits: DIVIDER }).value() by {
                if 1 <= k < 1 + da.len() {
                    assert(all[k] == da[k - 1]);
                } else if k >= 1 + da.len() {
                    assert(all[k] == db[k - 1 - da.len()]);
                }
            }
        }
    }
}

/// Without rounding, and where every split has something to share, any two panes
/// have at least a divider's thickness between them, and the earlier one is the
/// left or the upper one.
pub proof fn law_exact_gaps(cuts: Cuts, shape: Shape, area: Rect)
    requires
        cuts.made_by(exactly(), shape, area),
        shape.usable(),
        area.proper(),
        area.is_finite(),
        forall|k: int|
            0 <= k < cuts.dividers(shape, area).len() ==> (#[trigger] cuts.dividers(
                shape,
                area,
            )[k]).avail.value() > 0,
    ensures
        ({
            let leaves = cuts.panes(shape, area);
            let gap = (Scalar { bits: DIVIDER }).value();
            forall|i: int, j: int|
                0 <= i < j < leaves.len() ==> {
                    let (first, second) = (#[trigger] leaves[i], #[trigger] leaves[j]);
                    ||| first.1.max_x.value() + gap <= second.1.min_x.value()
                    ||| first.1.max_y.value() + gap <= second.1.min_y.value()
                }
        }),
{
    let leaves = cuts.panes(shape, area);
    let dividers = cuts.dividers(shape, area);
    let gap = (Scalar { bits: DIVIDER }).value();
    law_exact_fits(cuts, shape, area);
    law_panes_come_in_order(cuts, shape, area);
    assert forall|i: int, j: int| 0 <= i < j < leaves.len() implies {
        let (first, second) = (#[trigger] leaves[i], #[trigger] leaves[j]);
        ||| first.1.max_x.value() + gap <= second.1.min_x.value()
        ||| first.1.max_y.value() + gap <= second.1.min_y.value()
    } by {
        let (first, second) = (leaves[i].1, leaves[j].1);
        assert(parted(first, dividers, second));
        let k = choose|k: int|
            0 <= k < dividers.len() && between(first, #[trigger] dividers[k], second);
        let d = dividers[k];
        assert(d.thickness() == gap);
        law_values_compare(first.along(d.axis).end, d.rect.along(d.axis).start);
        law_values_compare(d.rect.along(d.axis).end, second.along(d.axis).start);
    }
}

/// The sum of the areas of rects.
pub open spec fn total(rects: Seq<Rect>) -> int
    decreases rects.len(),
{
    if rects.len() == 0 {
        0
    } else {
        total(rects.drop_last()) + rects.last().width() * rects.last().height()
    }
}

proof fn lemma_total_of_both(first: Seq<Rect>, second: Seq<Rect>)
    ensures
        total(first + second) == total(first) + total(second),
    decreases second.len(),
{
    if second.len() == 0 {
        assert(first + second =~= first);
    } else {
        assert((first + second).drop_last() =~= first + second.drop_last());
        lemma_total_of_both(first, second.drop_last());
    }
}

/// The rects of panes.
pub open spec fn pane_rects(leaves: Seq<(PaneId, Rect)>) -> Seq<Rect> {
    leaves.map_values(|leaf: (PaneId, Rect)| leaf.1)
}

/// The rects of dividers.
pub open spec fn handle_rects(dividers: Seq<Divider>) -> Seq<Rect> {
    dividers.map_values(|d: Divider| d.rect)
}

/// Without rounding, and where every split has something to share, panes and
/// dividers together have just the area of the whole: nothing is left over.
pub proof fn law_exact_areas(cuts: Cuts, shape: Shape, area: Rect)
    requires
        cuts.made_by(exactly(), shape, area),
        forall|k: int|
            0 <= k < cuts.dividers(shape, area).len() ==> (#[trigger] cuts.dividers(
                shape,
                area,
            )[k]).avail.value() > 0,
    ensures
        total(pane_rects(cuts.panes(shape, area))) + total(
            handle_rects(cuts.dividers(shape, area)),
        ) == area.width() * area.height(),
    decreases shape,
{
    let (leaves, dividers) = (cuts.panes(shape, area), cuts.dividers(shape, area));
    match shape {
        Shape::Leaf { .. } => {
            assert(pane_rects(leaves) =~= seq![area]);
            assert(seq![area].drop_last() =~= Seq::empty());
            assert(total(Seq::<Rect>::empty()) == 0);
            assert(handle_rects(dividers) =~= Seq::empty());
        },
        Shape::Split { axis, a, b, .. } => {
            if let Cuts::Cut { marks, a: ca, b: cb } = cuts {
                let (ra, handle, rb) = area.parts(axis, marks);
                let (la, lb) = (ca.panes(*a, ra), cb.panes(*b, rb));
                let (da, db) = (ca.dividers(*a, ra), cb.dividers(*b, rb));
                assert(dividers[0].avail.value() > 0);
                assert forall|k: int| 0 <= k < da.len() implies (#[trigger] da[k]).avail.value()
                    > 0 by {
                    assert(dividers[k + 1] == da[k]);
                }
                assert forall|k: int| 0 <= k < db.len() implies (#[trigger] db[k]).avail.value()
                    > 0 by {
                    assert(dividers[k + 1 + da.len()] == db[k]);
                }
                law_exact_areas(*ca, *a, ra);
                law_exact_areas(*cb, *b, rb);
                assert(pane_rects(leaves) =~= pane_rects(la) + pane_rects(lb));
                lemma_total_of_both(pane_rects(la), pane_rects(lb));
                assert(handle_rects(dividers) =~= seq![handle] + handle_rects(da) + handle_rects(
                    db,
                ));
                lemma_total_of_both(seq![handle] + handle_rects(da), handle_rects(db));
                lemma_total_of_both(seq![handle], handle_rects(da));
                assert(seq![handle].drop_last() =~= Seq::empty());
                assert(total(Seq::<Rect>::empty()) == 0);
                assert(total(seq![handle]) == handle.width() * handle.height());
                match axis {
                    Axis::Horizontal => {
                        assert(ra.height() == area.height() && handle.height() == area.height()
                            && rb.height() == area.height());
                        assert(ra.width() + handle.width() + rb.width() == area.width());
                        lemma_add_up(ra.width(), handle.width(), rb.width(), area.height());
                    },
                    Axis::Vertical => {
                        assert(ra.width() == area.width() && handle.width() == area.width()
                            && rb.width() == area.width());
                        assert(ra.height() + handle.height() + rb.height() == area.height());
                        lemma_add_up(ra.height(), handle.height(), rb.height(), area.width());
                    },
                }
            }
        },
    }
}

proof fn lemma_add_up(x: int, y: int, z: int, h: int)
    ensures
        x * h + y * h + z * h == (x + y + z) * h,
        h * x + h * y + h * z == h * (x + y + z),
{
    assert(x * h + y * h + z * h == (x + y + z) * h) by (nonlinear_arith);
    assert(h * x + h * y + h * z == h * (x + y + z)) by (nonlinear_arith);
}

/// Whether `second` is at least as wide and at least as high as `first`.
pub open spec fn grown(first: Rect, second: Rect) -> bool {
    first.width() <= second.width() && first.height() <= second.height()
}

/// Whether `pane` has a rect on both screens, and one that is no smaller on the
/// second.
pub open spec fn grows(
    leaves_1: Seq<(PaneId, Rect)>,
    leaves_2: Seq<(PaneId, Rect)>,
    pane: PaneId,
) -> bool {
    match (rect_of(leaves_1, pane), rect_of(leaves_2, pane)) {
        (Some(first), Some(second)) => grown(first, second),
        _ => false,
    }
}

/// More to share leaves no child with less.
proof fn lemma_more_to_share(avail_1: int, avail_2: int, ratio: int, share_1: int, share_2: int)
    requires
        share_1 * one() == avail_1 * ratio,
        share_2 * one() == avail_2 * ratio,
        avail_1 <= avail_2,
        0 <= ratio <= one(),
        one() > 0,
    ensures
        share_1 <= share_2,
        avail_1 - share_1 <= avail_2 - share_2,
{
    let u = one();
    assert(share_1 <= share_2) by (nonlinear_arith)
        requires
            share_1 * u == avail_1 * ratio,
            share_2 * u == avail_2 * ratio,
            avail_1 <= avail_2,
            0 <= ratio,
            u > 0,
    ;
    assert(avail_1 - share_1 <= avail_2 - share_2) by (nonlinear_arith)
        requires
            share_1 * u == avail_1 * ratio,
            share_2 * u == avail_2 * ratio,
            avail_1 <= avail_2,
            ratio <= u,
            u > 0,
    ;
}

/// How the parts of a split compare to those of the same split in a larger rect,
/// and to the rect itself.
proof fn lemma_parts_grow(
    rect_1: Rect,
    rect_2: Rect,
    axis: Axis,
    ratio: Scalar,
    marks_1: Marks,
    marks_2: Marks,
)
    requires
        usable_ratio(ratio),
        exact(rect_1.along(axis), rect_1.across(axis), ratio, marks_1),
        exact(rect_2.along(axis), rect_2.across(axis), ratio, marks_2),
        rect_1.width() >= 0,
        rect_1.height() >= 0,
        grown(rect_1, rect_2),
    ensures
        ({
            let (a1, _, b1) = rect_1.parts(axis, marks_1);
            let (a2, _, b2) = rect_2.parts(axis, marks_2);
            &&& a1.width() >= 0 && a1.height() >= 0 && b1.width() >= 0 && b1.height() >= 0
            &&& grown(a1, a2) && grown(b1, b2)
            &&& grown(a1, rect_1) && grown(b1, rect_1)
        }),
{
    law_constants();
    let share_1 = marks_1.first_end.value() - rect_1.along(axis).start.value();
    let share_2 = marks_2.first_end.value() - rect_2.along(axis).start.value();
    lemma_share(marks_1.avail.value(), ratio.value(), share_1);
    lemma_more_to_share(
        marks_1.avail.value(),
        marks_2.avail.value(),
        ratio.value(),
        share_1,
        share_2,
    );
}

/// In a larger rect no pane gets less.
proof fn lemma_tree_grows(cuts_1: Cuts, cuts_2: Cuts, shape: Shape, rect_1: Rect, rect_2: Rect)
    requires
        cuts_1.made_by(exactly(), shape, rect_1),
        cuts_2.made_by(exactly(), shape, rect_2),
        shape.usable(),
        rect_1.width() >= 0,
        rect_1.height() >= 0,
        grown(rect_1, rect_2),
    ensures
        forall|q: PaneId| #[trigger]
            shape.has(q) ==> grows(cuts_1.panes(shape, rect_1), cuts_2.panes(shape, rect_2), q),
    decreases shape,
{
    match shape {
        Shape::Leaf { pane, .. } => {
            assert(rect_of(seq![(pane, rect_1)], pane) == Some(rect_1));
            assert(rect_of(seq![(pane, rect_2)], pane) == Some(rect_2));
        },
        Shape::Split { axis, ratio, a, b, .. } => {
            let (m1, ca1, cb1) = (cuts_1->marks, *cuts_1->a, *cuts_1->b);
            let (m2, ca2, cb2) = (cuts_2->marks, *cuts_2->a, *cuts_2->b);
            let (ra1, _, rb1) = rect_1.parts(axis, m1);
            let (ra2, _, rb2) = rect_2.parts(axis, m2);
            lemma_parts_grow(rect_1, rect_2, axis, ratio, m1, m2);
            lemma_tree_grows(ca1, ca2, *a, ra1, ra2);
            lemma_tree_grows(cb1, cb2, *b, rb1, rb2);
            assert forall|q: PaneId| #[trigger] shape.has(q) implies grows(
                cuts_1.panes(shape, rect_1),
                cuts_2.panes(shape, rect_2),
                q,
            ) by {
                assert(a.has(q) || b.has(q));
                lemma_rect_of_both(ca1.panes(*a, ra1), cb1.panes(*b, rb1), q);
                lemma_rect_of_both(ca2.panes(*a, ra2), cb2.panes(*b, rb2), q);
                lemma_rect_in_tree(ca1, *a, ra1, q);
                lemma_rect_in_tree(ca2, *a, ra2, q);
            }
        },
    }
}

/// A tree gives a rect to just the panes it has.
proof fn lemma_rect_in_tree(cuts: Cuts, shape: Shape, rect: Rect, q: PaneId)
    requires
        cuts.made_by(exactly(), shape, rect),
    ensures
        rect_of(cuts.panes(shape, rect), q) is Some <==> shape.has(q),
{
    lemma_one_rect_per_pane(exactly(), cuts, shape, rect);
    lemma_rect_of_listed(cuts.panes(shape, rect), q);
    law_listed(shape, q);
}

/// Without rounding, closing a pane leaves every other pane at least as wide and at
/// least as high as it was.
pub proof fn law_close_only_grows(
    cuts_1: Cuts,
    cuts_2: Cuts,
    layout: Layout,
    pane: PaneId,
    area: Rect,
)
    requires
        layout.shape.around(pane) is Some,
        layout.shape.unique(),
        layout.shape.usable(),
        cuts_1.made_by(exactly(), layout.shape, area),
        cuts_2.made_by(exactly(), layout.close(pane).shape, area),
        area.width() >= 0,
        area.height() >= 0,
    ensures
        forall|q: PaneId|
            q != pane && #[trigger] layout.shape.has(q) ==> grows(
                cuts_1.panes(layout.shape, area),
                cuts_2.panes(layout.close(pane).shape, area),
                q,
            ),
{
    lemma_close_grows(cuts_1, cuts_2, layout.shape, pane, area, area);
}

proof fn lemma_close_grows(
    cuts_1: Cuts,
    cuts_2: Cuts,
    shape: Shape,
    pane: PaneId,
    rect_1: Rect,
    rect_2: Rect,
)
    requires
        shape.around(pane) is Some,
        shape.unique(),
        shape.usable(),
        cuts_1.made_by(exactly(), shape, rect_1),
        cuts_2.made_by(exactly(), shape.without(pane), rect_2),
        rect_1.width() >= 0,
        rect_1.height() >= 0,
        grown(rect_1, rect_2),
    ensures
        forall|q: PaneId|
            q != pane && #[trigger] shape.has(q) ==> grows(
                cuts_1.panes(shape, rect_1),
                cuts_2.panes(shape.without(pane), rect_2),
                q,
            ),
    decreases shape,
{
    if let Shape::Split { axis, ratio, a, b, .. } = shape {
        lemma_around(shape, pane);
        lemma_around(*a, pane);
        lemma_around(*b, pane);
        let (m1, ca1, cb1) = (cuts_1->marks, *cuts_1->a, *cuts_1->b);
        let (ra1, _, rb1) = rect_1.parts(axis, m1);
        let near_first = a.has(pane);
        let rest = shape.without(pane);
        let (l_1, l_2) = (cuts_1.panes(shape, rect_1), cuts_2.panes(rest, rect_2));
        if near_first && *a is Leaf || !near_first && *b is Leaf {
            lemma_parts_grow(rect_1, rect_1, axis, ratio, m1, m1);
            if near_first {
                lemma_tree_grows(cb1, cuts_2, *b, rb1, rect_2);
            } else {
                lemma_tree_grows(ca1, cuts_2, *a, ra1, rect_2);
            }
            assert forall|q: PaneId| q != pane && #[trigger] shape.has(q) implies grows(
                l_1,
                l_2,
                q,
            ) by {
                assert(a.has(q) || b.has(q));
                lemma_rect_of_both(ca1.panes(*a, ra1), cb1.panes(*b, rb1), q);
                lemma_rect_in_tree(ca1, *a, ra1, q);
            }
        } else {
            let (m2, ca2, cb2) = (cuts_2->marks, *cuts_2->a, *cuts_2->b);
            let (ra2, _, rb2) = rect_2.parts(axis, m2);
            lemma_parts_grow(rect_1, rect_2, axis, ratio, m1, m2);
            let (na, nb) = (*rest->a, *rest->b);
            if near_first {
                lemma_close_grows(ca1, ca2, *a, pane, ra1, ra2);
                lemma_tree_grows(cb1, cb2, *b, rb1, rb2);
                lemma_without_unique(*a, pane);
            } else {
                lemma_tree_grows(ca1, ca2, *a, ra1, ra2);
                lemma_close_grows(cb1, cb2, *b, pane, rb1, rb2);
            }
            assert forall|q: PaneId| q != pane && #[trigger] shape.has(q) implies grows(
                l_1,
                l_2,
                q,
            ) by {
                assert(a.has(q) || b.has(q));
                assert(na.has(q) <==> a.has(q));
                lemma_rect_of_both(ca1.panes(*a, ra1), cb1.panes(*b, rb1), q);
                lemma_rect_of_both(ca2.panes(na, ra2), cb2.panes(nb, rb2), q);
                lemma_rect_in_tree(ca1, *a, ra1, q);
                lemma_rect_in_tree(ca2, na, ra2, q);
            }
        }
    }
}

/// Whether `s` is what `x / scale` is rounded to: no finite number is nearer.
pub open spec fn rounds(x: int, scale: int, s: Scalar) -> bool {
    &&& s.is_finite()
    &&& forall|t: Scalar|
        t.is_finite() ==> apart_by(x, scale, s) <= #[trigger] apart_by(x, scale, t)
}

/// How far `s` is from `x / scale`, in parts of `scale`.
pub open spec fn apart_by(x: int, scale: int, s: Scalar) -> int {
    if s.value() * scale <= x {
        x - s.value() * scale
    } else {
        s.value() * scale - x
    }
}

/// Whether `marks` are those of a split, computed in steps each of which is rounded
/// and none of which overflows. The steps are the extent along the axis, that
/// extent less the divider, the first child's share, the second child's, and the
/// extent across the axis.
pub open spec fn rounded_by_way_of(
    along: Span,
    across: Span,
    ratio: Scalar,
    marks: Marks,
    steps: (Scalar, Scalar, Scalar, Scalar, Scalar),
) -> bool {
    let (length, room, share, rest, cross) = steps;
    let thickness = (Scalar { bits: DIVIDER }).value();
    &&& rounds(along.end.value() - along.start.value(), 1, length)
    &&& rounds(length.value() - thickness, 1, room)
    &&& marks.avail.is_finite()
    &&& marks.avail.value() == if room.value() > 0 {
        room.value()
    } else {
        0
    }
    &&& rounds(marks.avail.value() * ratio.value(), one(), share)
    &&& rounds(along.start.value() + share.value(), 1, marks.first_end)
    &&& rounds(marks.first_end.value() + thickness, 1, marks.second_start)
    &&& rounds(marks.avail.value() - share.value(), 1, rest)
    &&& rounds(marks.second_start.value() + rest.value(), 1, marks.second_end)
    &&& rounds(across.end.value() - across.start.value(), 1, cross)
    &&& rounds(across.start.value() + cross.value(), 1, marks.cross_end)
}

/// Which marks go with which arguments where every step is rounded to a nearest
/// number.
pub open spec fn rounded() -> spec_fn(Span, Span, Scalar, Marks) -> bool {
    |along: Span, across: Span, ratio: Scalar, marks: Marks|
        exists|steps: (Scalar, Scalar, Scalar, Scalar, Scalar)|
            rounded_by_way_of(along, across, ratio, marks, steps)
}

/// Rounding passes no number by.
proof fn lemma_rounds(x: int, scale: int, s: Scalar, t: Scalar)
    requires
        rounds(x, scale, s),
        t.is_finite(),
        scale > 0,
    ensures
        t.value() * scale <= x ==> t.value() <= s.value(),
        x <= t.value() * scale ==> s.value() <= t.value(),
{
    let (v, w) = (s.value(), t.value());
    assert(apart_by(x, scale, s) <= apart_by(x, scale, t));
    if w * scale <= x && v < w {
        assert(v * scale < w * scale) by (nonlinear_arith)
            requires
                v < w,
                scale > 0,
        ;
    }
    if x <= w * scale && w < v {
        assert(w * scale < v * scale) by (nonlinear_arith)
            requires
                w < v,
                scale > 0,
        ;
    }
}

/// With every step rounded to a nearest number, and none overflowing, the marks of
/// each split follow one another in an area of whatever extent, no length to share
/// is negative and every ratio is within the limits. So no pane and no divider gets
/// a negative extent.
pub proof fn law_rounded_is_never_negative(cuts: Cuts, shape: Shape, area: Rect)
    requires
        cuts.made_by(rounded(), shape, area),
        shape.usable(),
        area.proper(),
        area.is_finite(),
    ensures
        cuts.forward(shape, area),
        forall|i: int|
            0 <= i < cuts.panes(shape, area).len() ==> (#[trigger] cuts.panes(
                shape,
                area,
            )[i]).1.proper(),
        forall|k: int|
            0 <= k < cuts.dividers(shape, area).len() ==> {
                let d = #[trigger] cuts.dividers(shape, area)[k];
                d.rect.proper() && zero().up_to(d.avail) && usable_ratio(d.ratio)
            },
{
    lemma_rounded_forward(cuts, shape, area);
    law_rects_stay_proper(cuts, shape, area);
}

proof fn lemma_rounded_forward(cuts: Cuts, shape: Shape, rect: Rect)
    requires
        cuts.made_by(rounded(), shape, rect),
        shape.usable(),
        rect.proper(),
        rect.is_finite(),
    ensures
        cuts.forward(shape, rect),
        forall|k: int|
            0 <= k < cuts.dividers(shape, rect).len() ==> {
                let d = #[trigger] cuts.dividers(shape, rect)[k];
                zero().up_to(d.avail) && usable_ratio(d.ratio)
            },
    decreases shape,
{
    if let Shape::Split { axis, ratio, a, b, .. } = shape {
        if let Cuts::Cut { marks, a: ca, b: cb } = cuts {
            let (ra, _, rb) = rect.parts(axis, marks);
            let (da, db) = (ca.dividers(*a, ra), cb.dividers(*b, rb));
            let dividers = cuts.dividers(shape, rect);
            lemma_rounded_marks(rect, axis, ratio, marks);
            lemma_rounded_forward(*ca, *a, ra);
            lemma_rounded_forward(*cb, *b, rb);
            assert forall|k: int| 0 <= k < dividers.len() implies {
                let d = #[trigger] dividers[k];
                zero().up_to(d.avail) && usable_ratio(d.ratio)
            } by {
                if 1 <= k < 1 + da.len() {
                    assert(dividers[k] == da[k - 1]);
                } else if k >= 1 + da.len() {
                    assert(dividers[k] == db[k - 1 - da.len()]);
                }
            }
        }
    }
}

proof fn lemma_rounded_marks(rect: Rect, axis: Axis, ratio: Scalar, marks: Marks)
    requires
        rounded()(rect.along(axis), rect.across(axis), ratio, marks),
        usable_ratio(ratio),
        rect.proper(),
        rect.is_finite(),
    ensures
        marks.are_finite(),
        follow(rect, axis, marks),
        zero().up_to(marks.avail),
{
    let (along, across) = (rect.along(axis), rect.across(axis));
    let steps = choose|steps: (Scalar, Scalar, Scalar, Scalar, Scalar)|
        rounded_by_way_of(along, across, ratio, marks, steps);
    let (length, room, share, rest, cross) = steps;
    assert(rounded_by_way_of(along, across, ratio, marks, steps));
    let (avail, u) = (marks.avail.value(), one());
    law_constants();
    assert(zero().value() == 0);
    law_values_compare(zero(), marks.avail);
    assert(0 <= avail * ratio.value() <= avail * u) by (nonlinear_arith)
        requires
            0 <= avail,
            0 <= ratio.value() <= u,
    ;
    lemma_rounds(avail * ratio.value(), u, share, zero());
    lemma_rounds(avail * ratio.value(), u, share, marks.avail);
    lemma_rounds(along.start.value() + share.value(), 1, marks.first_end, along.start);
    lemma_rounds(
        marks.first_end.value() + (Scalar { bits: DIVIDER }).value(),
        1,
        marks.second_start,
        marks.first_end,
    );
    lemma_rounds(avail - share.value(), 1, rest, zero());
    lemma_rounds(
        marks.second_start.value() + rest.value(),
        1,
        marks.second_end,
        marks.second_start,
    );
    law_values_compare(across.start, across.end);
    lemma_rounds(across.end.value() - across.start.value(), 1, cross, zero());
    lemma_rounds(across.start.value() + cross.value(), 1, marks.cross_end, across.start);
    law_values_compare(along.start, marks.first_end);
    law_values_compare(marks.first_end, marks.second_start);
    law_values_compare(marks.second_start, marks.second_end);
    law_values_compare(across.start, marks.cross_end);
}

/// In an area of whatever extent, no pane and no divider that the geometry pass
/// gives has a negative one, no length to share is negative, and every ratio is
/// within the limits. This asks of `mark` that on this tree and area it round each
/// step to a nearest number, without overflow.
pub proof fn law_nothing_is_negative<M: Fn(Span, Span, Scalar) -> Marks>(
    mark: M,
    shape: Shape,
    area: Rect,
    leaves: Seq<(PaneId, Rect)>,
    dividers: Seq<Divider>,
)
    requires
        tiled(mark, shape, area, leaves, dividers),
        shape.usable(),
        area.proper(),
        area.is_finite(),
        forall|cuts: Cuts| #[trigger]
            cuts.made_by(given_by(mark), shape, area) ==> cuts.made_by(rounded(), shape, area),
    ensures
        forall|i: int| 0 <= i < leaves.len() ==> (#[trigger] leaves[i]).1.proper(),
        forall|k: int|
            0 <= k < dividers.len() ==> {
                let d = #[trigger] dividers[k];
                d.rect.proper() && zero().up_to(d.avail) && usable_ratio(d.ratio)
            },
{
    let cuts = lemma_tiled(mark, shape, area, leaves, dividers);
    law_rounded_is_never_negative(cuts, shape, area);
}

impl Rect {
    /// Twice the horizontal coordinate of the centre.
    pub open spec fn double_x(self) -> int {
        self.min_x.value() + self.max_x.value()
    }

    /// Twice the vertical coordinate of the centre.
    pub open spec fn double_y(self) -> int {
        self.min_y.value() + self.max_y.value()
    }

    /// Four times the square of the distance of the centres of two rects.
    pub open spec fn square_to(self, other: Rect) -> int {
        (other.double_x() - self.double_x()) * (other.double_x() - self.double_x()) + (
        other.double_y() - self.double_y()) * (other.double_y() - self.double_y())
    }
}

/// Whether `gauge` says without rounding how `r` lies as seen from `cur`, but for
/// the distance.
pub open spec fn measured(cur: Rect, r: Rect, gauge: Gauge) -> bool {
    &&& gauge.x.is_number() && 2 * gauge.x.value() == r.double_x()
    &&& gauge.y.is_number() && 2 * gauge.y.value() == r.double_y()
    &&& gauge.left.is_number() && 2 * gauge.left.value() == cur.double_x() - 2 * one()
    &&& gauge.right.is_number() && 2 * gauge.right.value() == cur.double_x() + 2 * one()
    &&& gauge.above.is_number() && 2 * gauge.above.value() == cur.double_y() - 2 * one()
    &&& gauge.below.is_number() && 2 * gauge.below.value() == cur.double_y() + 2 * one()
    &&& gauge.distance.is_number()
}

/// Whether `gauges` say without rounding how panes lie as seen from `cur`, but for
/// the distances.
pub open spec fn all_measured(
    leaves: Seq<(PaneId, Rect)>,
    cur: Rect,
    gauges: Seq<Gauge>,
) -> bool {
    &&& gauges.len() == leaves.len()
    &&& forall|i: int| 0 <= i < leaves.len() ==> measured(cur, leaves[i].1, #[trigger] gauges[i])
}

/// Whether distances measured from `cur_1` and from `cur_2` compare as the centres
/// are apart.
pub open spec fn comparable(
    leaves: Seq<(PaneId, Rect)>,
    cur_1: Rect,
    gauges_1: Seq<Gauge>,
    cur_2: Rect,
    gauges_2: Seq<Gauge>,
) -> bool {
    forall|i: int, j: int|
        0 <= i < leaves.len() && 0 <= j < leaves.len() ==> (
        (#[trigger] gauges_1[i]).distance.below((#[trigger] gauges_2[j]).distance)
            <==> cur_1.square_to(leaves[i].1) < cur_2.square_to(leaves[j].1)) && (
        gauges_2[j].distance.below(gauges_1[i].distance) <==> cur_2.square_to(leaves[j].1)
            < cur_1.square_to(leaves[i].1))
}

/// The direction that leads back.
pub open spec fn opposite(dir: Dir) -> Dir {
    match dir {
        Dir::Left => Dir::Right,
        Dir::Right => Dir::Left,
        Dir::Up => Dir::Down,
        Dir::Down => Dir::Up,
    }
}

/// The rect of a pane is that of some entry for it.
proof fn lemma_entry_of(leaves: Seq<(PaneId, Rect)>, pane: PaneId) -> (i: int)
    requires
        rect_of(leaves, pane) is Some,
    ensures
        0 <= i < leaves.len(),
        leaves[i] == (pane, rect_of(leaves, pane).unwrap()),
    decreases leaves.len(),
{
    if leaves[0].0 == pane {
        0
    } else {
        let i = lemma_entry_of(leaves.drop_first(), pane);
        i + 1
    }
}

/// Where a pane is listed, it has a rect.
proof fn lemma_entry_has_rect(leaves: Seq<(PaneId, Rect)>, i: int)
    requires
        0 <= i < leaves.len(),
        forall|j: int, k: int|
            0 <= j < k < leaves.len() ==> (#[trigger] leaves[j]).0 != (#[trigger] leaves[k]).0,
    ensures
        rect_of(leaves, leaves[i].0) == Some(leaves[i].1),
    decreases leaves.len(),
{
    if i > 0 {
        let rest = leaves.drop_first();
        assert forall|j: int, k: int| 0 <= j < k < rest.len() implies (#[trigger] rest[j]).0 != (
        #[trigger] rest[k]).0 by {
            assert(leaves[j + 1].0 != leaves[k + 1].0);
        }
        lemma_entry_has_rect(rest, i - 1);
        assert(leaves[0].0 != leaves[i].0);
    }
}

/// Without rounding there is always a way back: from the pane that the focus moved
/// to, it moves in the opposite direction to some pane, and to none farther away
/// than the one that it came from.
pub proof fn law_way_back(
    leaves: Seq<(PaneId, Rect)>,
    gauges_1: Seq<Gauge>,
    gauges_2: Seq<Gauge>,
    a: PaneId,
    b: PaneId,
    dir: Dir,
    back: Option<PaneId>,
)
    requires
        forall|j: int, k: int|
            0 <= j < k < leaves.len() ==> (#[trigger] leaves[j]).0 != (#[trigger] leaves[k]).0,
        leads_to(leaves, gauges_1, a, dir, Some(b)),
        leads_to(leaves, gauges_2, b, opposite(dir), back),
        rect_of(leaves, a) matches Some(cur) ==> all_measured(leaves, cur, gauges_1),
        rect_of(leaves, b) matches Some(cur) ==> all_measured(leaves, cur, gauges_2),
        (rect_of(leaves, a), rect_of(leaves, b)) matches (Some(from), Some(to)) ==> comparable(
            leaves,
            from,
            gauges_1,
            to,
            gauges_2,
        ) && comparable(leaves, to, gauges_2, to, gauges_2),
    ensures
        ({
            &&& rect_of(leaves, a) matches Some(from)
            &&& rect_of(leaves, b) matches Some(to)
            &&& back matches Some(c)
            &&& c != b
            &&& rect_of(leaves, c) matches Some(r)
            &&& to.square_to(r) <= to.square_to(from)
        }),
{
    let from = rect_of(leaves, a).unwrap();
    let ib = choose|i: int| #[trigger]
        is_nearest(leaves, gauges_1, a, from, dir, i) && leaves[i].0 == b;
    assert(reachable(leaves, gauges_1, a, from, dir, ib));
    lemma_entry_has_rect(leaves, ib);
    let to = leaves[ib].1;
    let ia = lemma_entry_of(leaves, a);
    let (there, home) = (gauges_1[ib], gauges_2[ia]);
    assert(measured(from, to, there));
    assert(measured(to, from, home));
    assert(from.square_to(to) == to.square_to(from)) by (nonlinear_arith)
        requires
            from.square_to(to) == (to.double_x() - from.double_x()) * (to.double_x()
                - from.double_x()) + (to.double_y() - from.double_y()) * (to.double_y()
                - from.double_y()),
            to.square_to(from) == (from.double_x() - to.double_x()) * (from.double_x()
                - to.double_x()) + (from.double_y() - to.double_y()) * (from.double_y()
                - to.double_y()),
    ;
    law_values_compare(there.x, there.left);
    law_values_compare(there.right, there.x);
    law_values_compare(there.y, there.above);
    law_values_compare(there.below, there.y);
    law_values_compare(home.x, home.left);
    law_values_compare(home.right, home.x);
    law_values_compare(home.y, home.above);
    law_values_compare(home.below, home.y);
    assert(home.lies(opposite(dir)));
    assert(faces(from, to, opposite(dir)));
    assert(!there.distance.below(home.distance) && !home.distance.below(there.distance));
    assert(reachable(leaves, gauges_2, b, to, opposite(dir), ia));
    let c = back.unwrap();
    let ic = choose|i: int| #[trigger]
        is_nearest(leaves, gauges_2, b, to, opposite(dir), i) && leaves[i].0 == c;
    assert(reachable(leaves, gauges_2, b, to, opposite(dir), ic));
    lemma_entry_has_rect(leaves, ic);
    assert(!gauges_2[ia].distance.below(gauges_2[ic].distance));
}

} // verus!
