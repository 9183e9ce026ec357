//! Laws of navigation: which pane the focus moves to, in terms of what was measured.

use crate::app::{lemma_moved, moved};
use crate::geometry::{tiled, Divider, Marks, Rect, Span};
use crate::laws::exact::{all_measured, law_values_compare, one};
use crate::layout::{Dir, PaneId};
use crate::navigation::{is_nearest, leads_to, reachable, rect_of, Gauge};
use crate::scalar::Scalar;
use crate::session::Session;
use vstd::prelude::*;

verus! {

/// Whether `a` is less than `b`, and neither is a NaN.
pub open spec fn less(a: Scalar, b: Scalar) -> bool {
    a.is_number() && b.is_number() && a.rank() < b.rank()
}

/// Whether entry `c` is the first one for `pane`.
pub open spec fn first_entry(leaves: Seq<(PaneId, Rect)>, pane: PaneId, c: int) -> bool {
    &&& 0 <= c < leaves.len()
    &&& leaves[c].0 == pane
    &&& forall|e: int| 0 <= e < c ==> (#[trigger] leaves[e]).0 != pane
}

/// Whether the focus can move from entry `c` to entry `j`: another pane, whose
/// centre lies past the mark in that direction, whose extent on the perpendicular
/// axis overlaps, and whose distance is below the largest finite number.
pub open spec fn eligible(
    leaves: Seq<(PaneId, Rect)>,
    gauges: Seq<Gauge>,
    c: int,
    dir: Dir,
    j: int,
) -> bool {
    let (cur, r, g) = (leaves[c].1, leaves[j].1, gauges[j]);
    &&& 0 <= j < leaves.len()
    &&& leaves[j].0 != leaves[c].0
    &&& match dir {
        Dir::Left => less(g.x, g.left),
        Dir::Right => less(g.right, g.x),
        Dir::Up => less(g.y, g.above),
        Dir::Down => less(g.below, g.y),
    }
    &&& if dir == Dir::Left || dir == Dir::Right {
        less(r.min_y, cur.max_y) && less(cur.min_y, r.max_y)
    } else {
        less(r.min_x, cur.max_x) && less(cur.min_x, r.max_x)
    }
    &&& g.distance.is_number()
    &&& g.distance.rank() < 0x7F7F_FFFF
}

/// The rect of a pane is that of the first entry for it, and there is none exactly
/// if there is no entry.
pub proof fn law_rect_of(leaves: Seq<(PaneId, Rect)>, pane: PaneId)
    ensures
        forall|c: int| #[trigger]
            first_entry(leaves, pane, c) ==> rect_of(leaves, pane) == Some(leaves[c].1),
        rect_of(leaves, pane) is None ==> forall|e: int|
            0 <= e < leaves.len() ==> (#[trigger] leaves[e]).0 != pane,
        rect_of(leaves, pane) is Some ==> exists|c: int| #[trigger]
            first_entry(leaves, pane, c),
    decreases leaves.len(),
{
    if leaves.len() > 0 {
        let rest = leaves.drop_first();
        law_rect_of(rest, pane);
        if leaves[0].0 == pane {
            assert(first_entry(leaves, pane, 0));
            assert forall|c: int| #[trigger] first_entry(leaves, pane, c) implies rect_of(
                leaves,
                pane,
            ) == Some(leaves[c].1) by {
                if c > 0 {
                    assert(leaves[0].0 != pane);
                }
            }
        } else {
            assert forall|c: int| #[trigger] first_entry(leaves, pane, c) implies rect_of(
                leaves,
                pane,
            ) == Some(leaves[c].1) by {
                assert forall|e: int| 0 <= e < c - 1 implies (#[trigger] rest[e]).0 != pane by {
                    assert(leaves[e + 1].0 != pane);
                }
                assert(first_entry(rest, pane, c - 1));
            }
            if rect_of(leaves, pane) is None {
                assert forall|e: int| 0 <= e < leaves.len() implies (
                #[trigger] leaves[e]).0 != pane by {
                    if e > 0 {
                        assert(rest[e - 1].0 != pane);
                    }
                }
            } else {
                let c = choose|c: int| #[trigger] first_entry(rest, pane, c);
                assert forall|e: int| 0 <= e < c + 1 implies (#[trigger] leaves[e]).0 != pane by {
                    if e > 0 {
                        assert(rest[e - 1].0 != pane);
                    }
                }
                assert(first_entry(leaves, pane, c + 1));
            }
        }
    }
}

/// The focus moves exactly if the current pane is there and some other pane can be
/// moved to; and then to one that can be, such that none is nearer, and none that is
/// as near comes before it.
pub proof fn law_nearest(
    leaves: Seq<(PaneId, Rect)>,
    gauges: Seq<Gauge>,
    current: PaneId,
    dir: Dir,
    found: Option<PaneId>,
)
    requires
        leads_to(leaves, gauges, current, dir, found),
    ensures
        found is None ==> forall|c: int, j: int|
            #[trigger] first_entry(leaves, current, c) ==> !#[trigger] eligible(
                leaves,
                gauges,
                c,
                dir,
                j,
            ),
        found matches Some(pane) ==> exists|c: int, i: int|
            {
                &&& #[trigger] first_entry(leaves, current, c)
                &&& #[trigger] eligible(leaves, gauges, c, dir, i)
                &&& leaves[i].0 == pane
                &&& forall|j: int| #[trigger]
                    eligible(leaves, gauges, c, dir, j) ==> {
                        let (near, other) = (gauges[i].distance.rank(), gauges[j].distance.rank());
                        near < other || near == other && i <= j
                    }
            },
{
    law_rect_of(leaves, current);
    assert forall|c: int, j: int| #[trigger]
        first_entry(leaves, current, c) implies #[trigger] eligible(leaves, gauges, c, dir, j)
        == reachable(leaves, gauges, current, leaves[c].1, dir, j) by {}
    if found is None {
        assert forall|c: int, j: int| #[trigger]
            first_entry(leaves, current, c) implies !#[trigger] eligible(
            leaves,
            gauges,
            c,
            dir,
            j,
        ) by {
            let cur = rect_of(leaves, current).unwrap();
            assert(rect_of(leaves, current) == Some(leaves[c].1));
            assert(!reachable(leaves, gauges, current, cur, dir, j));
        }
    }
    if let Some(pane) = found {
        let cur = rect_of(leaves, current).unwrap();
        let c = choose|c: int| #[trigger] first_entry(leaves, current, c);
        let i = choose|i: int| #[trigger]
            is_nearest(leaves, gauges, current, cur, dir, i) && leaves[i].0 == pane;
        assert(reachable(leaves, gauges, current, cur, dir, i));
        assert(eligible(leaves, gauges, c, dir, i));
        assert forall|j: int| #[trigger] eligible(leaves, gauges, c, dir, j) implies {
            let (near, other) = (gauges[i].distance.rank(), gauges[j].distance.rank());
            near < other || near == other && i <= j
        } by {
            assert(reachable(leaves, gauges, current, cur, dir, j));
        }
    }
}

/// Without rounding, a pane can be moved to exactly if its centre is more than a
/// point away in that direction and its extent on the perpendicular axis overlaps,
/// as long as its distance is below the largest finite number.
pub proof fn law_eligible_by_coordinates(
    leaves: Seq<(PaneId, Rect)>,
    gauges: Seq<Gauge>,
    c: int,
    dir: Dir,
    j: int,
)
    requires
        0 <= c < leaves.len(),
        0 <= j < leaves.len(),
        all_measured(leaves, leaves[c].1, gauges),
        leaves[c].1.is_finite(),
        leaves[j].1.is_finite(),
        gauges[j].distance.rank() < 0x7F7F_FFFF,
    ensures
        ({
            let (cur, r) = (leaves[c].1, leaves[j].1);
            let across = r.double_x() - cur.double_x();
            let down = r.double_y() - cur.double_y();
            let beside = r.min_y.value() < cur.max_y.value() && cur.min_y.value()
                < r.max_y.value();
            let over = r.min_x.value() < cur.max_x.value() && cur.min_x.value() < r.max_x.value();
            eligible(leaves, gauges, c, dir, j) <==> leaves[j].0 != leaves[c].0 && match dir {
                Dir::Left => across < -2 * one() && beside,
                Dir::Right => across > 2 * one() && beside,
                Dir::Up => down < -2 * one() && over,
                Dir::Down => down > 2 * one() && over,
            }
        }),
{
    let (cur, r, g) = (leaves[c].1, leaves[j].1, gauges[j]);
    law_values_compare(g.x, g.left);
    law_values_compare(g.right, g.x);
    law_values_compare(g.y, g.above);
    law_values_compare(g.below, g.y);
    law_values_compare(r.min_y, cur.max_y);
    law_values_compare(cur.min_y, r.max_y);
    law_values_compare(r.min_x, cur.max_x);
    law_values_compare(cur.min_x, r.max_x);
}

/// Moving the focus changes nothing but the focus of the shown tab. It goes by the
/// rects of that tab in the area where it was last shown, measured each from the
/// rect of the focused pane; see [`law_nearest`] for where it goes.
pub proof fn law_move<M: Fn(Span, Span, Scalar) -> Marks, G: Fn(Rect, Rect) -> Gauge>(
    before: Session,
    after: Session,
    dir: Dir,
    mark: M,
    gauge: G,
)
    requires
        moved(before, after, dir, mark, gauge),
        0 <= before.active < before.tabs.len(),
    ensures
        after.tabs.len() == before.tabs.len(),
        forall|i: int|
            0 <= i < before.tabs.len() && i != before.active ==> #[trigger] after.tabs[i]
                == before.tabs[i],
        after.tabs[before.active].layout == before.tabs[before.active].layout,
        after.tabs[before.active].last_area == before.tabs[before.active].last_area,
        after.active == before.active,
        after.panes == before.panes,
        after.next_id == before.next_id,
        after.cfg == before.cfg,
        after.default_title == before.default_title,
        ({
            let tab = before.tabs[before.active];
            exists|
                leaves: Seq<(PaneId, Rect)>,
                dividers: Seq<Divider>,
                gauges: Seq<Gauge>,
                found: Option<PaneId>,
            |
                {
                    &&& #[trigger] tiled(mark, tab.layout.shape, tab.last_area, leaves, dividers)
                    &&& forall|c: int, j: int|
                        #[trigger] first_entry(leaves, tab.focused, c) && 0 <= j < leaves.len()
                            ==> call_ensures(
                            gauge,
                            (leaves[c].1, leaves[j].1),
                            #[trigger] gauges[j],
                        )
                    &&& #[trigger] leads_to(leaves, gauges, tab.focused, dir, found)
                    &&& after.tabs[before.active].focused == match found {
                        Some(pane) => pane,
                        None => tab.focused,
                    }
                }
        }),
{
    let (cuts, gauges, found) = lemma_moved(before, after, dir, mark, gauge);
    let tab = before.tabs[before.active];
    let leaves = cuts.panes(tab.layout.shape, tab.last_area);
    let dividers = cuts.dividers(tab.layout.shape, tab.last_area);
    law_rect_of(leaves, tab.focused);
    assert(tiled(mark, tab.layout.shape, tab.last_area, leaves, dividers));
    assert(leads_to(leaves, gauges, tab.focused, dir, found));
}

} // verus!
