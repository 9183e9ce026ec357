//! What each step does to a session, told by its tabs, their lists of panes and the
//! ratios of their splits.

use crate::app::Config;
use crate::geometry::{tiled, Divider, Marks, Rect, Span};
use crate::laws::geometry::steady;
use crate::laws::layout::{
    law_attach_keeps_splits, law_close_panes, law_focus_after_close, law_listed, law_listed_once,
    law_set_ratio, law_split_panes,
};
use crate::laws::locality::law_merge_is_local;
use crate::laws::session::lemma_home;
use crate::layout::{Axis, PaneId, HALF};
use crate::navigation::rect_of;
use crate::scalar::Scalar;
use crate::session::{home_from, Session};
use crate::shape::{joined, lemma_around, lemma_find, Layout, Shape};
use vstd::prelude::*;

verus! {

/// The tab that is shown is the one at the active index, and there is one exactly if
/// that index is one of a tab.
pub proof fn law_shown_tab(session: Session)
    ensures
        session.tab() == session.tabs[session.active],
        session.open() <==> 0 <= session.active && session.active < session.tabs.len(),
{
}

/// A session starts with no tab and no pane; the first id is zero.
pub proof fn law_start(cfg: Config)
    ensures
        Session::start(cfg).tabs.len() == 0,
        Session::start(cfg).active == 0,
        forall|p: PaneId| !Session::start(cfg).panes.dom().contains(p),
        Session::start(cfg).next_id == 0,
        Session::start(cfg).cfg == cfg,
        Session::start(cfg).default_title == crate::text::basename(cfg.shell@),
{
}

/// Drawing an id makes the next one the number after it, and changes nothing else.
pub proof fn law_draw(session: Session)
    ensures
        session.drew_id().next_id == session.next_id + 1,
        session.drew_id().tabs == session.tabs,
        session.drew_id().active == session.active,
        session.drew_id().panes == session.panes,
        session.drew_id().cfg == session.cfg,
        session.drew_id().default_title == session.default_title,
{
}

/// A new tab comes behind all others, holds just the new pane, which has its focus
/// and the default title, and is shown; it has not been shown anywhere yet. The
/// others stay as they were.
pub proof fn law_new_tab(session: Session, id: PaneId)
    ensures
        ({
            let new = session.new_tab(id);
            let n = session.tabs.len() as int;
            &&& new.tabs.len() == n + 1
            &&& forall|i: int| 0 <= i < n ==> #[trigger] new.tabs[i] == session.tabs[i]
            &&& new.tabs[n].layout.shape.panes() == seq![id]
            &&& new.tabs[n].layout.wf()
            &&& new.tabs[n].focused == id
            &&& new.tabs[n].last_area.min_x.bits == 0 && new.tabs[n].last_area.min_y.bits == 0
            &&& new.tabs[n].last_area.max_x.bits == 0 && new.tabs[n].last_area.max_y.bits == 0
            &&& new.active == n
            &&& new.panes == session.panes.insert(id, session.default_title)
            &&& new.next_id == session.next_id
            &&& new.cfg == session.cfg
            &&& new.default_title == session.default_title
        }),
{
    let layout = session.new_tab(id).tabs[session.tabs.len() as int].layout;
    assert(layout.shape.panes() =~= seq![id]);
    assert forall|i: int| #[trigger]
        layout.shape.owns(i) <==> 0 <= i && !layout.pool.offers(i) by {}
}

/// Grafting an even split of two leaves puts it right around the second of them.
proof fn lemma_graft_around(shape: Shape, target: PaneId, sub: Shape, id: PaneId)
    requires
        shape.has(target),
        !shape.has(id),
        target != id,
        sub matches Shape::Split { a, b, .. } && (*a matches Shape::Leaf { pane, .. } && pane
            == target) && (*b matches Shape::Leaf { pane, .. } && pane == id),
    ensures
        shape.graft(target, sub).split_around(id) == sub,
        shape.graft(target, sub).has(id),
        shape.graft(target, sub) is Split,
    decreases shape,
{
    assert(sub->a.has(id) == false);
    assert(sub->b.has(id));
    if let Shape::Split { a, b, .. } = shape {
        if a.has(target) {
            lemma_graft_around(*a, target, sub, id);
        } else {
            lemma_graft_around(*b, target, sub, id);
        }
    }
}

/// Splitting puts the new pane right behind the one that had the focus: in the list
/// of panes, and as the second child of an even split along the axis, whose first
/// child is the one that had the focus. The new pane gets the focus and the default
/// title. The other tabs stay as they were.
pub proof fn law_split(session: Session, axis: Axis, id: PaneId, k: int)
    requires
        session.sound(),
        session.fresh(id),
        0 <= session.active < session.tabs.len(),
        0 <= k < session.tabs[session.active].layout.shape.panes().len(),
        session.tabs[session.active].layout.shape.panes()[k]
            == session.tabs[session.active].focused,
    ensures
        ({
            let new = session.split(axis, id);
            let (t, old_tab) = (session.active, session.tabs[session.active]);
            let around = new.tabs[t].layout.shape.split_around(id);
            &&& new.tabs.len() == session.tabs.len()
            &&& forall|i: int|
                0 <= i < session.tabs.len() && i != t ==> #[trigger] new.tabs[i]
                    == session.tabs[i]
            &&& new.tabs[t].layout.shape.panes() == old_tab.layout.shape.panes().insert(k + 1, id)
            &&& around matches Shape::Split { axis: x, ratio, a, b, .. } && x == axis && ratio.bits
                == 0x3F00_0000 && (*a matches Shape::Leaf { pane, .. } && pane == old_tab.focused)
                && (*b matches Shape::Leaf { pane, .. } && pane == id)
            &&& new.tabs[t].focused == id
            &&& new.tabs[t].last_area == old_tab.last_area
            &&& new.active == t
            &&& new.panes == session.panes.insert(id, session.default_title)
            &&& new.next_id == session.next_id
            &&& new.cfg == session.cfg
            &&& new.default_title == session.default_title
        }),
{
    let new = session.split(axis, id);
    let (t, tab) = (session.active, session.tabs[session.active]);
    let (shape, target) = (tab.layout.shape, tab.focused);
    assert(shape.unique());
    law_listed_once(shape);
    law_listed(shape, target);
    lemma_find(shape, target);
    assert(shape.panes().contains(target));
    assert(session.shows(t, target));
    if shape.has(id) {
        assert(session.shows(t, id));
    }
    law_split_panes(tab.layout, target, id, axis, true, k);
    let panes = shape.panes();
    assert(panes.take(k) + seq![target, id] + panes.skip(k + 1) =~= panes.insert(k + 1, id));
    let leaf = shape.find(target).unwrap();
    let kept = Shape::Leaf { slot: tab.layout.pool.next(), pane: target };
    let fresh = Shape::Leaf { slot: tab.layout.pool.rest().next(), pane: id };
    let sub = joined(leaf, axis, Scalar { bits: HALF }, kept, fresh, true);
    lemma_graft_around(shape, target, sub, id);
}

/// Where the focus is on a pane that the shown tab does not hold, there is nothing to
/// split: the layout stays, and the new pane is alive and has the focus.
pub proof fn law_split_of_nothing(session: Session, axis: Axis, id: PaneId)
    requires
        0 <= session.active < session.tabs.len(),
        !session.tabs[session.active].layout.shape.panes().contains(
            session.tabs[session.active].focused,
        ),
    ensures
        ({
            let new = session.split(axis, id);
            let (t, old_tab) = (session.active, session.tabs[session.active]);
            &&& new.tabs.len() == session.tabs.len()
            &&& forall|i: int|
                0 <= i < session.tabs.len() && i != t ==> #[trigger] new.tabs[i]
                    == session.tabs[i]
            &&& new.tabs[t].layout == old_tab.layout
            &&& new.tabs[t].last_area == old_tab.last_area
            &&& new.tabs[t].focused == id
            &&& new.active == t
            &&& new.panes == session.panes.insert(id, session.default_title)
            &&& new.next_id == session.next_id
            &&& new.cfg == session.cfg
            &&& new.default_title == session.default_title
        }),
{
    let tab = session.tabs[session.active];
    law_listed(tab.layout.shape, tab.focused);
    lemma_find(tab.layout.shape, tab.focused);
}

/// Splitting moves no other pane of the shown tab, and leaves the ratio and the axis
/// of every split that was there.
pub proof fn law_split_moves_nothing_else<M: Fn(Span, Span, Scalar) -> Marks>(
    mark: M,
    session: Session,
    axis: Axis,
    id: PaneId,
    area: Rect,
    leaves_1: Seq<(PaneId, Rect)>,
    dividers_1: Seq<Divider>,
    leaves_2: Seq<(PaneId, Rect)>,
    dividers_2: Seq<Divider>,
)
    requires
        0 <= session.active < session.tabs.len(),
        session.tabs[session.active].layout.wf(),
        session.tabs[session.active].layout.shape.has(session.tabs[session.active].focused),
        tiled(mark, session.tabs[session.active].layout.shape, area, leaves_1, dividers_1),
        tiled(
            mark,
            session.split(axis, id).tabs[session.active].layout.shape,
            area,
            leaves_2,
            dividers_2,
        ),
        steady(mark),
    ensures
        forall|q: PaneId|
            q != session.tabs[session.active].focused && q != id ==> #[trigger] rect_of(leaves_1, q)
                == rect_of(leaves_2, q),
        forall|node: int|
            #[trigger] session.tabs[session.active].layout.shape.split_in(node) is Some
                ==> session.split(axis, id).tabs[session.active].layout.shape.split_in(node)
                == session.tabs[session.active].layout.shape.split_in(node),
{
    let tab = session.tabs[session.active];
    let other = Shape::Leaf { slot: 0, pane: id };
    law_merge_is_local(
        mark,
        tab.layout,
        tab.focused,
        other,
        axis,
        true,
        area,
        leaves_1,
        dividers_1,
        leaves_2,
        dividers_2,
    );
    assert forall|q: PaneId| q != tab.focused && q != id implies #[trigger] rect_of(leaves_1, q)
        == rect_of(leaves_2, q) by {
        assert(!other.has(q));
    }
    assert forall|node: int| #[trigger]
        tab.layout.shape.split_in(node) is Some implies session.split(
        axis,
        id,
    ).tabs[session.active].layout.shape.split_in(node) == tab.layout.shape.split_in(node) by {
        law_attach_keeps_splits(tab.layout, tab.focused, other, axis, true, node);
    }
}

/// Of the smallest split around a pane, one child is the leaf of that pane, and the
/// other is what stands beside it.
proof fn lemma_split_around(shape: Shape, pane: PaneId)
    requires
        shape.around(pane) is Some,
    ensures
        shape.split_around(pane) matches Shape::Split { a, b, .. } && {
            ||| (*a matches Shape::Leaf { pane: p, .. } && p == pane) && *b == shape.around(
                pane,
            ).unwrap().1
            ||| (*b matches Shape::Leaf { pane: p, .. } && p == pane) && *a == shape.around(
                pane,
            ).unwrap().1
        },
    decreases shape,
{
    if let Shape::Split { a, b, .. } = shape {
        lemma_around(*a, pane);
        lemma_around(*b, pane);
        if a.has(pane) {
            if *a is Split {
                lemma_split_around(*a, pane);
            }
        } else if *b is Split {
            lemma_split_around(*b, pane);
        }
    }
}

/// The pane to turn to when a pane is closed is the first one of what stands beside it
/// in the smallest split around it.
pub proof fn law_focus_goes_beside(layout: Layout, pane: PaneId)
    requires
        layout.shape.panes().contains(pane),
        layout.shape.panes().len() > 1,
    ensures
        layout.focus_after_close(pane) matches Some(next) && (layout.shape.split_around(
            pane,
        ) matches Shape::Split { a, b, .. } && {
            ||| (*a matches Shape::Leaf { pane: p, .. } && p == pane) && next == b.panes()[0]
            ||| (*b matches Shape::Leaf { pane: p, .. } && p == pane) && next == a.panes()[0]
        }),
{
    law_listed(layout.shape, pane);
    lemma_around(layout.shape, pane);
    lemma_split_around(layout.shape, pane);
    let sibling = layout.shape.around(pane).unwrap().1;
    law_listed(sibling, sibling.first_pane());
}

/// Closing one of several panes of a tab takes it out of the list of that tab, and
/// leaves everything else: the order of the others, the other tabs, and which tab is
/// shown. If the pane had the focus of its tab, the first pane of what stood beside
/// it in its split gets it; else the focus stays.
pub proof fn law_close_one_of_several(session: Session, pane: PaneId, i: int, k: int)
    requires
        session.sound(),
        0 <= i < session.tabs.len(),
        session.tabs[i].layout.shape.panes().len() > 1,
        0 <= k < session.tabs[i].layout.shape.panes().len(),
        session.tabs[i].layout.shape.panes()[k] == pane,
    ensures
        ({
            let new = session.close_pane(pane);
            let shape = session.tabs[i].layout.shape;
            let focused = new.tabs[i].focused;
            &&& new.tabs.len() == session.tabs.len()
            &&& forall|j: int|
                0 <= j < session.tabs.len() && j != i ==> #[trigger] new.tabs[j]
                    == session.tabs[j]
            &&& new.tabs[i].layout.shape.panes() == shape.panes().remove(k)
            &&& new.tabs[i].last_area == session.tabs[i].last_area
            &&& session.tabs[i].focused != pane ==> focused == session.tabs[i].focused
            &&& session.tabs[i].focused == pane ==> (shape.split_around(
                pane,
            ) matches Shape::Split { a, b, .. } && {
                ||| (*a matches Shape::Leaf { pane: p, .. } && p == pane) && focused == b.panes()[0]
                ||| (*b matches Shape::Leaf { pane: p, .. } && p == pane) && focused == a.panes()[0]
            })
            &&& new.active == session.active
            &&& new.panes == session.panes.remove(pane)
            &&& new.next_id == session.next_id
            &&& new.cfg == session.cfg
            &&& new.default_title == session.default_title
            &&& session.closing(pane) is Gone
        }),
{
    let tab = session.tabs[i];
    let shape = tab.layout.shape;
    assert(shape.unique());
    law_listed_once(shape);
    law_listed(shape, pane);
    assert(shape.panes().contains(pane));
    assert(session.shows(i, pane));
    lemma_home(session, pane, 0);
    let ti = home_from(session.tabs, pane, 0).unwrap();
    assert(session.shows(ti, pane));
    law_close_panes(tab.layout, pane, k);
    let panes = shape.panes();
    assert(panes.take(k) + panes.skip(k + 1) =~= panes.remove(k));
    lemma_around(shape, pane);
    lemma_split_around(shape, pane);
    let sibling = shape.around(pane).unwrap().1;
    law_listed(sibling, sibling.first_pane());
    law_focus_after_close(tab.layout, pane);
    let next = tab.layout.focus_after_close(pane).unwrap();
    let rest = tab.layout.close(pane).shape;
    law_listed(rest, next);
    if next == pane {
        let m = panes.remove(k).index_of(pane);
        assert(panes.remove(k)[m] == pane);
    }
    let m = rest.panes().index_of(next);
    assert(rest.panes()[m] == next);
    assert(panes.contains(next)) by {
        if m < k {
            assert(panes[m] == next);
        } else {
            assert(panes[m + 1] == next);
        }
    }
    law_listed(shape, next);
    assert(session.shows(i, next));
}

/// Closing the only pane of a tab takes the tab out of the row of tabs. The tab that
/// was shown still is, unless it is the one that goes: then the one behind it is
/// shown, or the one before it where there is none behind. The window is to be closed
/// exactly if no tab is left.
pub proof fn law_close_the_only_one(session: Session, pane: PaneId, i: int)
    requires
        session.sound(),
        0 <= i < session.tabs.len(),
        session.tabs[i].layout.shape.panes() == seq![pane],
    ensures
        ({
            let new = session.close_pane(pane);
            let n = session.tabs.len() as int;
            &&& new.tabs == session.tabs.remove(i)
            &&& n > 1 ==> 0 <= new.active < new.tabs.len() && new.tabs[new.active] == (
            if session.active != i {
                session.tabs[session.active]
            } else if i + 1 < n {
                session.tabs[i + 1]
            } else {
                session.tabs[i - 1]
            })
            &&& n == 1 ==> new.active == session.active
            &&& n > 1 && session.active < i ==> new.active == session.active
            &&& n > 1 && session.active > i ==> new.active == session.active - 1
            &&& n > 1 && session.active == i && i + 1 < n ==> new.active == i
            &&& n > 1 && session.active == i && i + 1 == n ==> new.active == i - 1
            &&& new.panes == session.panes.remove(pane)
            &&& new.next_id == session.next_id
            &&& new.cfg == session.cfg
            &&& new.default_title == session.default_title
            &&& session.closing(pane) is Last <==> n == 1
            &&& session.closing(pane) is Gone <==> n > 1
        }),
{
    let shape = session.tabs[i].layout.shape;
    law_listed(shape, pane);
    assert(shape.panes()[0] == pane);
    assert(session.shows(i, pane));
    lemma_home(session, pane, 0);
    let ti = home_from(session.tabs, pane, 0).unwrap();
    assert(session.shows(ti, pane));
}

/// Closing a pane that is not alive changes nothing. One that is alive but in no tab
/// is no longer alive, and nothing else changes.
pub proof fn law_close_what_is_not_shown(session: Session, pane: PaneId)
    requires
        forall|i: int| !session.shows(i, pane),
    ensures
        session.panes.dom().contains(pane) ==> session.close_pane(pane) == (Session {
            panes: session.panes.remove(pane),
            ..session
        }) && session.closing(pane) is Gone,
        !session.panes.dom().contains(pane) ==> session.close_pane(pane) == session
            && session.closing(pane) is Unknown,
{
    lemma_home(session, pane, 0);
}

/// What closing a pane amounts to: nothing exactly if the pane is not alive, and the
/// end exactly if that leaves no tab where there was one.
pub proof fn law_closing(session: Session, pane: PaneId)
    requires
        session.sound(),
    ensures
        session.closing(pane) is Unknown <==> !session.panes.dom().contains(pane),
        session.closing(pane) is Last <==> session.tabs.len() > 0 && session.close_pane(
            pane,
        ).tabs.len() == 0,
{
    lemma_home(session, pane, 0);
}

/// Jumping to a tab shows the tab with that index, if there is one, and changes
/// nothing else.
pub proof fn law_select(session: Session, i: int)
    requires
        0 <= i,
    ensures
        i < session.tabs.len() ==> session.select_tab(i).active == i,
        i >= session.tabs.len() ==> session.select_tab(i).active == session.active,
        session.select_tab(i).tabs == session.tabs,
        session.select_tab(i).panes == session.panes,
        session.select_tab(i).next_id == session.next_id,
        session.select_tab(i).cfg == session.cfg,
        session.select_tab(i).default_title == session.default_title,
{
}

/// Whether `new` differs from `session` in the tab that is shown at most.
pub open spec fn only_shown_tab(session: Session, new: Session) -> bool {
    &&& new.tabs.len() == session.tabs.len()
    &&& forall|i: int|
        0 <= i < session.tabs.len() && i != session.active ==> #[trigger] new.tabs[i]
            == session.tabs[i]
    &&& new.active == session.active
    &&& new.panes == session.panes
    &&& new.next_id == session.next_id
    &&& new.cfg == session.cfg
    &&& new.default_title == session.default_title
}

/// Focusing a pane moves the focus of the shown tab there, and changes nothing else.
pub proof fn law_focus(session: Session, pane: PaneId)
    requires
        0 <= session.active < session.tabs.len(),
    ensures
        ({
            let new = session.focus(pane);
            let (before, after) = (session.tabs[session.active], new.tabs[session.active]);
            &&& only_shown_tab(session, new)
            &&& after.focused == pane
            &&& after.layout == before.layout
            &&& after.last_area == before.last_area
        }),
{
}

/// Laying out the shown tab makes it remember the area, and changes nothing else.
pub proof fn law_lay_out(session: Session, area: Rect)
    requires
        0 <= session.active < session.tabs.len(),
    ensures
        ({
            let new = session.shown_in(area);
            let (before, after) = (session.tabs[session.active], new.tabs[session.active]);
            &&& only_shown_tab(session, new)
            &&& after.last_area == area
            &&& after.layout == before.layout
            &&& after.focused == before.focused
        }),
{
}

/// The ratio that a split gets when `ratio` is asked for: 0.05 for less than that,
/// 0.95 for more than that, and else what is asked for.
pub open spec fn kept_usable(ratio: Scalar) -> Scalar {
    if ratio.is_number() && ratio.rank() < 0x3D4C_CCCD {
        Scalar { bits: 0x3D4C_CCCD }
    } else if ratio.is_number() && ratio.rank() > 0x3F73_3333 {
        Scalar { bits: 0x3F73_3333 }
    } else {
        ratio
    }
}

/// Resizing sets the ratio of that split of the shown tab, kept within the limits.
/// Every other split, every pane, every other tab and the focus stay.
pub proof fn law_resize(session: Session, node: int, ratio: Scalar)
    requires
        0 <= session.active < session.tabs.len(),
    ensures
        ({
            let new = session.resize(node, ratio);
            let (before, after) = (session.tabs[session.active], new.tabs[session.active]);
            &&& only_shown_tab(session, new)
            &&& after.focused == before.focused
            &&& after.last_area == before.last_area
            &&& after.layout.shape.panes() == before.layout.shape.panes()
            &&& after.layout.shape.split_in(node) == match before.layout.shape.split_in(node) {
                Some((axis, _)) => Some((axis, kept_usable(ratio))),
                None => None,
            }
            &&& forall|other: int|
                other != node ==> #[trigger] after.layout.shape.split_in(other)
                    == before.layout.shape.split_in(other)
        }),
{
    let before = session.tabs[session.active];
    let after = session.resize(node, ratio).tabs[session.active];
    law_set_ratio(before.layout, node, kept_usable(ratio), node);
    assert forall|other: int| other != node implies #[trigger] after.layout.shape.split_in(other)
        == before.layout.shape.split_in(other) by {
        law_set_ratio(before.layout, node, kept_usable(ratio), other);
    }
}

/// After a click and drags, the clicked pane has the focus of the shown tab, or the
/// one that had it if none was clicked. Each of its splits has the ratio it was last
/// dragged to, kept within the limits, or the one it had if it was not dragged.
/// Nothing else changes.
pub proof fn law_settle(
    session: Session,
    clicked: Option<PaneId>,
    updates: Seq<(usize, Scalar)>,
    node: usize,
)
    requires
        0 <= session.active < session.tabs.len(),
    ensures
        ({
            let new = session.settle(clicked, updates);
            let (before, after) = (session.tabs[session.active], new.tabs[session.active]);
            &&& only_shown_tab(session, new)
            &&& after.focused == match clicked {
                Some(pane) => pane,
                None => before.focused,
            }
            &&& after.last_area == before.last_area
            &&& after.layout.shape.panes() == before.layout.shape.panes()
            &&& forall|k: int|
                0 <= k < updates.len() && (#[trigger] updates[k]).0 == node && (forall|m: int|
                    k < m < updates.len() ==> (#[trigger] updates[m]).0 != node)
                    ==> after.layout.shape.split_in(node as int)
                    == match before.layout.shape.split_in(node as int) {
                    Some((axis, _)) => Some((axis, kept_usable(updates[k].1))),
                    None => None,
                }
            &&& (forall|m: int| 0 <= m < updates.len() ==> (#[trigger] updates[m]).0 != node)
                ==> after.layout.shape.split_in(node as int) == before.layout.shape.split_in(
                node as int,
            )
        }),
{
    match clicked {
        Some(pane) => {
            law_focus(session, pane);
            lemma_resize_all(session.focus(pane), updates, node);
        },
        None => lemma_resize_all(session, updates, node),
    }
}

proof fn lemma_resize_all(session: Session, updates: Seq<(usize, Scalar)>, node: usize)
    requires
        0 <= session.active < session.tabs.len(),
    ensures
        ({
            let new = session.resize_all(updates);
            let (before, after) = (session.tabs[session.active], new.tabs[session.active]);
            &&& only_shown_tab(session, new)
            &&& after.focused == before.focused
            &&& after.last_area == before.last_area
            &&& after.layout.shape.panes() == before.layout.shape.panes()
            &&& forall|k: int|
                0 <= k < updates.len() && (#[trigger] updates[k]).0 == node && (forall|m: int|
                    k < m < updates.len() ==> (#[trigger] updates[m]).0 != node)
                    ==> after.layout.shape.split_in(node as int)
                    == match before.layout.shape.split_in(node as int) {
                    Some((axis, _)) => Some((axis, kept_usable(updates[k].1))),
                    None => None,
                }
            &&& (forall|m: int| 0 <= m < updates.len() ==> (#[trigger] updates[m]).0 != node)
                ==> after.layout.shape.split_in(node as int) == before.layout.shape.split_in(
                node as int,
            )
        }),
    decreases updates.len(),
{
    let new = session.resize_all(updates);
    let (before, after) = (session.tabs[session.active], new.tabs[session.active]);
    let n = node as int;
    if updates.len() > 0 {
        let rest = updates.drop_last();
        let mid = session.resize_all(rest);
        let middle = mid.tabs[session.active];
        let last = updates.len() - 1;
        let (to, ratio) = updates[last];
        lemma_resize_all(session, rest, node);
        law_resize(mid, to as int, ratio);
        assert(after.layout.shape.split_in(n) == if to == node {
            match middle.layout.shape.split_in(n) {
                Some((axis, _)) => Some((axis, kept_usable(ratio))),
                None => None,
            }
        } else {
            middle.layout.shape.split_in(n)
        });
        lemma_same_axis(session, rest, node);
        assert forall|k: int|
            0 <= k < updates.len() && (#[trigger] updates[k]).0 == node && (forall|m: int|
                k < m < updates.len() ==> (#[trigger] updates[m]).0 != node) implies
            after.layout.shape.split_in(n) == match before.layout.shape.split_in(n) {
            Some((axis, _)) => Some((axis, kept_usable(updates[k].1))),
            None => None,
        } by {
            if k < last {
                assert(updates[last].0 != node);
                assert(rest[k] == updates[k]);
                assert forall|m: int| k < m < rest.len() implies (#[trigger] rest[m]).0 != node by {
                    assert(updates[m].0 != node);
                }
            }
        }
        if forall|m: int| 0 <= m < updates.len() ==> (#[trigger] updates[m]).0 != node {
            assert(updates[last].0 != node);
            assert forall|m: int| 0 <= m < rest.len() implies (#[trigger] rest[m]).0 != node by {
                assert(updates[m].0 != node);
            }
        }
    }
}

/// Resizing turns no split round.
proof fn lemma_same_axis(session: Session, updates: Seq<(usize, Scalar)>, node: usize)
    requires
        0 <= session.active < session.tabs.len(),
    ensures
        ({
            let new = session.resize_all(updates);
            let before = session.tabs[session.active].layout.shape.split_in(node as int);
            let after = new.tabs[session.active].layout.shape.split_in(node as int);
            &&& new.active == session.active && new.tabs.len() == session.tabs.len()
            &&& before is Some <==> after is Some
            &&& before is Some ==> before.unwrap().0 == after.unwrap().0
        }),
    decreases updates.len(),
{
    if updates.len() > 0 {
        lemma_same_axis(session, updates.drop_last(), node);
        let mid = session.resize_all(updates.drop_last());
        law_resize(mid, updates.last().0 as int, updates.last().1);
        let shape = mid.resize(
            updates.last().0 as int,
            updates.last().1,
        ).tabs[session.active].layout.shape;
        assert(shape.split_in(node as int) is Some || shape.split_in(node as int) is None);
    }
}

/// The title of a live pane is the one kept for it; for any other there is the
/// fallback.
pub proof fn law_title(session: Session, pane: PaneId, fallback: Seq<char>)
    ensures
        session.panes.dom().contains(pane) ==> session.title(pane, fallback)
            == session.panes[pane],
        !session.panes.dom().contains(pane) ==> session.title(pane, fallback) == fallback,
{
}

} // verus!
