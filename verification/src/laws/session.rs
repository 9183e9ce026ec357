//! Laws of a session: what every operation keeps, and what closing a pane means.

use crate::app::{lemma_moved, moved, Closing, Config, PtyEvent};
use crate::geometry::{tiled, Divider, Marks, Rect, Span};
use crate::laws::geometry::{
    law_geometry_is_settled, law_neighbor_is_elsewhere, law_one_rect_per_pane, steady,
};
use crate::laws::layout::{
    law_focus_after_close, law_listed, lemma_graft_unique, lemma_without_unique,
};
use crate::layout::{Axis, Dir, PaneId, HALF, MAX_RATIO, MIN_RATIO};
use crate::navigation::{gauged, leads_to, Gauge};
use crate::scalar::Scalar;
use crate::session::{exits, home_from, Session};
use crate::shape::{joined, lemma_around, lemma_find, lemma_with_ratio_slots, Shape};
use vstd::prelude::*;

verus! {

impl Session {
    /// What holds of a session between any two operations: it is sound, a pane is
    /// alive exactly if some tab holds it, and the focus of a tab is on one of its
    /// panes.
    pub open spec fn consistent(self) -> bool {
        &&& self.sound()
        &&& forall|i: int|
            0 <= i < self.tabs.len() ==> self.shows(i, (#[trigger] self.tabs[i]).focused)
        &&& forall|p: PaneId| #[trigger]
            self.panes.dom().contains(p) ==> exists|i: int| self.shows(i, p)
    }
}

/// A session starts out consistent.
pub proof fn law_start_is_consistent(cfg: Config)
    ensures
        Session::start(cfg).consistent(),
{
}

/// The first tab that holds a pane does hold it, and there is one if any does.
pub proof fn lemma_home(session: Session, pane: PaneId, from: int)
    requires
        0 <= from <= session.tabs.len(),
    ensures
        home_from(session.tabs, pane, from) matches Some(i) ==> from <= i && session.shows(i, pane),
        home_from(session.tabs, pane, from) is None ==> forall|i: int|
            from <= i ==> !#[trigger] session.shows(i, pane),
    decreases session.tabs.len() - from,
{
    if from < session.tabs.len() && !session.tabs[from].layout.shape.has(pane) {
        lemma_home(session, pane, from + 1);
    }
}

/// A session that shows and keeps alive the same panes as a sound one is sound too.
pub proof fn lemma_alike_sound(session: Session, new: Session)
    requires
        session.sound(),
        new.tabs.len() == session.tabs.len(),
        forall|i: int, p: PaneId| #[trigger] new.shows(i, p) == session.shows(i, p),
        forall|i: int|
            0 <= i < new.tabs.len() ==> (#[trigger] new.tabs[i]).layout.shape.unique(),
        new.panes.dom() == session.panes.dom(),
        new.next_id >= session.next_id,
        new.tabs.len() > 0 ==> new.open(),
    ensures
        new.sound(),
{
    assert forall|i: int, j: int, p: PaneId|
        #[trigger] new.shows(i, p) && #[trigger] new.shows(j, p) implies i == j by {
        assert(session.shows(i, p) && session.shows(j, p));
    }
    assert forall|i: int, p: PaneId| #[trigger] new.shows(i, p) implies new.panes.dom().contains(
        p,
    ) by {
        assert(session.shows(i, p));
    }
}

/// If in addition the focus of every tab is on one of its panes, and the first
/// session is consistent, so is the second.
proof fn lemma_alike(session: Session, new: Session)
    requires
        session.consistent(),
        new.tabs.len() == session.tabs.len(),
        forall|i: int, p: PaneId| #[trigger] new.shows(i, p) == session.shows(i, p),
        forall|i: int|
            0 <= i < new.tabs.len() ==> (#[trigger] new.tabs[i]).layout.shape.unique(),
        forall|i: int| 0 <= i < new.tabs.len() ==> new.shows(i, (#[trigger] new.tabs[i]).focused),
        new.panes.dom() == session.panes.dom(),
        new.next_id >= session.next_id,
        new.tabs.len() > 0 ==> new.open(),
    ensures
        new.consistent(),
{
    lemma_alike_sound(session, new);
    assert forall|p: PaneId| #[trigger] new.panes.dom().contains(p) implies exists|i: int|
        new.shows(i, p) by {
        assert(session.panes.dom().contains(p));
        let i = choose|i: int| session.shows(i, p);
        assert(new.shows(i, p));
    }
}

/// Drawing an id keeps a session sound, and the id is fresh.
pub proof fn lemma_drew_id(session: Session)
    requires
        session.sound(),
        0 <= session.next_id <= u64::MAX,
    ensures
        session.drew_id().sound(),
        session.drew_id().fresh(session.next_id as PaneId),
{
    let drew = session.drew_id();
    assert forall|i: int, p: PaneId| #[trigger] drew.shows(i, p) == session.shows(i, p) by {}
    lemma_alike_sound(session, drew);
}

/// Opening a tab for a fresh pane keeps a session sound, and shows that pane in
/// addition.
pub proof fn lemma_new_tab(session: Session, id: PaneId)
    requires
        session.sound(),
        session.fresh(id),
    ensures
        session.new_tab(id).sound(),
        forall|i: int, p: PaneId| #[trigger]
            session.new_tab(id).shows(i, p) <==> session.shows(i, p) || i == session.tabs.len()
                && p == id,
{
    let new = session.new_tab(id);
    let n = session.tabs.len() as int;
    assert forall|i: int, p: PaneId| #[trigger] new.shows(i, p) <==> session.shows(i, p) || i == n
        && p == id by {
        if i == n {
            assert(new.tabs[n].layout.shape.has(p) <==> p == id);
        }
    }
    lemma_one_more(session, new, n, id);
}

/// A session that shows one fresh pane in addition to what a sound one shows is
/// sound too.
proof fn lemma_one_more(session: Session, new: Session, t: int, id: PaneId)
    requires
        session.sound(),
        session.fresh(id),
        forall|i: int, p: PaneId| #[trigger]
            new.shows(i, p) <==> session.shows(i, p) || i == t && p == id,
        forall|i: int|
            0 <= i < new.tabs.len() && new.tabs[i].layout.shape != session.tabs[i].layout.shape
                ==> (#[trigger] new.tabs[i]).layout.shape.unique(),
        session.tabs.len() <= new.tabs.len() <= session.tabs.len() + 1,
        new.tabs.len() > session.tabs.len() ==> new.tabs.last().layout.shape.unique(),
        new.panes.dom() =~= session.panes.dom().insert(id),
        new.next_id == session.next_id,
        new.tabs.len() > 0 ==> new.open(),
    ensures
        new.sound(),
{
    assert forall|i: int| #[trigger] session.shows(i, id) implies false by {
        assert(session.panes.dom().contains(id));
    }
    assert forall|i: int, j: int, p: PaneId|
        #[trigger] new.shows(i, p) && #[trigger] new.shows(j, p) implies i == j by {
        if p != id {
            assert(session.shows(i, p) && session.shows(j, p));
        }
    }
    assert forall|i: int, p: PaneId| #[trigger] new.shows(i, p) implies new.panes.dom().contains(
        p,
    ) by {
        if session.shows(i, p) {
            assert(session.panes.dom().contains(p));
        }
    }
    assert forall|i: int| 0 <= i < new.tabs.len() implies (
    #[trigger] new.tabs[i]).layout.shape.unique() by {
        if i < session.tabs.len() {
            assert(session.tabs[i].layout.shape.unique());
        }
    }
}

/// Splitting with a fresh pane keeps a session sound, and shows that pane in
/// addition where the focus is on a pane of the shown tab.
pub proof fn lemma_split(session: Session, axis: Axis, id: PaneId)
    requires
        session.sound(),
        session.open(),
        session.fresh(id),
    ensures
        session.split(axis, id).sound(),
        session.shows(session.active, session.tab().focused) ==> forall|i: int, p: PaneId|
            #[trigger] session.split(axis, id).shows(i, p) <==> session.shows(i, p) || i
                == session.active && p == id,
{
    let new = session.split(axis, id);
    let t = session.active;
    let tab = session.tabs[t];
    let target = tab.focused;
    lemma_find(tab.layout.shape, target);
    assert forall|i: int| #[trigger] session.shows(i, id) implies false by {
        assert(session.panes.dom().contains(id));
    }
    if session.shows(t, target) {
        assert(!tab.layout.shape.has(id)) by {
            assert(session.shows(t, id) == tab.layout.shape.has(id));
        }
        let leaf = tab.layout.shape.find(target).unwrap();
        let kept = Shape::Leaf { slot: tab.layout.pool.next(), pane: target };
        let fresh = Shape::Leaf { slot: tab.layout.pool.rest().next(), pane: id };
        let sub = joined(leaf, axis, Scalar { bits: HALF }, kept, fresh, true);
        assert(target != id);
        assert forall|p: PaneId| #[trigger] sub.has(p) <==> p == target || p == id by {
            assert(kept.has(p) <==> p == target);
            assert(fresh.has(p) <==> p == id);
        }
        assert(kept.unique() && fresh.unique());
        assert forall|p: PaneId| !(#[trigger] kept.has(p) && fresh.has(p)) by {}
        assert(sub.unique());
        assert(session.tabs[t].layout.shape.unique());
        lemma_graft_unique(tab.layout.shape, target, sub);
        let grown = tab.layout.shape.graft(target, sub);
        assert(new.tabs[t].layout.shape == grown);
        assert forall|i: int, p: PaneId| #[trigger] new.shows(i, p) <==> session.shows(i, p) || i
            == t && p == id by {
            if i == t {
                assert(grown.has(p) <==> tab.layout.shape.has(p) || sub.has(p));
            }
        }
        lemma_one_more(session, new, t, id);
    } else {
        assert(new.tabs[t].layout == tab.layout);
        assert forall|i: int, p: PaneId| #[trigger] new.shows(i, p) == session.shows(i, p) by {}
        let registered = Session { panes: new.panes, ..session };
        assert forall|i: int, p: PaneId| #[trigger]
            registered.shows(i, p) == session.shows(i, p) by {}
        assert(registered.sound());
        lemma_alike_sound(registered, new);
    }
}

/// Opening a tab for a pane whose id has just been drawn keeps a session
/// consistent.
pub proof fn law_new_tab_keeps_consistent(session: Session)
    requires
        session.consistent(),
        0 <= session.next_id <= u64::MAX,
    ensures
        session.drew_id().consistent(),
        session.drew_id().new_tab(session.next_id as PaneId).consistent(),
{
    let id = session.next_id as PaneId;
    let drew = session.drew_id();
    let new = drew.new_tab(id);
    let n = session.tabs.len() as int;
    lemma_drew_id(session);
    assert forall|i: int, p: PaneId| #[trigger] drew.shows(i, p) == session.shows(i, p) by {}
    assert forall|i: int| 0 <= i < drew.tabs.len() implies drew.shows(
        i,
        (#[trigger] drew.tabs[i]).focused,
    ) by {
        assert(session.shows(i, session.tabs[i].focused));
    }
    lemma_alike(session, drew);
    lemma_new_tab(drew, id);
    assert forall|p: PaneId| #[trigger] new.panes.dom().contains(p) implies exists|i: int|
        new.shows(i, p) by {
        if p == id {
            assert(new.shows(n, p));
        } else {
            assert(drew.panes.dom().contains(p));
            let i = choose|i: int| drew.shows(i, p);
            assert(new.shows(i, p));
        }
    }
    assert forall|i: int| 0 <= i < new.tabs.len() implies new.shows(
        i,
        (#[trigger] new.tabs[i]).focused,
    ) by {
        if i < n {
            assert(new.tabs[i] == drew.tabs[i]);
            assert(drew.shows(i, drew.tabs[i].focused));
        }
    }
}

/// Splitting the focused pane, with a pane whose id has just been drawn, keeps a
/// session consistent.
pub proof fn law_split_keeps_consistent(session: Session, axis: Axis)
    requires
        session.consistent(),
        session.open(),
        0 <= session.next_id <= u64::MAX,
    ensures
        session.drew_id().split(axis, session.next_id as PaneId).consistent(),
{
    let id = session.next_id as PaneId;
    let drew = session.drew_id();
    let new = drew.split(axis, id);
    let t = session.active;
    law_new_tab_keeps_consistent(session);
    lemma_drew_id(session);
    assert(drew.shows(t, drew.tabs[t].focused));
    lemma_split(drew, axis, id);
    assert forall|i: int| 0 <= i < new.tabs.len() implies new.shows(
        i,
        (#[trigger] new.tabs[i]).focused,
    ) by {
        assert(drew.shows(i, drew.tabs[i].focused));
    }
    assert forall|p: PaneId| #[trigger] new.panes.dom().contains(p) implies exists|i: int|
        new.shows(i, p) by {
        if p == id {
            assert(new.shows(t, p));
        } else {
            assert(drew.panes.dom().contains(p));
            let i = choose|i: int| drew.shows(i, p);
            assert(new.shows(i, p));
        }
    }
}

/// Jumping to a tab, laying it out, resizing a split of it and retitling a pane
/// keep a session consistent; so does focusing a pane of the tab that is shown.
pub proof fn law_small_steps_keep_consistent(
    session: Session,
    i: int,
    pane: PaneId,
    area: Rect,
    node: int,
    ratio: Scalar,
    title: Seq<char>,
)
    requires
        session.consistent(),
        i >= 0,
    ensures
        session.select_tab(i).consistent(),
        session.retitle(pane, title).consistent(),
        session.open() ==> session.shown_in(area).consistent(),
        session.open() ==> session.resize(node, ratio).consistent(),
        session.open() && session.shows(session.active, pane) ==> session.focus(
            pane,
        ).consistent(),
{
    assert forall|j: int| 0 <= j < session.tabs.len() implies session.shows(
        j,
        (#[trigger] session.tabs[j]).focused,
    ) && session.tabs[j].layout.shape.unique() by {}
    let selected = session.select_tab(i);
    assert forall|j: int, p: PaneId| #[trigger] selected.shows(j, p) == session.shows(j, p) by {}
    lemma_alike(session, selected);
    let retitled = session.retitle(pane, title);
    assert forall|j: int, p: PaneId| #[trigger] retitled.shows(j, p) == session.shows(j, p) by {}
    assert(retitled.panes.dom() =~= session.panes.dom());
    lemma_alike(session, retitled);
    if session.open() {
        let shown = session.shown_in(area);
        assert forall|j: int, p: PaneId| #[trigger] shown.shows(j, p) == session.shows(j, p) by {}
        lemma_alike(session, shown);
        let resized = session.resize(node, ratio);
        lemma_resize_shows(session, node, ratio);
        lemma_alike(session, resized);
        if session.shows(session.active, pane) {
            let focused = session.focus(pane);
            assert forall|j: int, p: PaneId| #[trigger]
                focused.shows(j, p) == session.shows(j, p) by {}
            lemma_alike(session, focused);
        }
    }
}

/// Clicking a pane of the shown tab and dragging its dividers keep a session
/// consistent, and leave every pane in its tab.
pub proof fn law_settle_keeps_consistent(
    session: Session,
    clicked: Option<PaneId>,
    updates: Seq<(usize, Scalar)>,
)
    requires
        session.consistent(),
        session.open(),
        clicked matches Some(pane) ==> session.shows(session.active, pane),
    ensures
        session.settle(clicked, updates).consistent(),
        forall|j: int, p: PaneId| #[trigger]
            session.settle(clicked, updates).shows(j, p) == session.shows(j, p),
{
    match clicked {
        Some(pane) => {
            let focused = session.focus(pane);
            assert forall|j: int, p: PaneId| #[trigger]
                focused.shows(j, p) == session.shows(j, p) by {}
            assert forall|j: int| 0 <= j < focused.tabs.len() implies focused.shows(
                j,
                (#[trigger] focused.tabs[j]).focused,
            ) && focused.tabs[j].layout.shape.unique() by {
                assert(session.shows(j, session.tabs[j].focused));
            }
            lemma_alike(session, focused);
            lemma_resize_all(focused, updates);
        },
        None => lemma_resize_all(session, updates),
    }
}

proof fn lemma_resize_all(session: Session, updates: Seq<(usize, Scalar)>)
    requires
        session.consistent(),
        session.open(),
    ensures
        session.resize_all(updates).consistent(),
        session.resize_all(updates).open(),
        forall|j: int, p: PaneId| #[trigger]
            session.resize_all(updates).shows(j, p) == session.shows(j, p),
    decreases updates.len(),
{
    if updates.len() > 0 {
        let before = session.resize_all(updates.drop_last());
        let (node, ratio) = updates.last();
        lemma_resize_all(session, updates.drop_last());
        lemma_resize_shows(before, node as int, ratio);
        let after = before.resize(node as int, ratio);
        assert forall|j: int| 0 <= j < after.tabs.len() implies after.shows(
            j,
            (#[trigger] after.tabs[j]).focused,
        ) by {
            assert(before.shows(j, before.tabs[j].focused));
        }
        lemma_alike(before, after);
    }
}

/// Resizing moves no pane.
pub proof fn lemma_resize_shows(session: Session, node: int, ratio: Scalar)
    requires
        session.sound(),
        session.open(),
    ensures
        forall|j: int, p: PaneId|
            #[trigger] session.resize(node, ratio).shows(j, p) == session.shows(j, p),
        forall|j: int|
            0 <= j < session.tabs.len() ==> {
                let tab = #[trigger] session.resize(node, ratio).tabs[j];
                tab.layout.shape.unique() && tab.focused == session.tabs[j].focused
            },
{
    let new = session.resize(node, ratio);
    let shape = session.tab().layout.shape;
    let value = ratio.clamped(
        Scalar { bits: MIN_RATIO },
        Scalar { bits: MAX_RATIO },
    );
    lemma_with_ratio_slots(shape, node, value);
    lemma_with_ratio_unique(shape, node, value);
    assert forall|j: int, p: PaneId| #[trigger] new.shows(j, p) == session.shows(j, p) by {
        assert(shape.with_ratio(node, value).has(p) == shape.has(p));
    }
    assert forall|j: int| 0 <= j < session.tabs.len() implies {
        let tab = #[trigger] new.tabs[j];
        tab.layout.shape.unique() && tab.focused == session.tabs[j].focused
    } by {
        assert(session.tabs[j].layout.shape.unique());
    }
}

proof fn lemma_with_ratio_unique(shape: Shape, node: int, value: Scalar)
    requires
        shape.unique(),
    ensures
        shape.with_ratio(node, value).unique(),
    decreases shape,
{
    if let Shape::Split { a, b, .. } = shape {
        lemma_with_ratio_unique(*a, node, value);
        lemma_with_ratio_unique(*b, node, value);
        lemma_with_ratio_slots(*a, node, value);
        lemma_with_ratio_slots(*b, node, value);
        let (na, nb) = (a.with_ratio(node, value), b.with_ratio(node, value));
        assert forall|p: PaneId| !(#[trigger] na.has(p) && nb.has(p)) by {
            assert(na.has(p) == a.has(p));
            assert(nb.has(p) == b.has(p));
        }
    }
}

/// Closing a pane keeps a session sound. The pane is then in no tab.
pub proof fn lemma_close_sound(session: Session, pane: PaneId)
    requires
        session.sound(),
    ensures
        session.close_pane(pane).sound(),
        session.close_pane(pane).panes == session.panes.remove(pane),
        forall|i: int| !#[trigger] session.close_pane(pane).shows(i, pane),
{
    let new = session.close_pane(pane);
    if session.panes.dom().contains(pane) {
        lemma_home(session, pane, 0);
        match home_from(session.tabs, pane, 0) {
            Some(ti) => {
                if session.tabs[ti].layout.shape is Split {
                    lemma_close_in_tab(session, pane, ti);
                } else {
                    lemma_close_tab(session, pane, ti);
                }
            },
            None => {
                assert forall|i: int, p: PaneId| #[trigger]
                    new.shows(i, p) == session.shows(i, p) by {}
                assert forall|i: int, p: PaneId| #[trigger]
                    new.shows(i, p) implies new.panes.dom().contains(p) by {
                    assert(session.shows(i, p));
                }
            },
        }
    } else {
        assert(session.panes.remove(pane) =~= session.panes);
        assert forall|i: int| !#[trigger] new.shows(i, pane) by {}
    }
}

/// Closing a pane keeps a session consistent. The pane is then in no tab and no
/// longer alive, and every other pane is as alive as it was.
pub proof fn law_close_pane(session: Session, pane: PaneId)
    requires
        session.consistent(),
    ensures
        session.close_pane(pane).consistent(),
        session.close_pane(pane).panes == session.panes.remove(pane),
        forall|i: int| !#[trigger] session.close_pane(pane).shows(i, pane),
{
    let new = session.close_pane(pane);
    lemma_close_sound(session, pane);
    if session.panes.dom().contains(pane) {
        lemma_home(session, pane, 0);
        let home = choose|i: int| session.shows(i, pane);
        assert(session.shows(home, pane));
        let ti = home_from(session.tabs, pane, 0).unwrap();
        let tab = session.tabs[ti];
        if tab.layout.shape is Split {
            lemma_close_in_tab(session, pane, ti);
            assert forall|i: int| 0 <= i < new.tabs.len() implies new.shows(
                i,
                (#[trigger] new.tabs[i]).focused,
            ) by {
                assert(session.shows(i, session.tabs[i].focused));
                if i == ti {
                    let rest = tab.layout.shape.without(pane);
                    lemma_around(tab.layout.shape, pane);
                    law_listed(rest, rest.first_pane());
                    law_focus_after_close(tab.layout, pane);
                }
            }
            assert forall|p: PaneId| #[trigger] new.panes.dom().contains(p) implies exists|i: int|
                new.shows(i, p) by {
                assert(session.panes.dom().contains(p));
                let i = choose|i: int| session.shows(i, p);
                assert(new.shows(i, p));
            }
        } else {
            lemma_close_tab(session, pane, ti);
            assert forall|i: int| 0 <= i < new.tabs.len() implies new.shows(
                i,
                (#[trigger] new.tabs[i]).focused,
            ) by {
                let j = if i < ti {
                    i
                } else {
                    i + 1
                };
                assert(new.tabs[i] == session.tabs[j]);
                assert(session.shows(j, session.tabs[j].focused));
            }
            assert forall|p: PaneId| #[trigger] new.panes.dom().contains(p) implies exists|i: int|
                new.shows(i, p) by {
                assert(session.panes.dom().contains(p));
                let i = choose|i: int| session.shows(i, p);
                assert(session.shows(i, p));
                assert(tab.layout.shape.has(p) <==> p == pane);
                let j = if i < ti {
                    i
                } else {
                    i - 1
                };
                assert(new.shows(j, p));
            }
        }
    }
}

proof fn lemma_close_in_tab(session: Session, pane: PaneId, ti: int)
    requires
        session.sound(),
        session.panes.dom().contains(pane),
        home_from(session.tabs, pane, 0) == Some(ti),
        session.shows(ti, pane),
        session.tabs[ti].layout.shape is Split,
    ensures
        session.close_pane(pane).sound(),
        forall|i: int, p: PaneId|
            #[trigger] session.close_pane(pane).shows(i, p) <==> session.shows(i, p) && p != pane,
{
    let new = session.close_pane(pane);
    let tab = session.tabs[ti];
    let shape = tab.layout.shape;
    let rest = shape.without(pane);
    lemma_around(shape, pane);
    lemma_without_unique(shape, pane);
    assert(new.tabs[ti].layout.shape == rest);
    assert forall|i: int, p: PaneId| #[trigger] new.shows(i, p) <==> session.shows(i, p) && p
        != pane by {
        if i == ti {
            assert(rest.has(p) <==> shape.has(p) && p != pane);
        } else if session.shows(i, p) && p == pane {
            assert(session.shows(ti, p));
        }
    }
    assert forall|i: int| 0 <= i < new.tabs.len() implies (
    #[trigger] new.tabs[i]).layout.shape.unique() by {
        assert(session.tabs[i].layout.shape.unique());
    }
    assert forall|i: int, p: PaneId| #[trigger] new.shows(i, p) implies new.panes.dom().contains(
        p,
    ) by {
        assert(session.shows(i, p));
    }
    assert forall|i: int, j: int, p: PaneId|
        #[trigger] new.shows(i, p) && #[trigger] new.shows(j, p) implies i == j by {
        assert(session.shows(i, p));
        assert(session.shows(j, p));
    }
}

proof fn lemma_close_tab(session: Session, pane: PaneId, ti: int)
    requires
        session.sound(),
        session.panes.dom().contains(pane),
        home_from(session.tabs, pane, 0) == Some(ti),
        session.shows(ti, pane),
        session.tabs[ti].layout.shape is Leaf,
    ensures
        session.close_pane(pane).sound(),
        session.close_pane(pane).tabs.len() == session.tabs.len() - 1,
        forall|i: int, p: PaneId|
            #[trigger] session.close_pane(pane).shows(i, p) <==> 0 <= i && session.shows(
                if i < ti {
                    i
                } else {
                    i + 1
                },
                p,
            ),
        forall|i: int| !#[trigger] session.close_pane(pane).shows(i, pane),
{
    let new = session.close_pane(pane);
    let before = |i: int|
        if i < ti {
            i
        } else {
            i + 1
        };
    assert forall|i: int| 0 <= i < new.tabs.len() implies #[trigger] new.tabs[i]
        == session.tabs[before(i)] by {}
    assert forall|i: int, p: PaneId| #[trigger] new.shows(i, p) <==> 0 <= i && session.shows(
        before(i),
        p,
    ) by {}
    assert forall|i: int| !#[trigger] new.shows(i, pane) by {
        if new.shows(i, pane) {
            assert(session.shows(before(i), pane));
        }
    }
    assert forall|i: int| 0 <= i < new.tabs.len() implies (
    #[trigger] new.tabs[i]).layout.shape.unique() by {
        assert(session.tabs[before(i)].layout.shape.unique());
    }
    assert forall|i: int, p: PaneId| #[trigger] new.shows(i, p) implies new.panes.dom().contains(
        p,
    ) by {
        assert(session.shows(before(i), p));
        assert(p != pane);
    }
    assert forall|i: int, j: int, p: PaneId|
        #[trigger] new.shows(i, p) && #[trigger] new.shows(j, p) implies i == j by {
        assert(session.shows(before(i), p));
        assert(session.shows(before(j), p));
    }
}

/// A pane can be closed only once: closing it again changes nothing.
pub proof fn law_close_once(session: Session, pane: PaneId)
    ensures
        session.close_pane(pane).close_pane(pane) == session.close_pane(pane),
        session.close_pane(pane).closing(pane) is Unknown,
{
}

/// Closing a pane beside which its tab shows others leaves as many tabs as there
/// were. Closing the only pane of a tab leaves one tab less, and when that was
/// the last tab, and only then, the whole window is to be closed.
pub proof fn law_last_pane_quits(session: Session, pane: PaneId, i: int)
    requires
        session.consistent(),
        session.shows(i, pane),
    ensures
        session.close_pane(pane).tabs.len() == if session.tabs[i].layout.shape.panes().len() > 1 {
            session.tabs.len() as int
        } else {
            session.tabs.len() - 1
        },
        session.closing(pane) == if session.close_pane(pane).tabs.len() == 0 {
            Closing::Last
        } else {
            Closing::Gone
        },
        session.close_pane(pane).tabs.len() == 0 <==> session.panes.dom() == set![pane],
{
    let new = session.close_pane(pane);
    lemma_home(session, pane, 0);
    let ti = home_from(session.tabs, pane, 0).unwrap();
    assert(session.shows(ti, pane));
    law_listed(session.tabs[ti].layout.shape, pane);
    law_close_pane(session, pane);
    lemma_none_alive(new);
    if session.panes.dom() == set![pane] {
        assert(new.panes.dom() =~= Set::empty());
    }
    if new.panes.dom() == Set::<PaneId>::empty() {
        assert forall|p: PaneId| #[trigger] session.panes.dom().contains(p) <==> p == pane by {
            assert(new.panes.dom().contains(p) <==> session.panes.dom().contains(p) && p != pane);
        }
        assert(session.panes.dom() =~= set![pane]);
    }
}

/// There is a tab to show exactly if some pane is alive.
proof fn lemma_none_alive(session: Session)
    requires
        session.consistent(),
    ensures
        session.tabs.len() == 0 <==> session.panes.dom() == Set::<PaneId>::empty(),
{
    if session.tabs.len() == 0 {
        assert forall|p: PaneId| !#[trigger] session.panes.dom().contains(p) by {
            if session.panes.dom().contains(p) {
                let i = choose|i: int| session.shows(i, p);
                assert(session.shows(i, p));
            }
        }
        assert(session.panes.dom() =~= Set::empty());
    } else {
        assert(session.shows(0, session.tabs[0].focused));
    }
}

/// Closing a pane of another tab leaves the tab that is shown, and all that is in
/// it, as it was.
pub proof fn law_close_elsewhere(session: Session, pane: PaneId)
    requires
        session.consistent(),
        session.open(),
        !session.shows(session.active, pane),
    ensures
        session.close_pane(pane).open(),
        session.close_pane(pane).tab() == session.tab(),
{
    lemma_home(session, pane, 0);
}

/// Closing a pane of a tab moves the focus of that tab only if it was on the
/// pane; then it goes to the first pane of what stood beside it in its split.
pub proof fn law_close_moves_focus(session: Session, pane: PaneId, i: int)
    requires
        session.consistent(),
        session.shows(i, pane),
        session.tabs[i].layout.shape.panes().len() > 1,
    ensures
        session.close_pane(pane).tabs[i].focused == if session.tabs[i].focused == pane {
            session.tabs[i].layout.focus_after_close(pane).unwrap()
        } else {
            session.tabs[i].focused
        },
        session.close_pane(pane).active == session.active,
{
    lemma_home(session, pane, 0);
    let ti = home_from(session.tabs, pane, 0).unwrap();
    assert(session.shows(ti, pane));
    let tab = session.tabs[i];
    law_listed(tab.layout.shape, pane);
    law_focus_after_close(tab.layout, pane);
    lemma_around(tab.layout.shape, pane);
    lemma_without_unique(tab.layout.shape, pane);
    let next = tab.layout.focus_after_close(pane).unwrap();
    assert(tab.layout.close(pane).shape.has(next));
    assert(session.shows(i, next));
}

/// Closing panes one after the other keeps a session sound, and consistent if it
/// was. It leaves alive just the panes that are not among them, and no tab holds one
/// that is; the window is to be closed exactly if no tab is left.
pub proof fn law_close_all(session: Session, panes: Seq<PaneId>)
    requires
        session.sound(),
    ensures
        session.close_all(panes).sound(),
        session.consistent() ==> session.close_all(panes).consistent(),
        forall|p: PaneId| #[trigger]
            session.close_all(panes).panes.dom().contains(p) <==> session.panes.dom().contains(p)
                && !panes.contains(p),
        forall|i: int, p: PaneId| #[trigger]
            session.close_all(panes).shows(i, p) ==> !panes.contains(p),
        session.tabs.len() > 0 ==> (session.runs_out(panes) <==> session.close_all(
            panes,
        ).tabs.len() == 0),
        session.tabs.len() == 0 ==> session.close_all(panes).tabs.len() == 0 && !session.runs_out(
            panes,
        ),
    decreases panes.len(),
{
    if panes.len() > 0 {
        let rest = panes.drop_last();
        let pane = panes.last();
        let before = session.close_all(rest);
        law_close_all(session, rest);
        lemma_close_sound(before, pane);
        lemma_home(before, pane, 0);
        if session.consistent() {
            law_close_pane(before, pane);
        }
        assert forall|p: PaneId| panes.contains(p) <==> rest.contains(p) || p == pane by {
            if panes.contains(p) {
                let k = panes.index_of(p);
                if k < rest.len() {
                    assert(rest[k] == p);
                }
            }
            if rest.contains(p) {
                assert(panes[rest.index_of(p)] == p);
            }
            assert(panes[panes.len() - 1] == pane);
        }
    }
    let after = session.close_all(panes);
    assert forall|i: int, p: PaneId| #[trigger] after.shows(i, p) implies !panes.contains(p) by {
        assert(after.panes.dom().contains(p));
    }
}

/// Whatever terminals report, a session stays sound, and consistent if it was. No
/// pane whose terminal has ended is alive afterwards, or in any tab, and every other
/// pane is as alive as it was.
pub proof fn law_drain(session: Session, events: Seq<(PaneId, PtyEvent)>)
    requires
        session.sound(),
    ensures
        ({
            let after = session.note_all(events).close_all(exits(events));
            &&& after.sound()
            &&& session.consistent() ==> after.consistent()
            &&& forall|p: PaneId| #[trigger]
                after.panes.dom().contains(p) <==> session.panes.dom().contains(p) && !exits(
                    events,
                ).contains(p)
            &&& forall|i: int, p: PaneId| #[trigger]
                after.shows(i, p) ==> !exits(events).contains(p)
        }),
{
    lemma_note_all(session, events);
    law_close_all(session.note_all(events), exits(events));
}

/// Reports by themselves change nothing but titles.
pub proof fn law_reports_change_titles_only(session: Session, events: Seq<(PaneId, PtyEvent)>)
    ensures
        session.note_all(events) == (Session {
            panes: session.note_all(events).panes,
            ..session
        }),
        session.note_all(events).panes.dom() == session.panes.dom(),
    decreases events.len(),
{
    if events.len() > 0 {
        let before = session.note_all(events.drop_last());
        law_reports_change_titles_only(session, events.drop_last());
        assert(session.note_all(events).panes.dom() =~= before.panes.dom());
    }
}

proof fn lemma_note_all(session: Session, events: Seq<(PaneId, PtyEvent)>)
    requires
        session.sound(),
    ensures
        session.note_all(events).sound(),
        session.consistent() ==> session.note_all(events).consistent(),
        session.note_all(events).panes.dom() == session.panes.dom(),
{
    let noted = session.note_all(events);
    law_reports_change_titles_only(session, events);
    assert forall|i: int, p: PaneId| #[trigger] noted.shows(i, p) == session.shows(i, p) by {}
    lemma_alike_sound(session, noted);
    if session.consistent() {
        assert forall|i: int| 0 <= i < noted.tabs.len() implies noted.shows(
            i,
            (#[trigger] noted.tabs[i]).focused,
        ) by {
            assert(session.shows(i, session.tabs[i].focused));
        }
        lemma_alike(session, noted);
    }
}

/// Moving the focus by direction keeps a session consistent, and changes nothing
/// but which pane of the shown tab has the focus.
pub proof fn law_move_keeps_consistent<
    M: Fn(Span, Span, Scalar) -> Marks,
    G: Fn(Rect, Rect) -> Gauge,
>(session: Session, after: Session, dir: Dir, mark: M, gauge: G)
    requires
        session.consistent(),
        session.open(),
        moved(session, after, dir, mark, gauge),
    ensures
        after.consistent(),
        after == session.focus(after.tab().focused),
        session.shows(session.active, after.tab().focused),
{
    let tab = session.tab();
    let (cuts, gauges, found) = lemma_moved(session, after, dir, mark, gauge);
    assert(session.shows(session.active, session.tabs[session.active].focused));
    match found {
        None => {
            assert(session.focus(tab.focused).tabs =~= session.tabs);
        },
        Some(pane) => {
            let leaves = cuts.panes(tab.layout.shape, tab.last_area);
            let dividers = cuts.dividers(tab.layout.shape, tab.last_area);
            assert(tiled(mark, tab.layout.shape, tab.last_area, leaves, dividers));
            law_one_rect_per_pane(mark, tab.layout.shape, tab.last_area, leaves, dividers);
            law_neighbor_is_elsewhere(leaves, gauges, tab.focused, dir, pane);
            let i = choose|i: int| 0 <= i < leaves.len() && (#[trigger] leaves[i]).0 == pane;
            assert(leaves.map_values(|leaf: (PaneId, Rect)| leaf.0)[i] == pane);
            law_listed(tab.layout.shape, pane);
            law_small_steps_keep_consistent(
                session,
                0,
                pane,
                tab.last_area,
                0,
                Scalar { bits: HALF },
                Seq::empty(),
            );
        },
    }
}

/// The panes that are reported as shut are just those that were alive and are not
/// any more, each reported once.
pub proof fn law_shut(session: Session, panes: Seq<PaneId>)
    requires
        session.sound(),
    ensures
        session.shut(panes).no_duplicates(),
        forall|p: PaneId| #[trigger]
            session.shut(panes).contains(p) <==> session.panes.dom().contains(p)
                && !session.close_all(panes).panes.dom().contains(p),
    decreases panes.len(),
{
    if panes.len() > 0 {
        let rest = panes.drop_last();
        let pane = panes.last();
        let before = session.close_all(rest);
        let done = session.shut(rest);
        law_shut(session, rest);
        law_close_all(session, rest);
        lemma_close_sound(before, pane);
        assert forall|p: PaneId| #[trigger] session.shut(panes).contains(p)
            <==> session.panes.dom().contains(p) && !session.close_all(panes).panes.dom().contains(
            p,
        ) by {
            assert(before.panes.dom().contains(p) ==> session.panes.dom().contains(p));
            assert(done.contains(p) <==> session.panes.dom().contains(p)
                && !before.panes.dom().contains(p));
            if before.panes.dom().contains(pane) {
                let all = done.push(pane);
                assert(all[done.len() as int] == pane);
                if done.contains(p) {
                    assert(all[done.index_of(p)] == p);
                }
                if all.contains(p) && p != pane {
                    assert(done[all.index_of(p)] == p);
                }
            }
        }
        if before.panes.dom().contains(pane) {
            assert(!done.contains(pane));
        }
    }
}

/// Text is written to live terminals only.
pub proof fn law_writes_go_to_the_living(
    session: Session,
    events: Seq<(PaneId, PtyEvent)>,
    k: int,
)
    requires
        0 <= k < session.writes(events).len(),
    ensures
        session.panes.dom().contains(session.writes(events)[k].0),
    decreases events.len(),
{
    if events.len() > 0 && k < session.writes(events.drop_last()).len() {
        law_writes_go_to_the_living(session, events.drop_last(), k);
    }
}

/// The focus moves by the rects that were drawn: those that laying out the tab
/// gave are those that the next pane is looked for among.
pub proof fn law_move_goes_by_what_was_drawn<
    M: Fn(Span, Span, Scalar) -> Marks,
    G: Fn(Rect, Rect) -> Gauge,
>(
    session: Session,
    area: Rect,
    leaves: Seq<(PaneId, Rect)>,
    dividers: Seq<Divider>,
    after: Session,
    dir: Dir,
    mark: M,
    gauge: G,
)
    requires
        session.open(),
        tiled(mark, session.tab().layout.shape, area, leaves, dividers),
        moved(session.shown_in(area), after, dir, mark, gauge),
        steady(mark),
    ensures
        exists|gauges: Seq<Gauge>, found: Option<PaneId>|
            {
                &&& #[trigger] leads_to(leaves, gauges, session.tab().focused, dir, found)
                &&& gauged(gauge, leaves, session.tab().focused, gauges)
                &&& after == match found {
                    Some(pane) => session.shown_in(area).focus(pane),
                    None => session.shown_in(area),
                }
            },
{
    let shown = session.shown_in(area);
    let shape = session.tab().layout.shape;
    let (cuts, gauges, found) = lemma_moved(shown, after, dir, mark, gauge);
    assert(tiled(mark, shape, area, cuts.panes(shape, area), cuts.dividers(shape, area)));
    law_geometry_is_settled(
        mark,
        shape,
        area,
        leaves,
        dividers,
        cuts.panes(shape, area),
        cuts.dividers(shape, area),
    );
    assert(leads_to(leaves, gauges, session.tab().focused, dir, found));
}

} // verus!
