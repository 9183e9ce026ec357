//! What the reports of terminals do, told by the reports themselves.

use crate::app::PtyEvent;
use crate::laws::session::law_drain;
use crate::layout::PaneId;
use crate::session::{exits, Session};
use vstd::prelude::*;

verus! {

/// Whether report `k` says that the terminal of `pane` has ended.
pub open spec fn ended(events: Seq<(PaneId, PtyEvent)>, pane: PaneId, k: int) -> bool {
    &&& 0 <= k < events.len()
    &&& events[k].0 == pane
    &&& events[k].1 is Exit || events[k].1 is ChildExit
}

/// Whether report `k` is about the title of `pane`.
pub open spec fn titled(events: Seq<(PaneId, PtyEvent)>, pane: PaneId, k: int) -> bool {
    &&& 0 <= k < events.len()
    &&& events[k].0 == pane
    &&& events[k].1 is Title || events[k].1 is ResetTitle
}

/// The panes to close are just those whose terminals some report says have ended.
pub proof fn law_exits(events: Seq<(PaneId, PtyEvent)>, pane: PaneId)
    ensures
        exits(events).contains(pane) <==> exists|k: int| #[trigger] ended(events, pane, k),
    decreases events.len(),
{
    if events.len() > 0 {
        let rest = events.drop_last();
        let (n, before) = (events.len() - 1, exits(rest));
        law_exits(rest, pane);
        if exits(events).contains(pane) {
            let m = exits(events).index_of(pane);
            if m < before.len() {
                assert(before[m] == pane);
                let k = choose|k: int| #[trigger] ended(rest, pane, k);
                assert(ended(events, pane, k));
            } else {
                assert(ended(events, pane, n));
            }
        }
        if exists|k: int| #[trigger] ended(events, pane, k) {
            let k = choose|k: int| #[trigger] ended(events, pane, k);
            if k < n {
                assert(ended(rest, pane, k));
                let m = before.index_of(pane);
                assert(exits(events)[m] == pane);
            } else {
                assert(exits(events)[before.len() as int] == pane);
            }
        }
    }
}

/// After the reports have been taken in, no pane whose terminal one of them says has
/// ended is alive or in a tab; every other pane that was alive still is, and no pane
/// has come to life.
pub proof fn law_ended_panes_are_gone(session: Session, events: Seq<(PaneId, PtyEvent)>)
    requires
        session.sound(),
    ensures
        ({
            let after = session.note_all(events).close_all(exits(events));
            &&& forall|k: int|
                0 <= k < events.len() && ((#[trigger] events[k]).1 is Exit
                    || events[k].1 is ChildExit) ==> !after.panes.dom().contains(events[k].0)
                    && forall|i: int| !#[trigger] after.shows(i, events[k].0)
            &&& forall|p: PaneId| #[trigger]
                session.panes.dom().contains(p) && !after.panes.dom().contains(p)
                    ==> exists|k: int| #[trigger] ended(events, p, k)
            &&& forall|p: PaneId| #[trigger]
                after.panes.dom().contains(p) ==> session.panes.dom().contains(p)
        }),
{
    let after = session.note_all(events).close_all(exits(events));
    law_drain(session, events);
    assert forall|k: int|
        0 <= k < events.len() && ((#[trigger] events[k]).1 is Exit
            || events[k].1 is ChildExit) implies !after.panes.dom().contains(events[k].0)
        && forall|i: int| !#[trigger] after.shows(i, events[k].0) by {
        let p = events[k].0;
        assert(ended(events, p, k));
        law_exits(events, p);
        assert forall|i: int| !#[trigger] after.shows(i, p) by {}
    }
    assert forall|p: PaneId| #[trigger]
        session.panes.dom().contains(p) && !after.panes.dom().contains(p) implies exists|k: int|
        #[trigger] ended(events, p, k) by {
        law_exits(events, p);
    }
}

/// Panes are to be closed in the order in which their terminals are reported to have
/// ended, once for each report.
pub proof fn law_exits_in_order(a: Seq<(PaneId, PtyEvent)>, b: Seq<(PaneId, PtyEvent)>)
    ensures
        exits(a + b) == exits(a) + exits(b),
        a.len() == 1 ==> exits(a) == (if a[0].1 is Exit || a[0].1 is ChildExit {
            seq![a[0].0]
        } else {
            Seq::empty()
        }),
    decreases b.len(),
{
    if b.len() == 0 {
        assert(a + b =~= a);
        assert(exits(a) + exits(b) =~= exits(a));
    } else {
        law_exits_in_order(a, b.drop_last());
        assert((a + b).drop_last() =~= a + b.drop_last());
        assert(exits(a + b) =~= exits(a) + exits(b));
    }
    if a.len() == 1 {
        assert(exits(a.drop_last()) =~= Seq::empty());
        assert(exits(a) =~= if a[0].1 is Exit || a[0].1 is ChildExit {
            seq![a[0].0]
        } else {
            Seq::empty()
        });
    }
}

/// Panes are closed one after the other, each in the session that closing the ones
/// before it has left; those are shut that are alive when their turn comes.
pub proof fn law_close_in_turn(session: Session, a: Seq<PaneId>, b: Seq<PaneId>)
    ensures
        session.close_all(a + b) == session.close_all(a).close_all(b),
        session.shut(a + b) == session.shut(a) + session.close_all(a).shut(b),
        session.runs_out(a + b) == (session.runs_out(a) || session.close_all(a).runs_out(b)),
        a.len() == 0 ==> session.close_all(a) == session && session.shut(a).len() == 0
            && !session.runs_out(a),
        a.len() == 1 ==> {
            &&& session.close_all(a) == session.close_pane(a[0])
            &&& session.shut(a) == if session.panes.dom().contains(a[0]) {
                seq![a[0]]
            } else {
                Seq::empty()
            }
            &&& session.runs_out(a) == (session.closing(a[0]) is Last)
        },
    decreases b.len(),
{
    if b.len() == 0 {
        assert(a + b =~= a);
        assert(session.shut(a) + session.close_all(a).shut(b) =~= session.shut(a));
    } else {
        law_close_in_turn(session, a, b.drop_last());
        assert((a + b).drop_last() =~= a + b.drop_last());
        assert(session.shut(a + b) =~= session.shut(a) + session.close_all(a).shut(b));
    }
    if a.len() == 1 {
        assert(a.drop_last() =~= Seq::empty());
        assert(session.close_all(a.drop_last()) == session);
        assert(!session.runs_out(a.drop_last()));
        assert(session.shut(a.drop_last()) =~= Seq::empty());
        assert(session.shut(a) =~= if session.panes.dom().contains(a[0]) {
            seq![a[0]]
        } else {
            Seq::empty()
        });
    }
}

/// A live pane has the title that was last reported for it, where a reset stands for
/// the default title; or the one it had, if none was reported. Reports change nothing
/// else.
pub proof fn law_titles(session: Session, events: Seq<(PaneId, PtyEvent)>, pane: PaneId)
    ensures
        ({
            let after = session.note_all(events);
            &&& after.panes.dom() == session.panes.dom()
            &&& after.tabs == session.tabs
            &&& after.active == session.active
            &&& after.next_id == session.next_id
            &&& after.cfg == session.cfg
            &&& after.default_title == session.default_title
            &&& session.panes.dom().contains(pane) ==> {
                &&& forall|k: int|
                    #[trigger] titled(events, pane, k) && (forall|m: int|
                        k < m ==> !#[trigger] titled(events, pane, m)) ==> after.panes[pane]
                        == match events[k].1 {
                        PtyEvent::Title(title) => title@,
                        _ => session.default_title,
                    }
                &&& (forall|m: int| !#[trigger] titled(events, pane, m)) ==> after.panes[pane]
                    == session.panes[pane]
            }
        }),
    decreases events.len(),
{
    let after = session.note_all(events);
    if events.len() > 0 {
        let rest = events.drop_last();
        let (mid, n) = (session.note_all(rest), events.len() - 1);
        law_titles(session, rest, pane);
        assert(after.panes.dom() =~= mid.panes.dom());
        assert forall|k: int| k < n implies #[trigger] titled(events, pane, k) == titled(
            rest,
            pane,
            k,
        ) by {}
        if session.panes.dom().contains(pane) {
            assert forall|k: int|
                #[trigger] titled(events, pane, k) && (forall|m: int|
                    k < m ==> !#[trigger] titled(events, pane, m)) implies after.panes[pane]
                == match events[k].1 {
                PtyEvent::Title(title) => title@,
                _ => session.default_title,
            } by {
                if k < n {
                    assert(!titled(events, pane, n));
                    assert(titled(rest, pane, k));
                    assert forall|m: int| k < m implies !#[trigger] titled(rest, pane, m) by {
                        assert(!titled(events, pane, m));
                    }
                }
            }
            if forall|m: int| !#[trigger] titled(events, pane, m) {
                assert(!titled(events, pane, n));
                assert forall|m: int| !#[trigger] titled(rest, pane, m) by {
                    assert(!titled(events, pane, m));
                }
            }
        }
    }
}

/// What is to be written is the text of each such report about a pane that is alive,
/// to that pane, in the order of the reports.
pub proof fn law_writes_in_order(
    session: Session,
    a: Seq<(PaneId, PtyEvent)>,
    b: Seq<(PaneId, PtyEvent)>,
)
    ensures
        session.writes(a + b) == session.writes(a) + session.writes(b),
        a.len() == 1 ==> session.writes(a) == (match a[0].1 {
            PtyEvent::PtyWrite(text) => if session.panes.dom().contains(a[0].0) {
                seq![(a[0].0, text@)]
            } else {
                Seq::empty()
            },
            _ => Seq::empty(),
        }),
    decreases b.len(),
{
    if b.len() == 0 {
        assert(a + b =~= a);
        assert(session.writes(a) + session.writes(b) =~= session.writes(a));
    } else {
        law_writes_in_order(session, a, b.drop_last());
        assert((a + b).drop_last() =~= a + b.drop_last());
        assert(session.writes(a + b) =~= session.writes(a) + session.writes(b));
    }
    if a.len() == 1 {
        assert(session.writes(a.drop_last()) =~= Seq::empty());
        assert(session.writes(a) =~= match a[0].1 {
            PtyEvent::PtyWrite(text) => if session.panes.dom().contains(a[0].0) {
                seq![(a[0].0, text@)]
            } else {
                Seq::empty()
            },
            _ => Seq::empty(),
        });
    }
}

} // verus!
