//! The mathematical model of a running multiplexer: its tabs, the one that is
//! shown, and the panes that are alive.

use crate::app::{Closing, Config, PtyEvent};
use crate::geometry::Rect;
use crate::layout::{Axis, PaneId, MAX_RATIO, MIN_RATIO};
use crate::scalar::Scalar;
use crate::shape::Layout;
use vstd::prelude::*;

verus! {

/// One tab: its layout, its focused pane, and the area it was last shown in.
#[verifier::ext_equal]
pub struct TabState {
    pub layout: Layout,
    pub focused: PaneId,
    pub last_area: Rect,
}

/// The whole state.
#[verifier::ext_equal]
pub struct Session {
    pub tabs: Seq<TabState>,
    /// Index of the tab that is shown.
    pub active: int,
    /// The titles of all panes across all tabs.
    pub panes: Map<PaneId, Seq<char>>,
    /// The id of the next pane.
    pub next_id: int,
    pub cfg: Config,
    pub default_title: Seq<char>,
}

/// The rect of no extent at the origin.
pub open spec fn zero_rect() -> Rect {
    let zero = Scalar { bits: 0 };
    Rect { min_x: zero, min_y: zero, max_x: zero, max_y: zero }
}

impl TabState {
    /// A tab of a single pane, which has not been shown yet.
    pub open spec fn single(pane: PaneId) -> TabState {
        TabState { layout: Layout::single(pane), focused: pane, last_area: zero_rect() }
    }

    /// The tab with its focused pane split along `axis`, the new pane after it
    /// and focused.
    pub open spec fn split(self, axis: Axis, id: PaneId) -> TabState {
        TabState {
            layout: self.layout.split(self.focused, id, axis, true),
            focused: id,
            ..self
        }
    }

    /// The tab without `pane`, which is not its only one. If `pane` had the
    /// focus, the first pane beside it takes over, provided that it is `alive`;
    /// else the first pane of the tab.
    pub open spec fn close(self, pane: PaneId, alive: Set<PaneId>) -> TabState {
        let layout = self.layout.close(pane);
        let focused = if self.focused != pane {
            self.focused
        } else {
            match self.layout.focus_after_close(pane) {
                Some(next) if alive.contains(next) => next,
                _ => layout.shape.first_pane(),
            }
        };
        TabState { layout, focused, ..self }
    }
}

/// The first tab, from tab `from` on, that holds `pane`.
pub open spec fn home_from(tabs: Seq<TabState>, pane: PaneId, from: int) -> Option<int>
    decreases tabs.len() - from,
{
    if from >= tabs.len() {
        None
    } else if tabs[from].layout.shape.has(pane) {
        Some(from)
    } else {
        home_from(tabs, pane, from + 1)
    }
}

impl Session {
    /// Whether a tab is shown.
    pub open spec fn open(self) -> bool {
        0 <= self.active < self.tabs.len()
    }

    /// The tab that is shown.
    pub open spec fn tab(self) -> TabState {
        self.tabs[self.active]
    }

    /// The session with the tab that is shown replaced.
    pub open spec fn with_tab(self, tab: TabState) -> Session {
        Session { tabs: self.tabs.update(self.active, tab), ..self }
    }

    /// Whether tab `i` holds `pane`.
    pub open spec fn shows(self, i: int, pane: PaneId) -> bool {
        0 <= i < self.tabs.len() && self.tabs[i].layout.shape.has(pane)
    }

    /// Whether `id` has been drawn and no live pane has it.
    pub open spec fn fresh(self, id: PaneId) -> bool {
        id < self.next_id && !self.panes.dom().contains(id)
    }

    /// What holds at all times: no tab holds a pane twice and no two tabs hold the
    /// same one, every pane that a tab holds is alive, every live pane has an id
    /// that has been drawn, and one of the tabs is shown if there is any.
    pub open spec fn sound(self) -> bool {
        &&& forall|i: int|
            0 <= i < self.tabs.len() ==> (#[trigger] self.tabs[i]).layout.shape.unique()
        &&& forall|i: int, j: int, p: PaneId|
            #[trigger] self.shows(i, p) && #[trigger] self.shows(j, p) ==> i == j
        &&& forall|i: int, p: PaneId| #[trigger] self.shows(i, p) ==> self.panes.dom().contains(p)
        &&& forall|p: PaneId| #[trigger] self.panes.dom().contains(p) ==> p < self.next_id
        &&& self.tabs.len() > 0 ==> self.open()
    }

    /// The session before its first pane.
    pub open spec fn start(cfg: Config) -> Session {
        Session {
            tabs: Seq::empty(),
            active: 0,
            panes: Map::empty(),
            next_id: 0,
            cfg,
            default_title: crate::text::basename(cfg.shell@),
        }
    }

    /// The session once an id has been drawn for a new pane.
    pub open spec fn drew_id(self) -> Session {
        Session { next_id: self.next_id + 1, ..self }
    }

    /// The session once pane `id` is alive.
    pub open spec fn registered(self, id: PaneId) -> Session {
        Session { panes: self.panes.insert(id, self.default_title), ..self }
    }

    /// The session with a new tab for pane `id`, which is shown.
    pub open spec fn new_tab(self, id: PaneId) -> Session {
        Session {
            tabs: self.tabs.push(TabState::single(id)),
            active: self.tabs.len() as int,
            ..self.registered(id)
        }
    }

    /// The session with the focused pane of the shown tab split along `axis`.
    pub open spec fn split(self, axis: Axis, id: PaneId) -> Session {
        self.registered(id).with_tab(self.tab().split(axis, id))
    }

    /// The session without tab `ti`. The tab that was shown still is; where it
    /// was tab `ti`, the one behind it is, or the last one.
    pub open spec fn without_tab(self, ti: int) -> Session {
        let tabs = self.tabs.remove(ti);
        Session {
            tabs,
            active: if tabs.len() == 0 {
                self.active
            } else if self.active >= tabs.len() {
                tabs.len() - 1
            } else if self.active > ti {
                self.active - 1
            } else {
                self.active
            },
            ..self
        }
    }

    /// The session without pane `pane`. A tab goes with its last pane.
    pub open spec fn close_pane(self, pane: PaneId) -> Session {
        if !self.panes.dom().contains(pane) {
            self
        } else {
            let rest = Session { panes: self.panes.remove(pane), ..self };
            match home_from(self.tabs, pane, 0) {
                None => rest,
                Some(ti) => if self.tabs[ti].layout.shape is Split {
                    Session {
                        tabs: self.tabs.update(ti, self.tabs[ti].close(pane, rest.panes.dom())),
                        ..rest
                    }
                } else {
                    rest.without_tab(ti)
                },
            }
        }
    }

    /// What closing `pane` amounts to.
    pub open spec fn closing(self, pane: PaneId) -> Closing {
        if !self.panes.dom().contains(pane) {
            Closing::Unknown
        } else if home_from(self.tabs, pane, 0) is Some && self.close_pane(pane).tabs.len() == 0 {
            Closing::Last
        } else {
            Closing::Gone
        }
    }

    /// The session without any of `panes`, closed one after the other.
    pub open spec fn close_all(self, panes: Seq<PaneId>) -> Session
        decreases panes.len(),
    {
        if panes.len() == 0 {
            self
        } else {
            self.close_all(panes.drop_last()).close_pane(panes.last())
        }
    }

    /// Whether closing `panes` one after the other closes the last one there is.
    pub open spec fn runs_out(self, panes: Seq<PaneId>) -> bool
        decreases panes.len(),
    {
        panes.len() > 0 && (self.runs_out(panes.drop_last()) || self.close_all(
            panes.drop_last(),
        ).closing(panes.last()) is Last)
    }

    /// Those of `panes` that are alive when their turn comes to be closed.
    pub open spec fn shut(self, panes: Seq<PaneId>) -> Seq<PaneId>
        decreases panes.len(),
    {
        if panes.len() == 0 {
            Seq::empty()
        } else {
            let before = self.shut(panes.drop_last());
            if self.close_all(panes.drop_last()).closing(panes.last()) is Unknown {
                before
            } else {
                before.push(panes.last())
            }
        }
    }

    /// The title of `pane`, or `fallback` if it is not alive.
    pub open spec fn title(self, pane: PaneId, fallback: Seq<char>) -> Seq<char> {
        if self.panes.dom().contains(pane) {
            self.panes[pane]
        } else {
            fallback
        }
    }

    /// The session with tab `i` shown, if there is one.
    pub open spec fn select_tab(self, i: int) -> Session {
        if i < self.tabs.len() {
            Session { active: i, ..self }
        } else {
            self
        }
    }

    /// The session with the focus of the shown tab on `pane`.
    pub open spec fn focus(self, pane: PaneId) -> Session {
        self.with_tab(TabState { focused: pane, ..self.tab() })
    }

    /// The session with the shown tab laid out in `area`.
    pub open spec fn shown_in(self, area: Rect) -> Session {
        self.with_tab(TabState { last_area: area, ..self.tab() })
    }

    /// The session with the ratio of a split of the shown tab set.
    pub open spec fn resize(self, node: int, ratio: Scalar) -> Session {
        self.with_tab(
            TabState {
                layout: self.tab().layout.with_ratio(
                    node,
                    ratio.clamped(Scalar { bits: MIN_RATIO }, Scalar { bits: MAX_RATIO }),
                ),
                ..self.tab()
            },
        )
    }

    /// The session with the ratios of splits of the shown tab set, in this order.
    pub open spec fn resize_all(self, updates: Seq<(usize, Scalar)>) -> Session
        decreases updates.len(),
    {
        if updates.len() == 0 {
            self
        } else {
            self.resize_all(updates.drop_last()).resize(
                updates.last().0 as int,
                updates.last().1,
            )
        }
    }

    /// The session after a pane has been clicked, if any was, and dividers have
    /// been dragged.
    pub open spec fn settle(
        self,
        clicked: Option<PaneId>,
        updates: Seq<(usize, Scalar)>,
    ) -> Session {
        match clicked {
            Some(pane) => self.focus(pane).resize_all(updates),
            None => self.resize_all(updates),
        }
    }

    /// The session with the title of pane `id` set, if it is alive.
    pub open spec fn retitle(self, id: PaneId, title: Seq<char>) -> Session {
        if self.panes.dom().contains(id) {
            Session { panes: self.panes.insert(id, title), ..self }
        } else {
            self
        }
    }

    /// The session after a terminal reported `event`.
    pub open spec fn note(self, id: PaneId, event: PtyEvent) -> Session {
        match event {
            PtyEvent::Title(title) => self.retitle(id, title@),
            PtyEvent::ResetTitle => self.retitle(id, self.default_title),
            _ => self,
        }
    }

    /// The session after terminals reported `events`, in this order.
    pub open spec fn note_all(self, events: Seq<(PaneId, PtyEvent)>) -> Session
        decreases events.len(),
    {
        if events.len() == 0 {
            self
        } else {
            self.note_all(events.drop_last()).note(events.last().0, events.last().1)
        }
    }

    /// What is to be written to which terminal on account of `events`.
    pub open spec fn writes(self, events: Seq<(PaneId, PtyEvent)>) -> Seq<(PaneId, Seq<char>)>
        decreases events.len(),
    {
        if events.len() == 0 {
            Seq::empty()
        } else {
            let before = self.writes(events.drop_last());
            match events.last().1 {
                PtyEvent::PtyWrite(text) if self.panes.dom().contains(events.last().0) =>
                    before.push((events.last().0, text@)),
                _ => before,
            }
        }
    }
}

/// The panes whose terminals have ended, going by `events`.
pub open spec fn exits(events: Seq<(PaneId, PtyEvent)>) -> Seq<PaneId>
    decreases events.len(),
{
    if events.len() == 0 {
        Seq::empty()
    } else {
        let before = exits(events.drop_last());
        match events.last().1 {
            PtyEvent::Exit => before.push(events.last().0),
            PtyEvent::ChildExit(_) => before.push(events.last().0),
            _ => before,
        }
    }
}

} // verus!
