//! The multiplexer: it owns the tabs (each a pane tree) and knows every pane's
//! title, and decides what keys, clicks, drags and terminal events do to them.
//!
//! Terminals are started, written to and drawn elsewhere. Where that is needed,
//! an operation here says so in its result.

use crate::geometry::{given_by, lemma_tiled, tiled, Cuts, Divider, Marks, Rect, Span};
use crate::keymap::Command;
use crate::laws::events::{ended, law_ended_panes_are_gone};
use crate::laws::session::{
    law_drain, lemma_alike_sound, lemma_close_sound, lemma_drew_id, lemma_new_tab,
    lemma_resize_shows, lemma_split,
};
use crate::layout::{Axis, Dir, PaneId, Tree};
use crate::navigation::{gauged, leads_to, neighbor, Gauge};
use crate::scalar::Scalar;
use crate::session::{exits, home_from, Session, TabState};
use crate::text::{label, shell_basename, tab_label};
use std::collections::HashMap;
use vstd::prelude::*;

verus! {

/// Launch configuration (what each pane runs).
pub struct Config {
    pub shell: String,
    pub args: Vec<String>,
}

/// What a terminal reports.
pub enum PtyEvent {
    /// The title has changed.
    Title(String),
    /// The title is to be the default one again.
    ResetTitle,
    /// Text is to be written to the terminal.
    PtyWrite(String),
    /// The terminal has shut down.
    Exit,
    /// The shell has ended, with this status.
    ChildExit(i32),
    /// Something that changes nothing here.
    Other,
}

/// What closing a pane amounts to.
#[derive(Clone, Copy, PartialEq, Eq, Structural, Debug)]
pub enum Closing {
    /// There is no such pane.
    Unknown,
    /// The pane is gone: its terminal is to be shut down.
    Gone,
    /// The pane is gone, and it was the last one: so is the window to be closed.
    Last,
}

/// Where a pane goes once its terminal has started.
#[derive(Clone, Copy, PartialEq, Eq, Structural, Debug)]
pub enum Place {
    /// Into a tab of its own.
    Tab,
    /// Beside the focused pane.
    Split(Axis),
}

/// What is left to do for a command.
#[derive(Clone, Copy, PartialEq, Eq, Structural, Debug)]
pub enum Action {
    /// Nothing.
    Done,
    /// To start the terminal of pane `id`, and put the pane in its place if that
    /// succeeds.
    Start { id: PaneId, place: Place },
    /// To follow up the closing of a pane.
    Shut { pane: PaneId, closing: Closing },
}

/// What is left to do after terminals have reported events.
pub struct Drained {
    /// Text to write to terminals, in this order and before any is shut down.
    pub writes: Vec<(PaneId, String)>,
    /// Panes that are gone: their terminals are to be shut down.
    pub closed: Vec<PaneId>,
    /// Whether the last pane is gone, and so the window is to be closed.
    pub last: bool,
}

/// One tab: an independent pane layout with its own focused pane.
struct Tab {
    tree: Tree,
    focused: PaneId,
    /// Content rect of the last frame this tab was drawn, for spatial navigation.
    last_area: Rect,
}

impl View for Tab {
    type V = TabState;

    closed spec fn view(&self) -> TabState {
        TabState { layout: self.tree@, focused: self.focused, last_area: self.last_area }
    }
}

pub struct MockTerm {
    tabs: Vec<Tab>,
    active: usize,
    /// The titles of all panes across all tabs, keyed by their globally unique id.
    panes: HashMap<PaneId, String>,
    next_id: u64,
    cfg: Config,
    default_title: String,
}

impl View for MockTerm {
    type V = Session;

    closed spec fn view(&self) -> Session {
        Session {
            tabs: self.tabs@.map_values(|t: Tab| t@),
            active: self.active as int,
            panes: self.panes@.map_values(|title: String| title@),
            next_id: self.next_id as int,
            cfg: self.cfg,
            default_title: self.default_title@,
        }
    }
}

impl MockTerm {
    /// Every tree is well formed, and the session is sound.
    pub closed spec fn wf(&self) -> bool {
        &&& forall|i: int| 0 <= i < self.tabs@.len() ==> (#[trigger] self.tabs@[i]).tree.wf()
        &&& self@.sound()
    }

    /// The session is sound, and so is the layout of every tab.
    pub proof fn law_sound(&self)
        requires
            self.wf(),
        ensures
            forall|i: int| 0 <= i < self@.tabs.len() ==> (#[trigger] self@.tabs[i]).layout.wf(),
            self@.sound(),
            self@.tabs.len() > 0 <==> self@.open(),
            0 <= self@.next_id <= u64::MAX,
    {
        assert forall|i: int| 0 <= i < self@.tabs.len() implies (
        #[trigger] self@.tabs[i]).layout.wf() by {
            assert(self.tabs@[i].tree.wf());
            self.tabs@[i].tree.law_no_slot_is_lost();
        }
    }

    /// What changes no layout and no set of live panes keeps a session sound.
    proof fn keeps_sound(&self, before: Session)
        requires
            before.sound(),
            self@.tabs.len() == before.tabs.len(),
            forall|i: int|
                0 <= i < before.tabs.len() ==> (#[trigger] self@.tabs[i]).layout
                    == before.tabs[i].layout,
            self@.panes.dom() == before.panes.dom(),
            self@.next_id == before.next_id,
            self@.tabs.len() > 0 ==> self@.open(),
        ensures
            self@.sound(),
    {
        assert forall|i: int, p: PaneId| #[trigger] self@.shows(i, p) == before.shows(i, p) by {
            if 0 <= i < before.tabs.len() {
                assert(self@.tabs[i].layout == before.tabs[i].layout);
            }
        }
        assert forall|i: int| 0 <= i < self@.tabs.len() implies (
        #[trigger] self@.tabs[i]).layout.shape.unique() by {
            assert(before.tabs[i].layout.shape.unique());
        }
        lemma_alike_sound(before, self@);
    }

    /// A multiplexer whose first pane is still to be started.
    pub fn new(cfg: Config) -> (term: MockTerm)
        ensures
            term.wf(),
            term@ == Session::start(cfg),
    {
        let default_title = shell_basename(cfg.shell.as_str());
        let term = MockTerm {
            tabs: Vec::new(),
            active: 0,
            panes: HashMap::new(),
            next_id: 0,
            cfg,
            default_title,
        };
        assert(term@.tabs =~= Seq::empty());
        assert(term@.panes =~= Map::empty());
        term
    }

    /// Draw the id of the next pane, whose terminal is then to be started.
    pub fn spawn_pane(&mut self) -> (id: PaneId)
        requires
            old(self).wf(),
            old(self)@.next_id < u64::MAX,
        ensures
            final(self).wf(),
            id == old(self)@.next_id,
            final(self)@ == old(self)@.drew_id(),
            final(self)@.fresh(id),
    {
        proof {
            lemma_drew_id(self@);
        }
        let id = self.next_id;
        self.next_id = self.next_id + 1;
        id
    }

    fn register(&mut self, id: PaneId)
        ensures
            final(self)@ == old(self)@.registered(id),
            final(self).tabs == old(self).tabs,
            final(self).active == old(self).active,
    {
        let title = self.default_title.clone();
        self.panes.insert(id, title);
        assert(self@.panes =~= old(self)@.registered(id).panes);
    }

    /// Open a new tab containing the single fresh pane `id`, and focus it.
    pub fn new_tab(&mut self, id: PaneId)
        requires
            old(self).wf(),
            old(self)@.fresh(id),
        ensures
            final(self).wf(),
            final(self)@ == old(self)@.new_tab(id),
    {
        proof {
            lemma_new_tab(self@, id);
        }
        self.register(id);
        let zero = Scalar { bits: 0 };
        let last_area = Rect { min_x: zero, min_y: zero, max_x: zero, max_y: zero };
        self.tabs.push(Tab { tree: Tree::new(id), focused: id, last_area });
        self.active = self.tabs.len() - 1;
        assert(self@.tabs =~= old(self)@.new_tab(id).tabs);
    }

    /// Split the active tab's focused pane along `axis`, with the fresh pane `id`.
    pub fn split(&mut self, axis: Axis, id: PaneId)
        requires
            old(self).wf(),
            old(self)@.open(),
            old(self)@.fresh(id),
        ensures
            final(self).wf(),
            final(self)@ == old(self)@.split(axis, id),
    {
        proof {
            lemma_split(self@, axis, id);
        }
        self.register(id);
        let active = self.active;
        let focused = self.tabs[active].focused;
        self.tabs[active].tree.split(focused, id, axis, true);
        self.tabs[active].focused = id;
        assert(self@.tabs =~= old(self)@.split(axis, id).tabs);
    }

    /// The first tab that holds `pane`.
    fn home(&self, pane: PaneId) -> (ti: Option<usize>)
        requires
            self.wf(),
        ensures
            match ti {
                Some(i) => {
                    &&& i < self.tabs@.len()
                    &&& self.tabs@[i as int].tree@.shape.has(pane)
                    &&& home_from(self@.tabs, pane, 0) == Some(i as int)
                },
                None => home_from(self@.tabs, pane, 0) is None,
            },
    {
        let mut i: usize = 0;
        while i < self.tabs.len()
            invariant
                self.wf(),
                i <= self.tabs@.len(),
                home_from(self@.tabs, pane, 0) == home_from(self@.tabs, pane, i as int),
            decreases self.tabs@.len() - i,
        {
            if self.tabs[i].tree.contains(pane) {
                return Some(i);
            }
            i = i + 1;
        }
        None
    }

    /// Close a pane, wherever it is. Its tab goes with it if it was the tab's
    /// last pane; else the tab's focus moves on if it was on the pane.
    pub fn close_pane(&mut self, pane: PaneId) -> (closing: Closing)
        requires
            old(self).wf(),
        ensures
            final(self).wf(),
            closing == old(self)@.closing(pane),
            final(self)@ == old(self)@.close_pane(pane),
    {
        let ghost before = self@;
        proof {
            lemma_close_sound(before, pane);
        }
        if !self.panes.contains_key(&pane) {
            return Closing::Unknown;
        }
        let ghost rest = Session { panes: before.panes.remove(pane), ..before };
        let ti = match self.home(pane) {
            Some(ti) => ti,
            None => {
                self.panes.remove(&pane);
                assert(self@.panes =~= rest.panes);
                return Closing::Gone;
            },
        };
        let next = self.tabs[ti].tree.focus_after_close(pane);
        let removed = self.tabs[ti].tree.close(pane);
        self.panes.remove(&pane);
        assert(self@.panes =~= rest.panes);
        if !removed {
            // That was the tab's last pane: drop the whole tab.
            self.tabs.remove(ti);
            assert(self@.tabs =~= before.tabs.remove(ti as int));
            if self.tabs.len() == 0 {
                return Closing::Last;
            }
            if self.active >= self.tabs.len() {
                self.active = self.tabs.len() - 1;
            } else if self.active > ti {
                self.active = self.active - 1;
            }
        } else {
            if self.tabs[ti].focused == pane {
                let fallback = self.tabs[ti].tree.first_pane();
                let focused = match next {
                    Some(p) => if self.panes.contains_key(&p) {
                        p
                    } else {
                        fallback
                    },
                    None => fallback,
                };
                self.tabs[ti].focused = focused;
            }
            assert(self@.tabs =~= before.close_pane(pane).tabs);
        }
        Closing::Gone
    }

    /// Jump to tab `i`, if there is one.
    pub fn select_tab(&mut self, i: usize)
        requires
            old(self).wf(),
        ensures
            final(self).wf(),
            final(self)@ == old(self)@.select_tab(i as int),
    {
        if i < self.tabs.len() {
            self.active = i;
        }
        proof {
            self.keeps_sound(old(self)@);
        }
    }

    /// Focus a pane of the active tab, as a click on it does.
    pub fn focus(&mut self, pane: PaneId)
        requires
            old(self).wf(),
            old(self)@.open(),
        ensures
            final(self).wf(),
            final(self)@ == old(self)@.focus(pane),
    {
        let active = self.active;
        self.tabs[active].focused = pane;
        assert(self@.tabs =~= old(self)@.focus(pane).tabs);
        proof {
            self.keeps_sound(old(self)@);
        }
    }

    /// Set the ratio of a split of the active tab, as dragging its divider does.
    pub fn resize(&mut self, node: usize, ratio: Scalar)
        requires
            old(self).wf(),
            old(self)@.open(),
        ensures
            final(self).wf(),
            final(self)@ == old(self)@.resize(node as int, ratio),
    {
        let active = self.active;
        self.tabs[active].tree.set_ratio(node, ratio);
        assert(self@.tabs =~= old(self)@.resize(node as int, ratio).tabs);
        proof {
            lemma_resize_shows(old(self)@, node as int, ratio);
            lemma_alike_sound(old(self)@, self@);
        }
    }

    /// Take in what the pointer did to the active tab: the pane that was clicked,
    /// if any, is focused, and splits get the ratios their dividers were dragged to.
    pub fn settle(&mut self, clicked: Option<PaneId>, updates: &[(usize, Scalar)])
        requires
            old(self).wf(),
            old(self)@.open(),
        ensures
            final(self).wf(),
            final(self)@ == old(self)@.settle(clicked, updates@),
    {
        if let Some(pane) = clicked {
            self.focus(pane);
        }
        let ghost start = self@;
        let mut i: usize = 0;
        assert(updates@.take(0) =~= Seq::empty());
        while i < updates.len()
            invariant
                self.wf(),
                self@.open(),
                i <= updates@.len(),
                self@ == start.resize_all(updates@.take(i as int)),
            decreases updates@.len() - i,
        {
            assert(updates@.take(i + 1).drop_last() =~= updates@.take(i as int));
            let (node, ratio) = updates[i];
            self.resize(node, ratio);
            i = i + 1;
        }
        assert(updates@.take(updates@.len() as int) =~= updates@);
    }

    /// Lay out the active tab in `area`, and remember the area for navigation.
    pub fn lay_out<M: Fn(Span, Span, Scalar) -> Marks>(&mut self, area: Rect, mark: &M) -> (tiles: (
        Vec<(PaneId, Rect)>,
        Vec<Divider>,
    ))
        requires
            old(self).wf(),
            old(self)@.open(),
            forall|along: Span, across: Span, ratio: Scalar|
                call_requires(*mark, (along, across, ratio)),
        ensures
            final(self).wf(),
            final(self)@ == old(self)@.shown_in(area),
            tiled(*mark, old(self)@.tab().layout.shape, area, tiles.0@, tiles.1@),
    {
        let active = self.active;
        self.tabs[active].last_area = area;
        assert(self@.tabs =~= old(self)@.shown_in(area).tabs);
        proof {
            self.keeps_sound(old(self)@);
        }
        self.tabs[active].tree.geometry(area, mark)
    }

    /// Move the focus of the active tab to the neighbouring pane in direction
    /// `dir`, going by where the panes were when the tab was last shown.
    pub fn navigate<M: Fn(Span, Span, Scalar) -> Marks, G: Fn(Rect, Rect) -> Gauge>(
        &mut self,
        dir: Dir,
        mark: &M,
        gauge: &G,
    )
        requires
            old(self).wf(),
            old(self)@.open(),
            forall|along: Span, across: Span, ratio: Scalar|
                call_requires(*mark, (along, across, ratio)),
            forall|cur: Rect, r: Rect| call_requires(*gauge, (cur, r)),
        ensures
            final(self).wf(),
            moved(old(self)@, final(self)@, dir, *mark, *gauge),
    {
        let active = self.active;
        let area = self.tabs[active].last_area;
        let focused = self.tabs[active].focused;
        let (leaves, dividers) = self.tabs[active].tree.geometry(area, mark);
        let found = neighbor(leaves.as_slice(), focused, dir, gauge);
        proof {
            let shape = self@.tab().layout.shape;
            let cuts = lemma_tiled(*mark, shape, area, leaves@, dividers@);
            let gauges = choose|gauges: Seq<Gauge>| #[trigger]
                leads_to(leaves@, gauges, focused, dir, found) && gauged(
                    *gauge,
                    leaves@,
                    focused,
                    gauges,
                );
            assert(sighted(self@.tab(), dir, *mark, *gauge, cuts, gauges, found));
        }
        if let Some(p) = found {
            self.tabs[active].focused = p;
            assert(self@.tabs =~= old(self)@.focus(p).tabs);
            proof {
                self.keeps_sound(old(self)@);
            }
        }
    }

    /// Carry out a command as far as it needs no terminal.
    pub fn handle_shortcut<M: Fn(Span, Span, Scalar) -> Marks, G: Fn(Rect, Rect) -> Gauge>(
        &mut self,
        command: Command,
        mark: &M,
        gauge: &G,
    ) -> (action: Action)
        requires
            old(self).wf(),
            command is NewTab || command is Split ==> old(self)@.next_id < u64::MAX,
            command is Split || command is ClosePane || command is Move ==> old(self)@.open(),
            forall|along: Span, across: Span, ratio: Scalar|
                call_requires(*mark, (along, across, ratio)),
            forall|cur: Rect, r: Rect| call_requires(*gauge, (cur, r)),
        ensures
            final(self).wf(),
            match command {
                Command::NewTab => {
                    &&& action == (Action::Start {
                        id: old(self)@.next_id as PaneId,
                        place: Place::Tab,
                    })
                    &&& final(self)@ == old(self)@.drew_id()
                    &&& final(self)@.fresh(old(self)@.next_id as PaneId)
                },
                Command::SelectTab(i) => {
                    &&& action == Action::Done
                    &&& final(self)@ == old(self)@.select_tab(i as int)
                },
                Command::Split(axis) => {
                    &&& action == (Action::Start {
                        id: old(self)@.next_id as PaneId,
                        place: Place::Split(axis),
                    })
                    &&& final(self)@ == old(self)@.drew_id()
                    &&& final(self)@.fresh(old(self)@.next_id as PaneId)
                },
                Command::ClosePane => {
                    let pane = old(self)@.tab().focused;
                    &&& action == (Action::Shut { pane, closing: old(self)@.closing(pane) })
                    &&& final(self)@ == old(self)@.close_pane(pane)
                },
                Command::Move(dir) => {
                    &&& action == Action::Done
                    &&& moved(old(self)@, final(self)@, dir, *mark, *gauge)
                },
            },
    {
        match command {
            Command::NewTab => Action::Start { id: self.spawn_pane(), place: Place::Tab },
            Command::SelectTab(i) => {
                self.select_tab(i);
                Action::Done
            },
            Command::Split(axis) => Action::Start {
                id: self.spawn_pane(),
                place: Place::Split(axis),
            },
            Command::ClosePane => {
                let pane = self.tabs[self.active].focused;
                let closing = self.close_pane(pane);
                Action::Shut { pane, closing }
            },
            Command::Move(dir) => {
                self.navigate(dir, mark, gauge);
                Action::Done
            },
        }
    }

    /// Put pane `id`, whose terminal has started, in its place.
    pub fn place(&mut self, id: PaneId, place: Place)
        requires
            old(self).wf(),
            old(self)@.fresh(id),
            place is Split ==> old(self)@.open(),
        ensures
            final(self).wf(),
            final(self)@ == match place {
                Place::Tab => old(self)@.new_tab(id),
                Place::Split(axis) => old(self)@.split(axis, id),
            },
    {
        match place {
            Place::Tab => self.new_tab(id),
            Place::Split(axis) => self.split(axis, id),
        }
    }

    /// Take in what terminals have reported: titles are kept up to date, and the
    /// panes whose terminals have ended are closed.
    pub fn drain_pty_events(&mut self, events: Vec<(PaneId, PtyEvent)>) -> (drained: Drained)
        requires
            old(self).wf(),
        ensures
            final(self).wf(),
            final(self)@ == old(self)@.note_all(events@).close_all(exits(events@)),
            written(drained.writes@) == old(self)@.writes(events@),
            drained.closed@ == old(self)@.note_all(events@).shut(exits(events@)),
            drained.last == old(self)@.note_all(events@).runs_out(exits(events@)),
            forall|k: int|
                0 <= k < events@.len() && ((#[trigger] events@[k]).1 is Exit
                    || events@[k].1 is ChildExit) ==> !final(self)@.panes.dom().contains(
                    events@[k].0,
                ) && forall|i: int| !#[trigger] final(self)@.shows(i, events@[k].0),
            forall|id: PaneId| #[trigger]
                old(self)@.panes.dom().contains(id) && !final(self)@.panes.dom().contains(id)
                    ==> exists|k: int| #[trigger] ended(events@, id, k),
            forall|id: PaneId| #[trigger]
                exits(events@).contains(id) ==> !final(self)@.panes.dom().contains(id),
            forall|i: int, id: PaneId| #[trigger]
                final(self)@.shows(i, id) ==> !exits(events@).contains(id),
    {
        let ghost start = self@;
        let ghost all = events@;
        let mut writes: Vec<(PaneId, String)> = Vec::new();
        let mut to_close: Vec<PaneId> = Vec::new();
        assert(all.take(0) =~= Seq::empty());
        for item in it: events
            invariant
                self.wf(),
                it.seq() == all,
                self@ == start.note_all(all.take(it.index())),
                self@.panes.dom() == start.panes.dom(),
                written(writes@) == start.writes(all.take(it.index())),
                to_close@ == exits(all.take(it.index())),
        {
            let ghost seen = all.take(it.index());
            let ghost before = self@;
            let ghost done = writes@;
            assert(all.take(it.index() + 1).drop_last() =~= seen);
            assert(all.take(it.index() + 1).last() == item);
            let (id, event) = item;
            match event {
                PtyEvent::Title(title) => {
                    if self.panes.contains_key(&id) {
                        self.panes.insert(id, title);
                    }
                    assert(self@.panes =~= before.retitle(id, title@).panes);
                },
                PtyEvent::ResetTitle => {
                    if self.panes.contains_key(&id) {
                        let title = self.default_title.clone();
                        self.panes.insert(id, title);
                    }
                    assert(self@.panes =~= before.retitle(id, before.default_title).panes);
                },
                PtyEvent::PtyWrite(text) => {
                    if self.panes.contains_key(&id) {
                        writes.push((id, text));
                        assert(written(writes@) =~= written(done).push((id, text@)));
                    }
                },
                PtyEvent::Exit | PtyEvent::ChildExit(_) => {
                    to_close.push(id);
                },
                PtyEvent::Other => {},
            }
            assert(self@.panes.dom() =~= start.panes.dom());
            proof {
                self.keeps_sound(before);
            }
        }
        assert(all.take(all.len() as int) =~= all);
        let ghost noted = self@;
        let mut closed: Vec<PaneId> = Vec::new();
        let mut last: bool = false;
        let mut i: usize = 0;
        assert(to_close@.take(0) =~= Seq::empty());
        while i < to_close.len()
            invariant
                self.wf(),
                i <= to_close@.len(),
                self@ == noted.close_all(to_close@.take(i as int)),
                closed@ == noted.shut(to_close@.take(i as int)),
                last == noted.runs_out(to_close@.take(i as int)),
            decreases to_close@.len() - i,
        {
            let id = to_close[i];
            assert(to_close@.take(i + 1).drop_last() =~= to_close@.take(i as int));
            match self.close_pane(id) {
                Closing::Unknown => {},
                Closing::Gone => {
                    closed.push(id);
                },
                Closing::Last => {
                    closed.push(id);
                    last = true;
                },
            }
            i = i + 1;
        }
        assert(to_close@.take(to_close@.len() as int) =~= to_close@);
        proof {
            law_drain(start, all);
            law_ended_panes_are_gone(start, all);
        }
        Drained { writes, closed, last }
    }

    /// The labels of the tabs, as the tab strip shows them.
    pub fn tab_labels(&self) -> (labels: Vec<String>)
        requires
            self.wf(),
        ensures
            labels@.len() == self@.tabs.len(),
            forall|i: int|
                0 <= i < labels@.len() ==> (#[trigger] labels@[i])@ == label(
                    i,
                    self@.title(self@.tabs[i].focused, seq!['—']),
                ),
    {
        let mut labels: Vec<String> = Vec::new();
        let mut i: usize = 0;
        while i < self.tabs.len()
            invariant
                i <= self.tabs@.len(),
                labels@.len() == i,
                forall|j: int|
                    0 <= j < i ==> (#[trigger] labels@[j])@ == label(
                        j,
                        self@.title(self@.tabs[j].focused, seq!['—']),
                    ),
            decreases self.tabs@.len() - i,
        {
            let focused = self.tabs[i].focused;
            let title = match self.panes.get(&focused) {
                Some(title) => title.as_str(),
                None => "—",
            };
            proof {
                reveal_strlit("—");
                assert("—"@ =~= seq!['—']);
                assert(title@ == self@.title(self@.tabs[i as int].focused, seq!['—']));
            }
            labels.push(tab_label(i, title));
            i = i + 1;
        }
        labels
    }

    /// The title that the status bar shows: that of the active tab's focused pane.
    pub fn status_title(&self) -> (title: String)
        requires
            self.wf(),
        ensures
            title@ == if self@.open() {
                self@.title(self@.tab().focused, "mockterm"@)
            } else {
                "mockterm"@
            },
    {
        if self.active < self.tabs.len() {
            let focused = self.tabs[self.active].focused;
            match self.panes.get(&focused) {
                Some(title) => title.clone(),
                None => "mockterm".to_owned(),
            }
        } else {
            "mockterm".to_owned()
        }
    }

    /// Whether there is a tab to show; there is none before the first pane has
    /// started, and after the last one is closed.
    pub fn is_open(&self) -> (r: bool)
        requires
            self.wf(),
        ensures
            r == self@.open(),
    {
        self.active < self.tabs.len()
    }

    /// Index of the active tab.
    pub fn active_tab(&self) -> (i: usize)
        requires
            self.wf(),
        ensures
            i == self@.active,
    {
        self.active
    }

    /// The focused pane of the active tab.
    pub fn focused(&self) -> (pane: PaneId)
        requires
            self.wf(),
            self@.open(),
        ensures
            pane == self@.tab().focused,
    {
        self.tabs[self.active].focused
    }

    /// The id that the next pane will have.
    pub fn next_id(&self) -> (id: PaneId)
        requires
            self.wf(),
        ensures
            id == self@.next_id,
    {
        self.next_id
    }

    /// What each pane runs.
    pub fn config(&self) -> (cfg: &Config)
        requires
            self.wf(),
        ensures
            *cfg == self@.cfg,
    {
        &self.cfg
    }
}

/// Whether `found` is what lies in direction `dir` from the focused pane of
/// `tab`, where `mark` cut the tab's area at `cuts` and `gauge` measured `gauges`.
pub open spec fn sighted<M: Fn(Span, Span, Scalar) -> Marks, G: Fn(Rect, Rect) -> Gauge>(
    tab: TabState,
    dir: Dir,
    mark: M,
    gauge: G,
    cuts: Cuts,
    gauges: Seq<Gauge>,
    found: Option<PaneId>,
) -> bool {
    let leaves = cuts.panes(tab.layout.shape, tab.last_area);
    &&& cuts.made_by(given_by(mark), tab.layout.shape, tab.last_area)
    &&& gauged(gauge, leaves, tab.focused, gauges)
    &&& leads_to(leaves, gauges, tab.focused, dir, found)
}

/// Whether `after` is `before` with the focus moved in direction `dir`.
pub open spec fn moved<M: Fn(Span, Span, Scalar) -> Marks, G: Fn(Rect, Rect) -> Gauge>(
    before: Session,
    after: Session,
    dir: Dir,
    mark: M,
    gauge: G,
) -> bool {
    exists|cuts: Cuts, gauges: Seq<Gauge>, found: Option<PaneId>|
        {
            &&& #[trigger] sighted(before.tab(), dir, mark, gauge, cuts, gauges, found)
            &&& after == match found {
                Some(pane) => before.focus(pane),
                None => before,
            }
        }
}

/// What was seen when the focus was moved: the marks, the measurements and the
/// pane that was found.
pub proof fn lemma_moved<M: Fn(Span, Span, Scalar) -> Marks, G: Fn(Rect, Rect) -> Gauge>(
    before: Session,
    after: Session,
    dir: Dir,
    mark: M,
    gauge: G,
) -> (seen: (Cuts, Seq<Gauge>, Option<PaneId>))
    requires
        moved(before, after, dir, mark, gauge),
    ensures
        sighted(before.tab(), dir, mark, gauge, seen.0, seen.1, seen.2),
        after == match seen.2 {
            Some(pane) => before.focus(pane),
            None => before,
        },
{
    choose|cuts: Cuts, gauges: Seq<Gauge>, found: Option<PaneId>|
        {
            &&& #[trigger] sighted(before.tab(), dir, mark, gauge, cuts, gauges, found)
            &&& after == match found {
                Some(pane) => before.focus(pane),
                None => before,
            }
        }
}

/// Texts for panes, as sequences of characters.
pub open spec fn written(writes: Seq<(PaneId, String)>) -> Seq<(PaneId, Seq<char>)> {
    writes.map_values(|w: (PaneId, String)| (w.0, w.1@))
}

} // verus!
