//! The multiplexer: tabs, focus, titles and what is left for others to do.

use mockterm::app::{Action, Closing, Config, MockTerm, Place, PtyEvent};
use mockterm::geometry::{Marks, Rect, Span};
use mockterm::keymap::Command;
use mockterm::layout::{Axis, Dir, PaneId};
use mockterm::navigation::Gauge;
use mockterm::scalar::Scalar;

fn scalar(x: f32) -> Scalar {
    Scalar { bits: x.to_bits() }
}

fn number(x: Scalar) -> f32 {
    f32::from_bits(x.bits)
}

fn area() -> Rect {
    Rect { min_x: scalar(0.0), min_y: scalar(0.0), max_x: scalar(400.0), max_y: scalar(300.0) }
}

fn mark(along: Span, across: Span, ratio: Scalar) -> Marks {
    let (start, end) = (number(along.start), number(along.end));
    let (top, bottom) = (number(across.start), number(across.end));
    let avail = ((end - start) - 8.0).max(0.0);
    let share = avail * number(ratio);
    Marks {
        avail: scalar(avail),
        first_end: scalar(start + share),
        second_start: scalar(start + share + 8.0),
        second_end: scalar(start + share + 8.0 + (avail - share)),
        cross_end: scalar(top + (bottom - top)),
    }
}

fn gauge(cur: Rect, r: Rect) -> Gauge {
    let centre = |r: Rect| {
        (
            (number(r.min_x) + number(r.max_x)) / 2.0,
            (number(r.min_y) + number(r.max_y)) / 2.0,
        )
    };
    let (cx, cy) = centre(cur);
    let (x, y) = centre(r);
    Gauge {
        x: scalar(x),
        y: scalar(y),
        left: scalar(cx - 1.0),
        above: scalar(cy - 1.0),
        right: scalar(cx + 1.0),
        below: scalar(cy + 1.0),
        distance: scalar((x - cx).hypot(y - cy)),
    }
}

fn config() -> Config {
    Config { shell: "/bin/zsh".to_string(), args: vec!["-l".to_string()] }
}

/// Carries out a command, with every terminal starting as asked for.
fn run(term: &mut MockTerm, command: Command) -> Action {
    let action = term.handle_shortcut(command, &mark, &gauge);
    if let Action::Start { id, place } = action {
        term.place(id, place);
    }
    action
}

/// A multiplexer with its first pane, pane 0.
fn started() -> MockTerm {
    let mut term = MockTerm::new(config());
    run(&mut term, Command::NewTab);
    term
}

/// The panes of the active tab, in order.
fn panes(term: &mut MockTerm) -> Vec<PaneId> {
    term.lay_out(area(), &mark).0.iter().map(|leaf| leaf.0).collect()
}

#[test]
fn nothing_is_open_before_the_first_pane() {
    let term = MockTerm::new(config());
    assert!(!term.is_open());
    assert_eq!(term.active_tab(), 0);
    assert_eq!(term.next_id(), 0);
    assert_eq!(term.status_title(), "mockterm");
    assert!(term.tab_labels().is_empty());
    assert_eq!(term.config().shell, "/bin/zsh");
    assert_eq!(term.config().args, vec!["-l".to_string()]);
}

#[test]
fn a_new_tab_is_shown_and_focused() {
    let mut term = MockTerm::new(config());
    let action = run(&mut term, Command::NewTab);
    assert_eq!(action, Action::Start { id: 0, place: Place::Tab });
    assert!(term.is_open());
    assert_eq!(term.focused(), 0);
    assert_eq!(panes(&mut term), vec![0]);
    assert_eq!(term.status_title(), "zsh");
    run(&mut term, Command::NewTab);
    assert_eq!(term.active_tab(), 1);
    assert_eq!(term.focused(), 1);
    assert_eq!(term.tab_labels(), vec!["1  zsh".to_string(), "2  zsh".to_string()]);
}

#[test]
fn a_terminal_that_does_not_start_costs_an_id_only() {
    let mut term = started();
    let action = term.handle_shortcut(Command::Split(Axis::Vertical), &mark, &gauge);
    assert_eq!(action, Action::Start { id: 1, place: Place::Split(Axis::Vertical) });
    // The terminal fails to start, so the pane is not placed.
    assert_eq!(panes(&mut term), vec![0]);
    assert_eq!(term.focused(), 0);
    assert_eq!(term.next_id(), 2);
    assert_eq!(term.close_pane(1), Closing::Unknown);
    assert_eq!(term.spawn_pane(), 2);
    assert_eq!(term.next_id(), 3);
}

#[test]
fn a_split_focuses_the_new_pane() {
    let mut term = started();
    run(&mut term, Command::Split(Axis::Horizontal));
    assert_eq!(panes(&mut term), vec![0, 1]);
    assert_eq!(term.focused(), 1);
    run(&mut term, Command::Split(Axis::Vertical));
    assert_eq!(panes(&mut term), vec![0, 1, 2]);
    let (leaves, dividers) = term.lay_out(area(), &mark);
    assert_eq!(number(leaves[1].1.max_y), 146.0);
    assert_eq!(dividers[0].axis, Axis::Horizontal);
    assert_eq!(dividers[1].axis, Axis::Vertical);
}

#[test]
fn closing_a_pane_moves_the_focus_to_its_sibling() {
    let mut term = started();
    run(&mut term, Command::Split(Axis::Horizontal));
    run(&mut term, Command::Split(Axis::Vertical));
    let action = run(&mut term, Command::ClosePane);
    assert_eq!(action, Action::Shut { pane: 2, closing: Closing::Gone });
    assert_eq!(panes(&mut term), vec![0, 1]);
    assert_eq!(term.focused(), 1);
}

#[test]
fn closing_a_pane_without_the_focus_leaves_the_focus() {
    let mut term = started();
    run(&mut term, Command::Split(Axis::Horizontal));
    assert_eq!(term.close_pane(0), Closing::Gone);
    assert_eq!(term.focused(), 1);
    assert_eq!(panes(&mut term), vec![1]);
}

#[test]
fn a_pane_closes_only_once() {
    let mut term = started();
    run(&mut term, Command::Split(Axis::Horizontal));
    assert_eq!(term.close_pane(1), Closing::Gone);
    assert_eq!(term.close_pane(1), Closing::Unknown);
    assert_eq!(panes(&mut term), vec![0]);
}

#[test]
fn closing_the_last_pane_closes_the_window() {
    let mut term = started();
    let action = run(&mut term, Command::ClosePane);
    assert_eq!(action, Action::Shut { pane: 0, closing: Closing::Last });
    assert!(!term.is_open());
    assert_eq!(term.status_title(), "mockterm");
}

#[test]
fn a_tab_goes_with_its_last_pane() {
    let mut term = started();
    run(&mut term, Command::NewTab);
    run(&mut term, Command::NewTab);
    // Tabs [0] [1] [2], the last one shown; the first one goes.
    assert_eq!(term.close_pane(0), Closing::Gone);
    assert_eq!(term.active_tab(), 1);
    assert_eq!(term.focused(), 2);
    // The last one goes while it is shown.
    assert_eq!(term.close_pane(2), Closing::Gone);
    assert_eq!(term.active_tab(), 0);
    assert_eq!(term.focused(), 1);
}

#[test]
fn closing_a_tab_behind_leaves_the_shown_one() {
    let mut term = started();
    run(&mut term, Command::NewTab);
    run(&mut term, Command::NewTab);
    run(&mut term, Command::SelectTab(1));
    assert_eq!(term.close_pane(2), Closing::Gone);
    assert_eq!((term.active_tab(), term.focused()), (1, 1));
    run(&mut term, Command::NewTab);
    run(&mut term, Command::SelectTab(1));
    assert_eq!(term.close_pane(0), Closing::Gone);
    assert_eq!((term.active_tab(), term.focused()), (0, 1));
    // The shown one goes: the one behind it takes its place.
    assert_eq!(term.close_pane(1), Closing::Gone);
    assert_eq!((term.active_tab(), term.focused()), (0, 3));
}

#[test]
fn a_tab_that_is_not_there_is_not_shown() {
    let mut term = started();
    run(&mut term, Command::NewTab);
    assert_eq!(run(&mut term, Command::SelectTab(0)), Action::Done);
    assert_eq!(term.active_tab(), 0);
    run(&mut term, Command::SelectTab(2));
    assert_eq!(term.active_tab(), 0);
    term.select_tab(1);
    assert_eq!(term.active_tab(), 1);
}

#[test]
fn the_focus_moves_by_direction() {
    let mut term = started();
    run(&mut term, Command::Split(Axis::Horizontal));
    run(&mut term, Command::Split(Axis::Vertical)); // [0 | [1 / 2]]
    term.lay_out(area(), &mark);
    assert_eq!(run(&mut term, Command::Move(Dir::Up)), Action::Done);
    assert_eq!(term.focused(), 1);
    run(&mut term, Command::Move(Dir::Left));
    assert_eq!(term.focused(), 0);
    run(&mut term, Command::Move(Dir::Left));
    assert_eq!(term.focused(), 0);
    term.navigate(Dir::Right, &mark, &gauge);
    assert_eq!(term.focused(), 1);
}

#[test]
fn the_focus_stays_until_the_tab_has_been_shown() {
    let mut term = started();
    run(&mut term, Command::Split(Axis::Horizontal));
    // All rects lie at the origin, at most a divider apart and without height.
    run(&mut term, Command::Move(Dir::Left));
    assert_eq!(term.focused(), 1);
}

#[test]
fn a_click_focuses_and_a_drag_resizes() {
    let mut term = started();
    run(&mut term, Command::Split(Axis::Horizontal));
    term.focus(0);
    assert_eq!(term.focused(), 0);
    let divider = term.lay_out(area(), &mark).1[0];
    let along = divider.drag(scalar(39.2), scalar(100.0)).unwrap();
    let ratio = number(divider.ratio) + number(along) / number(divider.avail);
    term.resize(divider.node, scalar(ratio));
    let dragged = term.lay_out(area(), &mark).1[0];
    assert_eq!(number(dragged.ratio), 0.6);
    term.resize(divider.node, scalar(7.0));
    assert_eq!(number(term.lay_out(area(), &mark).1[0].ratio), 0.95);
}

#[test]
fn clicks_and_drags_are_taken_in_together() {
    let mut term = started();
    run(&mut term, Command::Split(Axis::Horizontal));
    run(&mut term, Command::Split(Axis::Vertical));
    let dividers = term.lay_out(area(), &mark).1;
    let (outer, inner) = (dividers[0].node, dividers[1].node);
    term.settle(
        Some(1),
        &[(outer, scalar(0.25)), (inner, scalar(0.5)), (inner, scalar(0.75))],
    );
    assert_eq!(term.focused(), 1);
    let dividers = term.lay_out(area(), &mark).1;
    assert_eq!(number(dividers[0].ratio), 0.25);
    assert_eq!(number(dividers[1].ratio), 0.75);
    assert_eq!(panes(&mut term), vec![0, 1, 2]);
    term.settle(None, &[]);
    assert_eq!(term.focused(), 1);
}

#[test]
fn titles_follow_what_terminals_report() {
    let mut term = started();
    run(&mut term, Command::NewTab);
    let drained = term.drain_pty_events(vec![
        (0, PtyEvent::Title("vim notes.txt".to_string())),
        (1, PtyEvent::Title("first".to_string())),
        (1, PtyEvent::Title("a title that is too long".to_string())),
        (9, PtyEvent::Title("nobody".to_string())),
        (0, PtyEvent::Other),
    ]);
    assert!(drained.writes.is_empty() && drained.closed.is_empty() && !drained.last);
    assert_eq!(term.status_title(), "a title that is too long");
    assert_eq!(
        term.tab_labels(),
        vec!["1  vim notes.txt".to_string(), "2  a title that is t…".to_string()]
    );
    term.drain_pty_events(vec![(1, PtyEvent::ResetTitle), (9, PtyEvent::ResetTitle)]);
    assert_eq!(term.status_title(), "zsh");
}

#[test]
fn writes_go_to_live_terminals_in_order() {
    let mut term = started();
    run(&mut term, Command::Split(Axis::Horizontal));
    let drained = term.drain_pty_events(vec![
        (1, PtyEvent::PtyWrite("a".to_string())),
        (5, PtyEvent::PtyWrite("lost".to_string())),
        (1, PtyEvent::Exit),
        (0, PtyEvent::PtyWrite("b".to_string())),
        (1, PtyEvent::PtyWrite("c".to_string())),
    ]);
    // Pane 1 is closed only after all events have been taken in.
    assert_eq!(
        drained.writes,
        vec![(1, "a".to_string()), (0, "b".to_string()), (1, "c".to_string())]
    );
    assert_eq!(drained.closed, vec![1]);
    assert!(!drained.last);
}

#[test]
fn an_ended_terminal_closes_its_pane_once() {
    let mut term = started();
    run(&mut term, Command::Split(Axis::Horizontal));
    let drained = term.drain_pty_events(vec![
        (1, PtyEvent::Exit),
        (1, PtyEvent::ChildExit(0)),
        (4, PtyEvent::Exit),
    ]);
    assert_eq!(drained.closed, vec![1]);
    assert!(!drained.last);
    assert_eq!(panes(&mut term), vec![0]);
    let drained = term.drain_pty_events(vec![(0, PtyEvent::ChildExit(1))]);
    assert_eq!(drained.closed, vec![0]);
    assert!(drained.last);
    assert!(!term.is_open());
    let drained = term.drain_pty_events(vec![(0, PtyEvent::Exit)]);
    assert!(drained.closed.is_empty() && !drained.last);
}

#[test]
fn ids_are_never_used_twice() {
    let mut term = started();
    run(&mut term, Command::Split(Axis::Horizontal));
    run(&mut term, Command::ClosePane);
    run(&mut term, Command::Split(Axis::Horizontal));
    assert_eq!(panes(&mut term), vec![0, 2]);
    run(&mut term, Command::NewTab);
    assert_eq!(term.focused(), 3);
}

#[test]
fn a_label_falls_back_where_the_focus_is_on_no_live_pane() {
    let mut term = started();
    term.focus(42);
    assert_eq!(term.tab_labels(), vec!["1  —".to_string()]);
    assert_eq!(term.status_title(), "mockterm");
}

#[test]
fn tabs_keep_their_own_focus() {
    let mut term = started();
    run(&mut term, Command::Split(Axis::Horizontal));
    run(&mut term, Command::NewTab);
    let id = term.spawn_pane();
    term.split(Axis::Vertical, id);
    term.focus(2);
    term.select_tab(0);
    assert_eq!(term.focused(), 1);
    term.select_tab(1);
    assert_eq!(term.focused(), 2);
    let id = term.spawn_pane();
    term.new_tab(id);
    assert_eq!((term.active_tab(), term.focused()), (2, 4));
}
