//! What changes on the screen, and what does not.

use mockterm::geometry::{Marks, Rect, Span};
use mockterm::layout::{neighbor, Axis, Dir, Divider, PaneId, Tree};
use mockterm::navigation::{pane_rect, Gauge};
use mockterm::scalar::Scalar;

fn scalar(x: f32) -> Scalar {
    Scalar { bits: x.to_bits() }
}

fn number(x: Scalar) -> f32 {
    f32::from_bits(x.bits)
}

fn rect(min_x: f32, min_y: f32, max_x: f32, max_y: f32) -> Rect {
    Rect {
        min_x: scalar(min_x),
        min_y: scalar(min_y),
        max_x: scalar(max_x),
        max_y: scalar(max_y),
    }
}

fn mark(along: Span, across: Span, ratio: Scalar) -> Marks {
    let (start, end) = (number(along.start), number(along.end));
    let (top, bottom) = (number(across.start), number(across.end));
    let avail = ((end - start) - 8.0).max(0.0);
    let share = avail * number(ratio);
    Marks {
        avail: scalar(avail),
        first_end: scalar(start + share),
        second_start: scalar(start + share + 8.0),
        second_end: scalar(start + share + 8.0 + (avail - share)),
        cross_end: scalar(top + (bottom - top)),
    }
}

fn gauge(cur: Rect, r: Rect) -> Gauge {
    let centre = |r: Rect| {
        (
            (number(r.min_x) + number(r.max_x)) / 2.0,
            (number(r.min_y) + number(r.max_y)) / 2.0,
        )
    };
    let (cx, cy) = centre(cur);
    let (x, y) = centre(r);
    Gauge {
        x: scalar(x),
        y: scalar(y),
        left: scalar(cx - 1.0),
        above: scalar(cy - 1.0),
        right: scalar(cx + 1.0),
        below: scalar(cy + 1.0),
        distance: scalar((x - cx).hypot(y - cy)),
    }
}

fn area() -> Rect {
    rect(0.0, 0.0, 808.0, 408.0)
}

/// [[1 / 4] | [2 / [3 | 5]]]
fn five() -> Tree {
    let mut tree = Tree::new(1);
    tree.split(1, 2, Axis::Horizontal, true);
    tree.split(2, 3, Axis::Vertical, true);
    tree.split(1, 4, Axis::Vertical, true);
    tree.split(3, 5, Axis::Horizontal, true);
    tree
}

fn leaves(tree: &Tree) -> Vec<(PaneId, Rect)> {
    tree.geometry(area(), &mark).0
}

fn on_screen(tree: &Tree, pane: PaneId) -> Option<Rect> {
    pane_rect(&leaves(tree), pane)
}

fn size(r: Rect) -> (f32, f32) {
    (number(r.max_x) - number(r.min_x), number(r.max_y) - number(r.min_y))
}

#[test]
fn of_two_panes_the_earlier_is_left_or_above_with_a_divider_between() {
    let (leaves, dividers) = five().geometry(area(), &mark);
    let ends = |r: Rect, axis: Axis| match axis {
        Axis::Horizontal => (number(r.min_x), number(r.max_x)),
        Axis::Vertical => (number(r.min_y), number(r.max_y)),
    };
    let between = |first: Rect, d: &Divider, second: Rect| {
        let (start, end) = ends(d.rect, d.axis);
        ends(first, d.axis).1 <= start && end <= ends(second, d.axis).0 && end - start == 8.0
    };
    for (i, (_, first)) in leaves.iter().enumerate() {
        for (_, second) in &leaves[i + 1..] {
            assert!(
                number(first.max_x) + 8.0 <= number(second.min_x)
                    || number(first.max_y) + 8.0 <= number(second.min_y)
            );
            assert!(dividers.iter().any(|d| between(*first, d, *second)));
        }
    }
}

#[test]
fn closing_hands_the_rect_of_the_split_to_the_sibling() {
    let before = five();
    let mut after = five();
    assert!(after.close(2));
    // The pair 3 | 5 takes over the whole right half.
    let half = rect(404.0 + 4.0, 0.0, 808.0, 408.0);
    let mut pair = Tree::new(3);
    pair.split(3, 5, Axis::Horizontal, true);
    let expected = pair.geometry(half, &mark).0;
    assert_eq!(on_screen(&after, 3), pane_rect(&expected, 3));
    assert_eq!(on_screen(&after, 5), pane_rect(&expected, 5));
    // What lies outside that split stays.
    assert_eq!(on_screen(&after, 1), on_screen(&before, 1));
    assert_eq!(on_screen(&after, 4), on_screen(&before, 4));
    assert_eq!(on_screen(&after, 2), None);
}

#[test]
fn closing_only_makes_panes_grow() {
    for gone in 1..=5 {
        let before = five();
        let mut after = five();
        assert!(after.close(gone));
        for pane in (1..=5).filter(|p| *p != gone) {
            let (w1, h1) = size(on_screen(&before, pane).unwrap());
            let (w2, h2) = size(on_screen(&after, pane).unwrap());
            assert!(w1 <= w2 && h1 <= h2);
        }
    }
}

#[test]
fn dragging_moves_only_what_the_split_holds() {
    let before = five();
    let mut after = five();
    // The divider between 3 and 5.
    let (_, dividers) = before.geometry(area(), &mark);
    let inner = dividers.last().unwrap();
    assert_eq!(inner.axis, Axis::Horizontal);
    after.set_ratio(inner.node, scalar(0.25));
    for pane in [1, 2, 4] {
        assert_eq!(on_screen(&after, pane), on_screen(&before, pane));
    }
    let (r3, r5) = (on_screen(&after, 3).unwrap(), on_screen(&after, 5).unwrap());
    assert_eq!(size(r3).0 + 8.0 + size(r5).0, 400.0);
    assert_eq!(size(r3).0, 98.0);
}

#[test]
fn splitting_and_merging_move_only_the_target() {
    let before = five();
    let mut split = five();
    split.split(4, 9, Axis::Vertical, false);
    let mut merged = five();
    let mut other = Tree::new(8);
    other.split(8, 9, Axis::Vertical, true);
    assert!(merged.attach_subtree(4, &other, Axis::Horizontal, true));
    for pane in [1, 2, 3, 5] {
        assert_eq!(on_screen(&split, pane), on_screen(&before, pane));
        assert_eq!(on_screen(&merged, pane), on_screen(&before, pane));
    }
    // Target and newcomers share the rect that the target had.
    let old = on_screen(&before, 4).unwrap();
    assert_eq!(on_screen(&split, 9).unwrap().min_y, old.min_y);
    assert_eq!(on_screen(&split, 4).unwrap().max_y, old.max_y);
    assert_eq!(on_screen(&merged, 4).unwrap().min_x, old.min_x);
    assert_eq!(on_screen(&merged, 8).unwrap().max_x, old.max_x);
    assert_eq!(on_screen(&merged, 9).unwrap().max_y, old.max_y);
}

#[test]
fn there_is_always_a_way_back() {
    let leaves = leaves(&five());
    let turns = [
        (Dir::Left, Dir::Right),
        (Dir::Right, Dir::Left),
        (Dir::Up, Dir::Down),
        (Dir::Down, Dir::Up),
    ];
    let mut moves = 0;
    for (dir, opposite) in turns {
        for (a, from) in &leaves {
            let Some(b) = neighbor(&leaves, *a, dir, &gauge) else {
                continue;
            };
            let to = pane_rect(&leaves, b).unwrap();
            let c = neighbor(&leaves, b, opposite, &gauge).unwrap();
            let back = pane_rect(&leaves, c).unwrap();
            assert_ne!(c, b);
            assert!(number(gauge(to, back).distance) <= number(gauge(to, *from).distance));
            moves += 1;
        }
    }
    assert_eq!(moves, 11);
}
