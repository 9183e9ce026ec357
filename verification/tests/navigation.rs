//! Moving from pane to pane by direction.

use mockterm::geometry::{Marks, Rect, Span};
use mockterm::layout::{Axis, Dir, Tree};
use mockterm::navigation::{nearest, neighbor, overlaps, pane_rect, Gauge, FARTHEST};
use mockterm::scalar::Scalar;

fn scalar(x: f32) -> Scalar {
    Scalar { bits: x.to_bits() }
}

fn number(x: Scalar) -> f32 {
    f32::from_bits(x.bits)
}

fn rect(min_x: f32, min_y: f32, max_x: f32, max_y: f32) -> Rect {
    Rect {
        min_x: scalar(min_x),
        min_y: scalar(min_y),
        max_x: scalar(max_x),
        max_y: scalar(max_y),
    }
}

fn mark(along: Span, across: Span, ratio: Scalar) -> Marks {
    let (start, end) = (number(along.start), number(along.end));
    let (top, bottom) = (number(across.start), number(across.end));
    let avail = ((end - start) - 8.0).max(0.0);
    let share = avail * number(ratio);
    Marks {
        avail: scalar(avail),
        first_end: scalar(start + share),
        second_start: scalar(start + share + 8.0),
        second_end: scalar(start + share + 8.0 + (avail - share)),
        cross_end: scalar(top + (bottom - top)),
    }
}

fn gauge(cur: Rect, r: Rect) -> Gauge {
    let cc = egui::Rect::from_min_max(
        egui::pos2(number(cur.min_x), number(cur.min_y)),
        egui::pos2(number(cur.max_x), number(cur.max_y)),
    )
    .center();
    let c = egui::Rect::from_min_max(
        egui::pos2(number(r.min_x), number(r.min_y)),
        egui::pos2(number(r.max_x), number(r.max_y)),
    )
    .center();
    Gauge {
        x: scalar(c.x),
        y: scalar(c.y),
        left: scalar(cc.x - 1.0),
        above: scalar(cc.y - 1.0),
        right: scalar(cc.x + 1.0),
        below: scalar(cc.y + 1.0),
        distance: scalar((c - cc).length()),
    }
}

/// [1 | [2 / 3]], the left half one pane and the right half two.
fn three() -> Vec<(u64, Rect)> {
    let mut tree = Tree::new(1);
    tree.split(1, 2, Axis::Horizontal, true);
    tree.split(2, 3, Axis::Vertical, true);
    tree.geometry(rect(0.0, 0.0, 400.0, 300.0), &mark).0
}

#[test]
fn neighbor_goes_to_the_pane_in_that_direction() {
    let leaves = three();
    assert_eq!(neighbor(&leaves, 2, Dir::Down, &gauge), Some(3));
    assert_eq!(neighbor(&leaves, 3, Dir::Up, &gauge), Some(2));
    assert_eq!(neighbor(&leaves, 2, Dir::Left, &gauge), Some(1));
    assert_eq!(neighbor(&leaves, 3, Dir::Left, &gauge), Some(1));
}

#[test]
fn neighbor_is_none_at_the_edge() {
    let leaves = three();
    assert_eq!(neighbor(&leaves, 1, Dir::Left, &gauge), None);
    assert_eq!(neighbor(&leaves, 1, Dir::Up, &gauge), None);
    assert_eq!(neighbor(&leaves, 1, Dir::Down, &gauge), None);
    assert_eq!(neighbor(&leaves, 2, Dir::Right, &gauge), None);
    assert_eq!(neighbor(&leaves, 2, Dir::Up, &gauge), None);
}

#[test]
fn neighbor_of_a_missing_pane_is_none() {
    assert_eq!(neighbor(&three(), 9, Dir::Left, &gauge), None);
    assert_eq!(neighbor(&[], 9, Dir::Left, &gauge), None);
}

#[test]
fn neighbor_takes_the_first_of_equally_near_panes() {
    // Both panes on the right are equally far from the one on the left.
    assert_eq!(neighbor(&three(), 1, Dir::Right, &gauge), Some(2));
    let mut turned = three();
    turned.swap(1, 2);
    assert_eq!(neighbor(&turned, 1, Dir::Right, &gauge), Some(3));
}

#[test]
fn neighbor_takes_the_nearest() {
    let leaves = vec![
        (1, rect(0.0, 0.0, 100.0, 100.0)),
        (2, rect(220.0, 0.0, 320.0, 100.0)),
        (3, rect(110.0, 0.0, 210.0, 100.0)),
        (4, rect(330.0, 0.0, 430.0, 100.0)),
    ];
    assert_eq!(neighbor(&leaves, 1, Dir::Right, &gauge), Some(3));
    assert_eq!(neighbor(&leaves, 4, Dir::Left, &gauge), Some(2));
    assert_eq!(neighbor(&leaves, 2, Dir::Left, &gauge), Some(3));
}

#[test]
fn neighbor_must_overlap_on_the_other_axis() {
    let leaves = vec![
        (1, rect(0.0, 0.0, 100.0, 100.0)),
        // Nearer, but its top is where the current pane ends.
        (2, rect(110.0, 100.0, 210.0, 200.0)),
        (3, rect(400.0, 50.0, 500.0, 250.0)),
    ];
    assert_eq!(neighbor(&leaves, 1, Dir::Right, &gauge), Some(3));
    assert_eq!(neighbor(&leaves, 1, Dir::Down, &gauge), None);
}

#[test]
fn neighbor_must_lie_more_than_a_point_away() {
    let current = (1, rect(0.0, 0.0, 100.0, 100.0));
    assert_eq!(
        neighbor(&[current, (2, rect(1.0, 0.0, 101.0, 100.0))], 1, Dir::Right, &gauge),
        None
    );
    assert_eq!(
        neighbor(&[current, (2, rect(1.5, 0.0, 101.5, 100.0))], 1, Dir::Right, &gauge),
        Some(2)
    );
}

#[test]
fn neighbor_skips_what_cannot_be_measured() {
    let leaves = vec![
        (1, rect(0.0, 0.0, 100.0, 100.0)),
        (2, rect(f32::NAN, 0.0, 210.0, 100.0)),
        (3, rect(f32::INFINITY, 0.0, f32::INFINITY, 100.0)),
    ];
    assert_eq!(neighbor(&leaves, 1, Dir::Right, &gauge), None);
}

#[test]
fn neighbor_measures_from_the_first_entry_of_the_current_pane() {
    let leaves = vec![
        (1, rect(0.0, 0.0, 100.0, 100.0)),
        (2, rect(110.0, 0.0, 210.0, 100.0)),
        (1, rect(220.0, 0.0, 320.0, 100.0)),
    ];
    assert_eq!(pane_rect(&leaves, 1), Some(rect(0.0, 0.0, 100.0, 100.0)));
    assert_eq!(pane_rect(&leaves, 3), None);
    assert_eq!(neighbor(&leaves, 1, Dir::Right, &gauge), Some(2));
    assert_eq!(neighbor(&leaves, 1, Dir::Left, &gauge), None);
}

#[test]
fn nearest_decides_by_what_was_measured() {
    let cur = rect(0.0, 0.0, 100.0, 100.0);
    let other = rect(110.0, 0.0, 210.0, 100.0);
    let leaves = [(1, cur), (2, other), (3, other)];
    let at = |distance: f32| Gauge { distance: scalar(distance), ..gauge(cur, other) };
    let here = gauge(cur, cur);
    assert_eq!(nearest(&leaves, &[here, at(9.0), at(4.0)], 1, Dir::Right), Some(3));
    assert_eq!(nearest(&leaves, &[here, at(4.0), at(4.0)], 1, Dir::Right), Some(2));
    assert_eq!(nearest(&leaves, &[here, at(f32::NAN), at(4.0)], 1, Dir::Right), Some(3));
    // A distance counts only if it is below the largest finite number.
    let farthest = f32::from_bits(FARTHEST);
    assert_eq!(nearest(&leaves, &[here, at(farthest), at(farthest)], 1, Dir::Right), None);
    assert_eq!(nearest(&leaves, &[here, at(9.0), at(4.0)], 1, Dir::Left), None);
}

#[test]
fn gauges_tell_the_four_directions() {
    let cur = rect(0.0, 0.0, 100.0, 100.0);
    let right = gauge(cur, rect(110.0, 0.0, 210.0, 100.0));
    assert!(right.in_dir(Dir::Right) && !right.in_dir(Dir::Left));
    assert!(!right.in_dir(Dir::Up) && !right.in_dir(Dir::Down));
    let above = gauge(cur, rect(0.0, -110.0, 100.0, -10.0));
    assert!(above.in_dir(Dir::Up) && !above.in_dir(Dir::Down));
    assert_eq!(above.distance, scalar(110.0));
    let below = gauge(cur, rect(0.0, 110.0, 100.0, 210.0));
    assert!(below.in_dir(Dir::Down) && !below.in_dir(Dir::Up));
    let left = gauge(cur, rect(-110.0, 0.0, -10.0, 100.0));
    assert!(left.in_dir(Dir::Left) && !left.in_dir(Dir::Right));
}

#[test]
fn overlaps_looks_across_the_direction() {
    let cur = rect(0.0, 0.0, 100.0, 100.0);
    let beside = rect(200.0, 50.0, 300.0, 150.0);
    assert!(overlaps(beside, cur, Dir::Right) && overlaps(beside, cur, Dir::Left));
    assert!(!overlaps(beside, cur, Dir::Up) && !overlaps(beside, cur, Dir::Down));
    let under = rect(50.0, 200.0, 150.0, 300.0);
    assert!(overlaps(under, cur, Dir::Down) && !overlaps(under, cur, Dir::Right));
}
