//! Where panes and dividers lie.

use mockterm::geometry::{Divider, Marks, Rect, Span, DIVIDER, MIN_AVAIL};
use mockterm::layout::{Axis, Tree};
use mockterm::scalar::Scalar;

fn scalar(x: f32) -> Scalar {
    Scalar { bits: x.to_bits() }
}

fn number(x: Scalar) -> f32 {
    f32::from_bits(x.bits)
}

fn rect(min_x: f32, min_y: f32, max_x: f32, max_y: f32) -> Rect {
    Rect {
        min_x: scalar(min_x),
        min_y: scalar(min_y),
        max_x: scalar(max_x),
        max_y: scalar(max_y),
    }
}

fn from_egui(r: egui::Rect) -> Rect {
    rect(r.min.x, r.min.y, r.max.x, r.max.y)
}

fn mark(along: Span, across: Span, ratio: Scalar) -> Marks {
    let (start, end) = (number(along.start), number(along.end));
    let (top, bottom) = (number(across.start), number(across.end));
    let avail = ((end - start) - 8.0).max(0.0);
    let share = avail * number(ratio);
    Marks {
        avail: scalar(avail),
        first_end: scalar(start + share),
        second_start: scalar(start + share + 8.0),
        second_end: scalar(start + share + 8.0 + (avail - share)),
        cross_end: scalar(top + (bottom - top)),
    }
}

fn overlap(a: Rect, b: Rect) -> bool {
    number(a.min_x) < number(b.max_x)
        && number(b.min_x) < number(a.max_x)
        && number(a.min_y) < number(b.max_y)
        && number(b.min_y) < number(a.max_y)
}

#[test]
fn constants_are_the_numbers_they_stand_for() {
    assert_eq!(f32::from_bits(DIVIDER), 8.0);
    assert_eq!(f32::from_bits(MIN_AVAIL), 1.0);
}

#[test]
fn a_single_pane_fills_the_area() {
    let area = rect(3.0, 4.0, 403.0, 304.0);
    let (leaves, dividers) = Tree::new(5).geometry(area, &mark);
    assert_eq!(leaves, vec![(5, area)]);
    assert!(dividers.is_empty());
}

#[test]
fn a_split_to_the_right_halves_the_width() {
    let mut tree = Tree::new(1);
    tree.split(1, 2, Axis::Horizontal, true);
    let (leaves, dividers) = tree.geometry(rect(0.0, 0.0, 400.0, 300.0), &mark);
    assert_eq!(leaves[0], (1, rect(0.0, 0.0, 196.0, 300.0)));
    assert_eq!(leaves[1], (2, rect(204.0, 0.0, 400.0, 300.0)));
    assert_eq!(
        dividers,
        vec![Divider {
            node: 0,
            axis: Axis::Horizontal,
            rect: rect(196.0, 0.0, 204.0, 300.0),
            ratio: scalar(0.5),
            avail: scalar(392.0),
        }]
    );
}

#[test]
fn a_split_down_shares_the_height_by_its_ratio() {
    let mut tree = Tree::new(1);
    tree.split(1, 2, Axis::Vertical, true);
    tree.set_ratio(0, scalar(0.25));
    let (leaves, dividers) = tree.geometry(rect(10.0, 20.0, 110.0, 228.0), &mark);
    assert_eq!(leaves[0], (1, rect(10.0, 20.0, 110.0, 70.0)));
    assert_eq!(leaves[1], (2, rect(10.0, 78.0, 110.0, 228.0)));
    assert_eq!(dividers[0].rect, rect(10.0, 70.0, 110.0, 78.0));
    assert_eq!(dividers[0].axis, Axis::Vertical);
    assert_eq!(dividers[0].avail, scalar(200.0));
}

#[test]
fn an_area_thinner_than_a_divider_leaves_nothing_to_share() {
    let mut tree = Tree::new(1);
    tree.split(1, 2, Axis::Horizontal, true);
    let (leaves, dividers) = tree.geometry(rect(0.0, 0.0, 5.0, 50.0), &mark);
    assert_eq!(leaves[0].1, rect(0.0, 0.0, 0.0, 50.0));
    assert_eq!(leaves[1].1, rect(8.0, 0.0, 8.0, 50.0));
    assert_eq!(dividers[0].avail, scalar(0.0));
}

#[test]
fn rects_are_those_that_egui_builds_from_corner_and_size() {
    let area = egui::Rect::from_min_size(egui::pos2(3.7, 11.3), egui::vec2(641.9, 479.3));
    let ratio: f32 = 0.37;
    let mut tree = Tree::new(1);
    tree.split(1, 2, Axis::Horizontal, true);
    tree.set_ratio(0, scalar(ratio));
    let (leaves, dividers) = tree.geometry(from_egui(area), &mark);

    let avail = (area.width() - 8.0).max(0.0);
    let aw = avail * ratio;
    let a = egui::Rect::from_min_size(area.min, egui::vec2(aw, area.height()));
    let d = egui::Rect::from_min_size(
        egui::pos2(area.min.x + aw, area.min.y),
        egui::vec2(8.0, area.height()),
    );
    let b = egui::Rect::from_min_size(
        egui::pos2(area.min.x + aw + 8.0, area.min.y),
        egui::vec2(avail - aw, area.height()),
    );
    assert_eq!(leaves[0].1, from_egui(a));
    assert_eq!(dividers[0].rect, from_egui(d));
    assert_eq!(leaves[1].1, from_egui(b));
}

#[test]
fn tiles_stay_apart_and_fill_the_area() {
    // [[1 / 4] | [2 / 3]]
    let mut tree = Tree::new(1);
    tree.split(1, 2, Axis::Horizontal, true);
    tree.split(2, 3, Axis::Vertical, true);
    tree.split(1, 4, Axis::Vertical, true);
    let (leaves, dividers) = tree.geometry(rect(0.0, 0.0, 408.0, 208.0), &mark);
    assert_eq!(leaves.len(), dividers.len() + 1);
    let mut tiles: Vec<Rect> = leaves.iter().map(|l| l.1).collect();
    tiles.extend(dividers.iter().map(|d| d.rect));
    let mut total: f32 = 0.0;
    for (i, a) in tiles.iter().enumerate() {
        total += (number(a.max_x) - number(a.min_x)) * (number(a.max_y) - number(a.min_y));
        for b in tiles.iter().skip(i + 1) {
            assert!(!overlap(*a, *b));
        }
    }
    assert_eq!(total, 408.0 * 208.0);
}

#[test]
fn dividers_come_root_first_and_name_their_split() {
    let mut tree = Tree::new(1);
    tree.split(1, 2, Axis::Horizontal, true);
    tree.split(2, 3, Axis::Vertical, true);
    tree.split(1, 4, Axis::Vertical, true);
    let area = rect(0.0, 0.0, 408.0, 208.0);
    let (_, dividers) = tree.geometry(area, &mark);
    let axes: Vec<Axis> = dividers.iter().map(|d| d.axis).collect();
    assert_eq!(axes, vec![Axis::Horizontal, Axis::Vertical, Axis::Vertical]);
    // The second divider is that of the left half.
    assert_eq!(dividers[1].rect, rect(0.0, 100.0, 200.0, 108.0));
    // Its handle resizes just that split.
    tree.set_ratio(dividers[1].node, scalar(0.75));
    let moved = tree.geometry(area, &mark).1;
    assert_eq!(moved[1].rect, rect(0.0, 150.0, 200.0, 158.0));
    assert_eq!(moved[0], dividers[0]);
    assert_eq!(moved[2], dividers[2]);
}

#[test]
fn divide_cuts_across_either_axis() {
    let marks = Marks {
        avail: scalar(90.0),
        first_end: scalar(30.0),
        second_start: scalar(38.0),
        second_end: scalar(98.0),
        cross_end: scalar(50.0),
    };
    let area = rect(0.0, 1.0, 98.0, 50.0);
    assert_eq!(area.along(Axis::Horizontal), Span { start: scalar(0.0), end: scalar(98.0) });
    assert_eq!(area.across(Axis::Horizontal), Span { start: scalar(1.0), end: scalar(50.0) });
    assert_eq!(area.along(Axis::Vertical), Span { start: scalar(1.0), end: scalar(50.0) });
    assert_eq!(area.across(Axis::Vertical), Span { start: scalar(0.0), end: scalar(98.0) });
    assert_eq!(
        area.divide(Axis::Horizontal, marks),
        (
            rect(0.0, 1.0, 30.0, 50.0),
            rect(30.0, 1.0, 38.0, 50.0),
            rect(38.0, 1.0, 98.0, 50.0),
        )
    );
    assert_eq!(
        area.divide(Axis::Vertical, marks),
        (
            rect(0.0, 1.0, 50.0, 30.0),
            rect(0.0, 30.0, 50.0, 38.0),
            rect(0.0, 38.0, 50.0, 98.0),
        )
    );
}

#[test]
fn a_drag_counts_along_the_axis_of_the_divider() {
    let mut divider = Divider {
        node: 0,
        axis: Axis::Horizontal,
        rect: rect(196.0, 0.0, 204.0, 300.0),
        ratio: scalar(0.5),
        avail: scalar(392.0),
    };
    assert_eq!(divider.drag(scalar(5.0), scalar(-7.0)), Some(scalar(5.0)));
    divider.axis = Axis::Vertical;
    assert_eq!(divider.drag(scalar(5.0), scalar(-7.0)), Some(scalar(-7.0)));
    divider.avail = scalar(1.0);
    assert_eq!(divider.drag(scalar(5.0), scalar(-7.0)), None);
    divider.avail = scalar(1.5);
    assert_eq!(divider.drag(scalar(5.0), scalar(-7.0)), Some(scalar(-7.0)));
    divider.avail = scalar(f32::NAN);
    assert_eq!(divider.drag(scalar(5.0), scalar(-7.0)), None);
}

/// [[1 / 4] | [2 / [3 | 5]]], with uneven ratios.
fn nested() -> Tree {
    let mut tree = Tree::new(1);
    tree.split(1, 2, Axis::Horizontal, true);
    tree.split(2, 3, Axis::Vertical, true);
    tree.split(1, 4, Axis::Vertical, true);
    tree.split(3, 5, Axis::Horizontal, true);
    let handles: Vec<usize> =
        tree.geometry(rect(0.0, 0.0, 1.0, 1.0), &mark).1.iter().map(|d| d.node).collect();
    for (i, node) in handles.iter().enumerate() {
        tree.set_ratio(*node, scalar(0.95 - 0.2 * i as f32));
    }
    tree
}

#[test]
fn nothing_is_negative_however_little_room_there_is() {
    let tree = nested();
    for (width, height) in [(0.0, 0.0), (3.0, 900.0), (900.0, 7.9), (8.0, 8.5), (30.0, 20.0)] {
        let (leaves, dividers) = tree.geometry(rect(2.5, -1.5, 2.5 + width, -1.5 + height), &mark);
        let panes = leaves.iter().map(|l| l.1);
        for r in panes.chain(dividers.iter().map(|d| d.rect)) {
            assert!(number(r.min_x) <= number(r.max_x) && number(r.min_y) <= number(r.max_y));
        }
        for d in &dividers {
            assert!(number(d.avail) >= 0.0);
            assert!((0.05..=0.95).contains(&number(d.ratio)));
        }
    }
}

#[test]
fn no_two_dividers_share_a_handle() {
    let mut tree = nested();
    assert!(tree.close(4));
    tree.split(5, 6, Axis::Vertical, false);
    let dividers = tree.geometry(rect(0.0, 0.0, 800.0, 600.0), &mark).1;
    assert_eq!(dividers.len(), 4);
    for (i, a) in dividers.iter().enumerate() {
        for b in dividers.iter().skip(i + 1) {
            assert_ne!(a.node, b.node);
        }
    }
}

#[test]
fn geometry_is_blind_to_slots() {
    let fresh = nested();
    // The same tree in other slots: merged beside a pane that is then closed.
    let mut moved = Tree::new(9);
    assert!(moved.attach_subtree(9, &fresh, Axis::Horizontal, true));
    assert!(moved.close(9));
    let area = rect(1.0, 2.0, 640.0, 480.0);
    let (leaves_1, dividers_1) = fresh.geometry(area, &mark);
    let (leaves_2, dividers_2) = moved.geometry(area, &mark);
    assert_eq!(leaves_1, leaves_2);
    assert_ne!(dividers_1, dividers_2);
    let bare = |ds: Vec<Divider>| -> Vec<Divider> {
        ds.into_iter().map(|d| Divider { node: 0, ..d }).collect()
    };
    assert_eq!(bare(dividers_1), bare(dividers_2));
}

#[test]
fn a_merged_copy_is_laid_out_as_its_source() {
    let source = nested();
    let mut tree = Tree::new(9);
    assert!(tree.attach_subtree(9, &source, Axis::Vertical, true));
    let area = rect(0.0, 0.0, 640.0, 488.0);
    let (leaves, dividers) = tree.geometry(area, &mark);
    // The copy fills the lower half.
    let (leaves_src, dividers_src) = source.geometry(rect(0.0, 248.0, 640.0, 488.0), &mark);
    assert_eq!(leaves[1..], leaves_src[..]);
    for (d, e) in dividers[1..].iter().zip(&dividers_src) {
        assert_eq!((d.axis, d.rect, d.ratio, d.avail), (e.axis, e.rect, e.ratio, e.avail));
    }
}
