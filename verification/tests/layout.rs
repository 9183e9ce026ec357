//! Pane trees: splitting, merging, closing and resizing.

use mockterm::geometry::{Marks, Rect, Span};
use mockterm::layout::{Axis, Tree, HALF, MAX_RATIO, MIN_RATIO};
use mockterm::scalar::Scalar;

fn scalar(x: f32) -> Scalar {
    Scalar { bits: x.to_bits() }
}

fn number(x: Scalar) -> f32 {
    f32::from_bits(x.bits)
}

fn area() -> Rect {
    Rect { min_x: scalar(0.0), min_y: scalar(0.0), max_x: scalar(400.0), max_y: scalar(300.0) }
}

fn mark(along: Span, across: Span, ratio: Scalar) -> Marks {
    let (start, end) = (number(along.start), number(along.end));
    let (top, bottom) = (number(across.start), number(across.end));
    let avail = ((end - start) - 8.0).max(0.0);
    let share = avail * number(ratio);
    Marks {
        avail: scalar(avail),
        first_end: scalar(start + share),
        second_start: scalar(start + share + 8.0),
        second_end: scalar(start + share + 8.0 + (avail - share)),
        cross_end: scalar(top + (bottom - top)),
    }
}

/// The ratios of the splits, in the order of their dividers.
fn ratios(tree: &Tree) -> Vec<f32> {
    tree.geometry(area(), &mark).1.iter().map(|d| number(d.ratio)).collect()
}

/// The arena indices of the splits, in the order of their dividers.
fn handles(tree: &Tree) -> Vec<usize> {
    tree.geometry(area(), &mark).1.iter().map(|d| d.node).collect()
}

#[test]
fn attach_merges_two_single_pane_tabs() {
    let mut a = Tree::new(1); // tab A: pane 1
    let b = Tree::new(2); // tab B: pane 2
    assert!(a.contains(1) && !a.contains(2));

    // Drop B onto pane 1, landing to the right.
    assert!(a.attach_subtree(1, &b, Axis::Horizontal, true));
    assert!(a.contains(1) && a.contains(2));

    let (leaves, dividers) = a.geometry(area(), &mark);
    assert_eq!(leaves.len(), 2, "both panes present");
    assert_eq!(dividers.len(), 1, "one divider between them");
    let p1 = leaves.iter().find(|(p, _)| *p == 1).unwrap().1;
    let p2 = leaves.iter().find(|(p, _)| *p == 2).unwrap().1;
    assert!(number(p1.min_x) < number(p2.min_x), "pane 1 is left of pane 2");
}

#[test]
fn attach_imports_a_whole_multi_pane_subtree() {
    let mut a = Tree::new(1);
    let mut b = Tree::new(2);
    b.split(2, 3, Axis::Vertical, true); // tab B holds panes 2 (top) and 3 (bottom)

    assert!(a.attach_subtree(1, &b, Axis::Horizontal, false)); // land on the left
    assert!(a.contains(1) && a.contains(2) && a.contains(3));

    let (leaves, _) = a.geometry(area(), &mark);
    assert_eq!(leaves.len(), 3, "all three panes tile the merged tab");
}

#[test]
fn panes_in_order_is_left_to_right() {
    let mut a = Tree::new(1);
    a.split(1, 2, Axis::Horizontal, true); // [1 | 2]
    a.split(2, 3, Axis::Horizontal, true); // [1 | [2 | 3]]
    assert_eq!(a.panes_in_order(), vec![1, 2, 3]);
}

#[test]
fn close_collapses_back_to_a_single_pane() {
    let mut a = Tree::new(1);
    let b = Tree::new(2);
    a.attach_subtree(1, &b, Axis::Horizontal, true);
    assert!(a.close(2));
    assert!(a.contains(1) && !a.contains(2));
    assert_eq!(a.geometry(area(), &mark).0.len(), 1);
}

#[test]
fn split_limits_are_the_numbers_they_stand_for() {
    assert_eq!(f32::from_bits(HALF), 0.5);
    assert_eq!(f32::from_bits(MIN_RATIO), 0.05);
    assert_eq!(f32::from_bits(MAX_RATIO), 0.95);
}

#[test]
fn split_before_puts_the_new_pane_first() {
    let mut tree = Tree::new(1);
    tree.split(1, 2, Axis::Vertical, false);
    assert_eq!(tree.panes_in_order(), vec![2, 1]);
    assert_eq!(tree.first_pane(), 2);
    assert_eq!(ratios(&tree), vec![0.5]);
}

#[test]
fn split_of_a_missing_pane_changes_nothing() {
    let mut tree = Tree::new(1);
    tree.split(7, 2, Axis::Vertical, true);
    assert_eq!(tree.panes_in_order(), vec![1]);
    assert!(!tree.contains(2));
}

#[test]
fn split_in_the_middle_keeps_the_rest_of_the_order() {
    let mut tree = Tree::new(1);
    tree.split(1, 2, Axis::Horizontal, true);
    tree.split(1, 3, Axis::Vertical, true);
    tree.split(3, 4, Axis::Vertical, false);
    assert_eq!(tree.panes_in_order(), vec![1, 4, 3, 2]);
}

#[test]
fn attach_lists_the_merged_panes_in_their_order() {
    let mut other = Tree::new(10);
    other.split(10, 11, Axis::Vertical, true);
    other.split(10, 12, Axis::Horizontal, true);
    assert_eq!(other.panes_in_order(), vec![10, 12, 11]);

    let mut tree = Tree::new(1);
    tree.split(1, 2, Axis::Horizontal, true);
    assert!(tree.attach_subtree(1, &other, Axis::Vertical, true));
    assert_eq!(tree.panes_in_order(), vec![1, 10, 12, 11, 2]);

    let mut before = Tree::new(1);
    assert!(before.attach_subtree(1, &other, Axis::Vertical, false));
    assert_eq!(before.panes_in_order(), vec![10, 12, 11, 1]);
    // The other tree is as it was.
    assert_eq!(other.panes_in_order(), vec![10, 12, 11]);
}

#[test]
fn attach_keeps_the_ratios_of_what_it_merges() {
    let mut other = Tree::new(10);
    other.split(10, 11, Axis::Vertical, true);
    other.set_ratio(0, scalar(0.25));

    let mut tree = Tree::new(1);
    assert!(tree.attach_subtree(1, &other, Axis::Horizontal, true));
    assert_eq!(ratios(&tree), vec![0.5, 0.25]);
}

#[test]
fn attach_to_a_missing_pane_is_refused() {
    let mut tree = Tree::new(1);
    let other = Tree::new(2);
    assert!(!tree.attach_subtree(9, &other, Axis::Horizontal, true));
    assert_eq!(tree.panes_in_order(), vec![1]);
}

#[test]
fn attach_of_one_pane_is_a_split() {
    let mut merged = Tree::new(1);
    let mut split = Tree::new(1);
    assert!(merged.attach_subtree(1, &Tree::new(2), Axis::Vertical, true));
    split.split(1, 2, Axis::Vertical, true);
    assert_eq!(merged.geometry(area(), &mark), split.geometry(area(), &mark));
}

#[test]
fn close_refuses_the_last_pane_and_a_missing_one() {
    let mut tree = Tree::new(1);
    assert!(!tree.close(1));
    assert!(!tree.close(2));
    assert_eq!(tree.panes_in_order(), vec![1]);
}

#[test]
fn close_lets_the_sibling_take_over() {
    // [1 | [[2 / 3] | 4]]
    let mut tree = Tree::new(1);
    tree.split(1, 2, Axis::Horizontal, true);
    tree.split(2, 4, Axis::Horizontal, true);
    tree.split(2, 3, Axis::Vertical, true);
    assert_eq!(tree.panes_in_order(), vec![1, 2, 3, 4]);
    assert!(tree.close(4));
    assert_eq!(tree.panes_in_order(), vec![1, 2, 3]);
    // The pair 2 / 3 now fills the whole right half.
    let (leaves, dividers) = tree.geometry(area(), &mark);
    assert_eq!(number(leaves[1].1.min_x), 204.0);
    assert_eq!(number(leaves[1].1.max_x), 400.0);
    assert_eq!(number(leaves[2].1.max_y), 300.0);
    assert_eq!(dividers.len(), 2);
    // Closing the root's first child makes its second child the root.
    assert!(tree.close(1));
    assert_eq!(tree.panes_in_order(), vec![2, 3]);
    assert_eq!(number(tree.geometry(area(), &mark).0[0].1.max_x), 400.0);
}

#[test]
fn close_undoes_a_split() {
    let mut tree = Tree::new(1);
    tree.split(1, 2, Axis::Horizontal, true);
    tree.set_ratio(0, scalar(0.3));
    let before = tree.geometry(area(), &mark);
    tree.split(2, 3, Axis::Vertical, false);
    assert!(tree.close(3));
    assert_eq!(tree.geometry(area(), &mark), before);
}

#[test]
fn close_frees_slots_for_the_next_split() {
    let mut tree = Tree::new(1);
    tree.split(1, 2, Axis::Horizontal, true);
    assert_eq!(handles(&tree), vec![0]);
    assert!(tree.close(2));
    // The slot of the split is handed out first, and that of the leaf after it.
    tree.split(1, 3, Axis::Horizontal, true);
    assert_eq!(handles(&tree), vec![1]);
    tree.split(3, 4, Axis::Vertical, true);
    assert_eq!(handles(&tree), vec![1, 2]);
    assert_eq!(tree.panes_in_order(), vec![1, 3, 4]);
    assert!(!tree.contains(2), "a freed slot is no match");
}

#[test]
fn close_takes_the_first_of_two_equal_panes() {
    let mut tree = Tree::new(1);
    tree.split(1, 2, Axis::Horizontal, true);
    tree.split(2, 1, Axis::Horizontal, true);
    assert_eq!(tree.panes_in_order(), vec![1, 2, 1]);
    assert!(tree.close(1));
    assert_eq!(tree.panes_in_order(), vec![2, 1]);
}

#[test]
fn focus_after_close_stays_beside_the_closed_pane() {
    // [1 | [[2 / 3] | 4]]
    let mut tree = Tree::new(1);
    tree.split(1, 2, Axis::Horizontal, true);
    tree.split(2, 4, Axis::Horizontal, true);
    tree.split(2, 3, Axis::Vertical, true);
    assert_eq!(tree.focus_after_close(1), Some(2));
    assert_eq!(tree.focus_after_close(2), Some(3));
    assert_eq!(tree.focus_after_close(3), Some(2));
    assert_eq!(tree.focus_after_close(4), Some(2));
    assert_eq!(tree.focus_after_close(5), None);
    assert_eq!(Tree::new(1).focus_after_close(1), None);
}

#[test]
fn set_ratio_is_kept_within_limits() {
    let mut tree = Tree::new(1);
    tree.split(1, 2, Axis::Horizontal, true);
    tree.set_ratio(0, scalar(0.7));
    assert_eq!(ratios(&tree), vec![0.7]);
    tree.set_ratio(0, scalar(0.01));
    assert_eq!(ratios(&tree), vec![0.05]);
    tree.set_ratio(0, scalar(-3.0));
    assert_eq!(ratios(&tree), vec![0.05]);
    tree.set_ratio(0, scalar(f32::INFINITY));
    assert_eq!(ratios(&tree), vec![0.95]);
    tree.set_ratio(0, scalar(f32::NAN));
    assert!(ratios(&tree)[0].is_nan());
}

#[test]
fn set_ratio_ignores_what_is_no_split() {
    let mut tree = Tree::new(1);
    tree.split(1, 2, Axis::Horizontal, true);
    tree.set_ratio(1, scalar(0.7)); // a leaf
    tree.set_ratio(99, scalar(0.7)); // outside the arena
    assert_eq!(ratios(&tree), vec![0.5]);
}

#[test]
fn set_ratio_of_a_freed_split_leaves_no_trace() {
    let mut tree = Tree::new(1);
    tree.split(1, 2, Axis::Horizontal, true);
    assert!(tree.close(2));
    tree.set_ratio(0, scalar(0.7));
    tree.split(1, 3, Axis::Horizontal, true);
    assert_eq!(ratios(&tree), vec![0.5]);
}

#[test]
fn set_ratio_touches_one_split_only() {
    let mut tree = Tree::new(1);
    tree.split(1, 2, Axis::Horizontal, true);
    tree.split(2, 3, Axis::Vertical, true);
    let inner = handles(&tree)[1];
    tree.set_ratio(inner, scalar(0.25));
    assert_eq!(ratios(&tree), vec![0.5, 0.25]);
}
