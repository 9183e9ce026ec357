//! Where panes and dividers lie on the screen.

use crate::layout::{Axis, PaneId};
use crate::scalar::Scalar;
use crate::shape::Shape;
use vstd::prelude::*;

verus! {

/// Thickness of the draggable divider gap between two panes, in points: 8.
pub const DIVIDER: u32 = 0x4100_0000;

/// The length that the children of a split must share more than for its divider
/// to be dragged: 1.
pub const MIN_AVAIL: u32 = 0x3F80_0000;

/// A rectangle on the screen, from its top left to its bottom right corner.
#[derive(Clone, Copy, PartialEq, Eq, Structural, Debug)]
pub struct Rect {
    pub min_x: Scalar,
    pub min_y: Scalar,
    pub max_x: Scalar,
    pub max_y: Scalar,
}

/// The extent of a rectangle in one direction.
#[derive(Clone, Copy, PartialEq, Eq, Structural, Debug)]
pub struct Span {
    pub start: Scalar,
    pub end: Scalar,
}

/// Where a split cuts its area, as computed from the extent of the area along
/// the split axis, its extent across it, and the ratio.
#[derive(Clone, Copy, PartialEq, Eq, Structural, Debug)]
pub struct Marks {
    /// Length that the two children share: the whole length less the divider,
    /// and never negative.
    pub avail: Scalar,
    /// Where the first child ends and the divider starts.
    pub first_end: Scalar,
    /// Where the divider ends and the second child starts.
    pub second_start: Scalar,
    /// Where the second child ends.
    pub second_end: Scalar,
    /// Where all three end across the axis.
    pub cross_end: Scalar,
}

/// A divider handle produced by the geometry pass.
#[derive(Clone, Copy, PartialEq, Eq, Structural, Debug)]
pub struct Divider {
    /// Arena index of the split this divider belongs to.
    pub node: usize,
    pub axis: Axis,
    /// On-screen rect of the draggable handle.
    pub rect: Rect,
    /// Current split ratio of the owning node (first child's share).
    pub ratio: Scalar,
    /// Resizable extent along the split axis (total length minus divider).
    pub avail: Scalar,
}

/// The marks of all the splits of a tree, arranged as the splits are.
pub enum Cuts {
    Whole,
    Cut { marks: Marks, a: Box<Cuts>, b: Box<Cuts> },
}

impl Rect {
    /// The extent along an axis.
    pub open spec fn spec_along(self, axis: Axis) -> Span {
        match axis {
            Axis::Horizontal => Span { start: self.min_x, end: self.max_x },
            Axis::Vertical => Span { start: self.min_y, end: self.max_y },
        }
    }

    /// The extent across an axis.
    pub open spec fn spec_across(self, axis: Axis) -> Span {
        match axis {
            Axis::Horizontal => Span { start: self.min_y, end: self.max_y },
            Axis::Vertical => Span { start: self.min_x, end: self.max_x },
        }
    }

    /// The rectangle with the given extents along and across an axis.
    pub open spec fn spanning(axis: Axis, along: Span, across: Span) -> Rect {
        match axis {
            Axis::Horizontal => Rect {
                min_x: along.start,
                min_y: across.start,
                max_x: along.end,
                max_y: across.end,
            },
            Axis::Vertical => Rect {
                min_x: across.start,
                min_y: along.start,
                max_x: across.end,
                max_y: along.end,
            },
        }
    }

    /// The part of this rectangle between two marks along an axis.
    pub open spec fn part(self, axis: Axis, start: Scalar, end: Scalar, marks: Marks) -> Rect {
        Rect::spanning(
            axis,
            Span { start, end },
            Span { start: self.spec_across(axis).start, end: marks.cross_end },
        )
    }

    /// The first child, the divider and the second child of a split.
    pub open spec fn parts(self, axis: Axis, marks: Marks) -> (Rect, Rect, Rect) {
        (
            self.part(axis, self.spec_along(axis).start, marks.first_end, marks),
            self.part(axis, marks.first_end, marks.second_start, marks),
            self.part(axis, marks.second_start, marks.second_end, marks),
        )
    }

    /// The extent along an axis.
    #[verifier::when_used_as_spec(spec_along)]
    pub fn along(self, axis: Axis) -> (span: Span)
        ensures
            span == self.spec_along(axis),
    {
        match axis {
            Axis::Horizontal => Span { start: self.min_x, end: self.max_x },
            Axis::Vertical => Span { start: self.min_y, end: self.max_y },
        }
    }

    /// The extent across an axis.
    #[verifier::when_used_as_spec(spec_across)]
    pub fn across(self, axis: Axis) -> (span: Span)
        ensures
            span == self.spec_across(axis),
    {
        match axis {
            Axis::Horizontal => Span { start: self.min_y, end: self.max_y },
            Axis::Vertical => Span { start: self.min_x, end: self.max_x },
        }
    }

    /// The rects of a split: first child, divider and second child, side by side
    /// along the axis, from the start of this rect on.
    pub fn divide(self, axis: Axis, marks: Marks) -> (parts: (Rect, Rect, Rect))
        ensures
            parts == self.parts(axis, marks),
    {
        match axis {
            Axis::Horizontal => (
                Rect { max_x: marks.first_end, max_y: marks.cross_end, ..self },
                Rect {
                    min_x: marks.first_end,
                    min_y: self.min_y,
                    max_x: marks.second_start,
                    max_y: marks.cross_end,
                },
                Rect {
                    min_x: marks.second_start,
                    min_y: self.min_y,
                    max_x: marks.second_end,
                    max_y: marks.cross_end,
                },
            ),
            Axis::Vertical => (
                Rect { max_x: marks.cross_end, max_y: marks.first_end, ..self },
                Rect {
                    min_x: self.min_x,
                    min_y: marks.first_end,
                    max_x: marks.cross_end,
                    max_y: marks.second_start,
                },
                Rect {
                    min_x: self.min_x,
                    min_y: marks.second_start,
                    max_x: marks.cross_end,
                    max_y: marks.second_end,
                },
            ),
        }
    }
}

impl Divider {
    /// How far a drag by `dx` and `dy` moves the divider along its axis; `None`
    /// where there is too little room to resize anything.
    pub open spec fn dragged(self, dx: Scalar, dy: Scalar) -> Option<Scalar> {
        if (Scalar { bits: MIN_AVAIL }).below(self.avail) {
            match self.axis {
                Axis::Horizontal => Some(dx),
                Axis::Vertical => Some(dy),
            }
        } else {
            None
        }
    }

    /// How far a drag by `dx` and `dy` moves the divider along its axis. As a
    /// share of `avail`, that is what the ratio is to grow by.
    pub fn drag(&self, dx: Scalar, dy: Scalar) -> (along: Option<Scalar>)
        ensures
            along == self.dragged(dx, dy),
    {
        let least = Scalar { bits: MIN_AVAIL };
        if least.lt(self.avail) {
            match self.axis {
                Axis::Horizontal => Some(dx),
                Axis::Vertical => Some(dy),
            }
        } else {
            None
        }
    }
}

impl Cuts {
    /// Whether these are marks that the splits of a tree which fills `rect` can
    /// get, where `given` says which marks go with which arguments.
    pub open spec fn made_by(
        self,
        given: spec_fn(Span, Span, Scalar, Marks) -> bool,
        shape: Shape,
        rect: Rect,
    ) -> bool
        decreases shape,
    {
        match shape {
            Shape::Leaf { .. } => self is Whole,
            Shape::Split { axis, ratio, a, b, .. } => {
                &&& self matches Cuts::Cut { marks, a: ca, b: cb }
                &&& given(rect.along(axis), rect.across(axis), ratio, marks)
                &&& ca.made_by(given, *a, rect.parts(axis, marks).0)
                &&& cb.made_by(given, *b, rect.parts(axis, marks).2)
            },
        }
    }

    /// The panes of a tree that fills `rect`, each with its rect, in tree order.
    pub open spec fn panes(self, shape: Shape, rect: Rect) -> Seq<(PaneId, Rect)>
        decreases shape,
    {
        match shape {
            Shape::Leaf { pane, .. } => seq![(pane, rect)],
            Shape::Split { axis, a, b, .. } => match self {
                Cuts::Whole => Seq::empty(),
                Cuts::Cut { marks, a: ca, b: cb } => {
                    let (ra, _, rb) = rect.parts(axis, marks);
                    ca.panes(*a, ra) + cb.panes(*b, rb)
                },
            },
        }
    }

    /// The dividers of a tree that fills `rect`, that of a split before those
    /// of its children.
    pub open spec fn dividers(self, shape: Shape, rect: Rect) -> Seq<Divider>
        decreases shape,
    {
        match shape {
            Shape::Leaf { .. } => Seq::empty(),
            Shape::Split { slot, axis, ratio, a, b } => match self {
                Cuts::Whole => Seq::empty(),
                Cuts::Cut { marks, a: ca, b: cb } => {
                    let (ra, handle, rb) = rect.parts(axis, marks);
                    seq![
                        Divider {
                            node: slot as usize,
                            axis,
                            rect: handle,
                            ratio,
                            avail: marks.avail,
                        },
                    ] + ca.dividers(*a, ra) + cb.dividers(*b, rb)
                },
            },
        }
    }
}

/// Which marks `mark` can give for which arguments.
pub open spec fn given_by<M: Fn(Span, Span, Scalar) -> Marks>(mark: M) -> spec_fn(
    Span,
    Span,
    Scalar,
    Marks,
) -> bool {
    |along: Span, across: Span, ratio: Scalar, marks: Marks|
        call_ensures(mark, (along, across, ratio), marks)
}

/// Whether `leaves` and `dividers` are the panes and the dividers of a tree that
/// fills `area`, where `mark` does the arithmetic of each split.
pub open spec fn tiled<M: Fn(Span, Span, Scalar) -> Marks>(
    mark: M,
    shape: Shape,
    area: Rect,
    leaves: Seq<(PaneId, Rect)>,
    dividers: Seq<Divider>,
) -> bool {
    exists|cuts: Cuts|
        {
            &&& #[trigger] cuts.made_by(given_by(mark), shape, area)
            &&& leaves == cuts.panes(shape, area)
            &&& dividers == cuts.dividers(shape, area)
        }
}

/// The marks that a tree was laid out by.
pub proof fn lemma_tiled<M: Fn(Span, Span, Scalar) -> Marks>(
    mark: M,
    shape: Shape,
    area: Rect,
    leaves: Seq<(PaneId, Rect)>,
    dividers: Seq<Divider>,
) -> (cuts: Cuts)
    requires
        tiled(mark, shape, area, leaves, dividers),
    ensures
        cuts.made_by(given_by(mark), shape, area),
        leaves == cuts.panes(shape, area),
        dividers == cuts.dividers(shape, area),
{
    choose|cuts: Cuts|
        {
            &&& #[trigger] cuts.made_by(given_by(mark), shape, area)
            &&& leaves == cuts.panes(shape, area)
            &&& dividers == cuts.dividers(shape, area)
        }
}

} // verus!
