//! Moving the focus from pane to pane by direction.

use crate::geometry::Rect;
use crate::layout::{Dir, PaneId};
use crate::scalar::Scalar;
use vstd::prelude::*;

verus! {

/// A distance that no pane can be reached over: the largest finite number.
pub const FARTHEST: u32 = 0x7F7F_FFFF;

/// How a pane lies as seen from the current one, as measured between the
/// centres of their rects.
#[derive(Clone, Copy, PartialEq, Eq, Structural, Debug)]
pub struct Gauge {
    /// The centre of the pane.
    pub x: Scalar,
    pub y: Scalar,
    /// One point short of the current centre, horizontally and vertically.
    pub left: Scalar,
    pub above: Scalar,
    /// One point past the current centre, horizontally and vertically.
    pub right: Scalar,
    pub below: Scalar,
    /// The distance of the two centres.
    pub distance: Scalar,
}

impl Gauge {
    /// Whether the pane lies in direction `dir`, by more than a point.
    pub open spec fn lies(self, dir: Dir) -> bool {
        match dir {
            Dir::Left => self.x.below(self.left),
            Dir::Right => self.right.below(self.x),
            Dir::Up => self.y.below(self.above),
            Dir::Down => self.below.below(self.y),
        }
    }

    /// Whether the pane lies in direction `dir`, by more than a point.
    pub fn in_dir(self, dir: Dir) -> (r: bool)
        ensures
            r == self.lies(dir),
    {
        match dir {
            Dir::Left => self.x.lt(self.left),
            Dir::Right => self.right.lt(self.x),
            Dir::Up => self.y.lt(self.above),
            Dir::Down => self.below.lt(self.y),
        }
    }
}

/// Whether two rects overlap on the axis perpendicular to `dir`.
pub open spec fn faces(r: Rect, cur: Rect, dir: Dir) -> bool {
    match dir {
        Dir::Left | Dir::Right => r.min_y.below(cur.max_y) && cur.min_y.below(r.max_y),
        Dir::Up | Dir::Down => r.min_x.below(cur.max_x) && cur.min_x.below(r.max_x),
    }
}

/// Whether two rects overlap on the axis perpendicular to `dir`.
pub fn overlaps(r: Rect, cur: Rect, dir: Dir) -> (b: bool)
    ensures
        b == faces(r, cur, dir),
{
    match dir {
        Dir::Left | Dir::Right => r.min_y.lt(cur.max_y) && cur.min_y.lt(r.max_y),
        Dir::Up | Dir::Down => r.min_x.lt(cur.max_x) && cur.min_x.lt(r.max_x),
    }
}

/// The rect of the first entry for `pane`.
pub open spec fn rect_of(leaves: Seq<(PaneId, Rect)>, pane: PaneId) -> Option<Rect>
    decreases leaves.len(),
{
    if leaves.len() == 0 {
        None
    } else if leaves[0].0 == pane {
        Some(leaves[0].1)
    } else {
        rect_of(leaves.drop_first(), pane)
    }
}

/// The rect of the first entry for `pane`.
pub fn pane_rect(leaves: &[(PaneId, Rect)], pane: PaneId) -> (rect: Option<Rect>)
    ensures
        rect == rect_of(leaves@, pane),
{
    let mut i: usize = 0;
    assert(leaves@.skip(0) =~= leaves@);
    while i < leaves.len()
        invariant
            i <= leaves@.len(),
            rect_of(leaves@, pane) == rect_of(leaves@.skip(i as int), pane),
        decreases leaves@.len() - i,
    {
        let (p, r) = leaves[i];
        if p == pane {
            return Some(r);
        }
        assert(leaves@.skip(i as int).drop_first() =~= leaves@.skip(i + 1));
        i = i + 1;
    }
    None
}

/// Whether the focus can move from `current`, which fills `cur`, to entry `i`:
/// another pane, which lies in `dir` and overlaps on the perpendicular axis.
pub open spec fn reachable(
    leaves: Seq<(PaneId, Rect)>,
    gauges: Seq<Gauge>,
    current: PaneId,
    cur: Rect,
    dir: Dir,
    i: int,
) -> bool {
    &&& 0 <= i < leaves.len()
    &&& leaves[i].0 != current
    &&& gauges[i].lies(dir)
    &&& faces(leaves[i].1, cur, dir)
    &&& gauges[i].distance.below(Scalar { bits: FARTHEST })
}

/// Whether entry `i` is the first of the nearest ones that the focus can move to.
pub open spec fn is_nearest(
    leaves: Seq<(PaneId, Rect)>,
    gauges: Seq<Gauge>,
    current: PaneId,
    cur: Rect,
    dir: Dir,
    i: int,
) -> bool {
    &&& reachable(leaves, gauges, current, cur, dir, i)
    &&& forall|j: int| #[trigger]
        reachable(leaves, gauges, current, cur, dir, j) ==> if j < i {
            gauges[i].distance.below(gauges[j].distance)
        } else {
            !gauges[j].distance.below(gauges[i].distance)
        }
}

/// Whether `found` is where the focus goes: to the first of the nearest panes,
/// and nowhere if `current` is not there or no other pane can be reached.
pub open spec fn leads_to(
    leaves: Seq<(PaneId, Rect)>,
    gauges: Seq<Gauge>,
    current: PaneId,
    dir: Dir,
    found: Option<PaneId>,
) -> bool {
    match rect_of(leaves, current) {
        None => found is None,
        Some(cur) => match found {
            None => forall|i: int| !#[trigger] reachable(leaves, gauges, current, cur, dir, i),
            Some(pane) => exists|i: int|
                #[trigger] is_nearest(leaves, gauges, current, cur, dir, i) && leaves[i].0 == pane,
        },
    }
}

/// Pick the pane to move to from `current` in direction `dir`, given how each
/// pane lies as seen from it.
pub fn nearest(leaves: &[(PaneId, Rect)], gauges: &[Gauge], current: PaneId, dir: Dir) -> (found:
    Option<PaneId>)
    requires
        gauges@.len() == leaves@.len(),
    ensures
        leads_to(leaves@, gauges@, current, dir, found),
{
    let cur = match pane_rect(leaves, current) {
        Some(cur) => cur,
        None => {
            return None;
        },
    };
    let mut best: Option<PaneId> = None;
    let mut best_dist = Scalar { bits: FARTHEST };
    let ghost mut at: int = 0;
    let mut i: usize = 0;
    while i < leaves.len()
        invariant
            i <= leaves@.len(),
            gauges@.len() == leaves@.len(),
            best is None ==> best_dist == (Scalar { bits: FARTHEST }) && forall|j: int|
                j < i ==> !#[trigger] reachable(leaves@, gauges@, current, cur, dir, j),
            best matches Some(pane) ==> {
                &&& at < i
                &&& reachable(leaves@, gauges@, current, cur, dir, at)
                &&& leaves@[at].0 == pane
                &&& best_dist == gauges@[at].distance
                &&& forall|j: int|
                    j < i && #[trigger] reachable(leaves@, gauges@, current, cur, dir, j) ==> if j
                        < at {
                        gauges@[at].distance.below(gauges@[j].distance)
                    } else {
                        !gauges@[j].distance.below(gauges@[at].distance)
                    }
            },
        decreases leaves@.len() - i,
    {
        let (pane, r) = leaves[i];
        let gauge = gauges[i];
        if pane != current && gauge.in_dir(dir) && overlaps(r, cur, dir) {
            if gauge.distance.lt(best_dist) {
                best_dist = gauge.distance;
                best = Some(pane);
                proof {
                    at = i as int;
                }
            }
        }
        i = i + 1;
    }
    proof {
        if best is Some {
            assert(is_nearest(leaves@, gauges@, current, cur, dir, at));
        }
    }
    best
}

/// Pick the best pane to move to from `current` in direction `dir`, given the
/// current geometry: the nearest pane that lies in `dir` and overlaps on the
/// perpendicular axis, so that navigation feels spatial. `gauge` measures how
/// its second rect lies as seen from its first: see [`Gauge`].
pub fn neighbor<G: Fn(Rect, Rect) -> Gauge>(
    leaves: &[(PaneId, Rect)],
    current: PaneId,
    dir: Dir,
    gauge: &G,
) -> (found: Option<PaneId>)
    requires
        forall|cur: Rect, r: Rect| call_requires(*gauge, (cur, r)),
    ensures
        exists|gauges: Seq<Gauge>|
            {
                &&& #[trigger] leads_to(leaves@, gauges, current, dir, found)
                &&& gauged(*gauge, leaves@, current, gauges)
            },
{
    let mut gauges: Vec<Gauge> = Vec::new();
    if let Some(cur) = pane_rect(leaves, current) {
        let mut i: usize = 0;
        while i < leaves.len()
            invariant
                i <= leaves@.len(),
                gauges@.len() == i,
                forall|a: Rect, b: Rect| call_requires(*gauge, (a, b)),
                forall|j: int|
                    0 <= j < i ==> call_ensures(*gauge, (cur, leaves@[j].1), #[trigger] gauges@[j]),
            decreases leaves@.len() - i,
        {
            gauges.push(gauge(cur, leaves[i].1));
            i = i + 1;
        }
        nearest(leaves, gauges.as_slice(), current, dir)
    } else {
        assert(leads_to(leaves@, gauges@, current, dir, None));
        None
    }
}

/// Whether `gauges` are what `gauge` measures of each pane from `current`.
pub open spec fn gauged<G: Fn(Rect, Rect) -> Gauge>(
    gauge: G,
    leaves: Seq<(PaneId, Rect)>,
    current: PaneId,
    gauges: Seq<Gauge>,
) -> bool {
    rect_of(leaves, current) matches Some(cur) ==> {
        &&& gauges.len() == leaves.len()
        &&& forall|j: int|
            0 <= j < leaves.len() ==> call_ensures(gauge, (cur, leaves[j].1), #[trigger] gauges[j])
    }
}

} // verus!
