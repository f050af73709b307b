//! Interactive move and resize (SUPER+drag): which edges a resize drags,
//! the size a drag asks for, and the position fix-up once the client has
//! committed its new size.
use vstd::prelude::*;

use crate::layout::{fits_i32, half_gap, max_int, Point, Rect};

verus! {

/// The window edges a resize drags.
#[derive(Debug, Clone, Copy, PartialEq, Eq, Hash, Structural)]
pub struct ResizeEdge {
    pub top: bool,
    pub bottom: bool,
    pub left: bool,
    pub right: bool,
}

impl ResizeEdge {
    /// No edge.
    pub fn empty() -> (r: Self)
        ensures
            !r.top && !r.bottom && !r.left && !r.right,
    {
        ResizeEdge { top: false, bottom: false, left: false, right: false }
    }

    /// Every edge of either set.
    pub fn union(self, other: Self) -> (r: Self)
        ensures
            r.top == (self.top || other.top),
            r.bottom == (self.bottom || other.bottom),
            r.left == (self.left || other.left),
            r.right == (self.right || other.right),
    {
        ResizeEdge {
            top: self.top || other.top,
            bottom: self.bottom || other.bottom,
            left: self.left || other.left,
            right: self.right || other.right,
        }
    }

    /// The two sets share an edge.
    pub fn intersects(&self, other: &Self) -> (r: bool)
        ensures
            r == ((self.top && other.top) || (self.bottom && other.bottom) || (self.left
                && other.left) || (self.right && other.right)),
    {
        (self.top && other.top) || (self.bottom && other.bottom) || (self.left && other.left) || (
        self.right && other.right)
    }

    /// The set as bit flags: top 1, bottom 2, left 4, right 8.
    pub fn bits(&self) -> (r: u32)
        ensures
            r == (if self.top {
                1u32
            } else {
                0
            }) + (if self.bottom {
                2u32
            } else {
                0
            }) + (if self.left {
                4u32
            } else {
                0
            }) + (if self.right {
                8u32
            } else {
                0
            }),
    {
        let mut b: u32 = 0;
        if self.top {
            b = b + 1;
        }
        if self.bottom {
            b = b + 2;
        }
        if self.left {
            b = b + 4;
        }
        if self.right {
            b = b + 8;
        }
        b
    }
}

/// The edge pair closest to a point of a window: left or right of the
/// vertical middle line, above or below the horizontal one (the middle
/// itself counts as right and bottom).
pub open spec fn spec_edges_for_point(rect: Rect, px: int, py: int) -> ResizeEdge {
    let mid_x = rect.x + half_gap(rect.w as int);
    let mid_y = rect.y + half_gap(rect.h as int);
    ResizeEdge { top: py < mid_y, bottom: py >= mid_y, left: px < mid_x, right: px >= mid_x }
}

/// Picks the edges a resize started at pointer position (`px`, `py`)
/// drags.
pub fn edges_for_point(rect: &Rect, px: i32, py: i32) -> (r: ResizeEdge)
    requires
        fits_i32(rect.x + half_gap(rect.w as int)),
        fits_i32(rect.y + half_gap(rect.h as int)),
    ensures
        r == spec_edges_for_point(*rect, px as int, py as int),
{
    let mid_x = rect.x + rect.w / 2;
    let mid_y = rect.y + rect.h / 2;
    ResizeEdge { top: py < mid_y, bottom: py >= mid_y, left: px < mid_x, right: px >= mid_x }
}

/// One extent of a resized window: the requested extent, at least the
/// client's minimum (and at least 1), then at most its maximum (0 meaning
/// none).
pub open spec fn clamp_extent(v: int, min: int, max: int) -> int {
    let lo = max_int(min, 1);
    let hi = if max == 0 {
        i32::MAX as int
    } else {
        max
    };
    let a = max_int(v, lo);
    if a <= hi {
        a
    } else {
        hi
    }
}

fn clamp_one(v: i32, min: i32, max: i32) -> (r: i32)
    ensures
        r == clamp_extent(v as int, min as int, max as int),
{
    let lo = if min >= 1 {
        min
    } else {
        1
    };
    let hi = if max == 0 {
        i32::MAX
    } else {
        max
    };
    let a = if v >= lo {
        v
    } else {
        lo
    };
    if a <= hi {
        a
    } else {
        hi
    }
}

/// The size a resize drag asks the client for. `grown` is the size the
/// pointer motion gives along each axis (the initial extent plus the
/// pointer's travel, negated for a left or top edge); an axis the edges do
/// not drag keeps its initial extent. The result respects the client's
/// minimum and maximum sizes.
pub fn resize_size(
    edges: ResizeEdge,
    initial: Rect,
    grown: (i32, i32),
    min_size: (i32, i32),
    max_size: (i32, i32),
) -> (r: (i32, i32))
    ensures
        r.0 == clamp_extent(
            if edges.left || edges.right {
                grown.0 as int
            } else {
                initial.w as int
            },
            min_size.0 as int,
            max_size.0 as int,
        ),
        r.1 == clamp_extent(
            if edges.top || edges.bottom {
                grown.1 as int
            } else {
                initial.h as int
            },
            min_size.1 as int,
            max_size.1 as int,
        ),
{
    let w = if edges.left || edges.right {
        grown.0
    } else {
        initial.w
    };
    let h = if edges.top || edges.bottom {
        grown.1
    } else {
        initial.h
    };
    (clamp_one(w, min_size.0, max_size.0), clamp_one(h, min_size.1, max_size.1))
}

/// Where a resize stands, per window.
#[derive(Debug, Clone, Copy, PartialEq, Eq, Structural)]
pub enum ResizeState {
    /// No resize.
    Idle,
    /// A drag is under way from `initial`.
    Resizing { edges: ResizeEdge, initial: Rect },
    /// The drag ended; the client's last commit is awaited to fix up the
    /// position.
    WaitingForLastCommit { edges: ResizeEdge, initial: Rect },
}

/// The edges and initial rectangle of a resize in progress, if any.
pub open spec fn resize_of(s: ResizeState) -> Option<(ResizeEdge, Rect)> {
    match s {
        ResizeState::Idle => None,
        ResizeState::Resizing { edges, initial } => Some((edges, initial)),
        ResizeState::WaitingForLastCommit { edges, initial } => Some((edges, initial)),
    }
}

/// The state after a commit: a finished resize is over, anything else
/// stays.
pub open spec fn after_commit(s: ResizeState) -> ResizeState {
    match s {
        ResizeState::WaitingForLastCommit { .. } => ResizeState::Idle,
        _ => s,
    }
}

impl ResizeState {
    /// A drag begins.
    pub fn start(edges: ResizeEdge, initial: Rect) -> (r: Self)
        ensures
            r == (ResizeState::Resizing { edges, initial }),
    {
        ResizeState::Resizing { edges, initial }
    }

    /// The drag ended (every button released).
    pub fn finish(edges: ResizeEdge, initial: Rect) -> (r: Self)
        ensures
            r == (ResizeState::WaitingForLastCommit { edges, initial }),
    {
        ResizeState::WaitingForLastCommit { edges, initial }
    }

    /// Called on each commit of the window: the resize in progress (if
    /// any), ending it when it was only waiting for this commit.
    pub fn commit(&mut self) -> (r: Option<(ResizeEdge, Rect)>)
        ensures
            r == resize_of(*old(self)),
            *final(self) == after_commit(*old(self)),
    {
        match *self {
            ResizeState::Idle => None,
            ResizeState::Resizing { edges, initial } => Some((edges, initial)),
            ResizeState::WaitingForLastCommit { edges, initial } => {
                *self = ResizeState::Idle;
                Some((edges, initial))
            },
        }
    }
}

/// The position coordinates a resize by the top or left edge moves, once
/// the client has taken size `w` x `h`: the far edge stays put.
pub open spec fn moved_origin(edges: ResizeEdge, initial: Rect, w: int, h: int) -> (Option<int>, Option<int>) {
    if edges.top || edges.left {
        (
            if edges.left {
                Some(initial.x + (initial.w - w))
            } else {
                None
            },
            if edges.top {
                Some(initial.y + (initial.h - h))
            } else {
                None
            },
        )
    } else {
        (None, None)
    }
}

/// The fix-up arithmetic stays in range.
pub open spec fn origin_fits(initial: Rect, w: int, h: int) -> bool {
    &&& fits_i32(initial.w - w)
    &&& fits_i32(initial.x + (initial.w - w))
    &&& fits_i32(initial.h - h)
    &&& fits_i32(initial.y + (initial.h - h))
}

/// The position after commit: `loc` with the coordinates a top or left
/// resize moved replaced.
pub open spec fn fixed_location(s: ResizeState, loc: Point, w: int, h: int) -> Option<Point> {
    match resize_of(s) {
        None => None,
        Some((edges, initial)) => {
            let (nx, ny) = moved_origin(edges, initial, w, h);
            if nx is None && ny is None {
                None
            } else {
                Some(
                    Point {
                        x: match nx {
                            Some(x) => x as i32,
                            None => loc.x,
                        },
                        y: match ny {
                            Some(y) => y as i32,
                            None => loc.y,
                        },
                    },
                )
            }
        },
    }
}

/// Law: a commit during a resize keeps the far edges where they were. When
/// the left edge is dragged the window's right edge stays at the initial
/// right edge (and likewise the bottom edge when the top is dragged),
/// whether or not the other edge is dragged too; an edge that is not dragged
/// leaves its coordinate at the window's current position; and the window
/// is moved exactly when the left or top edge is dragged.
pub proof fn lemma_commit_keeps_far_edges(s: ResizeState, loc: Point, w: int, h: int)
    requires
        resize_of(s) matches Some((_, initial)) ==> origin_fits(initial, w, h),
    ensures
        resize_of(s) is None ==> fixed_location(s, loc, w, h) is None,
        resize_of(s) matches Some((edges, initial)) ==> {
            &&& fixed_location(s, loc, w, h) is Some <==> (edges.left || edges.top)
            &&& fixed_location(s, loc, w, h) matches Some(p) ==> {
                &&& edges.left ==> p.x + w == initial.x + initial.w
                &&& !edges.left ==> p.x == loc.x
                &&& edges.top ==> p.y + h == initial.y + initial.h
                &&& !edges.top ==> p.y == loc.y
            }
        },
{
}

/// On a commit of a window at `loc` whose geometry is now `w` x `h`:
/// advances the resize state and returns the window's new position when a
/// top or left resize moved it (`None` when it stays).
pub fn handle_commit(state: &mut ResizeState, loc: Point, w: i32, h: i32) -> (r: Option<Point>)
    requires
        resize_of(*old(state)) matches Some((_, initial)) ==> origin_fits(initial, w as int, h as int),
    ensures
        r == fixed_location(*old(state), loc, w as int, h as int),
        *final(state) == after_commit(*old(state)),
        resize_of(*old(state)) is None ==> r is None,
        resize_of(*old(state)) matches Some((edges, initial)) ==> {
            &&& r is Some <==> (edges.left || edges.top)
            &&& r matches Some(p) ==> {
                &&& edges.left ==> p.x + w == initial.x + initial.w
                &&& !edges.left ==> p.x == loc.x
                &&& edges.top ==> p.y + h == initial.y + initial.h
                &&& !edges.top ==> p.y == loc.y
            }
        },
{
    proof {
        lemma_commit_keeps_far_edges(*old(state), loc, w as int, h as int);
    }
    let (edges, initial) = match state.commit() {
        None => {
            return None;
        },
        Some(p) => p,
    };
    if !(edges.top || edges.left) {
        return None;
    }
    let nx = if edges.left {
        initial.x + (initial.w - w)
    } else {
        loc.x
    };
    let ny = if edges.top {
        initial.y + (initial.h - h)
    } else {
        loc.y
    };
    Some(Point { x: nx, y: ny })
}

} // verus!
