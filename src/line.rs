//! Rasterized line segments, as drawn by `line_drawing`'s Bresenham walk.

use vstd::prelude::*;

verus! {

/// Largest coordinate magnitude for which the Bresenham walk's own
/// arithmetic stays within `isize`.
pub const MAX_LINE_COORD: isize = 0x0fff_ffff;

/// The lattice points that `line_drawing::Bresenham` walks from `from` to
/// `to`, in order.
pub uninterp spec fn line_points(from: (isize, isize), to: (isize, isize)) -> Seq<(isize, isize)>;

/// Whether `p` is small enough for the walk's arithmetic.
pub open spec fn coord_in_range(p: (isize, isize)) -> bool {
    -MAX_LINE_COORD <= p.0 <= MAX_LINE_COORD && -MAX_LINE_COORD <= p.1 <= MAX_LINE_COORD
}

pub open spec fn abs(v: int) -> int {
    if v < 0 { -v } else { v }
}

/// Number of points in the walk: one per step along the longer axis, both
/// ends included.
pub open spec fn line_len(from: (isize, isize), to: (isize, isize)) -> int {
    let dx = abs(to.0 - from.0);
    let dy = abs(to.1 - from.1);
    (if dx < dy { dy } else { dx }) + 1
}

/// Relies on `line_drawing::Bresenham::new` and its `Iterator::next`: the
/// walk yields `line_len` points, the first of them the start point. The
/// result is the point at position `k`, or `None` past the end.
#[verifier::external_body]
pub(crate) fn line_point(from: (isize, isize), to: (isize, isize), k: usize) -> (r: Option<(isize, isize)>)
    requires
        coord_in_range(from),
        coord_in_range(to),
    ensures
        r == (if k < line_len(from, to) { Some(line_points(from, to)[k as int]) } else { None }),
        k == 0 ==> r == Some(from),
{
    line_drawing::Bresenham::new(from, to).nth(k)
}

} // verus!
