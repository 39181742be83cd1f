//! The chart-facing helpers that are pure index arithmetic: the window
//! slide, and the chart-kind vocabulary.

use vstd::prelude::*;

verus! {

/// How a chart is drawn.
#[derive(Clone, Copy, Debug, PartialEq, Eq, Structural)]
pub enum ChartKind {
    STICK,
    LINE,
    CANDLES,
}

/// Where a window of unchanged width lands after sliding `delta` steps of
/// `curr_step` points: clamped to start no earlier than zero and to end no
/// later than `data_size`.
pub open spec fn slide_spec(
    view_range: (usize, usize),
    delta: int,
    curr_step: int,
    data_size: int,
) -> (int, int) {
    let gap = view_range.1 - view_range.0;
    let lo = if view_range.0 + curr_step * delta >= 0 {
        view_range.0 + curr_step * delta
    } else {
        0
    };
    if lo + gap > data_size {
        (data_size - gap, data_size)
    } else {
        (lo, lo + gap)
    }
}

/// Slides the visible window `delta` steps of `curr_step` points along data
/// of `data_size` points, keeping its width: the window never starts before
/// zero nor ends past the data.
pub fn slide(view_range: (usize, usize), delta: i32, curr_step: usize, data_size: usize) -> (r: (
    usize,
    usize,
))
    requires
        view_range.0 <= view_range.1,
        view_range.1 - view_range.0 <= data_size,
        view_range.0 <= i32::MAX,
        view_range.1 <= i32::MAX,
        data_size <= i32::MAX,
        curr_step <= i32::MAX,
        (curr_step as int) * (delta as int) + view_range.1 <= i32::MAX,
        (curr_step as int) * (delta as int) >= i32::MIN,
    ensures
        (r.0 as int, r.1 as int) == slide_spec(
            view_range,
            delta as int,
            curr_step as int,
            data_size as int,
        ),
        r.1 - r.0 == view_range.1 - view_range.0,
        r.1 <= data_size,
{
    let gap = (view_range.1 - view_range.0) as i32;
    let lo = view_range.0 as i32 + (curr_step as i32) * delta;
    let lo = if lo > 0 {
        lo
    } else {
        0
    };
    let hi = lo + gap;
    if hi > data_size as i32 {
        (data_size - gap as usize, data_size)
    } else {
        (lo as usize, hi as usize)
    }
}

} // verus!
