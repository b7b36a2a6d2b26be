use vstd::prelude::*;

use crate::grid::{get_x, grid_x};

verus! {

/// The points `start + (end - start) * i / step_count`, rounded up, for
/// `i = 0 .. step_count`: `[start, end)` cut into equal steps.
pub struct NumRangeIterator {
    start: i32,
    end: i32,
    step_count: usize,
    current_index: usize,
}

impl NumRangeIterator {
    /// Cuts `[start, end)` into `step_count` equal steps.
    pub fn new(start: i32, end: i32, step_count: usize) -> (r: Self)
        ensures
            r.wf(),
            r.bounds() == (start as int, end as int, step_count as int),
            r.position() == 0,
    {
        NumRangeIterator { start, end, step_count, current_index: 0 }
    }

    /// The bounds and the number of steps.
    pub closed spec fn bounds(&self) -> (int, int, int) {
        (self.start as int, self.end as int, self.step_count as int)
    }

    /// How many points have been handed out.
    pub closed spec fn position(&self) -> int {
        self.current_index as int
    }

    /// The walk has not gone past its last point.
    pub closed spec fn wf(&self) -> bool {
        self.current_index <= self.step_count
    }

    /// The next point, or `None` once all `step_count` points were handed out.
    pub fn next(&mut self) -> (r: Option<i32>)
        requires
            old(self).wf(),
        ensures
            final(self).wf(),
            final(self).bounds() == old(self).bounds(),
            ({
                let (start, end, n) = old(self).bounds();
                let i = old(self).position();
                if i < n {
                    &&& r == Some(grid_x(start, end, n, i) as i32)
                    &&& final(self).position() == i + 1
                } else {
                    &&& r is None
                    &&& final(self).position() == i
                }
            }),
    {
        let i = self.current_index;
        if i >= self.step_count {
            return None;
        }
        self.current_index = i + 1;
        Some(get_x(self.start, self.end, self.step_count, i))
    }
}

} // verus!
