use vstd::prelude::*;

verus! {

/// The screen line that no click lands on; a tracker reset to it cannot
/// complete a double click.
pub const NO_LINE: usize = 10000;

/// One mouse click: the screen line it hit and when, in milliseconds.
#[derive(Copy, Clone, Debug)]
pub struct ClickData {
    pub time: u128,
    pub line: usize,
}

/// Whether `next` completes a double click begun by `prev`: the same line,
/// less than `delay` milliseconds later.
pub open spec fn double_click(prev: ClickData, next: ClickData, delay: u128) -> bool {
    prev.line == next.line && next.time - prev.time < delay
}

impl ClickData {
    /// A click on `line` at `time` milliseconds.
    pub fn new(line: usize, time: u128) -> (r: ClickData)
        ensures
            r.line == line,
            r.time == time,
    {
        ClickData { time, line }
    }

    /// Whether `other` completes a double click with this click under a
    /// threshold of `delay` milliseconds. A click on another line never
    /// does, whatever the times; on the same line `other` must come no
    /// earlier.
    pub fn is_double(&self, other: &ClickData, delay: u128) -> (r: bool)
        requires
            self.line == other.line ==> self.time <= other.time,
        ensures
            r == double_click(*self, *other, delay),
    {
        if self.line != other.line {
            return false;
        }
        other.time - self.time < delay
    }
}

impl Default for ClickData {
    /// The reset tracker: a click on no line at time zero.
    fn default() -> (r: ClickData)
        ensures
            r.line == NO_LINE,
            r.time == 0,
    {
        ClickData::new(NO_LINE, 0)
    }
}

} // verus!
