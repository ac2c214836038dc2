use vstd::prelude::*;

verus! {

/// A non-empty run of consecutive arena indices, `[start, start + length)`.
///
/// Slot zero of an arena always holds the root, so a run of children never
/// starts there.
#[derive(Debug, Clone, Copy, PartialEq, Eq, Structural)]
pub struct IdxRange {
    pub start: usize,
    pub length: u8,
}

impl IdxRange {
    /// A range is well formed when it is non-empty, does not start at the
    /// root slot and its end is still an index.
    pub open spec fn wf(&self) -> bool {
        &&& self.start > 0
        &&& self.length > 0
        &&& self.start + self.length <= usize::MAX
    }

    /// One past the last index of the range.
    pub open spec fn end(&self) -> int {
        self.start + self.length
    }

    /// Whether `index` lies inside the range.
    pub open spec fn contains(&self, index: int) -> bool {
        self.start <= index < self.end()
    }

    /// The range from `start` up to, but without, `end`.
    pub fn new(start: usize, end: usize) -> (r: IdxRange)
        requires
            0 < start < end,
            end - start <= u8::MAX,
        ensures
            r.wf(),
            r.start == start,
            r.length == end - start,
            r.end() == end,
    {
        IdxRange { start, length: (end - start) as u8 }
    }

    /// The indices of the range, in order.
    pub fn iter(&self) -> (r: std::ops::Range<usize>)
        requires
            self.wf(),
        ensures
            r.start == self.start,
            r.end == self.end(),
    {
        self.start..(self.start + self.length as usize)
    }

    /// The index at place `index` of the range.
    pub fn get(&self, index: usize) -> (r: usize)
        requires
            self.wf(),
            index < self.length,
        ensures
            r == self.start + index,
            self.contains(r as int),
    {
        self.start + index
    }
}

} // verus!
