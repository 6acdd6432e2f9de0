use vstd::prelude::*;

verus! {

/// A range of byte offsets into a source text, `start..end`, with `start <= end`.
#[derive(Clone, Copy, Debug, PartialEq, Eq, Structural)]
pub struct TextRange {
    pub start: u32,
    pub end: u32,
}

impl TextRange {
    /// The range `start..end` (`TextRange::new`, which refuses a start after the end).
    pub fn new(start: u32, end: u32) -> (r: TextRange)
        requires
            start <= end,
        ensures
            r.start == start,
            r.end == end,
    {
        TextRange { start, end }
    }

    /// The range holds no byte.
    pub fn is_empty(&self) -> (b: bool)
        ensures
            b == (self.start == self.end),
    {
        self.start == self.end
    }
}

} // verus!
