use vstd::prelude::*;

verus! {

/// The place of one record: the generation of its log file, the byte offset
/// where it starts, and the number of bytes it spans.
#[derive(Clone, Copy, Debug, PartialEq, Eq, Structural)]
pub struct LogPointer {
    pub generation: u64,
    pub offset: u64,
    pub length: u64,
}

impl LogPointer {
    pub fn new(generation: u64, offset: u64, length: u64) -> (r: LogPointer)
        ensures
            r.generation == generation,
            r.offset == offset,
            r.length == length,
    {
        LogPointer { generation, offset, length }
    }

    /// The pointer to the bytes `start..end` of the log file `generation`.
    pub fn from_range(generation: u64, start: u64, end: u64) -> (r: LogPointer)
        requires
            start <= end,
        ensures
            r.generation == generation,
            r.offset == start,
            r.length == end - start,
    {
        LogPointer { generation, offset: start, length: end - start }
    }
}

} // verus!
