use vstd::prelude::*;

verus! {

/// The tail of the log: the generation of the active log file and the length
/// it has reached, where the next record goes.
#[derive(Clone, Copy, Debug, PartialEq, Eq, Structural)]
pub struct LogWriter {
    pub generation: u64,
    pub current_position: u64,
}

impl LogWriter {
    /// A writer at the start of a fresh log file.
    pub fn new(generation: u64) -> (r: LogWriter)
        ensures
            r.generation == generation,
            r.current_position == 0,
    {
        LogWriter { generation, current_position: 0 }
    }

    /// The offset at which the next record is written.
    pub fn current_position(&self) -> (r: u64)
        ensures
            r == self.current_position,
    {
        self.current_position
    }

    /// The generation of the active log file.
    pub fn current_generation(&self) -> (r: u64)
        ensures
            r == self.generation,
    {
        self.generation
    }
}

} // verus!
