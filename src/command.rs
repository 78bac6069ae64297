use vstd::prelude::*;
use crate::id::Rifl;
use crate::kvs::{KVOp, KVOpResult, Key};

verus! {

/// A client request: a batch of operations, each on one key, executed as one
/// unit.
pub struct Command {
    pub rifl: Rifl,
    pub ops: Vec<(Key, KVOp)>,
}

impl Command {
    pub fn new(rifl: Rifl, ops: Vec<(Key, KVOp)>) -> (r: Command)
        ensures
            r.rifl == rifl,
            r.ops@ == ops@,
    {
        Command { rifl, ops }
    }

    pub fn rifl(&self) -> (r: Rifl)
        ensures
            r == self.rifl,
    {
        self.rifl
    }

    /// Number of operations, one per key touched.
    pub fn key_count(&self) -> (r: usize)
        ensures
            r == self.ops@.len(),
    {
        self.ops.len()
    }
}

/// The result of a whole command: one entry per executed operation, in the
/// order the results were recorded.
pub struct CommandResult {
    pub rifl: Rifl,
    pub results: Vec<(Key, KVOpResult)>,
}

impl CommandResult {
    pub fn rifl(&self) -> (r: Rifl)
        ensures
            r == self.rifl,
    {
        self.rifl
    }

    pub fn results(&self) -> (r: &Vec<(Key, KVOpResult)>)
        ensures
            r@ == self.results@,
    {
        &self.results
    }
}

} // verus!
