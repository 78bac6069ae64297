use vstd::prelude::*;
use crate::command::{Command, CommandResult};
use crate::id::{ClientId, Rifl};
use crate::kvs::{KVOpResult, Key};

verus! {

/// Protocol parameters an executor is built from.
#[derive(Clone, Copy, Debug, PartialEq, Eq, Structural)]
pub struct Config {
    /// Number of replicas.
    pub n: usize,
    /// Number of tolerated faults.
    pub f: usize,
    /// Whether results of single operations are also handed out.
    pub aggregate: bool,
}

impl Config {
    pub fn new(n: usize, f: usize, aggregate: bool) -> (r: Config)
        ensures
            r == (Config { n, f, aggregate }),
    {
        Config { n, f, aggregate }
    }
}

/// Routing of execution payloads to executor partitions.
pub trait MessageKey {
    /// The key that selects the partition. With `None` the payload goes to
    /// the single executor; a runtime with several partitions cannot route
    /// it.
    fn key(&self) -> Option<&Key> {
        None
    }
}

/// One execution strategy: it learns which commands to wait for, consumes
/// execution payloads, and returns the results that became available.
pub trait Executor: Sized {
    type ExecutionInfo: MessageKey;

    /// The strategy's own state invariant.
    spec fn inv(&self) -> bool;

    fn new(config: Config) -> (r: Self)
        ensures
            r.inv(),
    ;

    /// Must precede any `handle` that can complete `cmd`.
    fn wait_for(&mut self, cmd: &Command)
        requires
            old(self).inv(),
        ensures
            final(self).inv(),
    ;

    /// Parallel executors may receive several waits for the same request.
    fn wait_for_rifl(&mut self, rifl: Rifl)
        requires
            old(self).inv(),
        ensures
            final(self).inv(),
    ;

    fn handle(&mut self, infos: Self::ExecutionInfo) -> (r: Vec<ExecutorResult>)
        requires
            old(self).inv(),
        ensures
            final(self).inv(),
    ;

    /// Whether instances may be sharded by key; payloads must then expose a
    /// key.
    fn parallel() -> bool;

    fn show_metrics(&self) {
    }
}

/// What an executor hands back to the client-facing side.
pub enum ExecutorResult {
    /// A complete command result.
    Ready(CommandResult),
    /// The result of one operation of a command.
    Partial(Rifl, Key, KVOpResult),
}

impl ExecutorResult {
    /// The request this result belongs to.
    pub open spec fn rifl_of(self) -> Rifl {
        match self {
            ExecutorResult::Ready(cmd_result) => cmd_result.rifl,
            ExecutorResult::Partial(rifl, _, _) => rifl,
        }
    }

    /// The client that should receive this result.
    pub fn client(&self) -> (r: ClientId)
        ensures
            r == self.rifl_of().source,
    {
        match self {
            ExecutorResult::Ready(cmd_result) => cmd_result.rifl().source(),
            ExecutorResult::Partial(rifl, _, _) => rifl.source(),
        }
    }

    /// Extracts the complete result; only meaningful on `Ready`.
    pub fn unwrap_ready(self) -> (r: CommandResult)
        requires
            self is Ready,
        ensures
            self == ExecutorResult::Ready(r),
    {
        match self {
            ExecutorResult::Ready(cmd_result) => cmd_result,
            ExecutorResult::Partial(_, _, _) => {
                proof {
                    assert(false);
                }
                unreached()
            },
        }
    }

    /// Extracts the partial result; only meaningful on `Partial`.
    pub fn unwrap_partial(self) -> (r: (Rifl, Key, KVOpResult))
        requires
            self is Partial,
        ensures
            self == ExecutorResult::Partial(r.0, r.1, r.2),
    {
        match self {
            ExecutorResult::Partial(rifl, key, result) => (rifl, key, result),
            ExecutorResult::Ready(_) => {
                proof {
                    assert(false);
                }
                unreached()
            },
        }
    }
}

} // verus!
