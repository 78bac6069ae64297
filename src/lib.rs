//! Execution layer of a replicated key-value state machine: per-command
//! result tracking, dependency-graph ordering, and key/quorum clocks.
pub mod basic;
pub mod clocks;
pub mod command;
pub mod executor;
pub mod graph;
pub mod id;
pub mod keys;
pub mod kvs;
pub mod pending;

pub use basic::{BasicExecutionInfo, BasicExecutor};
pub use clocks::QuorumClocks;
pub use command::{Command, CommandResult};
pub use executor::{Config, Executor, ExecutorResult, MessageKey};
pub use graph::{GraphExecutionInfo, GraphExecutor};
pub use id::{ClientId, ProcessId, Rifl};
pub use keys::SequentialKeyClocks;
pub use kvs::{KVOp, KVOpResult, KVStore, Key, Value};
pub use pending::Pending;
