use vstd::prelude::*;
use crate::command::Command;
use crate::executor::{Config, Executor, ExecutorResult, MessageKey};
use crate::id::Rifl;
use crate::kvs::{applied, lookup, KVOp, KVOpResult, KVStore, Key, Value};
use crate::pending::{records_result, Expectation, Pending};

verus! {

/// One operation of a command, to be applied as soon as it arrives.
pub struct BasicExecutionInfo {
    pub rifl: Rifl,
    pub key: Key,
    pub op: KVOp,
}

impl BasicExecutionInfo {
    pub fn new(rifl: Rifl, key: Key, op: KVOp) -> (r: Self)
        ensures
            r == (BasicExecutionInfo { rifl, key, op }),
    {
        BasicExecutionInfo { rifl, key, op }
    }
}

impl MessageKey for BasicExecutionInfo {
    /// Basic payloads are routed by the key of their operation.
    fn key(&self) -> (r: Option<&Key>)
        ensures
            r == Some(&self.key),
    {
        Some(&self.key)
    }
}

/// Applies each operation on arrival, with no ordering of its own; it can
/// be sharded by key.
pub struct BasicExecutor {
    store: KVStore,
    results: Pending,
}

impl BasicExecutor {
    pub closed spec fn wf(&self) -> bool {
        self.store.wf() && self.results.wf()
    }

    pub closed spec fn store_view(&self) -> Map<Seq<char>, Value> {
        self.store@
    }

    pub closed spec fn pending_view(&self) -> Map<Rifl, Expectation> {
        self.results@
    }

    pub closed spec fn aggregates(&self) -> bool {
        self.results.aggregates()
    }

    /// An empty executor; `aggregate` selects the mode of its result tracker.
    pub fn with_mode(aggregate: bool) -> (r: Self)
        ensures
            r.wf(),
            r.store_view() == Map::<Seq<char>, Value>::empty(),
            r.pending_view() == Map::<Rifl, Expectation>::empty(),
            r.aggregates() == aggregate,
    {
        BasicExecutor { store: KVStore::new(), results: Pending::new(aggregate) }
    }

    /// Applies the operation and records its result.
    pub fn deliver(&mut self, info: BasicExecutionInfo) -> (r: Vec<ExecutorResult>)
        requires
            old(self).wf(),
        ensures
            final(self).wf(),
            final(self).aggregates() == old(self).aggregates(),
            final(self).store_view() == applied(old(self).store_view(), info.key@, info.op),
            r@.len() <= 1,
            records_result(
                old(self).pending_view(),
                old(self).aggregates(),
                info.rifl,
                info.key,
                lookup(old(self).store_view(), info.key@),
                final(self).pending_view(),
                if r@.len() == 0 {
                    None
                } else {
                    Some(r@[0])
                },
            ),
    {
        let result = self.store.execute(&info.key, info.op);
        let mut out: Vec<ExecutorResult> = Vec::new();
        match self.results.add_result(info.rifl, info.key, result) {
            Some(x) => out.push(x),
            None => {},
        }
        out
    }

    /// The value `key` holds in the executor's store.
    pub fn value(&self, key: &Key) -> (r: KVOpResult)
        requires
            self.wf(),
        ensures
            r == lookup(self.store_view(), key@),
    {
        self.store.get(key)
    }
}

impl Executor for BasicExecutor {
    type ExecutionInfo = BasicExecutionInfo;

    closed spec fn inv(&self) -> bool {
        self.wf()
    }

    fn new(config: Config) -> (r: Self)
        ensures
            r.store_view() == Map::<Seq<char>, Value>::empty(),
            r.pending_view() == Map::<Rifl, Expectation>::empty(),
            r.aggregates() == config.aggregate,
    {
        BasicExecutor::with_mode(config.aggregate)
    }

    fn wait_for(&mut self, cmd: &Command)
        ensures
            final(self).store_view() == old(self).store_view(),
            final(self).aggregates() == old(self).aggregates(),
            !old(self).pending_view().contains_key(cmd.rifl) ==> final(self).pending_view()
                == old(self).pending_view().insert(
                cmd.rifl,
                (cmd.ops@.len(), Seq::<(Key, KVOpResult)>::empty()),
            ),
            old(self).pending_view().contains_key(cmd.rifl) ==> final(self).pending_view()
                == old(self).pending_view(),
    {
        let _ = self.results.wait_for(cmd);
    }

    fn wait_for_rifl(&mut self, rifl: Rifl)
        ensures
            final(self).store_view() == old(self).store_view(),
            final(self).aggregates() == old(self).aggregates(),
            final(self).pending_view() == if old(self).pending_view().contains_key(rifl) {
                if old(self).pending_view()[rifl].0 < usize::MAX {
                    old(self).pending_view().insert(
                        rifl,
                        (old(self).pending_view()[rifl].0 + 1, old(self).pending_view()[rifl].1),
                    )
                } else {
                    old(self).pending_view()
                }
            } else {
                old(self).pending_view().insert(rifl, (1, Seq::<(Key, KVOpResult)>::empty()))
            },
    {
        if self.results.can_wait_for_rifl(rifl) {
            self.results.wait_for_rifl(rifl);
        }
    }

    fn handle(&mut self, infos: BasicExecutionInfo) -> (r: Vec<ExecutorResult>)
        ensures
            final(self).aggregates() == old(self).aggregates(),
            final(self).store_view() == applied(old(self).store_view(), infos.key@, infos.op),
            r@.len() <= 1,
            records_result(
                old(self).pending_view(),
                old(self).aggregates(),
                infos.rifl,
                infos.key,
                lookup(old(self).store_view(), infos.key@),
                final(self).pending_view(),
                if r@.len() == 0 {
                    None
                } else {
                    Some(r@[0])
                },
            ),
    {
        BasicExecutor::deliver(self, infos)
    }

    fn parallel() -> (r: bool)
        ensures
            r,
    {
        true
    }
}

} // verus!
