use vstd::prelude::*;
use crate::command::{Command, CommandResult};
use crate::executor::ExecutorResult;
use crate::id::Rifl;
use crate::kvs::{KVOpResult, Key};

verus! {

/// What is known of one tracked request: how many operation results are
/// still expected, and the results recorded so far, in arrival order.
pub type Expectation = (nat, Seq<(Key, KVOpResult)>);

struct PendingEntry {
    rifl: Rifl,
    remaining: usize,
    results: Vec<(Key, KVOpResult)>,
}

impl PendingEntry {
    spec fn expectation(&self) -> Expectation {
        (self.remaining as nat, self.results@)
    }
}

/// Tracks, per request, the operation results still outstanding, and builds
/// the client-visible results from them.
///
/// In aggregate mode every result that does not complete its request is also
/// handed out as `Partial`; in simple mode only the complete result is.
pub struct Pending {
    aggregate: bool,
    entries: Vec<PendingEntry>,
    model: Ghost<Map<Rifl, Expectation>>,
}

impl View for Pending {
    type V = Map<Rifl, Expectation>;

    closed spec fn view(&self) -> Map<Rifl, Expectation> {
        self.model@
    }
}

/// The state after recording one result `(key, result)` for `rifl`, given
/// the state `before`, and what is handed back.
pub open spec fn records_result(
    before: Map<Rifl, Expectation>,
    aggregate: bool,
    rifl: Rifl,
    key: Key,
    result: KVOpResult,
    after: Map<Rifl, Expectation>,
    out: Option<ExecutorResult>,
) -> bool {
    if !before.contains_key(rifl) {
        after == before && out is None
    } else {
        let remaining = before[rifl].0;
        let results = before[rifl].1.push((key, result));
        if remaining <= 1 {
            &&& after == before.remove(rifl)
            &&& out is Some
            &&& out->0 is Ready
            &&& out->0->Ready_0.rifl == rifl
            &&& out->0->Ready_0.results@ == results
        } else {
            &&& after == before.insert(rifl, ((remaining - 1) as nat, results))
            &&& out == if aggregate {
                Some(ExecutorResult::Partial(rifl, key, result))
            } else {
                None
            }
        }
    }
}

impl Pending {
    /// The table holds each request once.
    pub closed spec fn wf(&self) -> bool {
        &&& forall|i: int|
            0 <= i < self.entries@.len() ==> {
                &&& self.model@.contains_key(#[trigger] self.entries@[i].rifl)
                &&& self.model@[self.entries@[i].rifl] == self.entries@[i].expectation()
            }
        &&& forall|r: Rifl|
            #[trigger] self.model@.contains_key(r) ==> exists|i: int|
                0 <= i < self.entries@.len() && #[trigger] self.entries@[i].rifl == r
        &&& forall|i: int, j: int|
            0 <= i < self.entries@.len() && 0 <= j < self.entries@.len()
                && #[trigger] self.entries@[i].rifl == #[trigger] self.entries@[j].rifl ==> i == j
    }

    pub closed spec fn aggregates(&self) -> bool {
        self.aggregate
    }

    /// Whether one more expected result can be counted for `rifl`.
    pub open spec fn can_expect_more(&self, rifl: Rifl) -> bool {
        self@.contains_key(rifl) ==> self@[rifl].0 < usize::MAX
    }

    /// Creates an empty tracker; `aggregate` selects the mode.
    pub fn new(aggregate: bool) -> (r: Self)
        ensures
            r.wf(),
            r@ == Map::<Rifl, Expectation>::empty(),
            r.aggregates() == aggregate,
    {
        Pending { aggregate, entries: Vec::new(), model: Ghost(Map::empty()) }
    }

    fn find(&self, rifl: Rifl) -> (r: Option<usize>)
        requires
            self.wf(),
        ensures
            r matches Some(i) ==> i < self.entries@.len() && self.entries@[i as int].rifl == rifl,
            r is None ==> !self@.contains_key(rifl),
    {
        let mut i: usize = 0;
        while i < self.entries.len()
            invariant
                self.wf(),
                i <= self.entries@.len(),
                forall|j: int| 0 <= j < i ==> self.entries@[j].rifl != rifl,
            decreases self.entries@.len() - i,
        {
            if self.entries[i].rifl == rifl {
                return Some(i);
            }
            i = i + 1;
        }
        None
    }

    /// Takes entry `i` out of the table, with its request.
    fn take(&mut self, i: usize) -> (e: PendingEntry)
        requires
            old(self).wf(),
            i < old(self).entries@.len(),
        ensures
            e == old(self).entries@[i as int],
            old(self)@.contains_key(e.rifl),
            old(self)@[e.rifl] == e.expectation(),
            final(self).wf(),
            final(self)@ == old(self)@.remove(e.rifl),
            final(self).aggregate == old(self).aggregate,
    {
        let ghost before = self.entries@;
        let e = self.entries.remove(i);
        self.model = Ghost(self.model@.remove(e.rifl));
        assert forall|j: int| 0 <= j < self.entries@.len() implies self.entries@[j].rifl != e.rifl by {
            if j < i {
                assert(before[j] == self.entries@[j]);
            } else {
                assert(before[j + 1] == self.entries@[j]);
            }
        }
        assert forall|r: Rifl| #[trigger] self.model@.contains_key(r) implies exists|k: int|
            0 <= k < self.entries@.len() && #[trigger] self.entries@[k].rifl == r by {
            let k = choose|k: int| 0 <= k < before.len() && #[trigger] before[k].rifl == r;
            if k < i {
                assert(self.entries@[k].rifl == r);
            } else {
                assert(self.entries@[k - 1].rifl == r);
            }
        }
        e
    }

    /// Puts an entry for a request that is not tracked into the table.
    fn put(&mut self, e: PendingEntry)
        requires
            old(self).wf(),
            !old(self)@.contains_key(e.rifl),
        ensures
            final(self).wf(),
            final(self)@ == old(self)@.insert(e.rifl, e.expectation()),
            final(self).aggregate == old(self).aggregate,
    {
        let ghost before = self.entries@;
        let ghost rifl = e.rifl;
        let ghost exp = e.expectation();
        self.entries.push(e);
        self.model = Ghost(self.model@.insert(rifl, exp));
        assert(self.entries@[before.len() as int].rifl == rifl);
        assert forall|j: int| 0 <= j < before.len() implies self.entries@[j].rifl != rifl by {
            assert(self.entries@[j] == before[j]);
            if self.entries@[j].rifl == rifl {
                assert(old(self).model@.contains_key(before[j].rifl));
            }
        }
        assert forall|r: Rifl| #[trigger] self.model@.contains_key(r) implies exists|k: int|
            0 <= k < self.entries@.len() && #[trigger] self.entries@[k].rifl == r by {
            if r != rifl {
                let k = choose|k: int| 0 <= k < before.len() && #[trigger] before[k].rifl == r;
                assert(self.entries@[k].rifl == r);
            }
        }
    }

    /// Starts tracking a command: one result is expected per operation.
    /// Returns whether tracking was newly created; a request already tracked
    /// is left as it is. A command without operations expects no result; the
    /// first result recorded for it completes it.
    pub fn wait_for(&mut self, cmd: &Command) -> (r: bool)
        requires
            old(self).wf(),
        ensures
            final(self).wf(),
            final(self).aggregates() == old(self).aggregates(),
            r == !old(self)@.contains_key(cmd.rifl),
            r ==> final(self)@ == old(self)@.insert(
                cmd.rifl,
                (cmd.ops@.len(), Seq::<(Key, KVOpResult)>::empty()),
            ),
            !r ==> final(self)@ == old(self)@,
    {
        let count = cmd.key_count();
        match self.find(cmd.rifl()) {
            Some(_) => false,
            None => {
                let e = PendingEntry { rifl: cmd.rifl(), remaining: count, results: Vec::new() };
                self.put(e);
                true
            },
        }
    }

    /// Expects one more result for `rifl`, tracking it if it was not.
    pub fn wait_for_rifl(&mut self, rifl: Rifl)
        requires
            old(self).wf(),
            old(self).can_expect_more(rifl),
        ensures
            final(self).wf(),
            final(self).aggregates() == old(self).aggregates(),
            final(self)@ == old(self)@.insert(
                rifl,
                if old(self)@.contains_key(rifl) {
                    (old(self)@[rifl].0 + 1, old(self)@[rifl].1)
                } else {
                    (1, Seq::<(Key, KVOpResult)>::empty())
                },
            ),
    {
        match self.find(rifl) {
            Some(i) => {
                let mut e = self.take(i);
                e.remaining = e.remaining + 1;
                self.put(e);
            },
            None => {
                let e = PendingEntry { rifl, remaining: 1, results: Vec::new() };
                self.put(e);
            },
        }
    }

    /// Whether `wait_for_rifl` may count one more result for `rifl`.
    pub fn can_wait_for_rifl(&self, rifl: Rifl) -> (r: bool)
        requires
            self.wf(),
        ensures
            r == self.can_expect_more(rifl),
    {
        match self.find(rifl) {
            Some(i) => self.entries[i].remaining < usize::MAX,
            None => true,
        }
    }

    /// Records the result of one operation of `rifl`. A request that is not
    /// tracked is ignored. When the last expected result arrives the request
    /// stops being tracked and its complete result is returned.
    pub fn add_result(&mut self, rifl: Rifl, key: Key, result: KVOpResult) -> (r: Option<
        ExecutorResult,
    >)
        requires
            old(self).wf(),
        ensures
            final(self).wf(),
            final(self).aggregates() == old(self).aggregates(),
            records_result(old(self)@, old(self).aggregates(), rifl, key, result, final(self)@, r),
    {
        match self.find(rifl) {
            None => None,
            Some(i) => {
                let mut e = self.take(i);
                e.results.push((key.clone(), result));
                if e.remaining <= 1 {
                    let out = Some(ExecutorResult::Ready(CommandResult { rifl, results: e.results }));
                    assert(records_result(old(self)@, old(self).aggregates(), rifl, key, result, self@, out));
                    out
                } else {
                    e.remaining = e.remaining - 1;
                    self.put(e);
                    assert(self@ == old(self)@.insert(rifl, ((old(self)@[rifl].0 - 1) as nat, old(self)@[rifl].1.push((key, result)))));
                    if self.aggregate {
                        Some(ExecutorResult::Partial(rifl, key, result))
                    } else {
                        None
                    }
                }
            },
        }
    }

    /// Records the result of one operation of `rifl`, computed by `partial`
    /// only when `rifl` is tracked.
    pub fn add_partial<P>(&mut self, rifl: Rifl, partial: P) -> (r: Option<ExecutorResult>) where
        P: FnOnce() -> (Key, KVOpResult),

        requires
            old(self).wf(),
            partial.requires(()),
        ensures
            final(self).wf(),
            final(self).aggregates() == old(self).aggregates(),
            !old(self)@.contains_key(rifl) ==> final(self)@ == old(self)@ && r is None,
            old(self)@.contains_key(rifl) ==> exists|p: (Key, KVOpResult)|
                #[trigger] partial.ensures((), p) && records_result(
                    old(self)@,
                    old(self).aggregates(),
                    rifl,
                    p.0,
                    p.1,
                    final(self)@,
                    r,
                ),
    {
        match self.find(rifl) {
            None => None,
            Some(_) => {
                let (key, result) = partial();
                self.add_result(rifl, key, result)
            },
        }
    }
}

proof fn lemma_expectation_at(
    states: Seq<Map<Rifl, Expectation>>,
    outs: Seq<Option<ExecutorResult>>,
    aggregate: bool,
    rifl: Rifl,
    records: Seq<(Key, KVOpResult)>,
    i: int,
)
    requires
        states.len() == records.len() + 1,
        outs.len() == records.len(),
        states[0].contains_key(rifl),
        states[0][rifl].0 >= 1,
        forall|j: int|
            0 <= j < records.len() ==> records_result(
                states[j],
                aggregate,
                rifl,
                records[j].0,
                records[j].1,
                states[j + 1],
                #[trigger] outs[j],
            ),
        0 <= i <= records.len(),
    ensures
        i < states[0][rifl].0 ==> states[i].contains_key(rifl) && states[i][rifl] == (
            (states[0][rifl].0 - i) as nat,
            states[0][rifl].1 + records.subrange(0, i),
        ),
        i >= states[0][rifl].0 ==> !states[i].contains_key(rifl),
    decreases i,
{
    if i == 0 {
        assert(states[0][rifl].1 + records.subrange(0, 0) =~= states[0][rifl].1);
    } else {
        lemma_expectation_at(states, outs, aggregate, rifl, records, i - 1);
        assert(records_result(
            states[i - 1],
            aggregate,
            rifl,
            records[i - 1].0,
            records[i - 1].1,
            states[i],
            outs[i - 1],
        ));
        assert(states[0][rifl].1 + records.subrange(0, i) =~= (states[0][rifl].1
            + records.subrange(0, i - 1)).push(records[i - 1]));
    }
}

/// A request completes exactly once: when it expects `k` results and results
/// for it are recorded one after another, the `k`-th record hands out the
/// complete result, holding every result recorded so far, and no other
/// record does; later records hand out nothing.
pub proof fn lemma_ready_exactly_once(
    states: Seq<Map<Rifl, Expectation>>,
    outs: Seq<Option<ExecutorResult>>,
    aggregate: bool,
    rifl: Rifl,
    records: Seq<(Key, KVOpResult)>,
)
    requires
        states.len() == records.len() + 1,
        outs.len() == records.len(),
        states[0].contains_key(rifl),
        states[0][rifl].0 >= 1,
        forall|j: int|
            0 <= j < records.len() ==> records_result(
                states[j],
                aggregate,
                rifl,
                records[j].0,
                records[j].1,
                states[j + 1],
                #[trigger] outs[j],
            ),
    ensures
        forall|j: int|
            0 <= j < records.len() ==> ((#[trigger] outs[j] is Some && outs[j]->0 is Ready) <==> j
                + 1 == states[0][rifl].0),
        forall|j: int|
            0 <= j < records.len() && j + 1 == states[0][rifl].0 ==> (#[trigger] outs[j])->0->Ready_0.results@
                == states[0][rifl].1 + records.subrange(0, j + 1),
        forall|j: int| 0 <= j < records.len() && j + 1 > states[0][rifl].0 ==> #[trigger] outs[j] is None,
{
    assert forall|j: int| 0 <= j < records.len() implies ((#[trigger] outs[j] is Some
        && outs[j]->0 is Ready) <==> j + 1 == states[0][rifl].0) && (j + 1 == states[0][rifl].0
        ==> outs[j]->0->Ready_0.results@ == states[0][rifl].1 + records.subrange(0, j + 1)) && (j + 1
        > states[0][rifl].0 ==> outs[j] is None) by {
        lemma_expectation_at(states, outs, aggregate, rifl, records, j);
        assert(records_result(states[j], aggregate, rifl, records[j].0, records[j].1, states[j + 1], outs[j]));
        assert(states[0][rifl].1 + records.subrange(0, j + 1) =~= (states[0][rifl].1
            + records.subrange(0, j)).push(records[j]));
    }
}

} // verus!
