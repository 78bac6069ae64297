use vstd::prelude::*;
use crate::id::{ProcessId, Rifl};

verus! {

/// Whether `x` occurs in `v`.
pub(crate) fn contains_rifl(v: &Vec<Rifl>, x: Rifl) -> (r: bool)
    ensures
        r == v@.contains(x),
{
    let mut i: usize = 0;
    while i < v.len()
        invariant
            i <= v@.len(),
            forall|j: int| 0 <= j < i ==> v@[j] != x,
        decreases v@.len() - i,
    {
        if v[i] == x {
            return true;
        }
        i = i + 1;
    }
    false
}

/// Adds to `into` each element of `from` it does not hold yet.
fn union_into(into: &mut Vec<Rifl>, from: &Vec<Rifl>)
    requires
        old(into)@.no_duplicates(),
    ensures
        final(into)@.no_duplicates(),
        final(into)@.to_set() == old(into)@.to_set().union(from@.to_set()),
{
    let ghost start = into@;
    let mut i: usize = 0;
    while i < from.len()
        invariant
            i <= from@.len(),
            into@.no_duplicates(),
            into@.to_set() == start.to_set().union(from@.subrange(0, i as int).to_set()),
        decreases from@.len() - i,
    {
        let x = from[i];
        let ghost before = into@;
        if !contains_rifl(into, x) {
            into.push(x);
            proof {
                before.lemma_push_to_set_commute(x);
            }
        }
        assert(from@.subrange(0, i + 1) == from@.subrange(0, i as int).push(x));
        proof {
            from@.subrange(0, i as int).lemma_push_to_set_commute(x);
            if before.contains(x) {
                assert(before.to_set().insert(x) =~= before.to_set());
            }
        }
        i = i + 1;
    }
    assert(from@.subrange(0, from@.len() as int) == from@);
}

/// The aggregated view of the reports gathered for one command: which
/// replicas reported, the largest clock reported, and the union of the
/// reported dependencies.
pub struct QuorumView {
    pub participants: Set<ProcessId>,
    pub clock: nat,
    pub deps: Set<Rifl>,
}

/// The aggregated view after one more report.
pub open spec fn with_report(
    q: QuorumView,
    process_id: ProcessId,
    clock: nat,
    deps: Set<Rifl>,
) -> QuorumView {
    QuorumView {
        participants: q.participants.insert(process_id),
        clock: if clock > q.clock { clock } else { q.clock },
        deps: q.deps.union(deps),
    }
}

/// The aggregated view after a sequence of reports, applied in order.
pub open spec fn with_reports(q: QuorumView, reports: Seq<(ProcessId, nat, Set<Rifl>)>) -> QuorumView
    decreases reports.len(),
{
    if reports.len() == 0 {
        q
    } else {
        let last = reports.last();
        with_report(with_reports(q, reports.drop_last()), last.0, last.1, last.2)
    }
}

/// Merges per-replica clock and dependency reports for one command. Once a
/// quorum of distinct replicas has reported, the aggregate is stable; later
/// reports only ever grow it.
pub struct QuorumClocks {
    quorum_size: usize,
    participants: Vec<ProcessId>,
    clock: u64,
    deps: Vec<Rifl>,
}

impl QuorumClocks {
    pub closed spec fn view(&self) -> QuorumView {
        QuorumView {
            participants: self.participants@.to_set(),
            clock: self.clock as nat,
            deps: self.deps@.to_set(),
        }
    }

    pub closed spec fn wf(&self) -> bool {
        self.participants@.no_duplicates() && self.deps@.no_duplicates()
    }

    pub closed spec fn quorum(&self) -> nat {
        self.quorum_size as nat
    }

    /// The aggregate is certified once `quorum()` distinct replicas reported.
    pub open spec fn stable(&self) -> bool {
        self.view().participants.len() >= self.quorum()
    }

    /// Creates an empty aggregate that needs `quorum_size` reports.
    pub fn new(quorum_size: usize) -> (r: Self)
        ensures
            r.wf(),
            r.quorum() == quorum_size,
            r.view() == (QuorumView { participants: Set::empty(), clock: 0, deps: Set::empty() }),
    {
        let r = QuorumClocks {
            quorum_size,
            participants: Vec::new(),
            clock: 0,
            deps: Vec::new(),
        };
        assert(r.participants@.to_set() =~= Set::empty());
        assert(r.deps@.to_set() =~= Set::empty());
        r
    }

    /// Records the report of `process_id`. A replica that already reported
    /// is not counted twice. Its new report takes the place of the earlier
    /// one in the count, but the aggregate only ever grows: the earlier
    /// report's clock and dependencies stay merged in, since a certified
    /// value is never retracted.
    pub fn add(&mut self, process_id: ProcessId, clock: u64, deps: &Vec<Rifl>)
        requires
            old(self).wf(),
        ensures
            final(self).wf(),
            final(self).quorum() == old(self).quorum(),
            final(self).view() == with_report(old(self).view(), process_id, clock as nat, deps@.to_set()),
    {
        let ghost before = self.participants@;
        if !contains_process(&self.participants, process_id) {
            self.participants.push(process_id);
            proof {
                before.lemma_push_to_set_commute(process_id);
            }
        } else {
            assert(before.to_set().insert(process_id) =~= before.to_set()) by {
                assert(before.to_set().contains(process_id));
            }
        }
        if clock > self.clock {
            self.clock = clock;
        }
        union_into(&mut self.deps, deps);
    }

    /// Whether a quorum of distinct replicas has reported.
    pub fn all(&self) -> (r: bool)
        requires
            self.wf(),
        ensures
            r == self.stable(),
    {
        proof {
            self.participants@.unique_seq_to_set();
        }
        self.participants.len() >= self.quorum_size
    }

    /// The aggregated clock and dependencies.
    pub fn aggregated(&self) -> (r: (u64, Vec<Rifl>))
        ensures
            r.0 == self.view().clock,
            r.1@.to_set() == self.view().deps,
    {
        (self.clock, self.deps.clone())
    }
}

/// Whether `x` occurs in `v`.
fn contains_process(v: &Vec<ProcessId>, x: ProcessId) -> (r: bool)
    ensures
        r == v@.contains(x),
{
    let mut i: usize = 0;
    while i < v.len()
        invariant
            i <= v@.len(),
            forall|j: int| 0 <= j < i ==> v@[j] != x,
        decreases v@.len() - i,
    {
        if v[i] == x {
            return true;
        }
        i = i + 1;
    }
    false
}

/// Once certified, the aggregate never shrinks: after any further reports
/// the clock is at least as large, the dependencies a superset, and the
/// aggregate still certified.
pub proof fn lemma_quorum_monotone(
    q: QuorumView,
    quorum: nat,
    reports: Seq<(ProcessId, nat, Set<Rifl>)>,
)
    requires
        q.participants.finite(),
        q.participants.len() >= quorum,
    ensures
        q.clock <= with_reports(q, reports).clock,
        q.deps.subset_of(with_reports(q, reports).deps),
        with_reports(q, reports).participants.finite(),
        with_reports(q, reports).participants.len() >= quorum,
    decreases reports.len(),
{
    if reports.len() > 0 {
        let prev = with_reports(q, reports.drop_last());
        lemma_quorum_monotone(q, quorum, reports.drop_last());
        let last = reports.last();
        assert(prev.participants.subset_of(prev.participants.insert(last.0)));
        vstd::set_lib::lemma_len_subset(prev.participants, prev.participants.insert(last.0));
    }
}

} // verus!
