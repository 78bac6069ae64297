use vstd::prelude::*;
use crate::clocks::contains_rifl;
use crate::command::{Command, CommandResult};
use crate::executor::{Config, Executor, ExecutorResult, MessageKey};
use crate::id::Rifl;
use crate::kvs::KVOpResult;
use crate::kvs::{applied, lookup, KVOp, KVStore, Key, Value};
use crate::pending::{records_result, Expectation, Pending};

verus! {

/// A delivered command with the dependency set and clock the agreement layer
/// certified for it.
pub struct GraphExecutionInfo {
    pub cmd: Command,
    pub deps: Vec<Rifl>,
    pub clock: u64,
}

impl MessageKey for GraphExecutionInfo {
    /// Graph payloads all go to the single executor.
    fn key(&self) -> (r: Option<&Key>)
        ensures
            r is None,
    {
        None
    }
}

impl GraphExecutionInfo {
    pub fn new(cmd: Command, deps: Vec<Rifl>, clock: u64) -> (r: Self)
        ensures
            r.cmd == cmd,
            r.deps@ == deps@,
            r.clock == clock,
    {
        GraphExecutionInfo { cmd, deps, clock }
    }
}

/// Whether the nodes of `nodes` at the indices in `s` form a closed batch:
/// every dependency of each of them is either in `done` or is the request
/// of a node in the batch.
pub open spec fn closed_batch(nodes: Seq<GraphExecutionInfo>, done: Set<Rifl>, s: Set<int>) -> bool {
    &&& forall|i: int| #[trigger] s.contains(i) ==> 0 <= i < nodes.len()
    &&& forall|i: int, d: Rifl|
        s.contains(i) && #[trigger] nodes[i].deps@.contains(d) ==> done.contains(d) || exists|j: int|
            s.contains(j) && #[trigger] nodes[j].cmd.rifl == d
}

/// Whether node `v` can run: some closed batch holds it.
pub open spec fn executable(nodes: Seq<GraphExecutionInfo>, done: Set<Rifl>, v: int) -> bool {
    exists|s: Set<int>| #[trigger] closed_batch(nodes, done, s) && s.contains(v)
}

/// Each request occurs in at most one node.
pub open spec fn distinct_requests(nodes: Seq<GraphExecutionInfo>) -> bool {
    forall|i: int, j: int|
        0 <= i < nodes.len() && 0 <= j < nodes.len() && #[trigger] nodes[i].cmd.rifl
            == #[trigger] nodes[j].cmd.rifl ==> i == j
}

/// Index of the node that carries `rifl`, if any.
fn find_node(nodes: &Vec<GraphExecutionInfo>, rifl: Rifl) -> (r: Option<usize>)
    ensures
        r matches Some(i) ==> i < nodes@.len() && nodes@[i as int].cmd.rifl == rifl,
        r is None ==> forall|j: int| 0 <= j < nodes@.len() ==> nodes@[j].cmd.rifl != rifl,
{
    let mut i: usize = 0;
    while i < nodes.len()
        invariant
            i <= nodes@.len(),
            forall|j: int| 0 <= j < i ==> nodes@[j].cmd.rifl != rifl,
        decreases nodes@.len() - i,
    {
        if nodes[i].cmd.rifl == rifl {
            return Some(i);
        }
        i = i + 1;
    }
    None
}

/// Whether `x` occurs in `v`.
fn contains_index(v: &Vec<usize>, x: usize) -> (r: bool)
    ensures
        r == v@.contains(x),
{
    let mut i: usize = 0;
    while i < v.len()
        invariant
            i <= v@.len(),
            forall|j: int| 0 <= j < i ==> v@[j] != x,
        decreases v@.len() - i,
    {
        if v[i] == x {
            return true;
        }
        i = i + 1;
    }
    false
}

/// The indices held by `v`, as a set of `int`.
pub open spec fn index_set(v: Seq<usize>) -> Set<int> {
    Set::new(|i: int| exists|k: int| 0 <= k < v.len() && v[k] as int == i)
}

proof fn lemma_distinct_indices_bounded(v: Seq<usize>, n: nat)
    requires
        v.no_duplicates(),
        forall|k: int| 0 <= k < v.len() ==> v[k] < n,
    ensures
        v.len() <= n,
{
    let m = v.map_values(|x: usize| x as int);
    assert forall|a: int, b: int| 0 <= a < m.len() && 0 <= b < m.len() && a != b implies m[a]
        != m[b] by {
        assert(v[a] != v[b]);
    }
    assert(m.no_duplicates());
    m.unique_seq_to_set();
    assert(m.to_set().subset_of(vstd::set_lib::set_int_range(0, n as int))) by {
        assert forall|x: int| m.to_set().contains(x) implies vstd::set_lib::set_int_range(
            0,
            n as int,
        ).contains(x) by {
            let k = choose|k: int| 0 <= k < m.len() && m[k] == x;
        }
    }
    vstd::set_lib::lemma_int_range(0, n as int);
    vstd::set_lib::lemma_len_subset(m.to_set(), vstd::set_lib::set_int_range(0, n as int));
}

proof fn lemma_index_set_len(v: Seq<usize>)
    requires
        v.no_duplicates(),
    ensures
        index_set(v).finite(),
        index_set(v).len() == v.len(),
{
    let m = v.map_values(|x: usize| x as int);
    assert forall|a: int, b: int| 0 <= a < m.len() && 0 <= b < m.len() && a != b implies m[a]
        != m[b] by {
        assert(v[a] != v[b]);
    }
    m.unique_seq_to_set();
    assert forall|i: int| index_set(v).contains(i) <==> m.to_set().contains(i) by {
        if index_set(v).contains(i) {
            let k = choose|k: int| 0 <= k < v.len() && v[k] as int == i;
            assert(m[k] == i);
        }
        if m.to_set().contains(i) {
            let k = choose|k: int| 0 <= k < m.len() && m[k] == i;
            assert(v[k] as int == i);
        }
    }
    assert(index_set(v) =~= m.to_set());
}

/// A closed batch lies within the nodes, so it is finite and no larger than
/// them.
proof fn lemma_closed_batch_finite(nodes: Seq<GraphExecutionInfo>, done: Set<Rifl>, s: Set<int>)
    requires
        closed_batch(nodes, done, s),
    ensures
        s.finite(),
{
    vstd::set_lib::lemma_int_range(0, nodes.len() as int);
    assert(s.subset_of(vstd::set_lib::set_int_range(0, nodes.len() as int)));
    vstd::set_lib::lemma_len_subset(s, vstd::set_lib::set_int_range(0, nodes.len() as int));
}

/// The closure of node `v` under dependencies that are not in `done`: the
/// smallest closed batch holding `v`, or `None` when some node reachable from
/// `v` waits for a request that has not been delivered.
fn closure(nodes: &Vec<GraphExecutionInfo>, done: &Vec<Rifl>, v: usize) -> (r: Option<Vec<usize>>)
    requires
        v < nodes@.len(),
        distinct_requests(nodes@),
    ensures
        r matches Some(c) ==> {
            &&& c@.no_duplicates()
            &&& c@.contains(v)
            &&& closed_batch(nodes@, done@.to_set(), index_set(c@))
            &&& forall|s: Set<int>|
                #[trigger] closed_batch(nodes@, done@.to_set(), s) && s.contains(v as int)
                    ==> index_set(c@).subset_of(s)
        },
        r is None ==> !executable(nodes@, done@.to_set(), v as int),
{
    let n = nodes.len();
    let mut set: Vec<usize> = Vec::new();
    set.push(v);
    let mut k: usize = 0;
    while k < set.len()
        invariant
            n == nodes@.len(),
            v < n,
            distinct_requests(nodes@),
            set@.no_duplicates(),
            set@.len() >= 1,
            set@[0] == v,
            k <= set@.len(),
            forall|m: int| 0 <= m < set@.len() ==> set@[m] < n,
            forall|s: Set<int>|
                #[trigger] closed_batch(nodes@, done@.to_set(), s) && s.contains(v as int)
                    ==> forall|m: int| 0 <= m < set@.len() ==> s.contains(set@[m] as int),
            forall|m: int, d: Rifl|
                0 <= m < k && #[trigger] nodes@[set@[m] as int].deps@.contains(d)
                    ==> done@.contains(d) || exists|p: int|
                    0 <= p < set@.len() && #[trigger] nodes@[set@[p] as int].cmd.rifl == d,
        decreases n - k,
    {
        proof {
            lemma_distinct_indices_bounded(set@, n as nat);
        }
        let u = set[k];
        let deps = &nodes[u].deps;
        let mut j: usize = 0;
        while j < deps.len()
            invariant
                n == nodes@.len(),
                v < n,
                distinct_requests(nodes@),
                set@.no_duplicates(),
                set@.len() >= 1,
                set@[0] == v,
                k < set@.len(),
                u == set@[k as int],
                deps@ == nodes@[u as int].deps@,
                j <= deps@.len(),
                forall|m: int| 0 <= m < set@.len() ==> set@[m] < n,
                forall|s: Set<int>|
                    #[trigger] closed_batch(nodes@, done@.to_set(), s) && s.contains(v as int)
                        ==> forall|m: int| 0 <= m < set@.len() ==> s.contains(set@[m] as int),
                forall|m: int, d: Rifl|
                    0 <= m < k && #[trigger] nodes@[set@[m] as int].deps@.contains(d)
                        ==> done@.contains(d) || exists|p: int|
                        0 <= p < set@.len() && #[trigger] nodes@[set@[p] as int].cmd.rifl == d,
                forall|q: int|
                    0 <= q < j ==> done@.contains(#[trigger] deps@[q]) || exists|p: int|
                        0 <= p < set@.len() && #[trigger] nodes@[set@[p] as int].cmd.rifl
                            == deps@[q],
            decreases deps@.len() - j,
        {
            let d = deps[j];
            if !contains_rifl(done, d) {
                match find_node(nodes, d) {
                    None => {
                        proof {
                            assert forall|s: Set<int>|
                                closed_batch(nodes@, done@.to_set(), s) implies !s.contains(
                                v as int,
                            ) by {
                                if s.contains(v as int) {
                                    assert(s.contains(u as int));
                                    assert(nodes@[u as int].deps@.contains(d));
                                    assert(!done@.to_set().contains(d));
                                    let w = choose|w: int|
                                        s.contains(w) && #[trigger] nodes@[w].cmd.rifl == d;
                                    assert(0 <= w < n);
                                }
                            }
                        }
                        return None;
                    },
                    Some(w) => {
                        let ghost before = set@;
                        if !contains_index(&set, w) {
                            set.push(w);
                            proof {
                                assert forall|s: Set<int>|
                                    #[trigger] closed_batch(nodes@, done@.to_set(), s)
                                        && s.contains(v as int) implies forall|m: int|
                                    0 <= m < set@.len() ==> s.contains(set@[m] as int) by {
                                    assert(s.contains(u as int));
                                    assert(nodes@[u as int].deps@.contains(d));
                                    let w2 = choose|w2: int|
                                        s.contains(w2) && #[trigger] nodes@[w2].cmd.rifl == d;
                                    assert(w2 == w as int);
                                    assert forall|m: int| 0 <= m < set@.len() implies s.contains(
                                        set@[m] as int,
                                    ) by {
                                        if m < before.len() {
                                            assert(set@[m] == before[m]);
                                        }
                                    }
                                }
                                assert forall|m: int, e: Rifl|
                                    0 <= m < k && #[trigger] nodes@[set@[m] as int].deps@.contains(
                                        e,
                                    ) implies done@.contains(e) || exists|p: int|
                                    0 <= p < set@.len() && #[trigger] nodes@[set@[p] as int].cmd.rifl
                                        == e by {
                                    assert(set@[m] == before[m]);
                                    if !done@.contains(e) {
                                        let p = choose|p: int|
                                            0 <= p < before.len()
                                                && #[trigger] nodes@[before[p] as int].cmd.rifl == e;
                                        assert(set@[p] == before[p]);
                                    }
                                }
                                assert forall|q: int| 0 <= q < j implies done@.contains(
                                    #[trigger] deps@[q],
                                ) || exists|p: int|
                                    0 <= p < set@.len() && #[trigger] nodes@[set@[p] as int].cmd.rifl
                                        == deps@[q] by {
                                    if !done@.contains(deps@[q]) {
                                        let p = choose|p: int|
                                            0 <= p < before.len()
                                                && #[trigger] nodes@[before[p] as int].cmd.rifl
                                                == deps@[q];
                                        assert(set@[p] == before[p]);
                                    }
                                }
                                assert(nodes@[set@[before.len() as int] as int].cmd.rifl == d);
                            }
                        } else {
                            let ghost p = choose|p: int| 0 <= p < set@.len() && set@[p] == w;
                            assert(nodes@[set@[p] as int].cmd.rifl == d);
                        }
                    },
                }
            }
            j = j + 1;
        }
        k = k + 1;
    }
    proof {
        let s = index_set(set@);
        assert forall|i: int| #[trigger] s.contains(i) implies 0 <= i < nodes@.len() by {
            let m = choose|m: int| 0 <= m < set@.len() && set@[m] as int == i;
        }
        assert forall|i: int, d: Rifl|
            s.contains(i) && #[trigger] nodes@[i].deps@.contains(d) implies done@.to_set().contains(
            d,
        ) || exists|j: int| s.contains(j) && #[trigger] nodes@[j].cmd.rifl == d by {
            let m = choose|m: int| 0 <= m < set@.len() && set@[m] as int == i;
            assert(nodes@[set@[m] as int].deps@.contains(d));
            if !done@.contains(d) {
                let p = choose|p: int|
                    0 <= p < set@.len() && #[trigger] nodes@[set@[p] as int].cmd.rifl == d;
                assert(s.contains(set@[p] as int));
            }
        }
        assert(set@.contains(v)) by {
            assert(set@[0] == v);
        }
        assert forall|s2: Set<int>|
            #[trigger] closed_batch(nodes@, done@.to_set(), s2) && s2.contains(v as int)
                implies index_set(set@).subset_of(s2) by {
            assert forall|i: int| index_set(set@).contains(i) implies s2.contains(i) by {
                let m = choose|m: int| 0 <= m < set@.len() && set@[m] as int == i;
            }
        }
    }
    Some(set)
}

/// Whether no closed batch with a node is strictly inside `s`.
pub open spec fn minimal_closed(nodes: Seq<GraphExecutionInfo>, done: Set<Rifl>, s: Set<int>) -> bool {
    forall|s2: Set<int>, w: int|
        #[trigger] closed_batch(nodes, done, s2) && s2.subset_of(s) && #[trigger] s2.contains(w) ==> s2 == s
}

proof fn lemma_intersect_closed(nodes: Seq<GraphExecutionInfo>, done: Set<Rifl>, s1: Set<int>, s2: Set<int>)
    requires
        distinct_requests(nodes),
        closed_batch(nodes, done, s1),
        closed_batch(nodes, done, s2),
    ensures
        closed_batch(nodes, done, s1.intersect(s2)),
{
    let s = s1.intersect(s2);
    assert forall|i: int, d: Rifl|
        s.contains(i) && #[trigger] nodes[i].deps@.contains(d) implies done.contains(d) || exists|j: int|
            s.contains(j) && #[trigger] nodes[j].cmd.rifl == d by {
        if !done.contains(d) {
            let j1 = choose|j: int| s1.contains(j) && #[trigger] nodes[j].cmd.rifl == d;
            let j2 = choose|j: int| s2.contains(j) && #[trigger] nodes[j].cmd.rifl == d;
            assert(0 <= j1 < nodes.len() && 0 <= j2 < nodes.len());
            assert(j1 == j2);
            assert(s.contains(j1));
        }
    }
}

/// `a` is `b` or comes before it.
pub open spec fn at_most(a: Rifl, b: Rifl) -> bool {
    a == b || a.precedes(b)
}

/// Whether every node of `c` reaches node `v`: every closed batch holding a
/// node of `c` holds `v` too.
fn all_reach(nodes: &Vec<GraphExecutionInfo>, done: &Vec<Rifl>, c: &Vec<usize>, v: usize) -> (r: bool)
    requires
        distinct_requests(nodes@),
        forall|k: int| 0 <= k < c@.len() ==> c@[k] < nodes@.len(),
        closed_batch(nodes@, done@.to_set(), index_set(c@)),
    ensures
        r == forall|k: int, s: Set<int>|
            0 <= k < c@.len() && #[trigger] closed_batch(nodes@, done@.to_set(), s) && #[trigger] s.contains(
                c@[k] as int,
            ) ==> s.contains(v as int),
{
    let mut k: usize = 0;
    while k < c.len()
        invariant
            distinct_requests(nodes@),
            forall|m: int| 0 <= m < c@.len() ==> c@[m] < nodes@.len(),
            closed_batch(nodes@, done@.to_set(), index_set(c@)),
            k <= c@.len(),
            forall|m: int, s: Set<int>|
                0 <= m < k && #[trigger] closed_batch(nodes@, done@.to_set(), s) && #[trigger] s.contains(
                    c@[m] as int,
                ) ==> s.contains(v as int),
        decreases c@.len() - k,
    {
        match closure(nodes, done, c[k]) {
            None => {
                proof {
                    assert(index_set(c@).contains(c@[k as int] as int));
                    assert(executable(nodes@, done@.to_set(), c@[k as int] as int));
                }
                return false;
            },
            Some(cu) => {
                if !contains_index(&cu, v) {
                    proof {
                        let p = choose|p: int| 0 <= p < cu@.len() && cu@[p] == c@[k as int];
                        assert(index_set(cu@).contains(c@[k as int] as int));
                        if index_set(cu@).contains(v as int) {
                            let q = choose|q: int| 0 <= q < cu@.len() && cu@[q] as int == v as int;
                            assert(cu@.contains(v));
                        }
                        assert(closed_batch(nodes@, done@.to_set(), index_set(cu@)));
                    }
                    return false;
                }
                proof {
                    let p = choose|p: int| 0 <= p < cu@.len() && cu@[p] == v;
                    assert(index_set(cu@).contains(v as int)) by {
                        assert(cu@[p] as int == v as int);
                    }
                }
            },
        }
        k = k + 1;
    }
    true
}

/// The next batch to run, or `None` when no node can run. A batch is a
/// closed batch with no smaller closed part: one strongly connected group
/// of mutually dependent nodes, all of whose outside dependencies have run.
/// Among the groups that can run, the one holding the least request is
/// taken, so that every replica runs them in the same order.
fn next_batch(nodes: &Vec<GraphExecutionInfo>, done: &Vec<Rifl>) -> (r: Option<Vec<usize>>)
    requires
        distinct_requests(nodes@),
    ensures
        r matches Some(c) ==> {
            &&& c@.len() >= 1
            &&& c@.no_duplicates()
            &&& closed_batch(nodes@, done@.to_set(), index_set(c@))
            &&& forall|s: Set<int>, w: int|
                #[trigger] closed_batch(nodes@, done@.to_set(), s) && s.subset_of(index_set(c@))
                    && #[trigger] s.contains(w) ==> s == index_set(c@)
            &&& exists|v: int|
                #[trigger] index_set(c@).contains(v) && (forall|u: int|
                    #[trigger] index_set(c@).contains(u) ==> at_most(nodes@[v].cmd.rifl, nodes@[u].cmd.rifl))
                    && (forall|s: Set<int>, w: int|
                    #[trigger] closed_batch(nodes@, done@.to_set(), s) && minimal_closed(nodes@, done@.to_set(), s)
                        && #[trigger] s.contains(w) && !index_set(c@).contains(w) ==> nodes@[v].cmd.rifl.precedes(
                        nodes@[w].cmd.rifl,
                    ))
        },
        r is None ==> forall|v: int|
            0 <= v < nodes@.len() ==> !executable(nodes@, done@.to_set(), v),
{
    let mut best: Option<Vec<usize>> = None;
    let mut least: Option<(usize, Vec<usize>)> = None;
    let mut v: usize = 0;
    while v < nodes.len()
        invariant
            distinct_requests(nodes@),
            v <= nodes@.len(),
            best matches Some(c) ==> {
                &&& c@.len() >= 1
                &&& c@.no_duplicates()
                &&& closed_batch(nodes@, done@.to_set(), index_set(c@))
            },
            least matches Some(p) ==> {
                &&& p.0 < v
                &&& index_set(p.1@).contains(p.0 as int)
                &&& forall|w: int, s: Set<int>|
                    0 <= w < v && #[trigger] closed_batch(nodes@, done@.to_set(), s) && minimal_closed(nodes@, done@.to_set(), s)
                        && #[trigger] s.contains(w) ==> at_most(nodes@[p.0 as int].cmd.rifl, nodes@[w].cmd.rifl)
                &&& p.1@.len() >= 1
                &&& p.1@.no_duplicates()
                &&& closed_batch(nodes@, done@.to_set(), index_set(p.1@))
                &&& forall|s: Set<int>, w: int|
                    #[trigger] closed_batch(nodes@, done@.to_set(), s) && s.subset_of(index_set(p.1@))
                        && #[trigger] s.contains(w) ==> s == index_set(p.1@)
            },
            best is None ==> forall|w: int| 0 <= w < v ==> !executable(nodes@, done@.to_set(), w),
            least is None ==> forall|w: int, s: Set<int>|
                0 <= w < v && #[trigger] closed_batch(nodes@, done@.to_set(), s) && #[trigger] s.contains(w)
                    ==> !minimal_closed(nodes@, done@.to_set(), s),
            forall|w: int, s: Set<int>|
                0 <= w < v && #[trigger] closed_batch(nodes@, done@.to_set(), s) && #[trigger] s.contains(w)
                    ==> best is Some && s.len() >= best->0@.len(),
        decreases nodes@.len() - v,
    {
        let ghost least_before = least;
        match closure(nodes, done, v) {
            None => {},
            Some(c) => {
                proof {
                    assert forall|k: int| 0 <= k < c@.len() implies c@[k] < nodes@.len() by {
                        assert(index_set(c@).contains(c@[k] as int));
                    }
                    assert(index_set(c@).contains(v as int)) by {
                        let q = choose|q: int| 0 <= q < c@.len() && c@[q] == v;
                    }
                }
                let flagged = all_reach(nodes, done, &c, v);
                proof {
                    assert forall|s: Set<int>|
                        #[trigger] closed_batch(nodes@, done@.to_set(), s) && s.contains(v as int) && minimal_closed(
                            nodes@,
                            done@.to_set(),
                            s,
                        ) implies flagged by {
                        assert(index_set(c@).subset_of(s));
                        assert(index_set(c@) == s);
                        assert forall|k: int, s2: Set<int>|
                            0 <= k < c@.len() && #[trigger] closed_batch(nodes@, done@.to_set(), s2)
                                && #[trigger] s2.contains(c@[k] as int) implies s2.contains(v as int) by {
                            lemma_intersect_closed(nodes@, done@.to_set(), s2, s);
                            assert(index_set(c@).contains(c@[k] as int));
                            assert(s2.intersect(s).contains(c@[k] as int));
                            assert(s2.intersect(s).subset_of(s));
                            assert(s2.intersect(s) == s);
                            assert(s2.intersect(s).contains(v as int));
                        }
                    }
                }
                if flagged {
                    let earlier = match &least {
                        None => true,
                        Some(p) => nodes[v].cmd.rifl.less_than(&nodes[p.0].cmd.rifl),
                    };
                    proof {
                        assert forall|s: Set<int>, w: int|
                            #[trigger] closed_batch(nodes@, done@.to_set(), s) && s.subset_of(index_set(c@))
                                && #[trigger] s.contains(w) implies s == index_set(c@) by {
                            assert(index_set(c@).contains(w));
                            let k = choose|k: int| 0 <= k < c@.len() && c@[k] as int == w;
                            assert(s.contains(c@[k] as int));
                            assert(s.contains(v as int));
                            assert(index_set(c@).subset_of(s));
                            assert(s =~= index_set(c@));
                        }
                    }
                    if earlier {
                        least = Some((v, c.clone()));
                    }
                    proof {
                        let p = least->0;
                        assert(p.0 < nodes@.len());
                        assert forall|w: int, s: Set<int>|
                            0 <= w < v + 1 && #[trigger] closed_batch(nodes@, done@.to_set(), s) && minimal_closed(
                                nodes@,
                                done@.to_set(),
                                s,
                            ) && #[trigger] s.contains(w) implies at_most(
                            nodes@[p.0 as int].cmd.rifl,
                            nodes@[w].cmd.rifl,
                        ) by {
                            if least_before is Some {
                                let lb = least_before->0;
                                if w < v {
                                    assert(at_most(nodes@[lb.0 as int].cmd.rifl, nodes@[w].cmd.rifl));
                                } else {
                                    if !earlier {
                                        assert(lb.0 < v);
                                        assert(nodes@[lb.0 as int].cmd.rifl != nodes@[v as int].cmd.rifl);
                                    }
                                }
                            }
                        }
                    }
                } else {
                    proof {
                        assert forall|w: int, s: Set<int>|
                            0 <= w < v + 1 && #[trigger] closed_batch(nodes@, done@.to_set(), s) && #[trigger] s.contains(w)
                                && least is None implies !minimal_closed(nodes@, done@.to_set(), s) by {
                            if w == v {
                            }
                        }
                        if least is Some {
                            let p = least->0;
                            assert forall|w: int, s: Set<int>|
                                0 <= w < v + 1 && #[trigger] closed_batch(nodes@, done@.to_set(), s) && minimal_closed(
                                    nodes@,
                                    done@.to_set(),
                                    s,
                                ) && #[trigger] s.contains(w) implies at_most(
                                nodes@[p.0 as int].cmd.rifl,
                                nodes@[w].cmd.rifl,
                            ) by {
                                if w == v {
                                    assert(flagged);
                                }
                            }
                        }
                    }
                }
                let smaller = match &best {
                    None => true,
                    Some(b) => c.len() < b.len(),
                };
                proof {
                    lemma_index_set_len(c@);
                    assert forall|s: Set<int>|
                        #[trigger] closed_batch(nodes@, done@.to_set(), s) && s.contains(v as int)
                            implies s.len() >= c@.len() by {
                        lemma_closed_batch_finite(nodes@, done@.to_set(), s);
                        vstd::set_lib::lemma_len_subset(index_set(c@), s);
                    }
                }
                if smaller {
                    best = Some(c);
                }
            },
        }
        v = v + 1;
    }
    match least {
        Some(p) => {
            proof {
                let c = p.1;
                assert(minimal_closed(nodes@, done@.to_set(), index_set(c@)));
                assert forall|u: int| #[trigger] index_set(c@).contains(u) implies at_most(
                    nodes@[p.0 as int].cmd.rifl,
                    nodes@[u].cmd.rifl,
                ) by {
                    assert(0 <= u < nodes@.len());
                }
                assert forall|s: Set<int>, w: int|
                    #[trigger] closed_batch(nodes@, done@.to_set(), s) && minimal_closed(nodes@, done@.to_set(), s)
                        && #[trigger] s.contains(w) && !index_set(c@).contains(w) implies nodes@[p.0 as int].cmd.rifl.precedes(
                    nodes@[w].cmd.rifl,
                ) by {
                    assert(0 <= w < nodes@.len());
                    assert(w != p.0 as int);
                    assert(nodes@[w].cmd.rifl != nodes@[p.0 as int].cmd.rifl);
                }
            }
            return Some(p.1);
        },
        None => {},
    }
    proof {
        if best is Some {
            let c = best->0;
            assert forall|s: Set<int>, w: int|
                #[trigger] closed_batch(nodes@, done@.to_set(), s) && s.subset_of(index_set(c@))
                    && #[trigger] s.contains(w) implies s == index_set(c@) by {
                lemma_closed_batch_finite(nodes@, done@.to_set(), s);
                assert(0 <= w < nodes@.len());
                lemma_index_set_len(c@);
                vstd::set_lib::lemma_len_subset(s, index_set(c@));
                vstd::set_lib::lemma_subset_equality(s, index_set(c@));
            }
            assert(index_set(c@).contains(c@[0] as int));
            assert(minimal_closed(nodes@, done@.to_set(), index_set(c@)));
            assert(0 <= c@[0] < nodes@.len());
        }
    }
    best
}

/// The requests of the nodes at the indices in `batch`, in ascending
/// order.
fn sorted_requests(nodes: &Vec<GraphExecutionInfo>, batch: &Vec<usize>) -> (r: Vec<Rifl>)
    requires
        distinct_requests(nodes@),
        batch@.no_duplicates(),
        forall|k: int| 0 <= k < batch@.len() ==> batch@[k] < nodes@.len(),
    ensures
        r@.no_duplicates(),
        r@.len() == batch@.len(),
        forall|x: Rifl|
            r@.contains(x) <==> exists|k: int|
                0 <= k < batch@.len() && #[trigger] nodes@[batch@[k] as int].cmd.rifl == x,
        forall|a: int, b: int| 0 <= a < b < r@.len() ==> r@[a].precedes(r@[b]),
{
    let mut rest: Vec<Rifl> = Vec::new();
    let mut k: usize = 0;
    while k < batch.len()
        invariant
            distinct_requests(nodes@),
            batch@.no_duplicates(),
            forall|m: int| 0 <= m < batch@.len() ==> batch@[m] < nodes@.len(),
            k <= batch@.len(),
            rest@.len() == k,
            forall|m: int| 0 <= m < k ==> rest@[m] == nodes@[batch@[m] as int].cmd.rifl,
        decreases batch@.len() - k,
    {
        rest.push(nodes[batch[k]].cmd.rifl);
        k = k + 1;
    }
    assert(rest@.no_duplicates()) by {
        assert forall|a: int, b: int| 0 <= a < rest@.len() && 0 <= b < rest@.len() && a != b implies rest@[a]
            != rest@[b] by {
            assert(batch@[a] != batch@[b]);
        }
    }
    let ghost all = rest@;
    let mut sorted: Vec<Rifl> = Vec::new();
    while rest.len() > 0
        invariant
            rest@.no_duplicates(),
            sorted@.no_duplicates(),
            forall|x: Rifl| all.contains(x) <==> (rest@.contains(x) || sorted@.contains(x)),
            forall|x: Rifl| rest@.contains(x) ==> !sorted@.contains(x),
            sorted@.len() + rest@.len() == all.len(),
            forall|a: int, b: int| 0 <= a < b < sorted@.len() ==> sorted@[a].precedes(sorted@[b]),
            forall|a: int, b: int|
                0 <= a < sorted@.len() && 0 <= b < rest@.len() ==> sorted@[a].precedes(rest@[b]),
        decreases rest@.len(),
    {
        let mut m: usize = 0;
        let mut i: usize = 1;
        while i < rest.len()
            invariant
                0 < rest@.len(),
                m < i,
                1 <= i <= rest@.len(),
                rest@.no_duplicates(),
                forall|j: int| 0 <= j < i && j != m ==> rest@[m as int].precedes(rest@[j]),
            decreases rest@.len() - i,
        {
            if rest[i].less_than(&rest[m]) {
                m = i;
            } else {
                assert(rest@[i as int] != rest@[m as int]);
            }
            i = i + 1;
        }
        let ghost before = rest@;
        let ghost sorted_before = sorted@;
        let x = rest.remove(m);
        sorted.push(x);
        assert(before[m as int] == x);
        assert(before.contains(x));
        assert forall|y: Rifl| all.contains(y) <==> (rest@.contains(y) || sorted@.contains(y)) by {
            if before.contains(y) && y != x {
                let j = choose|j: int| 0 <= j < before.len() && before[j] == y;
                if j < m {
                    assert(rest@[j] == y);
                } else {
                    assert(rest@[j - 1] == y);
                }
            }
            if rest@.contains(y) {
                let j = choose|j: int| 0 <= j < rest@.len() && rest@[j] == y;
                if j < m {
                    assert(before[j] == y);
                } else {
                    assert(before[j + 1] == y);
                }
            }
            if sorted@.contains(y) && y != x {
                let j = choose|j: int| 0 <= j < sorted@.len() && sorted@[j] == y;
                assert(sorted_before[j] == y);
            }
            if sorted_before.contains(y) {
                let j = choose|j: int| 0 <= j < sorted_before.len() && sorted_before[j] == y;
                assert(sorted@[j] == y);
            }
            assert(sorted@[sorted@.len() - 1] == x);
        }
        assert forall|a: int, b: int|
            0 <= a < sorted@.len() && 0 <= b < rest@.len() implies sorted@[a].precedes(rest@[b]) by {
            let bb = if b < m { b } else { b + 1 };
            assert(rest@[b] == before[bb]);
        }
        assert forall|y: Rifl| rest@.contains(y) implies !sorted@.contains(y) by {
            let j = choose|j: int| 0 <= j < rest@.len() && rest@[j] == y;
            let jj = if j < m { j } else { j + 1 };
            assert(before[jj] == y);
            assert(y != x);
            assert(before.contains(y));
            assert(!sorted_before.contains(y));
            if sorted@.contains(y) {
                let q = choose|q: int| 0 <= q < sorted@.len() && sorted@[q] == y;
                if q < sorted_before.len() {
                    assert(sorted_before[q] == y);
                }
            }
        }
        assert(sorted@.no_duplicates()) by {
            assert(before[m as int] == x);
        }
        assert(rest@.no_duplicates()) by {
            assert forall|a: int, b: int| 0 <= a < rest@.len() && 0 <= b < rest@.len() && a != b implies rest@[a]
                != rest@[b] by {
                let aa = if a < m { a } else { a + 1 };
                let bb = if b < m { b } else { b + 1 };
                assert(rest@[a] == before[aa]);
                assert(rest@[b] == before[bb]);
            }
        }
    }
    assert forall|x: Rifl|
        sorted@.contains(x) <==> exists|k: int|
            0 <= k < batch@.len() && #[trigger] nodes@[batch@[k] as int].cmd.rifl == x by {
        if all.contains(x) {
            let k = choose|k: int| 0 <= k < all.len() && all[k] == x;
            assert(nodes@[batch@[k] as int].cmd.rifl == x);
        }
        if exists|k: int| 0 <= k < batch@.len() && #[trigger] nodes@[batch@[k] as int].cmd.rifl == x {
            let k = choose|k: int| 0 <= k < batch@.len() && #[trigger] nodes@[batch@[k] as int].cmd.rifl == x;
            assert(all[k] == x);
        }
    }
    sorted
}

/// Whether `s` ascends strictly in request order.
pub open spec fn ascending(s: Seq<Rifl>) -> bool {
    forall|a: int, b: int| 0 <= a < b < s.len() ==> s[a].precedes(s[b])
}

/// The order in which a batch runs depends on its requests alone: two
/// sequences that hold the same requests and both ascend are equal.
pub proof fn lemma_canonical_order(a: Seq<Rifl>, b: Seq<Rifl>)
    requires
        ascending(a),
        ascending(b),
        forall|x: Rifl| a.contains(x) <==> b.contains(x),
    ensures
        a == b,
    decreases a.len(),
{
    if a.len() == 0 {
        if b.len() > 0 {
            assert(b.contains(b[0]));
        }
        assert(a =~= b);
    } else if b.len() == 0 {
        assert(a.contains(a[0]));
    } else {
        let x = a.last();
        let y = b.last();
        assert(a.contains(x));
        assert(b.contains(y));
        let i = choose|i: int| 0 <= i < a.len() && a[i] == y;
        let j = choose|j: int| 0 <= j < b.len() && b[j] == x;
        if x != y {
            if j < b.len() - 1 {
                assert(x.precedes(y));
            }
            if i < a.len() - 1 {
                assert(y.precedes(x));
            }
        }
        assert(x == y);
        let a2 = a.drop_last();
        let b2 = b.drop_last();
        assert forall|z: Rifl| a2.contains(z) implies b2.contains(z) by {
            let p = choose|p: int| 0 <= p < a2.len() && a2[p] == z;
            assert(a[p] == z);
            assert(z.precedes(x));
            assert(b.contains(z));
            let q = choose|q: int| 0 <= q < b.len() && b[q] == z;
            assert(q != b.len() - 1);
            assert(b2[q] == z);
        }
        assert forall|z: Rifl| b2.contains(z) implies a2.contains(z) by {
            let p = choose|p: int| 0 <= p < b2.len() && b2[p] == z;
            assert(b[p] == z);
            assert(z.precedes(y));
            assert(a.contains(z));
            let q = choose|q: int| 0 <= q < a.len() && a[q] == z;
            assert(q != a.len() - 1);
            assert(a2[q] == z);
        }
        lemma_canonical_order(a2, b2);
        assert(a =~= a2.push(x));
        assert(b =~= b2.push(y));
    }
}

/// The batches of `bs`, one after another.
pub open spec fn concat(bs: Seq<Seq<Rifl>>) -> Seq<Rifl>
    decreases bs.len(),
{
    if bs.len() == 0 {
        Seq::empty()
    } else {
        concat(bs.drop_last()) + bs.last()
    }
}

/// Whether every dependency of each request of `t` is in `done` or in `t`.
pub open spec fn closed_requests(deps: Map<Rifl, Set<Rifl>>, done: Set<Rifl>, t: Set<Rifl>) -> bool {
    forall|r: Rifl, d: Rifl| t.contains(r) && #[trigger] deps[r].contains(d) ==> done.contains(d) || t.contains(d)
}

/// Whether `t` is a group of delivered requests, none in `done`, that could
/// run next: closed over `done`, with no smaller closed part.
pub open spec fn runnable_group(deps: Map<Rifl, Set<Rifl>>, done: Set<Rifl>, t: Set<Rifl>) -> bool {
    &&& t.subset_of(deps.dom())
    &&& t.disjoint(done)
    &&& closed_requests(deps, done, t)
    &&& forall|t2: Set<Rifl>, y: Rifl|
        #[trigger] closed_requests(deps, done, t2) && t2.subset_of(t) && #[trigger] t2.contains(y) ==> t2 == t
}

/// Whether `bs`, run after `before`, is a sequence of nonempty batches, each
/// ascending in request order, whose every dependency ran before the batch
/// or is in it, and none of which has a nonempty proper part with that
/// property: each batch is one group of mutually dependent requests. Of the
/// groups that could run at each step, the batch is the one holding the
/// least request.
pub open spec fn ordered_batches(
    before: Seq<Rifl>,
    bs: Seq<Seq<Rifl>>,
    deps: Map<Rifl, Set<Rifl>>,
) -> bool {
    forall|k: int|
        0 <= k < bs.len() ==> {
            &&& (#[trigger] bs[k]).len() >= 1
            &&& ascending(bs[k])
            &&& forall|r: Rifl, d: Rifl|
                bs[k].contains(r) && #[trigger] deps[r].contains(d) ==> (before + concat(
                    bs.subrange(0, k),
                )).contains(d) || bs[k].contains(d)
            &&& minimal_batch(deps, (before + concat(bs.subrange(0, k))).to_set(), bs[k])
            &&& forall|t: Set<Rifl>, x: Rifl|
                #[trigger] runnable_group(deps, (before + concat(bs.subrange(0, k))).to_set(), t)
                    && #[trigger] t.contains(x) && !bs[k].contains(x) ==> bs[k][0].precedes(x)
        }
}

/// Whether no nonempty proper part of `batch` is closed over `done`.
pub open spec fn minimal_batch(deps: Map<Rifl, Set<Rifl>>, done: Set<Rifl>, batch: Seq<Rifl>) -> bool {
    forall|t: Set<Rifl>, x: Rifl|
        #[trigger] closed_requests(deps, done, t) && t.subset_of(batch.to_set()) && #[trigger] t.contains(x)
            ==> t == batch.to_set()
}

/// Mutually dependent requests run in one canonical order: two batches that
/// run after the same executed requests, with the same dependencies, each
/// closed, minimal and ascending, and that share a request, are the same
/// sequence, whatever order their requests arrived in.
pub proof fn lemma_cycle_determinism(
    deps: Map<Rifl, Set<Rifl>>,
    done: Set<Rifl>,
    b1: Seq<Rifl>,
    b2: Seq<Rifl>,
    x: Rifl,
)
    requires
        closed_requests(deps, done, b1.to_set()),
        closed_requests(deps, done, b2.to_set()),
        minimal_batch(deps, done, b1),
        minimal_batch(deps, done, b2),
        ascending(b1),
        ascending(b2),
        b1.contains(x),
        b2.contains(x),
    ensures
        b1 == b2,
{
    let both = b1.to_set().intersect(b2.to_set());
    assert forall|r: Rifl, d: Rifl|
        both.contains(r) && #[trigger] deps[r].contains(d) implies done.contains(d) || both.contains(d) by {
        assert(b1.to_set().contains(r));
        assert(b2.to_set().contains(r));
    }
    assert(closed_requests(deps, done, both));
    assert(both.contains(x));
    assert(both == b1.to_set());
    assert(both == b2.to_set());
    assert forall|y: Rifl| b1.contains(y) <==> b2.contains(y) by {
        assert(b1.to_set().contains(y) == b1.contains(y));
        assert(b2.to_set().contains(y) == b2.contains(y));
    }
    lemma_canonical_order(b1, b2);
}

/// What has run before batch `k` of `bs`, after `before`.
pub open spec fn ran_before(before: Seq<Rifl>, bs: Seq<Seq<Rifl>>, k: int) -> Seq<Rifl> {
    before + concat(bs.subrange(0, k))
}

proof fn lemma_ran_before_step(before: Seq<Rifl>, bs: Seq<Seq<Rifl>>, n: int)
    requires
        0 <= n < bs.len(),
    ensures
        ran_before(before, bs, n + 1) == ran_before(before, bs, n) + bs[n],
{
    assert(bs.subrange(0, n + 1).drop_last() =~= bs.subrange(0, n));
    assert(bs.subrange(0, n + 1).last() == bs[n]);
    assert(before + (concat(bs.subrange(0, n)) + bs[n]) =~= (before + concat(bs.subrange(0, n))) + bs[n]);
}

proof fn lemma_ran_before_prefix(before: Seq<Rifl>, bs: Seq<Seq<Rifl>>, j: int, n: int)
    requires
        0 <= j <= n <= bs.len(),
    ensures
        ran_before(before, bs, j).len() <= ran_before(before, bs, n).len(),
        forall|i: int|
            0 <= i < ran_before(before, bs, j).len() ==> ran_before(before, bs, n)[i] == ran_before(
                before,
                bs,
                j,
            )[i],
    decreases n - j,
{
    if j < n {
        lemma_ran_before_prefix(before, bs, j, n - 1);
        lemma_ran_before_step(before, bs, n - 1);
    }
}

proof fn lemma_batch_positions(before: Seq<Rifl>, bs: Seq<Seq<Rifl>>, k: int, m: int)
    requires
        (before + concat(bs)).no_duplicates(),
        0 <= k < m < bs.len(),
    ensures
        forall|y: Rifl|
            #[trigger] bs[m].contains(y) ==> !ran_before(before, bs, m).contains(y) && (before + concat(
                bs,
            )).contains(y),
        forall|y: Rifl|
            #[trigger] ran_before(before, bs, k).contains(y) ==> ran_before(before, bs, m).contains(y),
        forall|y: Rifl| #[trigger] bs[k].contains(y) ==> ran_before(before, bs, m).contains(y),
{
    let n = bs.len() as int;
    let whole = before + concat(bs);
    assert(bs.subrange(0, n) =~= bs);
    assert(ran_before(before, bs, n) == whole);
    let pk = ran_before(before, bs, k);
    let pk1 = ran_before(before, bs, k + 1);
    let pm = ran_before(before, bs, m);
    let pm1 = ran_before(before, bs, m + 1);
    lemma_ran_before_step(before, bs, k);
    lemma_ran_before_step(before, bs, m);
    lemma_ran_before_prefix(before, bs, k, m);
    lemma_ran_before_prefix(before, bs, k + 1, m);
    lemma_ran_before_prefix(before, bs, m + 1, n);
    lemma_ran_before_prefix(before, bs, m, n);
    assert forall|y: Rifl| #[trigger] bs[m].contains(y) implies !pm.contains(y) && whole.contains(y) by {
        let q = choose|q: int| 0 <= q < bs[m].len() && bs[m][q] == y;
        assert(pm1[pm.len() + q] == y);
        assert(whole[pm.len() + q] == y);
        if pm.contains(y) {
            let p = choose|p: int| 0 <= p < pm.len() && pm[p] == y;
            assert(whole[p] == y);
        }
    }
    assert forall|y: Rifl| #[trigger] pk.contains(y) implies pm.contains(y) by {
        let p = choose|p: int| 0 <= p < pk.len() && pk[p] == y;
        assert(pm[p] == y);
    }
    assert forall|y: Rifl| #[trigger] bs[k].contains(y) implies pm.contains(y) by {
        let q = choose|q: int| 0 <= q < bs[k].len() && bs[k][q] == y;
        assert(pk1[pk.len() + q] == y);
        assert(pm[pk.len() + q] == y);
    }
}

/// Groups that become runnable together run in request order: when batch
/// `m` could already run before batch `k < m` did, batch `k` starts with a
/// request that precedes the first request of batch `m`.
#[verifier::rlimit(60)]
pub proof fn lemma_batches_in_request_order(
    before: Seq<Rifl>,
    bs: Seq<Seq<Rifl>>,
    deps: Map<Rifl, Set<Rifl>>,
    k: int,
    m: int,
)
    requires
        ordered_batches(before, bs, deps),
        (before + concat(bs)).no_duplicates(),
        (before + concat(bs)).to_set().subset_of(deps.dom()),
        0 <= k < m < bs.len(),
        closed_requests(deps, ran_before(before, bs, k).to_set(), bs[m].to_set()),
    ensures
        bs[k][0].precedes(bs[m][0]),
{
    lemma_batch_positions(before, bs, k, m);
    let pk = ran_before(before, bs, k);
    let pm = ran_before(before, bs, m);
    let t = bs[m].to_set();
    let bk = bs[k];
    let bm = bs[m];
    assert(bk.len() >= 1 && bm.len() >= 1);
    assert(minimal_batch(deps, pm.to_set(), bm));
    assert(forall|t3: Set<Rifl>, x: Rifl|
        #[trigger] runnable_group(deps, pk.to_set(), t3) && #[trigger] t3.contains(x) && !bk.contains(x)
            ==> bk[0].precedes(x));
    assert(t.subset_of(deps.dom())) by {
        assert forall|y: Rifl| t.contains(y) implies deps.dom().contains(y) by {
            assert(bm.contains(y));
            assert((before + concat(bs)).to_set().contains(y));
        }
    }
    assert(t.disjoint(pk.to_set())) by {
        assert forall|y: Rifl| t.contains(y) implies !pk.to_set().contains(y) by {
            assert(bm.contains(y));
        }
    }
    assert forall|t2: Set<Rifl>, y: Rifl|
        #[trigger] closed_requests(deps, pk.to_set(), t2) && t2.subset_of(t) && #[trigger] t2.contains(y)
            implies t2 == t by {
        assert forall|r: Rifl, d: Rifl|
            t2.contains(r) && #[trigger] deps[r].contains(d) implies pm.to_set().contains(d) || t2.contains(d) by {
            if pk.to_set().contains(d) {
                assert(pk.contains(d));
            }
        }
        assert(closed_requests(deps, pm.to_set(), t2));
    }
    assert(runnable_group(deps, pk.to_set(), t));
    assert(t.contains(bm[0]));
    assert(bm.contains(bm[0]));
    assert(!bk.contains(bm[0]));
}

/// The first request of the chosen batch precedes every request, outside
/// it, of any group that could run.
proof fn lemma_canonical_lift(
    nodes: Seq<GraphExecutionInfo>,
    done: Seq<Rifl>,
    deps: Map<Rifl, Set<Rifl>>,
    b: Seq<usize>,
    order: Seq<Rifl>,
    t: Set<Rifl>,
    x: Rifl,
)
    requires
        distinct_requests(nodes),
        deps.dom() == done.to_set().union(requests(nodes)),
        forall|i: int|
            0 <= i < nodes.len() ==> deps[#[trigger] nodes[i].cmd.rifl] == nodes[i].deps@.to_set(),
        exists|v: int|
            #[trigger] index_set(b).contains(v) && (forall|u: int|
                #[trigger] index_set(b).contains(u) ==> at_most(nodes[v].cmd.rifl, nodes[u].cmd.rifl))
                && (forall|s: Set<int>, w: int|
                #[trigger] closed_batch(nodes, done.to_set(), s) && minimal_closed(nodes, done.to_set(), s)
                    && #[trigger] s.contains(w) && !index_set(b).contains(w) ==> nodes[v].cmd.rifl.precedes(
                    nodes[w].cmd.rifl,
                )),
        forall|y: Rifl|
            order.contains(y) <==> exists|k: int|
                0 <= k < b.len() && #[trigger] nodes[b[k] as int].cmd.rifl == y,
        ascending(order),
        runnable_group(deps, done.to_set(), t),
        t.contains(x),
        !order.contains(x),
    ensures
        order.len() > 0 && order[0].precedes(x),
{
    let v = choose|v: int|
        #[trigger] index_set(b).contains(v) && (forall|u: int|
            #[trigger] index_set(b).contains(u) ==> at_most(nodes[v].cmd.rifl, nodes[u].cmd.rifl))
            && (forall|s: Set<int>, w: int|
            #[trigger] closed_batch(nodes, done.to_set(), s) && minimal_closed(nodes, done.to_set(), s)
                && #[trigger] s.contains(w) && !index_set(b).contains(w) ==> nodes[v].cmd.rifl.precedes(
                nodes[w].cmd.rifl,
            ));
    let s = Set::new(|i: int| 0 <= i < nodes.len() && t.contains(nodes[i].cmd.rifl));
    assert forall|i: int, d: Rifl|
        s.contains(i) && #[trigger] nodes[i].deps@.contains(d) implies done.to_set().contains(d)
            || exists|j: int| s.contains(j) && #[trigger] nodes[j].cmd.rifl == d by {
        assert(deps[nodes[i].cmd.rifl].contains(d));
        if !done.to_set().contains(d) {
            assert(t.contains(d));
            assert(deps.dom().contains(d));
            assert(requests(nodes).contains(d));
            let j = choose|j: int| 0 <= j < nodes.len() && #[trigger] nodes[j].cmd.rifl == d;
            assert(s.contains(j));
        }
    }
    assert(closed_batch(nodes, done.to_set(), s));
    assert forall|s2: Set<int>, w2: int|
        #[trigger] closed_batch(nodes, done.to_set(), s2) && s2.subset_of(s) && #[trigger] s2.contains(w2)
            implies s2 == s by {
        let t2 = Set::new(|r: Rifl| exists|i: int| s2.contains(i) && #[trigger] nodes[i].cmd.rifl == r);
        assert forall|r: Rifl, d: Rifl|
            t2.contains(r) && #[trigger] deps[r].contains(d) implies done.to_set().contains(d) || t2.contains(d) by {
            let i = choose|i: int| s2.contains(i) && #[trigger] nodes[i].cmd.rifl == r;
            assert(0 <= i < nodes.len());
            assert(nodes[i].deps@.contains(d));
            if !done.to_set().contains(d) {
                let j = choose|j: int| s2.contains(j) && #[trigger] nodes[j].cmd.rifl == d;
            }
        }
        assert(closed_requests(deps, done.to_set(), t2));
        assert forall|r: Rifl| t2.contains(r) implies t.contains(r) by {
            let i = choose|i: int| s2.contains(i) && #[trigger] nodes[i].cmd.rifl == r;
            assert(s.contains(i));
        }
        assert(t2.contains(nodes[w2].cmd.rifl));
        assert(t2 == t);
        assert forall|i: int| s.contains(i) implies s2.contains(i) by {
            assert(t2.contains(nodes[i].cmd.rifl));
            let j = choose|j: int| s2.contains(j) && #[trigger] nodes[j].cmd.rifl == nodes[i].cmd.rifl;
            assert(0 <= j < nodes.len());
        }
        assert(s2 =~= s);
    }
    assert(minimal_closed(nodes, done.to_set(), s));
    assert(t.subset_of(deps.dom()));
    assert(deps.dom().contains(x));
    assert(!done.to_set().contains(x));
    assert(requests(nodes).contains(x));
    let w = choose|w: int| 0 <= w < nodes.len() && #[trigger] nodes[w].cmd.rifl == x;
    assert(s.contains(w));
    if index_set(b).contains(w) {
        let k = choose|k: int| 0 <= k < b.len() && b[k] as int == w;
        assert(nodes[b[k] as int].cmd.rifl == x);
    }
    assert(nodes[v].cmd.rifl.precedes(x));
    let kv = choose|k: int| 0 <= k < b.len() && b[k] as int == v;
    assert(order.contains(nodes[b[kv] as int].cmd.rifl));
    let q = choose|q: int| 0 <= q < order.len() && order[q] == nodes[v].cmd.rifl;
    assert(order.contains(order[0]));
    let p0 = choose|k: int| 0 <= k < b.len() && #[trigger] nodes[b[k] as int].cmd.rifl == order[0];
    assert(index_set(b).contains(b[p0] as int));
    assert(at_most(nodes[v].cmd.rifl, order[0]));
    if q > 0 {
        assert(order[0].precedes(order[q]));
    }
}

/// A closed set of requests inside a least closed batch is all of it.
proof fn lemma_batch_minimal(
    nodes: Seq<GraphExecutionInfo>,
    done: Seq<Rifl>,
    deps: Map<Rifl, Set<Rifl>>,
    b: Seq<usize>,
    order: Seq<Rifl>,
    t: Set<Rifl>,
    x: Rifl,
)
    requires
        closed_batch(nodes, done.to_set(), index_set(b)),
        forall|s: Set<int>, w: int|
            #[trigger] closed_batch(nodes, done.to_set(), s) && s.subset_of(index_set(b))
                && #[trigger] s.contains(w) ==> s == index_set(b),
        forall|i: int|
            0 <= i < nodes.len() ==> deps[#[trigger] nodes[i].cmd.rifl] == nodes[i].deps@.to_set(),
        forall|y: Rifl|
            order.contains(y) <==> exists|k: int|
                0 <= k < b.len() && #[trigger] nodes[b[k] as int].cmd.rifl == y,
        closed_requests(deps, done.to_set(), t),
        t.subset_of(order.to_set()),
        t.contains(x),
    ensures
        t == order.to_set(),
{
    let s = Set::new(|i: int| index_set(b).contains(i) && t.contains(nodes[i].cmd.rifl));
    assert forall|i: int| #[trigger] s.contains(i) implies 0 <= i < nodes.len() by {
        assert(index_set(b).contains(i));
    }
    assert forall|i: int, d: Rifl|
        s.contains(i) && #[trigger] nodes[i].deps@.contains(d) implies done.to_set().contains(d)
            || exists|j: int| s.contains(j) && #[trigger] nodes[j].cmd.rifl == d by {
        assert(index_set(b).contains(i));
        assert(0 <= i < nodes.len());
        assert(deps[nodes[i].cmd.rifl].contains(d));
        if !done.to_set().contains(d) {
            assert(t.contains(d));
            assert(order.to_set().contains(d));
            assert(order.contains(d));
            let k = choose|k: int| 0 <= k < b.len() && #[trigger] nodes[b[k] as int].cmd.rifl == d;
            assert(index_set(b).contains(b[k] as int));
            assert(s.contains(b[k] as int));
        }
    }
    assert(closed_batch(nodes, done.to_set(), s));
    assert(order.to_set().contains(x));
    assert(order.contains(x));
    let k0 = choose|k: int| 0 <= k < b.len() && #[trigger] nodes[b[k] as int].cmd.rifl == x;
    assert(index_set(b).contains(b[k0] as int));
    assert(s.contains(b[k0] as int));
    assert(s.subset_of(index_set(b)));
    assert(s == index_set(b));
    assert forall|y: Rifl| order.to_set().contains(y) implies t.contains(y) by {
        assert(order.contains(y));
        let k = choose|k: int| 0 <= k < b.len() && #[trigger] nodes[b[k] as int].cmd.rifl == y;
        assert(index_set(b).contains(b[k] as int));
        assert(s.contains(b[k] as int));
    }
    assert(t =~= order.to_set());
}

/// The store after applying `ops` in order.
pub open spec fn apply_ops(store: Map<Seq<char>, Value>, ops: Seq<(Key, KVOp)>) -> Map<Seq<char>, Value>
    decreases ops.len(),
{
    if ops.len() == 0 {
        store
    } else {
        applied(apply_ops(store, ops.drop_last()), ops.last().0@, ops.last().1)
    }
}

/// The store after applying, in order, the operations of each request in
/// `rifls`.
pub open spec fn apply_all(
    store: Map<Seq<char>, Value>,
    rifls: Seq<Rifl>,
    ops: Map<Rifl, Seq<(Key, KVOp)>>,
) -> Map<Seq<char>, Value>
    decreases rifls.len(),
{
    if rifls.len() == 0 {
        store
    } else {
        apply_ops(apply_all(store, rifls.drop_last(), ops), ops[rifls.last()])
    }
}

proof fn lemma_apply_all_append(
    store: Map<Seq<char>, Value>,
    a: Seq<Rifl>,
    b: Seq<Rifl>,
    ops: Map<Rifl, Seq<(Key, KVOp)>>,
)
    ensures
        apply_all(store, a + b, ops) == apply_all(apply_all(store, a, ops), b, ops),
    decreases b.len(),
{
    if b.len() == 0 {
        assert(a + b =~= a);
    } else {
        lemma_apply_all_append(store, a, b.drop_last(), ops);
        assert((a + b).drop_last() =~= a + b.drop_last());
        assert((a + b).last() == b.last());
    }
}

/// The result of each of `ops`, applied in order to `store`, tagged with
/// `rifl`: the value its key held just before it.
pub open spec fn op_results(store: Map<Seq<char>, Value>, rifl: Rifl, ops: Seq<(Key, KVOp)>) -> Seq<
    (Rifl, Key, KVOpResult),
>
    decreases ops.len(),
{
    if ops.len() == 0 {
        Seq::empty()
    } else {
        op_results(store, rifl, ops.drop_last()).push(
            (rifl, ops.last().0, lookup(apply_ops(store, ops.drop_last()), ops.last().0@)),
        )
    }
}

/// The results of every operation of the requests in `rifls`, run in that
/// order from `store`.
pub open spec fn command_results(
    store: Map<Seq<char>, Value>,
    rifls: Seq<Rifl>,
    ops: Map<Rifl, Seq<(Key, KVOp)>>,
) -> Seq<(Rifl, Key, KVOpResult)>
    decreases rifls.len(),
{
    if rifls.len() == 0 {
        Seq::empty()
    } else {
        command_results(store, rifls.drop_last(), ops) + op_results(
            apply_all(store, rifls.drop_last(), ops),
            rifls.last(),
            ops[rifls.last()],
        )
    }
}

/// Whether recording `recs` one after another into a tracker moves it
/// through `states`, handing out `outs`, one per record.
pub open spec fn records_chain(
    states: Seq<Map<Rifl, Expectation>>,
    outs: Seq<Option<ExecutorResult>>,
    aggregate: bool,
    recs: Seq<(Rifl, Key, KVOpResult)>,
) -> bool {
    &&& states.len() == recs.len() + 1
    &&& outs.len() == recs.len()
    &&& forall|j: int|
        0 <= j < recs.len() ==> records_result(
            states[j],
            aggregate,
            recs[j].0,
            recs[j].1,
            recs[j].2,
            states[j + 1],
            #[trigger] outs[j],
        )
}

/// The values present in `outs`, in order.
pub open spec fn present(outs: Seq<Option<ExecutorResult>>) -> Seq<ExecutorResult>
    decreases outs.len(),
{
    if outs.len() == 0 {
        Seq::empty()
    } else if outs.last() is Some {
        present(outs.drop_last()).push(outs.last()->0)
    } else {
        present(outs.drop_last())
    }
}

proof fn lemma_present_append(a: Seq<Option<ExecutorResult>>, b: Seq<Option<ExecutorResult>>)
    ensures
        present(a + b) == present(a) + present(b),
    decreases b.len(),
{
    if b.len() == 0 {
        assert(a + b =~= a);
        assert(present(a) + present(b) =~= present(a));
    } else {
        lemma_present_append(a, b.drop_last());
        assert((a + b).drop_last() =~= a + b.drop_last());
        assert((a + b).last() == b.last());
        if b.last() is Some {
            assert(present(a) + present(b.drop_last()).push(b.last()->0) =~= (present(a) + present(
                b.drop_last(),
            )).push(b.last()->0));
        }
    }
}

proof fn lemma_chain_append(
    s1: Seq<Map<Rifl, Expectation>>,
    o1: Seq<Option<ExecutorResult>>,
    r1: Seq<(Rifl, Key, KVOpResult)>,
    s2: Seq<Map<Rifl, Expectation>>,
    o2: Seq<Option<ExecutorResult>>,
    r2: Seq<(Rifl, Key, KVOpResult)>,
    aggregate: bool,
)
    requires
        records_chain(s1, o1, aggregate, r1),
        records_chain(s2, o2, aggregate, r2),
        s1.last() == s2[0],
    ensures
        records_chain(s1 + s2.drop_first(), o1 + o2, aggregate, r1 + r2),
        (s1 + s2.drop_first())[0] == s1[0],
        (s1 + s2.drop_first()).last() == s2.last(),
{
    let s = s1 + s2.drop_first();
    let o = o1 + o2;
    let r = r1 + r2;
    assert forall|j: int| 0 <= j < r.len() implies records_result(
        s[j],
        aggregate,
        r[j].0,
        r[j].1,
        r[j].2,
        s[j + 1],
        #[trigger] o[j],
    ) by {
        if j < r1.len() {
            assert(o[j] == o1[j]);
            assert(r[j] == r1[j]);
            assert(s[j] == s1[j]);
            if j + 1 < s1.len() {
                assert(s[j + 1] == s1[j + 1]);
            } else {
                assert(s[j + 1] == s1.last());
            }
            assert(records_result(s1[j], aggregate, r1[j].0, r1[j].1, r1[j].2, s1[j + 1], o1[j]));
        } else {
            let k = j - r1.len();
            assert(o[j] == o2[k]);
            assert(r[j] == r2[k]);
            if k == 0 {
                assert(s[j] == s1.last());
            } else {
                assert(s[j] == s2[k]);
            }
            assert(s[j + 1] == s2[k + 1]);
            assert(records_result(s2[k], aggregate, r2[k].0, r2[k].1, r2[k].2, s2[k + 1], o2[k]));
        }
    }
}

proof fn lemma_command_results_append(
    store: Map<Seq<char>, Value>,
    a: Seq<Rifl>,
    b: Seq<Rifl>,
    ops: Map<Rifl, Seq<(Key, KVOp)>>,
)
    ensures
        command_results(store, a + b, ops) == command_results(store, a, ops) + command_results(
            apply_all(store, a, ops),
            b,
            ops,
        ),
    decreases b.len(),
{
    if b.len() == 0 {
        assert(a + b =~= a);
        assert(command_results(store, a, ops) + Seq::<(Rifl, Key, KVOpResult)>::empty() =~= command_results(store, a, ops));
    } else {
        lemma_command_results_append(store, a, b.drop_last(), ops);
        lemma_apply_all_append(store, a, b.drop_last(), ops);
        assert((a + b).drop_last() =~= a + b.drop_last());
        assert((a + b).last() == b.last());
        assert(command_results(store, a, ops) + command_results(apply_all(store, a, ops), b.drop_last(), ops)
            + op_results(apply_all(apply_all(store, a, ops), b.drop_last(), ops), b.last(), ops[b.last()])
            =~= command_results(store, a, ops) + (command_results(apply_all(store, a, ops), b.drop_last(), ops)
            + op_results(apply_all(apply_all(store, a, ops), b.drop_last(), ops), b.last(), ops[b.last()])));
    }
}

/// Applies the operations of `cmd` to `store` in order, hands each result
/// to `results`, and adds what `results` hands back to `out`.
fn apply_command(
    store: &mut KVStore,
    results: &mut Pending,
    cmd: &Command,
    out: &mut Vec<ExecutorResult>,
)
    requires
        old(store).wf(),
        old(results).wf(),
    ensures
        final(store).wf(),
        final(results).wf(),
        final(results).aggregates() == old(results).aggregates(),
        final(store)@ == apply_ops(old(store)@, cmd.ops@),
        old(out)@.len() <= final(out)@.len(),
        final(out)@.subrange(0, old(out)@.len() as int) == old(out)@,
        forall|i: int|
            old(out)@.len() <= i < final(out)@.len() ==> (#[trigger] final(out)@[i]).rifl_of()
                == cmd.rifl,
        exists|states: Seq<Map<Rifl, Expectation>>, outs: Seq<Option<ExecutorResult>>|
            #[trigger] records_chain(states, outs, old(results).aggregates(), op_results(old(store)@, cmd.rifl, cmd.ops@))
                && states[0] == old(results)@ && states.last() == final(results)@
                && final(out)@ == old(out)@ + present(outs),
{
    let ghost mut states: Seq<Map<Rifl, Expectation>> = seq![results@];
    let ghost mut outs: Seq<Option<ExecutorResult>> = Seq::empty();
    assert(out@ =~= old(out)@ + present(outs));
    let mut j: usize = 0;
    while j < cmd.ops.len()
        invariant
            records_chain(states, outs, old(results).aggregates(), op_results(old(store)@, cmd.rifl, cmd.ops@.subrange(0, j as int))),
            states[0] == old(results)@,
            states.last() == results@,
            out@ == old(out)@ + present(outs),
            old(out)@.len() <= out@.len(),
            out@.subrange(0, old(out)@.len() as int) == old(out)@,
            forall|i: int| old(out)@.len() <= i < out@.len() ==> (#[trigger] out@[i]).rifl_of() == cmd.rifl,
            store.wf(),
            results.wf(),
            results.aggregates() == old(results).aggregates(),
            j <= cmd.ops@.len(),
            store@ == apply_ops(old(store)@, cmd.ops@.subrange(0, j as int)),
        decreases cmd.ops@.len() - j,
    {
        let key = &cmd.ops[j].0;
        let op = cmd.ops[j].1;
        let ghost store_before = store@;
        let r = store.execute(key, op);
        let ghost before = out@;
        let ghost pending_before = results@;
        let ghost recs = op_results(old(store)@, cmd.rifl, cmd.ops@.subrange(0, j as int));
        let o = results.add_result(cmd.rifl, key.clone(), r);
        let ghost o_copy = o;
        match o {
            Some(x) => {
                out.push(x);
                assert(out@.subrange(0, old(out)@.len() as int) =~= before.subrange(0, old(out)@.len() as int));
            },
            None => {},
        }
        assert(cmd.ops@.subrange(0, j + 1).drop_last() == cmd.ops@.subrange(0, j as int));
        proof {
            let rec = (cmd.rifl, cmd.ops@[j as int].0, lookup(store_before, cmd.ops@[j as int].0@));
            assert(cmd.ops@.subrange(0, j + 1).last() == cmd.ops@[j as int]);
            assert(store_before == apply_ops(old(store)@, cmd.ops@.subrange(0, j as int)));
            assert(op_results(old(store)@, cmd.rifl, cmd.ops@.subrange(0, j + 1)) == recs.push(rec));
            let states2 = states.push(results@);
            let outs2 = outs.push(o_copy);
            assert forall|q: int| 0 <= q < recs.len() + 1 implies records_result(
                states2[q],
                old(results).aggregates(),
                recs.push(rec)[q].0,
                recs.push(rec)[q].1,
                recs.push(rec)[q].2,
                states2[q + 1],
                #[trigger] outs2[q],
            ) by {
                if q < recs.len() {
                    assert(outs2[q] == outs[q]);
                    assert(states2[q] == states[q]);
                    assert(states2[q + 1] == states[q + 1]);
                    assert(recs.push(rec)[q] == recs[q]);
                    assert(records_result(states[q], old(results).aggregates(), recs[q].0, recs[q].1, recs[q].2, states[q + 1], outs[q]));
                } else {
                    assert(states2[q] == pending_before);
                }
            }
            assert(outs2.drop_last() =~= outs);
            assert(out@ =~= old(out)@ + present(outs2));
            states = states2;
            outs = outs2;
        }
        j = j + 1;
    }
    assert(cmd.ops@.subrange(0, cmd.ops@.len() as int) == cmd.ops@);
    assert(records_chain(states, outs, old(results).aggregates(), op_results(old(store)@, cmd.rifl, cmd.ops@)));
}

/// Executes nodes of a dependency graph once all they depend on has
/// executed. Mutually dependent nodes run together, in ascending request
/// order; results go through a `Pending` tracker.
pub struct GraphExecutor {
    blocked: Vec<GraphExecutionInfo>,
    executed: Vec<Rifl>,
    deps_of: Ghost<Map<Rifl, Set<Rifl>>>,
    ops_of: Ghost<Map<Rifl, Seq<(Key, KVOp)>>>,
    store: KVStore,
    results: Pending,
}

/// The requests of `nodes`.
pub open spec fn requests(nodes: Seq<GraphExecutionInfo>) -> Set<Rifl> {
    Set::new(|r: Rifl| exists|i: int| 0 <= i < nodes.len() && #[trigger] nodes[i].cmd.rifl == r)
}

impl GraphExecutor {
    /// Delivered nodes that have not executed yet.
    pub closed spec fn blocked_nodes(&self) -> Seq<GraphExecutionInfo> {
        self.blocked@
    }

    /// Executed requests, in the order they were applied.
    pub closed spec fn executed_order(&self) -> Seq<Rifl> {
        self.executed@
    }

    /// The dependency set of every delivered request.
    pub closed spec fn dependencies(&self) -> Map<Rifl, Set<Rifl>> {
        self.deps_of@
    }

    /// The operations of every delivered request.
    pub closed spec fn operations(&self) -> Map<Rifl, Seq<(Key, KVOp)>> {
        self.ops_of@
    }

    pub closed spec fn store_view(&self) -> Map<Seq<char>, Value> {
        self.store@
    }

    pub closed spec fn pending_view(&self) -> Map<Rifl, Expectation> {
        self.results@
    }

    pub closed spec fn aggregates(&self) -> bool {
        self.results.aggregates()
    }

    /// Every executed request had all its dependencies executed too.
    pub open spec fn history_closed(&self) -> bool {
        forall|r: Rifl, d: Rifl|
            self.executed_order().contains(r) && #[trigger] self.dependencies()[r].contains(d)
                ==> self.executed_order().contains(d)
    }

    /// No delivered node that has not executed could run.
    pub open spec fn quiescent(&self) -> bool {
        forall|v: int|
            0 <= v < self.blocked_nodes().len() ==> !executable(
                self.blocked_nodes(),
                self.executed_order().to_set(),
                v,
            )
    }

    spec fn wf_core(&self) -> bool {
        &&& distinct_requests(self.blocked@)
        &&& self.executed@.no_duplicates()
        &&& forall|i: int|
            0 <= i < self.blocked@.len() ==> !self.executed@.contains(
                #[trigger] self.blocked@[i].cmd.rifl,
            )
        &&& self.deps_of@.dom() == self.executed@.to_set().union(requests(self.blocked@))
        &&& forall|i: int|
            0 <= i < self.blocked@.len() ==> self.deps_of@[#[trigger] self.blocked@[i].cmd.rifl]
                == self.blocked@[i].deps@.to_set()
        &&& forall|i: int|
            0 <= i < self.blocked@.len() ==> self.ops_of@[#[trigger] self.blocked@[i].cmd.rifl]
                == self.blocked@[i].cmd.ops@
        &&& self.store.wf()
        &&& self.results.wf()
    }

    pub closed spec fn wf(&self) -> bool {
        self.wf_core() && self.history_closed() && self.quiescent()
    }

    /// An empty executor; `aggregate` selects the mode of its result tracker.
    pub fn with_mode(aggregate: bool) -> (r: Self)
        ensures
            r.wf(),
            r.quiescent(),
            r.blocked_nodes().len() == 0,
            r.executed_order().len() == 0,
            r.dependencies() == Map::<Rifl, Set<Rifl>>::empty(),
            r.store_view() == Map::<Seq<char>, Value>::empty(),
            r.pending_view() == Map::<Rifl, Expectation>::empty(),
            r.aggregates() == aggregate,
    {
        let r = GraphExecutor {
            blocked: Vec::new(),
            executed: Vec::new(),
            deps_of: Ghost(Map::empty()),
            ops_of: Ghost(Map::empty()),
            store: KVStore::new(),
            results: Pending::new(aggregate),
        };
        assert(r.deps_of@.dom() =~= r.executed@.to_set().union(requests(r.blocked@)));
        r
    }

    /// Runs the blocked nodes of the requests in `order`, in that order.
    fn run_batch(&mut self, order: &Vec<Rifl>, out: &mut Vec<ExecutorResult>)
        requires
            old(self).wf_core(),
            order@.no_duplicates(),
            forall|k: int|
                0 <= k < order@.len() ==> requests(old(self).blocked@).contains(#[trigger] order@[k]),
            forall|r: Rifl, d: Rifl|
                old(self).executed@.contains(r) && #[trigger] old(self).deps_of@[r].contains(d)
                    ==> old(self).executed@.contains(d),
            forall|k: int, d: Rifl|
                0 <= k < order@.len() && #[trigger] old(self).deps_of@[order@[k]].contains(d)
                    ==> old(self).executed@.contains(d) || order@.contains(d),
        ensures
            final(self).wf_core(),
            final(self).history_closed(),
            final(self).executed@ == old(self).executed@ + order@,
            final(self).blocked@.len() == old(self).blocked@.len() - order@.len(),
            final(self).deps_of@ == old(self).deps_of@,
            final(self).ops_of@ == old(self).ops_of@,
            final(self).store@ == apply_all(old(self).store@, order@, old(self).ops_of@),
            old(out)@.len() <= final(out)@.len(),
            final(out)@.subrange(0, old(out)@.len() as int) == old(out)@,
            forall|i: int|
                old(out)@.len() <= i < final(out)@.len() ==> order@.contains(
                    (#[trigger] final(out)@[i]).rifl_of(),
                ),
            final(self).results.aggregates() == old(self).results.aggregates(),
            exists|states: Seq<Map<Rifl, Expectation>>, outs: Seq<Option<ExecutorResult>>|
                #[trigger] records_chain(
                    states,
                    outs,
                    old(self).results.aggregates(),
                    command_results(old(self).store@, order@, old(self).ops_of@),
                ) && states[0] == old(self).results@ && states.last() == final(self).results@
                    && final(out)@ == old(out)@ + present(outs),
    {
        let ghost start = self.executed@;
        let ghost mut states: Seq<Map<Rifl, Expectation>> = seq![self.results@];
        let ghost mut outs: Seq<Option<ExecutorResult>> = Seq::empty();
        assert(out@ =~= old(out)@ + present(outs));
        let mut t: usize = 0;
        while t < order.len()
            invariant
                records_chain(
                    states,
                    outs,
                    old(self).results.aggregates(),
                    command_results(old(self).store@, order@.subrange(0, t as int), old(self).ops_of@),
                ),
                states[0] == old(self).results@,
                states.last() == self.results@,
                out@ == old(out)@ + present(outs),
                self.wf_core(),
                order@.no_duplicates(),
                t <= order@.len(),
                self.deps_of@ == old(self).deps_of@,
                self.ops_of@ == old(self).ops_of@,
                self.store@ == apply_all(old(self).store@, order@.subrange(0, t as int), self.ops_of@),
                old(out)@.len() <= out@.len(),
                out@.subrange(0, old(out)@.len() as int) == old(out)@,
                forall|i: int|
                    old(out)@.len() <= i < out@.len() ==> order@.contains((#[trigger] out@[i]).rifl_of()),
                self.results.aggregates() == old(self).results.aggregates(),
                self.executed@ == start + order@.subrange(0, t as int),
                start == old(self).executed@,
                self.blocked@.len() == old(self).blocked@.len() - t,
                forall|k: int| t <= k < order@.len() ==> requests(self.blocked@).contains(#[trigger] order@[k]),
                forall|r: Rifl, d: Rifl|
                    self.executed@.contains(r) && #[trigger] self.deps_of@[r].contains(d)
                        ==> start.contains(d) || order@.contains(d),
                forall|k: int, d: Rifl|
                    0 <= k < order@.len() && #[trigger] old(self).deps_of@[order@[k]].contains(d)
                        ==> start.contains(d) || order@.contains(d),
                forall|r: Rifl, d: Rifl|
                    start.contains(r) && #[trigger] old(self).deps_of@[r].contains(d)
                        ==> start.contains(d),
            decreases order@.len() - t,
        {
            let r = order[t];
            assert(requests(self.blocked@).contains(order@[t as int]));
            let ghost blocked_before = self.blocked@;
            let ghost executed_before = self.executed@;
            match find_node(&self.blocked, r) {
                None => {
                    proof {
                        let i = choose|i: int|
                            0 <= i < blocked_before.len() && #[trigger] blocked_before[i].cmd.rifl == r;
                    }
                },
                Some(i) => {
                    let node = self.blocked.remove(i);
                    let ghost out_before = out@;
                    let ghost store_mid = self.store@;
                    let ghost results_mid = self.results@;
                    apply_command(&mut self.store, &mut self.results, &node.cmd, out);
                    proof {
                        let (st2, os2) = choose|st2: Seq<Map<Rifl, Expectation>>, os2: Seq<Option<ExecutorResult>>|
                            #[trigger] records_chain(st2, os2, old(self).results.aggregates(), op_results(store_mid, node.cmd.rifl, node.cmd.ops@))
                                && st2[0] == results_mid && st2.last() == self.results@
                                && out@ == out_before + present(os2);
                        let recs1 = command_results(old(self).store@, order@.subrange(0, t as int), old(self).ops_of@);
                        let recs2 = op_results(store_mid, node.cmd.rifl, node.cmd.ops@);
                        lemma_chain_append(states, outs, recs1, st2, os2, recs2, old(self).results.aggregates());
                        lemma_present_append(outs, os2);
                        assert(order@.subrange(0, t + 1).drop_last() =~= order@.subrange(0, t as int));
                        assert(order@.subrange(0, t + 1).last() == r);
                        assert(node.cmd.rifl == r);
                        assert(command_results(old(self).store@, order@.subrange(0, t + 1), old(self).ops_of@) == recs1 + recs2);
                        assert(out@ =~= old(out)@ + present(outs + os2));
                        states = states + st2.drop_first();
                        outs = outs + os2;
                    }
                    proof {
                        assert(order@[t as int] == r);
                        assert(order@.contains(r));
                        assert forall|q: int| old(out)@.len() <= q < out@.len() implies order@.contains(
                            (#[trigger] out@[q]).rifl_of(),
                        ) by {
                            if q < out_before.len() {
                                assert(out@.subrange(0, out_before.len() as int)[q] == out_before[q]);
                            }
                        }
                        assert(out@.subrange(0, old(out)@.len() as int) =~= out_before.subrange(0, old(out)@.len() as int));
                    }
                    self.executed.push(r);
                    proof {
                        assert(!executed_before.contains(r));
                        assert(self.executed@ == start + order@.subrange(0, t + 1)) by {
                            assert(order@.subrange(0, t + 1) == order@.subrange(0, t as int).push(r));
                        }
                        assert forall|a: int, b: int|
                            0 <= a < self.blocked@.len() && 0 <= b < self.blocked@.len()
                                && #[trigger] self.blocked@[a].cmd.rifl
                                == #[trigger] self.blocked@[b].cmd.rifl implies a == b by {
                            let aa = if a < i { a } else { a + 1 };
                            let bb = if b < i { b } else { b + 1 };
                            assert(self.blocked@[a] == blocked_before[aa]);
                            assert(self.blocked@[b] == blocked_before[bb]);
                        }
                        assert forall|a: int| 0 <= a < self.blocked@.len() implies !self.executed@.contains(
                            #[trigger] self.blocked@[a].cmd.rifl,
                        ) by {
                            let aa = if a < i { a } else { a + 1 };
                            assert(self.blocked@[a] == blocked_before[aa]);
                            assert(!executed_before.contains(blocked_before[aa].cmd.rifl));
                            assert(blocked_before[aa].cmd.rifl != r);
                            if self.executed@.contains(self.blocked@[a].cmd.rifl) {
                                let q = choose|q: int| 0 <= q < self.executed@.len() && self.executed@[q] == self.blocked@[a].cmd.rifl;
                                if q < executed_before.len() {
                                    assert(executed_before[q] == self.executed@[q]);
                                }
                            }
                        }
                        assert forall|a: int| 0 <= a < self.blocked@.len() implies self.deps_of@[
                            #[trigger] self.blocked@[a].cmd.rifl] == self.blocked@[a].deps@.to_set() by {
                            let aa = if a < i { a } else { a + 1 };
                            assert(self.blocked@[a] == blocked_before[aa]);
                        }
                        assert forall|a: int| 0 <= a < self.blocked@.len() implies self.ops_of@[
                            #[trigger] self.blocked@[a].cmd.rifl] == self.blocked@[a].cmd.ops@ by {
                            let aa = if a < i { a } else { a + 1 };
                            assert(self.blocked@[a] == blocked_before[aa]);
                        }
                        assert(node.cmd.ops@ == self.ops_of@[r]);
                        assert(order@.subrange(0, t + 1).drop_last() =~= order@.subrange(0, t as int));
                        assert(self.executed@.no_duplicates()) by {
                            assert(self.executed@ == executed_before.push(r));
                        }
                        assert(self.executed@.to_set() == executed_before.to_set().insert(r)) by {
                            executed_before.lemma_push_to_set_commute(r);
                        }
                        assert(requests(blocked_before) == requests(self.blocked@).insert(r)) by {
                            assert forall|x: Rifl| requests(blocked_before).contains(x) implies requests(self.blocked@).insert(r).contains(x) by {
                                let a = choose|a: int| 0 <= a < blocked_before.len() && #[trigger] blocked_before[a].cmd.rifl == x;
                                if a < i {
                                    assert(self.blocked@[a] == blocked_before[a]);
                                } else if a > i {
                                    assert(self.blocked@[a - 1] == blocked_before[a]);
                                }
                            }
                            assert forall|x: Rifl| requests(self.blocked@).insert(r).contains(x) implies requests(blocked_before).contains(x) by {
                                if x != r {
                                    let a = choose|a: int| 0 <= a < self.blocked@.len() && #[trigger] self.blocked@[a].cmd.rifl == x;
                                    let aa = if a < i { a } else { a + 1 };
                                    assert(self.blocked@[a] == blocked_before[aa]);
                                } else {
                                    assert(blocked_before[i as int].cmd.rifl == r);
                                }
                            }
                            assert(requests(blocked_before) =~= requests(self.blocked@).insert(r));
                        }
                        assert(!requests(self.blocked@).contains(r)) by {
                            if requests(self.blocked@).contains(r) {
                                let a = choose|a: int| 0 <= a < self.blocked@.len() && #[trigger] self.blocked@[a].cmd.rifl == r;
                                let aa = if a < i { a } else { a + 1 };
                                assert(self.blocked@[a] == blocked_before[aa]);
                            }
                        }
                        assert(self.deps_of@.dom() =~= self.executed@.to_set().union(requests(self.blocked@)));
                        assert forall|k: int| t + 1 <= k < order@.len() implies requests(self.blocked@).contains(#[trigger] order@[k]) by {
                            assert(requests(blocked_before).contains(order@[k]));
                            assert(order@[k] != r);
                        }
                        assert(self.deps_of@[r] == node.deps@.to_set());
                        assert forall|x: Rifl, d: Rifl|
                            self.executed@.contains(x) && #[trigger] self.deps_of@[x].contains(d)
                                implies start.contains(d) || order@.contains(d) by {
                            if x != r {
                                let q = choose|q: int| 0 <= q < self.executed@.len() && self.executed@[q] == x;
                                assert(executed_before[q] == x);
                            } else {
                                assert(old(self).deps_of@[order@[t as int]].contains(d));
                            }
                        }
                    }
                },
            }
            t = t + 1;
        }
        proof {
            assert(order@.subrange(0, order@.len() as int) == order@);
            assert(records_chain(states, outs, old(self).results.aggregates(), command_results(old(self).store@, order@, old(self).ops_of@)));
            assert forall|r: Rifl, d: Rifl|
                self.executed_order().contains(r) && #[trigger] self.dependencies()[r].contains(d)
                    implies self.executed_order().contains(d) by {
                if start.contains(d) {
                    let q = choose|q: int| 0 <= q < start.len() && start[q] == d;
                    assert(self.executed@[q] == d);
                } else {
                    let q = choose|q: int| 0 <= q < order@.len() && order@[q] == d;
                    assert(self.executed@[start.len() + q] == d);
                }
            }
        }
    }

    /// Delivers one node and runs every node that can run as a result.
    /// A request that was delivered before is ignored.
    pub fn deliver(&mut self, info: GraphExecutionInfo) -> (r: Vec<ExecutorResult>)
        requires
            old(self).wf(),
        ensures
            final(self).wf(),
            final(self).quiescent(),
            final(self).history_closed(),
            final(self).executed_order().no_duplicates(),
            final(self).aggregates() == old(self).aggregates(),
            old(self).executed_order().len() <= final(self).executed_order().len(),
            final(self).executed_order().subrange(0, old(self).executed_order().len() as int)
                == old(self).executed_order(),
            final(self).dependencies() == if old(self).dependencies().contains_key(info.cmd.rifl) {
                old(self).dependencies()
            } else {
                old(self).dependencies().insert(info.cmd.rifl, info.deps@.to_set())
            },
            final(self).dependencies().dom() == final(self).executed_order().to_set().union(
                requests(final(self).blocked_nodes()),
            ),
            final(self).operations() == if old(self).dependencies().contains_key(info.cmd.rifl) {
                old(self).operations()
            } else {
                old(self).operations().insert(info.cmd.rifl, info.cmd.ops@)
            },
            exists|
                bs: Seq<Seq<Rifl>>,
                states: Seq<Map<Rifl, Expectation>>,
                outs: Seq<Option<ExecutorResult>>,
            |
                final(self).executed_order() == old(self).executed_order() + concat(bs)
                    && ordered_batches(old(self).executed_order(), bs, final(self).dependencies())
                    && final(self).store_view() == apply_all(old(self).store_view(), concat(bs), final(self).operations())
                    && (forall|i: int| 0 <= i < r@.len() ==> concat(bs).contains((#[trigger] r@[i]).rifl_of()))
                    && #[trigger] records_chain(
                    states,
                    outs,
                    old(self).aggregates(),
                    command_results(old(self).store_view(), concat(bs), final(self).operations()),
                ) && states[0] == old(self).pending_view() && states.last() == final(self).pending_view()
                    && r@ == present(outs),
    {
        let rifl = info.cmd.rifl;
        let mut out: Vec<ExecutorResult> = Vec::new();
        if contains_rifl(&self.executed, rifl) {
            assert(self.executed@.to_set().contains(rifl));
            assert(self.executed@.subrange(0, self.executed@.len() as int) == self.executed@);
            assert(self.executed_order() =~= self.executed_order() + concat(Seq::<Seq<Rifl>>::empty()));
            assert(ordered_batches(self.executed_order(), Seq::<Seq<Rifl>>::empty(), self.dependencies()));
            assert(self.store_view() == apply_all(self.store_view(), concat(Seq::<Seq<Rifl>>::empty()), self.operations()));
            assert(records_chain(seq![self.pending_view()], Seq::<Option<ExecutorResult>>::empty(), self.aggregates(), command_results(self.store_view(), concat(Seq::<Seq<Rifl>>::empty()), self.operations())));
            assert(out@ =~= present(Seq::<Option<ExecutorResult>>::empty()));
            return out;
        }
        match find_node(&self.blocked, rifl) {
            Some(i) => {
                assert(requests(self.blocked@).contains(self.blocked@[i as int].cmd.rifl));
                assert(self.executed@.subrange(0, self.executed@.len() as int) == self.executed@);
                assert(self.executed_order() =~= self.executed_order() + concat(Seq::<Seq<Rifl>>::empty()));
                assert(ordered_batches(self.executed_order(), Seq::<Seq<Rifl>>::empty(), self.dependencies()));
            assert(self.store_view() == apply_all(self.store_view(), concat(Seq::<Seq<Rifl>>::empty()), self.operations()));
            assert(records_chain(seq![self.pending_view()], Seq::<Option<ExecutorResult>>::empty(), self.aggregates(), command_results(self.store_view(), concat(Seq::<Seq<Rifl>>::empty()), self.operations())));
            assert(out@ =~= present(Seq::<Option<ExecutorResult>>::empty()));
                return out;
            },
            None => {},
        }
        let ghost start = self.executed@;
        let ghost blocked_before = self.blocked@;
        let ghost d = info.deps@.to_set();
        assert(!requests(blocked_before).contains(rifl));
        self.blocked.push(info);
        let ghost ops = info.cmd.ops@;
        self.deps_of = Ghost(self.deps_of@.insert(rifl, d));
        self.ops_of = Ghost(self.ops_of@.insert(rifl, ops));
        proof {
            let n = blocked_before.len() as int;
            assert(self.blocked@[n].cmd.rifl == rifl);
            assert forall|a: int, b: int|
                0 <= a < self.blocked@.len() && 0 <= b < self.blocked@.len()
                    && #[trigger] self.blocked@[a].cmd.rifl
                    == #[trigger] self.blocked@[b].cmd.rifl implies a == b by {
                if a < n {
                    assert(self.blocked@[a] == blocked_before[a]);
                }
                if b < n {
                    assert(self.blocked@[b] == blocked_before[b]);
                }
                if a < n && b == n {
                    assert(requests(blocked_before).contains(blocked_before[a].cmd.rifl));
                }
                if b < n && a == n {
                    assert(requests(blocked_before).contains(blocked_before[b].cmd.rifl));
                }
            }
            assert forall|a: int| 0 <= a < self.blocked@.len() implies !self.executed@.contains(
                #[trigger] self.blocked@[a].cmd.rifl,
            ) by {
                if a < n {
                    assert(self.blocked@[a] == blocked_before[a]);
                }
            }
            assert forall|a: int| 0 <= a < self.blocked@.len() implies self.deps_of@[
                #[trigger] self.blocked@[a].cmd.rifl] == self.blocked@[a].deps@.to_set() by {
                if a < n {
                    assert(self.blocked@[a] == blocked_before[a]);
                    assert(requests(blocked_before).contains(blocked_before[a].cmd.rifl));
                }
            }
            assert forall|a: int| 0 <= a < self.blocked@.len() implies self.ops_of@[
                #[trigger] self.blocked@[a].cmd.rifl] == self.blocked@[a].cmd.ops@ by {
                if a < n {
                    assert(self.blocked@[a] == blocked_before[a]);
                    assert(requests(blocked_before).contains(blocked_before[a].cmd.rifl));
                }
            }
            assert(requests(self.blocked@) =~= requests(blocked_before).insert(rifl)) by {
                assert forall|x: Rifl| requests(self.blocked@).contains(x) implies requests(blocked_before).insert(rifl).contains(x) by {
                    let a = choose|a: int| 0 <= a < self.blocked@.len() && #[trigger] self.blocked@[a].cmd.rifl == x;
                    if a < n {
                        assert(self.blocked@[a] == blocked_before[a]);
                    }
                }
                assert forall|x: Rifl| requests(blocked_before).insert(rifl).contains(x) implies requests(self.blocked@).contains(x) by {
                    if x != rifl {
                        let a = choose|a: int| 0 <= a < blocked_before.len() && #[trigger] blocked_before[a].cmd.rifl == x;
                        assert(self.blocked@[a] == blocked_before[a]);
                    }
                }
            }
            assert(self.deps_of@.dom() =~= self.executed@.to_set().union(requests(self.blocked@)));
            assert(!self.executed@.contains(rifl));
            assert forall|r: Rifl, e: Rifl|
                self.executed_order().contains(r) && #[trigger] self.dependencies()[r].contains(e)
                    implies self.executed_order().contains(e) by {
                assert(r != rifl);
                assert(old(self).dependencies()[r] == self.dependencies()[r]);
                assert(old(self).dependencies()[r].contains(e));
            }
        }
        assert(self.store@ == apply_all(old(self).store@, concat(Seq::<Seq<Rifl>>::empty()), self.ops_of@));
        let mut go = true;
        let ghost mut bs: Seq<Seq<Rifl>> = Seq::empty();
        let ghost mut states: Seq<Map<Rifl, Expectation>> = seq![self.results@];
        let ghost mut outs: Seq<Option<ExecutorResult>> = Seq::empty();
        assert(self.executed@ =~= start + concat(bs));
        assert(out@ =~= present(outs));
        assert(records_chain(states, outs, old(self).results.aggregates(), command_results(old(self).store@, concat(bs), self.ops_of@)));
        while go
            invariant
                records_chain(states, outs, old(self).results.aggregates(), command_results(old(self).store@, concat(bs), self.ops_of@)),
                states[0] == old(self).results@,
                states.last() == self.results@,
                out@ == present(outs),
                self.executed@ == start + concat(bs),
                forall|q: int| 0 <= q < out@.len() ==> concat(bs).contains((#[trigger] out@[q]).rifl_of()),
                self.ops_of@ == old(self).ops_of@.insert(rifl, ops),
                self.store@ == apply_all(old(self).store@, concat(bs), self.ops_of@),
                ordered_batches(start, bs, self.deps_of@),
                self.wf_core(),
                self.history_closed(),
                self.deps_of@ == old(self).deps_of@.insert(rifl, d),
                self.results.aggregates() == old(self).results.aggregates(),
                start.len() <= self.executed@.len(),
                self.executed@.subrange(0, start.len() as int) == start,
                start == old(self).executed@,
                !go ==> self.quiescent(),
            decreases self.blocked@.len() + if go { 1int } else { 0int },
        {
            match next_batch(&self.blocked, &self.executed) {
                None => {
                    go = false;
                },
                Some(b) => {
                    proof {
                        assert forall|k: int| 0 <= k < b@.len() implies b@[k] < self.blocked@.len() by {
                            assert(index_set(b@).contains(b@[k] as int));
                        }
                    }
                    let order = sorted_requests(&self.blocked, &b);
                    let ghost before = self.executed@;
                    proof {
                        assert forall|k: int| 0 <= k < order@.len() implies requests(self.blocked@).contains(#[trigger] order@[k]) by {
                            assert(order@.contains(order@[k]));
                            let p = choose|p: int| 0 <= p < b@.len() && #[trigger] self.blocked@[b@[p] as int].cmd.rifl == order@[k];
                        }
                        assert forall|k: int, e: Rifl|
                            0 <= k < order@.len() && #[trigger] self.deps_of@[order@[k]].contains(e)
                                implies self.executed@.contains(e) || order@.contains(e) by {
                            assert(order@.contains(order@[k]));
                            let p = choose|p: int| 0 <= p < b@.len() && #[trigger] self.blocked@[b@[p] as int].cmd.rifl == order@[k];
                            let i = b@[p] as int;
                            assert(index_set(b@).contains(i));
                            assert(self.blocked@[i].deps@.contains(e));
                            if !self.executed@.to_set().contains(e) {
                                let j = choose|j: int| index_set(b@).contains(j) && #[trigger] self.blocked@[j].cmd.rifl == e;
                                let q = choose|q: int| 0 <= q < b@.len() && b@[q] as int == j;
                                assert(self.blocked@[b@[q] as int].cmd.rifl == e);
                            }
                        }
                    }
                    proof {
                        assert forall|r: Rifl, e: Rifl|
                            self.executed@.contains(r) && #[trigger] self.deps_of@[r].contains(e)
                                implies self.executed@.contains(e) by {
                            assert(self.dependencies()[r].contains(e));
                        }
                    }
                    let ghost blocked_now = self.blocked@;
                    let ghost out_before = out@;
                    let ghost executed_now = self.executed@;
                    let ghost store_before = self.store@;
                    let ghost results_before = self.results@;
                    self.run_batch(&order, &mut out);
                    proof {
                        let (st2, os2) = choose|st2: Seq<Map<Rifl, Expectation>>, os2: Seq<Option<ExecutorResult>>|
                            #[trigger] records_chain(st2, os2, old(self).results.aggregates(), command_results(store_before, order@, self.ops_of@))
                                && st2[0] == results_before && st2.last() == self.results@
                                && out@ == out_before + present(os2);
                        let recs1 = command_results(old(self).store@, concat(bs), self.ops_of@);
                        let recs2 = command_results(store_before, order@, self.ops_of@);
                        lemma_chain_append(states, outs, recs1, st2, os2, recs2, old(self).results.aggregates());
                        lemma_present_append(outs, os2);
                        lemma_command_results_append(old(self).store@, concat(bs), order@, self.ops_of@);
                        let bs3 = bs.push(order@);
                        assert(bs3.drop_last() =~= bs);
                        assert(concat(bs3) == concat(bs) + order@);
                        states = states + st2.drop_first();
                        outs = outs + os2;
                    }
                    proof {
                        let bs2 = bs.push(order@);
                        assert(bs2.drop_last() =~= bs);
                        assert(concat(bs2) == concat(bs) + order@);
                        lemma_apply_all_append(old(self).store@, concat(bs), order@, self.ops_of@);
                        assert forall|q: int| 0 <= q < out@.len() implies concat(bs2).contains(
                            (#[trigger] out@[q]).rifl_of(),
                        ) by {
                            let y = out@[q].rifl_of();
                            if q < out_before.len() {
                                assert(out@.subrange(0, out_before.len() as int)[q] == out_before[q]);
                                assert(concat(bs).contains(y));
                                let p = choose|p: int| 0 <= p < concat(bs).len() && concat(bs)[p] == y;
                                assert(concat(bs2)[p] == y);
                            } else {
                                assert(order@.contains(y));
                                let p = choose|p: int| 0 <= p < order@.len() && order@[p] == y;
                                assert(concat(bs2)[concat(bs).len() + p] == y);
                            }
                        }
                        assert(self.executed@ =~= start + concat(bs2));
                        assert forall|k: int| 0 <= k < bs2.len() implies {
                            &&& (#[trigger] bs2[k]).len() >= 1
                            &&& ascending(bs2[k])
                            &&& forall|r: Rifl, e: Rifl|
                                bs2[k].contains(r) && #[trigger] self.deps_of@[r].contains(e) ==> (start + concat(
                                    bs2.subrange(0, k),
                                )).contains(e) || bs2[k].contains(e)
                            &&& forall|t: Set<Rifl>, x: Rifl|
                                #[trigger] closed_requests(self.deps_of@, (start + concat(bs2.subrange(0, k))).to_set(), t)
                                    && t.subset_of(bs2[k].to_set()) && #[trigger] t.contains(x) ==> t == bs2[k].to_set()
                            &&& forall|t: Set<Rifl>, x: Rifl|
                                #[trigger] runnable_group(self.deps_of@, (start + concat(bs2.subrange(0, k))).to_set(), t)
                                    && #[trigger] t.contains(x) && !bs2[k].contains(x) ==> bs2[k][0].precedes(x)
                        } by {
                            if k < bs.len() {
                                assert(bs2[k] == bs[k]);
                                assert(bs2.subrange(0, k) =~= bs.subrange(0, k));
                            } else {
                                assert(bs2[k] == order@);
                                assert(bs2.subrange(0, k) =~= bs);
                                assert forall|r: Rifl, e: Rifl|
                                    order@.contains(r) && #[trigger] self.deps_of@[r].contains(e) implies (start
                                        + concat(bs)).contains(e) || order@.contains(e) by {
                                    let q = choose|q: int| 0 <= q < order@.len() && order@[q] == r;
                                    assert(self.deps_of@[order@[q]].contains(e));
                                }
                                assert forall|t: Set<Rifl>, x: Rifl|
                                    #[trigger] closed_requests(self.deps_of@, (start + concat(bs)).to_set(), t)
                                        && t.subset_of(order@.to_set()) && #[trigger] t.contains(x) implies t
                                        == order@.to_set() by {
                                    lemma_batch_minimal(blocked_now, executed_now, self.deps_of@, b@, order@, t, x);
                                }
                                assert forall|t: Set<Rifl>, x: Rifl|
                                    #[trigger] runnable_group(self.deps_of@, (start + concat(bs)).to_set(), t)
                                        && #[trigger] t.contains(x) && !order@.contains(x) implies order@[0].precedes(x) by {
                                    lemma_canonical_lift(blocked_now, executed_now, self.deps_of@, b@, order@, t, x);
                                }
                            }
                        }
                        bs = bs2;
                    }
                    assert(self.executed@.subrange(0, start.len() as int) == start) by {
                        assert(self.executed@ == before + order@);
                        assert(before.subrange(0, start.len() as int) == start);
                    }
                },
            }
        }
        proof {
            assert(ordered_batches(old(self).executed_order(), bs, self.dependencies()));
            assert(self.store_view() == apply_all(old(self).store_view(), concat(bs), self.operations()));
            assert(records_chain(states, outs, old(self).aggregates(), command_results(old(self).store_view(), concat(bs), self.operations())));
        }
        out
    }
}

impl GraphExecutor {
    /// Starts tracking the results of `cmd`; see `Pending::wait_for`.
    pub fn wait_for(&mut self, cmd: &Command) -> (r: bool)
        requires
            old(self).wf(),
        ensures
            final(self).wf(),
            final(self).blocked_nodes() == old(self).blocked_nodes(),
            final(self).executed_order() == old(self).executed_order(),
            final(self).dependencies() == old(self).dependencies(),
            final(self).operations() == old(self).operations(),
            final(self).store_view() == old(self).store_view(),
            final(self).aggregates() == old(self).aggregates(),
            r == !old(self).pending_view().contains_key(cmd.rifl),
            r ==> final(self).pending_view() == old(self).pending_view().insert(
                cmd.rifl,
                (cmd.ops@.len(), Seq::<(Key, KVOpResult)>::empty()),
            ),
            !r ==> final(self).pending_view() == old(self).pending_view(),
    {
        let r = self.results.wait_for(cmd);
        assert(self.executed_order() == old(self).executed_order());
        assert(self.dependencies() == old(self).dependencies());
        assert(self.operations() == old(self).operations());
        assert(self.blocked_nodes() == old(self).blocked_nodes());
        r
    }

    /// Expects one more result for `rifl`, unless its count cannot grow.
    pub fn wait_for_rifl(&mut self, rifl: Rifl)
        requires
            old(self).wf(),
        ensures
            final(self).wf(),
            final(self).blocked_nodes() == old(self).blocked_nodes(),
            final(self).executed_order() == old(self).executed_order(),
            final(self).dependencies() == old(self).dependencies(),
            final(self).operations() == old(self).operations(),
            final(self).store_view() == old(self).store_view(),
            final(self).aggregates() == old(self).aggregates(),
            final(self).pending_view() == if old(self).pending_view().contains_key(rifl) {
                if old(self).pending_view()[rifl].0 < usize::MAX {
                    old(self).pending_view().insert(
                        rifl,
                        (old(self).pending_view()[rifl].0 + 1, old(self).pending_view()[rifl].1),
                    )
                } else {
                    old(self).pending_view()
                }
            } else {
                old(self).pending_view().insert(rifl, (1, Seq::<(Key, KVOpResult)>::empty()))
            },
    {
        if self.results.can_wait_for_rifl(rifl) {
            self.results.wait_for_rifl(rifl);
        }
        assert(self.executed_order() == old(self).executed_order());
        assert(self.dependencies() == old(self).dependencies());
        assert(self.operations() == old(self).operations());
        assert(self.blocked_nodes() == old(self).blocked_nodes());
    }

    /// Executed requests, in the order they were applied.
    pub fn executed(&self) -> (r: &Vec<Rifl>)
        ensures
            r@ == self.executed_order(),
    {
        &self.executed
    }

    /// Number of delivered nodes still waiting for dependencies.
    pub fn blocked_count(&self) -> (r: usize)
        ensures
            r == self.blocked_nodes().len(),
    {
        self.blocked.len()
    }

    /// Whether `rifl` was delivered and has not executed yet.
    pub fn is_blocked(&self, rifl: Rifl) -> (r: bool)
        ensures
            r == requests(self.blocked_nodes()).contains(rifl),
    {
        match find_node(&self.blocked, rifl) {
            Some(i) => {
                assert(self.blocked@[i as int].cmd.rifl == rifl);
                true
            },
            None => false,
        }
    }

    /// The value `key` holds in the executor's store.
    pub fn value(&self, key: &Key) -> (r: KVOpResult)
        requires
            self.wf(),
        ensures
            r == crate::kvs::lookup(self.store_view(), key@),
    {
        self.store.get(key)
    }
}

/// Which requests have executed depends only on what was delivered, not on
/// the order of delivery: two executors holding the same dependency sets
/// have executed the same requests.
pub proof fn lemma_executed_set_determined(g1: &GraphExecutor, g2: &GraphExecutor)
    requires
        g1.wf(),
        g2.wf(),
        g1.dependencies() == g2.dependencies(),
    ensures
        g1.executed_order().to_set() == g2.executed_order().to_set(),
{
    lemma_executed_within(g1, g2);
    lemma_executed_within(g2, g1);
    assert(g1.executed_order().to_set() =~= g2.executed_order().to_set());
}

proof fn lemma_executed_within(g1: &GraphExecutor, g2: &GraphExecutor)
    requires
        g1.wf(),
        g2.wf(),
        g1.dependencies() == g2.dependencies(),
    ensures
        g2.executed_order().to_set().subset_of(g1.executed_order().to_set()),
{
    let nodes = g1.blocked@;
    let e1 = g1.executed@.to_set();
    let e2 = g2.executed@.to_set();
    let s = Set::new(|i: int| 0 <= i < nodes.len() && e2.contains(nodes[i].cmd.rifl));
    assert forall|i: int, d: Rifl|
        s.contains(i) && #[trigger] nodes[i].deps@.contains(d) implies e1.contains(d) || exists|j: int|
            s.contains(j) && #[trigger] nodes[j].cmd.rifl == d by {
        let r = nodes[i].cmd.rifl;
        assert(g1.deps_of@[r] == nodes[i].deps@.to_set());
        assert(g2.deps_of@[r].contains(d));
        assert(g2.executed@.contains(r));
        assert(g2.dependencies()[r].contains(d));
        assert(g2.executed@.contains(d));
        assert(e2.contains(d));
        assert(g2.deps_of@.dom().contains(d));
        if !e1.contains(d) {
            assert(g1.deps_of@.dom().contains(d));
            assert(requests(nodes).contains(d));
            let j = choose|j: int| 0 <= j < nodes.len() && #[trigger] nodes[j].cmd.rifl == d;
            assert(s.contains(j));
        }
    }
    assert(closed_batch(nodes, e1, s));
    assert forall|r: Rifl| e2.contains(r) implies e1.contains(r) by {
        if !e1.contains(r) {
            assert(g2.deps_of@.dom().contains(r));
            assert(g1.deps_of@.dom().contains(r));
            assert(requests(nodes).contains(r));
            let j = choose|j: int| 0 <= j < nodes.len() && #[trigger] nodes[j].cmd.rifl == r;
            assert(s.contains(j));
            assert(executable(nodes, e1, j));
            assert(g1.quiescent());
            assert(g1.blocked_nodes() == nodes);
            assert(g1.executed_order().to_set() == e1);
        }
    }
}

impl Executor for GraphExecutor {
    type ExecutionInfo = GraphExecutionInfo;

    closed spec fn inv(&self) -> bool {
        self.wf()
    }

    fn new(config: Config) -> (r: Self)
        ensures
            r.blocked_nodes().len() == 0,
            r.executed_order().len() == 0,
            r.dependencies() == Map::<Rifl, Set<Rifl>>::empty(),
            r.store_view() == Map::<Seq<char>, Value>::empty(),
            r.pending_view() == Map::<Rifl, Expectation>::empty(),
            r.aggregates() == config.aggregate,
    {
        GraphExecutor::with_mode(config.aggregate)
    }

    fn wait_for(&mut self, cmd: &Command)
        ensures
            final(self).blocked_nodes() == old(self).blocked_nodes(),
            final(self).executed_order() == old(self).executed_order(),
            final(self).dependencies() == old(self).dependencies(),
            final(self).store_view() == old(self).store_view(),
            final(self).aggregates() == old(self).aggregates(),
            !old(self).pending_view().contains_key(cmd.rifl) ==> final(self).pending_view()
                == old(self).pending_view().insert(
                cmd.rifl,
                (cmd.ops@.len(), Seq::<(Key, KVOpResult)>::empty()),
            ),
            old(self).pending_view().contains_key(cmd.rifl) ==> final(self).pending_view()
                == old(self).pending_view(),
    {
        GraphExecutor::wait_for(self, cmd);
    }

    fn wait_for_rifl(&mut self, rifl: Rifl)
        ensures
            final(self).blocked_nodes() == old(self).blocked_nodes(),
            final(self).executed_order() == old(self).executed_order(),
            final(self).dependencies() == old(self).dependencies(),
            final(self).store_view() == old(self).store_view(),
            final(self).aggregates() == old(self).aggregates(),
            final(self).pending_view() == if old(self).pending_view().contains_key(rifl) {
                if old(self).pending_view()[rifl].0 < usize::MAX {
                    old(self).pending_view().insert(
                        rifl,
                        (old(self).pending_view()[rifl].0 + 1, old(self).pending_view()[rifl].1),
                    )
                } else {
                    old(self).pending_view()
                }
            } else {
                old(self).pending_view().insert(rifl, (1, Seq::<(Key, KVOpResult)>::empty()))
            },
    {
        GraphExecutor::wait_for_rifl(self, rifl);
    }

    fn handle(&mut self, infos: GraphExecutionInfo) -> (r: Vec<ExecutorResult>)
        ensures
            final(self).quiescent(),
            final(self).history_closed(),
            final(self).executed_order().no_duplicates(),
            final(self).aggregates() == old(self).aggregates(),
            final(self).dependencies() == if old(self).dependencies().contains_key(infos.cmd.rifl) {
                old(self).dependencies()
            } else {
                old(self).dependencies().insert(infos.cmd.rifl, infos.deps@.to_set())
            },
            exists|
                bs: Seq<Seq<Rifl>>,
                states: Seq<Map<Rifl, Expectation>>,
                outs: Seq<Option<ExecutorResult>>,
            |
                final(self).executed_order() == old(self).executed_order() + concat(bs)
                    && ordered_batches(old(self).executed_order(), bs, final(self).dependencies())
                    && final(self).store_view() == apply_all(old(self).store_view(), concat(bs), final(self).operations())
                    && (forall|i: int| 0 <= i < r@.len() ==> concat(bs).contains((#[trigger] r@[i]).rifl_of()))
                    && #[trigger] records_chain(
                    states,
                    outs,
                    old(self).aggregates(),
                    command_results(old(self).store_view(), concat(bs), final(self).operations()),
                ) && states[0] == old(self).pending_view() && states.last() == final(self).pending_view()
                    && r@ == present(outs),
    {
        GraphExecutor::deliver(self, infos)
    }

    fn parallel() -> (r: bool)
        ensures
            !r,
    {
        false
    }
}

} // verus!
