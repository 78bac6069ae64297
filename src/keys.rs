use vstd::prelude::*;
use crate::clocks::contains_rifl;
use crate::command::Command;
use crate::id::Rifl;
use crate::kvs::{KVOp, KVStore, Key, Value};

verus! {

/// Two operations on one key conflict unless both only read.
pub open spec fn conflicts(a: KVOp, b: KVOp) -> bool {
    !(a == KVOp::Get && b == KVOp::Get)
}

fn conflicts_exec(a: KVOp, b: KVOp) -> (r: bool)
    ensures
        r == conflicts(a, b),
{
    match (a, b) {
        (KVOp::Get, KVOp::Get) => false,
        _ => true,
    }
}

/// Whether one of `ops` is on `key` and conflicts with `op`.
pub open spec fn conflicts_with(ops: Seq<(Key, KVOp)>, key: Seq<char>, op: KVOp) -> bool {
    exists|j: int| 0 <= j < ops.len() && #[trigger] ops[j].0@ == key && conflicts(op, ops[j].1)
}

/// The requests, other than `rifl`, among the first `n` registrations that
/// conflict with one of `ops`.
pub open spec fn conflicting_upto(
    regs: Seq<(Rifl, Key, KVOp)>,
    rifl: Rifl,
    ops: Seq<(Key, KVOp)>,
    n: int,
) -> Set<Rifl> {
    Set::new(
        |x: Rifl|
            x != rifl && exists|i: int|
                0 <= i < n && #[trigger] regs[i].0 == x && conflicts_with(ops, regs[i].1@, regs[i].2),
    )
}

/// The dependency set of a command with request `rifl` and operations `ops`:
/// every other registered request with a conflicting operation on a shared
/// key.
pub open spec fn conflicting(regs: Seq<(Rifl, Key, KVOp)>, rifl: Rifl, ops: Seq<(Key, KVOp)>) -> Set<
    Rifl,
> {
    conflicting_upto(regs, rifl, ops, regs.len() as int)
}

/// Whether one of `ops` is on `key`.
pub open spec fn touches(ops: Seq<(Key, KVOp)>, key: Seq<char>) -> bool {
    exists|j: int| 0 <= j < ops.len() && #[trigger] ops[j].0@ == key
}

fn conflicts_with_exec(ops: &Vec<(Key, KVOp)>, key: &Key, op: KVOp) -> (r: bool)
    ensures
        r == conflicts_with(ops@, key@, op),
{
    let mut j: usize = 0;
    while j < ops.len()
        invariant
            j <= ops@.len(),
            forall|q: int| 0 <= q < j ==> !(ops@[q].0@ == key@ && conflicts(op, ops@[q].1)),
        decreases ops@.len() - j,
    {
        if ops[j].0 == *key && conflicts_exec(op, ops[j].1) {
            return true;
        }
        j = j + 1;
    }
    false
}

/// Per-key logical clocks and the registry of in-flight commands, for a
/// single owner.
pub struct SequentialKeyClocks {
    clocks: KVStore,
    registered: Vec<(Rifl, Key, KVOp)>,
}

impl SequentialKeyClocks {
    pub closed spec fn wf(&self) -> bool {
        self.clocks.wf()
    }

    /// The clock of every key that has one.
    pub closed spec fn clocks(&self) -> Map<Seq<char>, Value> {
        self.clocks@
    }

    /// The in-flight operations: request, key and operation.
    pub closed spec fn registered(&self) -> Seq<(Rifl, Key, KVOp)> {
        self.registered@
    }

    pub fn new() -> (r: Self)
        ensures
            r.wf(),
            r.clocks() == Map::<Seq<char>, Value>::empty(),
            r.registered().len() == 0,
    {
        SequentialKeyClocks { clocks: KVStore::new(), registered: Vec::new() }
    }

    /// The requests `cmd` depends on: each other in-flight request with a
    /// conflicting operation on a key `cmd` touches, listed once.
    pub fn dependencies_for(&self, cmd: &Command) -> (r: Vec<Rifl>)
        ensures
            r@.no_duplicates(),
            r@.to_set() == conflicting(self.registered(), cmd.rifl, cmd.ops@),
    {
        let regs = &self.registered;
        let mut deps: Vec<Rifl> = Vec::new();
        let mut i: usize = 0;
        while i < regs.len()
            invariant
                i <= regs@.len(),
                regs@ == self.registered(),
                deps@.no_duplicates(),
                deps@.to_set() == conflicting_upto(regs@, cmd.rifl, cmd.ops@, i as int),
            decreases regs@.len() - i,
        {
            let x = regs[i].0;
            let ghost before = deps@;
            let hit = x != cmd.rifl && conflicts_with_exec(&cmd.ops, &regs[i].1, regs[i].2);
            if hit && !contains_rifl(&deps, x) {
                deps.push(x);
                proof {
                    before.lemma_push_to_set_commute(x);
                }
            }
            proof {
                let lhs = conflicting_upto(regs@, cmd.rifl, cmd.ops@, i + 1);
                let rhs = conflicting_upto(regs@, cmd.rifl, cmd.ops@, i as int);
                assert forall|y: Rifl| lhs.contains(y) implies deps@.to_set().contains(y) by {
                    let k = choose|k: int|
                        0 <= k < i + 1 && #[trigger] regs@[k].0 == y && conflicts_with(
                            cmd.ops@,
                            regs@[k].1@,
                            regs@[k].2,
                        );
                    if k < i {
                        assert(rhs.contains(y));
                    } else if before.contains(y) {
                        assert(before.to_set().contains(y));
                    }
                }
                assert forall|y: Rifl| deps@.to_set().contains(y) implies lhs.contains(y) by {
                    if before.to_set().contains(y) {
                        assert(rhs.contains(y));
                        let k = choose|k: int|
                            0 <= k < i && #[trigger] regs@[k].0 == y && conflicts_with(
                                cmd.ops@,
                                regs@[k].1@,
                                regs@[k].2,
                            );
                    }
                }
                assert(deps@.to_set() =~= lhs);
            }
            i = i + 1;
        }
        deps
    }

    /// Registers `cmd` at the next clock value of its keys and returns it:
    /// one more than the largest clock among the keys it touches, which all
    /// take that value. At the largest value the clock stays there.
    pub fn register(&mut self, cmd: &Command) -> (r: u64)
        requires
            old(self).wf(),
        ensures
            final(self).wf(),
            r >= 1,
            forall|k: Seq<char>|
                touches(cmd.ops@, k) && #[trigger] old(self).clocks().contains_key(k) ==> old(self).clocks()[k] < r || r == u64::MAX,
            r == 1 || exists|k: Seq<char>|
                touches(cmd.ops@, k) && #[trigger] old(self).clocks().contains_key(k) && (old(self).clocks()[k] + 1 == r
                    || old(self).clocks()[k] == u64::MAX),
            forall|k: Seq<char>|
                #[trigger] final(self).clocks().contains_key(k) == (old(self).clocks().contains_key(k) || touches(cmd.ops@, k)),
            forall|k: Seq<char>|
                touches(cmd.ops@, k) ==> #[trigger] final(self).clocks()[k] == r,
            forall|k: Seq<char>|
                !touches(cmd.ops@, k) && old(self).clocks().contains_key(k) ==> #[trigger] final(self).clocks()[k] == old(self).clocks()[k],
            final(self).registered() == old(self).registered() + cmd.ops@.map_values(
                |o: (Key, KVOp)| (cmd.rifl, o.0, o.1),
            ),
    {
        let ghost start = self.clocks@;
        let mut max: u64 = 0;
        let mut j: usize = 0;
        while j < cmd.ops.len()
            invariant
                self.wf(),
                self.clocks@ == start,
                j <= cmd.ops@.len(),
                forall|q: int|
                    0 <= q < j && start.contains_key(#[trigger] cmd.ops@[q].0@) ==> start[cmd.ops@[q].0@]
                        <= max,
                max == 0 || exists|q: int|
                    0 <= q < j && start.contains_key(#[trigger] cmd.ops@[q].0@) && start[cmd.ops@[q].0@]
                        == max,
            decreases cmd.ops@.len() - j,
        {
            match self.clocks.get(&cmd.ops[j].0) {
                Some(c) => {
                    if c > max {
                        max = c;
                    }
                },
                None => {},
            }
            j = j + 1;
        }
        let v: u64 = if max < u64::MAX {
            max + 1
        } else {
            max
        };
        let ghost regs_start = self.registered@;
        let mut j: usize = 0;
        while j < cmd.ops.len()
            invariant
                self.wf(),
                j <= cmd.ops@.len(),
                forall|k: Seq<char>|
                    #[trigger] self.clocks@.contains_key(k) == (start.contains_key(k) || exists|q: int|
                        0 <= q < j && #[trigger] cmd.ops@[q].0@ == k),
                forall|q: int| 0 <= q < j ==> #[trigger] self.clocks@[cmd.ops@[q].0@] == v,
                forall|k: Seq<char>|
                    !touches(cmd.ops@, k) && start.contains_key(k) ==> #[trigger] self.clocks@[k]
                        == start[k],
                self.registered@ == regs_start + cmd.ops@.subrange(0, j as int).map_values(
                    |o: (Key, KVOp)| (cmd.rifl, o.0, o.1),
                ),
            decreases cmd.ops@.len() - j,
        {
            let key = &cmd.ops[j].0;
            let _ = self.clocks.execute(key, KVOp::Put(v));
            self.registered.push((cmd.rifl, key.clone(), cmd.ops[j].1));
            proof {
                assert(cmd.ops@.subrange(0, j + 1) == cmd.ops@.subrange(0, j as int).push(cmd.ops@[j as int]));
                assert(cmd.ops@.subrange(0, j + 1).map_values(|o: (Key, KVOp)| (cmd.rifl, o.0, o.1))
                    == cmd.ops@.subrange(0, j as int).map_values(|o: (Key, KVOp)| (cmd.rifl, o.0, o.1)).push((cmd.rifl, cmd.ops@[j as int].0, cmd.ops@[j as int].1)));
                assert forall|k: Seq<char>|
                    !touches(cmd.ops@, k) && start.contains_key(k) implies #[trigger] self.clocks@[k]
                        == start[k] by {
                    assert(k != cmd.ops@[j as int].0@);
                }
                assert forall|k: Seq<char>|
                    #[trigger] self.clocks@.contains_key(k) == (start.contains_key(k) || exists|q: int|
                        0 <= q < j + 1 && #[trigger] cmd.ops@[q].0@ == k) by {
                    if k == cmd.ops@[j as int].0@ {
                        assert(cmd.ops@[j as int].0@ == k);
                    }
                }
            }
            j = j + 1;
        }
        proof {
            assert(cmd.ops@.subrange(0, cmd.ops@.len() as int) == cmd.ops@);
            assert forall|k: Seq<char>| touches(cmd.ops@, k) implies #[trigger] self.clocks@[k] == v by {
                let q = choose|q: int| 0 <= q < cmd.ops@.len() && #[trigger] cmd.ops@[q].0@ == k;
                assert(self.clocks@[cmd.ops@[q].0@] == v);
            }
            assert forall|k: Seq<char>|
                touches(cmd.ops@, k) && #[trigger] start.contains_key(k) implies start[k] < v || v
                    == u64::MAX by {
                let q = choose|q: int| 0 <= q < cmd.ops@.len() && #[trigger] cmd.ops@[q].0@ == k;
                assert(start.contains_key(cmd.ops@[q].0@));
            }
            if max != 0 {
                let q = choose|q: int|
                    0 <= q < cmd.ops@.len() && start.contains_key(#[trigger] cmd.ops@[q].0@)
                        && start[cmd.ops@[q].0@] == max;
                assert(touches(cmd.ops@, cmd.ops@[q].0@));
                assert(old(self).clocks() == start);
                assert(old(self).clocks().contains_key(cmd.ops@[q].0@));
            }
            assert forall|k: Seq<char>|
                #[trigger] self.clocks@.contains_key(k) == (start.contains_key(k) || touches(cmd.ops@, k)) by {
                if touches(cmd.ops@, k) {
                    let q = choose|q: int| 0 <= q < cmd.ops@.len() && #[trigger] cmd.ops@[q].0@ == k;
                }
            }
        }
        v
    }

    /// Forgets every registration of `rifl`, once its command executed.
    pub fn remove(&mut self, rifl: Rifl)
        requires
            old(self).wf(),
        ensures
            final(self).wf(),
            final(self).clocks() == old(self).clocks(),
            final(self).registered() == old(self).registered().filter(
                |x: (Rifl, Key, KVOp)| x.0 != rifl,
            ),
    {
        let mut kept: Vec<(Rifl, Key, KVOp)> = Vec::new();
        let ghost all = self.registered@;
        let mut i: usize = 0;
        while i < self.registered.len()
            invariant
                self.registered@ == all,
                self.wf(),
                self.clocks@ == old(self).clocks@,
                all == old(self).registered@,
                i <= all.len(),
                kept@ == all.subrange(0, i as int).filter(|x: (Rifl, Key, KVOp)| x.0 != rifl),
            decreases all.len() - i,
        {
            let e = &self.registered[i];
            proof {
                assert(all.subrange(0, i + 1) == all.subrange(0, i as int).push(all[i as int]));
                all.subrange(0, i as int).lemma_filter_push(all[i as int], |x: (Rifl, Key, KVOp)| x.0 != rifl);
            }
            if e.0 != rifl {
                kept.push((e.0, e.1.clone(), e.2));
            }
            i = i + 1;
        }
        assert(all.subrange(0, all.len() as int) == all);
        self.registered = kept;
    }
}

} // verus!
