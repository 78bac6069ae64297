use vstd::prelude::*;

verus! {

/// Key of the replicated store.
pub type Key = String;

/// Value held under a key.
pub type Value = u64;

/// Result of one operation on one key: the value the key held before the
/// operation, if any.
pub type KVOpResult = Option<Value>;

/// An operation on a single key.
#[derive(Clone, Copy, Debug, PartialEq, Eq, Structural)]
pub enum KVOp {
    Get,
    Put(Value),
    Delete,
}

/// The value `key` holds in `store`, as an operation result.
pub open spec fn lookup(store: Map<Seq<char>, Value>, key: Seq<char>) -> KVOpResult {
    if store.contains_key(key) {
        Some(store[key])
    } else {
        None
    }
}

/// The store after applying `op` to `key`.
pub open spec fn applied(store: Map<Seq<char>, Value>, key: Seq<char>, op: KVOp) -> Map<
    Seq<char>,
    Value,
> {
    match op {
        KVOp::Get => store,
        KVOp::Put(v) => store.insert(key, v),
        KVOp::Delete => store.remove(key),
    }
}

/// An in-memory key-value store. Every operation returns the value the key
/// held before it.
pub struct KVStore {
    entries: Vec<(Key, Value)>,
    model: Ghost<Map<Seq<char>, Value>>,
}

impl View for KVStore {
    type V = Map<Seq<char>, Value>;

    closed spec fn view(&self) -> Map<Seq<char>, Value> {
        self.model@
    }
}

impl KVStore {
    pub closed spec fn wf(&self) -> bool {
        &&& forall|i: int|
            0 <= i < self.entries@.len() ==> {
                &&& self.model@.contains_key(#[trigger] self.entries@[i].0@)
                &&& self.model@[self.entries@[i].0@] == self.entries@[i].1
            }
        &&& forall|k: Seq<char>|
            #[trigger] self.model@.contains_key(k) ==> exists|i: int|
                0 <= i < self.entries@.len() && #[trigger] self.entries@[i].0@ == k
        &&& forall|i: int, j: int|
            0 <= i < self.entries@.len() && 0 <= j < self.entries@.len()
                && #[trigger] self.entries@[i].0@ == #[trigger] self.entries@[j].0@ ==> i == j
    }

    pub fn new() -> (r: Self)
        ensures
            r.wf(),
            r@ == Map::<Seq<char>, Value>::empty(),
    {
        KVStore { entries: Vec::new(), model: Ghost(Map::empty()) }
    }

    fn find(&self, key: &Key) -> (r: Option<usize>)
        requires
            self.wf(),
        ensures
            r matches Some(i) ==> i < self.entries@.len() && self.entries@[i as int].0@ == key@,
            r is None ==> !self@.contains_key(key@),
    {
        let mut i: usize = 0;
        while i < self.entries.len()
            invariant
                self.wf(),
                i <= self.entries@.len(),
                forall|j: int| 0 <= j < i ==> self.entries@[j].0@ != key@,
            decreases self.entries@.len() - i,
        {
            if self.entries[i].0 == *key {
                return Some(i);
            }
            i = i + 1;
        }
        None
    }

    fn take(&mut self, i: usize) -> (e: (Key, Value))
        requires
            old(self).wf(),
            i < old(self).entries@.len(),
        ensures
            e == old(self).entries@[i as int],
            old(self)@.contains_key(e.0@),
            old(self)@[e.0@] == e.1,
            final(self).wf(),
            final(self)@ == old(self)@.remove(e.0@),
    {
        let ghost before = self.entries@;
        let e = self.entries.remove(i);
        self.model = Ghost(self.model@.remove(e.0@));
        assert forall|j: int| 0 <= j < self.entries@.len() implies self.entries@[j].0@ != e.0@ by {
            if j < i {
                assert(before[j] == self.entries@[j]);
            } else {
                assert(before[j + 1] == self.entries@[j]);
            }
        }
        assert forall|k: Seq<char>| #[trigger] self.model@.contains_key(k) implies exists|m: int|
            0 <= m < self.entries@.len() && #[trigger] self.entries@[m].0@ == k by {
            let m = choose|m: int| 0 <= m < before.len() && #[trigger] before[m].0@ == k;
            if m < i {
                assert(self.entries@[m].0@ == k);
            } else {
                assert(self.entries@[m - 1].0@ == k);
            }
        }
        e
    }

    fn put(&mut self, e: (Key, Value))
        requires
            old(self).wf(),
            !old(self)@.contains_key(e.0@),
        ensures
            final(self).wf(),
            final(self)@ == old(self)@.insert(e.0@, e.1),
    {
        let ghost before = self.entries@;
        let ghost k = e.0@;
        let ghost v = e.1;
        self.entries.push(e);
        self.model = Ghost(self.model@.insert(k, v));
        assert(self.entries@[before.len() as int].0@ == k);
        assert forall|j: int| 0 <= j < before.len() implies self.entries@[j].0@ != k by {
            assert(self.entries@[j] == before[j]);
            if self.entries@[j].0@ == k {
                assert(old(self).model@.contains_key(before[j].0@));
            }
        }
        assert forall|q: Seq<char>| #[trigger] self.model@.contains_key(q) implies exists|m: int|
            0 <= m < self.entries@.len() && #[trigger] self.entries@[m].0@ == q by {
            if q != k {
                let m = choose|m: int| 0 <= m < before.len() && #[trigger] before[m].0@ == q;
                assert(self.entries@[m].0@ == q);
            }
        }
    }

    /// The value `key` holds.
    pub fn get(&self, key: &Key) -> (r: KVOpResult)
        requires
            self.wf(),
        ensures
            r == lookup(self@, key@),
    {
        match self.find(key) {
            Some(i) => Some(self.entries[i].1),
            None => None,
        }
    }

    /// Applies `op` to `key` and returns the value `key` held before.
    pub fn execute(&mut self, key: &Key, op: KVOp) -> (r: KVOpResult)
        requires
            old(self).wf(),
        ensures
            final(self).wf(),
            r == lookup(old(self)@, key@),
            final(self)@ == applied(old(self)@, key@, op),
    {
        let previous = match self.find(key) {
            Some(i) => {
                let e = self.take(i);
                let v = e.1;
                match op {
                    KVOp::Get => {
                        self.put(e);
                        assert(self@ =~= old(self)@);
                    },
                    KVOp::Put(w) => {
                        self.put((e.0, w));
                        assert(self@ =~= old(self)@.insert(key@, w));
                    },
                    KVOp::Delete => {},
                }
                Some(v)
            },
            None => {
                match op {
                    KVOp::Get => {},
                    KVOp::Put(w) => {
                        self.put((key.clone(), w));
                    },
                    KVOp::Delete => {
                        assert(self@ =~= old(self)@.remove(key@));
                    },
                }
                None
            },
        };
        previous
    }
}

} // verus!
