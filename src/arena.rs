//! A stable-key arena: values stored under keys that are never reused, kept
//! in insertion order.

use vstd::prelude::*;

verus! {

/// An arena key. Keys are handed out by [`Arena::insert`] from a counter
/// that only grows, so a key never names two different values.
#[derive(Clone, Copy, Debug, PartialEq, Eq, Structural, Hash)]
pub struct Key {
    pub id: u64,
}

/// The abstract state of an [`Arena`].
pub struct ArenaModel<V> {
    /// The live entries, in insertion order.
    pub entries: Seq<(Key, V)>,
    /// The id the next inserted value receives.
    pub next: nat,
}

/// One mutation of an arena.
pub enum ArenaOp<V> {
    Insert(V),
    Remove(Key),
}

impl<V> ArenaModel<V> {
    /// Live keys strictly increase in insertion order and were all issued.
    pub open spec fn wf(self) -> bool {
        &&& forall|i: int, j: int|
            0 <= i < j < self.entries.len() ==> (#[trigger] self.entries[i]).0.id < (#[trigger] self.entries[j]).0.id
        &&& forall|i: int| 0 <= i < self.entries.len() ==> (#[trigger] self.entries[i]).0.id < self.next
        &&& self.next <= u64::MAX
    }

    pub open spec fn contains(self, k: Key) -> bool {
        exists|i: int| 0 <= i < self.entries.len() && (#[trigger] self.entries[i]).0 == k
    }

    /// The position of a live key.
    pub open spec fn index_of(self, k: Key) -> int {
        choose|i: int| 0 <= i < self.entries.len() && (#[trigger] self.entries[i]).0 == k
    }

    /// The value under a live key.
    pub open spec fn value_of(self, k: Key) -> V {
        self.entries[self.index_of(k)].1
    }

    /// The live keys in insertion order.
    pub open spec fn keys(self) -> Seq<Key> {
        self.entries.map_values(|e: (Key, V)| e.0)
    }

    /// `k` was handed out by this arena at some point.
    pub open spec fn issued(self, k: Key) -> bool {
        k.id < self.next
    }

    /// `k` was handed out and has since been removed.
    pub open spec fn retired(self, k: Key) -> bool {
        self.issued(k) && !self.contains(k)
    }

    pub open spec fn inserted(self, v: V) -> ArenaModel<V> {
        ArenaModel { entries: self.entries.push((Key { id: self.next as u64 }, v)), next: self.next + 1 }
    }

    pub open spec fn removed(self, k: Key) -> ArenaModel<V> {
        if self.contains(k) {
            ArenaModel { entries: self.entries.remove(self.index_of(k)), next: self.next }
        } else {
            self
        }
    }

    pub open spec fn replaced(self, k: Key, v: V) -> ArenaModel<V> {
        if self.contains(k) {
            ArenaModel { entries: self.entries.update(self.index_of(k), (k, v)), next: self.next }
        } else {
            self
        }
    }

    /// One mutation. Once every id has been handed out the arena takes no
    /// more values (`Arena::insert` rules that state out by its
    /// precondition).
    pub open spec fn step(self, op: ArenaOp<V>) -> ArenaModel<V> {
        match op {
            ArenaOp::Insert(v) => if self.next < u64::MAX {
                self.inserted(v)
            } else {
                self
            },
            ArenaOp::Remove(k) => self.removed(k),
        }
    }

    /// The state after applying `ops` in order.
    pub open spec fn apply(self, ops: Seq<ArenaOp<V>>) -> ArenaModel<V>
        decreases ops.len(),
    {
        if ops.len() == 0 {
            self
        } else {
            self.apply(ops.drop_last()).step(ops.last())
        }
    }
}

/// In a well-formed arena the position of a live key is the only one
/// holding it.
pub proof fn lemma_index_of<V>(m: ArenaModel<V>, i: int)
    requires
        m.wf(),
        0 <= i < m.entries.len(),
    ensures
        m.contains(m.entries[i].0),
        m.index_of(m.entries[i].0) == i,
        m.value_of(m.entries[i].0) == m.entries[i].1,
{
    let k = m.entries[i].0;
    assert(m.contains(k));
    let j = m.index_of(k);
    if j < i {
        assert(m.entries[j].0.id < m.entries[i].0.id);
    } else if i < j {
        assert(m.entries[i].0.id < m.entries[j].0.id);
    }
}

/// One insertion or removal keeps live keys unique, keeps every issued key
/// issued and every retired key retired.
pub proof fn lemma_step<V>(m: ArenaModel<V>, op: ArenaOp<V>)
    requires
        m.wf(),
    ensures
        m.step(op).wf(),
        m.next <= m.step(op).next,
        forall|k: Key| m.retired(k) ==> #[trigger] m.step(op).retired(k),
{
    let n = m.step(op);
    match op {
        ArenaOp::Insert(v) => if m.next < u64::MAX {
            assert(n.entries[m.entries.len() as int].0.id == m.next);
            assert forall|k: Key| m.retired(k) implies #[trigger] n.retired(k) by {
                if n.contains(k) {
                    let i = choose|i: int| 0 <= i < n.entries.len() && (#[trigger] n.entries[i]).0 == k;
                    if i < m.entries.len() {
                        assert(m.entries[i] == n.entries[i]);
                    }
                }
            }
            assert forall|i: int, j: int| 0 <= i < j < n.entries.len() implies (#[trigger] n.entries[i]).0.id
                < (#[trigger] n.entries[j]).0.id by {
                assert(n.entries[i] == m.entries[i]);
                if j < m.entries.len() {
                    assert(n.entries[j] == m.entries[j]);
                }
            }
            assert forall|i: int| 0 <= i < n.entries.len() implies (#[trigger] n.entries[i]).0.id < n.next by {
                if i < m.entries.len() {
                    assert(n.entries[i] == m.entries[i]);
                }
            }
        },
        ArenaOp::Remove(k) => {
            if m.contains(k) {
                let x = m.index_of(k);
                assert forall|i: int| 0 <= i < n.entries.len() implies #[trigger] n.entries[i] == (if i < x {
                    m.entries[i]
                } else {
                    m.entries[i + 1]
                }) by {}
                assert forall|i: int, j: int| 0 <= i < j < n.entries.len() implies (#[trigger] n.entries[i]).0.id
                    < (#[trigger] n.entries[j]).0.id by {
                    let a = if i < x { i } else { i + 1 };
                    let b = if j < x { j } else { j + 1 };
                    assert(m.entries[a].0.id < m.entries[b].0.id);
                }
                assert forall|i: int| 0 <= i < n.entries.len() implies (#[trigger] n.entries[i]).0.id < n.next by {
                    let a = if i < x { i } else { i + 1 };
                    assert(m.entries[a] == n.entries[i]);
                }
                assert forall|q: Key| m.retired(q) implies #[trigger] n.retired(q) by {
                    if n.contains(q) {
                        let i = choose|i: int| 0 <= i < n.entries.len() && (#[trigger] n.entries[i]).0 == q;
                        let a = if i < x { i } else { i + 1 };
                        assert(m.entries[a] == n.entries[i]);
                    }
                }
            }
        },
    }
}

/// For every sequence of insertions and removals, applied to a well-formed
/// arena: the live keys stay unique at every point (every intermediate state
/// is itself a well-formed arena), and a key that was removed never again
/// resolves to a value.
pub proof fn lemma_keys_unique_and_never_revived<V>(m: ArenaModel<V>, ops: Seq<ArenaOp<V>>)
    requires
        m.wf(),
    ensures
        m.apply(ops).wf(),
        forall|k: Key| m.retired(k) ==> !(#[trigger] m.apply(ops).contains(k)),
        forall|k: Key| m.retired(k) ==> #[trigger] m.apply(ops).retired(k),
    decreases ops.len(),
{
    if ops.len() > 0 {
        let before = m.apply(ops.drop_last());
        lemma_keys_unique_and_never_revived(m, ops.drop_last());
        lemma_step(before, ops.last());
        assert forall|k: Key| m.retired(k) implies #[trigger] m.apply(ops).retired(k) by {
            assert(before.retired(k));
        }
    }
    assert forall|k: Key| m.retired(k) implies !(#[trigger] m.apply(ops).contains(k)) by {
        assert(m.apply(ops).retired(k));
    }
}

/// Values stored under stable keys, in insertion order.
pub struct Arena<V> {
    entries: Vec<(Key, V)>,
    next: u64,
}

impl<V> View for Arena<V> {
    type V = ArenaModel<V>;

    closed spec fn view(&self) -> ArenaModel<V> {
        ArenaModel { entries: self.entries@, next: self.next as nat }
    }
}

impl<V> Arena<V> {
    pub fn new() -> (r: Arena<V>)
        ensures
            r@.wf(),
            r@.entries.len() == 0,
            r@.next == 0,
    {
        Arena { entries: Vec::new(), next: 0 }
    }

    fn find(&self, k: Key) -> (r: Option<usize>)
        requires
            self@.wf(),
        ensures
            r is None ==> !self@.contains(k),
            r matches Some(i) ==> i < self@.entries.len() && self@.index_of(k) == i && self@.contains(k),
    {
        let mut i: usize = 0;
        while i < self.entries.len()
            invariant
                i <= self.entries.len(),
                self@.wf(),
                forall|j: int| 0 <= j < i ==> (#[trigger] self.entries@[j]).0 != k,
            decreases self.entries.len() - i,
        {
            if self.entries[i].0.id == k.id {
                proof {
                    lemma_index_of(self@, i as int);
                }
                return Some(i);
            }
            i = i + 1;
        }
        None
    }

    /// Stores `v` under a key that this arena never handed out before.
    pub fn insert(&mut self, v: V) -> (k: Key)
        requires
            old(self)@.wf(),
            old(self)@.next < u64::MAX,
        ensures
            k == (Key { id: old(self)@.next as u64 }),
            !old(self)@.issued(k),
            final(self)@ == old(self)@.inserted(v),
            final(self)@.wf(),
    {
        let k = Key { id: self.next };
        self.entries.push((k, v));
        self.next = self.next + 1;
        proof {
            lemma_step(old(self)@, ArenaOp::Insert(v));
        }
        k
    }

    pub fn contains_key(&self, k: Key) -> (r: bool)
        requires
            self@.wf(),
        ensures
            r == self@.contains(k),
    {
        self.find(k).is_some()
    }

    /// The value under `k`, or `None` when `k` is stale or unknown.
    pub fn get(&self, k: Key) -> (r: Option<&V>)
        requires
            self@.wf(),
        ensures
            r is Some <==> self@.contains(k),
            r matches Some(v) ==> *v == self@.value_of(k),
    {
        match self.find(k) {
            Some(i) => Some(&self.entries[i].1),
            None => None,
        }
    }

    /// Replaces the value under a live key in place, keeping the key, and
    /// returns the old value; `None` when `k` is stale or unknown.
    pub fn replace(&mut self, k: Key, v: V) -> (r: Option<V>)
        requires
            old(self)@.wf(),
        ensures
            final(self)@ == old(self)@.replaced(k, v),
            final(self)@.wf(),
            r is Some <==> old(self)@.contains(k),
            r matches Some(x) ==> x == old(self)@.value_of(k),
    {
        match self.find(k) {
            Some(i) => {
                let (_, old_v) = self.entries.remove(i);
                self.entries.insert(i, (k, v));
                proof {
                    let m = old(self)@;
                    let n = self@;
                    assert(n.entries =~= m.entries.update(i as int, (k, v)));
                    assert forall|a: int| 0 <= a < n.entries.len() implies (#[trigger] n.entries[a]).0 == m.entries[a].0 by {}
                }
                Some(old_v)
            },
            None => None,
        }
    }

    /// Removes and returns the value under `k`; the key stays invalid for
    /// the rest of the arena's life. `None` when `k` is stale or unknown.
    pub fn remove(&mut self, k: Key) -> (r: Option<V>)
        requires
            old(self)@.wf(),
        ensures
            final(self)@ == old(self)@.removed(k),
            final(self)@.wf(),
            r is Some <==> old(self)@.contains(k),
            r matches Some(x) ==> x == old(self)@.value_of(k),
    {
        proof {
            lemma_step(old(self)@, ArenaOp::Remove(k));
        }
        match self.find(k) {
            Some(i) => {
                let (_, v) = self.entries.remove(i);
                Some(v)
            },
            None => None,
        }
    }

    /// Mutable access to the value under `k`, which keeps its key; `None`,
    /// with nothing changed, when `k` is stale or unknown.
    pub fn get_mut(&mut self, k: Key) -> (r: Option<&mut V>)
        requires
            old(self)@.wf(),
        ensures
            r is Some <==> old(self)@.contains(k),
            r is None ==> final(self)@ == old(self)@,
            r matches Some(v) ==> *v == old(self)@.value_of(k) && final(self)@ == old(self)@.replaced(k, *final(v)),
    {
        match self.find(k) {
            Some(i) => {
                let entry = &mut self.entries[i];
                Some(&mut entry.1)
            },
            None => None,
        }
    }

    /// The live entries, in insertion order.
    pub fn iter(&self) -> (r: Vec<(Key, &V)>)
        ensures
            r@.len() == self@.entries.len(),
            forall|i: int|
                0 <= i < r@.len() ==> (#[trigger] r@[i]).0 == self@.entries[i].0 && *r@[i].1 == self@.entries[i].1,
    {
        let mut r: Vec<(Key, &V)> = Vec::new();
        let mut i: usize = 0;
        while i < self.entries.len()
            invariant
                i <= self@.entries.len(),
                r@.len() == i,
                forall|j: int|
                    0 <= j < i ==> (#[trigger] r@[j]).0 == self@.entries[j].0 && *r@[j].1 == self@.entries[j].1,
            decreases self@.entries.len() - i,
        {
            let entry = &self.entries[i];
            r.push((entry.0, &entry.1));
            i = i + 1;
        }
        r
    }

    pub fn len(&self) -> (r: usize)
        ensures
            r == self@.entries.len(),
    {
        self.entries.len()
    }

    /// The live keys, in insertion order.
    pub fn keys(&self) -> (r: Vec<Key>)
        ensures
            r@ == self@.keys(),
    {
        let mut r: Vec<Key> = Vec::new();
        let mut i: usize = 0;
        while i < self.entries.len()
            invariant
                i <= self.entries.len(),
                r@ == self@.entries.subrange(0, i as int).map_values(|e: (Key, V)| e.0),
            decreases self.entries.len() - i,
        {
            r.push(self.entries[i].0);
            proof {
                assert(self@.entries.subrange(0, i + 1).map_values(|e: (Key, V)| e.0) =~= self@.entries.subrange(
                    0,
                    i as int,
                ).map_values(|e: (Key, V)| e.0).push(self@.entries[i as int].0));
            }
            i = i + 1;
        }
        assert(self@.entries.subrange(0, i as int) =~= self@.entries);
        r
    }
}

} // verus!
