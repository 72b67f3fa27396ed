//! Keyed list reconciliation: turning the view handles built for the
//! previous keyed sequence into those for the current one, building only
//! for new keys and disposing only of vanished ones.

use vstd::prelude::*;
use std::collections::HashMap;
use crate::arena::Key;

verus! {

broadcast use vstd::std_specs::hash::group_hash_axioms;

/// The keys of a keyed sequence.
pub open spec fn keys_of<X>(s: Seq<(Key, X)>) -> Seq<Key> {
    s.map_values(|e: (Key, X)| e.0)
}

/// Position `j` holds the first key that occurs earlier in `ks`.
pub open spec fn first_repeat(ks: Seq<Key>, j: int) -> bool {
    &&& 0 <= j < ks.len()
    &&& ks.subrange(0, j).no_duplicates()
    &&& ks.subrange(0, j).contains(ks[j])
}

/// The keys of `next` that `prev` lacks, in the order of `next`: the keys
/// that need a view built.
pub open spec fn fresh_keys(prev: Seq<Key>, next: Seq<Key>) -> Seq<Key>
    decreases next.len(),
{
    if next.len() == 0 {
        seq![]
    } else {
        let rest = fresh_keys(prev, next.drop_last());
        if prev.contains(next.last()) {
            rest
        } else {
            rest.push(next.last())
        }
    }
}

/// The entries of `prev` whose key `next` lacks, in the order of `prev`: the
/// views to dispose of.
pub open spec fn dropped<H>(prev: Seq<(Key, H)>, next: Seq<Key>) -> Seq<(Key, H)>
    decreases prev.len(),
{
    if prev.len() == 0 {
        seq![]
    } else {
        let rest = dropped(prev.drop_last(), next);
        if next.contains(prev.last().0) {
            rest
        } else {
            rest.push(prev.last())
        }
    }
}

/// Keys paired with the views at the same positions.
pub open spec fn zip_views<H>(keys: Seq<Key>, views: Seq<H>) -> Seq<(Key, H)> {
    Seq::new(keys.len(), |j: int| (keys[j], views[j]))
}

/// `views` has one handle per key, and a key that `prev` already had keeps
/// its handle from `prev`.
pub open spec fn reuses<H>(prev: Seq<(Key, H)>, keys: Seq<Key>, views: Seq<H>) -> bool {
    &&& views.len() == keys.len()
    &&& forall|i: int, j: int|
        0 <= i < prev.len() && 0 <= j < keys.len() && (#[trigger] prev[i]).0 == #[trigger] keys[j] ==> views[j]
            == prev[i].1
}

/// One reconciliation pass: from the live views `prev` and the current keys,
/// the output `views` and the new live views `next`.
pub open spec fn is_reconciliation<H>(
    prev: Seq<(Key, H)>,
    keys: Seq<Key>,
    views: Seq<H>,
    next: Seq<(Key, H)>,
) -> bool {
    &&& reuses(prev, keys, views)
    &&& next == zip_views(keys, views)
}

/// Misuse of the reconciler.
#[derive(Clone, Copy, Debug, PartialEq, Eq, Structural)]
pub enum ReconcileError {
    /// The input holds `key` twice.
    DuplicateKey { key: Key },
}

/// The outcome of committing a reconciliation pass.
pub struct Reconciled<H> {
    /// One handle per key, in key order.
    pub views: Vec<H>,
    /// The views whose keys vanished, handed back for disposal, in their
    /// previous order.
    pub disposed: Vec<(Key, H)>,
}

/// Positions of `keys`, by key id, or the first repeated key.
fn index_keys(keys: &Vec<Key>) -> (r: Result<HashMap<u64, usize>, Key>)
    ensures
        r matches Ok(m) ==> {
            &&& keys@.no_duplicates()
            &&& forall|id: u64|
                #[trigger] m@.contains_key(id) ==> m@[id] < keys@.len() && keys@[m@[id] as int].id == id
            &&& forall|j: int|
                0 <= j < keys@.len() ==> #[trigger] m@.contains_key(keys@[j].id) && m@[keys@[j].id] == j
        },
        r matches Err(k) ==> exists|j: int| first_repeat(keys@, j) && keys@[j] == k,
{
    let ghost ks = keys@;
    let mut m: HashMap<u64, usize> = HashMap::new();
    let mut j: usize = 0;
    while j < keys.len()
        invariant
            j <= ks.len(),
            ks == keys@,
            forall|id: u64| #[trigger] m@.contains_key(id) ==> m@[id] < j && ks[m@[id] as int].id == id,
            forall|i: int| 0 <= i < j ==> #[trigger] m@.contains_key(ks[i].id) && m@[ks[i].id] == i,
        decreases ks.len() - j,
    {
        let key = keys[j];
        if m.contains_key(&key.id) {
            proof {
                let i = m@[key.id] as int;
                assert(ks[i] == ks[j as int]);
                assert(ks.subrange(0, j as int)[i] == ks[j as int]);
                assert forall|a: int, b: int| 0 <= a < b < j implies ks.subrange(0, j as int)[a] != ks.subrange(
                    0,
                    j as int,
                )[b] by {
                    assert(m@.contains_key(ks[a].id));
                    assert(m@.contains_key(ks[b].id));
                    assert(ks.subrange(0, j as int)[a] == ks[a]);
                    assert(ks.subrange(0, j as int)[b] == ks[b]);
                }
                assert(first_repeat(ks, j as int));
            }
            return Err(key);
        }
        m.insert(key.id, j);
        j = j + 1;
    }
    proof {
        assert forall|a: int, b: int| 0 <= a < ks.len() && 0 <= b < ks.len() && a != b implies ks[a] != ks[b] by {
            assert(m@.contains_key(ks[a].id));
            assert(m@.contains_key(ks[b].id));
        }
    }
    Ok(m)
}

/// Fresh keys only accumulate along a sequence.
pub proof fn lemma_fresh_keys_grow(prev: Seq<Key>, ks: Seq<Key>, a: int, b: int)
    requires
        0 <= a <= b <= ks.len(),
    ensures
        fresh_keys(prev, ks.subrange(0, a)).len() <= fresh_keys(prev, ks.subrange(0, b)).len(),
    decreases b - a,
{
    if a < b {
        lemma_fresh_keys_grow(prev, ks, a, b - 1);
        assert(ks.subrange(0, b).drop_last() =~= ks.subrange(0, b - 1));
    }
}

/// Keeps the view handles of the last reconciled sequence, by key.
///
/// A pass has two steps: [`Reconciler::plan`] names the keys that need a
/// view, the caller builds one handle for each of them and no other, and
/// [`Reconciler::commit`] takes exactly those handles.
pub struct Reconciler<H> {
    live: Vec<(Key, H)>,
}

impl<H: Copy> Reconciler<H> {
    /// The live views, in the order of the last output.
    pub closed spec fn live(&self) -> Seq<(Key, H)> {
        self.live@
    }

    pub open spec fn wf(&self) -> bool {
        keys_of(self.live()).no_duplicates()
    }

    pub fn new() -> (r: Reconciler<H>)
        ensures
            r.wf(),
            r.live().len() == 0,
    {
        let r = Reconciler { live: Vec::new() };
        assert(keys_of(r.live()) =~= seq![]);
        r
    }

    /// How many views are live.
    pub fn len(&self) -> (r: usize)
        ensures
            r == self.live().len(),
    {
        self.live.len()
    }

    fn live_keys(&self) -> (r: Vec<Key>)
        ensures
            r@ == keys_of(self.live()),
    {
        let mut r: Vec<Key> = Vec::new();
        let mut i: usize = 0;
        while i < self.live.len()
            invariant
                i <= self.live@.len(),
                r@ == keys_of(self.live@.subrange(0, i as int)),
            decreases self.live@.len() - i,
        {
            r.push(self.live[i].0);
            proof {
                assert(keys_of(self.live@.subrange(0, i + 1)) =~= keys_of(self.live@.subrange(0, i as int)).push(
                    self.live@[i as int].0,
                ));
            }
            i = i + 1;
        }
        assert(self.live@.subrange(0, i as int) =~= self.live@);
        r
    }

    /// The keys of `keys` that need a view built: those not live, in the
    /// order of `keys`. When `keys` holds a key twice, the first repeated
    /// key is reported.
    pub fn plan(&self, keys: &Vec<Key>) -> (r: Result<Vec<Key>, ReconcileError>)
        requires
            self.wf(),
        ensures
            r is Ok <==> keys@.no_duplicates(),
            r matches Ok(fresh) ==> fresh@ == fresh_keys(keys_of(self.live()), keys@),
            r matches Err(ReconcileError::DuplicateKey { key }) ==> exists|j: int|
                first_repeat(keys@, j) && keys@[j] == key,
    {
        let ghost ks = keys@;
        let ghost pk = keys_of(self.live());
        if let Err(key) = index_keys(keys) {
            return Err(ReconcileError::DuplicateKey { key });
        }
        let lk = self.live_keys();
        let old_pos = match index_keys(&lk) {
            Ok(m) => m,
            Err(key) => {
                proof {
                    let j = choose|j: int| first_repeat(pk, j) && pk[j] == key;
                    lemma_unique_has_no_repeat(pk, j);
                }
                return Err(ReconcileError::DuplicateKey { key });
            },
        };
        let mut fresh: Vec<Key> = Vec::new();
        let mut j: usize = 0;
        while j < keys.len()
            invariant
                j <= ks.len(),
                ks == keys@,
                pk == lk@,
                forall|id: u64| #[trigger] old_pos@.contains_key(id) ==> old_pos@[id] < pk.len() && pk[old_pos@[id] as int].id == id,
                forall|i: int| 0 <= i < pk.len() ==> #[trigger] old_pos@.contains_key(pk[i].id),
                fresh@ == fresh_keys(pk, ks.subrange(0, j as int)),
            decreases ks.len() - j,
        {
            let key = keys[j];
            let live = old_pos.contains_key(&key.id);
            proof {
                if live {
                    assert(pk[old_pos@[key.id] as int] == key);
                    assert(pk.contains(key));
                } else if pk.contains(key) {
                    let a = choose|a: int| 0 <= a < pk.len() && pk[a] == key;
                    assert(old_pos@.contains_key(pk[a].id));
                }
                assert(ks.subrange(0, j + 1).drop_last() =~= ks.subrange(0, j as int));
            }
            if !live {
                fresh.push(key);
            }
            j = j + 1;
        }
        assert(ks.subrange(0, j as int) =~= ks);
        Ok(fresh)
    }

    /// Completes a pass over `keys`, taking one handle for each key that
    /// [`Reconciler::plan`] named, in that order. A key that was live keeps
    /// its handle wherever it moved; a vanished key's view is handed back in
    /// `disposed` and leaves the live set. The output follows the order of
    /// `keys`. When `keys` holds a key twice, the first repeated key is
    /// reported and nothing changes.
    pub fn commit(&mut self, keys: &Vec<Key>, built: Vec<H>) -> (r: Result<Reconciled<H>, ReconcileError>)
        requires
            old(self).wf(),
            built@.len() == fresh_keys(keys_of(old(self).live()), keys@).len(),
        ensures
            r is Ok <==> keys@.no_duplicates(),
            r matches Ok(out) ==> {
                &&& is_reconciliation(old(self).live(), keys@, out.views@, final(self).live())
                &&& out.disposed@ == dropped(old(self).live(), keys@)
                &&& forall|j: int|
                    0 <= j < keys@.len() && !keys_of(old(self).live()).contains(#[trigger] keys@[j]) ==> out.views@[j]
                        == built@[fresh_keys(keys_of(old(self).live()), keys@.subrange(0, j)).len() as int]
            },
            r matches Err(ReconcileError::DuplicateKey { key }) ==> {
                &&& exists|j: int| first_repeat(keys@, j) && keys@[j] == key
                &&& final(self).live() == old(self).live()
            },
            final(self).wf(),
    {
        let ghost ks = keys@;
        let ghost prev = self.live@;
        let ghost pk = keys_of(prev);
        let new_pos = match index_keys(keys) {
            Ok(m) => m,
            Err(key) => {
                return Err(ReconcileError::DuplicateKey { key });
            },
        };
        let lk = self.live_keys();
        let old_pos = match index_keys(&lk) {
            Ok(m) => m,
            Err(key) => {
                proof {
                    let j = choose|j: int| first_repeat(pk, j) && pk[j] == key;
                    lemma_unique_has_no_repeat(pk, j);
                }
                return Err(ReconcileError::DuplicateKey { key });
            },
        };
        let n = keys.len();
        let mut views: Vec<H> = Vec::new();
        let mut next_live: Vec<(Key, H)> = Vec::new();
        let mut b: usize = 0;
        let mut j: usize = 0;
        while j < n
            invariant
                n == ks.len(),
                j <= n,
                ks == keys@,
                prev == self.live@,
                pk == keys_of(prev),
                pk == lk@,
                pk.no_duplicates(),
                built@.len() == fresh_keys(pk, ks).len(),
                forall|id: u64| #[trigger] old_pos@.contains_key(id) ==> old_pos@[id] < pk.len() && pk[old_pos@[id] as int].id == id,
                forall|i: int| 0 <= i < pk.len() ==> #[trigger] old_pos@.contains_key(pk[i].id) && old_pos@[pk[i].id] == i,
                views@.len() == j,
                b == fresh_keys(pk, ks.subrange(0, j as int)).len(),
                next_live@ == zip_views(ks.subrange(0, j as int), views@),
                forall|i: int, jj: int|
                    0 <= i < prev.len() && 0 <= jj < j && (#[trigger] prev[i]).0 == #[trigger] ks[jj] ==> views@[jj]
                        == prev[i].1,
                forall|jj: int|
                    0 <= jj < j && !pk.contains(#[trigger] ks[jj]) ==> views@[jj] == built@[fresh_keys(
                        pk,
                        ks.subrange(0, jj),
                    ).len() as int],
            decreases n - j,
        {
            let key = keys[j];
            let ghost before = views@;
            proof {
                assert(ks.subrange(0, j + 1).drop_last() =~= ks.subrange(0, j as int));
                lemma_fresh_keys_grow(pk, ks, j + 1, n as int);
                assert(ks.subrange(0, n as int) =~= ks);
            }
            match old_pos.get(&key.id) {
                Some(i) => {
                    let i = *i;
                    let h = self.live[i].1;
                    views.push(h);
                    next_live.push((key, h));
                    proof {
                        assert(pk[i as int] == key);
                        assert(prev[i as int].0 == pk[i as int]);
                        assert(pk.contains(key));
                        assert forall|a: int| 0 <= a < prev.len() && (#[trigger] prev[a]).0 == key implies a == i by {
                            assert(pk[a] == prev[a].0);
                        }
                    }
                },
                None => {
                    proof {
                        assert forall|a: int| 0 <= a < prev.len() implies (#[trigger] prev[a]).0 != key by {
                            assert(pk[a] == prev[a].0);
                            assert(old_pos@.contains_key(pk[a].id));
                        }
                        assert(!pk.contains(key)) by {
                            if pk.contains(key) {
                                let a = choose|a: int| 0 <= a < pk.len() && pk[a] == key;
                                assert(old_pos@.contains_key(pk[a].id));
                            }
                        }
                    }
                    let h = built[b];
                    views.push(h);
                    next_live.push((key, h));
                    b = b + 1;
                },
            }
            proof {
                let sub = ks.subrange(0, j + 1);
                assert(sub.last() == key);
                assert(next_live@ =~= zip_views(sub, views@));
                assert forall|a: int| 0 <= a < j implies views@[a] == before[a] by {}
            }
            j = j + 1;
        }
        let mut disposed: Vec<(Key, H)> = Vec::new();
        let mut i: usize = 0;
        while i < self.live.len()
            invariant
                i <= prev.len(),
                prev == self.live@,
                ks == keys@,
                forall|id: u64| #[trigger] new_pos@.contains_key(id) ==> new_pos@[id] < ks.len() && ks[new_pos@[id] as int].id == id,
                forall|jj: int| 0 <= jj < ks.len() ==> #[trigger] new_pos@.contains_key(ks[jj].id),
                disposed@ == dropped(prev.subrange(0, i as int), ks),
            decreases prev.len() - i,
        {
            let entry = self.live[i];
            let present = new_pos.contains_key(&entry.0.id);
            proof {
                if present {
                    let jj = new_pos@[entry.0.id] as int;
                    assert(ks[jj] == entry.0);
                    assert(ks.contains(entry.0));
                } else {
                    assert forall|jj: int| 0 <= jj < ks.len() implies ks[jj] != entry.0 by {
                        assert(new_pos@.contains_key(ks[jj].id));
                    }
                }
                let sub = prev.subrange(0, i + 1);
                assert(sub.drop_last() =~= prev.subrange(0, i as int));
                assert(sub.last() == entry);
            }
            if !present {
                disposed.push(entry);
            }
            i = i + 1;
        }
        proof {
            assert(prev.subrange(0, i as int) =~= prev);
            assert(ks.subrange(0, n as int) =~= ks);
            assert(keys_of(next_live@) =~= ks);
        }
        self.live = next_live;
        Ok(Reconciled { views, disposed })
    }
}

/// A sequence without duplicates has no first repeat.
pub proof fn lemma_unique_has_no_repeat(ks: Seq<Key>, j: int)
    requires
        ks.no_duplicates(),
    ensures
        !first_repeat(ks, j),
{
    if first_repeat(ks, j) {
        let i = choose|i: int| 0 <= i < j && ks.subrange(0, j)[i] == ks[j];
        assert(ks[i] == ks[j]);
    }
}

/// No key of `next` is missing from `prev`: nothing is fresh.
pub proof fn lemma_nothing_fresh(prev: Seq<Key>, next: Seq<Key>)
    requires
        forall|j: int| 0 <= j < next.len() ==> prev.contains(#[trigger] next[j]),
    ensures
        fresh_keys(prev, next).len() == 0,
    decreases next.len(),
{
    if next.len() > 0 {
        let rest = next.drop_last();
        assert forall|j: int| 0 <= j < rest.len() implies prev.contains(#[trigger] rest[j]) by {
            assert(rest[j] == next[j]);
        }
        lemma_nothing_fresh(prev, rest);
        assert(prev.contains(next[next.len() - 1]));
    }
}

/// No key of `prev` is missing from `next`: nothing is dropped.
pub proof fn lemma_nothing_dropped<H>(prev: Seq<(Key, H)>, next: Seq<Key>)
    requires
        forall|i: int| 0 <= i < prev.len() ==> next.contains((#[trigger] prev[i]).0),
    ensures
        dropped(prev, next).len() == 0,
    decreases prev.len(),
{
    if prev.len() > 0 {
        let rest = prev.drop_last();
        assert forall|i: int| 0 <= i < rest.len() implies next.contains((#[trigger] rest[i]).0) by {
            assert(rest[i] == prev[i]);
        }
        lemma_nothing_dropped(rest, next);
        assert(next.contains(prev[prev.len() - 1].0));
    }
}

/// Reordering a sequence without adding or removing keys plans no view to
/// build, so the pass constructs nothing, and disposes of none: the output
/// only puts the previous handles in the new order.
pub proof fn lemma_reorder_builds_and_disposes_nothing<H>(
    prev: Seq<(Key, H)>,
    keys: Seq<Key>,
    views: Seq<H>,
    next: Seq<(Key, H)>,
)
    requires
        forall|k: Key| keys_of(prev).contains(k) <==> keys.contains(k),
        is_reconciliation(prev, keys, views, next),
    ensures
        fresh_keys(keys_of(prev), keys).len() == 0,
        dropped(prev, keys).len() == 0,
        forall|j: int|
            0 <= j < keys.len() ==> exists|i: int| 0 <= i < prev.len() && prev[i] == (keys[j], #[trigger] views[j]),
{
    let pk = keys_of(prev);
    assert forall|j: int| 0 <= j < keys.len() implies pk.contains(#[trigger] keys[j]) by {
        assert(keys.contains(keys[j]));
    }
    lemma_nothing_fresh(pk, keys);
    assert forall|i: int| 0 <= i < prev.len() implies keys.contains((#[trigger] prev[i]).0) by {
        assert(pk[i] == prev[i].0);
        assert(pk.contains(prev[i].0));
    }
    lemma_nothing_dropped(prev, keys);
    assert forall|j: int| 0 <= j < keys.len() implies exists|i: int|
        0 <= i < prev.len() && prev[i] == (keys[j], #[trigger] views[j]) by {
        let i = choose|i: int| 0 <= i < pk.len() && pk[i] == keys[j];
        assert(prev[i].0 == keys[j]);
        assert(views[j] == prev[i].1);
        assert(prev[i] == (keys[j], views[j]));
    }
}

/// Across two consecutive passes, a key present in both gets in the second
/// output the very handle it had in the first.
pub proof fn lemma_handle_kept_across_passes<H>(
    live0: Seq<(Key, H)>,
    keys1: Seq<Key>,
    views1: Seq<H>,
    live1: Seq<(Key, H)>,
    keys2: Seq<Key>,
    views2: Seq<H>,
    live2: Seq<(Key, H)>,
    j1: int,
    j2: int,
)
    requires
        is_reconciliation(live0, keys1, views1, live1),
        is_reconciliation(live1, keys2, views2, live2),
        0 <= j1 < keys1.len(),
        0 <= j2 < keys2.len(),
        keys1[j1] == keys2[j2],
    ensures
        views2[j2] == views1[j1],
{
    assert(live1[j1] == (keys1[j1], views1[j1]));
}

} // verus!
