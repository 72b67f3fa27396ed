//! The dependency graph: which effects read which signals, which effects are
//! running, and which are scheduled to run again.

use vstd::prelude::*;

verus! {

/// Identifies a signal of a [`Runtime`]. Only the runtime hands these out,
/// one per allocated signal.
#[derive(Clone, Copy, Debug, PartialEq, Eq, Structural, Hash)]
pub struct SignalId {
    index: usize,
}

impl SignalId {
    /// The position of this signal among the runtime's allocations.
    pub closed spec fn spec_index(self) -> usize {
        self.index
    }
}

/// Identifies an effect of a [`Runtime`].
#[derive(Clone, Copy, Debug, PartialEq, Eq, Structural, Hash)]
pub struct EffectId {
    pub index: usize,
}

/// Structural misuse of the runtime.
#[derive(Clone, Copy, Debug, PartialEq, Eq, Structural)]
pub enum ReactiveError {
    /// The next scheduled effect is still running, or was scheduled by a
    /// chain of writes that started from one of its own runs: the effects
    /// form a cycle.
    CyclicDependency { effect: EffectId },
}

/// The abstract state of a [`Runtime`].
pub struct RuntimeView {
    /// How many signals have been allocated.
    pub signal_count: nat,
    /// For each effect, the signals it read during its most recent run.
    pub deps: Seq<Seq<usize>>,
    /// The effects whose runs are in progress, innermost last.
    pub running: Seq<usize>,
    /// The effects scheduled to run again, in the order they will run.
    pub pending: Seq<usize>,
    /// For each effect, the effects whose runs led to its being scheduled,
    /// directly or through a chain of writes.
    pub causes: Seq<Set<usize>>,
    /// For each effect, the causes its current or latest run started with.
    pub lineage: Seq<Set<usize>>,
}

/// `s` with `x` added at the end unless it is already there.
pub open spec fn with_member(s: Seq<usize>, x: usize) -> Seq<usize> {
    if s.contains(x) {
        s
    } else {
        s.push(x)
    }
}

/// A position of `x` in `s`.
pub open spec fn position_of(s: Seq<usize>, x: usize) -> int {
    choose|i: int| 0 <= i < s.len() && s[i] == x
}

/// `s` with `x` taken out, where `s` holds `x` at most once.
pub open spec fn without(s: Seq<usize>, x: usize) -> Seq<usize> {
    if s.contains(x) {
        s.remove(position_of(s, x))
    } else {
        s
    }
}

/// The dependents of signal `s` among the first `n` effects that `set(s)`
/// adds to the queue `pending`, in increasing effect order.
pub open spec fn newly_scheduled(deps: Seq<Seq<usize>>, pending: Seq<usize>, s: usize, n: nat) -> Seq<
    usize,
>
    decreases n,
{
    if n == 0 {
        seq![]
    } else {
        let e = (n - 1) as nat;
        let rest = newly_scheduled(deps, pending, s, e);
        if deps[e as int].contains(s) && !pending.contains(e as usize) {
            rest.push(e as usize)
        } else {
            rest
        }
    }
}

/// The number of effects among the first `n` that depend on signal `s`.
pub open spec fn dependent_count(deps: Seq<Seq<usize>>, s: usize, n: nat) -> nat
    decreases n,
{
    if n == 0 {
        0
    } else {
        let e = (n - 1) as nat;
        dependent_count(deps, s, e) + if deps[e as int].contains(s) {
            1nat
        } else {
            0nat
        }
    }
}

impl RuntimeView {
    pub open spec fn wf(self) -> bool {
        &&& self.deps.len() <= usize::MAX
        &&& self.causes.len() == self.deps.len()
        &&& self.lineage.len() == self.deps.len()
        &&& self.pending.no_duplicates()
        &&& self.running.no_duplicates()
        &&& forall|i: int| 0 <= i < self.pending.len() ==> #[trigger] self.pending[i] < self.deps.len()
        &&& forall|i: int| 0 <= i < self.running.len() ==> #[trigger] self.running[i] < self.deps.len()
        &&& forall|e: int| 0 <= e < self.deps.len() ==> #[trigger] self.deps[e].no_duplicates()
        &&& forall|e: int, i: int|
            0 <= e < self.deps.len() && 0 <= i < self.deps[e].len() ==> #[trigger] self.deps[e][i] < self.signal_count
    }

    /// Effect `e` read signal `s` during its most recent run.
    pub open spec fn is_dependent(self, e: usize, s: usize) -> bool {
        e < self.deps.len() && self.deps[e as int].contains(s)
    }

    /// A recorded read of `s`: the innermost running effect, if any, now
    /// depends on `s`.
    pub open spec fn after_read(self, s: usize) -> RuntimeView {
        if self.running.len() == 0 {
            self
        } else {
            let top = self.running.last();
            RuntimeView {
                deps: self.deps.update(top as int, with_member(self.deps[top as int], s)),
                ..self
            }
        }
    }

    /// What a write made now passes on to a dependent `e`: nothing outside
    /// any run; inside a run, that run's lineage, plus the running effect
    /// itself unless `e` is that effect.
    pub open spec fn cause_for(self, e: usize) -> Set<usize> {
        if self.running.len() == 0 {
            Set::empty()
        } else {
            let top = self.running.last();
            if e == top {
                self.lineage[top as int]
            } else {
                self.lineage[top as int].insert(top)
            }
        }
    }

    /// A write to `s`: every current dependent of `s` that is not yet
    /// scheduled joins the queue, and every dependent gains the write's
    /// causes.
    pub open spec fn notified(self, s: usize) -> RuntimeView {
        RuntimeView {
            pending: self.pending + newly_scheduled(
                self.deps,
                self.pending,
                s,
                self.deps.len(),
            ),
            causes: Seq::new(
                self.causes.len(),
                |e: int|
                    if self.deps[e].contains(s) {
                        (if self.pending.contains(e as usize) {
                            self.causes[e]
                        } else {
                            Set::empty()
                        }).union(self.cause_for(e as usize))
                    } else {
                        self.causes[e]
                    },
            ),
            ..self
        }
    }

    /// The first scheduled effect would close a cycle: its previous run is
    /// still in progress, or it is among its own causes.
    pub open spec fn next_closes_cycle(self) -> bool {
        let e = self.pending[0];
        self.running.contains(e) || self.causes[e as int].contains(e)
    }

    /// A new signal.
    pub open spec fn with_signal(self) -> RuntimeView {
        RuntimeView { signal_count: self.signal_count + 1, ..self }
    }

    /// A new effect, whose first run starts at once with no dependencies.
    pub open spec fn with_effect(self) -> RuntimeView {
        RuntimeView {
            deps: self.deps.push(seq![]),
            running: self.running.push(self.deps.len() as usize),
            causes: self.causes.push(Set::empty()),
            lineage: self.lineage.push(Set::empty()),
            ..self
        }
    }

    /// The first scheduled effect leaves the queue and starts a run with its
    /// old dependencies dropped; its causes become the run's lineage.
    pub open spec fn started_next(self) -> RuntimeView {
        let e = self.pending[0];
        RuntimeView {
            deps: self.deps.update(e as int, seq![]),
            causes: self.causes.update(e as int, Set::empty()),
            lineage: self.lineage.update(e as int, self.causes[e as int]),
            running: self.running.push(e),
            pending: self.pending.drop_first(),
            ..self
        }
    }

    /// Effect `e` is disposed of: its dependencies are dropped and it leaves
    /// the queue.
    pub open spec fn disposed(self, e: usize) -> RuntimeView {
        if e < self.deps.len() {
            RuntimeView {
                deps: self.deps.update(e as int, seq![]),
                pending: without(self.pending, e),
                causes: self.causes.update(e as int, Set::empty()),
                ..self
            }
        } else {
            self
        }
    }

    /// The innermost run ends.
    pub open spec fn finished(self) -> RuntimeView {
        if self.running.len() == 0 {
            self
        } else {
            RuntimeView { running: self.running.drop_last(), ..self }
        }
    }
}

/// The dependency-tracking runtime. It holds no signal values: a
/// [`Signal`] holds its own value and reports reads and writes here.
///
/// Effects run under the caller's control: `create_effect` starts an
/// effect's first run, `begin_next_run` starts the next scheduled run, and
/// `finish_run` ends the innermost run. Every recorded read made in between is
/// recorded as a dependency of the innermost running effect.
pub struct Runtime {
    signal_count: usize,
    deps: Vec<Vec<usize>>,
    running: Vec<usize>,
    pending: Vec<usize>,
    causes: Vec<Vec<usize>>,
    lineage: Vec<Vec<usize>>,
}

impl View for Runtime {
    type V = RuntimeView;

    closed spec fn view(&self) -> RuntimeView {
        RuntimeView {
            signal_count: self.signal_count as nat,
            deps: self.deps@.map_values(|d: Vec<usize>| d@),
            running: self.running@,
            pending: self.pending@,
            causes: self.causes@.map_values(|c: Vec<usize>| c@.to_set()),
            lineage: self.lineage@.map_values(|c: Vec<usize>| c@.to_set()),
        }
    }
}

fn contains_index(v: &Vec<usize>, x: usize) -> (r: bool)
    ensures
        r == v@.contains(x),
{
    let mut i: usize = 0;
    while i < v.len()
        invariant
            i <= v.len(),
            forall|j: int| 0 <= j < i ==> v@[j] != x,
        decreases v.len() - i,
    {
        if v[i] == x {
            return true;
        }
        i = i + 1;
    }
    false
}

fn copy_ids(v: &Vec<usize>) -> (r: Vec<usize>)
    ensures
        r@ == v@,
{
    let mut r: Vec<usize> = Vec::new();
    let mut i: usize = 0;
    while i < v.len()
        invariant
            i <= v@.len(),
            r@ == v@.subrange(0, i as int),
        decreases v@.len() - i,
    {
        r.push(v[i]);
        assert(v@.subrange(0, i + 1) =~= v@.subrange(0, i as int).push(v@[i as int]));
        i = i + 1;
    }
    assert(v@.subrange(0, i as int) =~= v@);
    r
}

fn add_all(dst: &mut Vec<usize>, src: &Vec<usize>)
    ensures
        final(dst)@.to_set() == old(dst)@.to_set().union(src@.to_set()),
{
    let ghost d0 = dst@;
    let mut i: usize = 0;
    while i < src.len()
        invariant
            i <= src@.len(),
            dst@ == d0 + src@.subrange(0, i as int),
        decreases src@.len() - i,
    {
        dst.push(src[i]);
        assert(d0 + src@.subrange(0, i + 1) =~= (d0 + src@.subrange(0, i as int)).push(src@[i as int]));
        i = i + 1;
    }
    assert(src@.subrange(0, i as int) =~= src@);
    proof {
        lemma_concat_to_set(d0, src@);
    }
}

/// An empty sequence has no members.
pub proof fn lemma_empty_to_set()
    ensures
        Seq::<usize>::empty().to_set() == Set::<usize>::empty(),
{
    assert(Seq::<usize>::empty().to_set() =~= Set::<usize>::empty());
}

/// The members of a concatenation are those of its parts.
pub proof fn lemma_concat_to_set(a: Seq<usize>, b: Seq<usize>)
    ensures
        (a + b).to_set() == a.to_set().union(b.to_set()),
{
    let c = a + b;
    assert forall|x: usize| c.contains(x) <==> (a.contains(x) || b.contains(x)) by {
        if c.contains(x) {
            let i = choose|i: int| 0 <= i < c.len() && c[i] == x;
            if i < a.len() {
                assert(a[i] == x);
            } else {
                assert(b[i - a.len()] == x);
            }
        }
        if a.contains(x) {
            let i = choose|i: int| 0 <= i < a.len() && a[i] == x;
            assert(c[i] == x);
        }
        if b.contains(x) {
            let i = choose|i: int| 0 <= i < b.len() && b[i] == x;
            assert(c[i + a.len()] == x);
        }
    }
    assert(c.to_set() =~= a.to_set().union(b.to_set()));
}

impl Runtime {
    pub fn new() -> (r: Runtime)
        ensures
            r@.wf(),
            r@.signal_count == 0,
            r@.deps.len() == 0,
            r@.running.len() == 0,
            r@.pending.len() == 0,
    {
        let r = Runtime {
            signal_count: 0,
            deps: Vec::new(),
            running: Vec::new(),
            pending: Vec::new(),
            causes: Vec::new(),
            lineage: Vec::new(),
        };
        assert(r@.causes.len() == 0 && r@.lineage.len() == 0);
        r
    }

    /// Allocates a fresh signal identity.
    pub fn allocate_signal(&mut self) -> (id: SignalId)
        requires
            old(self)@.wf(),
            old(self)@.signal_count < usize::MAX,
        ensures
            id.spec_index() == old(self)@.signal_count,
            forall|e: usize| !final(self)@.is_dependent(e, id.spec_index()),
            final(self)@ == old(self)@.with_signal(),
    {
        let id = SignalId { index: self.signal_count };
        self.signal_count = self.signal_count + 1;
        id
    }

    /// Records a read of `s`: the innermost running effect, if any, now
    /// depends on `s`.
    pub fn record_read(&mut self, s: SignalId)
        requires
            old(self)@.wf(),
            s.spec_index() < old(self)@.signal_count,
        ensures
            final(self)@ == old(self)@.after_read(s.spec_index()),
            final(self)@.wf(),
    {
        let n = self.running.len();
        if n > 0 {
            let top = self.running[n - 1];
            assert(self.running@[n - 1] < self@.deps.len());
            if !contains_index(&self.deps[top], s.index) {
                self.deps[top].push(s.index);
            }
            assert(self@.deps =~= old(self)@.deps.update(
                top as int,
                with_member(old(self)@.deps[top as int], s.index),
            ));
            assert forall|e: int| 0 <= e < self@.deps.len() implies #[trigger] self@.deps[e].no_duplicates() by {
                if e == top {
                    lemma_with_member_unique(old(self)@.deps[e], s.index);
                } else {
                    assert(self@.deps[e] == old(self)@.deps[e]);
                }
            }
        }
    }

    /// Reports a write to `s`: every current dependent of `s` that is not
    /// already scheduled is scheduled, in increasing effect order. No
    /// effect runs here.
    pub fn notify(&mut self, s: SignalId)
        requires
            old(self)@.wf(),
        ensures
            final(self)@ == old(self)@.notified(s.spec_index()),
            final(self)@.wf(),
    {
        let ghost old_pending = self.pending@;
        let ghost target = old(self)@.notified(s.index).causes;
        let n = self.deps.len();
        let nr = self.running.len();
        let has_top = nr > 0;
        let top: usize = if has_top {
            self.running[nr - 1]
        } else {
            0
        };
        let base: Vec<usize> = if has_top {
            assert(self@.lineage[top as int] == self.lineage@[top as int]@.to_set());
            copy_ids(&self.lineage[top])
        } else {
            Vec::new()
        };
        assert(base@.to_set() =~= old(self)@.cause_for(top)) by {
            if !has_top {
                assert(base@ =~= Seq::<usize>::empty());
            }
        }
        let mut e: usize = 0;
        while e < n
            invariant
                n == self.deps.len(),
                e <= n,
                self.deps == old(self).deps,
                self.running == old(self).running,
                self.lineage == old(self).lineage,
                self.causes@.len() == n,
                target == old(self)@.notified(s.index).causes,
                forall|x: int| 0 <= x < e ==> self@.causes[x] == target[x],
                forall|x: int| e <= x < n ==> self@.causes[x] == old(self)@.causes[x],
                has_top == (old(self)@.running.len() > 0),
                has_top ==> top == old(self)@.running.last(),
                base@.to_set() == old(self)@.cause_for(top),
                self.signal_count == old(self).signal_count,
                old_pending == old(self).pending@,
                self.pending@ == old_pending + newly_scheduled(self@.deps, old_pending, s.index, e as nat),
                old(self)@.wf(),
            decreases n - e,
        {
            let depends = contains_index(&self.deps[e], s.index);
            assert(self@.deps[e as int] == self.deps@[e as int]@);
            let queued = contains_index(&self.pending, e);
            proof {
                lemma_newly_scheduled_below(self@.deps, old_pending, s.index, e as nat);
                if !old_pending.contains(e) {
                    assert forall|i: int| 0 <= i < self.pending@.len() implies self.pending@[i] != e by {
                        if i >= old_pending.len() {
                            assert(self.pending@[i] == newly_scheduled(self@.deps, old_pending, s.index, e as nat)[i - old_pending.len()]);
                        }
                    }
                } else {
                    let k = choose|k: int| 0 <= k < old_pending.len() && old_pending[k] == e;
                    assert(self.pending@[k] == e);
                }
            }
            assert(queued == old_pending.contains(e));
            let ghost before = self@.causes;
            if depends {
                if !queued {
                    self.pending.push(e);
                    self.causes[e] = Vec::new();
                }
                assert(self@.causes[e as int] == (if old_pending.contains(e) {
                    old(self)@.causes[e as int]
                } else {
                    Set::<usize>::empty()
                }));
                add_all(&mut self.causes[e], &base);
                if has_top && e != top {
                    let ghost mid = self.causes@[e as int]@;
                    self.causes[e].push(top);
                    proof {
                        mid.lemma_push_to_set_commute(top);
                    }
                }
                assert(self@.causes[e as int] =~= target[e as int]);
            }
            proof {
                assert(self.pending@ =~= old_pending + newly_scheduled(self@.deps, old_pending, s.index, (e + 1) as nat));
                assert forall|x: int| 0 <= x < n && x != e implies self@.causes[x] == before[x] by {}
            }
            e = e + 1;
        }
        proof {
            assert(self@.deps == old(self)@.deps);
            assert(self@.causes =~= target);
            lemma_newly_scheduled_below(self@.deps, old_pending, s.index, n as nat);
            lemma_newly_scheduled_unique(self@.deps, old_pending, s.index, n as nat);
            let p = self.pending@;
            let fresh = newly_scheduled(self@.deps, old_pending, s.index, n as nat);
            assert forall|i: int, j: int| 0 <= i < j < p.len() implies p[i] != p[j] by {
                if j >= old_pending.len() && i < old_pending.len() {
                    assert(fresh[j - old_pending.len()] == p[j]);
                    assert(old_pending.contains(p[i]));
                } else if i >= old_pending.len() {
                    assert(fresh[i - old_pending.len()] == p[i]);
                    assert(fresh[j - old_pending.len()] == p[j]);
                }
            }
            assert forall|i: int| 0 <= i < p.len() implies #[trigger] p[i] < self@.deps.len() by {
                if i >= old_pending.len() {
                    assert(fresh[i - old_pending.len()] == p[i]);
                }
            }
        }
    }

    /// Creates an effect and starts its first run: until the matching
    /// `finish_run`, recorded reads become its dependencies.
    pub fn create_effect(&mut self) -> (id: EffectId)
        requires
            old(self)@.wf(),
            old(self)@.deps.len() < usize::MAX,
        ensures
            id.index == old(self)@.deps.len(),
            final(self)@ == old(self)@.with_effect(),
            final(self)@.wf(),
    {
        let id = self.deps.len();
        self.deps.push(Vec::new());
        self.running.push(id);
        self.causes.push(Vec::new());
        self.lineage.push(Vec::new());
        proof {
            assert(self@.deps =~= old(self)@.deps.push(seq![]));
            lemma_empty_to_set();
            assert(self@.causes =~= old(self)@.causes.push(Set::empty()));
            assert(self@.lineage =~= old(self)@.lineage.push(Set::empty()));
            assert forall|i: int, j: int| 0 <= i < j < self.running@.len() implies self.running@[i] != self.running@[j] by {
                if j == self.running@.len() - 1 {
                    assert(old(self).running@[i] < id);
                }
            }
            assert forall|e: int| 0 <= e < self@.deps.len() implies #[trigger] self@.deps[e].no_duplicates() by {
                if e < old(self)@.deps.len() {
                    assert(self@.deps[e] == old(self)@.deps[e]);
                }
            }
        }
        EffectId { index: id }
    }

    /// Starts the run of the first scheduled effect, dropping the
    /// dependencies of its previous run. Returns `Ok(None)` when nothing is
    /// scheduled. If that effect's previous run is still in progress, or it
    /// was scheduled by writes that trace back to one of its own runs, the
    /// effects form a cycle: the state is left as it was and the cycle is
    /// reported. An effect that rewrites what it read in the same run is no
    /// cycle: it runs again once that run has ended.
    pub fn begin_next_run(&mut self) -> (r: Result<Option<EffectId>, ReactiveError>)
        requires
            old(self)@.wf(),
        ensures
            final(self)@.wf(),
            old(self)@.pending.len() == 0 ==> r == Ok::<Option<EffectId>, ReactiveError>(None) && final(self)@
                == old(self)@,
            old(self)@.pending.len() > 0 && old(self)@.next_closes_cycle() ==> r == Err::<
                Option<EffectId>,
                ReactiveError,
            >(ReactiveError::CyclicDependency { effect: EffectId { index: old(self)@.pending[0] } })
                && final(self)@ == old(self)@,
            old(self)@.pending.len() > 0 && !old(self)@.next_closes_cycle() ==> r == Ok::<
                Option<EffectId>,
                ReactiveError,
            >(Some(EffectId { index: old(self)@.pending[0] })) && final(self)@ == old(self)@.started_next(),
    {
        if self.pending.len() == 0 {
            return Ok(None);
        }
        let e = self.pending[0];
        assert(self@.causes[e as int] == self.causes@[e as int]@.to_set());
        if contains_index(&self.running, e) || contains_index(&self.causes[e], e) {
            return Err(ReactiveError::CyclicDependency { effect: EffectId { index: e } });
        }
        self.pending.remove(0);
        self.deps[e] = Vec::new();
        self.running.push(e);
        let c = copy_ids(&self.causes[e]);
        self.lineage[e] = c;
        self.causes[e] = Vec::new();
        proof {
            lemma_empty_to_set();
            assert(self@.causes =~= old(self)@.causes.update(e as int, Set::empty()));
            assert(self@.lineage =~= old(self)@.lineage.update(e as int, old(self)@.causes[e as int]));
            assert(self@.deps =~= old(self)@.deps.update(e as int, seq![]));
            assert(self.pending@ =~= old(self).pending@.drop_first());
            let p = self.pending@;
            assert forall|i: int, j: int| 0 <= i < j < p.len() implies p[i] != p[j] by {
                assert(p[i] == old(self).pending@[i + 1] && p[j] == old(self).pending@[j + 1]);
            }
            assert forall|i: int| 0 <= i < p.len() implies #[trigger] p[i] < self@.deps.len() by {
                assert(p[i] == old(self).pending@[i + 1]);
            }
            let q = self.running@;
            assert forall|i: int, j: int| 0 <= i < j < q.len() implies q[i] != q[j] by {
                if j == q.len() - 1 {
                    assert(q[i] == old(self).running@[i]);
                }
            }
            assert forall|k: int| 0 <= k < self@.deps.len() implies #[trigger] self@.deps[k].no_duplicates() by {
                if k != e {
                    assert(self@.deps[k] == old(self)@.deps[k]);
                }
            }
        }
        Ok(Some(EffectId { index: e }))
    }

    /// Ends the innermost run and returns its effect, or `None` when no
    /// run is in progress.
    pub fn finish_run(&mut self) -> (r: Option<EffectId>)
        requires
            old(self)@.wf(),
        ensures
            final(self)@ == old(self)@.finished(),
            final(self)@.wf(),
            old(self)@.running.len() == 0 ==> r.is_none(),
            old(self)@.running.len() > 0 ==> r == Some(EffectId { index: old(self)@.running.last() }),
    {
        match self.running.pop() {
            Some(e) => {
                proof {
                    let q = self.running@;
                    assert(q =~= old(self).running@.drop_last());
                    assert forall|i: int, j: int| 0 <= i < j < q.len() implies q[i] != q[j] by {
                        assert(q[i] == old(self).running@[i] && q[j] == old(self).running@[j]);
                    }
                    assert forall|i: int| 0 <= i < q.len() implies #[trigger] q[i] < self@.deps.len() by {
                        assert(q[i] == old(self).running@[i]);
                    }
                }
                Some(EffectId { index: e })
            },
            None => None,
        }
    }

    /// Disposes of effect `e`: its dependencies are dropped at once and it
    /// leaves the queue, so no write reaches it unless it runs again.
    pub fn dispose_effect(&mut self, e: EffectId)
        requires
            old(self)@.wf(),
        ensures
            final(self)@ == old(self)@.disposed(e.index),
            final(self)@.wf(),
    {
        if e.index >= self.deps.len() {
            return;
        }
        self.deps[e.index] = Vec::new();
        self.causes[e.index] = Vec::new();
        proof {
            lemma_empty_to_set();
        }
        assert(self@.causes =~= old(self)@.causes.update(e.index as int, Set::empty()));
        let mut i: usize = 0;
        while i < self.pending.len()
            invariant
                i <= self.pending@.len(),
                self.pending@ == old(self).pending@,
                forall|j: int| 0 <= j < i ==> self.pending@[j] != e.index,
            ensures
                i <= self.pending@.len(),
                self.pending@ == old(self).pending@,
                forall|j: int| 0 <= j < i ==> self.pending@[j] != e.index,
                i < self.pending@.len() ==> self.pending@[i as int] == e.index,
            decreases self.pending@.len() - i,
        {
            if self.pending[i] == e.index {
                break;
            }
            i = i + 1;
        }
        let ghost p = old(self).pending@;
        if i < self.pending.len() {
            proof {
                assert(p[i as int] == e.index);
                assert(p.contains(e.index));
                let x = position_of(p, e.index);
                if x != i {
                    assert(p[x] == p[i as int]);
                }
            }
            self.pending.remove(i);
            proof {
                let q = self.pending@;
                assert forall|a: int, b: int| 0 <= a < b < q.len() implies q[a] != q[b] by {
                    let a2 = if a < i { a } else { a + 1 };
                    let b2 = if b < i { b } else { b + 1 };
                    assert(q[a] == p[a2] && q[b] == p[b2]);
                }
                assert forall|a: int| 0 <= a < q.len() implies #[trigger] q[a] < self@.deps.len() by {
                    let a2 = if a < i { a } else { a + 1 };
                    assert(q[a] == p[a2]);
                }
            }
        } else {
            assert(!p.contains(e.index));
        }
        proof {
            assert(self@.deps =~= old(self)@.deps.update(e.index as int, seq![]));
            assert forall|k: int| 0 <= k < self@.deps.len() implies #[trigger] self@.deps[k].no_duplicates() by {
                if k != e.index {
                    assert(self@.deps[k] == old(self)@.deps[k]);
                }
            }
        }
    }

    /// The effect whose run is innermost, if any.
    pub fn current_effect(&self) -> (r: Option<EffectId>)
        ensures
            self@.running.len() == 0 ==> r.is_none(),
            self@.running.len() > 0 ==> r == Some(EffectId { index: self@.running.last() }),
    {
        let n = self.running.len();
        if n == 0 {
            None
        } else {
            Some(EffectId { index: self.running[n - 1] })
        }
    }

    /// Whether effect `e` read signal `s` during its most recent run.
    pub fn is_dependent(&self, e: EffectId, s: SignalId) -> (r: bool)
        ensures
            r == self@.is_dependent(e.index, s.spec_index()),
    {
        if e.index < self.deps.len() {
            assert(self@.deps[e.index as int] == self.deps@[e.index as int]@);
            contains_index(&self.deps[e.index], s.index)
        } else {
            false
        }
    }

    /// How many effects are scheduled to run.
    pub fn pending_count(&self) -> (r: usize)
        ensures
            r == self@.pending.len(),
    {
        self.pending.len()
    }
}



/// Every effect that `newly_scheduled` returns is below `n`, depends on `s`
/// and is not already queued.
pub proof fn lemma_newly_scheduled_below(deps: Seq<Seq<usize>>, pending: Seq<usize>, s: usize, n: nat)
    requires
        n <= deps.len(),
        deps.len() <= usize::MAX,
    ensures
        forall|i: int|
            #![trigger newly_scheduled(deps, pending, s, n)[i]]
            0 <= i < newly_scheduled(deps, pending, s, n).len() ==> {
                &&& newly_scheduled(deps, pending, s, n)[i] < n
                &&& deps[newly_scheduled(deps, pending, s, n)[i] as int].contains(s)
                &&& !pending.contains(newly_scheduled(deps, pending, s, n)[i])
            },
    decreases n,
{
    if n > 0 {
        let e = (n - 1) as nat;
        lemma_newly_scheduled_below(deps, pending, s, e);
        let rest = newly_scheduled(deps, pending, s, e);
        let full = newly_scheduled(deps, pending, s, n);
        assert forall|i: int| 0 <= i < full.len() implies {
            &&& full[i] < n
            &&& deps[full[i] as int].contains(s)
            &&& !pending.contains(full[i])
        } by {
            if i < rest.len() {
                assert(full[i] == rest[i]);
            }
        }
    }
}

/// `newly_scheduled` lists each effect at most once, in increasing order.
pub proof fn lemma_newly_scheduled_unique(deps: Seq<Seq<usize>>, pending: Seq<usize>, s: usize, n: nat)
    requires
        n <= deps.len(),
        deps.len() <= usize::MAX,
    ensures
        forall|i: int, j: int|
            0 <= i < j < newly_scheduled(deps, pending, s, n).len() ==> newly_scheduled(deps, pending, s, n)[i]
                < newly_scheduled(deps, pending, s, n)[j],
    decreases n,
{
    if n > 0 {
        let e = (n - 1) as nat;
        lemma_newly_scheduled_unique(deps, pending, s, e);
        lemma_newly_scheduled_below(deps, pending, s, e);
        let rest = newly_scheduled(deps, pending, s, e);
        let full = newly_scheduled(deps, pending, s, n);
        assert forall|i: int, j: int| 0 <= i < j < full.len() implies full[i] < full[j] by {
            assert(full[i] == rest[i]);
            if j < rest.len() {
                assert(full[j] == rest[j]);
            }
        }
    }
}

/// Adding a missing member keeps a sequence free of duplicates.
pub proof fn lemma_with_member_unique(s: Seq<usize>, x: usize)
    requires
        s.no_duplicates(),
    ensures
        with_member(s, x).no_duplicates(),
{
    if !s.contains(x) {
        let t = s.push(x);
        assert forall|i: int, j: int| 0 <= i < t.len() && 0 <= j < t.len() && i != j implies t[i] != t[j] by {
            if i == s.len() {
                assert(s[j] == t[j]);
            } else if j == s.len() {
                assert(s[i] == t[i]);
            } else {
                assert(s[i] == t[i] && s[j] == t[j]);
            }
        }
    }
}

/// With nothing queued, `newly_scheduled` lists exactly the dependents of
/// `s` among the first `n` effects.
pub proof fn lemma_newly_scheduled_from_empty(deps: Seq<Seq<usize>>, s: usize, n: nat)
    requires
        n <= deps.len(),
        deps.len() <= usize::MAX,
    ensures
        newly_scheduled(deps, seq![], s, n).len() == dependent_count(deps, s, n),
        forall|e: usize|
            newly_scheduled(deps, seq![], s, n).contains(e) <==> (e < n && deps[e as int].contains(s)),
    decreases n,
{
    if n > 0 {
        let e = (n - 1) as nat;
        lemma_newly_scheduled_from_empty(deps, s, e);
        lemma_newly_scheduled_below(deps, seq![], s, e);
        let rest = newly_scheduled(deps, seq![], s, e);
        let full = newly_scheduled(deps, seq![], s, n);
        assert(!Seq::<usize>::empty().contains(e as usize));
        assert forall|x: usize| full.contains(x) <==> (x < n && deps[x as int].contains(s)) by {
            if full.contains(x) {
                let k = choose|k: int| 0 <= k < full.len() && full[k] == x;
                if k < rest.len() {
                    assert(rest[k] == x);
                }
            }
            if x < n && deps[x as int].contains(s) {
                if x < e {
                    assert(rest.contains(x));
                    let k = choose|k: int| 0 <= k < rest.len() && rest[k] == x;
                    assert(full[k] == x);
                } else {
                    assert(full[full.len() - 1] == x);
                }
            }
        }
    }
}

/// A write to a signal, made while nothing is queued, schedules exactly the
/// effects that currently depend on that signal, each of them once. So the
/// write causes as many reruns as the signal has dependents, whatever value
/// it wrote, and none at all when the signal has no dependents.
pub proof fn lemma_write_reruns_each_dependent_once(rt: RuntimeView, s: usize)
    requires
        rt.wf(),
        rt.pending.len() == 0,
    ensures
        rt.notified(s).pending.len() == dependent_count(rt.deps, s, rt.deps.len()),
        rt.notified(s).pending.no_duplicates(),
        forall|e: usize| rt.notified(s).pending.contains(e) <==> rt.is_dependent(e, s),
        dependent_count(rt.deps, s, rt.deps.len()) == 0 ==> rt.notified(s).pending.len() == 0,
{
    assert(rt.pending =~= seq![]);
    lemma_newly_scheduled_from_empty(rt.deps, s, rt.deps.len());
    lemma_newly_scheduled_unique(rt.deps, rt.pending, s, rt.deps.len());
    let fresh = newly_scheduled(rt.deps, rt.pending, s, rt.deps.len());
    assert(rt.notified(s).pending =~= fresh);
    assert forall|i: int, j: int| 0 <= i < fresh.len() && 0 <= j < fresh.len() && i != j implies fresh[i] != fresh[j] by {
        if i < j {
            assert(fresh[i] < fresh[j]);
        } else {
            assert(fresh[j] < fresh[i]);
        }
    }
}

} // verus!
