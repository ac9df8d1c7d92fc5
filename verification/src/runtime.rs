//! The reactive core: an arena of signal values, the subscription graph
//! between signals and effects, the tracking context, and the queues of
//! effects that writes have scheduled.
//!
//! The core never runs effect code itself: a write records which effects
//! must run (in `triggered`, or in `pending` while a batch is open) and the
//! scheduler in [`crate::reactive`] runs them.

use vstd::prelude::*;
use crate::seqs::{ids_below, id_list, without, merge, add_unique, lemma_without, lemma_merge, holds_id, remove_id, merge_ids};

verus! {

/// A handle to a signal: the index of its slot in the runtime's arena.
/// Copying a handle copies the reference, not the value.
#[derive(Clone, Copy, PartialEq, Eq, Debug)]
pub struct Signal {
    pub id: usize,
}

/// What the runtime reports to an installed observer.
#[derive(Clone, Copy, PartialEq, Eq, Debug)]
pub enum HookEvent {
    SignalCreate { id: usize },
    SignalRead { id: usize },
    SignalWrite { id: usize },
    EffectRun { id: usize },
    EffectComplete { id: usize },
    BatchStart,
    BatchEnd { effect_count: usize },
}

/// An observer of runtime events (tracing, metrics, devtools).
pub trait Hook {
    /// Whether the observer accepts every event, now and after any event.
    spec fn accepts_events(&self) -> bool;

    fn on_event(&mut self, event: HookEvent)
        requires
            old(self).accepts_events(),
        ensures
            final(self).accepts_events(),
    ;
}

impl<F: FnMut(HookEvent)> Hook for F {
    open spec fn accepts_events(&self) -> bool {
        forall|g: F, e: HookEvent| #[trigger] g.requires((e,))
    }

    fn on_event(&mut self, event: HookEvent) {
        (*self)(event)
    }
}

/// The abstract state of a runtime.
#[verifier::ext_equal]
pub struct RuntimeState<V> {
    /// The value of each signal.
    pub values: Seq<V>,
    /// For each signal, the effects subscribed to it, in subscription order.
    pub subscribers: Seq<Seq<usize>>,
    /// For each effect, the signals it read during its last run.
    pub dependencies: Seq<Seq<usize>>,
    /// The effect whose reads are being recorded, if any.
    pub tracking: Option<usize>,
    /// Whether a batch is open.
    pub batching: bool,
    /// Effects deferred by writes inside the open batch (no repeats).
    pub pending: Seq<usize>,
    /// Effects scheduled to run, in order.
    pub triggered: Seq<usize>,
}

impl<V> RuntimeState<V> {
    pub open spec fn signal_count(self) -> nat {
        self.values.len()
    }

    pub open spec fn effect_count(self) -> nat {
        self.dependencies.len()
    }

    pub open spec fn has_signal(self, s: Signal) -> bool {
        s.id < self.values.len()
    }

    pub open spec fn subscribed(self, s: usize, e: usize) -> bool {
        self.subscribers[s as int].contains(e)
    }

    pub open spec fn depends(self, e: usize, s: usize) -> bool {
        self.dependencies[e as int].contains(s)
    }

    /// The subscription graph is consistent: every list is a list of distinct
    /// valid ids, and an effect is subscribed to a signal exactly when the
    /// signal is among the effect's dependencies.
    pub open spec fn wf(self) -> bool {
        &&& self.subscribers.len() == self.values.len()
        &&& forall|s: int|
            0 <= s < self.subscribers.len() ==> #[trigger] id_list(
                self.subscribers[s],
                self.effect_count(),
            )
        &&& forall|e: int|
            0 <= e < self.dependencies.len() ==> #[trigger] id_list(
                self.dependencies[e],
                self.signal_count(),
            )
        &&& forall|s: usize, e: usize|
            #![trigger self.subscribed(s, e)]
            #![trigger self.depends(e, s)]
            s < self.signal_count() && e < self.effect_count() ==> (self.subscribed(s, e)
                <==> self.depends(e, s))
        &&& (self.tracking matches Some(e) ==> e < self.effect_count())
        &&& id_list(self.pending, self.effect_count())
        &&& ids_below(self.triggered, self.effect_count())
    }

    pub open spec fn empty() -> Self {
        RuntimeState {
            values: Seq::empty(),
            subscribers: Seq::empty(),
            dependencies: Seq::empty(),
            tracking: None,
            batching: false,
            pending: Seq::empty(),
            triggered: Seq::empty(),
        }
    }

    /// A new signal holding `v`, with no subscribers.
    pub open spec fn create_signal(self, v: V) -> Self {
        RuntimeState {
            values: self.values.push(v),
            subscribers: self.subscribers.push(Seq::empty()),
            ..self
        }
    }

    /// A new effect with no dependencies.
    pub open spec fn add_effect(self) -> Self {
        RuntimeState { dependencies: self.dependencies.push(Seq::empty()), ..self }
    }

    /// Reading `s`: when an effect is being tracked, it and `s` become linked.
    pub open spec fn read(self, s: Signal) -> Self {
        match self.tracking {
            Some(e) => RuntimeState {
                subscribers: self.subscribers.update(
                    s.id as int,
                    add_unique(self.subscribers[s.id as int], e),
                ),
                dependencies: self.dependencies.update(
                    e as int,
                    add_unique(self.dependencies[e as int], s.id),
                ),
                ..self
            },
            None => self,
        }
    }

    /// Scheduling the subscribers of `s`: deferred (without repeats) while a
    /// batch is open, queued to run otherwise.
    pub open spec fn notify(self, s: Signal) -> Self {
        if self.batching {
            RuntimeState {
                pending: merge(self.pending, self.subscribers[s.id as int]),
                ..self
            }
        } else {
            RuntimeState {
                triggered: self.triggered + self.subscribers[s.id as int],
                ..self
            }
        }
    }

    /// Storing `v` in `s` and scheduling its subscribers.
    pub open spec fn write(self, s: Signal, v: V) -> Self {
        RuntimeState { values: self.values.update(s.id as int, v), ..self }.notify(s)
    }

    /// Starting a run of effect `e`: all its links are dropped and its reads
    /// are tracked from now on.
    pub open spec fn start_effect(self, e: usize) -> Self {
        RuntimeState {
            subscribers: Seq::new(
                self.subscribers.len(),
                |i: int| without(self.subscribers[i], e),
            ),
            dependencies: self.dependencies.update(e as int, Seq::empty()),
            tracking: Some(e),
            ..self
        }
    }

    /// Setting the tracking context.
    pub open spec fn set_tracking(self, t: Option<usize>) -> Self {
        RuntimeState { tracking: t, ..self }
    }

    /// Putting back the tracking context `t` that was in force before user
    /// code ran: kept when it names an effect of the runtime, else nothing
    /// is tracked.
    pub open spec fn restore_tracking(self, t: Option<usize>) -> Self {
        if t matches Some(e) && e < self.effect_count() {
            self.set_tracking(t)
        } else {
            self.set_tracking(None)
        }
    }

    /// Opening a batch.
    pub open spec fn begin_batch(self) -> Self {
        RuntimeState { batching: true, ..self }
    }

    /// Closing the batch: each deferred effect is queued once.
    pub open spec fn end_batch(self) -> Self {
        RuntimeState {
            batching: false,
            pending: Seq::empty(),
            triggered: self.triggered + self.pending,
            ..self
        }
    }

    /// Handing the queue of scheduled effects to the scheduler.
    pub open spec fn drain(self) -> Self {
        RuntimeState { triggered: Seq::empty(), ..self }
    }
}

// ---------------------------------------------------------------------------
// Each transition keeps the graph consistent.
// ---------------------------------------------------------------------------

pub proof fn lemma_empty_wf<V>()
    ensures
        RuntimeState::<V>::empty().wf(),
{
}

pub proof fn lemma_create_signal_wf<V>(m: RuntimeState<V>, v: V)
    requires
        m.wf(),
    ensures
        m.create_signal(v).wf(),
{
    let n = m.create_signal(v);
    assert forall|s: int| 0 <= s < n.subscribers.len() implies #[trigger] id_list(
        n.subscribers[s],
        n.effect_count(),
    ) by {
        if s < m.subscribers.len() {
            assert(id_list(m.subscribers[s], m.effect_count()));
        }
    }
    assert forall|e: int| 0 <= e < n.dependencies.len() implies #[trigger] id_list(
        n.dependencies[e],
        n.signal_count(),
    ) by {
        assert(id_list(m.dependencies[e], m.signal_count()));
    }
    assert forall|s: usize, e: usize|
        s < n.signal_count() && e < n.effect_count() implies (n.subscribed(s, e) <==> n.depends(
        e,
        s,
    )) by {
        if s < m.signal_count() {
            assert(m.subscribed(s, e) <==> m.depends(e, s));
        } else {
            assert(id_list(m.dependencies[e as int], m.signal_count()));
            if n.depends(e, s) {
                let k = choose|k: int|
                    0 <= k < m.dependencies[e as int].len() && m.dependencies[e as int][k] == s;
                assert(m.dependencies[e as int][k] < m.signal_count());
            }
        }
    }
}

pub proof fn lemma_add_effect_wf<V>(m: RuntimeState<V>)
    requires
        m.wf(),
    ensures
        m.add_effect().wf(),
{
    let n = m.add_effect();
    assert forall|s: int| 0 <= s < n.subscribers.len() implies #[trigger] id_list(
        n.subscribers[s],
        n.effect_count(),
    ) by {
        assert(id_list(m.subscribers[s], m.effect_count()));
    }
    assert forall|e: int| 0 <= e < n.dependencies.len() implies #[trigger] id_list(
        n.dependencies[e],
        n.signal_count(),
    ) by {
        if e < m.dependencies.len() {
            assert(id_list(m.dependencies[e], m.signal_count()));
        }
    }
    assert forall|s: usize, e: usize|
        s < n.signal_count() && e < n.effect_count() implies (n.subscribed(s, e) <==> n.depends(
        e,
        s,
    )) by {
        if e < m.effect_count() {
            assert(m.subscribed(s, e) <==> m.depends(e, s));
        } else {
            assert(id_list(m.subscribers[s as int], m.effect_count()));
            if n.subscribed(s, e) {
                let k = choose|k: int|
                    0 <= k < m.subscribers[s as int].len() && m.subscribers[s as int][k] == e;
                assert(m.subscribers[s as int][k] < m.effect_count());
            }
        }
    }
}

pub proof fn lemma_add_unique(l: Seq<usize>, x: usize, n: nat)
    requires
        id_list(l, n),
        x < n,
    ensures
        id_list(add_unique(l, x), n),
        forall|y: usize| #[trigger] add_unique(l, x).contains(y) <==> (l.contains(y) || y == x),
{
    if !l.contains(x) {
        let r = l.push(x);
        assert forall|y: usize| #[trigger] r.contains(y) <==> (l.contains(y) || y == x) by {
            if r.contains(y) {
                let k = choose|k: int| 0 <= k < r.len() && r[k] == y;
                if k < l.len() {
                    assert(l[k] == y);
                }
            }
            if l.contains(y) {
                let k = choose|k: int| 0 <= k < l.len() && l[k] == y;
                assert(r[k] == y);
            }
            if y == x {
                assert(r[l.len() as int] == y);
            }
        }
        assert(r.no_duplicates()) by {
            assert forall|i: int, j: int| 0 <= i < r.len() && 0 <= j < r.len() && i != j implies r[i]
                != r[j] by {
                if i == l.len() {
                    assert(r[j] == l[j]);
                } else if j == l.len() {
                    assert(r[i] == l[i]);
                } else {
                    assert(r[i] == l[i] && r[j] == l[j]);
                }
            }
        }
    }
}

pub proof fn lemma_read_wf<V>(m: RuntimeState<V>, s: Signal)
    requires
        m.wf(),
        m.has_signal(s),
    ensures
        m.read(s).wf(),
{
    if let Some(e) = m.tracking {
        let n = m.read(s);
        assert(id_list(m.subscribers[s.id as int], m.effect_count()));
        assert(id_list(m.dependencies[e as int], m.signal_count()));
        lemma_add_unique(m.subscribers[s.id as int], e, m.effect_count());
        lemma_add_unique(m.dependencies[e as int], s.id, m.signal_count());
        assert forall|t: int| 0 <= t < n.subscribers.len() implies #[trigger] id_list(
            n.subscribers[t],
            n.effect_count(),
        ) by {
            if t != s.id {
                assert(id_list(m.subscribers[t], m.effect_count()));
            }
        }
        assert forall|f: int| 0 <= f < n.dependencies.len() implies #[trigger] id_list(
            n.dependencies[f],
            n.signal_count(),
        ) by {
            if f != e {
                assert(id_list(m.dependencies[f], m.signal_count()));
            }
        }
        assert forall|t: usize, f: usize|
            t < n.signal_count() && f < n.effect_count() implies (n.subscribed(t, f)
            <==> n.depends(f, t)) by {
            assert(m.subscribed(t, f) <==> m.depends(f, t));
        }
    }
}

pub proof fn lemma_write_wf<V>(m: RuntimeState<V>, s: Signal, v: V)
    requires
        m.wf(),
        m.has_signal(s),
    ensures
        m.write(s, v).wf(),
{
    let u = RuntimeState { values: m.values.update(s.id as int, v), ..m };
    let n = m.write(s, v);
    assert(id_list(m.subscribers[s.id as int], m.effect_count()));
    assert forall|t: int| 0 <= t < n.subscribers.len() implies #[trigger] id_list(
        n.subscribers[t],
        n.effect_count(),
    ) by {
        assert(id_list(m.subscribers[t], m.effect_count()));
    }
    assert forall|f: int| 0 <= f < n.dependencies.len() implies #[trigger] id_list(
        n.dependencies[f],
        n.signal_count(),
    ) by {
        assert(id_list(m.dependencies[f], m.signal_count()));
    }
    assert forall|t: usize, f: usize|
        t < n.signal_count() && f < n.effect_count() implies (n.subscribed(t, f) <==> n.depends(
        f,
        t,
    )) by {
        assert(m.subscribed(t, f) <==> m.depends(f, t));
    }
    if m.batching {
        lemma_merge(m.pending, m.subscribers[s.id as int]);
        let p = merge(m.pending, m.subscribers[s.id as int]);
        assert forall|k: int| 0 <= k < p.len() implies #[trigger] p[k] < n.effect_count() by {
            assert(p.contains(p[k]));
            if m.pending.contains(p[k]) {
                let j = choose|j: int| 0 <= j < m.pending.len() && m.pending[j] == p[k];
            } else {
                let j = choose|j: int|
                    0 <= j < m.subscribers[s.id as int].len() && m.subscribers[s.id as int][j]
                        == p[k];
            }
        }
    } else {
        let q = m.triggered + m.subscribers[s.id as int];
        assert forall|k: int| 0 <= k < q.len() implies #[trigger] q[k] < n.effect_count() by {
            if k >= m.triggered.len() {
                assert(q[k] == m.subscribers[s.id as int][k - m.triggered.len()]);
            }
        }
    }
}

pub proof fn lemma_set_value_wf<V>(m: RuntimeState<V>, i: int, v: V)
    requires
        m.wf(),
        0 <= i < m.signal_count(),
    ensures
        (RuntimeState { values: m.values.update(i, v), ..m }).wf(),
{
    let n = RuntimeState { values: m.values.update(i, v), ..m };
    assert forall|t: int| 0 <= t < n.subscribers.len() implies #[trigger] id_list(
        n.subscribers[t],
        n.effect_count(),
    ) by {
        assert(id_list(m.subscribers[t], m.effect_count()));
    }
    assert forall|f: int| 0 <= f < n.dependencies.len() implies #[trigger] id_list(
        n.dependencies[f],
        n.signal_count(),
    ) by {
        assert(id_list(m.dependencies[f], m.signal_count()));
    }
    assert forall|t: usize, f: usize|
        t < n.signal_count() && f < n.effect_count() implies (n.subscribed(t, f) <==> n.depends(
        f,
        t,
    )) by {
        assert(m.subscribed(t, f) <==> m.depends(f, t));
    }
}

/// Changing only the control part (tracking, batching flag, run queue)
/// keeps the graph consistent as long as the ids stay valid.
pub proof fn lemma_control_wf<V>(m: RuntimeState<V>, n: RuntimeState<V>)
    requires
        m.wf(),
        n.values == m.values,
        n.subscribers == m.subscribers,
        n.dependencies == m.dependencies,
        n.pending == m.pending,
        n.tracking matches Some(e) ==> e < n.effect_count(),
        ids_below(n.triggered, n.effect_count()),
    ensures
        n.wf(),
{
    assert forall|t: int| 0 <= t < n.subscribers.len() implies #[trigger] id_list(
        n.subscribers[t],
        n.effect_count(),
    ) by {
        assert(id_list(m.subscribers[t], m.effect_count()));
    }
    assert forall|f: int| 0 <= f < n.dependencies.len() implies #[trigger] id_list(
        n.dependencies[f],
        n.signal_count(),
    ) by {
        assert(id_list(m.dependencies[f], m.signal_count()));
    }
    assert forall|t: usize, f: usize|
        t < n.signal_count() && f < n.effect_count() implies (n.subscribed(t, f) <==> n.depends(
        f,
        t,
    )) by {
        assert(m.subscribed(t, f) <==> m.depends(f, t));
    }
}

pub proof fn lemma_start_effect_wf<V>(m: RuntimeState<V>, e: usize)
    requires
        m.wf(),
        e < m.effect_count(),
    ensures
        m.start_effect(e).wf(),
        forall|s: usize| s < m.signal_count() ==> !#[trigger] m.start_effect(e).subscribed(s, e),
{
    let n = m.start_effect(e);
    assert forall|t: int| 0 <= t < n.subscribers.len() implies #[trigger] id_list(
        n.subscribers[t],
        n.effect_count(),
    ) by {
        assert(id_list(m.subscribers[t], m.effect_count()));
        lemma_without(m.subscribers[t], e);
        let w = without(m.subscribers[t], e);
        assert forall|k: int| 0 <= k < w.len() implies #[trigger] w[k] < n.effect_count() by {
            assert(w.contains(w[k]));
            let j = choose|j: int| 0 <= j < m.subscribers[t].len() && m.subscribers[t][j] == w[k];
        }
    }
    assert forall|f: int| 0 <= f < n.dependencies.len() implies #[trigger] id_list(
        n.dependencies[f],
        n.signal_count(),
    ) by {
        if f != e {
            assert(id_list(m.dependencies[f], m.signal_count()));
        }
    }
    assert forall|t: usize, f: usize|
        t < n.signal_count() && f < n.effect_count() implies (n.subscribed(t, f) <==> n.depends(
        f,
        t,
    )) by {
        assert(m.subscribed(t, f) <==> m.depends(f, t));
        lemma_without(m.subscribers[t as int], e);
    }
    assert forall|s: usize| s < m.signal_count() implies !#[trigger] n.subscribed(s, e) by {
        lemma_without(m.subscribers[s as int], e);
    }
}

pub proof fn lemma_end_batch_wf<V>(m: RuntimeState<V>)
    requires
        m.wf(),
    ensures
        m.end_batch().wf(),
{
    let n = m.end_batch();
    let q = m.triggered + m.pending;
    assert forall|k: int| 0 <= k < q.len() implies #[trigger] q[k] < n.effect_count() by {
        if k >= m.triggered.len() {
            assert(q[k] == m.pending[k - m.triggered.len()]);
        }
    }
    assert forall|t: int| 0 <= t < n.subscribers.len() implies #[trigger] id_list(
        n.subscribers[t],
        n.effect_count(),
    ) by {
        assert(id_list(m.subscribers[t], m.effect_count()));
    }
    assert forall|f: int| 0 <= f < n.dependencies.len() implies #[trigger] id_list(
        n.dependencies[f],
        n.signal_count(),
    ) by {
        assert(id_list(m.dependencies[f], m.signal_count()));
    }
    assert forall|t: usize, f: usize|
        t < n.signal_count() && f < n.effect_count() implies (n.subscribed(t, f) <==> n.depends(
        f,
        t,
    )) by {
        assert(m.subscribed(t, f) <==> m.depends(f, t));
    }
}

// ---------------------------------------------------------------------------
// Laws of the runtime
// ---------------------------------------------------------------------------

/// A read gives back what the last write stored, and a write leaves every
/// other signal's value alone; reads never change values.
pub proof fn law_read_after_write<V>(m: RuntimeState<V>, s: Signal, t: Signal, v: V)
    requires
        m.wf(),
        m.has_signal(s),
        m.has_signal(t),
    ensures
        m.write(s, v).read(s).values[s.id as int] == v,
        t.id != s.id ==> m.write(s, v).values[t.id as int] == m.values[t.id as int],
        m.read(t).values == m.values,
        m.write(s, v).signal_count() == m.signal_count(),
{
}

/// A read inside a running effect links the effect and the signal both
/// ways; a read with nothing tracked changes nothing.
pub proof fn law_tracked_read_subscribes<V>(m: RuntimeState<V>, s: Signal)
    requires
        m.wf(),
        m.has_signal(s),
    ensures
        m.tracking matches Some(e) ==> m.read(s).subscribed(s.id, e) && m.read(s).depends(e, s.id),
        m.tracking is None ==> m.read(s) == m,
{
    if let Some(e) = m.tracking {
        assert(id_list(m.subscribers[s.id as int], m.effect_count()));
        assert(id_list(m.dependencies[e as int], m.signal_count()));
        lemma_add_unique(m.subscribers[s.id as int], e, m.effect_count());
        lemma_add_unique(m.dependencies[e as int], s.id, m.signal_count());
    }
}

/// A subscription lasts for the rest of the run that made it: further
/// reads and writes keep it, and so does the end of the run (tracking off,
/// batch closed). A write to the signal after that run, outside a batch,
/// queues the effect again.
pub proof fn law_subscription_lasts<V>(m: RuntimeState<V>, s: Signal, t: Signal, v: V, e: usize)
    requires
        m.wf(),
        m.has_signal(s),
        m.has_signal(t),
        m.subscribed(s.id, e),
    ensures
        m.read(t).subscribed(s.id, e),
        m.write(t, v).subscribed(s.id, e),
        m.set_tracking(None).end_batch().subscribed(s.id, e),
        m.set_tracking(None).end_batch().write(s, v).triggered.contains(e),
{
    if let Some(f) = m.tracking {
        assert(id_list(m.subscribers[t.id as int], m.effect_count()));
        lemma_add_unique(m.subscribers[t.id as int], f, m.effect_count());
    }
    let n = m.set_tracking(None).end_batch();
    let k = choose|k: int| 0 <= k < n.subscribers[s.id as int].len() && n.subscribers[s.id as int][k] == e;
    assert(n.write(s, v).triggered == n.triggered + n.subscribers[s.id as int]);
    assert(n.write(s, v).triggered[n.triggered.len() + k] == e);
}

/// Putting back a tracking context gives that context again when it names an
/// effect of the runtime, so an effect that ran `untrack` is still tracked
/// afterwards; nothing else of the state changes.
pub proof fn law_restore_tracking_puts_back<V>(m: RuntimeState<V>, t: Option<usize>)
    ensures
        t matches Some(e) && e < m.effect_count() ==> m.restore_tracking(t).tracking == t,
        t is None ==> m.restore_tracking(t).tracking is None,
        m.restore_tracking(t).values == m.values,
        m.restore_tracking(t).subscribers == m.subscribers,
        m.restore_tracking(t).dependencies == m.dependencies,
        m.restore_tracking(t).triggered == m.triggered,
        m.restore_tracking(t).pending == m.pending,
        m.restore_tracking(t).batching == m.batching,
{
}

/// A read made after `untrack` returns, inside the effect that called it,
/// subscribes that effect: the tracking context put back is the effect's.
pub proof fn law_read_after_untrack_subscribes<V>(m: RuntimeState<V>, e: usize, s: Signal)
    requires
        m.wf(),
        e < m.effect_count(),
        m.has_signal(s),
    ensures
        m.restore_tracking(Some(e)).read(s).subscribed(s.id, e),
{
    let n = m.restore_tracking(Some(e));
    assert(n.wf()) by {
        lemma_control_wf(m, n);
    }
    law_tracked_read_subscribes(n, s);
}

/// Outside a batch a write queues the signal's subscribers, in order, after
/// what was already queued.
pub proof fn law_write_schedules_subscribers<V>(m: RuntimeState<V>, s: Signal, v: V)
    requires
        m.wf(),
        m.has_signal(s),
        !m.batching,
    ensures
        m.write(s, v).triggered == m.triggered + m.subscribers[s.id as int],
        m.write(s, v).pending == m.pending,
{
}

/// Inside a batch a write queues nothing; it adds the signal's subscribers
/// to the deferred set, which keeps each effect once.
pub proof fn law_batched_write_defers<V>(m: RuntimeState<V>, s: Signal, v: V)
    requires
        m.wf(),
        m.has_signal(s),
        m.batching,
    ensures
        m.write(s, v).triggered == m.triggered,
        m.write(s, v).pending.no_duplicates(),
        forall|e: usize| #[trigger]
            m.write(s, v).pending.contains(e) <==> (m.pending.contains(e) || m.subscribers[s.id
                as int].contains(e)),
{
    lemma_write_wf(m, s, v);
    lemma_merge(m.pending, m.subscribers[s.id as int]);
}

/// Two writes to one signal inside a batch schedule each of its subscribers
/// exactly once when the batch closes, and the second value is kept.
pub proof fn law_batch_runs_each_once<V>(m: RuntimeState<V>, s: Signal, v1: V, v2: V)
    requires
        m.wf(),
        m.has_signal(s),
        m.batching,
        m.pending.len() == 0,
        m.triggered.len() == 0,
    ensures
        m.write(s, v1).write(s, v2).end_batch().triggered == m.subscribers[s.id as int],
        m.write(s, v1).write(s, v2).end_batch().values[s.id as int] == v2,
        !m.write(s, v1).write(s, v2).end_batch().batching,
{
    let subs = m.subscribers[s.id as int];
    assert(id_list(subs, m.effect_count()));
    lemma_merge_onto_empty(subs);
    assert(m.pending =~= Seq::<usize>::empty());
    let m1 = m.write(s, v1);
    assert(m1.pending == subs);
    lemma_merge_idempotent(subs);
    let m2 = m1.write(s, v2);
    assert(m2.pending == subs);
    assert(m.triggered =~= Seq::<usize>::empty());
    assert(m2.end_batch().triggered =~= subs);
}

/// Merging a list of distinct ids onto nothing gives the list back.
pub proof fn lemma_merge_onto_empty(l: Seq<usize>)
    requires
        l.no_duplicates(),
    ensures
        merge(Seq::empty(), l) == l,
    decreases l.len(),
{
    if l.len() > 0 {
        let d = l.drop_last();
        assert(d.no_duplicates()) by {
            assert forall|i: int, j: int| 0 <= i < d.len() && 0 <= j < d.len() && i != j implies d[i]
                != d[j] by {
                assert(d[i] == l[i] && d[j] == l[j]);
            }
        }
        lemma_merge_onto_empty(d);
        assert(!d.contains(l.last())) by {
            if d.contains(l.last()) {
                let i = choose|i: int| 0 <= i < d.len() && d[i] == l.last();
                assert(l[i] == l[l.len() - 1]);
            }
        }
        assert(d.push(l.last()) =~= l);
    }
}

/// Merging a list into itself changes nothing.
pub proof fn lemma_merge_idempotent(l: Seq<usize>)
    ensures
        merge(l, l) == l,
{
    lemma_merge_subset(l, l);
}

/// Merging elements that are all present already changes nothing.
pub proof fn lemma_merge_subset(l: Seq<usize>, m: Seq<usize>)
    requires
        forall|k: int| 0 <= k < m.len() ==> l.contains(#[trigger] m[k]),
    ensures
        merge(l, m) == l,
    decreases m.len(),
{
    if m.len() > 0 {
        let d = m.drop_last();
        assert forall|k: int| 0 <= k < d.len() implies l.contains(#[trigger] d[k]) by {
            assert(d[k] == m[k]);
        }
        lemma_merge_subset(l, d);
        assert(l.contains(m[m.len() - 1]));
    }
}

/// Starting a run of an effect drops all of its links and nothing else.
pub proof fn law_start_effect_forgets<V>(m: RuntimeState<V>, e: usize, f: usize, s: usize)
    requires
        m.wf(),
        e < m.effect_count(),
        f < m.effect_count(),
        s < m.signal_count(),
    ensures
        m.start_effect(e).dependencies[e as int].len() == 0,
        !m.start_effect(e).subscribed(s, e),
        f != e ==> (m.start_effect(e).subscribed(s, f) <==> m.subscribed(s, f)),
        f != e ==> m.start_effect(e).dependencies[f as int] == m.dependencies[f as int],
        m.start_effect(e).tracking == Some(e),
        m.start_effect(e).values == m.values,
{
    lemma_start_effect_wf(m, e);
    lemma_without(m.subscribers[s as int], e);
}

/// After a run that read only `s`, the effect is subscribed to `s` and to
/// no other signal: dependencies follow the last run, not earlier ones.
pub proof fn law_resubscribe<V>(m: RuntimeState<V>, e: usize, s: Signal, t: usize)
    requires
        m.wf(),
        e < m.effect_count(),
        m.has_signal(s),
        t < m.signal_count(),
    ensures
        m.start_effect(e).read(s).subscribed(s.id, e),
        t != s.id ==> !m.start_effect(e).read(s).subscribed(t, e),
        m.start_effect(e).read(s).dependencies[e as int] == seq![s.id],
{
    lemma_start_effect_wf(m, e);
    let n = m.start_effect(e);
    law_tracked_read_subscribes(n, s);
    assert(!n.subscribed(t, e));
    assert(n.dependencies[e as int] =~= Seq::<usize>::empty());
    assert(!n.dependencies[e as int].contains(s.id));
    assert(n.read(s).dependencies[e as int] =~= seq![s.id]);
}

// ---------------------------------------------------------------------------
// Executable state
// ---------------------------------------------------------------------------

/// Replaces list `i` of `lists` by `l`.
fn put_list(lists: &mut Vec<Vec<usize>>, i: usize, l: Vec<usize>)
    requires
        i < old(lists)@.len(),
    ensures
        final(lists)@ == old(lists)@.update(i as int, l),
{
    lists.set(i, l);
}

/// Takes list `i` out of `lists`, leaving an empty list in its place.
fn take_list(lists: &mut Vec<Vec<usize>>, i: usize) -> (l: Vec<usize>)
    requires
        i < old(lists)@.len(),
    ensures
        l == old(lists)@[i as int],
        final(lists)@.len() == old(lists)@.len(),
        final(lists)@[i as int]@ == Seq::<usize>::empty(),
        forall|j: int| 0 <= j < old(lists)@.len() && j != i ==> final(lists)@[j] == old(lists)@[j],
{
    let mut l: Vec<usize> = Vec::new();
    std::mem::swap(&mut l, &mut lists[i]);
    l
}

pub open spec fn lists_view(lists: Seq<Vec<usize>>) -> Seq<Seq<usize>> {
    Seq::new(lists.len(), |i: int| lists[i]@)
}

/// The arena behind a [`Runtime`]: values, graph and queues.
struct Arena<V> {
    values: Vec<V>,
    subscribers: Vec<Vec<usize>>,
    dependencies: Vec<Vec<usize>>,
    tracking: Option<usize>,
    batching: bool,
    pending: Vec<usize>,
    triggered: Vec<usize>,
}

impl<V> Arena<V> {
    spec fn state(&self) -> RuntimeState<V> {
        RuntimeState {
            values: self.values@,
            subscribers: lists_view(self.subscribers@),
            dependencies: lists_view(self.dependencies@),
            tracking: self.tracking,
            batching: self.batching,
            pending: self.pending@,
            triggered: self.triggered@,
        }
    }

    fn new() -> (a: Self)
        ensures
            a.state() == RuntimeState::<V>::empty(),
    {
        let a = Arena {
            values: Vec::new(),
            subscribers: Vec::new(),
            dependencies: Vec::new(),
            tracking: None,
            batching: false,
            pending: Vec::new(),
            triggered: Vec::new(),
        };
        assert(a.state().subscribers =~= Seq::<Seq<usize>>::empty());
        assert(a.state().dependencies =~= Seq::<Seq<usize>>::empty());
        a
    }

    fn create_signal(&mut self, v: V) -> (id: usize)
        ensures
            final(self).state() == old(self).state().create_signal(v),
            id == old(self).state().values.len(),
    {
        let id = self.values.len();
        self.values.push(v);
        self.subscribers.push(Vec::new());
        assert(self.state().subscribers =~= old(self).state().create_signal(v).subscribers);
        id
    }

    fn add_effect(&mut self) -> (id: usize)
        ensures
            final(self).state() == old(self).state().add_effect(),
            id == old(self).state().dependencies.len(),
    {
        let id = self.dependencies.len();
        self.dependencies.push(Vec::new());
        assert(self.state().dependencies =~= old(self).state().add_effect().dependencies);
        id
    }

    fn read(&mut self, s: Signal)
        requires
            old(self).state().wf(),
            old(self).state().has_signal(s),
        ensures
            final(self).state() == old(self).state().read(s),
    {
        if let Some(e) = self.tracking {
            let mut subs = take_list(&mut self.subscribers, s.id);
            if !holds_id(&subs, e) {
                subs.push(e);
            }
            put_list(&mut self.subscribers, s.id, subs);
            let mut deps = take_list(&mut self.dependencies, e);
            if !holds_id(&deps, s.id) {
                deps.push(s.id);
            }
            put_list(&mut self.dependencies, e, deps);
            assert(self.state().subscribers =~= old(self).state().read(s).subscribers);
            assert(self.state().dependencies =~= old(self).state().read(s).dependencies);
        }
    }

    fn notify(&mut self, s: Signal)
        requires
            old(self).state().wf(),
            old(self).state().has_signal(s),
        ensures
            final(self).state() == old(self).state().notify(s),
    {
        let subs = take_list(&mut self.subscribers, s.id);
        if self.batching {
            merge_ids(&mut self.pending, &subs);
        } else {
            let mut t: Vec<usize> = Vec::new();
            std::mem::swap(&mut t, &mut self.triggered);
            let ghost start = t@;
            let mut k: usize = 0;
            while k < subs.len()
                invariant
                    k <= subs.len(),
                    t@ == start + subs@.take(k as int),
                decreases subs.len() - k,
            {
                t.push(subs[k]);
                k = k + 1;
                assert(start + subs@.take(k as int) =~= (start + subs@.take(k - 1)).push(subs@[k - 1]));
            }
            assert(subs@.take(subs.len() as int) =~= subs@);
            self.triggered = t;
        }
        put_list(&mut self.subscribers, s.id, subs);
        assert(self.subscribers@ =~= old(self).subscribers@);
        assert(self.state().subscribers =~= old(self).state().notify(s).subscribers);
    }

    fn write(&mut self, s: Signal, v: V)
        requires
            old(self).state().wf(),
            old(self).state().has_signal(s),
        ensures
            final(self).state() == old(self).state().write(s, v),
    {
        self.notify(s);
        self.values.set(s.id, v);
        assert(self.state() =~= old(self).state().write(s, v));
    }

    fn start_effect(&mut self, e: usize)
        requires
            old(self).state().wf(),
            e < old(self).state().effect_count(),
        ensures
            final(self).state() == old(self).state().start_effect(e),
    {
        let ghost m = self.state();
        let deps = take_list(&mut self.dependencies, e);
        let mut k: usize = 0;
        while k < deps.len()
            invariant
                m.wf(),
                e < m.effect_count(),
                deps@ == m.dependencies[e as int],
                k <= deps.len(),
                self.subscribers@.len() == m.subscribers.len(),
                forall|i: usize| i < m.subscribers.len() ==> #[trigger] self.subscribers@[i as int]@ == (
                    if deps@.take(k as int).contains(i) {
                        without(m.subscribers[i as int], e)
                    } else {
                        m.subscribers[i as int]
                    }),
                self.values@ == m.values,
                lists_view(self.dependencies@) == m.dependencies.update(e as int, Seq::empty()),
                self.tracking == m.tracking,
                self.batching == m.batching,
                self.pending@ == m.pending,
                self.triggered@ == m.triggered,
            decreases deps.len() - k,
        {
            let sid = deps[k];
            assert(id_list(m.dependencies[e as int], m.signal_count()));
            assert(deps@[k as int] < m.signal_count());
            assert(!deps@.take(k as int).contains(sid)) by {
                if deps@.take(k as int).contains(sid) {
                    let j = choose|j: int| 0 <= j < k && deps@.take(k as int)[j] == sid;
                    assert(deps@[j] == deps@[k as int]);
                }
            }
            let ghost before = self.subscribers@;
            let subs = take_list(&mut self.subscribers, sid);
            let pruned = remove_id(&subs, e);
            put_list(&mut self.subscribers, sid, pruned);
            let ghost tk = deps@.take(k as int);
            let ghost tk1 = deps@.take(k + 1);
            assert(tk1 == tk.push(sid));
            assert forall|i: usize| i < m.subscribers.len() implies #[trigger] self.subscribers@[i as int]@ == (
                if tk1.contains(i) {
                    without(m.subscribers[i as int], e)
                } else {
                    m.subscribers[i as int]
                }) by {
                if tk1.contains(i) && !tk.contains(i) {
                    let j = choose|j: int| 0 <= j < tk1.len() && tk1[j] == i;
                    assert(j == k);
                }
                if tk.contains(i) {
                    let j = choose|j: int| 0 <= j < tk.len() && tk[j] == i;
                    assert(tk1[j] == i);
                }
                if i != sid {
                    assert(self.subscribers@[i as int] == before[i as int]);
                    assert(tk1.contains(i) == tk.contains(i));
                } else {
                    assert(tk1[k as int] == sid);
                    assert(subs@ == before[i as int]@);
                    assert(before[i as int]@ == m.subscribers[i as int]);
                    assert(self.subscribers@[i as int]@ == pruned@);
                }
            }
            k = k + 1;
        }
        self.tracking = Some(e);
        let n_sub = self.subscribers.len();
        assert(deps@.take(deps.len() as int) == deps@);
        assert forall|i: usize| i < m.subscribers.len() implies #[trigger] self.subscribers@[i as int]@
            == without(m.subscribers[i as int], e) by {
            if !deps@.contains(i) {
                assert(m.subscribed(i, e) <==> m.depends(e, i));
                lemma_without(m.subscribers[i as int], e);
            }
        }
        assert forall|i: int| 0 <= i < m.subscribers.len() implies #[trigger] self.subscribers@[i]@
            == without(m.subscribers[i], e) by {
            assert(self.subscribers@[(i as usize) as int]@ == without(m.subscribers[(i as usize) as int], e));
        }
        assert(self.state().subscribers =~= m.start_effect(e).subscribers);
        assert(self.state().dependencies =~= m.start_effect(e).dependencies);
    }

    fn end_batch(&mut self) -> (count: usize)
        requires
            old(self).state().wf(),
        ensures
            final(self).state() == old(self).state().end_batch(),
            count == old(self).state().pending.len(),
    {
        let mut p: Vec<usize> = Vec::new();
        std::mem::swap(&mut p, &mut self.pending);
        let count = p.len();
        self.triggered.append(&mut p);
        self.batching = false;
        count
    }

    fn drain(&mut self) -> (t: Vec<usize>)
        ensures
            final(self).state() == old(self).state().drain(),
            t@ == old(self).state().triggered,
    {
        let mut t: Vec<usize> = Vec::new();
        std::mem::swap(&mut t, &mut self.triggered);
        t
    }
}

/// The reactive arena that effect code works with: create, read and write
/// signals, read without tracking, and group writes in a batch.
pub struct Runtime<V> {
    arena: Arena<V>,
    hook: Option<Box<dyn Hook>>,
    delivered: Ghost<Seq<HookEvent>>,
}

impl<V> View for Runtime<V> {
    type V = RuntimeState<V>;

    closed spec fn view(&self) -> RuntimeState<V> {
        self.arena.state()
    }
}

/// Hands `event` to the observer, if there is one. `log` holds the events
/// the observer received so far; the result holds them with this one.
fn notify_hook(hook: &mut Option<Box<dyn Hook>>, event: HookEvent, log: Ghost<Seq<HookEvent>>) -> (delivered: Ghost<Seq<HookEvent>>)
    requires
        *old(hook) matches Some(h) ==> h.accepts_events(),
    ensures
        *final(hook) matches Some(h) ==> h.accepts_events(),
        (*final(hook) is Some) == (*old(hook) is Some),
        delivered@ == (if *old(hook) is Some { log@.push(event) } else { log@ }),
{
    match hook {
        Some(h) => {
            h.on_event(event);
            Ghost(log@.push(event))
        },
        None => log,
    }
}

impl<V> Runtime<V> {
    #[verifier::type_invariant]
    spec fn well_formed(self) -> bool {
        &&& self.arena.state().wf()
        &&& (self.hook matches Some(h) ==> h.accepts_events())
    }

    /// Moves the arena out, leaving an empty one in its place.
    fn take_arena(&mut self) -> (a: Arena<V>)
        ensures
            a.state() == old(self)@,
            a.state().wf(),
            final(self)@ == RuntimeState::<V>::empty(),
            final(self).hook == old(self).hook,
            final(self).delivered == old(self).delivered,
    {
        proof {
            use_type_invariant(&*self);
            lemma_empty_wf::<V>();
        }
        let mut a = Arena::new();
        std::mem::swap(&mut a, &mut self.arena);
        a
    }

    /// Puts a consistent arena back.
    fn restore_arena(&mut self, a: Arena<V>)
        requires
            a.state().wf(),
        ensures
            final(self)@ == a.state(),
            final(self).hook == old(self).hook,
            final(self).delivered == old(self).delivered,
    {
        proof {
            use_type_invariant(&*self);
        }
        self.arena = a;
    }

    /// Every runtime keeps its graph consistent.
    pub fn assert_consistent(&self)
        ensures
            self@.wf(),
    {
        proof {
            use_type_invariant(self);
        }
    }

    /// An empty runtime: no signals, no effects, nothing tracked or queued.
    pub fn new() -> (rt: Self)
        ensures
            rt@ == RuntimeState::<V>::empty(),
    {
        proof {
            lemma_empty_wf::<V>();
        }
        Runtime { arena: Arena::new(), hook: None, delivered: Ghost(Seq::empty()) }
    }

    /// Whether an observer is installed.
    pub closed spec fn has_observer(&self) -> bool {
        self.hook is Some
    }

    /// The events handed to the installed observer since it was installed,
    /// in order.
    pub closed spec fn delivered(&self) -> Seq<HookEvent> {
        self.delivered@
    }

    /// Installs an observer that receives every [`HookEvent`] from now on,
    /// in place of any earlier one.
    pub fn install_hook(&mut self, hook: Box<dyn Hook>)
        requires
            hook.accepts_events(),
        ensures
            final(self)@ == old(self)@,
            final(self).has_observer(),
            final(self).delivered() == Seq::<HookEvent>::empty(),
    {
        proof {
            use_type_invariant(&*self);
        }
        self.hook = Some(hook);
        self.delivered = Ghost(Seq::empty());
    }

    /// Removes the observer.
    pub fn remove_hook(&mut self)
        ensures
            final(self)@ == old(self)@,
            !final(self).has_observer(),
            final(self).delivered() == Seq::<HookEvent>::empty(),
    {
        proof {
            use_type_invariant(&*self);
        }
        self.hook = None;
        self.delivered = Ghost(Seq::empty());
    }

    /// Hands `event` to the observer, if one is installed.
    fn fire(&mut self, event: HookEvent)
        ensures
            final(self)@ == old(self)@,
            final(self).has_observer() == old(self).has_observer(),
            final(self).delivered() == (if old(self).has_observer() {
                old(self).delivered().push(event)
            } else {
                old(self).delivered()
            }),
    {
        proof {
            use_type_invariant(&*self);
        }
        let mut hook: Option<Box<dyn Hook>> = None;
        std::mem::swap(&mut hook, &mut self.hook);
        let delivered = notify_hook(&mut hook, event, Ghost(self.delivered@));
        self.delivered = delivered;
        self.hook = hook;
    }

    /// The number of signals created so far.
    pub fn signal_count(&self) -> (n: usize)
        ensures
            n == self@.signal_count(),
    {
        self.arena.values.len()
    }

    /// The number of effects created so far.
    pub fn effect_count(&self) -> (n: usize)
        ensures
            n == self@.effect_count(),
    {
        self.arena.dependencies.len()
    }

    /// Whether a batch is open.
    pub fn is_batching(&self) -> (b: bool)
        ensures
            b == self@.batching,
    {
        self.arena.batching
    }

    /// The effect whose reads are being tracked, if any.
    pub fn tracking(&self) -> (t: Option<usize>)
        ensures
            t == self@.tracking,
    {
        self.arena.tracking
    }

    /// Creates a signal holding `value`.
    pub fn signal(&mut self, value: V) -> (s: Signal)
        ensures
            final(self)@ == old(self)@.create_signal(value),
            s.id == old(self)@.signal_count(),
            final(self).has_observer() == old(self).has_observer(),
            final(self).delivered() == (if old(self).has_observer() {
                old(self).delivered().push(HookEvent::SignalCreate { id: s.id })
            } else {
                old(self).delivered()
            }),
    {
        proof {
            use_type_invariant(&*self);
            lemma_create_signal_wf(self@, value);
        }
        let mut a = self.take_arena();
        let id = a.create_signal(value);
        self.restore_arena(a);
        self.fire(HookEvent::SignalCreate { id });
        Signal { id }
    }

    /// Reads `s`. Inside a running effect the read subscribes that effect
    /// to `s`.
    pub fn get(&mut self, s: Signal) -> (r: &V)
        requires
            old(self)@.has_signal(s),
        ensures
            *r == old(self)@.values[s.id as int],
            final(self)@ == old(self)@.read(s),
            final(self).has_observer() == old(self).has_observer(),
            final(self).delivered() == (if old(self).has_observer() {
                old(self).delivered().push(HookEvent::SignalRead { id: s.id })
            } else {
                old(self).delivered()
            }),
    {
        proof {
            use_type_invariant(&*self);
            lemma_read_wf(self@, s);
        }
        let mut a = self.take_arena();
        a.read(s);
        self.restore_arena(a);
        self.fire(HookEvent::SignalRead { id: s.id });
        &self.arena.values[s.id]
    }

    /// Stores `value` in `s` and schedules the effects subscribed to it.
    pub fn set(&mut self, s: Signal, value: V)
        requires
            old(self)@.has_signal(s),
        ensures
            final(self)@ == old(self)@.write(s, value),
            final(self).has_observer() == old(self).has_observer(),
            final(self).delivered() == (if old(self).has_observer() {
                old(self).delivered().push(HookEvent::SignalWrite { id: s.id })
            } else {
                old(self).delivered()
            }),
    {
        proof {
            use_type_invariant(&*self);
            lemma_write_wf(self@, s, value);
        }
        self.fire(HookEvent::SignalWrite { id: s.id });
        let mut a = self.take_arena();
        a.write(s, value);
        self.restore_arena(a);
    }

    /// Changes the value of `s` in place with `f` and schedules the effects
    /// subscribed to it.
    pub fn update<F: FnOnce(&mut V)>(&mut self, s: Signal, f: F)
        requires
            old(self)@.has_signal(s),
            forall|v: &mut V| #[trigger] f.requires((v,)),
        ensures
            final(self)@ == old(self)@.write(s, final(self)@.values[s.id as int]),
            exists|v: &mut V|
                *v == old(self)@.values[s.id as int] && *final(v) == final(self)@.values[s.id as int]
                    && #[trigger] f.ensures((v,), ()),
            final(self).has_observer() == old(self).has_observer(),
            final(self).delivered() == old(self).delivered(),
    {
        proof {
            use_type_invariant(&*self);
        }
        let mut a = self.take_arena();
        let ghost m = a.state();
        f(&mut a.values[s.id]);
        proof {
            lemma_write_wf(m, s, a.values@[s.id as int]);
            lemma_set_value_wf(m, s.id as int, a.values@[s.id as int]);
            assert(a.state() == RuntimeState { values: m.values.update(s.id as int, a.values@[s.id as int]), ..m });
        }
        a.notify(s);
        self.restore_arena(a);
    }

    fn put_tracking(&mut self, t: Option<usize>)
        requires
            t matches Some(e) ==> e < old(self)@.effect_count(),
        ensures
            final(self)@ == old(self)@.set_tracking(t),
    {
        let mut a = self.take_arena();
        a.tracking = t;
        proof {
            lemma_control_wf(old(self)@, a.state());
        }
        self.restore_arena(a);
    }

    /// Runs `f` with reads untracked: reads made by `f` subscribe no effect.
    /// The result is what `f` returns when run on this runtime with nothing
    /// tracked. The tracking context in force before the call is in force
    /// after it.
    pub fn untrack<T, F: FnOnce(&mut Runtime<V>) -> T>(&mut self, f: F) -> (r: T)
        requires
            forall|a: &mut Runtime<V>| #[trigger] f.requires((a,)),
        ensures
            exists|a: &mut Runtime<V>|
                (*a)@ == old(self)@.set_tracking(None) && #[trigger] f.ensures((a,), r) && final(
                self)@ == (*final(a))@.restore_tracking(old(self)@.tracking),
            old(self)@.tracking matches Some(e) && e < final(self)@.effect_count()
                ==> final(self)@.tracking == old(self)@.tracking,
            old(self)@.tracking is None ==> final(self)@.tracking is None,
    {
        proof {
            use_type_invariant(&*self);
        }
        let prev = self.tracking();
        self.put_tracking(None);
        let r = f(self);
        proof {
            use_type_invariant(&*self);
        }
        match prev {
            Some(e) => {
                if e < self.effect_count() {
                    self.put_tracking(prev);
                } else {
                    self.put_tracking(None);
                }
            },
            None => self.put_tracking(None),
        }
        r
    }

    /// Runs `f` inside a batch: the effects that its writes schedule are
    /// deferred, each at most once, and queued when the batch closes. The
    /// observer sees `BatchStart` before `f` runs and `BatchEnd` with the
    /// number of deferred effects after the batch closes. Inside
    /// a batch that is already open, `f` runs as part of it, and the outer
    /// batch stays open.
    pub fn batch<F: FnOnce(&mut Runtime<V>)>(&mut self, f: F)
        requires
            forall|a: &mut Runtime<V>| #[trigger] f.requires((a,)),
        ensures
            exists|a: &mut Runtime<V>|
                (*a)@ == old(self)@.begin_batch() && #[trigger] f.ensures((a,), ()) && (
                old(self)@.batching ==> *final(a) == *final(self)) && (!old(self)@.batching
                    ==> final(self)@ == (*final(a))@.end_batch() && (*a).has_observer() == old(
                self,
            ).has_observer() && (*a).delivered() == (if old(self).has_observer() {
                old(self).delivered().push(HookEvent::BatchStart)
            } else {
                old(self).delivered()
            }) && final(self).has_observer() == (*final(a)).has_observer() && final(self).delivered()
                == (if (*final(a)).has_observer() {
                (*final(a)).delivered().push(
                    (HookEvent::BatchEnd { effect_count: (*final(a))@.pending.len() as usize }),
                )
            } else {
                (*final(a)).delivered()
            })),
    {
        if self.is_batching() {
            assert(old(self)@.begin_batch() =~= old(self)@);
            f(self);
            return;
        }
        self.fire(HookEvent::BatchStart);
        self.open_batch();
        f(self);
        let count = self.close_batch();
        self.fire(HookEvent::BatchEnd { effect_count: count });
    }

    /// Opens a batch.
    pub(crate) fn open_batch(&mut self)
        ensures
            final(self)@ == old(self)@.begin_batch(),
            final(self).has_observer() == old(self).has_observer(),
            final(self).delivered() == old(self).delivered(),
    {
        proof {
            use_type_invariant(&*self);
        }
        let mut a = self.take_arena();
        a.batching = true;
        proof {
            lemma_control_wf(old(self)@, a.state());
        }
        self.restore_arena(a);
    }

    /// Closes the batch: the deferred effects join the run queue. Returns
    /// how many there were.
    pub(crate) fn close_batch(&mut self) -> (count: usize)
        ensures
            final(self)@ == old(self)@.end_batch(),
            count == old(self)@.pending.len(),
            final(self).has_observer() == old(self).has_observer(),
            final(self).delivered() == old(self).delivered(),
    {
        let mut a = self.take_arena();
        proof {
            lemma_end_batch_wf(a.state());
        }
        let count = a.end_batch();
        self.restore_arena(a);
        count
    }

    /// Registers a new effect node and returns its id.
    pub(crate) fn add_effect(&mut self) -> (id: usize)
        ensures
            final(self)@ == old(self)@.add_effect(),
            id == old(self)@.effect_count(),
    {
        let mut a = self.take_arena();
        proof {
            lemma_add_effect_wf(a.state());
        }
        let id = a.add_effect();
        self.restore_arena(a);
        id
    }

    /// Begins a run of effect `e`: its old links are dropped and its reads
    /// are tracked.
    pub(crate) fn start_effect(&mut self, e: usize)
        requires
            e < old(self)@.effect_count(),
        ensures
            final(self)@ == old(self)@.start_effect(e),
    {
        self.fire(HookEvent::EffectRun { id: e });
        let mut a = self.take_arena();
        proof {
            lemma_start_effect_wf(a.state(), e);
        }
        a.start_effect(e);
        self.restore_arena(a);
    }

    /// Stops tracking reads.
    pub(crate) fn clear_tracking(&mut self)
        ensures
            final(self)@ == old(self)@.set_tracking(None),
    {
        self.put_tracking(None);
    }

    /// Ends a run of effect `e`: nothing is tracked any more.
    pub(crate) fn finish_effect(&mut self, e: usize)
        ensures
            final(self)@ == old(self)@.set_tracking(None),
    {
        self.put_tracking(None);
        self.fire(HookEvent::EffectComplete { id: e });
    }

    /// Hands over the queue of scheduled effects.
    pub(crate) fn drain(&mut self) -> (t: Vec<usize>)
        ensures
            final(self)@ == old(self)@.drain(),
            t@ == old(self)@.triggered,
    {
        let mut a = self.take_arena();
        let t = a.drain();
        proof {
            lemma_control_wf(old(self)@, a.state());
        }
        self.restore_arena(a);
        t
    }
}

} // verus!
