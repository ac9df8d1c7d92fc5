//! The scheduler: owns the effect code, runs effects when the signals they
//! read change, and offers the user-facing operations (signals, effects,
//! derived values, watchers, batches).
//!
//! Effects run after the code that scheduled them has finished. An effect
//! whose run would be re-entered from one of its own consequences (a cycle
//! of effects writing each other's inputs) is not run again for that cause.

use vstd::prelude::*;
use vstd::std_specs::cmp::PartialEqSpec;
use crate::runtime::{Hook, HookEvent, Runtime, RuntimeState, Signal};
use crate::seqs::{holds_id, ids_below, id_list, lemma_id_list_len};
use crate::watch::WatchState;
use core::marker::PhantomData;

verus! {

/// Effect code: `run` gets the runtime, to read (and so subscribe to) and
/// write signals.
trait Effect<V> {
    /// Whether the code is known and stays the same from run to run.
    spec fn fixed(&self) -> bool;

    /// Whether a run of fixed code may take the runtime behind `a` from
    /// `*a` to `*final(a)`.
    spec fn ran(&self, a: &mut Runtime<V>) -> bool;

    fn run(&mut self, rt: &mut Runtime<V>)
        ensures
            old(self).fixed() ==> final(self).fixed() && (forall|a: &mut Runtime<V>|
                #[trigger] final(self).ran(a) == old(self).ran(a)) && exists|a: &mut Runtime<V>|
                *a == *old(rt) && *final(a) == *final(rt) && #[trigger] old(self).ran(a),
    ;
}

/// Calls `h` on `rt`; the closure itself is left as it was.
fn call_fn<V, F: FnMut(&mut Runtime<V>)>(h: &mut F, rt: &mut Runtime<V>)
    requires
        forall|a: &mut Runtime<V>| #[trigger] (*old(h)).requires((a,)),
    ensures
        *final(h) == *old(h),
        exists|a: &mut Runtime<V>|
            *a == *old(rt) && *final(a) == *final(rt) && #[trigger] (*old(h)).ensures((a,), ()),
{
    (*h)(rt)
}

/// Whether every value of closure type `F` accepts any runtime.
pub open spec fn runs_anywhere<V, F: FnOnce(&mut Runtime<V>)>() -> bool {
    forall|g: F, a: &mut Runtime<V>| #[trigger] g.requires((a,))
}

/// Whether every value of closure type `F` accepts any runtime.
pub open spec fn evaluates_anywhere<V, T, F: FnOnce(&mut Runtime<V>) -> T>() -> bool {
    forall|g: F, a: &mut Runtime<V>| #[trigger] g.requires((a,))
}

/// Whether every value of closure type `C` accepts any value.
pub open spec fn takes_any<T, C: FnOnce(T)>() -> bool {
    forall|g: C, t: T| #[trigger] g.requires((t,))
}

/// An effect given by a closure (absent only while it runs).
#[verifier::reject_recursive_types(V)]
struct FnEffect<V, F: FnMut(&mut Runtime<V>)> {
    f: Option<F>,
    kind: PhantomData<V>,
}

impl<V, F: FnMut(&mut Runtime<V>)> FnEffect<V, F> {
    #[verifier::type_invariant]
    spec fn accepts_any(self) -> bool {
        self.f matches Some(g) ==> forall|a: &mut Runtime<V>| #[trigger] g.requires((a,))
    }

    fn new(f: F) -> (r: Self)
        requires
            forall|a: &mut Runtime<V>| #[trigger] f.requires((a,)),
        ensures
            r.f == Some(f),
    {
        FnEffect { f: Some(f), kind: PhantomData }
    }
}

impl<V, F: FnMut(&mut Runtime<V>)> Effect<V> for FnEffect<V, F> {
    closed spec fn fixed(&self) -> bool {
        self.f is Some
    }

    closed spec fn ran(&self, a: &mut Runtime<V>) -> bool {
        self.f matches Some(g) && g.ensures((a,), ())
    }

    /// Calls the closure on the runtime.
    fn run(&mut self, rt: &mut Runtime<V>)
        ensures
            final(self).f == old(self).f,
    {
        proof {
            use_type_invariant(&*self);
        }
        let mut g: Option<F> = None;
        std::mem::swap(&mut g, &mut self.f);
        match g {
            Some(mut h) => {
                call_fn(&mut h, rt);
                proof {
                    let a = choose|a: &mut Runtime<V>|
                        *a == *old(rt) && *final(a) == *final(rt) && h.ensures((a,), ());
                    assert(old(self).ran(a));
                }
                self.f = Some(h);
            },
            None => {},
        }
    }
}

/// An effect slot with no code.
struct Idle;

impl<V> Effect<V> for Idle {
    closed spec fn fixed(&self) -> bool {
        false
    }

    closed spec fn ran(&self, a: &mut Runtime<V>) -> bool {
        true
    }

    /// Does nothing.
    fn run(&mut self, rt: &mut Runtime<V>)
        ensures
            *final(rt) == *old(rt),
    {
    }
}

/// A closure to run once; later runs do nothing.
#[verifier::reject_recursive_types(V)]
struct Once<V, F: FnOnce(&mut Runtime<V>)> {
    f: Option<F>,
    kind: PhantomData<V>,
}

impl<V, F: FnOnce(&mut Runtime<V>)> Once<V, F> {
    #[verifier::type_invariant]
    spec fn accepts_any(self) -> bool {
        runs_anywhere::<V, F>()
    }

    fn new(f: F) -> (r: Self)
        requires
            runs_anywhere::<V, F>(),
        ensures
            r.f == Some(f),
    {
        Once { f: Some(f), kind: PhantomData }
    }
}

impl<V, F: FnOnce(&mut Runtime<V>)> Effect<V> for Once<V, F> {
    closed spec fn fixed(&self) -> bool {
        false
    }

    closed spec fn ran(&self, a: &mut Runtime<V>) -> bool {
        true
    }

    /// Runs the closure if it has not run yet; it is used up either way. A
    /// used-up closure leaves the runtime as it is.
    fn run(&mut self, rt: &mut Runtime<V>)
        ensures
            final(self).f is None,
            old(self).f is None ==> *final(rt) == *old(rt),
            old(self).f matches Some(g) ==> exists|a: &mut Runtime<V>|
                *a == *old(rt) && *final(a) == *final(rt) && #[trigger] g.ensures((a,), ()),
    {
        proof {
            use_type_invariant(&*self);
        }
        let mut g: Option<F> = None;
        std::mem::swap(&mut g, &mut self.f);
        match g {
            Some(f) => f(rt),
            None => {},
        }
    }
}

/// Whether nothing is scheduled: no effect queued to run, none deferred.
pub open spec fn scheduled_nothing<V>(st: RuntimeState<V>) -> bool {
    st.triggered.len() == 0 && st.pending.len() == 0
}

/// The state in which user code leaves the runtime once it is handed back:
/// nothing tracked, and an open batch closed (its deferred effects join the
/// queue).
pub open spec fn closed_out<V>(st: RuntimeState<V>) -> RuntimeState<V> {
    st.set_tracking(None).end_batch()
}

/// Whether the `j`-th of a series of runs of the effects in `queue` is
/// known to run the code of its effect: that code is fixed in `sys`, and
/// the run before it (ending in `ends`) scheduled nothing and left the
/// number of effects at `slots`.
pub open spec fn run_known<V: 'static>(
    sys: Reactive<V>,
    queue: Seq<usize>,
    ends: Seq<RuntimeState<V>>,
    j: int,
    slots: nat,
) -> bool {
    sys.effect_fixed(queue[j]) && (j == 0 || (scheduled_nothing(ends[j - 1]) && ends[j
        - 1].effect_count() == slots))
}

/// Whether a series of runs, the `j`-th starting in `starts[j]` and ending
/// in `ends[j]`, runs the effects in `queue` one after the other, the first
/// handed `first`: a run that follows a run that scheduled nothing starts
/// from the state that run left, with tracking over.
pub open spec fn chained<V>(
    first: RuntimeState<V>,
    queue: Seq<usize>,
    starts: Seq<RuntimeState<V>>,
    ends: Seq<RuntimeState<V>>,
) -> bool {
    &&& starts.len() == ends.len()
    &&& starts.len() <= queue.len()
    &&& starts.len() > 0 ==> starts[0] == first.start_effect(queue[0])
    &&& forall|j: int|
        0 < j < starts.len() && scheduled_nothing(ends[j - 1]) ==> #[trigger] starts[j] == closed_out(
            ends[j - 1],
        ).start_effect(queue[j])
}

/// Whether every run of a series, ending in `ends`, scheduled nothing.
pub open spec fn all_quiet<V>(ends: Seq<RuntimeState<V>>) -> bool {
    forall|j: int| 0 <= j < ends.len() ==> scheduled_nothing(#[trigger] ends[j])
}

/// Whether a runtime is at rest: nothing tracked, no batch open, nothing
/// scheduled.
pub open spec fn at_rest<V>(st: RuntimeState<V>) -> bool {
    st.tracking is None && !st.batching && scheduled_nothing(st)
}

/// What storing `v` in `s` makes of `st`: a write when `s` is a signal of
/// `st`, else nothing.
pub open spec fn stored<V>(st: RuntimeState<V>, s: Signal, v: V) -> RuntimeState<V> {
    if s.id < st.signal_count() {
        st.write(s, v)
    } else {
        st
    }
}

/// Whether a watcher whose last value is `last` reports `v`: there was a
/// last value and `v` differs from it.
pub open spec fn reports<T: PartialEq>(last: Option<T>, v: T) -> bool {
    last matches Some(p) && !p.eq_spec(&v)
}

/// A watcher reports a value only when it differs from the one before: the
/// first value is never reported, a value equal to the previous one is not
/// reported, and a value different from it is.
pub proof fn law_watch_reports_changes<T: PartialEq>(last: Option<T>, v: T)
    requires
        vstd::laws_eq::obeys_concrete_eq::<T>(),
    ensures
        !reports(None::<T>, v),
        !reports(Some(v), v),
        last matches Some(p) ==> (reports(last, v) <==> p != v),
{
    reveal(vstd::laws_eq::obeys_concrete_eq);
}

/// Evaluates a source and reports changes to a callback.
#[verifier::reject_recursive_types(V)]
#[verifier::reject_recursive_types(T)]
struct Watch<V, T: PartialEq + Clone, S: Fn(&mut Runtime<V>) -> T, C: FnMut(T)> {
    source: S,
    callback: Option<C>,
    state: WatchState<T>,
    reported: Ghost<Seq<T>>,
    kind: PhantomData<V>,
}

impl<V, T: PartialEq + Clone, S: Fn(&mut Runtime<V>) -> T, C: FnMut(T)> Watch<V, T, S, C> {
    #[verifier::type_invariant]
    spec fn accepts_any(self) -> bool {
        evaluates_anywhere::<V, T, S>() && takes_any::<T, C>()
    }

    fn new(source: S, callback: C) -> (r: Self)
        requires
            evaluates_anywhere::<V, T, S>(),
            takes_any::<T, C>(),
        ensures
            r.source == source,
            r.callback == Some(callback),
            r.state.last is None,
            r.reported@ == Seq::<T>::empty(),
    {
        Watch {
            source,
            callback: Some(callback),
            state: WatchState::new(),
            reported: Ghost(Seq::empty()),
            kind: PhantomData,
        }
    }
}

impl<V, T: PartialEq + Clone, S: Fn(&mut Runtime<V>) -> T, C: FnMut(T)> Effect<V> for Watch<
    V,
    T,
    S,
    C,
> {
    closed spec fn fixed(&self) -> bool {
        false
    }

    closed spec fn ran(&self, a: &mut Runtime<V>) -> bool {
        true
    }

    /// Evaluates the source and hands the value to the callback when it
    /// differs from the previous one; the last value seen is kept. The
    /// values handed to the callback are recorded in `reported`: the value
    /// is added exactly when it is reported, and nothing is added when it
    /// equals the previous one or is the first.
    fn run(&mut self, rt: &mut Runtime<V>)
        ensures
            final(self).state.last is Some,
            exists|a: &mut Runtime<V>, v: T|
                *a == *old(rt) && *final(a) == *final(rt) && #[trigger] old(self).source.ensures((a,), v)
                    && (T::obeys_eq_spec() && reports(old(self).state.last, v)
                    && old(self).callback is Some ==> old(self).callback->0.ensures((v,), ())) && (
                T::obeys_eq_spec() ==> final(self).reported@ == old(self).reported@ + (if reports(
                    old(self).state.last,
                    v,
                ) {
                    seq![v]
                } else {
                    Seq::<T>::empty()
                })),
    {
        proof {
            use_type_invariant(&*self);
        }
        let value = (self.source)(rt);
        let mut state: WatchState<T> = WatchState::new();
        std::mem::swap(&mut state, &mut self.state);
        let report = state.observe(value);
        self.state = state;
        match report {
            Some(v) => {
                proof {
                    self.reported@ = self.reported@.push(v);
                }
                let mut cb: Option<C> = None;
                std::mem::swap(&mut cb, &mut self.callback);
                match cb {
                    Some(mut c) => {
                        c(v);
                        self.callback = Some(c);
                    },
                    None => {},
                }
            },
            None => {},
        }
        proof {
            if T::obeys_eq_spec() {
                if reports(old(self).state.last, value) {
                    assert(self.reported@ =~= old(self).reported@ + seq![value]);
                } else {
                    assert(self.reported@ =~= old(self).reported@ + Seq::<T>::empty());
                }
            }
        }
    }
}

/// A slot holding `code`.
fn slot_for<V, E: Effect<V> + 'static>(code: E) -> (s: Slot<V>)
    ensures
        s.code is Some,
{
    Slot { code: Some(Box::new(code)) }
}

/// A slot holding code that does nothing.
fn idle_slot<V>() -> (s: Slot<V>)
    ensures
        s.code is Some,
        !s.code->0.fixed(),
{
    Slot { code: Some(Box::new(Idle)) }
}

/// A slot holding the code of a closure effect.
fn closure_slot<V: 'static, F: FnMut(&mut Runtime<V>) + 'static>(code: FnEffect<V, F>) -> (s: Slot<V>)
    ensures
        s.code is Some,
        s.code->0.fixed() == code.fixed(),
        forall|a: &mut Runtime<V>| #[trigger] s.code->0.ran(a) == code.ran(a),
{
    Slot { code: Some(Box::new(code)) }
}

/// Whether `slot` holds code.
spec fn runnable<V>(slot: Slot<V>) -> bool {
    slot.code is Some
}

/// The code of one effect; empty while that code is running.
#[verifier::reject_recursive_types(V)]
struct Slot<V> {
    code: Option<Box<dyn Effect<V>>>,
}

/// A reactive system: a [`Runtime`] and the code of its effects.
#[verifier::reject_recursive_types(V)]
pub struct Reactive<V> {
    rt: Runtime<V>,
    effects: Vec<Slot<V>>,
    cleanups: Vec<Slot<V>>,
    runs: Ghost<Seq<usize>>,
    tops: Ghost<Seq<usize>>,
    waiting: Ghost<Seq<nat>>,
    cleaned: Ghost<Seq<nat>>,
}

impl<V: 'static> Reactive<V> {
    /// The state of the runtime.
    pub closed spec fn state(&self) -> RuntimeState<V> {
        self.rt@
    }

    /// The effect runs made for what user code scheduled (the writes of a
    /// `set`, an `update`, a batch, ...), in order: each effect that such
    /// code scheduled, once per scheduling. Runs scheduled by other effects'
    /// runs are not among them.
    pub closed spec fn scheduled_runs(&self) -> Seq<usize> {
        self.tops@
    }

    /// Every effect run so far, in order.
    pub closed spec fn runs(&self) -> Seq<usize> {
        self.runs@
    }

    /// Every effect has its code, and every waiting cleanup its number.
    closed spec fn slots_full(&self) -> bool {
        &&& forall|i: int| 0 <= i < self.effects@.len() ==> #[trigger] runnable(self.effects@[i])
        &&& self.waiting@.len() == self.cleanups@.len()
    }

    closed spec fn settled(&self) -> bool {
        &&& self.rt@.tracking is None
        &&& !self.rt@.batching
        &&& self.rt@.triggered.len() == 0
        &&& self.rt@.pending.len() == 0
    }

    /// Whether effect `e` has code that is known and stays the same from
    /// run to run (the code of `create_effect` and of `memo`).
    pub closed spec fn effect_fixed(&self, e: usize) -> bool {
        e < self.effects@.len() && (self.effects@[e as int].code matches Some(c) && c.fixed())
    }

    /// Whether a run of the fixed code of effect `e` may take the runtime
    /// behind `a` from `*a` to `*final(a)`.
    pub closed spec fn effect_ran(&self, e: usize, a: &mut Runtime<V>) -> bool {
        self.effects@[e as int].code matches Some(c) && c.ran(a)
    }

    /// Whether every effect whose code is fixed here has the same code in
    /// `later`.
    pub closed spec fn code_kept(&self, later: Self) -> bool {
        forall|e: usize|
            #[trigger] self.effect_fixed(e) ==> later.effect_fixed(e) && forall|a: &mut Runtime<V>|
                #[trigger] later.effect_ran(e, a) == self.effect_ran(e, a)
    }

    proof fn lemma_code_kept_trans(x: Self, y: Self, z: Self)
        requires
            x.code_kept(y),
            y.code_kept(z),
        ensures
            x.code_kept(z),
    {
        assert forall|e: usize| #[trigger] x.effect_fixed(e) implies z.effect_fixed(e) && forall|a: &mut Runtime<V>|
            #[trigger] z.effect_ran(e, a) == x.effect_ran(e, a) by {
            assert(y.effect_fixed(e));
            assert forall|a: &mut Runtime<V>| #[trigger] z.effect_ran(e, a) == x.effect_ran(e, a) by {
                assert(z.effect_ran(e, a) == y.effect_ran(e, a));
                assert(y.effect_ran(e, a) == x.effect_ran(e, a));
            }
        }
    }

    proof fn lemma_extend_trace(
        o: Self,
        queue: Seq<usize>,
        starts: Seq<RuntimeState<V>>,
        ends: Seq<RuntimeState<V>>,
        start: RuntimeState<V>,
        end: RuntimeState<V>,
        slots: nat,
    )
        requires
            starts.len() == ends.len(),
            ends.len() < queue.len(),
            forall|j: int|
                0 <= j < ends.len() && run_known(o, queue, ends, j, slots) ==> exists|
                    a: &mut Runtime<V>,
                | (*a)@ == starts[j] && (*final(a))@ == ends[j] && #[trigger] o.effect_ran(queue[j], a),
            run_known(o, queue, ends.push(end), ends.len() as int, slots) ==> exists|
                a: &mut Runtime<V>,
            | (*a)@ == start && (*final(a))@ == end && #[trigger] o.effect_ran(queue[ends.len() as int], a),
        ensures
            forall|j: int|
                0 <= j <= ends.len() && run_known(o, queue, ends.push(end), j, slots) ==> exists|
                    a: &mut Runtime<V>,
                |
                    (*a)@ == starts.push(start)[j] && (*final(a))@ == ends.push(end)[j]
                        && #[trigger] o.effect_ran(queue[j], a),
    {
        assert forall|j: int|
            0 <= j <= ends.len() && run_known(o, queue, ends.push(end), j, slots) implies exists|
            a: &mut Runtime<V>,
        |
            (*a)@ == starts.push(start)[j] && (*final(a))@ == ends.push(end)[j]
                && #[trigger] o.effect_ran(queue[j], a) by {
            if j < ends.len() {
                assert(starts.push(start)[j] == starts[j]);
                assert(ends.push(end)[j] == ends[j]);
                if j > 0 {
                    assert(ends.push(end)[j - 1] == ends[j - 1]);
                }
                assert(run_known(o, queue, ends, j, slots));
            } else {
                assert(starts.push(start)[j] == start);
                assert(ends.push(end)[j] == end);
            }
        }
    }

    proof fn lemma_code_kept_same(x: Self, y: Self)
        requires
            x.effects@ == y.effects@,
        ensures
            x.code_kept(y),
    {
        assert forall|e: usize| #[trigger] x.effect_fixed(e) implies y.effect_fixed(e) && forall|a: &mut Runtime<V>|
            #[trigger] y.effect_ran(e, a) == x.effect_ran(e, a) by {
            assert forall|a: &mut Runtime<V>| #[trigger] y.effect_ran(e, a) == x.effect_ran(e, a) by {
            }
        }
    }

    /// At rest: nothing tracked, no batch open, nothing queued, and every
    /// effect of the runtime has its code.
    pub closed spec fn wf(&self) -> bool {
        &&& self.settled()
        &&& self.slots_full()
        &&& self.effects@.len() == self.rt@.effect_count()
    }

    /// A system with no signals and no effects.
    pub fn new() -> (r: Self)
        ensures
            r.wf(),
            r.state() == RuntimeState::<V>::empty(),
            r.runs() == Seq::<usize>::empty(),
    {
        Reactive {
            rt: Runtime::new(),
            effects: Vec::new(),
            cleanups: Vec::new(),
            runs: Ghost(Seq::empty()),
            tops: Ghost(Seq::empty()),
            waiting: Ghost(Seq::empty()),
            cleaned: Ghost(Seq::empty()),
        }
    }

    /// Whether an observer of runtime events is installed.
    pub closed spec fn has_observer(&self) -> bool {
        self.rt.has_observer()
    }

    /// The events handed to the installed observer since it was installed.
    pub closed spec fn delivered(&self) -> Seq<HookEvent> {
        self.rt.delivered()
    }

    /// Installs an observer of runtime events, in place of any earlier one.
    pub fn install_hook(&mut self, hook: Box<dyn Hook>)
        requires
            old(self).wf(),
            hook.accepts_events(),
        ensures
            final(self).wf(),
            final(self).state() == old(self).state(),
            final(self).runs() == old(self).runs(),
            final(self).has_observer(),
            final(self).delivered() == Seq::<HookEvent>::empty(),
            old(self).code_kept(*final(self)),
    {
        self.rt.install_hook(hook);
    }

    /// Removes the observer.
    pub fn remove_hook(&mut self)
        requires
            old(self).wf(),
        ensures
            final(self).wf(),
            final(self).state() == old(self).state(),
            final(self).runs() == old(self).runs(),
            !final(self).has_observer(),
            final(self).delivered() == Seq::<HookEvent>::empty(),
            old(self).code_kept(*final(self)),
    {
        self.rt.remove_hook();
    }

    /// Creates a signal holding `value`.
    pub fn signal(&mut self, value: V) -> (s: Signal)
        requires
            old(self).wf(),
        ensures
            final(self).wf(),
            final(self).state() == old(self).state().create_signal(value),
            final(self).runs() == old(self).runs(),
            s.id == old(self).state().signal_count(),
            old(self).code_kept(*final(self)),
    {
        self.rt.signal(value)
    }

    /// Reads `s` (outside any effect: nothing is subscribed).
    pub fn get(&mut self, s: Signal) -> (r: &V)
        requires
            old(self).wf(),
            old(self).state().has_signal(s),
        ensures
            final(self).wf(),
            *r == old(self).state().values[s.id as int],
            final(self).state() == old(self).state(),
            final(self).runs() == old(self).runs(),
            old(self).code_kept(*final(self)),
    {
        self.rt.get(s)
    }

    /// Runs effect `e` and then, depth first, the effects that its writes
    /// scheduled, skipping those already on `stack` (the chain of effects
    /// whose consequences are being run).
    fn run_effect(&mut self, e: usize, stack: &mut Vec<usize>) -> (ran_to: Ghost<RuntimeState<V>>)
        requires
            old(self).slots_full(),
            old(self).settled(),
            e < old(self).effects@.len(),
            old(stack)@.no_duplicates(),
            ids_below(old(stack)@, old(self).effects@.len()),
            !old(stack)@.contains(e),
        ensures
            final(self).slots_full(),
            final(self).settled(),
            final(self).effects@.len() == old(self).effects@.len(),
            final(stack)@ == old(stack)@,
            final(self).runs.len() > old(self).runs.len(),
            final(self).runs@.subrange(0, old(self).runs@.len() as int) == old(self).runs@,
            final(self).runs@[old(self).runs@.len() as int] == e,
            old(self).code_kept(*final(self)),
            old(self).effects@.len() == old(self).rt@.effect_count() && old(self).effect_fixed(e)
                ==> exists|a: &mut Runtime<V>|
                (*a)@ == old(self).rt@.start_effect(e) && (*final(a))@ == ran_to@
                    && #[trigger] old(self).effect_ran(e, a),
            scheduled_nothing(ran_to@) ==> final(self).rt@ == closed_out(ran_to@) && final(self).runs@
                == old(self).runs@.push(e),
            final(self).cleanups@ == old(self).cleanups@,
            final(self).cleaned == old(self).cleaned,
            final(self).tops == old(self).tops,
            final(self).waiting == old(self).waiting,
        decreases old(self).effects@.len() - old(stack)@.len(), 1int,
    {
        if e < self.rt.effect_count() {
            self.rt.start_effect(e);
        }
        assert(runnable(self.effects@[e as int]));
        let ghost c0 = self.effects@[e as int].code->0;
        let ghost pre = *self;
        let ghost rt_start = self.rt;
        match &mut self.effects[e].code {
            Some(code) => {
                code.run(&mut self.rt);
            },
            None => {},
        }
        let ghost rt_ran = self.rt;
        proof {
            let o = *old(self);
            let n = *self;
            assert(pre.effects@ == o.effects@);
            let c1 = n.effects@[e as int].code->0;
            assert(n.effects@[e as int].code is Some);
            assert(c0.fixed() ==> c1.fixed());
            assert forall|i: usize| #[trigger] o.effect_fixed(i) implies n.effect_fixed(i) && forall|a: &mut Runtime<V>|
                #[trigger] n.effect_ran(i, a) == o.effect_ran(i, a) by {
                if i != e {
                    assert(n.effects@[i as int] == o.effects@[i as int]);
                }
            }
        }
        assert(self.effects@.len() == old(self).effects@.len());
        assert(self.slots_full()) by {
            assert forall|i: int| 0 <= i < self.effects@.len() implies #[trigger] runnable(self.effects@[i]) by {
                if i != e {
                    assert(runnable(old(self).effects@[i]));
                }
            }
        }
        let ghost before_runs_push = *self;
        proof {
            self.runs@ = self.runs@.push(e);
        }
        let ghost runs_after_e = self.runs@;
        let ghost after_code = *self;
        proof {
            Self::lemma_code_kept_same(before_runs_push, after_code);
            Self::lemma_code_kept_trans(*old(self), before_runs_push, after_code);
        }
        self.after_run(e, stack);
        proof {
            Self::lemma_code_kept_trans(*old(self), after_code, *self);
            if old(self).effects@.len() == old(self).rt@.effect_count() && old(self).effect_fixed(e) {
                assert(rt_start@ == old(self).rt@.start_effect(e));
                assert(c0.fixed());
                assert forall|a: &mut Runtime<V>| #[trigger] c0.ran(a) implies old(self).effect_ran(e, a) by {}
            }
            if scheduled_nothing(rt_ran@) {
                assert(self.rt@ == closed_out(rt_ran@));
                assert(self.runs@ =~= old(self).runs@.push(e));
            }
        }
        assert(self.runs@[old(self).runs@.len() as int] == e) by {
            assert(self.runs@.subrange(0, runs_after_e.len() as int)[old(self).runs@.len() as int]
                == runs_after_e[old(self).runs@.len() as int]);
        }
        assert(self.runs@.subrange(0, old(self).runs@.len() as int) =~= old(self).runs@) by {
            assert forall|i: int| 0 <= i < old(self).runs@.len() implies self.runs@[i]
                == old(self).runs@[i] by {
                assert(self.runs@.subrange(0, runs_after_e.len() as int)[i] == runs_after_e[i]);
            }
        }
        Ghost(rt_ran@)
    }

    /// Finishes a run of effect `e`, whose code has just run: tracking ends,
    /// a batch the code left open is closed, and the effects its writes
    /// scheduled run, depth first, skipping those on `stack`. When the run
    /// scheduled nothing, only tracking and batching change.
    fn after_run(&mut self, e: usize, stack: &mut Vec<usize>)
        requires
            old(self).slots_full(),
            e < old(self).effects@.len(),
            old(stack)@.no_duplicates(),
            ids_below(old(stack)@, old(self).effects@.len()),
            !old(stack)@.contains(e),
        ensures
            final(self).slots_full(),
            final(self).settled(),
            final(self).effects@.len() == old(self).effects@.len(),
            final(stack)@ == old(stack)@,
            final(self).runs@.len() >= old(self).runs@.len(),
            final(self).runs@.subrange(0, old(self).runs@.len() as int) == old(self).runs@,
            final(self).cleanups@ == old(self).cleanups@,
            final(self).cleaned == old(self).cleaned,
            final(self).tops == old(self).tops,
            final(self).waiting == old(self).waiting,
            old(self).code_kept(*final(self)),
            forall|k: int|
                0 <= k < closed_out(old(self).rt@).triggered.len() && closed_out(old(self).rt@).triggered[k] < old(self).effects@.len() && closed_out(old(self).rt@).triggered[k] != e
                    && !old(stack)@.contains(closed_out(old(self).rt@).triggered[k]) ==> #[trigger] final(self).runs@.subrange(
                    old(self).runs@.len() as int,
                    final(self).runs@.len() as int,
                ).contains(closed_out(old(self).rt@).triggered[k]),
            old(self).rt@.triggered.len() == 0 && old(self).rt@.pending.len() == 0 ==> final(self).rt@
                == old(self).rt@.set_tracking(None).end_batch() && final(self).runs@ == old(self).runs@,
        decreases old(self).effects@.len() - old(stack)@.len(), 0int,
    {
        let ghost m = self.rt@;
        self.rt.finish_effect(e);
        self.rt.close_batch();
        let queue = self.rt.drain();
        proof {
            if m.triggered.len() == 0 && m.pending.len() == 0 {
                assert(self.rt@ =~= m.set_tracking(None).end_batch());
            }
        }
        let ghost runs_after_e = self.runs@;
        let ghost start = stack@;
        proof {
            Self::lemma_code_kept_same(*old(self), *self);
        }
        assert(self.runs@.subrange(0, runs_after_e.len() as int) =~= runs_after_e);
        stack.push(e);
        let mut k: usize = 0;
        while k < queue.len()
            invariant
                self.slots_full(),
                self.settled(),
                self.effects@.len() == old(self).effects@.len(),
                stack@ == start.push(e),
                start == old(stack)@,
                stack@.no_duplicates(),
                ids_below(stack@, self.effects@.len()),
                k <= queue.len(),
                self.runs@.len() >= runs_after_e.len(),
                self.runs@.subrange(0, runs_after_e.len() as int) == runs_after_e,
                self.cleanups@ == old(self).cleanups@,
                self.cleaned == old(self).cleaned,
                self.tops == old(self).tops,
                self.waiting == old(self).waiting,
                old(self).code_kept(*self),
                runs_after_e == old(self).runs@,
                queue@ == closed_out(m).triggered,
                m == old(self).rt@,
                forall|j: int|
                    0 <= j < k && queue@[j] < self.effects@.len() && !stack@.contains(queue@[j])
                        ==> #[trigger] self.runs@.subrange(
                        runs_after_e.len() as int,
                        self.runs@.len() as int,
                    ).contains(queue@[j]),
                queue.len() == 0 ==> self.rt@ == m.set_tracking(None).end_batch().drain() && self.runs@
                    == runs_after_e,
            decreases queue.len() - k,
        {
            let t = queue[k];
            if t < self.effects.len() && !holds_id(stack, t) {
                let ghost before = self.runs@;
                proof {
                    lemma_id_list_len(stack@, self.effects@.len());
                    lemma_id_list_len(stack@.push(t), self.effects@.len());
                }
                let ghost mid = *self;
                self.run_effect(t, stack);
                proof {
                    Self::lemma_code_kept_trans(*old(self), mid, *self);
                }
                assert(self.runs@.subrange(0, runs_after_e.len() as int) == runs_after_e) by {
                    assert(self.runs@.subrange(0, before.len() as int) == before);
                    assert forall|i: int| 0 <= i < runs_after_e.len() implies self.runs@[i]
                        == runs_after_e[i] by {
                        assert(self.runs@.subrange(0, before.len() as int)[i] == before[i]);
                        assert(before.subrange(0, runs_after_e.len() as int)[i] == runs_after_e[i]);
                    }
                    assert(self.runs@.subrange(0, runs_after_e.len() as int) =~= runs_after_e);
                }
                proof {
                    let r0 = runs_after_e;
                    let now = self.runs@;
                    let fresh = now.subrange(r0.len() as int, now.len() as int);
                    assert(now.subrange(0, before.len() as int) == before);
                    assert(now[before.len() as int] == t);
                    assert(fresh[before.len() - r0.len()] == t);
                    assert forall|j: int|
                        0 <= j < k + 1 && queue@[j] < self.effects@.len() && !stack@.contains(queue@[j])
                            implies #[trigger] fresh.contains(queue@[j]) by {
                        if j == k {
                            assert(fresh[before.len() - r0.len()] == queue@[j]);
                        } else {
                            let older = before.subrange(r0.len() as int, before.len() as int);
                            assert(older.contains(queue@[j]));
                            let i = choose|i: int| 0 <= i < older.len() && older[i] == queue@[j];
                            assert(now.subrange(0, before.len() as int)[r0.len() + i] == before[r0.len() + i]);
                            assert(fresh[i] == queue@[j]);
                        }
                    }
                }
            }
            k = k + 1;
        }
        stack.pop();
        assert(stack@ =~= start);
        assert forall|j: int|
            0 <= j < queue@.len() && queue@[j] < old(self).effects@.len() && queue@[j] != e
                && !start.contains(queue@[j]) implies #[trigger] self.runs@.subrange(
            old(self).runs@.len() as int,
            self.runs@.len() as int,
        ).contains(queue@[j]) by {
            assert(!start.push(e).contains(queue@[j])) by {
                if start.push(e).contains(queue@[j]) {
                    let i = choose|i: int| 0 <= i < start.push(e).len() && start.push(e)[i] == queue@[j];
                    if i < start.len() {
                        assert(start[i] == queue@[j]);
                    }
                }
            }
        }
        proof {
            if m.triggered.len() == 0 && m.pending.len() == 0 {
                assert(m.set_tracking(None).end_batch().drain() =~= m.set_tracking(None).end_batch());
                assert(self.runs@ =~= old(self).runs@);
            }
        }
    }

    /// Runs every queued effect, in queue order, each followed by what its
    /// writes scheduled.
    fn flush(&mut self) -> (trace: Ghost<(Seq<RuntimeState<V>>, Seq<RuntimeState<V>>)>)
        requires
            old(self).slots_full(),
            old(self).state().tracking is None,
            !old(self).state().batching,
            old(self).state().pending.len() == 0,
            ids_below(old(self).state().triggered, old(self).effects@.len()),
            old(self).effects@.len() == old(self).state().effect_count(),
        ensures
            final(self).slots_full(),
            final(self).settled(),
            final(self).effects@.len() == old(self).effects@.len(),
            final(self).runs().len() >= old(self).runs().len(),
            final(self).runs().subrange(0, old(self).runs().len() as int) == old(self).runs(),
            forall|k: int|
                0 <= k < old(self).state().triggered.len() ==> #[trigger] final(self).runs().subrange(
                    old(self).runs().len() as int,
                    final(self).runs().len() as int,
                ).contains(old(self).state().triggered[k]),
            final(self).tops@ == old(self).tops@ + old(self).state().triggered,
            old(self).state().triggered.len() == 0 ==> final(self).state() == old(self).state()
                && final(self).runs() == old(self).runs(),
            final(self).cleanups@ == old(self).cleanups@,
            final(self).cleaned == old(self).cleaned,
            final(self).waiting == old(self).waiting,
            old(self).code_kept(*final(self)),
            old(self).state().triggered.len() > 0 && old(self).effects@.len() == old(
                self,
            ).state().effect_count() && old(self).effect_fixed(old(self).state().triggered[0])
                ==> exists|a: &mut Runtime<V>|
                (*a)@ == old(self).state().drain().start_effect(old(self).state().triggered[0])
                    && #[trigger] old(self).effect_ran(old(self).state().triggered[0], a) && (
                old(self).state().triggered.len() == 1 && scheduled_nothing((*final(a))@)
                    ==> final(self).state() == closed_out((*final(a))@) && final(self).runs()
                    == old(self).runs().push(old(self).state().triggered[0])),
            trace@.0.len() == old(self).state().triggered.len(),
            chained(old(self).state().drain(), old(self).state().triggered, trace@.0, trace@.1),
            forall|j: int|
                0 <= j < old(self).state().triggered.len() && run_known(*old(self), old(self).state().triggered, trace@.1, j, old(self).effects@.len())
                    ==> exists|a: &mut Runtime<V>|
                    (*a)@ == trace@.0[j] && (*final(a))@ == trace@.1[j] && #[trigger] old(
                        self,
                    ).effect_ran(old(self).state().triggered[j], a),
            old(self).state().triggered.len() > 0 && all_quiet(trace@.1) ==> final(self).state() == closed_out(
                trace@.1[old(self).state().triggered.len() - 1],
            ) && final(self).runs() == old(self).runs() + old(self).state().triggered,
    {
        let queue = self.rt.drain();
        if queue.len() == 0 {
            assert(self.rt@ =~= old(self).rt@);
        }
        let ghost r0 = self.runs@;
        assert(self.tops@ =~= old(self).tops@ + queue@.subrange(0, 0));
        let mut stack: Vec<usize> = Vec::new();
        proof {
            Self::lemma_code_kept_same(*old(self), *self);
        }
        let ghost mut starts: Seq<RuntimeState<V>> = Seq::empty();
        let ghost mut ends: Seq<RuntimeState<V>> = Seq::empty();
        let ghost slots = old(self).effects@.len();
        let mut k: usize = 0;
        while k < queue.len()
            invariant
                self.slots_full(),
                self.settled(),
                self.effects@.len() == old(self).effects@.len(),
                stack@ == Seq::<usize>::empty(),
                queue@ == old(self).rt@.triggered,
                ids_below(queue@, self.effects@.len()),
                r0 == old(self).runs@,
                k <= queue.len(),
                self.runs@.len() >= r0.len(),
                self.runs@.subrange(0, r0.len() as int) == r0,
                forall|j: int|
                    0 <= j < k ==> #[trigger] self.runs@.subrange(
                        r0.len() as int,
                        self.runs@.len() as int,
                    ).contains(queue@[j]),
                self.tops@ == old(self).tops@ + queue@.subrange(0, k as int),
                old(self).code_kept(*self),
                k == 0 ==> self.effects@ == old(self).effects@ && self.rt@ == old(self).rt@.drain()
                    && self.runs@ == r0,
                k > 0 && old(self).effects@.len() == old(self).rt@.effect_count()
                    && old(self).effect_fixed(queue@[0]) ==> exists|a: &mut Runtime<V>|
                    (*a)@ == old(self).rt@.drain().start_effect(queue@[0])
                        && #[trigger] old(self).effect_ran(queue@[0], a) && (queue.len() == 1
                        && scheduled_nothing((*final(a))@) ==> self.rt@ == closed_out(
                    (*final(a))@) && self.runs@ == r0.push(queue@[0])),
                queue.len() == 0 ==> self.rt@ == old(self).rt@ && self.runs@ == r0,
                slots == old(self).effects@.len(),
                slots == old(self).rt@.effect_count(),
                starts.len() == k,
                chained(old(self).rt@.drain(), queue@, starts, ends),
                forall|j: int|
                    0 <= j < k && run_known(*old(self), queue@, ends, j, slots) ==> exists|
                        a: &mut Runtime<V>,
                    |
                        (*a)@ == starts[j] && (*final(a))@ == ends[j] && #[trigger] old(self).effect_ran(
                            queue@[j],
                            a,
                        ),
                k > 0 && scheduled_nothing(ends[k - 1]) ==> self.rt@ == closed_out(ends[k - 1]),
                k > 0 && all_quiet(ends) ==> self.runs@ == r0 + queue@.subrange(0, k as int),
                self.cleanups@ == old(self).cleanups@,
                self.cleaned == old(self).cleaned,
                self.waiting == old(self).waiting,
            decreases queue.len() - k,
        {
            let t = queue[k];
            assert(t < self.effects@.len());
            let ghost before = self.runs@;
            let ghost tops_before = self.tops@;
            let ghost mid = *self;
            let ran_to = self.run_effect(t, &mut stack);
            let ghost after_re = *self;
            proof {
                let st = mid.rt@.start_effect(t);
                let e2 = ends.push(ran_to@);
                if run_known(*old(self), queue@, e2, k as int, slots) {
                    Self::lemma_code_kept_trans(*old(self), mid, mid);
                    assert(mid.effect_fixed(t));
                    assert forall|a: &mut Runtime<V>| #[trigger] mid.effect_ran(t, a) implies old(
                        self,
                    ).effect_ran(t, a) by {}
                    if k > 0 {
                        assert(e2[k - 1] == ends[k - 1]);
                        assert(mid.rt@ == closed_out(ends[k - 1]));
                        assert(ends[k - 1].effect_count() == slots);
                        assert(closed_out(ends[k - 1]).effect_count() == ends[k - 1].effect_count());
                    } else {
                        assert(mid.rt@ == old(self).rt@.drain());
                        assert(old(self).rt@.drain().effect_count() == old(self).rt@.effect_count());
                        assert(slots == old(self).rt@.effect_count());
                        assert(mid.rt@.effect_count() == slots);
                    }
                    assert(mid.rt@.effect_count() == slots);
                    assert(mid.effects@.len() == slots);
                    assert(mid.effects@.len() == mid.rt@.effect_count());
                    assert(queue@[k as int] == t);
                }
                Self::lemma_extend_trace(*old(self), queue@, starts, ends, st, ran_to@, slots);
                let s2 = starts.push(st);
                assert forall|j: int|
                    0 < j < s2.len() && scheduled_nothing(e2[j - 1]) implies #[trigger] s2[j] == closed_out(
                    e2[j - 1],
                ).start_effect(queue@[j]) by {
                    if j < k {
                        assert(s2[j] == starts[j]);
                        assert(e2[j - 1] == ends[j - 1]);
                    } else {
                        assert(e2[j - 1] == ends[k - 1]);
                    }
                }
                if all_quiet(e2) {
                    assert forall|j: int| 0 <= j < ends.len() implies scheduled_nothing(#[trigger] ends[j]) by {
                        assert(e2[j] == ends[j]);
                    }
                    assert(scheduled_nothing(e2[k as int]));
                    assert(self.runs@ == mid.runs@.push(t));
                    if k > 0 {
                        assert(mid.runs@ == r0 + queue@.subrange(0, k as int));
                    } else {
                        assert(mid.runs@ == r0);
                    }
                    assert(queue@.subrange(0, k + 1) =~= queue@.subrange(0, k as int).push(t));
                    assert(self.runs@ =~= r0 + queue@.subrange(0, k + 1));
                }
                starts = s2;
                ends = e2;
            }
            proof {
                Self::lemma_code_kept_trans(*old(self), mid, *self);
                if k == 0 {
                    assert(mid.effects@ == old(self).effects@);
                    assert(mid.rt@ == old(self).rt@.drain());
                    assert forall|a: &mut Runtime<V>| #[trigger] mid.effect_ran(t, a) implies old(
                        self,
                    ).effect_ran(t, a) by {}
                    if old(self).effects@.len() == old(self).rt@.effect_count() && old(self).effect_fixed(t) {
                        assert(mid.effect_fixed(t));
                    }
                }
            }
            proof {
                self.tops@ = self.tops@.push(t);
                Self::lemma_code_kept_same(after_re, *self);
                Self::lemma_code_kept_trans(*old(self), after_re, *self);
                assert(queue@.subrange(0, k + 1) =~= queue@.subrange(0, k as int).push(t));
                assert(self.tops@ =~= old(self).tops@ + queue@.subrange(0, k + 1));
                let now = self.runs@;
                assert(now.subrange(0, before.len() as int) == before);
                assert forall|i: int| 0 <= i < r0.len() implies now[i] == r0[i] by {
                    assert(now.subrange(0, before.len() as int)[i] == before[i]);
                    assert(before.subrange(0, r0.len() as int)[i] == r0[i]);
                }
                assert(now.subrange(0, r0.len() as int) =~= r0);
                let fresh = now.subrange(r0.len() as int, now.len() as int);
                assert(fresh[before.len() - r0.len()] == t);
                assert forall|j: int| 0 <= j < k + 1 implies #[trigger] fresh.contains(queue@[j]) by {
                    if j == k {
                        assert(fresh[before.len() - r0.len()] == queue@[j]);
                    } else {
                        let older = before.subrange(r0.len() as int, before.len() as int);
                        assert(older.contains(queue@[j]));
                        let i = choose|i: int| 0 <= i < older.len() && older[i] == queue@[j];
                        assert(now.subrange(0, before.len() as int)[r0.len() + i] == before[r0.len() + i]);
                        assert(fresh[i] == queue@[j]);
                    }
                }
            }
            k = k + 1;
        }
        assert(queue@.subrange(0, k as int) =~= queue@);
        Ghost((starts, ends))
    }

    /// Gives every effect node of the runtime a code slot, and every code
    /// slot an effect node.
    fn resync(&mut self)
        requires
            old(self).slots_full(),
        ensures
            final(self).slots_full(),
            final(self).effects@.len() == final(self).state().effect_count(),
            old(self).settled() ==> final(self).wf(),
            old(self).effects@.len() <= old(self).state().effect_count() ==> final(self).state()
                == old(self).state(),
            final(self).state().tracking == old(self).state().tracking,
            final(self).state().batching == old(self).state().batching,
            final(self).state().triggered == old(self).state().triggered,
            final(self).state().pending == old(self).state().pending,
            final(self).state().effect_count() >= old(self).state().effect_count(),
            old(self).code_kept(*final(self)),
            final(self).runs() == old(self).runs(),
            final(self).cleanups@ == old(self).cleanups@,
            final(self).cleaned == old(self).cleaned,
            final(self).tops == old(self).tops,
            final(self).waiting == old(self).waiting,
    {
        while self.rt.effect_count() < self.effects.len()
            invariant
                self.slots_full(),
                self.effects@ == old(self).effects@,
                old(self).effects@.len() <= old(self).rt@.effect_count() ==> self.rt@ == old(self).rt@,
                self.rt@.tracking == old(self).rt@.tracking,
                self.rt@.batching == old(self).rt@.batching,
                self.rt@.triggered == old(self).rt@.triggered,
                self.rt@.pending == old(self).rt@.pending,
                self.rt@.effect_count() >= old(self).rt@.effect_count(),
                self.runs == old(self).runs,
                self.cleanups@ == old(self).cleanups@,
                self.cleaned == old(self).cleaned,
                self.tops == old(self).tops,
                self.waiting == old(self).waiting,
            decreases self.effects@.len() - self.rt@.effect_count(),
        {
            self.rt.add_effect();
        }
        proof {
            Self::lemma_code_kept_same(*old(self), *self);
        }
        let ghost mid = *self;
        let n = self.rt.effect_count();
        while self.effects.len() < n
            invariant
                self.slots_full(),
                self.effects@.len() <= n,
                n == self.rt@.effect_count(),
                self.rt@ == mid.rt@,
                self.effects@.len() >= mid.effects@.len(),
                forall|i: int| 0 <= i < mid.effects@.len() ==> self.effects@[i] == mid.effects@[i],
                self.runs == old(self).runs,
                self.cleanups@ == old(self).cleanups@,
                self.cleaned == old(self).cleaned,
                self.tops == old(self).tops,
                self.waiting == old(self).waiting,
            decreases n - self.effects@.len(),
        {
            self.effects.push(slot_for(Idle));
        }
        proof {
            let x = mid;
            let y = *self;
            assert forall|e: usize| #[trigger] x.effect_fixed(e) implies y.effect_fixed(e) && forall|a: &mut Runtime<V>|
                #[trigger] y.effect_ran(e, a) == x.effect_ran(e, a) by {
                assert(y.effects@[e as int] == x.effects@[e as int]);
            }
            Self::lemma_code_kept_trans(*old(self), mid, *self);
        }
    }

    /// Brings the system back to rest after user code ran: tracking off,
    /// any open batch closed, and every scheduled effect run, each once for
    /// its scheduling, in queue order.
    fn settle(&mut self) -> (trace: Ghost<(Seq<RuntimeState<V>>, Seq<RuntimeState<V>>)>)
        requires
            old(self).slots_full(),
        ensures
            final(self).wf(),
            final(self).runs().len() >= old(self).runs().len(),
            final(self).runs().subrange(0, old(self).runs().len() as int) == old(self).runs(),
            forall|k: int|
                0 <= k < closed_out(old(self).state()).triggered.len() ==> #[trigger] final(self).runs().subrange(
                    old(self).runs().len() as int,
                    final(self).runs().len() as int,
                ).contains(closed_out(old(self).state()).triggered[k]),
            final(self).scheduled_runs() == old(self).scheduled_runs() + closed_out(
                old(self).state(),
            ).triggered,
            closed_out(old(self).state()).triggered.len() == 0 && old(self).effects@.len()
                <= old(self).state().effect_count() ==> final(self).state() == closed_out(
                old(self).state(),
            ) && final(self).runs() == old(self).runs(),
            at_rest(old(self).state()) && old(self).effects@.len() <= old(self).state().effect_count()
                ==> final(self).state() == old(self).state() && final(self).runs()
                == old(self).runs(),
            final(self).cleanups@ == old(self).cleanups@,
            final(self).cleaned == old(self).cleaned,
            final(self).waiting == old(self).waiting,
            old(self).code_kept(*final(self)),
            old(self).effects@.len() == old(self).state().effect_count() ==> trace@.0.len()
                == closed_out(old(self).state()).triggered.len() && chained(
                closed_out(old(self).state()).drain(),
                closed_out(old(self).state()).triggered,
                trace@.0,
                trace@.1,
            ) && (forall|j: int|
                0 <= j < closed_out(old(self).state()).triggered.len() && run_known(
                    *old(self),
                    closed_out(old(self).state()).triggered,
                    trace@.1,
                    j,
                    old(self).effects@.len(),
                ) ==> exists|a: &mut Runtime<V>|
                    (*a)@ == trace@.0[j] && (*final(a))@ == trace@.1[j] && #[trigger] old(
                        self,
                    ).effect_ran(closed_out(old(self).state()).triggered[j], a)) && (closed_out(old(self).state()).triggered.len() > 0 && all_quiet(trace@.1)
                && trace@.1[closed_out(old(self).state()).triggered.len() - 1].effect_count() >= old(self).effects@.len()
                ==> final(self).state() == closed_out(trace@.1[closed_out(old(self).state()).triggered.len() - 1])
                && final(self).runs() == old(self).runs() + closed_out(old(self).state()).triggered),
    {
        let ghost m = self.rt@;
        self.rt.clear_tracking();
        self.rt.close_batch();
        self.rt.assert_consistent();
        proof {
            if at_rest(m) {
                assert(self.rt@ =~= m);
            }
        }
        let ghost s0 = *self;
        proof {
            Self::lemma_code_kept_same(*old(self), s0);
        }
        self.resync();
        let ghost s1 = *self;
        let tr = self.flush();
        let ghost s2 = *self;
        self.resync();
        proof {
            Self::lemma_code_kept_trans(*old(self), s0, s1);
            Self::lemma_code_kept_trans(*old(self), s1, s2);
            Self::lemma_code_kept_trans(*old(self), s2, *self);
            if old(self).effects@.len() == old(self).state().effect_count() {
                assert(s0.rt@ == closed_out(m));
                assert(s1.rt@ == closed_out(m));
                assert(s1.effects@.len() == old(self).effects@.len());
                assert forall|q: Seq<usize>, e: Seq<RuntimeState<V>>, j: int, sl: nat|
                    #[trigger] run_known(*old(self), q, e, j, sl) implies run_known(s1, q, e, j, sl) by {}
                assert forall|t: usize, a: &mut Runtime<V>|
                    old(self).effect_fixed(t) && #[trigger] s1.effect_ran(t, a) implies old(
                        self,
                    ).effect_ran(t, a) by {}
            }
        }
        tr
    }
    /// Stores `value` in `s` and runs the effects subscribed to it, each
    /// once, in subscription order (with what their own writes schedule
    /// after each). Each of those runs is a run of its effect's code: the
    /// first from the state the write made, and each next one, when the one
    /// before scheduled nothing, from the state that one left. When none of
    /// them scheduled anything, the system ends in the state the last left.
    pub fn set(&mut self, s: Signal, value: V)
        requires
            old(self).wf(),
            old(self).state().has_signal(s),
        ensures
            final(self).wf(),
            final(self).runs().len() >= old(self).runs().len(),
            final(self).runs().subrange(0, old(self).runs().len() as int) == old(self).runs(),
            forall|k: int|
                0 <= k < old(self).state().subscribers[s.id as int].len() ==> #[trigger] final(self).runs().subrange(old(self).runs().len() as int, final(self).runs().len() as int).contains(
                    old(self).state().subscribers[s.id as int][k],
                ),
            old(self).state().subscribers[s.id as int].len() == 0 ==> final(self).state()
                == old(self).state().write(s, value) && final(self).runs() == old(self).runs(),
            final(self).scheduled_runs() == old(self).scheduled_runs() + old(self).state().subscribers[s.id as int],
            old(self).code_kept(*final(self)),
            exists|starts: Seq<RuntimeState<V>>, ends: Seq<RuntimeState<V>>|
                starts.len() == old(self).state().subscribers[s.id as int].len() && chained(old(self).state().write(s, value).drain(), old(self).state().subscribers[s.id as int], starts, ends) && (forall|
                    j: int,
                |
                    0 <= j < old(self).state().subscribers[s.id as int].len() && run_known(
                        *old(self),
                        old(self).state().subscribers[s.id as int],
                        ends,
                        j,
                        old(self).state().effect_count(),
                    ) ==> exists|a: &mut Runtime<V>|
                        (*a)@ == starts[j] && (*final(a))@ == ends[j] && #[trigger] old(
                            self,
                        ).effect_ran(old(self).state().subscribers[s.id as int][j], a)) && (old(self).state().subscribers[s.id as int].len() > 0 && all_quiet(ends)
                    && ends[old(self).state().subscribers[s.id as int].len() - 1].effect_count() >= old(self).state().effect_count()
                    ==> final(self).state() == closed_out(ends[old(self).state().subscribers[s.id as int].len() - 1])
                    && final(self).runs() == old(self).runs() + old(self).state().subscribers[s.id as int]),
    {
        self.rt.assert_consistent();
        let ghost m = self.rt@;
        self.rt.set(s, value);
        proof {
            assert(self.rt@.triggered =~= m.subscribers[s.id as int]);
            assert(closed_out(self.rt@).triggered =~= m.subscribers[s.id as int]);
            assert(closed_out(self.rt@) =~= self.rt@);
            assert(id_list(m.subscribers[s.id as int], m.effect_count()));
            assert forall|k: int| 0 <= k < self.rt@.triggered.len() implies self.rt@.triggered[k]
                < self.effects@.len() by {
                assert(self.rt@.triggered[k] == m.subscribers[s.id as int][k]);
            }
        }
        let ghost pre_settle = *self;
        proof {
            assert(pre_settle.effects@ == old(self).effects@);
            assert forall|t: usize, b: &mut Runtime<V>| #[trigger] pre_settle.effect_ran(t, b) implies old(
                self,
            ).effect_ran(t, b) by {}
            assert forall|t: usize| #[trigger] old(self).effect_fixed(t) implies pre_settle.effect_fixed(t) by {}
        }
        let tr = self.settle();
        proof {
            assert forall|q: Seq<usize>, e: Seq<RuntimeState<V>>, j: int, sl: nat|
                #[trigger] run_known(*old(self), q, e, j, sl) implies run_known(pre_settle, q, e, j, sl) by {}
            Self::lemma_code_kept_same(*old(self), pre_settle);
            Self::lemma_code_kept_trans(*old(self), pre_settle, *self);
        }
    }

    /// Changes the value of `s` in place with `f` and runs the effects
    /// subscribed to it, as `set` does with the value `f` made of the old
    /// one; with no subscribers, that value is simply stored.
    pub fn update<F: FnOnce(&mut V)>(&mut self, s: Signal, f: F)
        requires
            old(self).wf(),
            old(self).state().has_signal(s),
            forall|v: &mut V| #[trigger] f.requires((v,)),
        ensures
            exists|v: &mut V|
                *v == old(self).state().values[s.id as int] && #[trigger] f.ensures((v,), ()) && (
                old(self).state().subscribers[s.id as int].len() == 0 ==> final(self).state()
                    == old(self).state().write(s, *final(v))) && exists|starts: Seq<RuntimeState<V>>, ends: Seq<RuntimeState<V>>|
                starts.len() == old(self).state().subscribers[s.id as int].len() && chained(old(self).state().write(s, *final(v)).drain(), old(self).state().subscribers[s.id as int], starts, ends) && (forall|
                    j: int,
                |
                    0 <= j < old(self).state().subscribers[s.id as int].len() && run_known(
                        *old(self),
                        old(self).state().subscribers[s.id as int],
                        ends,
                        j,
                        old(self).state().effect_count(),
                    ) ==> exists|a: &mut Runtime<V>|
                        (*a)@ == starts[j] && (*final(a))@ == ends[j] && #[trigger] old(
                            self,
                        ).effect_ran(old(self).state().subscribers[s.id as int][j], a)) && (old(self).state().subscribers[s.id as int].len() > 0 && all_quiet(ends)
                    && ends[old(self).state().subscribers[s.id as int].len() - 1].effect_count() >= old(self).state().effect_count()
                    ==> final(self).state() == closed_out(ends[old(self).state().subscribers[s.id as int].len() - 1])
                    && final(self).runs() == old(self).runs() + old(self).state().subscribers[s.id as int]),
            final(self).wf(),
            final(self).runs().len() >= old(self).runs().len(),
            final(self).runs().subrange(0, old(self).runs().len() as int) == old(self).runs(),
            forall|k: int|
                0 <= k < old(self).state().subscribers[s.id as int].len() ==> #[trigger] final(self).runs().subrange(old(self).runs().len() as int, final(self).runs().len() as int).contains(
                    old(self).state().subscribers[s.id as int][k],
                ),
            final(self).scheduled_runs() == old(self).scheduled_runs() + old(self).state().subscribers[s.id as int],
            old(self).code_kept(*final(self)),
    {
        self.rt.assert_consistent();
        let ghost m = self.rt@;
        self.rt.update(s, f);
        proof {
            if m.subscribers[s.id as int].len() == 0 {
                assert(m.write(s, self.rt@.values[s.id as int]).triggered =~= Seq::<usize>::empty());
            }
            assert(self.rt@.triggered =~= m.subscribers[s.id as int]);
            assert(closed_out(self.rt@).triggered =~= m.subscribers[s.id as int]);
            assert(closed_out(self.rt@) =~= self.rt@);
            assert(id_list(m.subscribers[s.id as int], m.effect_count()));
            assert forall|k: int| 0 <= k < self.rt@.triggered.len() implies self.rt@.triggered[k]
                < self.effects@.len() by {
                assert(self.rt@.triggered[k] == m.subscribers[s.id as int][k]);
            }
        }
        let ghost pre_settle = *self;
        proof {
            assert(pre_settle.effects@ == old(self).effects@);
            assert forall|t: usize, b: &mut Runtime<V>| #[trigger] pre_settle.effect_ran(t, b) implies old(
                self,
            ).effect_ran(t, b) by {}
            assert forall|t: usize| #[trigger] old(self).effect_fixed(t) implies pre_settle.effect_fixed(t) by {}
        }
        let tr = self.settle();
        proof {
            assert forall|q: Seq<usize>, e: Seq<RuntimeState<V>>, j: int, sl: nat|
                #[trigger] run_known(*old(self), q, e, j, sl) implies run_known(pre_settle, q, e, j, sl) by {}
            Self::lemma_code_kept_same(*old(self), pre_settle);
            Self::lemma_code_kept_trans(*old(self), pre_settle, *self);
        }
    }

    /// Runs `f` as a batch: the effects scheduled by its writes run once
    /// each, in the order they were first scheduled, after `f` returns and
    /// the batch is closed, one after the other as `set` runs them.
    pub fn batch<F: FnOnce(&mut Runtime<V>)>(&mut self, f: F)
        requires
            old(self).wf(),
            forall|a: &mut Runtime<V>| #[trigger] f.requires((a,)),
        ensures
            exists|a: &mut Runtime<V>|
                (*a)@ == old(self).state().begin_batch() && #[trigger] f.ensures((a,), ()) && final(self).scheduled_runs()
                == old(self).scheduled_runs() + closed_out((*final(a))@.end_batch()).triggered && (forall|k: int|
                0 <= k < closed_out((*final(a))@.end_batch()).triggered.len() ==> #[trigger] final(self).runs().subrange(
                    old(self).runs().len() as int,
                    final(self).runs().len() as int,
                ).contains(closed_out((*final(a))@.end_batch()).triggered[k])) && (closed_out((*final(a))@.end_batch()).triggered.len()
                == 0 && (*final(a))@.end_batch().effect_count() >= old(self).state().effect_count() ==> final(self).state() == closed_out((*final(a))@.end_batch()) && final(self).runs() == old(self).runs()) && ((*final(a))@.end_batch().effect_count() == old(self).state().effect_count() ==> exists|
                    starts: Seq<RuntimeState<V>>,
                    ends: Seq<RuntimeState<V>>,
                |
                    starts.len() == closed_out((*final(a))@.end_batch()).triggered.len() && chained(closed_out((*final(a))@.end_batch()).drain(), closed_out((*final(a))@.end_batch()).triggered, starts, ends)
                        && (forall|j: int|
                        0 <= j < closed_out((*final(a))@.end_batch()).triggered.len() && run_known(
                            *old(self),
                            closed_out((*final(a))@.end_batch()).triggered,
                            ends,
                            j,
                            old(self).state().effect_count(),
                        ) ==> exists|b: &mut Runtime<V>|
                            (*b)@ == starts[j] && (*final(b))@ == ends[j] && #[trigger] old(
                                self,
                            ).effect_ran(closed_out((*final(a))@.end_batch()).triggered[j], b)) && (closed_out((*final(a))@.end_batch()).triggered.len() > 0 && all_quiet(ends)
                        && ends[closed_out((*final(a))@.end_batch()).triggered.len() - 1].effect_count() >= old(self).state().effect_count()
                        ==> final(self).state() == closed_out(ends[closed_out((*final(a))@.end_batch()).triggered.len() - 1])
                        && final(self).runs() == old(self).runs() + closed_out((*final(a))@.end_batch()).triggered)),
            final(self).wf(),
            final(self).runs().len() >= old(self).runs().len(),
            final(self).runs().subrange(0, old(self).runs().len() as int) == old(self).runs(),
            old(self).code_kept(*final(self)),
    {
        self.rt.batch(f);
        let ghost pre_settle = *self;
        proof {
            assert(pre_settle.effects@ == old(self).effects@);
            assert forall|t: usize, b: &mut Runtime<V>| #[trigger] pre_settle.effect_ran(t, b) implies old(
                self,
            ).effect_ran(t, b) by {}
            assert forall|t: usize| #[trigger] old(self).effect_fixed(t) implies pre_settle.effect_fixed(t) by {}
        }
        let tr = self.settle();
        proof {
            assert forall|q: Seq<usize>, e: Seq<RuntimeState<V>>, j: int, sl: nat|
                #[trigger] run_known(*old(self), q, e, j, sl) implies run_known(pre_settle, q, e, j, sl) by {}
            Self::lemma_code_kept_same(*old(self), pre_settle);
            Self::lemma_code_kept_trans(*old(self), pre_settle, *self);
        }
    }

    /// Runs `f` without tracking its reads, then runs what its writes
    /// scheduled, one after the other as `set` runs them; with nothing
    /// scheduled, the state is the one `f` left.
    pub fn untrack<T, F: FnOnce(&mut Runtime<V>) -> T>(&mut self, f: F) -> (r: T)
        requires
            old(self).wf(),
            forall|a: &mut Runtime<V>| #[trigger] f.requires((a,)),
        ensures
            exists|a: &mut Runtime<V>|
                (*a)@ == old(self).state() && #[trigger] f.ensures((a,), r) && final(self).scheduled_runs()
                == old(self).scheduled_runs() + closed_out((*final(a))@).triggered && (forall|k: int|
                0 <= k < closed_out((*final(a))@).triggered.len() ==> #[trigger] final(self).runs().subrange(
                    old(self).runs().len() as int,
                    final(self).runs().len() as int,
                ).contains(closed_out((*final(a))@).triggered[k])) && (closed_out((*final(a))@).triggered.len()
                == 0 && (*final(a))@.effect_count() >= old(self).state().effect_count() ==> final(self).state() == closed_out((*final(a))@) && final(self).runs() == old(self).runs()) && ((*final(a))@.effect_count() == old(self).state().effect_count() ==> exists|
                    starts: Seq<RuntimeState<V>>,
                    ends: Seq<RuntimeState<V>>,
                |
                    starts.len() == closed_out((*final(a))@).triggered.len() && chained(closed_out((*final(a))@).drain(), closed_out((*final(a))@).triggered, starts, ends)
                        && (forall|j: int|
                        0 <= j < closed_out((*final(a))@).triggered.len() && run_known(
                            *old(self),
                            closed_out((*final(a))@).triggered,
                            ends,
                            j,
                            old(self).state().effect_count(),
                        ) ==> exists|b: &mut Runtime<V>|
                            (*b)@ == starts[j] && (*final(b))@ == ends[j] && #[trigger] old(
                                self,
                            ).effect_ran(closed_out((*final(a))@).triggered[j], b)) && (closed_out((*final(a))@).triggered.len() > 0 && all_quiet(ends)
                        && ends[closed_out((*final(a))@).triggered.len() - 1].effect_count() >= old(self).state().effect_count()
                        ==> final(self).state() == closed_out(ends[closed_out((*final(a))@).triggered.len() - 1])
                        && final(self).runs() == old(self).runs() + closed_out((*final(a))@).triggered)),
            final(self).wf(),
            final(self).runs().len() >= old(self).runs().len(),
            final(self).runs().subrange(0, old(self).runs().len() as int) == old(self).runs(),
            old(self).code_kept(*final(self)),
    {
        assert(old(self).rt@.set_tracking(None) =~= old(self).rt@);
        let r = self.rt.untrack(f);
        let ghost pre_settle = *self;
        proof {
            assert(pre_settle.effects@ == old(self).effects@);
            assert forall|t: usize, b: &mut Runtime<V>| #[trigger] pre_settle.effect_ran(t, b) implies old(
                self,
            ).effect_ran(t, b) by {}
            assert forall|t: usize| #[trigger] old(self).effect_fixed(t) implies pre_settle.effect_fixed(t) by {}
        }
        let tr = self.settle();
        proof {
            assert forall|q: Seq<usize>, e: Seq<RuntimeState<V>>, j: int, sl: nat|
                #[trigger] run_known(*old(self), q, e, j, sl) implies run_known(pre_settle, q, e, j, sl) by {}
            Self::lemma_code_kept_same(*old(self), pre_settle);
            Self::lemma_code_kept_trans(*old(self), pre_settle, *self);
        }
        r
    }

    /// Adds an effect with no code yet and starts its run.
    fn begin_effect(&mut self) -> (id: usize)
        requires
            old(self).wf(),
        ensures
            final(self).slots_full(),
            id == old(self).effects@.len(),
            id == old(self).state().effect_count(),
            final(self).effects@.len() == old(self).effects@.len() + 1,
            final(self).state() == old(self).state().add_effect().start_effect(id),
            final(self).runs == old(self).runs,
            final(self).cleanups@ == old(self).cleanups@,
            final(self).cleaned == old(self).cleaned,
            final(self).tops == old(self).tops,
            final(self).waiting == old(self).waiting,
            old(self).code_kept(*final(self)),
            !final(self).effect_fixed(id),
    {
        let id = self.rt.add_effect();
        self.effects.push(idle_slot());
        proof {
            let x = *old(self);
            let y = *self;
            assert forall|e: usize| #[trigger] x.effect_fixed(e) implies y.effect_fixed(e) && forall|a: &mut Runtime<V>|
                #[trigger] y.effect_ran(e, a) == x.effect_ran(e, a) by {
                assert(y.effects@[e as int] == x.effects@[e as int]);
            }
        }
        assert(self.slots_full()) by {
            assert forall|i: int| 0 <= i < self.effects@.len() implies #[trigger] runnable(self.effects@[i]) by {
                if i < old(self).effects@.len() {
                    assert(runnable(old(self).effects@[i]));
                }
            }
        }
        self.rt.start_effect(id);
        id
    }

    /// Ends the first run of effect `id`: its code goes into its slot, and
    /// the run is finished as any other (tracking ends, an open batch is
    /// closed, what the run scheduled runs). When the run scheduled
    /// nothing, only tracking and batching change.
    fn end_effect(&mut self, id: usize, slot: Slot<V>)
        requires
            old(self).slots_full(),
            id < old(self).effects@.len(),
            !old(self).effect_fixed(id),
            runnable(slot),
        ensures
            final(self).wf(),
            final(self).runs().len() > old(self).runs().len(),
            final(self).runs().subrange(0, old(self).runs().len() as int) == old(self).runs(),
            final(self).runs()[old(self).runs().len() as int] == id,
            scheduled_nothing(old(self).state()) && old(self).effects@.len() <= old(
                self,
            ).state().effect_count() ==> final(self).state() == old(self).state().set_tracking(
                None,
            ).end_batch() && final(self).runs() == old(self).runs().push(id),
            final(self).cleanups@ == old(self).cleanups@,
            final(self).cleaned == old(self).cleaned,
            final(self).tops == old(self).tops,
            final(self).waiting == old(self).waiting,
            old(self).code_kept(*final(self)),
            slot.code->0.fixed() ==> final(self).effect_fixed(id) && forall|a: &mut Runtime<V>|
                #[trigger] final(self).effect_ran(id, a) == slot.code->0.ran(a),
    {
        let ghost given = slot;
        let mut slot = slot;
        std::mem::swap(&mut slot, &mut self.effects[id]);
        let ghost placed = *self;
        proof {
            let x = *old(self);
            assert forall|e: usize| #[trigger] x.effect_fixed(e) implies placed.effect_fixed(e) && forall|a: &mut Runtime<V>|
                #[trigger] placed.effect_ran(e, a) == x.effect_ran(e, a) by {
                if e != id {
                    assert(placed.effects@[e as int] == x.effects@[e as int]);
                }
            }
            assert(placed.effects@[id as int] == given);
            assert(!x.effect_fixed(id));
        }
        assert(self.slots_full()) by {
            assert forall|i: int| 0 <= i < self.effects@.len() implies #[trigger] runnable(self.effects@[i]) by {
                if i != id {
                    assert(runnable(old(self).effects@[i]));
                }
            }
        }
        proof {
            self.runs@ = self.runs@.push(id);
        }
        let ghost pushed = self.runs@;
        let mut stack: Vec<usize> = Vec::new();
        let ghost pre_after = *self;
        self.after_run(id, &mut stack);
        let ghost post_after = *self;
        self.resync();
        proof {
            Self::lemma_code_kept_same(placed, pre_after);
            Self::lemma_code_kept_trans(*old(self), placed, pre_after);
            Self::lemma_code_kept_trans(*old(self), pre_after, post_after);
            Self::lemma_code_kept_trans(*old(self), post_after, *self);
            if given.code->0.fixed() {
                assert(placed.effect_fixed(id));
                Self::lemma_code_kept_trans(placed, pre_after, post_after);
                Self::lemma_code_kept_trans(placed, post_after, *self);
                assert(self.effect_fixed(id));
                assert forall|a: &mut Runtime<V>| #[trigger] self.effect_ran(id, a) == given.code->0.ran(a) by {
                    assert(self.effect_ran(id, a) == placed.effect_ran(id, a));
                }
            }
            assert(pushed.subrange(0, old(self).runs@.len() as int) =~= old(self).runs@);
            assert(self.runs@.subrange(0, pushed.len() as int)[old(self).runs@.len() as int]
                == pushed[old(self).runs@.len() as int]);
            assert forall|i: int| 0 <= i < old(self).runs@.len() implies self.runs@[i]
                == old(self).runs@[i] by {
                assert(self.runs@.subrange(0, pushed.len() as int)[i] == pushed[i]);
            }
            assert(self.runs@.subrange(0, old(self).runs@.len() as int) =~= old(self).runs@);
        }
    }

    /// Creates an effect: `f` runs now, from the state in which the new
    /// effect (numbered by the effect count) was added and started, so that
    /// its reads subscribe it; it runs again whenever a signal it read
    /// during its last run is written, and each such run is a run of `f`.
    /// When the first run scheduled nothing, the system ends in the state
    /// that run left, with tracking over and no batch open.
    pub fn create_effect<F: FnMut(&mut Runtime<V>) + 'static>(&mut self, f: F)
        requires
            old(self).wf(),
            forall|a: &mut Runtime<V>| #[trigger] f.requires((a,)),
        ensures
            final(self).wf(),
            final(self).runs().len() > old(self).runs().len(),
            final(self).runs().subrange(0, old(self).runs().len() as int) == old(self).runs(),
            final(self).runs()[old(self).runs().len() as int] == old(self).state().effect_count(),
            exists|a: &mut Runtime<V>|
                (*a)@ == old(self).state().add_effect().start_effect(
                    old(self).state().effect_count() as usize,
                ) && #[trigger] f.ensures((a,), ()) && (scheduled_nothing((*final(a))@) && (
                *final(a))@.effect_count() > old(self).state().effect_count() ==> final(
                self).state() == (*final(a))@.set_tracking(None).end_batch() && final(self).runs()
                    == old(self).runs().push(old(self).state().effect_count() as usize)),
            old(self).code_kept(*final(self)),
            final(self).effect_fixed(old(self).state().effect_count() as usize),
            forall|a: &mut Runtime<V>|
                #[trigger] final(self).effect_ran(old(self).state().effect_count() as usize, a)
                    == f.ensures((a,), ()),
    {
        let id = self.begin_effect();
        let ghost s1 = *self;
        let mut code = FnEffect::new(f);
        code.run(&mut self.rt);
        let ghost s2 = *self;
        let slot = closure_slot(code);
        self.end_effect(id, slot);
        proof {
            Self::lemma_code_kept_same(s1, s2);
            Self::lemma_code_kept_trans(*old(self), s1, s2);
            Self::lemma_code_kept_trans(*old(self), s2, *self);
            assert forall|a: &mut Runtime<V>| #[trigger] self.effect_ran(id, a) == f.ensures((a,), ()) by {
                assert(self.effect_ran(id, a) == slot.code->0.ran(a));
            }
        }
    }

    /// Creates a derived signal: `compute` runs on the current state, and a
    /// new signal (numbered by the signal count it left) is created holding
    /// its result. An effect (numbered by the effect count then) then runs
    /// `compute` again and stores its result in the signal, and does so
    /// whenever a signal that `compute` read changes.
    pub fn memo<F: Fn(&mut Runtime<V>) -> V + 'static>(&mut self, compute: F) -> (s: Signal)
        requires
            old(self).wf(),
            evaluates_anywhere::<V, V, F>(),
        ensures
            final(self).wf(),
            final(self).runs().len() > old(self).runs().len(),
            final(self).runs().subrange(0, old(self).runs().len() as int) == old(self).runs(),
            exists|a: &mut Runtime<V>, v: V|
                (*a)@ == old(self).state() && #[trigger] compute.ensures((a,), v) && s.id == (
                *final(a))@.signal_count() && (at_rest((*final(a))@) && (*final(a))@.effect_count()
                >= old(self).state().effect_count() ==> exists|
                    b: &mut Runtime<V>,
                    w: V,
                |
                    (*b)@ == (*final(a))@.create_signal(v).add_effect().start_effect(
                        (*final(a))@.effect_count() as usize,
                    ) && #[trigger] compute.ensures((b,), w) && (scheduled_nothing(
                        stored((*final(b))@, s, w),
                    ) && (*final(b))@.effect_count() > (*final(a))@.effect_count() ==> final(self).state() == stored((*final(b))@, s, w).set_tracking(
                        None,
                    ).end_batch())),
            exists|a: &mut Runtime<V>, v: V|
                (*a)@ == old(self).state() && #[trigger] compute.ensures((a,), v) && (at_rest(
                    (*final(a))@,
                ) && (*final(a))@.effect_count() >= old(self).state().effect_count()
                    ==> final(self).effect_fixed((*final(a))@.effect_count() as usize) && forall|
                    x: &mut Runtime<V>,
                |
                    #[trigger] final(self).effect_ran((*final(a))@.effect_count() as usize, x)
                        ==> exists|y: &mut Runtime<V>, u: V|
                        *y == *x && #[trigger] compute.ensures((y,), u) && (*final(x))@
                            == stored((*final(y))@, s, u)),
            old(self).code_kept(*final(self)),
    {
        let initial = compute(&mut self.rt);
        let s = self.rt.signal(initial);
        let ghost s0 = *self;
        self.settle();
        let ghost s1 = *self;
        let c: Ghost<F> = Ghost(compute);
        let step = move |rt: &mut Runtime<V>|
            ensures
                exists|b: &mut Runtime<V>, v: V|
                    *b == *old(rt) && #[trigger] c@.ensures((b,), v) && final(rt)@ == stored(
                        (*final(b))@,
                        s,
                        v,
                    ),
        {
            let v = compute(rt);
            if s.id < rt.signal_count() {
                rt.set(s, v);
            }
        };
        self.create_effect(step);
        proof {
            Self::lemma_code_kept_same(*old(self), s0);
            Self::lemma_code_kept_trans(*old(self), s0, s1);
            Self::lemma_code_kept_trans(*old(self), s1, *self);
        }
        s
    }

    /// Watches `source`: `callback` receives each new value of `source`
    /// that differs from the previous one, but not the initial value. The
    /// source is first evaluated now, from the state in which the watcher's
    /// effect (numbered by the effect count) was added and started.
    pub fn watch<
        T: PartialEq + Clone + 'static,
        S: Fn(&mut Runtime<V>) -> T + 'static,
        C: FnMut(T) + 'static,
    >(&mut self, source: S, callback: C)
        requires
            old(self).wf(),
            evaluates_anywhere::<V, T, S>(),
            takes_any::<T, C>(),
        ensures
            final(self).wf(),
            final(self).runs().len() > old(self).runs().len(),
            final(self).runs().subrange(0, old(self).runs().len() as int) == old(self).runs(),
            final(self).runs()[old(self).runs().len() as int] == old(self).state().effect_count(),
            exists|a: &mut Runtime<V>, v: T|
                (*a)@ == old(self).state().add_effect().start_effect(
                    old(self).state().effect_count() as usize,
                ) && #[trigger] source.ensures((a,), v) && (scheduled_nothing((*final(a))@) && (
                *final(a))@.effect_count() > old(self).state().effect_count()
                    ==> final(self).state() == (*final(a))@.set_tracking(None).end_batch()
                    && final(self).runs() == old(self).runs().push(
                    old(self).state().effect_count() as usize,
                )),
            old(self).code_kept(*final(self)),
    {
        let id = self.begin_effect();
        let ghost s1 = *self;
        let mut code = Watch::new(source, callback);
        code.run(&mut self.rt);
        let ghost s2 = *self;
        self.end_effect(id, slot_for(code));
        proof {
            Self::lemma_code_kept_same(s1, s2);
            Self::lemma_code_kept_trans(*old(self), s1, s2);
            Self::lemma_code_kept_trans(*old(self), s2, *self);
        }
    }

    /// Runs `f` once, now that the current reactive work has settled, and
    /// then the effects its writes scheduled, one after the other as `set`
    /// runs them.
    pub fn on_mount<F: FnOnce(&mut Runtime<V>)>(&mut self, f: F)
        requires
            old(self).wf(),
            forall|a: &mut Runtime<V>| #[trigger] f.requires((a,)),
        ensures
            exists|a: &mut Runtime<V>|
                (*a)@ == old(self).state() && #[trigger] f.ensures((a,), ()) && final(self).scheduled_runs()
                == old(self).scheduled_runs() + closed_out((*final(a))@).triggered && (forall|k: int|
                0 <= k < closed_out((*final(a))@).triggered.len() ==> #[trigger] final(self).runs().subrange(
                    old(self).runs().len() as int,
                    final(self).runs().len() as int,
                ).contains(closed_out((*final(a))@).triggered[k])) && (closed_out((*final(a))@).triggered.len()
                == 0 && (*final(a))@.effect_count() >= old(self).state().effect_count() ==> final(self).state() == closed_out((*final(a))@) && final(self).runs() == old(self).runs()) && ((*final(a))@.effect_count() == old(self).state().effect_count() ==> exists|
                    starts: Seq<RuntimeState<V>>,
                    ends: Seq<RuntimeState<V>>,
                |
                    starts.len() == closed_out((*final(a))@).triggered.len() && chained(closed_out((*final(a))@).drain(), closed_out((*final(a))@).triggered, starts, ends)
                        && (forall|j: int|
                        0 <= j < closed_out((*final(a))@).triggered.len() && run_known(
                            *old(self),
                            closed_out((*final(a))@).triggered,
                            ends,
                            j,
                            old(self).state().effect_count(),
                        ) ==> exists|b: &mut Runtime<V>|
                            (*b)@ == starts[j] && (*final(b))@ == ends[j] && #[trigger] old(
                                self,
                            ).effect_ran(closed_out((*final(a))@).triggered[j], b)) && (closed_out((*final(a))@).triggered.len() > 0 && all_quiet(ends)
                        && ends[closed_out((*final(a))@).triggered.len() - 1].effect_count() >= old(self).state().effect_count()
                        ==> final(self).state() == closed_out(ends[closed_out((*final(a))@).triggered.len() - 1])
                        && final(self).runs() == old(self).runs() + closed_out((*final(a))@).triggered)),
            final(self).wf(),
            final(self).runs().len() >= old(self).runs().len(),
            final(self).runs().subrange(0, old(self).runs().len() as int) == old(self).runs(),
            old(self).code_kept(*final(self)),
    {
        f(&mut self.rt);
        let ghost pre_settle = *self;
        proof {
            assert(pre_settle.effects@ == old(self).effects@);
            assert forall|t: usize, b: &mut Runtime<V>| #[trigger] pre_settle.effect_ran(t, b) implies old(
                self,
            ).effect_ran(t, b) by {}
            assert forall|t: usize| #[trigger] old(self).effect_fixed(t) implies pre_settle.effect_fixed(t) by {}
        }
        let tr = self.settle();
        proof {
            assert forall|q: Seq<usize>, e: Seq<RuntimeState<V>>, j: int, sl: nat|
                #[trigger] run_known(*old(self), q, e, j, sl) implies run_known(pre_settle, q, e, j, sl) by {}
            Self::lemma_code_kept_same(*old(self), pre_settle);
            Self::lemma_code_kept_trans(*old(self), pre_settle, *self);
        }
    }

    /// The cleanup callbacks waiting to run, each by its registration
    /// number (the first one registered is number 0), in registration
    /// order.
    pub closed spec fn pending_cleanups(&self) -> Seq<nat> {
        self.waiting@
    }

    /// The cleanup callbacks run so far, by registration number, in the
    /// order in which they ran.
    pub closed spec fn cleanups_run(&self) -> Seq<nat> {
        self.cleaned@
    }

    /// Registers `f` to run when the system is disposed of; it gets the
    /// next registration number.
    pub fn on_cleanup<F: FnOnce(&mut Runtime<V>) + 'static>(&mut self, f: F)
        requires
            old(self).wf(),
            runs_anywhere::<V, F>(),
        ensures
            final(self).wf(),
            final(self).state() == old(self).state(),
            final(self).runs() == old(self).runs(),
            final(self).cleanups_run() == old(self).cleanups_run(),
            final(self).pending_cleanups() == old(self).pending_cleanups().push(
                old(self).cleanups_run().len() + old(self).pending_cleanups().len(),
            ),
            old(self).code_kept(*final(self)),
    {
        proof {
            self.waiting@ = self.waiting@.push(self.cleaned@.len() + self.waiting@.len());
        }
        self.cleanups.push(slot_for(Once::new(f)));
    }

    /// Runs every waiting cleanup callback once, in registration order,
    /// each followed by the effects its writes scheduled, and forgets them.
    pub fn run_cleanups(&mut self)
        requires
            old(self).wf(),
        ensures
            final(self).wf(),
            final(self).pending_cleanups() == Seq::<nat>::empty(),
            final(self).cleanups_run() == old(self).cleanups_run() + old(self).pending_cleanups(),
            final(self).runs().len() >= old(self).runs().len(),
            final(self).runs().subrange(0, old(self).runs().len() as int) == old(self).runs(),
            old(self).code_kept(*final(self)),
    {
        let mut list: Vec<Slot<V>> = Vec::new();
        std::mem::swap(&mut list, &mut self.cleanups);
        let ghost serials = old(self).pending_cleanups();
        proof {
            self.waiting@ = Seq::empty();
        }
        assert(self.runs@.subrange(0, old(self).runs@.len() as int) =~= old(self).runs@);
        assert(self.cleaned@ =~= old(self).cleaned@ + serials.subrange(0, 0));
        proof {
            Self::lemma_code_kept_same(*old(self), *self);
        }
        let mut k: usize = 0;
        while k < list.len()
            invariant
                old(self).code_kept(*self),
                k <= list.len(),
                self.wf(),
                self.cleanups@.len() == 0,
                self.runs@.len() >= old(self).runs@.len(),
                self.runs@.subrange(0, old(self).runs@.len() as int) == old(self).runs@,
                serials.len() == list@.len(),
                self.waiting@.len() == 0,
                self.cleaned@ == old(self).cleaned@ + serials.subrange(0, k as int),
            decreases list.len() - k,
        {
            let ghost before_slot = *self;
            let mut slot: Slot<V> = Slot { code: None };
            std::mem::swap(&mut slot, &mut list[k]);
            let ghost before = self.runs@;
            match slot.code {
                Some(mut code) => code.run(&mut self.rt),
                None => {},
            }
            let ghost pre_settle = *self;
            self.settle();
            proof {
                Self::lemma_code_kept_same(before_slot, pre_settle);
                Self::lemma_code_kept_trans(*old(self), before_slot, pre_settle);
                Self::lemma_code_kept_trans(*old(self), pre_settle, *self);
            }
            let ghost after_settle = *self;
            proof {
                let now = self.runs@;
                assert forall|i: int| 0 <= i < old(self).runs@.len() implies now[i] == old(self).runs@[i] by {
                    assert(now.subrange(0, before.len() as int)[i] == before[i]);
                    assert(before.subrange(0, old(self).runs@.len() as int)[i] == old(self).runs@[i]);
                }
                assert(now.subrange(0, old(self).runs@.len() as int) =~= old(self).runs@);
                self.cleaned@ = self.cleaned@.push(serials[k as int]);
                assert(serials.subrange(0, k + 1) =~= serials.subrange(0, k as int).push(serials[k as int]));
                assert(self.cleaned@ =~= old(self).cleaned@ + serials.subrange(0, k + 1));
            }
            proof {
                Self::lemma_code_kept_same(after_settle, *self);
                Self::lemma_code_kept_trans(*old(self), after_settle, *self);
            }
            k = k + 1;
        }
        assert(serials.subrange(0, k as int) =~= serials);
        assert(self.pending_cleanups() =~= Seq::<nat>::empty());
    }

    /// The number of signals.
    pub fn signal_count(&self) -> (n: usize)
        ensures
            n == self.state().signal_count(),
    {
        self.rt.signal_count()
    }

    /// The number of effects.
    pub fn effect_count(&self) -> (n: usize)
        ensures
            n == self.state().effect_count(),
    {
        self.rt.effect_count()
    }
}

} // verus!
