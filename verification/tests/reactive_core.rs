use oxide::context::Context;
use oxide::reactive::Reactive;
use oxide::runtime::{HookEvent, Runtime};
use std::cell::Cell;
use std::rc::Rc;
use std::sync::atomic::{AtomicU32, Ordering};

#[test]
fn signal_read_write() {
    let mut rx: Reactive<i32> = Reactive::new();
    let s = rx.signal(10);
    assert_eq!(*rx.get(s), 10);
    rx.set(s, 20);
    assert_eq!(*rx.get(s), 20);
}

#[test]
fn effect_tracks_signal() {
    let mut rx: Reactive<i32> = Reactive::new();
    let s = rx.signal(0);
    let observed = Rc::new(Cell::new(-1));
    let obs = observed.clone();

    rx.create_effect(move |rt: &mut Runtime<i32>| {
        obs.set(*rt.get(s));
    });

    // Effect runs immediately
    assert_eq!(observed.get(), 0);

    // Effect re-runs on set
    rx.set(s, 42);
    assert_eq!(observed.get(), 42);
}

#[test]
fn batch_defers_effects() {
    let mut rx: Reactive<i32> = Reactive::new();
    let a = rx.signal(0);
    let b = rx.signal(0);
    let run_count = Rc::new(Cell::new(0u32));
    let rc = run_count.clone();

    rx.create_effect(move |rt: &mut Runtime<i32>| {
        let _ = *rt.get(a) + *rt.get(b);
        rc.set(rc.get() + 1);
    });

    assert_eq!(run_count.get(), 1); // initial run

    rx.batch(move |rt: &mut Runtime<i32>| {
        rt.set(a, 1);
        rt.set(b, 2);
    });

    // Only one extra run (not two)
    assert_eq!(run_count.get(), 2);
}

#[test]
fn untrack_prevents_subscription() {
    let mut rx: Reactive<i32> = Reactive::new();
    let s = rx.signal(0);
    let observed = Rc::new(Cell::new(-1));
    let obs = observed.clone();

    rx.create_effect(move |rt: &mut Runtime<i32>| {
        let val = rt.untrack(|rt: &mut Runtime<i32>| *rt.get(s));
        obs.set(val);
    });

    assert_eq!(observed.get(), 0);

    rx.set(s, 99);
    // Effect should NOT have re-run
    assert_eq!(observed.get(), 0);
}

#[test]
fn signal_add_assign() {
    let mut rx: Reactive<i32> = Reactive::new();
    let s = rx.signal(5);
    rx.update(s, |v: &mut i32| *v += 3);
    assert_eq!(*rx.get(s), 8);
}

#[test]
fn signal_sub_assign() {
    let mut rx: Reactive<i32> = Reactive::new();
    let s = rx.signal(10);
    rx.update(s, |v: &mut i32| *v -= 3);
    assert_eq!(*rx.get(s), 7);
}

#[test]
fn signal_update_in_place() {
    let mut rx: Reactive<Vec<i32>> = Reactive::new();
    let s = rx.signal(vec![1, 2, 3]);
    rx.update(s, |v: &mut Vec<i32>| v.push(4));
    assert_eq!(*rx.get(s), vec![1, 2, 3, 4]);
}

#[test]
fn signal_display() {
    let mut rx: Reactive<i32> = Reactive::new();
    let s = rx.signal(42);
    assert_eq!(format!("{}", rx.get(s)), "42");
}

#[test]
fn memo_computes_derived_value() {
    let mut rx: Reactive<i32> = Reactive::new();
    let count = rx.signal(3);
    let doubled = rx.memo(move |rt: &mut Runtime<i32>| *rt.get(count) * 2);
    assert_eq!(*rx.get(doubled), 6);
    rx.set(count, 10);
    assert_eq!(*rx.get(doubled), 20);
}

#[test]
fn memo_chains() {
    let mut rx: Reactive<i32> = Reactive::new();
    let a = rx.signal(2);
    let b = rx.memo(move |rt: &mut Runtime<i32>| *rt.get(a) + 1);
    let c = rx.memo(move |rt: &mut Runtime<i32>| *rt.get(b) * 10);
    assert_eq!(*rx.get(c), 30);
    rx.set(a, 5);
    assert_eq!(*rx.get(b), 6);
    assert_eq!(*rx.get(c), 60);
}

#[test]
fn context_provide_and_use() {
    let mut ints: Context<i32> = Context::new();
    let strings: Context<String> = Context::new();
    ints.provide_context(42i32);
    assert_eq!(ints.use_context().cloned(), Some(42));
    assert_eq!(strings.use_context().cloned(), None);
}

#[test]
fn context_overwrite() {
    let mut strings: Context<String> = Context::new();
    strings.provide_context("first".to_string());
    assert_eq!(strings.use_context().cloned(), Some("first".to_string()));
    strings.provide_context("second".to_string());
    assert_eq!(strings.use_context().cloned(), Some("second".to_string()));
}

#[test]
fn multiple_effects_on_one_signal() {
    let mut rx: Reactive<i32> = Reactive::new();
    let s = rx.signal(0);
    let sum = Rc::new(Cell::new(0i32));
    let s1 = sum.clone();
    let s2 = sum.clone();

    rx.create_effect(move |rt: &mut Runtime<i32>| { s1.set(s1.get() + *rt.get(s)); });
    rx.create_effect(move |rt: &mut Runtime<i32>| { s2.set(s2.get() + *rt.get(s) * 10); });

    // Initial: both effects ran once with s=0
    assert_eq!(sum.get(), 0);

    rx.set(s, 1);
    // Effect 1: sum += 1, Effect 2: sum += 10 → 11
    assert_eq!(sum.get(), 11);
}

/// Values of the signals in a system that mixes a flag and numbers.
#[derive(Clone, Copy, Debug, PartialEq)]
enum Val {
    Flag(bool),
    Num(i32),
}

fn num(v: &Val) -> i32 {
    match v {
        Val::Num(n) => *n,
        Val::Flag(_) => panic!("not a number"),
    }
}

#[test]
fn effect_resubscribes_on_condition_change() {
    let mut rx: Reactive<Val> = Reactive::new();
    let flag = rx.signal(Val::Flag(true));
    let a = rx.signal(Val::Num(1));
    let b = rx.signal(Val::Num(2));
    let observed = Rc::new(Cell::new(0));
    let obs = observed.clone();

    rx.create_effect(move |rt: &mut Runtime<Val>| {
        let val = if *rt.get(flag) == Val::Flag(true) { num(rt.get(a)) } else { num(rt.get(b)) };
        obs.set(val);
    });

    assert_eq!(observed.get(), 1); // reads a

    rx.set(flag, Val::Flag(false));
    assert_eq!(observed.get(), 2); // now reads b

    rx.set(a, Val::Num(99));
    // Effect should NOT re-run since it no longer depends on a
    assert_eq!(observed.get(), 2);

    rx.set(b, Val::Num(42));
    assert_eq!(observed.get(), 42);
}

#[test]
fn nested_batch() {
    let mut rx: Reactive<i32> = Reactive::new();
    let s = rx.signal(0);
    let count = Rc::new(Cell::new(0u32));
    let c = count.clone();

    rx.create_effect(move |rt: &mut Runtime<i32>| {
        let _ = *rt.get(s);
        c.set(c.get() + 1);
    });

    assert_eq!(count.get(), 1);

    rx.batch(move |rt: &mut Runtime<i32>| {
        rt.set(s, 1);
        rt.set(s, 2);
        rt.set(s, 3);
    });

    // Only 1 additional run despite 3 sets
    assert_eq!(count.get(), 2);
    assert_eq!(*rx.get(s), 3);
}

#[test]
fn watch_skips_initial() {
    let mut rx: Reactive<i32> = Reactive::new();
    let s = rx.signal(0);
    let seen = Rc::new(Cell::new(false));
    let se = seen.clone();

    rx.watch(move |rt: &mut Runtime<i32>| *rt.get(s), move |_val: i32| {
        se.set(true);
    });

    // watch should NOT have fired on initial value
    assert!(!seen.get());

    rx.set(s, 1);
    assert!(seen.get());
}

#[test]
fn watch_receives_new_value() {
    let mut rx: Reactive<i32> = Reactive::new();
    let s = rx.signal(0);
    let observed = Rc::new(Cell::new(-1));
    let obs = observed.clone();

    rx.watch(move |rt: &mut Runtime<i32>| *rt.get(s), move |val: i32| {
        obs.set(val);
    });

    rx.set(s, 42);
    assert_eq!(observed.get(), 42);

    rx.set(s, 100);
    assert_eq!(observed.get(), 100);
}

#[test]
fn signal_copy_semantics() {
    let mut rx: Reactive<i32> = Reactive::new();
    let s = rx.signal(7);
    let s2 = s; // Copy
    assert_eq!(*rx.get(s), 7);
    assert_eq!(*rx.get(s2), 7);
    rx.set(s, 99);
    assert_eq!(*rx.get(s2), 99); // Same underlying signal
}

#[test]
fn hooks_fire_on_signal_operations() {
    static HOOK_COUNT: AtomicU32 = AtomicU32::new(0);

    fn test_hook(_event: HookEvent) {
        HOOK_COUNT.fetch_add(1, Ordering::SeqCst);
    }

    HOOK_COUNT.store(0, Ordering::SeqCst);
    let mut rx: Reactive<i32> = Reactive::new();
    rx.install_hook(Box::new(test_hook));

    let s = rx.signal(0);  // SignalCreate
    let _ = rx.get(s);      // SignalRead
    rx.set(s, 1);           // SignalWrite + EffectRun (if any)

    rx.remove_hook();

    // At minimum: create + read + write = 3 events
    assert!(HOOK_COUNT.load(Ordering::SeqCst) >= 3);
}

#[test]
fn batch_inside_batch_keeps_outer_batch_open() {
    let mut rx: Reactive<i32> = Reactive::new();
    let s = rx.signal(0);
    let count = Rc::new(Cell::new(0u32));
    let c = count.clone();

    rx.create_effect(move |rt: &mut Runtime<i32>| {
        let _ = *rt.get(s);
        c.set(c.get() + 1);
    });
    assert_eq!(count.get(), 1);

    let inner = count.clone();
    rx.batch(move |rt: &mut Runtime<i32>| {
        rt.batch(|rt: &mut Runtime<i32>| {
            rt.set(s, 1);
        });
        assert!(rt.is_batching());
        assert_eq!(inner.get(), 1);
        rt.set(s, 2);
    });

    assert_eq!(count.get(), 2);
    assert_eq!(*rx.get(s), 2);
}

#[test]
fn observer_sees_create_read_and_write_in_order() {
    let events: Rc<std::cell::RefCell<Vec<HookEvent>>> = Rc::new(std::cell::RefCell::new(Vec::new()));
    let log = events.clone();
    let mut rx: Reactive<i32> = Reactive::new();
    rx.install_hook(Box::new(move |e: HookEvent| log.borrow_mut().push(e)));

    let s = rx.signal(0);
    let _ = rx.get(s);
    rx.set(s, 1);
    rx.remove_hook();

    let seen = events.borrow();
    assert_eq!(seen.len(), 3);
    assert!(matches!(seen[0], HookEvent::SignalCreate { id: 0 }));
    assert!(matches!(seen[1], HookEvent::SignalRead { id: 0 }));
    assert!(matches!(seen[2], HookEvent::SignalWrite { id: 0 }));
}

#[test]
fn cleanups_run_once_in_registration_order() {
    let mut rx: Reactive<i32> = Reactive::new();
    let s = rx.signal(0);
    let order: Rc<std::cell::RefCell<Vec<i32>>> = Rc::new(std::cell::RefCell::new(Vec::new()));
    for k in 1..4 {
        let o = order.clone();
        rx.on_cleanup(move |rt: &mut Runtime<i32>| {
            o.borrow_mut().push(k);
            rt.set(s, k);
        });
    }
    rx.run_cleanups();
    assert_eq!(*order.borrow(), vec![1, 2, 3]);
    assert_eq!(*rx.get(s), 3);
    rx.run_cleanups();
    assert_eq!(*order.borrow(), vec![1, 2, 3]);
}

#[test]
fn memo_holds_computed_value_and_follows_input() {
    let mut rx: Reactive<i32> = Reactive::new();
    let a = rx.signal(4);
    let m = rx.memo(move |rt: &mut Runtime<i32>| *rt.get(a) * 3);
    assert_eq!(m.id, 1);
    assert_eq!(rx.effect_count(), 1);
    assert_eq!(*rx.get(m), 12);
    rx.set(a, 5);
    assert_eq!(*rx.get(m), 15);
}
