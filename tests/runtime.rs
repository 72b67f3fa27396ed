use reactive::runtime::{EffectId, ReactiveError, Runtime};
use reactive::signal::create_signal;
use reactive::trigger::create_trigger;

fn drain(rt: &mut Runtime) -> Vec<EffectId> {
    let mut ran = Vec::new();
    while let Some(e) = rt.begin_next_run().unwrap() {
        ran.push(e);
        rt.finish_run();
    }
    ran
}

#[test]
fn set_reruns_each_dependent_once() {
    let mut rt = Runtime::new();
    let mut s = create_signal(&mut rt, 7u32);
    let other = create_signal(&mut rt, 1u32);
    let e1 = rt.create_effect();
    assert_eq!(*s.get(&mut rt), 7);
    s.get(&mut rt);
    rt.finish_run();
    let e2 = rt.create_effect();
    s.get(&mut rt);
    rt.finish_run();
    let _e3 = rt.create_effect();
    other.get(&mut rt);
    rt.finish_run();
    s.set(&mut rt, 7);
    assert_eq!(rt.pending_count(), 2);
    assert_eq!(drain(&mut rt), vec![e1, e2]);
    assert_eq!(*s.get_untracked(), 7);
}

#[test]
fn set_without_dependents_reruns_nothing() {
    let mut rt = Runtime::new();
    let mut s = create_signal(&mut rt, String::from("a"));
    let e = rt.create_effect();
    rt.finish_run();
    s.set(&mut rt, String::from("b"));
    assert_eq!(rt.pending_count(), 0);
    assert_eq!(rt.begin_next_run(), Ok(None));
    assert_eq!(s.get_untracked().as_str(), "b");
    assert!(!rt.is_dependent(e, s.id()));
}

#[test]
fn rerun_replaces_dependencies() {
    let mut rt = Runtime::new();
    let mut flag = create_signal(&mut rt, true);
    let mut a = create_signal(&mut rt, 1u8);
    let mut b = create_signal(&mut rt, 2u8);
    let e = rt.create_effect();
    if *flag.get(&mut rt) {
        a.get(&mut rt);
    } else {
        b.get(&mut rt);
    }
    rt.finish_run();
    assert!(rt.is_dependent(e, a.id()));
    assert!(!rt.is_dependent(e, b.id()));
    flag.set(&mut rt, false);
    assert_eq!(rt.begin_next_run(), Ok(Some(e)));
    if *flag.get(&mut rt) {
        a.get(&mut rt);
    } else {
        b.get(&mut rt);
    }
    rt.finish_run();
    assert!(!rt.is_dependent(e, a.id()));
    assert!(rt.is_dependent(e, b.id()));
    a.set(&mut rt, 5);
    assert_eq!(rt.pending_count(), 0);
    b.set(&mut rt, 6);
    assert_eq!(rt.pending_count(), 1);
}

#[test]
fn untracked_read_creates_no_dependency() {
    let mut rt = Runtime::new();
    let mut s = create_signal(&mut rt, 3i64);
    let e = rt.create_effect();
    assert_eq!(*s.get_untracked(), 3);
    rt.finish_run();
    assert!(!rt.is_dependent(e, s.id()));
    s.set(&mut rt, 4);
    assert_eq!(rt.pending_count(), 0);
}

#[test]
fn read_outside_effect_creates_no_dependency() {
    let mut rt = Runtime::new();
    let mut s = create_signal(&mut rt, 0u8);
    s.get(&mut rt);
    let e = rt.create_effect();
    rt.finish_run();
    assert!(!rt.is_dependent(e, s.id()));
    s.set(&mut rt, 1);
    assert_eq!(rt.pending_count(), 0);
}

#[test]
fn update_schedules_dependents() {
    let mut rt = Runtime::new();
    let mut v = create_signal(&mut rt, vec![1u32]);
    let e = rt.create_effect();
    v.get(&mut rt);
    rt.finish_run();
    v.update(&mut rt).push(2);
    assert_eq!(v.get_untracked(), &vec![1, 2]);
    assert_eq!(drain(&mut rt), vec![e]);
}

#[test]
fn scheduled_effect_is_queued_once() {
    let mut rt = Runtime::new();
    let mut s = create_signal(&mut rt, 0u8);
    let e = rt.create_effect();
    s.get(&mut rt);
    rt.finish_run();
    s.set(&mut rt, 1);
    s.set(&mut rt, 2);
    assert_eq!(drain(&mut rt), vec![e]);
}

#[test]
fn self_write_reruns_after_the_run_ends() {
    let mut rt = Runtime::new();
    let mut s = create_signal(&mut rt, 0u8);
    let e = rt.create_effect();
    s.get(&mut rt);
    s.set(&mut rt, 1);
    assert_eq!(rt.current_effect(), Some(e));
    assert_eq!(rt.finish_run(), Some(e));
    assert_eq!(rt.current_effect(), None);
    assert_eq!(rt.begin_next_run(), Ok(Some(e)));
    rt.finish_run();
    assert_eq!(rt.begin_next_run(), Ok(None));
}

#[test]
fn cycle_between_effects_is_reported() {
    let mut rt = Runtime::new();
    let mut x = create_signal(&mut rt, 0u8);
    let mut y = create_signal(&mut rt, 0u8);
    let a = rt.create_effect();
    x.get(&mut rt);
    rt.finish_run();
    let b = rt.create_effect();
    y.get(&mut rt);
    rt.finish_run();
    x.set(&mut rt, 1);
    assert_eq!(rt.begin_next_run(), Ok(Some(a)));
    x.get(&mut rt);
    y.set(&mut rt, 1);
    assert_eq!(rt.begin_next_run(), Ok(Some(b)));
    y.get(&mut rt);
    x.set(&mut rt, 2);
    assert_eq!(
        rt.begin_next_run(),
        Err(ReactiveError::CyclicDependency { effect: a })
    );
    assert_eq!(rt.pending_count(), 1);
}

#[test]
fn finish_without_run_is_none() {
    let mut rt = Runtime::new();
    assert_eq!(rt.finish_run(), None);
}

#[test]
fn trigger_notify_reruns_trackers() {
    let mut rt = Runtime::new();
    let t = create_trigger(&mut rt);
    let copy = t;
    let e = rt.create_effect();
    t.track(&mut rt);
    rt.finish_run();
    let _idle = rt.create_effect();
    rt.finish_run();
    assert!(rt.is_dependent(e, t.id()));
    copy.notify(&mut rt);
    assert_eq!(rt.begin_next_run(), Ok(Some(e)));
    t.track(&mut rt);
    rt.finish_run();
    assert_eq!(rt.begin_next_run(), Ok(None));
    t.notify(&mut rt);
    t.notify(&mut rt);
    assert_eq!(rt.pending_count(), 1);
}

#[test]
fn trigger_without_trackers_reruns_nothing() {
    let mut rt = Runtime::new();
    let t = create_trigger(&mut rt);
    t.track(&mut rt);
    let _e = rt.create_effect();
    rt.finish_run();
    t.notify(&mut rt);
    assert_eq!(rt.pending_count(), 0);
}

#[test]
fn triggers_get_distinct_ids() {
    let mut rt = Runtime::new();
    let t1 = create_trigger(&mut rt);
    let t2 = create_trigger(&mut rt);
    assert_ne!(t1.id(), t2.id());
    assert_ne!(t1, t2);
}

#[test]
fn disposed_effect_is_never_rerun() {
    let mut rt = Runtime::new();
    let mut s = create_signal(&mut rt, 0u8);
    let e = rt.create_effect();
    s.get(&mut rt);
    rt.finish_run();
    let keep = rt.create_effect();
    s.get(&mut rt);
    rt.finish_run();
    s.set(&mut rt, 1);
    assert_eq!(rt.pending_count(), 2);
    rt.dispose_effect(e);
    assert_eq!(rt.pending_count(), 1);
    assert!(!rt.is_dependent(e, s.id()));
    assert_eq!(rt.begin_next_run(), Ok(Some(keep)));
    s.get(&mut rt);
    rt.finish_run();
    s.set(&mut rt, 2);
    assert_eq!(rt.pending_count(), 1);
    rt.dispose_effect(EffectId { index: 99 });
    assert_eq!(rt.pending_count(), 1);
}

#[test]
fn cycle_is_reported_when_runs_are_not_nested() {
    let mut rt = Runtime::new();
    let mut x = create_signal(&mut rt, 0u8);
    let mut y = create_signal(&mut rt, 0u8);
    let a = rt.create_effect();
    x.get(&mut rt);
    rt.finish_run();
    let b = rt.create_effect();
    y.get(&mut rt);
    rt.finish_run();
    x.set(&mut rt, 1);
    assert_eq!(rt.begin_next_run(), Ok(Some(a)));
    x.get(&mut rt);
    y.set(&mut rt, 1);
    rt.finish_run();
    assert_eq!(rt.begin_next_run(), Ok(Some(b)));
    y.get(&mut rt);
    x.set(&mut rt, 2);
    rt.finish_run();
    assert_eq!(
        rt.begin_next_run(),
        Err(ReactiveError::CyclicDependency { effect: a })
    );
}

#[test]
fn diamond_is_not_a_cycle() {
    let mut rt = Runtime::new();
    let mut top = create_signal(&mut rt, 0u8);
    let mut left = create_signal(&mut rt, 0u8);
    let mut right = create_signal(&mut rt, 0u8);
    let l = rt.create_effect();
    top.get(&mut rt);
    rt.finish_run();
    let r = rt.create_effect();
    top.get(&mut rt);
    rt.finish_run();
    let join = rt.create_effect();
    left.get(&mut rt);
    right.get(&mut rt);
    rt.finish_run();
    top.set(&mut rt, 1);
    assert_eq!(rt.begin_next_run(), Ok(Some(l)));
    top.get(&mut rt);
    left.set(&mut rt, 1);
    rt.finish_run();
    assert_eq!(rt.begin_next_run(), Ok(Some(r)));
    top.get(&mut rt);
    right.set(&mut rt, 1);
    rt.finish_run();
    assert_eq!(rt.begin_next_run(), Ok(Some(join)));
    left.get(&mut rt);
    right.get(&mut rt);
    rt.finish_run();
    assert_eq!(rt.begin_next_run(), Ok(None));
}

#[test]
fn fresh_trigger_has_no_dependents() {
    let mut rt = Runtime::new();
    let first = create_trigger(&mut rt);
    let e = rt.create_effect();
    first.track(&mut rt);
    rt.finish_run();
    let fresh = create_trigger(&mut rt);
    assert_ne!(fresh.id(), first.id());
    assert!(!rt.is_dependent(e, fresh.id()));
    fresh.notify(&mut rt);
    assert_eq!(rt.pending_count(), 0);
    first.notify(&mut rt);
    assert_eq!(rt.pending_count(), 1);
}
