use reactive::arena::Key;
use reactive::reconcile::{ReconcileError, Reconciler};

fn k(id: u64) -> Key {
    Key { id }
}

struct Pass {
    views: Vec<u32>,
    built: Vec<Key>,
    disposed: Vec<(Key, u32)>,
}

/// Plans a pass over `ids`, builds one handle per planned key, commits.
fn pass(
    r: &mut Reconciler<u32>,
    ids: &[u64],
    build: &mut dyn FnMut(Key) -> u32,
) -> Result<Pass, ReconcileError> {
    let keys: Vec<Key> = ids.iter().map(|&id| k(id)).collect();
    let fresh = r.plan(&keys)?;
    let handles: Vec<u32> = fresh.iter().map(|&key| build(key)).collect();
    let out = r.commit(&keys, handles)?;
    Ok(Pass { views: out.views, built: fresh, disposed: out.disposed })
}

fn counter() -> impl FnMut(Key) -> u32 {
    let mut next = 100u32;
    move |_key| {
        let h = next;
        next += 1;
        h
    }
}

#[test]
fn shrink_and_reorder_reuses_and_disposes() {
    let mut r: Reconciler<u32> = Reconciler::new();
    let mut calls = 0u32;
    let mut inner = counter();
    let mut build = |key: Key| {
        calls += 1;
        inner(key)
    };
    let first = pass(&mut r, &[1, 2, 3], &mut build).unwrap();
    assert_eq!(first.views, vec![100, 101, 102]);
    assert_eq!(first.built, vec![k(1), k(2), k(3)]);
    assert!(first.disposed.is_empty());

    let second = pass(&mut r, &[3, 1], &mut build).unwrap();
    assert_eq!(second.views, vec![102, 100]);
    assert!(second.built.is_empty());
    assert_eq!(second.disposed, vec![(k(2), 101)]);
    assert_eq!(calls, 3);
    assert_eq!(r.len(), 2);
}

#[test]
fn pure_reorder_builds_and_disposes_nothing() {
    let mut r: Reconciler<u32> = Reconciler::new();
    let mut calls = 0u32;
    let mut build = |key: Key| {
        calls += 1;
        key.id as u32 * 10
    };
    pass(&mut r, &[1, 2, 3, 4], &mut build).unwrap();
    let out = pass(&mut r, &[4, 2, 1, 3], &mut build).unwrap();
    assert_eq!(calls, 4);
    assert!(out.built.is_empty());
    assert!(out.disposed.is_empty());
    assert_eq!(out.views, vec![40, 20, 10, 30]);
}

#[test]
fn handle_kept_across_passes() {
    let mut r: Reconciler<u32> = Reconciler::new();
    let mut build = counter();
    let a = pass(&mut r, &[5, 6], &mut build).unwrap();
    let b = pass(&mut r, &[7, 6, 8], &mut build).unwrap();
    assert_eq!(b.views[1], a.views[1]);
    assert_eq!(b.built, vec![k(7), k(8)]);
    assert_eq!(b.views, vec![102, 101, 103]);
    assert_eq!(b.disposed, vec![(k(5), a.views[0])]);
    let c = pass(&mut r, &[6], &mut build).unwrap();
    assert_eq!(c.views, vec![a.views[1]]);
}

#[test]
fn plan_names_only_new_keys() {
    let mut r: Reconciler<u32> = Reconciler::new();
    let mut build = counter();
    pass(&mut r, &[1], &mut build).unwrap();
    let fresh = r.plan(&vec![k(2), k(1), k(3)]).unwrap();
    assert_eq!(fresh, vec![k(2), k(3)]);
    let out = r.commit(&vec![k(2), k(1), k(3)], vec![7, 8]).unwrap();
    assert_eq!(out.views, vec![7, 100, 8]);
}

#[test]
fn duplicate_key_is_reported_and_nothing_changes() {
    let mut r: Reconciler<u32> = Reconciler::new();
    let mut build = |key: Key| key.id as u32 * 10;
    pass(&mut r, &[1, 2], &mut build).unwrap();
    let err = pass(&mut r, &[3, 4, 3, 4], &mut build);
    assert_eq!(err.err(), Some(ReconcileError::DuplicateKey { key: k(3) }));
    let err = pass(&mut r, &[5, 6, 6, 5], &mut build);
    assert_eq!(err.err(), Some(ReconcileError::DuplicateKey { key: k(6) }));
    let err = r.commit(&vec![k(9), k(9)], vec![1]);
    assert_eq!(err.err(), Some(ReconcileError::DuplicateKey { key: k(9) }));
    assert_eq!(r.len(), 2);
    let out = pass(&mut r, &[2, 1], &mut build).unwrap();
    assert!(out.built.is_empty());
    assert_eq!(out.views, vec![20, 10]);
}

#[test]
fn empty_sequence_disposes_everything() {
    let mut r: Reconciler<u32> = Reconciler::new();
    let mut build = |key: Key| key.id as u32 * 10;
    pass(&mut r, &[1, 2, 3], &mut build).unwrap();
    let out = pass(&mut r, &[], &mut build).unwrap();
    assert!(out.views.is_empty());
    assert!(out.built.is_empty());
    assert_eq!(out.disposed, vec![(k(1), 10), (k(2), 20), (k(3), 30)]);
    assert_eq!(r.len(), 0);
}
