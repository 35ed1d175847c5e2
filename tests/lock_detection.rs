use badlock::lock_detection::{
    detect_reentrant_deadlock, DealockPriors, Deadlock, Def, Extendable, Lock, Next, Path, Release, UseVar,
};

fn dense_next() -> Vec<Next> {
    vec![
        Next(0, 1),
        Next(0, 2),
        Next(0, 3),
        Next(0, 4),
        Next(1, 2),
        Next(1, 3),
        Next(1, 4),
        Next(2, 3),
        Next(2, 4),
        Next(3, 4),
    ]
}

#[test]
fn lock_detection_test_reentrant_deadlocks_simple_lock() {
    let mut facts = DealockPriors::new();
    facts.extend(vec![Def(0, 0), Def(1, 1), Def(0, 2)]);
    facts.extend(vec![UseVar(0, 0), UseVar(1, 1), UseVar(0, 2), UseVar(0, 3)]);
    facts.extend(dense_next());
    facts.extend(vec![Lock(0, 0), Lock(2, 0)]);

    let deadlocks = facts.compute_reentrant_deadlocks();

    assert_eq!(deadlocks.len(), 1);
    assert!(deadlocks.contains(&Deadlock(2, 0)));
}

#[test]
fn lock_detection_test_reentrant_deadlocks_simple_lock_and_release() {
    let mut facts = DealockPriors::new();
    facts.extend(vec![Def(0, 0), Def(1, 1), Def(0, 2)]);
    facts.extend(vec![UseVar(0, 0), UseVar(1, 1), UseVar(0, 2), UseVar(0, 3)]);
    facts.extend(dense_next());
    facts.extend(vec![Lock(0, 0), Lock(3, 0)]);
    facts.extend(vec![Release(2, 0)]);

    let (_kill, _in, _out, _deadlock, _edge, path) = facts.compute_facts();

    for Path(prev, next) in path {
        println!("Path({}, {})", prev, next);
    }
}

#[test]
fn release_stops_the_two_column_report() {
    let mut facts = DealockPriors::new();
    facts.extend(vec![Def(0, 0), Def(1, 1), Def(0, 2)]);
    facts.extend(vec![UseVar(0, 0), UseVar(1, 1), UseVar(0, 2), UseVar(0, 3)]);
    facts.extend(vec![Next(0, 1), Next(1, 2), Next(2, 3), Next(3, 4)]);
    facts.extend(vec![Lock(0, 0), Lock(3, 0)]);
    facts.extend(vec![Release(2, 0)]);

    let deadlocks = facts.compute_reentrant_deadlocks();
    assert!(deadlocks.is_empty());
}

#[test]
fn empty_store_reports_no_deadlock() {
    assert!(!detect_reentrant_deadlock());
}

#[test]
fn repeated_facts_are_held_once() {
    let mut facts = DealockPriors::new();
    facts.extend(vec![Def(0, 0), Def(0, 0)]);
    facts.extend(vec![Def(0, 0)]);
    assert_eq!(facts.defs.len(), 1);
}
