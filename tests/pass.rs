use badlock::alias::{AliasCycleError, Symbol};
use badlock::callsites::{KnowAlloca, KnownCallsites};
use badlock::generic::{Deadlock, Def, Lock, Next, Release, UseVar};
use badlock::lock_detection::{Deadlock as Reentry, ReentrantDeadlockDetector};
use badlock::pass::{PassError, ReentrantLockPass};

fn sym(s: &str) -> Symbol {
    Symbol(s.to_string())
}

#[test]
fn release_is_recorded_against_the_resource() {
    let mut pass = ReentrantLockPass::new();
    pass.handle_std_sync_mutex_lock_alias(sym("resource"), sym("guard"));
    assert_eq!(pass.may_alias_table.get_root_symbol(&sym("guard")), Ok(sym("resource")));
    assert_eq!(pass.handle_std_sync_mutex_drop(sym("guard"), sym("drop")), Ok(()));
    let priors = pass.program.priors();
    assert!(priors.releases.contains(&Release(sym("drop"), sym("resource"))));
    assert!(!priors.releases.contains(&Release(sym("drop"), sym("guard"))));
    assert!(priors.defs.contains(&Def(sym("resource"), sym("drop"))));
    assert!(priors.use_vars.contains(&UseVar(sym("resource"), sym("drop"))));
}

#[test]
fn drop_through_a_cycle_fails_and_adds_nothing() {
    let mut pass = ReentrantLockPass::new();
    pass.handle_alloca_inst(KnowAlloca::MutexGuard, sym("a"), sym("b"));
    pass.handle_alloca_inst(KnowAlloca::MutexGuard, sym("b"), sym("a"));
    assert_eq!(pass.may_alias_table.get_root_symbol(&sym("a")), Err(AliasCycleError));
    assert_eq!(pass.handle_std_sync_mutex_drop(sym("a"), sym("drop")), Err(PassError::AliasCycle));
    assert!(pass.program.priors().releases.is_empty());
    assert_eq!(pass.program.symbol_count(), 0);
}

#[test]
fn call_handling_adds_the_facts_of_its_kind() {
    let mut pass = ReentrantLockPass::new();
    assert_eq!(pass.handle_call_inst(KnownCallsites::StdSyncMutexNew, &vec![sym("m")], sym("i0")), Ok(()));
    assert_eq!(pass.handle_call_inst(KnownCallsites::StdSyncMutexLock, &vec![sym("g"), sym("m")], sym("i1")), Ok(()));
    assert_eq!(pass.handle_call_inst(KnownCallsites::Unknown, &vec![], sym("i2")), Ok(()));
    assert_eq!(
        pass.handle_call_inst(KnownCallsites::StdSyncMutexLock, &vec![sym("g")], sym("i3")),
        Err(PassError::MissingOperand)
    );
    assert_eq!(
        pass.handle_call_inst(KnownCallsites::StdSyncMutexDrop, &vec![], sym("i4")),
        Err(PassError::MissingOperand)
    );
    let priors = pass.program.priors();
    assert!(priors.locks.contains(&Lock(sym("i1"), sym("m"))));
    assert_eq!(priors.locks.len(), 1);
    assert!(priors.defs.contains(&Def(sym("m"), sym("i0"))));
    assert!(priors.defs.contains(&Def(sym("m"), sym("i1"))));
}

#[test]
fn pass_finds_a_reentrant_lock() {
    let mut pass = ReentrantLockPass::new();
    pass.handle_call_inst(KnownCallsites::StdSyncMutexLock, &vec![sym("g1"), sym("m")], sym("i0")).unwrap();
    pass.handle_predecessor(sym("i0"), sym("i1"));
    pass.handle_call_inst(KnownCallsites::StdSyncMutexLock, &vec![sym("g2"), sym("m")], sym("i1")).unwrap();
    let posts = pass.program.compute();
    assert_eq!(posts.deadlock, vec![Deadlock(sym("i0"), sym("m"), sym("i1"))]);
    assert!(pass.program.priors().nexts.contains(&Next(sym("i0"), sym("i1"))));
}

#[test]
fn detector_reports_reentry_in_two_columns() {
    let mut detector = ReentrantDeadlockDetector::new();
    detector.add_def(sym("x"), sym("a"));
    detector.add_def(sym("x"), sym("b"));
    detector.add_use_var(sym("x"), sym("a"));
    detector.add_use_var(sym("x"), sym("b"));
    detector.add_next(sym("a"), sym("b"));
    detector.add_lock(sym("a"), sym("x"));
    detector.add_lock(sym("b"), sym("x"));
    detector.add_wrap(sym("g"), sym("x"));
    let deadlocks = detector.priors().compute_reentrant_deadlocks();
    // handles: x = 0, a = 1, b = 2
    assert_eq!(deadlocks, vec![Reentry(2, 0)]);
    // A release at the acquiring instruction itself does not stop the flow
    // out of it: only releases at instructions in between do.
    detector.add_release(sym("a"), sym("x"));
    assert_eq!(detector.priors().compute_reentrant_deadlocks(), vec![Reentry(2, 0)]);
}

#[test]
fn lock_through_a_guard_is_recorded_against_the_resource() {
    let mut pass = ReentrantLockPass::new();
    pass.handle_std_sync_mutex_lock_alias(sym("m"), sym("guard"));
    assert_eq!(pass.handle_call_inst(KnownCallsites::StdSyncMutexLock, &vec![sym("g2"), sym("guard")], sym("i0")), Ok(()));
    let priors = pass.program.priors();
    assert_eq!(priors.locks, vec![Lock(sym("i0"), sym("m"))]);
    assert_eq!(priors.defs, vec![Def(sym("m"), sym("i0"))]);
    assert_eq!(priors.use_vars, vec![UseVar(sym("m"), sym("i0"))]);
}

#[test]
fn lock_through_a_cycle_fails_and_adds_nothing() {
    let mut pass = ReentrantLockPass::new();
    pass.handle_std_sync_mutex_lock_alias(sym("b"), sym("a"));
    pass.handle_std_sync_mutex_lock_alias(sym("a"), sym("b"));
    assert_eq!(
        pass.handle_call_inst(KnownCallsites::StdSyncMutexLock, &vec![sym("g"), sym("a")], sym("i0")),
        Err(PassError::AliasCycle)
    );
    assert!(pass.program.priors().locks.is_empty());
    assert_eq!(pass.program.symbol_count(), 0);
}
