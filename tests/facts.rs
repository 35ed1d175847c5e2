use badlock::facts::{
    Deadlock, Def, Edge, Extendable, In, Kill, Lock, Next, Out, Path, ReentrantDeadlockPosts,
    ReentrantDeadlockPriors, Release, UseVar, Wrap,
};

fn reentry_without_release() -> ReentrantDeadlockPriors {
    let mut facts = ReentrantDeadlockPriors::new();
    facts.extend(vec![Def(0, 0), Def(1, 1), Def(0, 2)]);
    facts.extend(vec![UseVar(0, 0), UseVar(1, 1), UseVar(0, 2), UseVar(0, 3)]);
    facts.extend(vec![Next(0, 1), Next(1, 2), Next(2, 3), Next(3, 4)]);
    facts.extend(vec![Lock(0, 0), Lock(2, 0)]);
    facts
}

fn release_between_locks() -> ReentrantDeadlockPriors {
    let mut facts = ReentrantDeadlockPriors::new();
    facts.extend(vec![Def(0xcafe, 0), Def(1, 1), Def(0xcafe, 2)]);
    facts.extend(vec![UseVar(0xcafe, 0), UseVar(1, 1), UseVar(0xcafe, 2), UseVar(0xcafe, 3)]);
    facts.extend(vec![Next(0, 1), Next(1, 2), Next(2, 3), Next(3, 4)]);
    facts.extend(vec![Lock(0, 0xcafe), Lock(3, 0xcafe)]);
    facts.extend(vec![Release(2, 0xcafe)]);
    facts
}

fn sorted<T: Ord + Clone>(v: &[T]) -> Vec<T> {
    let mut v = v.to_vec();
    v.sort();
    v
}

#[test]
fn facts_test_reentrant_deadlocks_simple_lock() {
    let facts = reentry_without_release();

    let posts = facts.compute();

    println!("{:?}", posts);

    assert_eq!(posts.deadlock.len(), 1);
    assert!(posts.deadlock.contains(&Deadlock(0, 0, 2)));
}

#[test]
fn facts_test_reentrant_deadlocks_simple_lock_and_release() {
    let facts = release_between_locks();

    let posts = facts.compute();

    println!("{:?}", posts);
}

#[test]
fn release_breaks_the_path() {
    let posts = release_between_locks().compute();
    assert!(!posts.deadlock.contains(&Deadlock(0, 0xcafe, 3)));
    assert!(posts.deadlock.is_empty());
    assert!(posts.path.contains(&Path(0, 2)));
    assert!(!posts.path.contains(&Path(0, 3)));
}

#[test]
fn plain_reentry_intermediate_relations() {
    let posts = reentry_without_release().compute();
    let mut kill: Vec<(usize, usize)> = posts.kill.iter().map(|k| (k.0, k.1)).collect();
    kill.sort();
    assert_eq!(kill, vec![(0, 0), (0, 2), (1, 1), (2, 0), (2, 2)]);
    let mut edge: Vec<(usize, usize)> = posts.edge.iter().map(|e| (e.0, e.1)).collect();
    edge.sort();
    assert_eq!(edge, vec![(0, 2), (2, 3)]);
    let mut path: Vec<(usize, usize)> = posts.path.iter().map(|p| (p.0, p.1)).collect();
    path.sort();
    assert_eq!(path, vec![(0, 2), (0, 3), (2, 3)]);
    assert!(posts.in_.contains(&In(2, 0)));
    assert!(!posts.in_.contains(&In(3, 0)));
    assert!(posts.out.contains(&Out(1, 0)));
    assert!(!posts.out.contains(&Out(2, 0)));
    assert!(posts.out.contains(&Out(2, 2)));
    assert!(posts.kill.contains(&Kill(2, 0)));
    assert!(posts.edge.contains(&Edge(0, 2)));
}

#[test]
fn compute_twice_gives_the_same_relations() {
    let facts = reentry_without_release();
    let first = facts.compute();
    let second = facts.compute();
    let key = |p: &ReentrantDeadlockPosts| {
        (
            sorted(&p.kill.iter().map(|k| (k.0, k.1)).collect::<Vec<_>>()),
            sorted(&p.in_.iter().map(|k| (k.0, k.1)).collect::<Vec<_>>()),
            sorted(&p.out.iter().map(|k| (k.0, k.1)).collect::<Vec<_>>()),
            sorted(&p.edge.iter().map(|k| (k.0, k.1)).collect::<Vec<_>>()),
            sorted(&p.path.iter().map(|k| (k.0, k.1)).collect::<Vec<_>>()),
            sorted(&p.deadlock.iter().map(|k| (k.0, k.1, k.2)).collect::<Vec<_>>()),
        )
    };
    assert_eq!(key(&first), key(&second));
}

#[test]
fn no_lock_means_no_deadlock() {
    let mut facts = reentry_without_release();
    facts.locks.clear();
    facts.extend(vec![Wrap(0, 1)]);
    let posts = facts.compute();
    assert!(posts.deadlock.is_empty());
    assert!(posts.path.is_empty());
    assert!(!posts.edge.is_empty());
}

#[test]
fn facts_on_unknown_symbols_are_accepted() {
    let mut facts = ReentrantDeadlockPriors::new();
    facts.extend(vec![Next(7, 8)]);
    facts.extend(vec![Lock(9, 1)]);
    let posts = facts.compute();
    assert!(posts.deadlock.is_empty());
    assert!(posts.in_.is_empty());
    assert!(posts.out.is_empty());
}

#[test]
fn empty_results() {
    let posts = ReentrantDeadlockPosts::new();
    assert!(posts.kill.is_empty() && posts.deadlock.is_empty() && posts.path.is_empty());
}

#[test]
fn strict_mode_ignores_locks_of_other_resources() {
    let mut facts = ReentrantDeadlockPriors::new();
    facts.extend(vec![Def(0, 0), Def(1, 1), Def(0, 2)]);
    facts.extend(vec![UseVar(0, 0), UseVar(1, 1), UseVar(0, 2), UseVar(0, 3)]);
    facts.extend(vec![Next(0, 1), Next(1, 2), Next(2, 3), Next(3, 4)]);
    facts.extend(vec![Lock(0, 0), Lock(2, 5)]);
    let permissive = facts.compute();
    assert_eq!(permissive.deadlock, vec![Deadlock(0, 5, 2)]);
    let strict = facts.compute_strict();
    assert!(strict.deadlock.is_empty());
    assert_eq!(sorted(&strict.edge.iter().map(|e| (e.0, e.1)).collect::<Vec<_>>()), vec![(0, 2), (2, 3)]);
}

#[test]
fn strict_mode_is_stopped_only_by_releases_of_the_same_resource() {
    let mut facts = ReentrantDeadlockPriors::new();
    facts.extend(vec![Def(0xcafe, 0), Def(1, 1), Def(0xcafe, 2)]);
    facts.extend(vec![UseVar(0xcafe, 0), UseVar(1, 1), UseVar(0xcafe, 2), UseVar(0xcafe, 3)]);
    facts.extend(vec![Next(0, 1), Next(1, 2), Next(2, 3), Next(3, 4)]);
    facts.extend(vec![Lock(0, 0xcafe), Lock(3, 0xcafe)]);
    facts.extend(vec![Release(2, 7)]);
    assert!(facts.compute().deadlock.is_empty());
    let strict = facts.compute_strict();
    assert_eq!(strict.deadlock, vec![Deadlock(0, 0xcafe, 3)]);
    assert!(strict.path.contains(&Path(0, 3)));

    facts.extend(vec![Release(2, 0xcafe)]);
    assert!(facts.compute_strict().deadlock.is_empty());
}

#[test]
fn strict_mode_agrees_on_plain_reentry() {
    let strict = reentry_without_release().compute_strict();
    assert_eq!(strict.deadlock, vec![Deadlock(0, 0, 2)]);
}
