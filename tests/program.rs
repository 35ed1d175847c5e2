use badlock::alias::Symbol;
use badlock::facts::Extendable;
use badlock::generic::{Deadlock, Def, Edge, Lock, Next, Release, UseVar, Wrap};
use badlock::program::Program;

fn sym(s: &str) -> Symbol {
    Symbol(s.to_string())
}

#[test]
fn test_maps_and_unmaps() {
    let mut program = Program::new();

    program.extend(vec![
        Def(sym("x"), sym("inst-0")),
        Def(sym("y"), sym("inst-1")),
        Def(sym("x"), sym("inst-2")),
    ]);

    program.extend(vec![
        UseVar(sym("x"), sym("inst-0")),
        UseVar(sym("y"), sym("inst-1")),
        UseVar(sym("x"), sym("inst-2")),
        UseVar(sym("x"), sym("inst-3")),
    ]);

    program.extend(vec![
        Next(sym("inst-0"), sym("inst-1")),
        Next(sym("inst-1"), sym("inst-2")),
        Next(sym("inst-2"), sym("inst-3")),
        Next(sym("inst-3"), sym("inst-4")),
    ]);

    program.extend(vec![Lock(sym("inst-0"), sym("x")), Lock(sym("inst-2"), sym("x"))]);

    let posts = program.compute();

    println!("{:#?}", posts);

    let inst_0 = sym("inst-0");
    let x = sym("x");
    let inst_2 = sym("inst-2");

    let expected_deadlock = Deadlock(inst_0, x, inst_2);
    assert!(posts.deadlock.contains(&expected_deadlock));
}

#[test]
fn program_reports_exactly_one_deadlock() {
    let mut program = Program::new();
    program.extend(vec![Def(sym("x"), sym("a")), Def(sym("x"), sym("b"))]);
    program.extend(vec![UseVar(sym("x"), sym("a")), UseVar(sym("x"), sym("b")), UseVar(sym("x"), sym("c"))]);
    program.extend(vec![Next(sym("a"), sym("b")), Next(sym("b"), sym("c"))]);
    program.extend(vec![Lock(sym("a"), sym("x")), Lock(sym("b"), sym("x"))]);
    let posts = program.compute();
    assert_eq!(posts.deadlock, vec![Deadlock(sym("a"), sym("x"), sym("b"))]);
    assert!(posts.edge.contains(&Edge(sym("a"), sym("b"))));
    assert!(posts.edge.contains(&Edge(sym("b"), sym("c"))));
}

#[test]
fn priors_decode_every_relation() {
    let mut program = Program::new();
    program.extend(vec![Def(sym("v"), sym("i"))]);
    program.extend(vec![UseVar(sym("v"), sym("j"))]);
    program.extend(vec![Next(sym("i"), sym("j"))]);
    program.extend(vec![Wrap(sym("g"), sym("v"))]);
    program.extend(vec![Lock(sym("i"), sym("v"))]);
    program.extend(vec![Release(sym("j"), sym("v"))]);
    program.extend(vec![Def(sym("v"), sym("i"))]);
    let priors = program.priors();
    assert_eq!(priors.defs, vec![Def(sym("v"), sym("i"))]);
    assert_eq!(priors.use_vars, vec![UseVar(sym("v"), sym("j"))]);
    assert_eq!(priors.nexts, vec![Next(sym("i"), sym("j"))]);
    assert_eq!(priors.wraps, vec![Wrap(sym("g"), sym("v"))]);
    assert_eq!(priors.locks, vec![Lock(sym("i"), sym("v"))]);
    assert_eq!(priors.releases, vec![Release(sym("j"), sym("v"))]);
    assert_eq!(program.symbol_count(), 4);
}

#[test]
fn program_without_locks_has_no_deadlock() {
    let mut program = Program::new();
    program.extend(vec![Def(sym("x"), sym("a")), Def(sym("x"), sym("b"))]);
    program.extend(vec![UseVar(sym("x"), sym("b"))]);
    program.extend(vec![Next(sym("a"), sym("b"))]);
    let posts = program.compute();
    assert!(posts.deadlock.is_empty());
    assert!(posts.path.is_empty());
    assert!(!posts.edge.is_empty());
}

#[test]
fn program_strict_mode_follows_one_resource() {
    let mut program = Program::new();
    program.extend(vec![Def(sym("x"), sym("a")), Def(sym("x"), sym("b"))]);
    program.extend(vec![UseVar(sym("x"), sym("a")), UseVar(sym("x"), sym("b")), UseVar(sym("x"), sym("c"))]);
    program.extend(vec![Next(sym("a"), sym("b")), Next(sym("b"), sym("c"))]);
    program.extend(vec![Lock(sym("a"), sym("x")), Lock(sym("b"), sym("y"))]);
    assert_eq!(program.compute().deadlock, vec![Deadlock(sym("a"), sym("y"), sym("b"))]);
    assert!(program.compute_strict().deadlock.is_empty());
}
