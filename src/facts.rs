//! The relations of the analysis over integer handles, the fact store that
//! holds the input relations, and the stratified fixpoint engine that derives
//! the output relations from them.
use vstd::prelude::*;
use crate::reach::{reach_closed, reach_set};
use crate::engine::{reaching_stage, taint_stage, strict_taint_stage};

verus! {

/// `Def(var, inst)`: `var` is assigned at `inst`.
#[derive(Debug, Clone, Copy, PartialEq, Eq, Hash, Structural)]
pub struct Def(pub usize, pub usize);

/// `UseVar(var, inst)`: `var` is read at `inst`.
#[derive(Debug, Clone, Copy, PartialEq, Eq, Hash, Structural)]
pub struct UseVar(pub usize, pub usize);

/// `Next(a, b)`: a direct control-flow edge from `a` to `b`.
#[derive(Debug, Clone, Copy, PartialEq, Eq, Hash, Structural)]
pub struct Next(pub usize, pub usize);

/// `Wrap(a, b)`: an indirection between two values; kept, not read by the rules.
#[derive(Debug, Clone, Copy, PartialEq, Eq, Hash, Structural)]
pub struct Wrap(pub usize, pub usize);

/// `Lock(inst, resource)`: `inst` acquires `resource`.
#[derive(Debug, Clone, Copy, PartialEq, Eq, Hash, Structural)]
pub struct Lock(pub usize, pub usize);

/// `Release(inst, resource)`: `inst` releases `resource`.
#[derive(Debug, Clone, Copy, PartialEq, Eq, Hash, Structural)]
pub struct Release(pub usize, pub usize);

/// `Kill(c, o)`: the instructions `c` and `o` define the same variable.
#[derive(Debug, Clone, Copy, PartialEq, Eq, Hash, Structural)]
pub struct Kill(pub usize, pub usize);

/// `In(inst, def_inst)`: the definition made at `def_inst` reaches the entry of `inst`.
#[derive(Debug, Clone, Copy, PartialEq, Eq, Hash, Structural)]
pub struct In(pub usize, pub usize);

/// `Out(inst, def_inst)`: the definition made at `def_inst` reaches the exit of `inst`.
#[derive(Debug, Clone, Copy, PartialEq, Eq, Hash, Structural)]
pub struct Out(pub usize, pub usize);

/// `Deadlock(acquired, resource, reentrant)`: the acquisition at `acquired`
/// flows, with no release in between, to an acquisition of `resource` at `reentrant`.
#[derive(Debug, Clone, Copy, PartialEq, Eq, Hash, Structural)]
pub struct Deadlock(pub usize, pub usize, pub usize);

/// `Edge(from, to)`: a variable defined at `from` is read at `to`, and that
/// definition reaches `to`.
#[derive(Debug, Clone, Copy, PartialEq, Eq, Hash, Structural)]
pub struct Edge(pub usize, pub usize);

/// `Path(from, to)`: the lock taken at `from` flows to `to` without crossing a release.
#[derive(Debug, Clone, Copy, PartialEq, Eq, Hash, Structural)]
pub struct Path(pub usize, pub usize);

/// The input relations as sets.
pub struct Facts {
    pub defs: Set<Def>,
    pub use_vars: Set<UseVar>,
    pub nexts: Set<Next>,
    pub wraps: Set<Wrap>,
    pub locks: Set<Lock>,
    pub releases: Set<Release>,
}

/// The derived relations as sets.
pub struct Derived {
    pub kill: Set<Kill>,
    pub in_: Set<In>,
    pub out: Set<Out>,
    pub deadlock: Set<Deadlock>,
    pub edge: Set<Edge>,
    pub path: Set<Path>,
}

/// Some variable is defined at both `c` and `o`.
pub open spec fn kills(f: Facts, c: usize, o: usize) -> bool {
    exists|v: usize| #[trigger] f.defs.contains(Def(v, c)) && f.defs.contains(Def(v, o))
}

/// Some variable is defined at `i`.
pub open spec fn is_def_site(f: Facts, i: usize) -> bool {
    exists|v: usize| #[trigger] f.defs.contains(Def(v, i))
}

/// Some resource is acquired at `i`.
pub open spec fn is_lock_site(f: Facts, i: usize) -> bool {
    exists|r: usize| #[trigger] f.locks.contains(Lock(i, r))
}

/// Some resource is released at `i`.
pub open spec fn releases_any(f: Facts, i: usize) -> bool {
    exists|r: usize| #[trigger] f.releases.contains(Release(i, r))
}

/// Some variable is defined at `from` and read at `to`.
pub open spec fn def_use(f: Facts, from: usize, to: usize) -> bool {
    exists|v: usize| #[trigger] f.defs.contains(Def(v, from)) && f.use_vars.contains(UseVar(v, to))
}

/// Stratum 0: `Kill(c, o) <- Def(var, c), Def(var, o)`.
pub open spec fn kill_set(f: Facts) -> Set<Kill> {
    Set::new(|t: Kill| kills(f, t.0, t.1))
}

/// `si` and `so` are closed under the rules of stratum 1:
/// `Out(i, i) <- Def(_, i)`;
/// `Out(i, d) <- In(i, d), !Kill(i, d)`;
/// `In(i, d) <- Out(p, d), Next(p, i)`.
pub open spec fn reaching_closed(f: Facts, si: Set<In>, so: Set<Out>) -> bool {
    &&& forall|i: usize| #[trigger] is_def_site(f, i) ==> so.contains(Out(i, i))
    &&& forall|i: usize, d: usize| #[trigger] si.contains(In(i, d)) && !kills(f, i, d) ==> so.contains(Out(i, d))
    &&& forall|p: usize, i: usize, d: usize|
        #[trigger] so.contains(Out(p, d)) && #[trigger] f.nexts.contains(Next(p, i)) ==> si.contains(In(i, d))
}

/// The least fixpoint of stratum 1, `In` part: the tuples in every closed pair.
pub open spec fn in_set(f: Facts) -> Set<In> {
    Set::new(|t: In| forall|si: Set<In>, so: Set<Out>| #[trigger] reaching_closed(f, si, so) ==> si.contains(t))
}

/// The least fixpoint of stratum 1, `Out` part.
pub open spec fn out_set(f: Facts) -> Set<Out> {
    Set::new(|t: Out| forall|si: Set<In>, so: Set<Out>| #[trigger] reaching_closed(f, si, so) ==> so.contains(t))
}

/// Stratum 2: `Edge(from, to) <- Def(var, from), UseVar(var, to), In(to, from)`.
pub open spec fn edge_set(f: Facts) -> Set<Edge> {
    Set::new(|t: Edge| def_use(f, t.0, t.1) && in_set(f).contains(In(t.1, t.0)))
}

/// `sp` is closed under the rules of stratum 3:
/// `Path(from, to) <- Lock(from, _), Edge(from, to)`;
/// `Path(p, n) <- Path(p, m), !Release(m, _), Edge(m, n)`.
pub open spec fn path_closed(f: Facts, sp: Set<Path>) -> bool {
    &&& forall|a: usize, b: usize|
        #[trigger] is_lock_site(f, a) && #[trigger] edge_set(f).contains(Edge(a, b)) ==> sp.contains(Path(a, b))
    &&& forall|a: usize, m: usize, b: usize|
        #[trigger] sp.contains(Path(a, m)) && !releases_any(f, m) && #[trigger] edge_set(f).contains(Edge(m, b))
            ==> sp.contains(Path(a, b))
}

/// The least fixpoint of stratum 3.
pub open spec fn path_set(f: Facts) -> Set<Path> {
    Set::new(|t: Path| forall|sp: Set<Path>| #[trigger] path_closed(f, sp) ==> sp.contains(t))
}

/// Stratum 4: `Deadlock(a, r, x) <- Lock(x, r), Path(a, x)`.
pub open spec fn deadlock_set(f: Facts) -> Set<Deadlock> {
    Set::new(|t: Deadlock| f.locks.contains(Lock(t.2, t.1)) && path_set(f).contains(Path(t.0, t.2)))
}

/// Every derived relation of the facts `f`.
pub open spec fn derived(f: Facts) -> Derived {
    Derived {
        kill: kill_set(f),
        in_: in_set(f),
        out: out_set(f),
        deadlock: deadlock_set(f),
        edge: edge_set(f),
        path: path_set(f),
    }
}

/// `sp` is closed under the rules of the strict stratum 3, which follow one
/// resource `r` at a time:
/// `Path(from, to, r) <- Lock(from, r), Edge(from, to)`;
/// `Path(p, n, r) <- Path(p, m, r), !Release(m, r), Edge(m, n)`.
pub open spec fn strict_closed(f: Facts, sp: Set<(usize, usize, usize)>) -> bool {
    &&& forall|a: usize, r: usize, b: usize|
        #[trigger] f.locks.contains(Lock(a, r)) && #[trigger] edge_set(f).contains(Edge(a, b)) ==> sp.contains((a, b, r))
    &&& forall|a: usize, m: usize, b: usize, r: usize|
        #[trigger] sp.contains((a, m, r)) && !f.releases.contains(Release(m, r)) && #[trigger] edge_set(f).contains(Edge(m, b))
            ==> sp.contains((a, b, r))
}

/// The least fixpoint of the strict stratum 3, as `(from, to, resource)`.
pub open spec fn strict_taint_set(f: Facts) -> Set<(usize, usize, usize)> {
    Set::new(|t: (usize, usize, usize)| forall|sp: Set<(usize, usize, usize)>| #[trigger] strict_closed(f, sp) ==> sp.contains(t))
}

/// The strict `Path` relation: the flows of some resource.
pub open spec fn strict_path_set(f: Facts) -> Set<Path> {
    Set::new(|t: Path| exists|r: usize| #[trigger] strict_taint_set(f).contains((t.0, t.1, r)))
}

/// The strict `Deadlock` relation: `Deadlock(a, r, x) <- Lock(x, r), Path(a, x, r)`.
pub open spec fn strict_deadlock_set(f: Facts) -> Set<Deadlock> {
    Set::new(|t: Deadlock| f.locks.contains(Lock(t.2, t.1)) && strict_taint_set(f).contains((t.0, t.2, t.1)))
}

/// Every derived relation of the facts `f` in the strict mode.
pub open spec fn derived_strict(f: Facts) -> Derived {
    Derived {
        kill: kill_set(f),
        in_: in_set(f),
        out: out_set(f),
        deadlock: strict_deadlock_set(f),
        edge: edge_set(f),
        path: strict_path_set(f),
    }
}

/// The instructions that release `r`.
pub open spec fn releasers_of(f: Facts, r: usize) -> Set<usize> {
    Set::new(|m: usize| f.releases.contains(Release(m, r)))
}

/// The instructions that the lock of `r` taken at `a` flows to in the strict mode.
pub open spec fn strict_tainted_from(f: Facts, a: usize, r: usize) -> Set<usize> {
    reach_set(edge_graph(f), a, releasers_of(f, r))
}

/// The control-flow graph as pairs of nodes.
pub open spec fn next_graph(f: Facts) -> Set<(usize, usize)> {
    Set::new(|e: (usize, usize)| f.nexts.contains(Next(e.0, e.1)))
}

/// The instructions that define a variable that is also defined at `d`.
pub open spec fn killers(f: Facts, d: usize) -> Set<usize> {
    Set::new(|x: usize| kills(f, x, d))
}

/// The instructions whose entry the definition made at `d` reaches.
pub open spec fn reached_from(f: Facts, d: usize) -> Set<usize> {
    reach_set(next_graph(f), d, killers(f, d))
}

/// The def-use flow graph as pairs of nodes.
pub open spec fn edge_graph(f: Facts) -> Set<(usize, usize)> {
    Set::new(|e: (usize, usize)| edge_set(f).contains(Edge(e.0, e.1)))
}

/// The instructions that release some resource.
pub open spec fn releasers(f: Facts) -> Set<usize> {
    Set::new(|m: usize| releases_any(f, m))
}

/// The instructions that the lock taken at `a` flows to.
pub open spec fn tainted_from(f: Facts, a: usize) -> Set<usize> {
    reach_set(edge_graph(f), a, releasers(f))
}

/// Stratum 1 computed per definition: the definition made at `d` reaches
/// the entry of exactly the instructions found by a search from `d` along
/// `Next` that stops at instructions redefining its variable.
pub proof fn lemma_reaching_by_search(f: Facts)
    ensures
        forall|t: In| #[trigger] in_set(f).contains(t) <==>
            is_def_site(f, t.1) && reached_from(f, t.1).contains(t.0),
        forall|t: Out| #[trigger] out_set(f).contains(t) <==>
            is_def_site(f, t.1) && (t.0 == t.1 || (reached_from(f, t.1).contains(t.0) && !kills(f, t.0, t.1))),
{
    let si = Set::new(|t: In| is_def_site(f, t.1) && reached_from(f, t.1).contains(t.0));
    let so = Set::new(|t: Out|
        is_def_site(f, t.1) && (t.0 == t.1 || (reached_from(f, t.1).contains(t.0) && !kills(f, t.0, t.1))));
    assert forall|p: usize, i: usize, d: usize|
        #[trigger] so.contains(Out(p, d)) && #[trigger] f.nexts.contains(Next(p, i)) implies si.contains(In(i, d)) by {
        let g = next_graph(f);
        let k = killers(f, d);
        assert(g.contains((p, i)));
        assert forall|nodes: Set<usize>| #[trigger] reach_closed(g, d, k, nodes) implies nodes.contains(i) by {
            if p != d {
                assert(reached_from(f, d).contains(p));
                assert(nodes.contains(p));
                assert(!k.contains(p));
            }
        }
    }
    assert(reaching_closed(f, si, so));
    assert forall|ai: Set<In>, ao: Set<Out>| #[trigger] reaching_closed(f, ai, ao) implies
        si.subset_of(ai) && so.subset_of(ao) by {
        assert forall|t: In| si.contains(t) implies ai.contains(t) by {
            let d = t.1;
            let x = Set::new(|y: usize| ai.contains(In(y, d)));
            assert(ao.contains(Out(d, d)));
            assert forall|m: usize, y: usize|
                x.contains(m) && !killers(f, d).contains(m) && #[trigger] next_graph(f).contains((m, y))
                    implies x.contains(y) by {
                assert(f.nexts.contains(Next(m, y)));
                assert(ao.contains(Out(m, d)));
            }
            assert forall|y: usize| #[trigger] next_graph(f).contains((d, y)) implies x.contains(y) by {
                assert(f.nexts.contains(Next(d, y)));
            }
            assert(reach_closed(next_graph(f), d, killers(f, d), x));
        }
        assert forall|t: Out| so.contains(t) implies ao.contains(t) by {
            if t.0 != t.1 {
                assert(si.contains(In(t.0, t.1)));
            }
        }
    }
    assert forall|t: In| #[trigger] in_set(f).contains(t) <==> si.contains(t) by {
        if in_set(f).contains(t) {
            assert(reaching_closed(f, si, so));
        }
        if si.contains(t) {
            assert forall|ai: Set<In>, ao: Set<Out>| #[trigger] reaching_closed(f, ai, ao) implies ai.contains(t) by {
                assert(si.subset_of(ai));
            }
        }
    }
    assert forall|t: Out| #[trigger] out_set(f).contains(t) <==> so.contains(t) by {
        if out_set(f).contains(t) {
            assert(reaching_closed(f, si, so));
        }
        if so.contains(t) {
            assert forall|ai: Set<In>, ao: Set<Out>| #[trigger] reaching_closed(f, ai, ao) implies ao.contains(t) by {
                assert(so.subset_of(ao));
            }
        }
    }
}

/// The strict stratum 3 computed per lock: the lock of `r` taken at `a`
/// flows to exactly the instructions found by a search from `a` along
/// `Edge` that stops at instructions releasing `r`.
pub proof fn lemma_strict_by_search(f: Facts)
    ensures
        forall|a: usize, b: usize, r: usize| #[trigger] strict_taint_set(f).contains((a, b, r)) <==>
            f.locks.contains(Lock(a, r)) && strict_tainted_from(f, a, r).contains(b),
{
    let sp = Set::new(|t: (usize, usize, usize)| f.locks.contains(Lock(t.0, t.2)) && strict_tainted_from(f, t.0, t.2).contains(t.1));
    assert forall|a: usize, r: usize, b: usize|
        #[trigger] f.locks.contains(Lock(a, r)) && #[trigger] edge_set(f).contains(Edge(a, b)) implies sp.contains((a, b, r)) by {
        assert(edge_graph(f).contains((a, b)));
        assert forall|nodes: Set<usize>| #[trigger] reach_closed(edge_graph(f), a, releasers_of(f, r), nodes)
            implies nodes.contains(b) by {}
    }
    assert forall|a: usize, m: usize, b: usize, r: usize|
        #[trigger] sp.contains((a, m, r)) && !f.releases.contains(Release(m, r)) && #[trigger] edge_set(f).contains(Edge(m, b))
            implies sp.contains((a, b, r)) by {
        assert(edge_graph(f).contains((m, b)));
        assert forall|nodes: Set<usize>| #[trigger] reach_closed(edge_graph(f), a, releasers_of(f, r), nodes)
            implies nodes.contains(b) by {
            assert(nodes.contains(m));
            assert(!releasers_of(f, r).contains(m));
        }
    }
    assert(strict_closed(f, sp));
    assert forall|ap: Set<(usize, usize, usize)>| #[trigger] strict_closed(f, ap) implies sp.subset_of(ap) by {
        assert forall|t: (usize, usize, usize)| sp.contains(t) implies ap.contains(t) by {
            let a = t.0;
            let r = t.2;
            let x = Set::new(|y: usize| ap.contains((a, y, r)));
            assert forall|m: usize, y: usize|
                x.contains(m) && !releasers_of(f, r).contains(m) && #[trigger] edge_graph(f).contains((m, y))
                    implies x.contains(y) by {
                assert(edge_set(f).contains(Edge(m, y)));
            }
            assert forall|y: usize| #[trigger] edge_graph(f).contains((a, y)) implies x.contains(y) by {
                assert(edge_set(f).contains(Edge(a, y)));
            }
            assert(reach_closed(edge_graph(f), a, releasers_of(f, r), x));
        }
    }
    assert forall|a: usize, b: usize, r: usize| #[trigger] strict_taint_set(f).contains((a, b, r)) <==> sp.contains((a, b, r)) by {
        if strict_taint_set(f).contains((a, b, r)) {
            assert(strict_closed(f, sp));
        }
        if sp.contains((a, b, r)) {
            assert forall|ap: Set<(usize, usize, usize)>| #[trigger] strict_closed(f, ap) implies ap.contains((a, b, r)) by {
                assert(sp.subset_of(ap));
            }
        }
    }
}

/// Stratum 3 computed per lock site: the lock taken at `a` flows to exactly
/// the instructions found by a search from `a` along `Edge` that stops at
/// releasing instructions.
pub proof fn lemma_paths_by_search(f: Facts)
    ensures
        forall|t: Path| #[trigger] path_set(f).contains(t) <==>
            is_lock_site(f, t.0) && tainted_from(f, t.0).contains(t.1),
{
    let sp = Set::new(|t: Path| is_lock_site(f, t.0) && tainted_from(f, t.0).contains(t.1));
    assert forall|a: usize, b: usize|
        #[trigger] is_lock_site(f, a) && #[trigger] edge_set(f).contains(Edge(a, b)) implies sp.contains(Path(a, b)) by {
        assert(edge_graph(f).contains((a, b)));
        assert forall|nodes: Set<usize>| #[trigger] reach_closed(edge_graph(f), a, releasers(f), nodes)
            implies nodes.contains(b) by {}
    }
    assert forall|a: usize, m: usize, b: usize|
        #[trigger] sp.contains(Path(a, m)) && !releases_any(f, m) && #[trigger] edge_set(f).contains(Edge(m, b))
            implies sp.contains(Path(a, b)) by {
        assert(edge_graph(f).contains((m, b)));
        assert forall|nodes: Set<usize>| #[trigger] reach_closed(edge_graph(f), a, releasers(f), nodes)
            implies nodes.contains(b) by {
            assert(nodes.contains(m));
            assert(!releasers(f).contains(m));
        }
    }
    assert(path_closed(f, sp));
    assert forall|ap: Set<Path>| #[trigger] path_closed(f, ap) implies sp.subset_of(ap) by {
        assert forall|t: Path| sp.contains(t) implies ap.contains(t) by {
            let a = t.0;
            let x = Set::new(|y: usize| ap.contains(Path(a, y)));
            assert forall|m: usize, y: usize|
                x.contains(m) && !releasers(f).contains(m) && #[trigger] edge_graph(f).contains((m, y))
                    implies x.contains(y) by {
                assert(edge_set(f).contains(Edge(m, y)));
            }
            assert forall|y: usize| #[trigger] edge_graph(f).contains((a, y)) implies x.contains(y) by {
                assert(edge_set(f).contains(Edge(a, y)));
            }
            assert(reach_closed(edge_graph(f), a, releasers(f), x));
        }
    }
    assert forall|t: Path| #[trigger] path_set(f).contains(t) <==> sp.contains(t) by {
        if path_set(f).contains(t) {
            assert(path_closed(f, sp));
        }
        if sp.contains(t) {
            assert forall|ap: Set<Path>| #[trigger] path_closed(f, ap) implies ap.contains(t) by {
                assert(sp.subset_of(ap));
            }
        }
    }
}

/// The fact store: the six input relations.  A relation holds a fact when
/// its vector does; a repeated fact is the same fact.
#[derive(Debug, Clone)]
pub struct ReentrantDeadlockPriors {
    pub defs: Vec<Def>,
    pub use_vars: Vec<UseVar>,
    pub nexts: Vec<Next>,
    pub wraps: Vec<Wrap>,
    pub locks: Vec<Lock>,
    pub releases: Vec<Release>,
}

impl View for ReentrantDeadlockPriors {
    type V = Facts;

    open spec fn view(&self) -> Facts {
        Facts {
            defs: self.defs@.to_set(),
            use_vars: self.use_vars@.to_set(),
            nexts: self.nexts@.to_set(),
            wraps: self.wraps@.to_set(),
            locks: self.locks@.to_set(),
            releases: self.releases@.to_set(),
        }
    }
}

/// The derived relations computed from a fact store.
#[derive(Debug, Clone)]
pub struct ReentrantDeadlockPosts {
    pub kill: Vec<Kill>,
    pub in_: Vec<In>,
    pub out: Vec<Out>,
    pub deadlock: Vec<Deadlock>,
    pub edge: Vec<Edge>,
    pub path: Vec<Path>,
}

impl View for ReentrantDeadlockPosts {
    type V = Derived;

    open spec fn view(&self) -> Derived {
        Derived {
            kill: self.kill@.to_set(),
            in_: self.in_@.to_set(),
            out: self.out@.to_set(),
            deadlock: self.deadlock@.to_set(),
            edge: self.edge@.to_set(),
            path: self.path@.to_set(),
        }
    }
}

impl ReentrantDeadlockPosts {
    /// Every relation holds each of its facts once.
    pub open spec fn distinct(&self) -> bool {
        &&& self.kill@.no_duplicates()
        &&& self.in_@.no_duplicates()
        &&& self.out@.no_duplicates()
        &&& self.deadlock@.no_duplicates()
        &&& self.edge@.no_duplicates()
        &&& self.path@.no_duplicates()
    }

    /// No derived facts.
    pub fn new() -> (r: Self)
        ensures
            r@ == (Derived {
                kill: Set::empty(),
                in_: Set::empty(),
                out: Set::empty(),
                deadlock: Set::empty(),
                edge: Set::empty(),
                path: Set::empty(),
            }),
            r.distinct(),
    {
        let r = ReentrantDeadlockPosts {
            kill: Vec::new(),
            in_: Vec::new(),
            out: Vec::new(),
            deadlock: Vec::new(),
            edge: Vec::new(),
            path: Vec::new(),
        };
        proof {
            assert(r.kill@.to_set() =~= Set::empty());
            assert(r.in_@.to_set() =~= Set::empty());
            assert(r.out@.to_set() =~= Set::empty());
            assert(r.deadlock@.to_set() =~= Set::empty());
            assert(r.edge@.to_set() =~= Set::empty());
            assert(r.path@.to_set() =~= Set::empty());
        }
        r
    }
}

/// A tuple of handles that can be compared with another of its relation.
pub trait Fact: Sized + Copy {
    /// Whether `self` and `other` are the same fact.
    fn same(&self, other: &Self) -> (r: bool)
        ensures
            r == (*self == *other);
}

impl Fact for Def {
    fn same(&self, other: &Self) -> (r: bool) {
        self.0 == other.0 && self.1 == other.1
    }
}

impl Fact for UseVar {
    fn same(&self, other: &Self) -> (r: bool) {
        self.0 == other.0 && self.1 == other.1
    }
}

impl Fact for Next {
    fn same(&self, other: &Self) -> (r: bool) {
        self.0 == other.0 && self.1 == other.1
    }
}

impl Fact for Wrap {
    fn same(&self, other: &Self) -> (r: bool) {
        self.0 == other.0 && self.1 == other.1
    }
}

impl Fact for Lock {
    fn same(&self, other: &Self) -> (r: bool) {
        self.0 == other.0 && self.1 == other.1
    }
}

impl Fact for Kill {
    fn same(&self, other: &Self) -> (r: bool) {
        self.0 == other.0 && self.1 == other.1
    }
}

impl Fact for In {
    fn same(&self, other: &Self) -> (r: bool) {
        self.0 == other.0 && self.1 == other.1
    }
}

impl Fact for Out {
    fn same(&self, other: &Self) -> (r: bool) {
        self.0 == other.0 && self.1 == other.1
    }
}

impl Fact for Edge {
    fn same(&self, other: &Self) -> (r: bool) {
        self.0 == other.0 && self.1 == other.1
    }
}

impl Fact for Path {
    fn same(&self, other: &Self) -> (r: bool) {
        self.0 == other.0 && self.1 == other.1
    }
}

impl Fact for Deadlock {
    fn same(&self, other: &Self) -> (r: bool) {
        self.0 == other.0 && self.1 == other.1 && self.2 == other.2
    }
}

impl Fact for Release {
    fn same(&self, other: &Self) -> (r: bool) {
        self.0 == other.0 && self.1 == other.1
    }
}

/// A fact of a relation with two columns.
pub trait Binary: Fact {
    /// The handle in the first column.
    spec fn first(&self) -> usize;

    /// The handle in the second column.
    spec fn second(&self) -> usize;

    /// Both handles.
    fn parts(&self) -> (r: (usize, usize))
        ensures
            r == (self.first(), self.second());

    /// The fact with handles `a` and `b`.
    fn from_parts(a: usize, b: usize) -> (r: Self)
        ensures
            r.first() == a,
            r.second() == b;

    /// A fact is fixed by its two handles.
    proof fn lemma_same_parts(a: Self, b: Self)
        requires
            a.first() == b.first(),
            a.second() == b.second(),
        ensures
            a == b;
}

impl Binary for Def {
    open spec fn first(&self) -> usize {
        self.0
    }

    open spec fn second(&self) -> usize {
        self.1
    }

    fn parts(&self) -> (r: (usize, usize)) {
        (self.0, self.1)
    }

    fn from_parts(a: usize, b: usize) -> (r: Self) {
        Def(a, b)
    }

    proof fn lemma_same_parts(a: Self, b: Self) {
    }
}

impl Binary for UseVar {
    open spec fn first(&self) -> usize {
        self.0
    }

    open spec fn second(&self) -> usize {
        self.1
    }

    fn parts(&self) -> (r: (usize, usize)) {
        (self.0, self.1)
    }

    fn from_parts(a: usize, b: usize) -> (r: Self) {
        UseVar(a, b)
    }

    proof fn lemma_same_parts(a: Self, b: Self) {
    }
}

impl Binary for Next {
    open spec fn first(&self) -> usize {
        self.0
    }

    open spec fn second(&self) -> usize {
        self.1
    }

    fn parts(&self) -> (r: (usize, usize)) {
        (self.0, self.1)
    }

    fn from_parts(a: usize, b: usize) -> (r: Self) {
        Next(a, b)
    }

    proof fn lemma_same_parts(a: Self, b: Self) {
    }
}

impl Binary for Wrap {
    open spec fn first(&self) -> usize {
        self.0
    }

    open spec fn second(&self) -> usize {
        self.1
    }

    fn parts(&self) -> (r: (usize, usize)) {
        (self.0, self.1)
    }

    fn from_parts(a: usize, b: usize) -> (r: Self) {
        Wrap(a, b)
    }

    proof fn lemma_same_parts(a: Self, b: Self) {
    }
}

impl Binary for Lock {
    open spec fn first(&self) -> usize {
        self.0
    }

    open spec fn second(&self) -> usize {
        self.1
    }

    fn parts(&self) -> (r: (usize, usize)) {
        (self.0, self.1)
    }

    fn from_parts(a: usize, b: usize) -> (r: Self) {
        Lock(a, b)
    }

    proof fn lemma_same_parts(a: Self, b: Self) {
    }
}

impl Binary for Release {
    open spec fn first(&self) -> usize {
        self.0
    }

    open spec fn second(&self) -> usize {
        self.1
    }

    fn parts(&self) -> (r: (usize, usize)) {
        (self.0, self.1)
    }

    fn from_parts(a: usize, b: usize) -> (r: Self) {
        Release(a, b)
    }

    proof fn lemma_same_parts(a: Self, b: Self) {
    }
}

impl Binary for Kill {
    open spec fn first(&self) -> usize {
        self.0
    }

    open spec fn second(&self) -> usize {
        self.1
    }

    fn parts(&self) -> (r: (usize, usize)) {
        (self.0, self.1)
    }

    fn from_parts(a: usize, b: usize) -> (r: Self) {
        Kill(a, b)
    }

    proof fn lemma_same_parts(a: Self, b: Self) {
    }
}

impl Binary for In {
    open spec fn first(&self) -> usize {
        self.0
    }

    open spec fn second(&self) -> usize {
        self.1
    }

    fn parts(&self) -> (r: (usize, usize)) {
        (self.0, self.1)
    }

    fn from_parts(a: usize, b: usize) -> (r: Self) {
        In(a, b)
    }

    proof fn lemma_same_parts(a: Self, b: Self) {
    }
}

impl Binary for Out {
    open spec fn first(&self) -> usize {
        self.0
    }

    open spec fn second(&self) -> usize {
        self.1
    }

    fn parts(&self) -> (r: (usize, usize)) {
        (self.0, self.1)
    }

    fn from_parts(a: usize, b: usize) -> (r: Self) {
        Out(a, b)
    }

    proof fn lemma_same_parts(a: Self, b: Self) {
    }
}

impl Binary for Edge {
    open spec fn first(&self) -> usize {
        self.0
    }

    open spec fn second(&self) -> usize {
        self.1
    }

    fn parts(&self) -> (r: (usize, usize)) {
        (self.0, self.1)
    }

    fn from_parts(a: usize, b: usize) -> (r: Self) {
        Edge(a, b)
    }

    proof fn lemma_same_parts(a: Self, b: Self) {
    }
}

impl Binary for Path {
    open spec fn first(&self) -> usize {
        self.0
    }

    open spec fn second(&self) -> usize {
        self.1
    }

    fn parts(&self) -> (r: (usize, usize)) {
        (self.0, self.1)
    }

    fn from_parts(a: usize, b: usize) -> (r: Self) {
        Path(a, b)
    }

    proof fn lemma_same_parts(a: Self, b: Self) {
    }
}

/// Pushing `x` adds exactly `x` to the elements of a sequence.
proof fn lemma_push_to_set<T>(s: Seq<T>, x: T)
    ensures
        s.push(x).to_set() == s.to_set().insert(x),
{
    assert forall|y: T| s.push(x).to_set().contains(y) <==> s.to_set().insert(x).contains(y) by {
        if s.push(x).contains(y) && y != x {
            let j = choose|j: int| 0 <= j < s.push(x).len() && s.push(x)[j] == y;
            assert(s[j] == y);
        }
        if s.contains(y) {
            let j = choose|j: int| 0 <= j < s.len() && s[j] == y;
            assert(s.push(x)[j] == y);
        }
        if y == x {
            assert(s.push(x)[s.len() as int] == y);
        }
    }
    assert(s.push(x).to_set() =~= s.to_set().insert(x));
}

/// Adds `x` to `v` unless `v` already holds it.
pub(crate) fn push_unique<T: Fact>(v: &mut Vec<T>, x: T)
    ensures
        final(v)@.to_set() == old(v)@.to_set().insert(x),
        old(v)@.no_duplicates() ==> final(v)@.no_duplicates(),
{
    let mut i: usize = 0;
    while i < v.len()
        invariant
            i <= v@.len(),
            v@ == old(v)@,
            forall|j: int| 0 <= j < i ==> v@[j] != x,
        decreases v@.len() - i,
    {
        if v[i].same(&x) {
            proof {
                assert(v@.to_set() =~= v@.to_set().insert(x));
            }
            return;
        }
        i = i + 1;
    }
    v.push(x);
    proof {
        lemma_push_to_set(old(v)@, x);
    }
}

/// Adds each of `values` to `v`.
pub(crate) fn extend_unique<T: Fact>(v: &mut Vec<T>, values: Vec<T>)
    ensures
        final(v)@.to_set() == old(v)@.to_set() + values@.to_set(),
        old(v)@.no_duplicates() ==> final(v)@.no_duplicates(),
{
    let mut i: usize = 0;
    while i < values.len()
        invariant
            i <= values@.len(),
            old(v)@.no_duplicates() ==> v@.no_duplicates(),
            v@.to_set() == old(v)@.to_set() + values@.subrange(0, i as int).to_set(),
        decreases values@.len() - i,
    {
        let x = values[i];
        push_unique(v, x);
        proof {
            assert(values@.subrange(0, i + 1) =~= values@.subrange(0, i as int).push(x));
            lemma_push_to_set(values@.subrange(0, i as int), x);
            assert(v@.to_set() =~= old(v)@.to_set() + values@.subrange(0, i + 1).to_set());
        }
        i = i + 1;
    }
    proof {
        assert(values@.subrange(0, i as int) =~= values@);
    }
}

/// Adding facts of one relation to a store.
pub trait Extendable<T> {
    /// Whether `count` more facts can be taken in.
    spec fn can_extend(&self, count: nat) -> bool;

    /// Adds each of `values`; a fact already held is not added twice.
    fn extend(&mut self, values: Vec<T>)
        requires
            old(self).can_extend(values@.len());
}

impl Extendable<Def> for ReentrantDeadlockPriors {
    open spec fn can_extend(&self, count: nat) -> bool {
        true
    }

    fn extend(&mut self, values: Vec<Def>)
        ensures
            final(self)@.defs == old(self)@.defs + values@.to_set(),
            old(self).defs@.no_duplicates() ==> final(self).defs@.no_duplicates(),
            final(self).use_vars == old(self).use_vars,
            final(self).nexts == old(self).nexts,
            final(self).wraps == old(self).wraps,
            final(self).locks == old(self).locks,
            final(self).releases == old(self).releases,
    {
        extend_unique(&mut self.defs, values);
    }
}

impl Extendable<UseVar> for ReentrantDeadlockPriors {
    open spec fn can_extend(&self, count: nat) -> bool {
        true
    }

    fn extend(&mut self, values: Vec<UseVar>)
        ensures
            final(self)@.use_vars == old(self)@.use_vars + values@.to_set(),
            old(self).use_vars@.no_duplicates() ==> final(self).use_vars@.no_duplicates(),
            final(self).defs == old(self).defs,
            final(self).nexts == old(self).nexts,
            final(self).wraps == old(self).wraps,
            final(self).locks == old(self).locks,
            final(self).releases == old(self).releases,
    {
        extend_unique(&mut self.use_vars, values);
    }
}

impl Extendable<Next> for ReentrantDeadlockPriors {
    open spec fn can_extend(&self, count: nat) -> bool {
        true
    }

    fn extend(&mut self, values: Vec<Next>)
        ensures
            final(self)@.nexts == old(self)@.nexts + values@.to_set(),
            old(self).nexts@.no_duplicates() ==> final(self).nexts@.no_duplicates(),
            final(self).defs == old(self).defs,
            final(self).use_vars == old(self).use_vars,
            final(self).wraps == old(self).wraps,
            final(self).locks == old(self).locks,
            final(self).releases == old(self).releases,
    {
        extend_unique(&mut self.nexts, values);
    }
}

impl Extendable<Wrap> for ReentrantDeadlockPriors {
    open spec fn can_extend(&self, count: nat) -> bool {
        true
    }

    fn extend(&mut self, values: Vec<Wrap>)
        ensures
            final(self)@.wraps == old(self)@.wraps + values@.to_set(),
            old(self).wraps@.no_duplicates() ==> final(self).wraps@.no_duplicates(),
            final(self).defs == old(self).defs,
            final(self).use_vars == old(self).use_vars,
            final(self).nexts == old(self).nexts,
            final(self).locks == old(self).locks,
            final(self).releases == old(self).releases,
    {
        extend_unique(&mut self.wraps, values);
    }
}

impl Extendable<Lock> for ReentrantDeadlockPriors {
    open spec fn can_extend(&self, count: nat) -> bool {
        true
    }

    fn extend(&mut self, values: Vec<Lock>)
        ensures
            final(self)@.locks == old(self)@.locks + values@.to_set(),
            old(self).locks@.no_duplicates() ==> final(self).locks@.no_duplicates(),
            final(self).defs == old(self).defs,
            final(self).use_vars == old(self).use_vars,
            final(self).nexts == old(self).nexts,
            final(self).wraps == old(self).wraps,
            final(self).releases == old(self).releases,
    {
        extend_unique(&mut self.locks, values);
    }
}

impl Extendable<Release> for ReentrantDeadlockPriors {
    open spec fn can_extend(&self, count: nat) -> bool {
        true
    }

    fn extend(&mut self, values: Vec<Release>)
        ensures
            final(self)@.releases == old(self)@.releases + values@.to_set(),
            old(self).releases@.no_duplicates() ==> final(self).releases@.no_duplicates(),
            final(self).defs == old(self).defs,
            final(self).use_vars == old(self).use_vars,
            final(self).nexts == old(self).nexts,
            final(self).wraps == old(self).wraps,
            final(self).locks == old(self).locks,
    {
        extend_unique(&mut self.releases, values);
    }
}

impl ReentrantDeadlockPriors {
    /// An empty fact store.
    pub fn new() -> (r: Self)
        ensures
            r@ == (Facts {
                defs: Set::empty(),
                use_vars: Set::empty(),
                nexts: Set::empty(),
                wraps: Set::empty(),
                locks: Set::empty(),
                releases: Set::empty(),
            }),
            r.defs@.len() == 0,
            r.use_vars@.len() == 0,
            r.nexts@.len() == 0,
            r.wraps@.len() == 0,
            r.locks@.len() == 0,
            r.releases@.len() == 0,
    {
        let r = ReentrantDeadlockPriors {
            defs: Vec::new(),
            use_vars: Vec::new(),
            nexts: Vec::new(),
            wraps: Vec::new(),
            locks: Vec::new(),
            releases: Vec::new(),
        };
        proof {
            assert(r.defs@.to_set() =~= Set::empty());
            assert(r.use_vars@.to_set() =~= Set::empty());
            assert(r.nexts@.to_set() =~= Set::empty());
            assert(r.wraps@.to_set() =~= Set::empty());
            assert(r.locks@.to_set() =~= Set::empty());
            assert(r.releases@.to_set() =~= Set::empty());
        }
        r
    }

    /// Evaluates the rules over the facts held, stratum by stratum, to their
    /// least fixpoint.  Each derived fact is listed once.
    pub fn compute(&self) -> (r: ReentrantDeadlockPosts)
        ensures
            r@ == derived(self@),
            r.distinct(),
    {
        let (kill, in_, out, edge, graph) = reaching_stage(self);
        let (path, deadlock) = taint_stage(self, &graph);
        ReentrantDeadlockPosts { kill, in_, out, deadlock, edge, path }
    }

    /// Like [`Self::compute`], but a path follows one resource: it starts at
    /// an acquisition of that resource, is stopped only by releases of that
    /// same resource, and reports only a later acquisition of it.
    pub fn compute_strict(&self) -> (r: ReentrantDeadlockPosts)
        ensures
            r@ == derived_strict(self@),
            r.distinct(),
    {
        let (kill, in_, out, edge, graph) = reaching_stage(self);
        let (path, deadlock) = strict_taint_stage(self, &graph);
        ReentrantDeadlockPosts { kill, in_, out, deadlock, edge, path }
    }
}

/// A copy of `v`.
pub(crate) fn copy_facts<T: Fact>(v: &Vec<T>) -> (r: Vec<T>)
    ensures
        r@ == v@,
{
    let mut r: Vec<T> = Vec::new();
    let mut i: usize = 0;
    while i < v.len()
        invariant
            i <= v@.len(),
            r@ == v@.subrange(0, i as int),
        decreases v@.len() - i,
    {
        r.push(v[i]);
        proof {
            assert(v@.subrange(0, i + 1) =~= v@.subrange(0, i as int).push(v@[i as int]));
        }
        i = i + 1;
    }
    proof {
        assert(v@.subrange(0, i as int) =~= v@);
    }
    r
}

/// Every handle that the facts `f` mention is below `n`.
pub open spec fn handles_below(f: Facts, n: nat) -> bool {
    &&& forall|t: Def| #[trigger] f.defs.contains(t) ==> t.0 < n && t.1 < n
    &&& forall|t: UseVar| #[trigger] f.use_vars.contains(t) ==> t.0 < n && t.1 < n
    &&& forall|t: Next| #[trigger] f.nexts.contains(t) ==> t.0 < n && t.1 < n
    &&& forall|t: Wrap| #[trigger] f.wraps.contains(t) ==> t.0 < n && t.1 < n
    &&& forall|t: Lock| #[trigger] f.locks.contains(t) ==> t.0 < n && t.1 < n
    &&& forall|t: Release| #[trigger] f.releases.contains(t) ==> t.0 < n && t.1 < n
}

/// The derived facts mention only handles that the input facts mention.
pub proof fn lemma_derived_handles_below(f: Facts, n: nat)
    requires
        handles_below(f, n),
    ensures
        forall|t: Kill| #[trigger] derived(f).kill.contains(t) ==> t.0 < n && t.1 < n,
        forall|t: In| #[trigger] derived(f).in_.contains(t) ==> t.0 < n && t.1 < n,
        forall|t: Out| #[trigger] derived(f).out.contains(t) ==> t.0 < n && t.1 < n,
        forall|t: Edge| #[trigger] derived(f).edge.contains(t) ==> t.0 < n && t.1 < n,
        forall|t: Path| #[trigger] derived(f).path.contains(t) ==> t.0 < n && t.1 < n,
        forall|t: Deadlock| #[trigger] derived(f).deadlock.contains(t) ==> t.0 < n && t.1 < n && t.2 < n,
{
    let si = Set::new(|t: In| t.0 < n && t.1 < n);
    let so = Set::new(|t: Out| t.0 < n && t.1 < n);
    assert(reaching_closed(f, si, so)) by {
        assert forall|i: usize| #[trigger] is_def_site(f, i) implies so.contains(Out(i, i)) by {
            let v = choose|v: usize| #[trigger] f.defs.contains(Def(v, i));
        }
        assert forall|p: usize, i: usize, d: usize|
            #[trigger] so.contains(Out(p, d)) && #[trigger] f.nexts.contains(Next(p, i)) implies si.contains(In(i, d)) by {}
    }
    assert forall|t: In| #[trigger] in_set(f).contains(t) implies t.0 < n && t.1 < n by {
        assert(si.contains(t));
    }
    assert forall|t: Out| #[trigger] out_set(f).contains(t) implies t.0 < n && t.1 < n by {
        assert(so.contains(t));
    }
    assert forall|t: Kill| #[trigger] kill_set(f).contains(t) implies t.0 < n && t.1 < n by {
        let v = choose|v: usize| #[trigger] f.defs.contains(Def(v, t.0)) && f.defs.contains(Def(v, t.1));
    }
    assert forall|t: Edge| #[trigger] edge_set(f).contains(t) implies t.0 < n && t.1 < n by {
        let v = choose|v: usize| #[trigger] f.defs.contains(Def(v, t.0)) && f.use_vars.contains(UseVar(v, t.1));
    }
    let sp = Set::new(|t: Path| t.0 < n && t.1 < n);
    assert(path_closed(f, sp)) by {
        assert forall|a: usize, b: usize|
            #[trigger] is_lock_site(f, a) && #[trigger] edge_set(f).contains(Edge(a, b)) implies sp.contains(Path(a, b)) by {
            let r = choose|r: usize| #[trigger] f.locks.contains(Lock(a, r));
        }
    }
    assert forall|t: Path| #[trigger] path_set(f).contains(t) implies t.0 < n && t.1 < n by {
        assert(sp.contains(t));
    }
    assert forall|t: Deadlock| #[trigger] deadlock_set(f).contains(t) implies t.0 < n && t.1 < n && t.2 < n by {
        assert(path_set(f).contains(Path(t.0, t.2)));
        assert(f.locks.contains(Lock(t.2, t.1)));
    }
}

/// The strict derived facts mention only handles that the input facts mention.
pub proof fn lemma_strict_handles_below(f: Facts, n: nat)
    requires
        handles_below(f, n),
    ensures
        forall|t: Path| #[trigger] derived_strict(f).path.contains(t) ==> t.0 < n && t.1 < n,
        forall|t: Deadlock| #[trigger] derived_strict(f).deadlock.contains(t) ==> t.0 < n && t.1 < n && t.2 < n,
{
    lemma_derived_handles_below(f, n);
    let sp = Set::new(|t: (usize, usize, usize)| t.0 < n && t.1 < n && t.2 < n);
    assert(strict_closed(f, sp)) by {
        assert forall|a: usize, r: usize, b: usize|
            #[trigger] f.locks.contains(Lock(a, r)) && #[trigger] edge_set(f).contains(Edge(a, b)) implies sp.contains((a, b, r)) by {
            assert(derived(f).edge.contains(Edge(a, b)));
        }
        assert forall|a: usize, m: usize, b: usize, r: usize|
            #[trigger] sp.contains((a, m, r)) && !f.releases.contains(Release(m, r)) && #[trigger] edge_set(f).contains(Edge(m, b))
                implies sp.contains((a, b, r)) by {
            assert(derived(f).edge.contains(Edge(m, b)));
        }
    }
    assert forall|t: Path| #[trigger] strict_path_set(f).contains(t) implies t.0 < n && t.1 < n by {
        let r = choose|r: usize| #[trigger] strict_taint_set(f).contains((t.0, t.1, r));
        assert(sp.contains((t.0, t.1, r)));
    }
    assert forall|t: Deadlock| #[trigger] strict_deadlock_set(f).contains(t) implies t.0 < n && t.1 < n && t.2 < n by {
        assert(sp.contains((t.0, t.2, t.1)));
    }
}

/// Determinism: the derived relations are a function of the sets of facts
/// held, so two evaluations of one unmodified store give identical relation
/// sets.
pub proof fn lemma_compute_deterministic(
    p: ReentrantDeadlockPriors,
    first: ReentrantDeadlockPosts,
    second: ReentrantDeadlockPosts,
)
    requires
        first@ == derived(p@),
        second@ == derived(p@),
    ensures
        first@ == second@,
{
}

/// No-lock vacuity: with no `Lock` fact there is no `Deadlock` fact,
/// whatever the other relations hold.
pub proof fn lemma_no_lock_no_deadlock(f: Facts)
    requires
        f.locks == Set::<Lock>::empty(),
    ensures
        derived(f).deadlock == Set::<Deadlock>::empty(),
{
    assert(deadlock_set(f) =~= Set::<Deadlock>::empty());
}

} // verus!
