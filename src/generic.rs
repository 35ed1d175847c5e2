//! The relations over the symbols of the analysed program, as a caller
//! supplies and receives them.
use vstd::prelude::*;
use crate::alias::Symbol;

verus! {

/// `Def(var, inst)`: `var` is assigned at `inst`.
#[derive(Debug, Clone, PartialEq, Eq, Hash)]
pub struct Def<S>(pub S, pub S);

/// `UseVar(var, inst)`: `var` is read at `inst`.
#[derive(Debug, Clone, PartialEq, Eq, Hash)]
pub struct UseVar<S>(pub S, pub S);

/// `Next(a, b)`: a direct control-flow edge from `a` to `b`.
#[derive(Debug, Clone, PartialEq, Eq, Hash)]
pub struct Next<S>(pub S, pub S);

/// `Wrap(a, b)`: an indirection between two values.
#[derive(Debug, Clone, PartialEq, Eq, Hash)]
pub struct Wrap<S>(pub S, pub S);

/// `Lock(inst, resource)`: `inst` acquires `resource`.
#[derive(Debug, Clone, PartialEq, Eq, Hash)]
pub struct Lock<S>(pub S, pub S);

/// `Release(inst, resource)`: `inst` releases `resource`.
#[derive(Debug, Clone, PartialEq, Eq, Hash)]
pub struct Release<S>(pub S, pub S);

/// `Kill(c, o)`: `c` and `o` define the same variable.
#[derive(Debug, Clone, PartialEq, Eq, Hash)]
pub struct Kill<S>(pub S, pub S);

/// `In(inst, def_inst)`: the definition at `def_inst` reaches the entry of `inst`.
#[derive(Debug, Clone, PartialEq, Eq, Hash)]
pub struct In<S>(pub S, pub S);

/// `Out(inst, def_inst)`: the definition at `def_inst` reaches the exit of `inst`.
#[derive(Debug, Clone, PartialEq, Eq, Hash)]
pub struct Out<S>(pub S, pub S);

/// `Edge(from, to)`: a definition at `from` is read at `to`, and reaches it.
#[derive(Debug, Clone, PartialEq, Eq, Hash)]
pub struct Edge<S>(pub S, pub S);

/// `Path(from, to)`: the lock taken at `from` flows to `to` without crossing a release.
#[derive(Debug, Clone, PartialEq, Eq, Hash)]
pub struct Path<S>(pub S, pub S);

/// `Deadlock(acquired, resource, reentrant)`: the acquisition at `acquired`
/// flows, with no release in between, to an acquisition of `resource` at `reentrant`.
#[derive(Debug, Clone, PartialEq, Eq, Hash)]
pub struct Deadlock<S>(pub S, pub S, pub S);

/// A fact with two symbol columns.
pub trait SymbolPair: Sized {
    /// The text of both symbols.
    spec fn names(&self) -> (Seq<char>, Seq<char>);

    /// The fact on `a` and `b`.
    fn make(a: Symbol, b: Symbol) -> (r: Self)
        ensures
            r.names() == (a@, b@);

    /// Copies of both symbols.
    fn symbols(&self) -> (r: (Symbol, Symbol))
        ensures
            (r.0@, r.1@) == self.names();
}

impl SymbolPair for Def<Symbol> {
    open spec fn names(&self) -> (Seq<char>, Seq<char>) {
        (self.0@, self.1@)
    }

    fn make(a: Symbol, b: Symbol) -> (r: Self) {
        Def(a, b)
    }

    fn symbols(&self) -> (r: (Symbol, Symbol)) {
        (self.0.duplicate(), self.1.duplicate())
    }
}

impl SymbolPair for UseVar<Symbol> {
    open spec fn names(&self) -> (Seq<char>, Seq<char>) {
        (self.0@, self.1@)
    }

    fn make(a: Symbol, b: Symbol) -> (r: Self) {
        UseVar(a, b)
    }

    fn symbols(&self) -> (r: (Symbol, Symbol)) {
        (self.0.duplicate(), self.1.duplicate())
    }
}

impl SymbolPair for Next<Symbol> {
    open spec fn names(&self) -> (Seq<char>, Seq<char>) {
        (self.0@, self.1@)
    }

    fn make(a: Symbol, b: Symbol) -> (r: Self) {
        Next(a, b)
    }

    fn symbols(&self) -> (r: (Symbol, Symbol)) {
        (self.0.duplicate(), self.1.duplicate())
    }
}

impl SymbolPair for Wrap<Symbol> {
    open spec fn names(&self) -> (Seq<char>, Seq<char>) {
        (self.0@, self.1@)
    }

    fn make(a: Symbol, b: Symbol) -> (r: Self) {
        Wrap(a, b)
    }

    fn symbols(&self) -> (r: (Symbol, Symbol)) {
        (self.0.duplicate(), self.1.duplicate())
    }
}

impl SymbolPair for Lock<Symbol> {
    open spec fn names(&self) -> (Seq<char>, Seq<char>) {
        (self.0@, self.1@)
    }

    fn make(a: Symbol, b: Symbol) -> (r: Self) {
        Lock(a, b)
    }

    fn symbols(&self) -> (r: (Symbol, Symbol)) {
        (self.0.duplicate(), self.1.duplicate())
    }
}

impl SymbolPair for Release<Symbol> {
    open spec fn names(&self) -> (Seq<char>, Seq<char>) {
        (self.0@, self.1@)
    }

    fn make(a: Symbol, b: Symbol) -> (r: Self) {
        Release(a, b)
    }

    fn symbols(&self) -> (r: (Symbol, Symbol)) {
        (self.0.duplicate(), self.1.duplicate())
    }
}

impl SymbolPair for Kill<Symbol> {
    open spec fn names(&self) -> (Seq<char>, Seq<char>) {
        (self.0@, self.1@)
    }

    fn make(a: Symbol, b: Symbol) -> (r: Self) {
        Kill(a, b)
    }

    fn symbols(&self) -> (r: (Symbol, Symbol)) {
        (self.0.duplicate(), self.1.duplicate())
    }
}

impl SymbolPair for In<Symbol> {
    open spec fn names(&self) -> (Seq<char>, Seq<char>) {
        (self.0@, self.1@)
    }

    fn make(a: Symbol, b: Symbol) -> (r: Self) {
        In(a, b)
    }

    fn symbols(&self) -> (r: (Symbol, Symbol)) {
        (self.0.duplicate(), self.1.duplicate())
    }
}

impl SymbolPair for Out<Symbol> {
    open spec fn names(&self) -> (Seq<char>, Seq<char>) {
        (self.0@, self.1@)
    }

    fn make(a: Symbol, b: Symbol) -> (r: Self) {
        Out(a, b)
    }

    fn symbols(&self) -> (r: (Symbol, Symbol)) {
        (self.0.duplicate(), self.1.duplicate())
    }
}

impl SymbolPair for Edge<Symbol> {
    open spec fn names(&self) -> (Seq<char>, Seq<char>) {
        (self.0@, self.1@)
    }

    fn make(a: Symbol, b: Symbol) -> (r: Self) {
        Edge(a, b)
    }

    fn symbols(&self) -> (r: (Symbol, Symbol)) {
        (self.0.duplicate(), self.1.duplicate())
    }
}

impl SymbolPair for Path<Symbol> {
    open spec fn names(&self) -> (Seq<char>, Seq<char>) {
        (self.0@, self.1@)
    }

    fn make(a: Symbol, b: Symbol) -> (r: Self) {
        Path(a, b)
    }

    fn symbols(&self) -> (r: (Symbol, Symbol)) {
        (self.0.duplicate(), self.1.duplicate())
    }
}

/// The symbol texts of the facts of `v`.
pub open spec fn named_pairs<S: SymbolPair>(v: Seq<S>) -> Set<(Seq<char>, Seq<char>)> {
    Set::new(|p: (Seq<char>, Seq<char>)| exists|i: int| 0 <= i < v.len() && #[trigger] v[i].names() == p)
}

/// The symbol texts of the deadlocks of `v`.
pub open spec fn named_triples(v: Seq<Deadlock<Symbol>>) -> Set<(Seq<char>, Seq<char>, Seq<char>)> {
    Set::new(|p: (Seq<char>, Seq<char>, Seq<char>)|
        exists|i: int| 0 <= i < v.len() && (#[trigger] v[i].0)@ == p.0 && v[i].1@ == p.1 && v[i].2@ == p.2)
}

/// The input relations over symbols.
#[derive(Debug, Clone)]
pub struct ReentrantDeadlockPriors<S> {
    pub defs: Vec<Def<S>>,
    pub use_vars: Vec<UseVar<S>>,
    pub nexts: Vec<Next<S>>,
    pub wraps: Vec<Wrap<S>>,
    pub locks: Vec<Lock<S>>,
    pub releases: Vec<Release<S>>,
}

impl<S> ReentrantDeadlockPriors<S> {
    /// No facts.
    pub fn new() -> (r: Self)
        ensures
            r.defs@.len() == 0,
            r.use_vars@.len() == 0,
            r.nexts@.len() == 0,
            r.wraps@.len() == 0,
            r.locks@.len() == 0,
            r.releases@.len() == 0,
    {
        ReentrantDeadlockPriors {
            defs: Vec::new(),
            use_vars: Vec::new(),
            nexts: Vec::new(),
            wraps: Vec::new(),
            locks: Vec::new(),
            releases: Vec::new(),
        }
    }
}

/// The derived relations over symbols.
#[derive(Debug, Clone)]
pub struct ReentrantDeadlockPosts<S> {
    pub kill: Vec<Kill<S>>,
    pub in_: Vec<In<S>>,
    pub out: Vec<Out<S>>,
    pub deadlock: Vec<Deadlock<S>>,
    pub edge: Vec<Edge<S>>,
    pub path: Vec<Path<S>>,
}

impl<S> ReentrantDeadlockPosts<S> {
    /// No facts.
    pub fn new() -> (r: Self)
        ensures
            r.kill@.len() == 0,
            r.in_@.len() == 0,
            r.out@.len() == 0,
            r.deadlock@.len() == 0,
            r.edge@.len() == 0,
            r.path@.len() == 0,
    {
        ReentrantDeadlockPosts {
            kill: Vec::new(),
            in_: Vec::new(),
            out: Vec::new(),
            deadlock: Vec::new(),
            edge: Vec::new(),
            path: Vec::new(),
        }
    }
}

} // verus!
