//! The front door of the analysis: facts over the caller's symbols are
//! interned to handles, evaluated, and decoded back to symbols.
use vstd::prelude::*;
use crate::alias::Symbol;
use crate::facts::{
    Binary, Extendable, Facts, ReentrantDeadlockPriors as Store, derived, derived_strict, handles_below,
    lemma_derived_handles_below, lemma_strict_handles_below,
    push_unique,
};
use crate::facts::Deadlock as HandleDeadlock;
use crate::facts;
use crate::facts::{Def, UseVar, Next, Wrap, Lock, Release};
use crate::generic;
use crate::generic::{SymbolPair, named_pairs, named_triples};
use crate::interner::InsertionOrderMap;

verus! {

/// `big` starts with `small`.
pub open spec fn extends(big: Seq<Seq<char>>, small: Seq<Seq<char>>) -> bool {
    small.len() <= big.len() && forall|i: int| 0 <= i < small.len() ==> big[i] == small[i]
}

/// `names` after interning each of `syms` in turn: a symbol not seen yet
/// is appended, so it gets the next handle.
pub open spec fn intern_all(names: Seq<Seq<char>>, syms: Seq<Seq<char>>) -> Seq<Seq<char>>
    decreases syms.len(),
{
    if syms.len() == 0 {
        names
    } else {
        let seen = intern_all(names, syms.drop_last());
        if seen.contains(syms.last()) {
            seen
        } else {
            seen.push(syms.last())
        }
    }
}

/// The symbols of the facts of `v` in order, the first column of each fact
/// before its second.
pub open spec fn pair_symbols<S: SymbolPair>(v: Seq<S>) -> Seq<Seq<char>>
    decreases v.len(),
{
    if v.len() == 0 {
        Seq::empty()
    } else {
        pair_symbols(v.drop_last()) + seq![v.last().names().0, v.last().names().1]
    }
}

/// No two facts of `v` name the same symbols.
pub open spec fn pairs_distinct<S: SymbolPair>(v: Seq<S>) -> bool {
    forall|i: int, j: int| 0 <= i < j < v.len() ==> (#[trigger] v[i]).names() != (#[trigger] v[j]).names()
}

/// No two deadlocks of `v` name the same symbols.
pub open spec fn triples_distinct(v: Seq<generic::Deadlock<Symbol>>) -> bool {
    forall|i: int, j: int| 0 <= i < j < v.len() ==>
        ((#[trigger] v[i]).0@, v[i].1@, v[i].2@) != ((#[trigger] v[j]).0@, v[j].1@, v[j].2@)
}

/// Every handle in `v` is below `n`.
pub open spec fn handles_in<N: Binary>(v: Seq<N>, n: nat) -> bool {
    forall|t: N| #[trigger] v.contains(t) ==> t.first() < n && t.second() < n
}

/// The facts of `s` with each handle replaced by the symbol text it stands for.
pub open spec fn decode_set<N: Binary>(names: Seq<Seq<char>>, s: Set<N>) -> Set<(Seq<char>, Seq<char>)> {
    Set::new(|p: (Seq<char>, Seq<char>)|
        exists|t: N| #[trigger] s.contains(t) && p == (names[t.first() as int], names[t.second() as int]))
}

/// The deadlocks of `s` with each handle replaced by the symbol text it stands for.
pub open spec fn decode_triples(names: Seq<Seq<char>>, s: Set<HandleDeadlock>) -> Set<(Seq<char>, Seq<char>, Seq<char>)> {
    Set::new(|p: (Seq<char>, Seq<char>, Seq<char>)|
        exists|t: HandleDeadlock| #[trigger] s.contains(t)
            && p == (names[t.0 as int], names[t.1 as int], names[t.2 as int]))
}

/// Decoding with a longer table that starts with the same symbols changes nothing.
pub(crate) proof fn lemma_decode_grows<N: Binary>(small: Seq<Seq<char>>, big: Seq<Seq<char>>, s: Set<N>)
    requires
        extends(big, small),
        forall|t: N| #[trigger] s.contains(t) ==> t.first() < small.len() && t.second() < small.len(),
    ensures
        decode_set(big, s) == decode_set(small, s),
{
    assert forall|p: (Seq<char>, Seq<char>)| decode_set(big, s).contains(p) <==> decode_set(small, s).contains(p) by {
        if decode_set(big, s).contains(p) {
            let t = choose|t: N| #[trigger] s.contains(t) && p == (big[t.first() as int], big[t.second() as int]);
            assert(p == (small[t.first() as int], small[t.second() as int]));
        }
        if decode_set(small, s).contains(p) {
            let t = choose|t: N| #[trigger] s.contains(t) && p == (small[t.first() as int], small[t.second() as int]);
            assert(p == (big[t.first() as int], big[t.second() as int]));
        }
    }
    assert(decode_set(big, s) =~= decode_set(small, s));
}

/// Interns the symbols of `values` and adds the facts on their handles to `store`.
pub(crate) fn encode<N: Binary, S: SymbolPair>(names: &mut InsertionOrderMap, store: &mut Vec<N>, values: &Vec<S>)
    requires
        old(names).wf(),
        handles_in(old(store)@, old(names)@.len() as nat),
        old(names)@.len() + 2 * values@.len() < usize::MAX,
    ensures
        final(names).wf(),
        extends(final(names)@, old(names)@),
        final(names)@ == intern_all(old(names)@, pair_symbols(values@)),
        final(names)@.len() <= old(names)@.len() + 2 * values@.len(),
        handles_in(final(store)@, final(names)@.len() as nat),
        decode_set(final(names)@, final(store)@.to_set())
            == decode_set(old(names)@, old(store)@.to_set()) + named_pairs(values@),
{
    let ghost names0 = names@;
    let ghost store0 = store@;
    let mut i: usize = 0;
    while i < values.len()
        invariant
            i <= values@.len(),
            names.wf(),
            extends(names@, names0),
            names@ == intern_all(names0, pair_symbols(values@.subrange(0, i as int))),
            names@.len() <= names0.len() + 2 * i,
            names0.len() + 2 * values@.len() < usize::MAX,
            handles_in(store0, names0.len() as nat),
            handles_in(store@, names@.len() as nat),
            decode_set(names@, store@.to_set()) == decode_set(names0, store0.to_set()) + named_pairs(values@.subrange(0, i as int)),
        decreases values@.len() - i,
    {
        let (a, b) = values[i].symbols();
        let ghost n0 = names@;
        let ghost s0 = store@;
        let ia = names.map(a);
        let ghost n1 = names@;
        let ib = names.map(b);
        let t = N::from_parts(ia, ib);
        push_unique(store, t);
        proof {
            let n2 = names@;
            let xs = pair_symbols(values@.subrange(0, i as int));
            let next = values@.subrange(0, i + 1);
            assert(next.drop_last() =~= values@.subrange(0, i as int));
            assert(next.last().names() == (a@, b@));
            assert(pair_symbols(next) == xs + seq![a@, b@]);
            assert((xs + seq![a@, b@]).drop_last() =~= xs + seq![a@]);
            assert((xs + seq![a@]).drop_last() =~= xs);
            assert(intern_all(names0, xs + seq![a@]) == n1);
            assert(intern_all(names0, xs + seq![a@, b@]) == n2);
            assert(extends(n2, n0));
            assert(n2[ia as int] == a@);
            assert(n2[ib as int] == b@);
            assert forall|u: N| #[trigger] s0.to_set().contains(u) implies u.first() < n0.len() && u.second() < n0.len() by {
                assert(s0.contains(u));
            }
            lemma_decode_grows(n0, n2, s0.to_set());
            assert forall|u: N| #[trigger] store@.contains(u) implies u.first() < n2.len() && u.second() < n2.len() by {
                assert(store@.to_set().contains(u));
                if u != t {
                    assert(s0.to_set().contains(u));
                }
            }
            assert(values@.subrange(0, i + 1) =~= values@.subrange(0, i as int).push(values@[i as int]));
            assert(named_pairs(values@.subrange(0, i + 1)) =~= named_pairs(values@.subrange(0, i as int)).insert((a@, b@))) by {
                let sub = values@.subrange(0, i as int);
                let next = values@.subrange(0, i + 1);
                assert(next[i as int].names() == (a@, b@));
                assert forall|p: (Seq<char>, Seq<char>)| named_pairs(next).contains(p) implies
                    named_pairs(sub).insert((a@, b@)).contains(p) by {
                    let j = choose|j: int| 0 <= j < next.len() && #[trigger] next[j].names() == p;
                    if j < i {
                        assert(sub[j].names() == p);
                    }
                }
                assert forall|p: (Seq<char>, Seq<char>)| named_pairs(sub).insert((a@, b@)).contains(p) implies
                    named_pairs(next).contains(p) by {
                    if p != (a@, b@) {
                        let j = choose|j: int| 0 <= j < sub.len() && #[trigger] sub[j].names() == p;
                        assert(next[j].names() == p);
                    }
                }
            }
            assert(decode_set(n2, store@.to_set()) =~= decode_set(n2, s0.to_set()).insert((a@, b@))) by {
                assert(store@.to_set() == s0.to_set().insert(t));
                assert forall|p: (Seq<char>, Seq<char>)| decode_set(n2, store@.to_set()).contains(p) implies
                    decode_set(n2, s0.to_set()).insert((a@, b@)).contains(p) by {
                    let u = choose|u: N| #[trigger] store@.to_set().contains(u)
                        && p == (n2[u.first() as int], n2[u.second() as int]);
                    if u != t {
                        assert(s0.to_set().contains(u));
                    }
                }
                assert(store@.to_set().contains(t));
                assert forall|p: (Seq<char>, Seq<char>)| decode_set(n2, s0.to_set()).insert((a@, b@)).contains(p) implies
                    decode_set(n2, store@.to_set()).contains(p) by {
                    if p == (a@, b@) {
                        assert(p == (n2[t.first() as int], n2[t.second() as int]));
                    } else {
                        let u = choose|u: N| #[trigger] s0.to_set().contains(u)
                            && p == (n2[u.first() as int], n2[u.second() as int]);
                        assert(store@.to_set().contains(u));
                    }
                }
            }
        }
        i = i + 1;
    }
    proof {
        assert(values@.subrange(0, i as int) =~= values@);
    }
}

/// The facts of `v` over the symbols that their handles stand for.
fn decode<N: Binary, S: SymbolPair>(names: &InsertionOrderMap, v: &Vec<N>) -> (r: Vec<S>)
    requires
        names.wf(),
        handles_in(v@, names@.len() as nat),
    ensures
        named_pairs(r@) == decode_set(names@, v@.to_set()),
        v@.no_duplicates() ==> pairs_distinct(r@),
{
    let mut r: Vec<S> = Vec::new();
    let mut i: usize = 0;
    while i < v.len()
        invariant
            i <= v@.len(),
            names.wf(),
            handles_in(v@, names@.len() as nat),
            r@.len() == i,
            forall|j: int| 0 <= j < i ==> #[trigger] r@[j].names()
                == (names@[v@[j].first() as int], names@[v@[j].second() as int]),
        decreases v@.len() - i,
    {
        let (a, b) = v[i].parts();
        assert(v@.contains(v@[i as int]));
        let sa = names.unmap(a).unwrap();
        let sb = names.unmap(b).unwrap();
        r.push(S::make(sa, sb));
        i = i + 1;
    }
    proof {
        assert forall|p: (Seq<char>, Seq<char>)| named_pairs(r@).contains(p) <==> decode_set(names@, v@.to_set()).contains(p) by {
            if named_pairs(r@).contains(p) {
                let j = choose|j: int| 0 <= j < r@.len() && #[trigger] r@[j].names() == p;
                assert(v@.to_set().contains(v@[j]));
            }
            if decode_set(names@, v@.to_set()).contains(p) {
                let t = choose|t: N| #[trigger] v@.to_set().contains(t)
                    && p == (names@[t.first() as int], names@[t.second() as int]);
                let j = choose|j: int| 0 <= j < v@.len() && v@[j] == t;
                assert(r@[j].names() == p);
            }
        }
        assert(named_pairs(r@) =~= decode_set(names@, v@.to_set()));
        names.lemma_distinct();
        if v@.no_duplicates() {
            assert forall|i: int, j: int| 0 <= i < j < r@.len() implies (#[trigger] r@[i]).names() != (#[trigger] r@[j]).names() by {
                if r@[i].names() == r@[j].names() {
                    assert(v@.contains(v@[i]) && v@.contains(v@[j]));
                    assert(v@[i].first() == v@[j].first());
                    assert(v@[i].second() == v@[j].second());
                    N::lemma_same_parts(v@[i], v@[j]);
                }
            }
        }
    }
    r
}

/// The deadlocks of `v` over the symbols that their handles stand for.
fn decode_deadlocks(names: &InsertionOrderMap, v: &Vec<HandleDeadlock>) -> (r: Vec<generic::Deadlock<Symbol>>)
    requires
        names.wf(),
        forall|t: HandleDeadlock| #[trigger] v@.contains(t) ==> t.0 < names@.len() && t.1 < names@.len() && t.2 < names@.len(),
    ensures
        named_triples(r@) == decode_triples(names@, v@.to_set()),
        v@.no_duplicates() ==> triples_distinct(r@),
{
    let mut r: Vec<generic::Deadlock<Symbol>> = Vec::new();
    let mut i: usize = 0;
    while i < v.len()
        invariant
            i <= v@.len(),
            names.wf(),
            forall|t: HandleDeadlock| #[trigger] v@.contains(t) ==> t.0 < names@.len() && t.1 < names@.len() && t.2 < names@.len(),
            r@.len() == i,
            forall|j: int| 0 <= j < i ==> (#[trigger] r@[j]).0@ == names@[v@[j].0 as int]
                && r@[j].1@ == names@[v@[j].1 as int] && r@[j].2@ == names@[v@[j].2 as int],
        decreases v@.len() - i,
    {
        let t = v[i];
        assert(v@.contains(v@[i as int]));
        let sa = names.unmap(t.0).unwrap();
        let sb = names.unmap(t.1).unwrap();
        let sc = names.unmap(t.2).unwrap();
        r.push(generic::Deadlock(sa, sb, sc));
        i = i + 1;
    }
    proof {
        assert forall|p: (Seq<char>, Seq<char>, Seq<char>)| named_triples(r@).contains(p) <==> decode_triples(names@, v@.to_set()).contains(p) by {
            if named_triples(r@).contains(p) {
                let j = choose|j: int| 0 <= j < r@.len() && (#[trigger] r@[j].0)@ == p.0 && r@[j].1@ == p.1 && r@[j].2@ == p.2;
                assert(v@.to_set().contains(v@[j]));
            }
            if decode_triples(names@, v@.to_set()).contains(p) {
                let t = choose|t: HandleDeadlock| #[trigger] v@.to_set().contains(t)
                    && p == (names@[t.0 as int], names@[t.1 as int], names@[t.2 as int]);
                let j = choose|j: int| 0 <= j < v@.len() && v@[j] == t;
                assert(r@[j].0@ == p.0 && r@[j].1@ == p.1 && r@[j].2@ == p.2);
            }
        }
        assert(named_triples(r@) =~= decode_triples(names@, v@.to_set()));
        names.lemma_distinct();
        if v@.no_duplicates() {
            assert forall|i: int, j: int| 0 <= i < j < r@.len() implies
                ((#[trigger] r@[i]).0@, r@[i].1@, r@[i].2@) != ((#[trigger] r@[j]).0@, r@[j].1@, r@[j].2@) by {
                if (r@[i].0@, r@[i].1@, r@[i].2@) == (r@[j].0@, r@[j].1@, r@[j].2@) {
                    assert(v@.contains(v@[i]) && v@.contains(v@[j]));
                    assert(v@[i] == v@[j]);
                }
            }
        }
    }
    r
}

/// An analysis over symbols: an interner and a fact store on its handles.
pub struct Program {
    symbol_mapping: InsertionOrderMap,
    priors: Store,
}

impl Program {
    /// The symbols seen, in the order of their handles.
    pub closed spec fn names(&self) -> Seq<Seq<char>> {
        self.symbol_mapping@
    }

    /// The facts held, over handles.
    pub closed spec fn facts(&self) -> Facts {
        self.priors@
    }

    /// Every handle in the store was given out by the interner.
    pub closed spec fn wf(&self) -> bool {
        &&& self.symbol_mapping.wf()
        &&& handles_in(self.priors.defs@, self.symbol_mapping@.len())
        &&& handles_in(self.priors.use_vars@, self.symbol_mapping@.len())
        &&& handles_in(self.priors.nexts@, self.symbol_mapping@.len())
        &&& handles_in(self.priors.wraps@, self.symbol_mapping@.len())
        &&& handles_in(self.priors.locks@, self.symbol_mapping@.len())
        &&& handles_in(self.priors.releases@, self.symbol_mapping@.len())
    }

    /// An analysis with no facts.
    pub fn new() -> (r: Self)
        ensures
            r.wf(),
            r.names() == Seq::<Seq<char>>::empty(),
            r.facts() == (Facts {
                defs: Set::empty(),
                use_vars: Set::empty(),
                nexts: Set::empty(),
                wraps: Set::empty(),
                locks: Set::empty(),
                releases: Set::empty(),
            }),
    {
        let r = Program { symbol_mapping: InsertionOrderMap::new(), priors: Store::new() };
        r
    }

    /// The number of symbols seen.
    pub fn symbol_count(&self) -> (r: usize)
        requires
            self.wf(),
        ensures
            r == self.names().len(),
    {
        self.symbol_mapping.len()
    }

    /// The input facts held, over symbols.
    pub fn priors(&self) -> (r: generic::ReentrantDeadlockPriors<Symbol>)
        requires
            self.wf(),
        ensures
            named_pairs(r.defs@) == decode_set(self.names(), self.facts().defs),
            named_pairs(r.use_vars@) == decode_set(self.names(), self.facts().use_vars),
            named_pairs(r.nexts@) == decode_set(self.names(), self.facts().nexts),
            named_pairs(r.wraps@) == decode_set(self.names(), self.facts().wraps),
            named_pairs(r.locks@) == decode_set(self.names(), self.facts().locks),
            named_pairs(r.releases@) == decode_set(self.names(), self.facts().releases),
    {
        generic::ReentrantDeadlockPriors {
            defs: decode(&self.symbol_mapping, &self.priors.defs),
            use_vars: decode(&self.symbol_mapping, &self.priors.use_vars),
            nexts: decode(&self.symbol_mapping, &self.priors.nexts),
            wraps: decode(&self.symbol_mapping, &self.priors.wraps),
            locks: decode(&self.symbol_mapping, &self.priors.locks),
            releases: decode(&self.symbol_mapping, &self.priors.releases),
        }
    }

    /// The facts of `inner`, each listed once over handles, as facts over symbols.
    fn decode_posts(&self, inner: &facts::ReentrantDeadlockPosts) -> (r: generic::ReentrantDeadlockPosts<Symbol>)
        requires
            self.wf(),
            inner.distinct(),
            forall|t: facts::Kill| #[trigger] inner@.kill.contains(t) ==> t.0 < self.names().len() && t.1 < self.names().len(),
            forall|t: facts::In| #[trigger] inner@.in_.contains(t) ==> t.0 < self.names().len() && t.1 < self.names().len(),
            forall|t: facts::Out| #[trigger] inner@.out.contains(t) ==> t.0 < self.names().len() && t.1 < self.names().len(),
            forall|t: facts::Edge| #[trigger] inner@.edge.contains(t) ==> t.0 < self.names().len() && t.1 < self.names().len(),
            forall|t: facts::Path| #[trigger] inner@.path.contains(t) ==> t.0 < self.names().len() && t.1 < self.names().len(),
            forall|t: HandleDeadlock| #[trigger] inner@.deadlock.contains(t) ==>
                t.0 < self.names().len() && t.1 < self.names().len() && t.2 < self.names().len(),
        ensures
            named_pairs(r.kill@) == decode_set(self.names(), inner@.kill),
            pairs_distinct(r.kill@),
            named_pairs(r.in_@) == decode_set(self.names(), inner@.in_),
            pairs_distinct(r.in_@),
            named_pairs(r.out@) == decode_set(self.names(), inner@.out),
            pairs_distinct(r.out@),
            named_pairs(r.edge@) == decode_set(self.names(), inner@.edge),
            pairs_distinct(r.edge@),
            named_pairs(r.path@) == decode_set(self.names(), inner@.path),
            pairs_distinct(r.path@),
            named_triples(r.deadlock@) == decode_triples(self.names(), inner@.deadlock),
            triples_distinct(r.deadlock@),
    {
        proof {
            let n = self.symbol_mapping@.len();
            assert forall|t: facts::Kill| #[trigger] inner.kill@.contains(t) implies t.0 < n && t.1 < n by {
                assert(inner@.kill.contains(t));
            }
            assert forall|t: facts::In| #[trigger] inner.in_@.contains(t) implies t.0 < n && t.1 < n by {
                assert(inner@.in_.contains(t));
            }
            assert forall|t: facts::Out| #[trigger] inner.out@.contains(t) implies t.0 < n && t.1 < n by {
                assert(inner@.out.contains(t));
            }
            assert forall|t: facts::Edge| #[trigger] inner.edge@.contains(t) implies t.0 < n && t.1 < n by {
                assert(inner@.edge.contains(t));
            }
            assert forall|t: facts::Path| #[trigger] inner.path@.contains(t) implies t.0 < n && t.1 < n by {
                assert(inner@.path.contains(t));
            }
            assert forall|t: HandleDeadlock| #[trigger] inner.deadlock@.contains(t) implies t.0 < n && t.1 < n && t.2 < n by {
                assert(inner@.deadlock.contains(t));
            }
        }
        generic::ReentrantDeadlockPosts {
            kill: decode(&self.symbol_mapping, &inner.kill),
            in_: decode(&self.symbol_mapping, &inner.in_),
            out: decode(&self.symbol_mapping, &inner.out),
            edge: decode(&self.symbol_mapping, &inner.edge),
            path: decode(&self.symbol_mapping, &inner.path),
            deadlock: decode_deadlocks(&self.symbol_mapping, &inner.deadlock),
        }
    }

    /// The handles of the facts held are below the number of symbols seen.
    proof fn lemma_handles_below(&self)
        requires
            self.wf(),
        ensures
            handles_below(self.facts(), self.names().len()),
    {
        let n = self.symbol_mapping@.len();
            assert forall|t: Def| #[trigger] self.priors@.defs.contains(t) implies t.0 < n && t.1 < n by {
                assert(self.priors.defs@.contains(t));
            }
            assert forall|t: UseVar| #[trigger] self.priors@.use_vars.contains(t) implies t.0 < n && t.1 < n by {
                assert(self.priors.use_vars@.contains(t));
            }
            assert forall|t: Next| #[trigger] self.priors@.nexts.contains(t) implies t.0 < n && t.1 < n by {
                assert(self.priors.nexts@.contains(t));
            }
            assert forall|t: Wrap| #[trigger] self.priors@.wraps.contains(t) implies t.0 < n && t.1 < n by {
                assert(self.priors.wraps@.contains(t));
            }
            assert forall|t: Lock| #[trigger] self.priors@.locks.contains(t) implies t.0 < n && t.1 < n by {
                assert(self.priors.locks@.contains(t));
            }
            assert forall|t: Release| #[trigger] self.priors@.releases.contains(t) implies t.0 < n && t.1 < n by {
                assert(self.priors.releases@.contains(t));
            }
    }

    /// Evaluates the rules over the facts held and gives every derived
    /// relation over symbols, each fact once.
    pub fn compute(&self) -> (r: generic::ReentrantDeadlockPosts<Symbol>)
        requires
            self.wf(),
        ensures
            named_pairs(r.kill@) == decode_set(self.names(), derived(self.facts()).kill),
            pairs_distinct(r.kill@),
            named_pairs(r.in_@) == decode_set(self.names(), derived(self.facts()).in_),
            pairs_distinct(r.in_@),
            named_pairs(r.out@) == decode_set(self.names(), derived(self.facts()).out),
            pairs_distinct(r.out@),
            named_pairs(r.edge@) == decode_set(self.names(), derived(self.facts()).edge),
            pairs_distinct(r.edge@),
            named_pairs(r.path@) == decode_set(self.names(), derived(self.facts()).path),
            pairs_distinct(r.path@),
            named_triples(r.deadlock@) == decode_triples(self.names(), derived(self.facts()).deadlock),
            triples_distinct(r.deadlock@),
    {
        let inner = self.priors.compute();
        proof {
            self.lemma_handles_below();
            lemma_derived_handles_below(self.priors@, self.symbol_mapping@.len());
        }
        self.decode_posts(&inner)
    }

    /// Like [`Self::compute`], in the strict mode: a path follows one
    /// resource, is stopped only by releases of that resource, and reports
    /// only a later acquisition of it.
    pub fn compute_strict(&self) -> (r: generic::ReentrantDeadlockPosts<Symbol>)
        requires
            self.wf(),
        ensures
            named_pairs(r.kill@) == decode_set(self.names(), derived_strict(self.facts()).kill),
            pairs_distinct(r.kill@),
            named_pairs(r.in_@) == decode_set(self.names(), derived_strict(self.facts()).in_),
            pairs_distinct(r.in_@),
            named_pairs(r.out@) == decode_set(self.names(), derived_strict(self.facts()).out),
            pairs_distinct(r.out@),
            named_pairs(r.edge@) == decode_set(self.names(), derived_strict(self.facts()).edge),
            pairs_distinct(r.edge@),
            named_pairs(r.path@) == decode_set(self.names(), derived_strict(self.facts()).path),
            pairs_distinct(r.path@),
            named_triples(r.deadlock@) == decode_triples(self.names(), derived_strict(self.facts()).deadlock),
            triples_distinct(r.deadlock@),
    {
        let inner = self.priors.compute_strict();
        proof {
            self.lemma_handles_below();
            lemma_derived_handles_below(self.priors@, self.symbol_mapping@.len());
            lemma_strict_handles_below(self.priors@, self.symbol_mapping@.len());
            assert forall|t: facts::Kill| #[trigger] inner@.kill.contains(t) implies t.0 < self.names().len() && t.1 < self.names().len() by {
                assert(derived(self.priors@).kill.contains(t));
            }
            assert forall|t: facts::In| #[trigger] inner@.in_.contains(t) implies t.0 < self.names().len() && t.1 < self.names().len() by {
                assert(derived(self.priors@).in_.contains(t));
            }
            assert forall|t: facts::Out| #[trigger] inner@.out.contains(t) implies t.0 < self.names().len() && t.1 < self.names().len() by {
                assert(derived(self.priors@).out.contains(t));
            }
            assert forall|t: facts::Edge| #[trigger] inner@.edge.contains(t) implies t.0 < self.names().len() && t.1 < self.names().len() by {
                assert(derived(self.priors@).edge.contains(t));
            }
        }
        self.decode_posts(&inner)
    }
}

impl Extendable<generic::Def<Symbol>> for Program {
    open spec fn can_extend(&self, count: nat) -> bool {
        self.wf() && self.names().len() + 2 * count < usize::MAX
    }

    fn extend(&mut self, values: Vec<generic::Def<Symbol>>)
        ensures
            final(self).wf(),
            final(self).names().len() <= old(self).names().len() + 2 * values@.len(),
            extends(final(self).names(), old(self).names()),
            final(self).names() == intern_all(old(self).names(), pair_symbols(values@)),
            decode_set(final(self).names(), final(self).facts().defs)
                == decode_set(old(self).names(), old(self).facts().defs) + named_pairs(values@),
            decode_set(final(self).names(), final(self).facts().use_vars) == decode_set(old(self).names(), old(self).facts().use_vars),
            decode_set(final(self).names(), final(self).facts().nexts) == decode_set(old(self).names(), old(self).facts().nexts),
            decode_set(final(self).names(), final(self).facts().wraps) == decode_set(old(self).names(), old(self).facts().wraps),
            decode_set(final(self).names(), final(self).facts().locks) == decode_set(old(self).names(), old(self).facts().locks),
            decode_set(final(self).names(), final(self).facts().releases) == decode_set(old(self).names(), old(self).facts().releases),
    {
        let ghost names0 = self.symbol_mapping@;
        encode(&mut self.symbol_mapping, &mut self.priors.defs, &values);
        proof {
            lemma_decode_grows(names0, self.symbol_mapping@, self.priors@.use_vars);
            lemma_decode_grows(names0, self.symbol_mapping@, self.priors@.nexts);
            lemma_decode_grows(names0, self.symbol_mapping@, self.priors@.wraps);
            lemma_decode_grows(names0, self.symbol_mapping@, self.priors@.locks);
            lemma_decode_grows(names0, self.symbol_mapping@, self.priors@.releases);
        }
    }
}

impl Extendable<generic::UseVar<Symbol>> for Program {
    open spec fn can_extend(&self, count: nat) -> bool {
        self.wf() && self.names().len() + 2 * count < usize::MAX
    }

    fn extend(&mut self, values: Vec<generic::UseVar<Symbol>>)
        ensures
            final(self).wf(),
            final(self).names().len() <= old(self).names().len() + 2 * values@.len(),
            extends(final(self).names(), old(self).names()),
            final(self).names() == intern_all(old(self).names(), pair_symbols(values@)),
            decode_set(final(self).names(), final(self).facts().use_vars)
                == decode_set(old(self).names(), old(self).facts().use_vars) + named_pairs(values@),
            decode_set(final(self).names(), final(self).facts().defs) == decode_set(old(self).names(), old(self).facts().defs),
            decode_set(final(self).names(), final(self).facts().nexts) == decode_set(old(self).names(), old(self).facts().nexts),
            decode_set(final(self).names(), final(self).facts().wraps) == decode_set(old(self).names(), old(self).facts().wraps),
            decode_set(final(self).names(), final(self).facts().locks) == decode_set(old(self).names(), old(self).facts().locks),
            decode_set(final(self).names(), final(self).facts().releases) == decode_set(old(self).names(), old(self).facts().releases),
    {
        let ghost names0 = self.symbol_mapping@;
        encode(&mut self.symbol_mapping, &mut self.priors.use_vars, &values);
        proof {
            lemma_decode_grows(names0, self.symbol_mapping@, self.priors@.defs);
            lemma_decode_grows(names0, self.symbol_mapping@, self.priors@.nexts);
            lemma_decode_grows(names0, self.symbol_mapping@, self.priors@.wraps);
            lemma_decode_grows(names0, self.symbol_mapping@, self.priors@.locks);
            lemma_decode_grows(names0, self.symbol_mapping@, self.priors@.releases);
        }
    }
}

impl Extendable<generic::Next<Symbol>> for Program {
    open spec fn can_extend(&self, count: nat) -> bool {
        self.wf() && self.names().len() + 2 * count < usize::MAX
    }

    fn extend(&mut self, values: Vec<generic::Next<Symbol>>)
        ensures
            final(self).wf(),
            final(self).names().len() <= old(self).names().len() + 2 * values@.len(),
            extends(final(self).names(), old(self).names()),
            final(self).names() == intern_all(old(self).names(), pair_symbols(values@)),
            decode_set(final(self).names(), final(self).facts().nexts)
                == decode_set(old(self).names(), old(self).facts().nexts) + named_pairs(values@),
            decode_set(final(self).names(), final(self).facts().defs) == decode_set(old(self).names(), old(self).facts().defs),
            decode_set(final(self).names(), final(self).facts().use_vars) == decode_set(old(self).names(), old(self).facts().use_vars),
            decode_set(final(self).names(), final(self).facts().wraps) == decode_set(old(self).names(), old(self).facts().wraps),
            decode_set(final(self).names(), final(self).facts().locks) == decode_set(old(self).names(), old(self).facts().locks),
            decode_set(final(self).names(), final(self).facts().releases) == decode_set(old(self).names(), old(self).facts().releases),
    {
        let ghost names0 = self.symbol_mapping@;
        encode(&mut self.symbol_mapping, &mut self.priors.nexts, &values);
        proof {
            lemma_decode_grows(names0, self.symbol_mapping@, self.priors@.defs);
            lemma_decode_grows(names0, self.symbol_mapping@, self.priors@.use_vars);
            lemma_decode_grows(names0, self.symbol_mapping@, self.priors@.wraps);
            lemma_decode_grows(names0, self.symbol_mapping@, self.priors@.locks);
            lemma_decode_grows(names0, self.symbol_mapping@, self.priors@.releases);
        }
    }
}

impl Extendable<generic::Wrap<Symbol>> for Program {
    open spec fn can_extend(&self, count: nat) -> bool {
        self.wf() && self.names().len() + 2 * count < usize::MAX
    }

    fn extend(&mut self, values: Vec<generic::Wrap<Symbol>>)
        ensures
            final(self).wf(),
            final(self).names().len() <= old(self).names().len() + 2 * values@.len(),
            extends(final(self).names(), old(self).names()),
            final(self).names() == intern_all(old(self).names(), pair_symbols(values@)),
            decode_set(final(self).names(), final(self).facts().wraps)
                == decode_set(old(self).names(), old(self).facts().wraps) + named_pairs(values@),
            decode_set(final(self).names(), final(self).facts().defs) == decode_set(old(self).names(), old(self).facts().defs),
            decode_set(final(self).names(), final(self).facts().use_vars) == decode_set(old(self).names(), old(self).facts().use_vars),
            decode_set(final(self).names(), final(self).facts().nexts) == decode_set(old(self).names(), old(self).facts().nexts),
            decode_set(final(self).names(), final(self).facts().locks) == decode_set(old(self).names(), old(self).facts().locks),
            decode_set(final(self).names(), final(self).facts().releases) == decode_set(old(self).names(), old(self).facts().releases),
    {
        let ghost names0 = self.symbol_mapping@;
        encode(&mut self.symbol_mapping, &mut self.priors.wraps, &values);
        proof {
            lemma_decode_grows(names0, self.symbol_mapping@, self.priors@.defs);
            lemma_decode_grows(names0, self.symbol_mapping@, self.priors@.use_vars);
            lemma_decode_grows(names0, self.symbol_mapping@, self.priors@.nexts);
            lemma_decode_grows(names0, self.symbol_mapping@, self.priors@.locks);
            lemma_decode_grows(names0, self.symbol_mapping@, self.priors@.releases);
        }
    }
}

impl Extendable<generic::Lock<Symbol>> for Program {
    open spec fn can_extend(&self, count: nat) -> bool {
        self.wf() && self.names().len() + 2 * count < usize::MAX
    }

    fn extend(&mut self, values: Vec<generic::Lock<Symbol>>)
        ensures
            final(self).wf(),
            final(self).names().len() <= old(self).names().len() + 2 * values@.len(),
            extends(final(self).names(), old(self).names()),
            final(self).names() == intern_all(old(self).names(), pair_symbols(values@)),
            decode_set(final(self).names(), final(self).facts().locks)
                == decode_set(old(self).names(), old(self).facts().locks) + named_pairs(values@),
            decode_set(final(self).names(), final(self).facts().defs) == decode_set(old(self).names(), old(self).facts().defs),
            decode_set(final(self).names(), final(self).facts().use_vars) == decode_set(old(self).names(), old(self).facts().use_vars),
            decode_set(final(self).names(), final(self).facts().nexts) == decode_set(old(self).names(), old(self).facts().nexts),
            decode_set(final(self).names(), final(self).facts().wraps) == decode_set(old(self).names(), old(self).facts().wraps),
            decode_set(final(self).names(), final(self).facts().releases) == decode_set(old(self).names(), old(self).facts().releases),
    {
        let ghost names0 = self.symbol_mapping@;
        encode(&mut self.symbol_mapping, &mut self.priors.locks, &values);
        proof {
            lemma_decode_grows(names0, self.symbol_mapping@, self.priors@.defs);
            lemma_decode_grows(names0, self.symbol_mapping@, self.priors@.use_vars);
            lemma_decode_grows(names0, self.symbol_mapping@, self.priors@.nexts);
            lemma_decode_grows(names0, self.symbol_mapping@, self.priors@.wraps);
            lemma_decode_grows(names0, self.symbol_mapping@, self.priors@.releases);
        }
    }
}

impl Extendable<generic::Release<Symbol>> for Program {
    open spec fn can_extend(&self, count: nat) -> bool {
        self.wf() && self.names().len() + 2 * count < usize::MAX
    }

    fn extend(&mut self, values: Vec<generic::Release<Symbol>>)
        ensures
            final(self).wf(),
            final(self).names().len() <= old(self).names().len() + 2 * values@.len(),
            extends(final(self).names(), old(self).names()),
            final(self).names() == intern_all(old(self).names(), pair_symbols(values@)),
            decode_set(final(self).names(), final(self).facts().releases)
                == decode_set(old(self).names(), old(self).facts().releases) + named_pairs(values@),
            decode_set(final(self).names(), final(self).facts().defs) == decode_set(old(self).names(), old(self).facts().defs),
            decode_set(final(self).names(), final(self).facts().use_vars) == decode_set(old(self).names(), old(self).facts().use_vars),
            decode_set(final(self).names(), final(self).facts().nexts) == decode_set(old(self).names(), old(self).facts().nexts),
            decode_set(final(self).names(), final(self).facts().wraps) == decode_set(old(self).names(), old(self).facts().wraps),
            decode_set(final(self).names(), final(self).facts().locks) == decode_set(old(self).names(), old(self).facts().locks),
    {
        let ghost names0 = self.symbol_mapping@;
        encode(&mut self.symbol_mapping, &mut self.priors.releases, &values);
        proof {
            lemma_decode_grows(names0, self.symbol_mapping@, self.priors@.defs);
            lemma_decode_grows(names0, self.symbol_mapping@, self.priors@.use_vars);
            lemma_decode_grows(names0, self.symbol_mapping@, self.priors@.nexts);
            lemma_decode_grows(names0, self.symbol_mapping@, self.priors@.wraps);
            lemma_decode_grows(names0, self.symbol_mapping@, self.priors@.locks);
        }
    }
}

} // verus!
