//! The analysis with a two-column deadlock report: which acquisition is
//! reached again, and of which resource, without the first acquisition.
use vstd::prelude::*;
pub use crate::facts::{Def, UseVar, Next, Wrap, Lock, Release, Kill, In, Out, Edge, Path, Extendable, Fact};
use crate::facts::{
    Facts, ReentrantDeadlockPriors, kill_set, in_set, out_set, edge_set, path_set, deadlock_set,
    copy_facts, extend_unique, push_unique,
};
use crate::facts::Deadlock as Reentry;
use crate::alias::Symbol;
use crate::generic;
use crate::generic::{named_pairs, SymbolPair};
use crate::interner::InsertionOrderMap;
use crate::program::{decode_set, encode, extends, handles_in, lemma_decode_grows, intern_all, pair_symbols};

verus! {

/// `Deadlock(inst, resource)`: the acquisition of `resource` at `inst` is
/// reached by the flow of an earlier acquisition with no release in between.
#[derive(Debug, Clone, Copy, PartialEq, Eq, Hash, Structural)]
pub struct Deadlock(pub usize, pub usize);

impl Fact for Deadlock {
    fn same(&self, other: &Self) -> (r: bool) {
        self.0 == other.0 && self.1 == other.1
    }
}

/// `Deadlock(inst, resource) <- Lock(inst, resource), Path(_, inst)`.
pub open spec fn reentry_set(f: Facts) -> Set<Deadlock> {
    Set::new(|t: Deadlock| f.locks.contains(Lock(t.0, t.1)) && exists|a: usize| #[trigger] path_set(f).contains(Path(a, t.0)))
}

/// The six input relations.
#[derive(Clone)]
pub struct DealockPriors {
    pub defs: Vec<Def>,
    pub use_vars: Vec<UseVar>,
    pub nexts: Vec<Next>,
    pub wraps: Vec<Wrap>,
    pub locks: Vec<Lock>,
    pub releases: Vec<Release>,
}

impl View for DealockPriors {
    type V = Facts;

    open spec fn view(&self) -> Facts {
        Facts {
            defs: self.defs@.to_set(),
            use_vars: self.use_vars@.to_set(),
            nexts: self.nexts@.to_set(),
            wraps: self.wraps@.to_set(),
            locks: self.locks@.to_set(),
            releases: self.releases@.to_set(),
        }
    }
}

impl DealockPriors {
    /// An empty fact store.
    pub fn new() -> (r: Self)
        ensures
            r@ == (Facts {
                defs: Set::empty(),
                use_vars: Set::empty(),
                nexts: Set::empty(),
                wraps: Set::empty(),
                locks: Set::empty(),
                releases: Set::empty(),
            }),
            r.defs@.len() == 0,
            r.use_vars@.len() == 0,
            r.nexts@.len() == 0,
            r.wraps@.len() == 0,
            r.locks@.len() == 0,
            r.releases@.len() == 0,
    {
        let r = DealockPriors {
            defs: Vec::new(),
            use_vars: Vec::new(),
            nexts: Vec::new(),
            wraps: Vec::new(),
            locks: Vec::new(),
            releases: Vec::new(),
        };
        proof {
            assert(r.defs@.to_set() =~= Set::empty());
            assert(r.use_vars@.to_set() =~= Set::empty());
            assert(r.nexts@.to_set() =~= Set::empty());
            assert(r.wraps@.to_set() =~= Set::empty());
            assert(r.locks@.to_set() =~= Set::empty());
            assert(r.releases@.to_set() =~= Set::empty());
        }
        r
    }

    /// Every derived relation, each fact once: `Kill`, `In`, `Out`, the
    /// two-column `Deadlock`, `Edge` and `Path`.
    pub fn compute_facts(&self) -> (r: (Vec<Kill>, Vec<In>, Vec<Out>, Vec<Deadlock>, Vec<Edge>, Vec<Path>))
        ensures
            r.0@.to_set() == kill_set(self@),
            r.1@.to_set() == in_set(self@),
            r.2@.to_set() == out_set(self@),
            r.3@.to_set() == reentry_set(self@),
            r.4@.to_set() == edge_set(self@),
            r.5@.to_set() == path_set(self@),
            r.0@.no_duplicates(),
            r.1@.no_duplicates(),
            r.2@.no_duplicates(),
            r.3@.no_duplicates(),
            r.4@.no_duplicates(),
            r.5@.no_duplicates(),
    {
        let store = ReentrantDeadlockPriors {
            defs: copy_facts(&self.defs),
            use_vars: copy_facts(&self.use_vars),
            nexts: copy_facts(&self.nexts),
            wraps: copy_facts(&self.wraps),
            locks: copy_facts(&self.locks),
            releases: copy_facts(&self.releases),
        };
        assert(store@ == self@);
        let posts = store.compute();
        let mut reentries: Vec<Deadlock> = Vec::new();
        let mut i: usize = 0;
        while i < posts.deadlock.len()
            invariant
                i <= posts.deadlock@.len(),
                posts.deadlock@.to_set() == deadlock_set(self@),
                reentries@.no_duplicates(),
                forall|t: Deadlock| #[trigger] reentries@.contains(t) <==>
                    exists|j: int| 0 <= j < i && (#[trigger] posts.deadlock@[j]).2 == t.0 && posts.deadlock@[j].1 == t.1,
            decreases posts.deadlock@.len() - i,
        {
            let d = posts.deadlock[i];
            let ghost before = reentries@;
            push_unique(&mut reentries, Deadlock(d.2, d.1));
            proof {
                assert(reentries@.to_set().contains(Deadlock(d.2, d.1)));
                assert forall|t: Deadlock| #[trigger] reentries@.contains(t) <==>
                    exists|j: int| 0 <= j < i + 1 && (#[trigger] posts.deadlock@[j]).2 == t.0 && posts.deadlock@[j].1 == t.1 by {
                    assert(reentries@.to_set().contains(t) == before.to_set().insert(Deadlock(d.2, d.1)).contains(t));
                    if t == Deadlock(d.2, d.1) {
                        assert(posts.deadlock@[i as int] == d);
                    }
                    if exists|j: int| 0 <= j < i + 1 && (#[trigger] posts.deadlock@[j]).2 == t.0 && posts.deadlock@[j].1 == t.1 {
                        let j = choose|j: int| 0 <= j < i + 1 && (#[trigger] posts.deadlock@[j]).2 == t.0 && posts.deadlock@[j].1 == t.1;
                        if j < i {
                            assert(before.contains(t));
                        }
                    }
                }
            }
            i = i + 1;
        }
        proof {
            assert forall|t: Deadlock| #[trigger] reentries@.to_set().contains(t) <==> reentry_set(self@).contains(t) by {
                if reentries@.contains(t) {
                    let j = choose|j: int| 0 <= j < i && (#[trigger] posts.deadlock@[j]).2 == t.0 && posts.deadlock@[j].1 == t.1;
                    let d = posts.deadlock@[j];
                    assert(posts.deadlock@.contains(d));
                    assert(deadlock_set(self@).contains(d));
                    assert(path_set(self@).contains(Path(d.0, t.0)));
                }
                if reentry_set(self@).contains(t) {
                    let a = choose|a: usize| #[trigger] path_set(self@).contains(Path(a, t.0));
                    let d = Reentry(a, t.1, t.0);
                    assert(deadlock_set(self@).contains(d));
                    assert(posts.deadlock@.contains(d));
                    let j = choose|j: int| 0 <= j < posts.deadlock@.len() && posts.deadlock@[j] == d;
                    assert(posts.deadlock@[j].2 == t.0 && posts.deadlock@[j].1 == t.1);
                }
            }
            assert(reentries@.to_set() =~= reentry_set(self@));
        }
        (posts.kill, posts.in_, posts.out, reentries, posts.edge, posts.path)
    }

    /// The two-column `Deadlock` relation alone.
    pub fn compute_reentrant_deadlocks(&self) -> (r: Vec<Deadlock>)
        ensures
            r@.to_set() == reentry_set(self@),
            r@.no_duplicates(),
    {
        let (_kill, _in, _out, deadlock, _edge, _path) = self.compute_facts();
        deadlock
    }
}

impl Extendable<Def> for DealockPriors {
    open spec fn can_extend(&self, count: nat) -> bool {
        true
    }

    fn extend(&mut self, values: Vec<Def>)
        ensures
            final(self)@.defs == old(self)@.defs + values@.to_set(),
            old(self).defs@.no_duplicates() ==> final(self).defs@.no_duplicates(),
            final(self).use_vars == old(self).use_vars,
            final(self).nexts == old(self).nexts,
            final(self).wraps == old(self).wraps,
            final(self).locks == old(self).locks,
            final(self).releases == old(self).releases,
    {
        extend_unique(&mut self.defs, values);
    }
}

impl Extendable<UseVar> for DealockPriors {
    open spec fn can_extend(&self, count: nat) -> bool {
        true
    }

    fn extend(&mut self, values: Vec<UseVar>)
        ensures
            final(self)@.use_vars == old(self)@.use_vars + values@.to_set(),
            old(self).use_vars@.no_duplicates() ==> final(self).use_vars@.no_duplicates(),
            final(self).defs == old(self).defs,
            final(self).nexts == old(self).nexts,
            final(self).wraps == old(self).wraps,
            final(self).locks == old(self).locks,
            final(self).releases == old(self).releases,
    {
        extend_unique(&mut self.use_vars, values);
    }
}

impl Extendable<Next> for DealockPriors {
    open spec fn can_extend(&self, count: nat) -> bool {
        true
    }

    fn extend(&mut self, values: Vec<Next>)
        ensures
            final(self)@.nexts == old(self)@.nexts + values@.to_set(),
            old(self).nexts@.no_duplicates() ==> final(self).nexts@.no_duplicates(),
            final(self).defs == old(self).defs,
            final(self).use_vars == old(self).use_vars,
            final(self).wraps == old(self).wraps,
            final(self).locks == old(self).locks,
            final(self).releases == old(self).releases,
    {
        extend_unique(&mut self.nexts, values);
    }
}

impl Extendable<Wrap> for DealockPriors {
    open spec fn can_extend(&self, count: nat) -> bool {
        true
    }

    fn extend(&mut self, values: Vec<Wrap>)
        ensures
            final(self)@.wraps == old(self)@.wraps + values@.to_set(),
            old(self).wraps@.no_duplicates() ==> final(self).wraps@.no_duplicates(),
            final(self).defs == old(self).defs,
            final(self).use_vars == old(self).use_vars,
            final(self).nexts == old(self).nexts,
            final(self).locks == old(self).locks,
            final(self).releases == old(self).releases,
    {
        extend_unique(&mut self.wraps, values);
    }
}

impl Extendable<Lock> for DealockPriors {
    open spec fn can_extend(&self, count: nat) -> bool {
        true
    }

    fn extend(&mut self, values: Vec<Lock>)
        ensures
            final(self)@.locks == old(self)@.locks + values@.to_set(),
            old(self).locks@.no_duplicates() ==> final(self).locks@.no_duplicates(),
            final(self).defs == old(self).defs,
            final(self).use_vars == old(self).use_vars,
            final(self).nexts == old(self).nexts,
            final(self).wraps == old(self).wraps,
            final(self).releases == old(self).releases,
    {
        extend_unique(&mut self.locks, values);
    }
}

impl Extendable<Release> for DealockPriors {
    open spec fn can_extend(&self, count: nat) -> bool {
        true
    }

    fn extend(&mut self, values: Vec<Release>)
        ensures
            final(self)@.releases == old(self)@.releases + values@.to_set(),
            old(self).releases@.no_duplicates() ==> final(self).releases@.no_duplicates(),
            final(self).defs == old(self).defs,
            final(self).use_vars == old(self).use_vars,
            final(self).nexts == old(self).nexts,
            final(self).wraps == old(self).wraps,
            final(self).locks == old(self).locks,
    {
        extend_unique(&mut self.releases, values);
    }
}

/// The analysis over symbols, with the two-column deadlock report.
pub struct ReentrantDeadlockDetector {
    symbol_mapping: InsertionOrderMap,
    facts: DealockPriors,
}

impl ReentrantDeadlockDetector {
    /// The symbols seen, in the order of their handles.
    pub closed spec fn names(&self) -> Seq<Seq<char>> {
        self.symbol_mapping@
    }

    /// The facts held, over handles.
    pub closed spec fn store(&self) -> Facts {
        self.facts@
    }

    /// The fact store, over handles.
    pub fn priors(&self) -> (r: &DealockPriors)
        ensures
            r@ == self.store(),
    {
        &self.facts
    }

    /// Every handle in the store was given out by the interner.
    pub closed spec fn wf(&self) -> bool {
        &&& self.symbol_mapping.wf()
        &&& handles_in(self.facts.defs@, self.symbol_mapping@.len())
        &&& handles_in(self.facts.use_vars@, self.symbol_mapping@.len())
        &&& handles_in(self.facts.nexts@, self.symbol_mapping@.len())
        &&& handles_in(self.facts.wraps@, self.symbol_mapping@.len())
        &&& handles_in(self.facts.locks@, self.symbol_mapping@.len())
        &&& handles_in(self.facts.releases@, self.symbol_mapping@.len())
    }

    /// A detector with no facts.
    pub fn new() -> (r: Self)
        ensures
            r.wf(),
            r.names() == Seq::<Seq<char>>::empty(),
            r.store() == (Facts {
                defs: Set::empty(),
                use_vars: Set::empty(),
                nexts: Set::empty(),
                wraps: Set::empty(),
                locks: Set::empty(),
                releases: Set::empty(),
            }),
    {
        ReentrantDeadlockDetector { symbol_mapping: InsertionOrderMap::new(), facts: DealockPriors::new() }
    }

    /// Records that `var` is assigned at `inst`.
    pub fn add_def(&mut self, var: Symbol, inst: Symbol)
        requires
            old(self).wf(),
            old(self).names().len() + 2 < usize::MAX,
        ensures
            final(self).wf(),
            extends(final(self).names(), old(self).names()),
            final(self).names().len() <= old(self).names().len() + 2,
            decode_set(final(self).names(), final(self).store().defs)
                == decode_set(old(self).names(), old(self).store().defs).insert((var@, inst@)),
            final(self).names() == intern_all(old(self).names(), seq![var@, inst@]),
            decode_set(final(self).names(), final(self).store().use_vars) == decode_set(old(self).names(), old(self).store().use_vars),
            decode_set(final(self).names(), final(self).store().nexts) == decode_set(old(self).names(), old(self).store().nexts),
            decode_set(final(self).names(), final(self).store().wraps) == decode_set(old(self).names(), old(self).store().wraps),
            decode_set(final(self).names(), final(self).store().locks) == decode_set(old(self).names(), old(self).store().locks),
            decode_set(final(self).names(), final(self).store().releases) == decode_set(old(self).names(), old(self).store().releases),
    {
        let ghost names0 = self.symbol_mapping@;
        let ghost pair = (var@, inst@);
        let values = vec![generic::Def(var, inst)];
        proof {
            assert(named_pairs(values@) =~= set![pair]) by {
                assert(values@[0].names() == pair);
            }
            assert(values@.drop_last().len() == 0);
            assert(pair_symbols(values@.drop_last()) =~= Seq::<Seq<char>>::empty());
            assert(values@.last().names() == pair);
            assert(pair_symbols(values@) =~= seq![pair.0, pair.1]);
        }
        encode(&mut self.symbol_mapping, &mut self.facts.defs, &values);
        proof {
            assert(decode_set(names0, old(self).store().defs) + set![pair]
                =~= decode_set(names0, old(self).store().defs).insert(pair));
            lemma_decode_grows(names0, self.symbol_mapping@, self.facts@.use_vars);
            lemma_decode_grows(names0, self.symbol_mapping@, self.facts@.nexts);
            lemma_decode_grows(names0, self.symbol_mapping@, self.facts@.wraps);
            lemma_decode_grows(names0, self.symbol_mapping@, self.facts@.locks);
            lemma_decode_grows(names0, self.symbol_mapping@, self.facts@.releases);
        }
    }

    /// Records that `var` is read at `inst`.
    pub fn add_use_var(&mut self, var: Symbol, inst: Symbol)
        requires
            old(self).wf(),
            old(self).names().len() + 2 < usize::MAX,
        ensures
            final(self).wf(),
            extends(final(self).names(), old(self).names()),
            final(self).names().len() <= old(self).names().len() + 2,
            decode_set(final(self).names(), final(self).store().use_vars)
                == decode_set(old(self).names(), old(self).store().use_vars).insert((var@, inst@)),
            final(self).names() == intern_all(old(self).names(), seq![var@, inst@]),
            decode_set(final(self).names(), final(self).store().defs) == decode_set(old(self).names(), old(self).store().defs),
            decode_set(final(self).names(), final(self).store().nexts) == decode_set(old(self).names(), old(self).store().nexts),
            decode_set(final(self).names(), final(self).store().wraps) == decode_set(old(self).names(), old(self).store().wraps),
            decode_set(final(self).names(), final(self).store().locks) == decode_set(old(self).names(), old(self).store().locks),
            decode_set(final(self).names(), final(self).store().releases) == decode_set(old(self).names(), old(self).store().releases),
    {
        let ghost names0 = self.symbol_mapping@;
        let ghost pair = (var@, inst@);
        let values = vec![generic::UseVar(var, inst)];
        proof {
            assert(named_pairs(values@) =~= set![pair]) by {
                assert(values@[0].names() == pair);
            }
            assert(values@.drop_last().len() == 0);
            assert(pair_symbols(values@.drop_last()) =~= Seq::<Seq<char>>::empty());
            assert(values@.last().names() == pair);
            assert(pair_symbols(values@) =~= seq![pair.0, pair.1]);
        }
        encode(&mut self.symbol_mapping, &mut self.facts.use_vars, &values);
        proof {
            assert(decode_set(names0, old(self).store().use_vars) + set![pair]
                =~= decode_set(names0, old(self).store().use_vars).insert(pair));
            lemma_decode_grows(names0, self.symbol_mapping@, self.facts@.defs);
            lemma_decode_grows(names0, self.symbol_mapping@, self.facts@.nexts);
            lemma_decode_grows(names0, self.symbol_mapping@, self.facts@.wraps);
            lemma_decode_grows(names0, self.symbol_mapping@, self.facts@.locks);
            lemma_decode_grows(names0, self.symbol_mapping@, self.facts@.releases);
        }
    }

    /// Records that control flows from `prev` directly to `next`.
    pub fn add_next(&mut self, prev: Symbol, next: Symbol)
        requires
            old(self).wf(),
            old(self).names().len() + 2 < usize::MAX,
        ensures
            final(self).wf(),
            extends(final(self).names(), old(self).names()),
            final(self).names().len() <= old(self).names().len() + 2,
            decode_set(final(self).names(), final(self).store().nexts)
                == decode_set(old(self).names(), old(self).store().nexts).insert((prev@, next@)),
            final(self).names() == intern_all(old(self).names(), seq![prev@, next@]),
            decode_set(final(self).names(), final(self).store().defs) == decode_set(old(self).names(), old(self).store().defs),
            decode_set(final(self).names(), final(self).store().use_vars) == decode_set(old(self).names(), old(self).store().use_vars),
            decode_set(final(self).names(), final(self).store().wraps) == decode_set(old(self).names(), old(self).store().wraps),
            decode_set(final(self).names(), final(self).store().locks) == decode_set(old(self).names(), old(self).store().locks),
            decode_set(final(self).names(), final(self).store().releases) == decode_set(old(self).names(), old(self).store().releases),
    {
        let ghost names0 = self.symbol_mapping@;
        let ghost pair = (prev@, next@);
        let values = vec![generic::Next(prev, next)];
        proof {
            assert(named_pairs(values@) =~= set![pair]) by {
                assert(values@[0].names() == pair);
            }
            assert(values@.drop_last().len() == 0);
            assert(pair_symbols(values@.drop_last()) =~= Seq::<Seq<char>>::empty());
            assert(values@.last().names() == pair);
            assert(pair_symbols(values@) =~= seq![pair.0, pair.1]);
        }
        encode(&mut self.symbol_mapping, &mut self.facts.nexts, &values);
        proof {
            assert(decode_set(names0, old(self).store().nexts) + set![pair]
                =~= decode_set(names0, old(self).store().nexts).insert(pair));
            lemma_decode_grows(names0, self.symbol_mapping@, self.facts@.defs);
            lemma_decode_grows(names0, self.symbol_mapping@, self.facts@.use_vars);
            lemma_decode_grows(names0, self.symbol_mapping@, self.facts@.wraps);
            lemma_decode_grows(names0, self.symbol_mapping@, self.facts@.locks);
            lemma_decode_grows(names0, self.symbol_mapping@, self.facts@.releases);
        }
    }

    /// Records that `outer` wraps `inner`.
    pub fn add_wrap(&mut self, outer: Symbol, inner: Symbol)
        requires
            old(self).wf(),
            old(self).names().len() + 2 < usize::MAX,
        ensures
            final(self).wf(),
            extends(final(self).names(), old(self).names()),
            final(self).names().len() <= old(self).names().len() + 2,
            decode_set(final(self).names(), final(self).store().wraps)
                == decode_set(old(self).names(), old(self).store().wraps).insert((outer@, inner@)),
            final(self).names() == intern_all(old(self).names(), seq![outer@, inner@]),
            decode_set(final(self).names(), final(self).store().defs) == decode_set(old(self).names(), old(self).store().defs),
            decode_set(final(self).names(), final(self).store().use_vars) == decode_set(old(self).names(), old(self).store().use_vars),
            decode_set(final(self).names(), final(self).store().nexts) == decode_set(old(self).names(), old(self).store().nexts),
            decode_set(final(self).names(), final(self).store().locks) == decode_set(old(self).names(), old(self).store().locks),
            decode_set(final(self).names(), final(self).store().releases) == decode_set(old(self).names(), old(self).store().releases),
    {
        let ghost names0 = self.symbol_mapping@;
        let ghost pair = (outer@, inner@);
        let values = vec![generic::Wrap(outer, inner)];
        proof {
            assert(named_pairs(values@) =~= set![pair]) by {
                assert(values@[0].names() == pair);
            }
            assert(values@.drop_last().len() == 0);
            assert(pair_symbols(values@.drop_last()) =~= Seq::<Seq<char>>::empty());
            assert(values@.last().names() == pair);
            assert(pair_symbols(values@) =~= seq![pair.0, pair.1]);
        }
        encode(&mut self.symbol_mapping, &mut self.facts.wraps, &values);
        proof {
            assert(decode_set(names0, old(self).store().wraps) + set![pair]
                =~= decode_set(names0, old(self).store().wraps).insert(pair));
            lemma_decode_grows(names0, self.symbol_mapping@, self.facts@.defs);
            lemma_decode_grows(names0, self.symbol_mapping@, self.facts@.use_vars);
            lemma_decode_grows(names0, self.symbol_mapping@, self.facts@.nexts);
            lemma_decode_grows(names0, self.symbol_mapping@, self.facts@.locks);
            lemma_decode_grows(names0, self.symbol_mapping@, self.facts@.releases);
        }
    }

    /// Records that `inst` acquires `resource`.
    pub fn add_lock(&mut self, inst: Symbol, resource: Symbol)
        requires
            old(self).wf(),
            old(self).names().len() + 2 < usize::MAX,
        ensures
            final(self).wf(),
            extends(final(self).names(), old(self).names()),
            final(self).names().len() <= old(self).names().len() + 2,
            decode_set(final(self).names(), final(self).store().locks)
                == decode_set(old(self).names(), old(self).store().locks).insert((inst@, resource@)),
            final(self).names() == intern_all(old(self).names(), seq![inst@, resource@]),
            decode_set(final(self).names(), final(self).store().defs) == decode_set(old(self).names(), old(self).store().defs),
            decode_set(final(self).names(), final(self).store().use_vars) == decode_set(old(self).names(), old(self).store().use_vars),
            decode_set(final(self).names(), final(self).store().nexts) == decode_set(old(self).names(), old(self).store().nexts),
            decode_set(final(self).names(), final(self).store().wraps) == decode_set(old(self).names(), old(self).store().wraps),
            decode_set(final(self).names(), final(self).store().releases) == decode_set(old(self).names(), old(self).store().releases),
    {
        let ghost names0 = self.symbol_mapping@;
        let ghost pair = (inst@, resource@);
        let values = vec![generic::Lock(inst, resource)];
        proof {
            assert(named_pairs(values@) =~= set![pair]) by {
                assert(values@[0].names() == pair);
            }
            assert(values@.drop_last().len() == 0);
            assert(pair_symbols(values@.drop_last()) =~= Seq::<Seq<char>>::empty());
            assert(values@.last().names() == pair);
            assert(pair_symbols(values@) =~= seq![pair.0, pair.1]);
        }
        encode(&mut self.symbol_mapping, &mut self.facts.locks, &values);
        proof {
            assert(decode_set(names0, old(self).store().locks) + set![pair]
                =~= decode_set(names0, old(self).store().locks).insert(pair));
            lemma_decode_grows(names0, self.symbol_mapping@, self.facts@.defs);
            lemma_decode_grows(names0, self.symbol_mapping@, self.facts@.use_vars);
            lemma_decode_grows(names0, self.symbol_mapping@, self.facts@.nexts);
            lemma_decode_grows(names0, self.symbol_mapping@, self.facts@.wraps);
            lemma_decode_grows(names0, self.symbol_mapping@, self.facts@.releases);
        }
    }

    /// Records that `inst` releases `resource`.
    pub fn add_release(&mut self, inst: Symbol, resource: Symbol)
        requires
            old(self).wf(),
            old(self).names().len() + 2 < usize::MAX,
        ensures
            final(self).wf(),
            extends(final(self).names(), old(self).names()),
            final(self).names().len() <= old(self).names().len() + 2,
            decode_set(final(self).names(), final(self).store().releases)
                == decode_set(old(self).names(), old(self).store().releases).insert((inst@, resource@)),
            final(self).names() == intern_all(old(self).names(), seq![inst@, resource@]),
            decode_set(final(self).names(), final(self).store().defs) == decode_set(old(self).names(), old(self).store().defs),
            decode_set(final(self).names(), final(self).store().use_vars) == decode_set(old(self).names(), old(self).store().use_vars),
            decode_set(final(self).names(), final(self).store().nexts) == decode_set(old(self).names(), old(self).store().nexts),
            decode_set(final(self).names(), final(self).store().wraps) == decode_set(old(self).names(), old(self).store().wraps),
            decode_set(final(self).names(), final(self).store().locks) == decode_set(old(self).names(), old(self).store().locks),
    {
        let ghost names0 = self.symbol_mapping@;
        let ghost pair = (inst@, resource@);
        let values = vec![generic::Release(inst, resource)];
        proof {
            assert(named_pairs(values@) =~= set![pair]) by {
                assert(values@[0].names() == pair);
            }
            assert(values@.drop_last().len() == 0);
            assert(pair_symbols(values@.drop_last()) =~= Seq::<Seq<char>>::empty());
            assert(values@.last().names() == pair);
            assert(pair_symbols(values@) =~= seq![pair.0, pair.1]);
        }
        encode(&mut self.symbol_mapping, &mut self.facts.releases, &values);
        proof {
            assert(decode_set(names0, old(self).store().releases) + set![pair]
                =~= decode_set(names0, old(self).store().releases).insert(pair));
            lemma_decode_grows(names0, self.symbol_mapping@, self.facts@.defs);
            lemma_decode_grows(names0, self.symbol_mapping@, self.facts@.use_vars);
            lemma_decode_grows(names0, self.symbol_mapping@, self.facts@.nexts);
            lemma_decode_grows(names0, self.symbol_mapping@, self.facts@.wraps);
            lemma_decode_grows(names0, self.symbol_mapping@, self.facts@.locks);
        }
    }
}

/// The analysis run on an empty store: with no lock there is no deadlock,
/// so this reports none.
pub fn detect_reentrant_deadlock() -> (r: bool)
    ensures
        !r,
{
    let store = DealockPriors::new();
    let found = store.compute_reentrant_deadlocks();
    proof {
        assert(reentry_set(store@) =~= Set::<Deadlock>::empty());
        if found@.len() > 0 {
            assert(found@.to_set().contains(found@[0]));
        }
    }
    found.len() > 0
}

} // verus!
