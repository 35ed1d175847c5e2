//! The decisions of the lock-detection pass: which facts and which guard
//! aliases each kind of instruction contributes.  Reading the instructions
//! themselves is left to the caller, who hands over the symbols it found.
use vstd::prelude::*;
use crate::alias::{AliasCycleError, MayAliasTable, Symbol, has_root, root_of};
use crate::callsites::{KnowAlloca, KnownCallsites};
use crate::facts::{Extendable, Facts};
use crate::generic;
use crate::generic::{named_pairs, SymbolPair};
use crate::program::{Program, decode_set, extends};

verus! {

/// Why an instruction could not be taken in.
#[derive(Debug, Clone, Copy, PartialEq, Eq, Structural)]
pub enum PassError {
    /// A lock call lacks the operand that names its lock or its guard.
    MissingOperand,
    /// The aliases of a locked or dropped value form a cycle, so it has no resource.
    AliasCycle,
}

/// The input relations of `p`, over symbol text.
pub open spec fn sym_defs(p: &Program) -> Set<(Seq<char>, Seq<char>)> {
    decode_set(p.names(), p.facts().defs)
}

/// See [`sym_defs`].
pub open spec fn sym_uses(p: &Program) -> Set<(Seq<char>, Seq<char>)> {
    decode_set(p.names(), p.facts().use_vars)
}

/// See [`sym_defs`].
pub open spec fn sym_nexts(p: &Program) -> Set<(Seq<char>, Seq<char>)> {
    decode_set(p.names(), p.facts().nexts)
}

/// See [`sym_defs`].
pub open spec fn sym_wraps(p: &Program) -> Set<(Seq<char>, Seq<char>)> {
    decode_set(p.names(), p.facts().wraps)
}

/// See [`sym_defs`].
pub open spec fn sym_locks(p: &Program) -> Set<(Seq<char>, Seq<char>)> {
    decode_set(p.names(), p.facts().locks)
}

/// See [`sym_defs`].
pub open spec fn sym_releases(p: &Program) -> Set<(Seq<char>, Seq<char>)> {
    decode_set(p.names(), p.facts().releases)
}

/// `q` holds the facts of `p` and, besides, those that the sets given add.
pub open spec fn adds(
    p: &Program,
    q: &Program,
    defs: Set<(Seq<char>, Seq<char>)>,
    uses: Set<(Seq<char>, Seq<char>)>,
    nexts: Set<(Seq<char>, Seq<char>)>,
    locks: Set<(Seq<char>, Seq<char>)>,
    releases: Set<(Seq<char>, Seq<char>)>,
) -> bool {
    &&& q.wf()
    &&& extends(q.names(), p.names())
    &&& sym_defs(q) == sym_defs(p) + defs
    &&& sym_uses(q) == sym_uses(p) + uses
    &&& sym_nexts(q) == sym_nexts(p) + nexts
    &&& sym_wraps(q) == sym_wraps(p)
    &&& sym_locks(q) == sym_locks(p) + locks
    &&& sym_releases(q) == sym_releases(p) + releases
}

/// Room for six more symbols.
pub open spec fn has_room(p: &Program) -> bool {
    p.wf() && p.names().len() + 6 < usize::MAX
}

/// The state that the pass builds while it reads a module: the analysis
/// and the guard aliases found so far.
pub struct ReentrantLockPass {
    pub program: Program,
    pub may_alias_table: MayAliasTable,
}

impl ReentrantLockPass {
    /// A pass that has read nothing.
    pub fn new() -> (r: Self)
        ensures
            r.program.wf(),
            r.program.names() == Seq::<Seq<char>>::empty(),
            r.program.facts() == (Facts {
                defs: Set::empty(),
                use_vars: Set::empty(),
                nexts: Set::empty(),
                wraps: Set::empty(),
                locks: Set::empty(),
                releases: Set::empty(),
            }),
            r.may_alias_table.wf(),
            r.may_alias_table@ == Map::<Seq<char>, Seq<char>>::empty(),
    {
        ReentrantLockPass { program: Program::new(), may_alias_table: MayAliasTable::new() }
    }

    /// Records that control flows from `pred` directly to `inst`.
    pub fn handle_predecessor(&mut self, pred: Symbol, inst: Symbol)
        requires
            has_room(&old(self).program),
        ensures
            adds(&old(self).program, &final(self).program, Set::empty(), Set::empty(),
                set![(pred@, inst@)], Set::empty(), Set::empty()),
            final(self).may_alias_table == old(self).may_alias_table,
    {
        let ghost (p, i) = (pred@, inst@);
        let values = vec![generic::Next(pred, inst)];
        assert(named_pairs(values@) =~= set![(p, i)]) by {
            assert(values@[0].names() == (p, i));
        }
        self.program.extend(values);
        proof {
            assert(Set::<(Seq<char>, Seq<char>)>::empty() + Set::empty() =~= Set::<(Seq<char>, Seq<char>)>::empty());
            assert(sym_defs(&old(self).program) + Set::empty() =~= sym_defs(&old(self).program));
            assert(sym_uses(&old(self).program) + Set::empty() =~= sym_uses(&old(self).program));
            assert(sym_locks(&old(self).program) + Set::empty() =~= sym_locks(&old(self).program));
            assert(sym_releases(&old(self).program) + Set::empty() =~= sym_releases(&old(self).program));
        }
    }

    /// An allocation of the kind `kind`.  For a mutex guard, the
    /// instruction after the allocation names the guard that a later drop
    /// uses, so that name, `guard`, becomes an alias of the allocation;
    /// other allocations add nothing.
    pub fn handle_alloca_inst(&mut self, kind: KnowAlloca, guard: Symbol, allocation: Symbol)
        requires
            old(self).may_alias_table.wf(),
        ensures
            final(self).may_alias_table.wf(),
            final(self).may_alias_table@ == if kind == KnowAlloca::MutexGuard {
                old(self).may_alias_table@.insert(guard@, allocation@)
            } else {
                old(self).may_alias_table@
            },
            final(self).program == old(self).program,
    {
        if kind == KnowAlloca::MutexGuard {
            self.may_alias_table.insert(guard, allocation);
        }
    }

    /// A call of `Mutex::lock` seen while gathering aliases: the guard it
    /// returns stands for the lock.
    pub fn handle_std_sync_mutex_lock_alias(&mut self, var: Symbol, alias: Symbol)
        requires
            old(self).may_alias_table.wf(),
        ensures
            final(self).may_alias_table.wf(),
            final(self).may_alias_table@ == old(self).may_alias_table@.insert(alias@, var@),
            final(self).program == old(self).program,
    {
        self.may_alias_table.insert(alias, var);
    }

    /// Adds `Def(var, inst)` and `UseVar(var, inst)`.
    fn define_and_use(&mut self, var: &Symbol, inst: &Symbol)
        requires
            has_room(&old(self).program),
        ensures
            adds(&old(self).program, &final(self).program, set![(var@, inst@)], set![(var@, inst@)],
                Set::empty(), Set::empty(), Set::empty()),
            final(self).program.names().len() <= old(self).program.names().len() + 4,
            final(self).may_alias_table == old(self).may_alias_table,
    {
        let ghost (v, i) = (var@, inst@);
        let defs = vec![generic::Def(var.duplicate(), inst.duplicate())];
        assert(named_pairs(defs@) =~= set![(v, i)]) by {
            assert(defs@[0].names() == (v, i));
        }
        self.program.extend(defs);
        let uses = vec![generic::UseVar(var.duplicate(), inst.duplicate())];
        assert(named_pairs(uses@) =~= set![(v, i)]) by {
            assert(uses@[0].names() == (v, i));
        }
        self.program.extend(uses);
        proof {
            let p = &old(self).program;
            assert(sym_nexts(p) + Set::empty() =~= sym_nexts(p));
            assert(sym_locks(p) + Set::empty() =~= sym_locks(p));
            assert(sym_releases(p) + Set::empty() =~= sym_releases(p));
        }
    }

    /// A call of `Mutex::lock` on `var` at `inst`: the resource that `var`
    /// stands for, found by following the aliases to their root, is defined
    /// and used there, and acquired.  Fails, and changes nothing, when the
    /// aliases of `var` form a cycle.
    pub fn handle_std_sync_mutex_lock(&mut self, var: Symbol, inst: Symbol) -> (r: Result<(), PassError>)
        requires
            has_room(&old(self).program),
            old(self).may_alias_table.wf(),
        ensures
            final(self).may_alias_table == old(self).may_alias_table,
            match r {
                Ok(()) => has_root(old(self).may_alias_table@, var@) && {
                    let root = root_of(old(self).may_alias_table@, var@);
                    adds(&old(self).program, &final(self).program, set![(root, inst@)], set![(root, inst@)],
                        Set::empty(), set![(inst@, root)], Set::empty())
                },
                Err(e) => e == PassError::AliasCycle && !has_root(old(self).may_alias_table@, var@)
                    && final(self).program == old(self).program,
            },
    {
        let root = match self.may_alias_table.get_root_symbol(&var) {
            Ok(root) => root,
            Err(AliasCycleError) => {
                return Err(PassError::AliasCycle);
            },
        };
        let ghost (v, i) = (root@, inst@);
        self.define_and_use(&root, &inst);
        let ghost mid = self.program;
        let locks = vec![generic::Lock(inst, root)];
        assert(named_pairs(locks@) =~= set![(i, v)]) by {
            assert(locks@[0].names() == (i, v));
        }
        self.program.extend(locks);
        proof {
            let p = &old(self).program;
            assert(sym_nexts(p) + Set::empty() =~= sym_nexts(p));
            assert(sym_releases(p) + Set::empty() =~= sym_releases(p));
            assert(sym_locks(p) + Set::empty() =~= sym_locks(p));
            assert(extends(self.program.names(), p.names())) by {
                assert(extends(mid.names(), p.names()));
            }
        }
        Ok(())
    }

    /// A call of `Mutex::new` creating `var` at `inst`: the lock is defined
    /// and used there.
    pub fn handle_std_sync_mutex_new(&mut self, var: Symbol, inst: Symbol)
        requires
            has_room(&old(self).program),
        ensures
            adds(&old(self).program, &final(self).program, set![(var@, inst@)], set![(var@, inst@)],
                Set::empty(), Set::empty(), Set::empty()),
            final(self).may_alias_table == old(self).may_alias_table,
    {
        self.define_and_use(&var, &inst);
    }

    /// The drop of the guard `guard` at `inst`: the resource that the guard
    /// stands for, found by following the aliases to their root, is defined,
    /// used and released there.  Fails, and changes nothing, when the
    /// aliases of `guard` form a cycle.
    pub fn handle_std_sync_mutex_drop(&mut self, guard: Symbol, inst: Symbol) -> (r: Result<(), PassError>)
        requires
            has_room(&old(self).program),
            old(self).may_alias_table.wf(),
        ensures
            final(self).may_alias_table == old(self).may_alias_table,
            match r {
                Ok(()) => has_root(old(self).may_alias_table@, guard@) && {
                    let root = root_of(old(self).may_alias_table@, guard@);
                    adds(&old(self).program, &final(self).program, set![(root, inst@)], set![(root, inst@)],
                        Set::empty(), Set::empty(), set![(inst@, root)])
                },
                Err(e) => e == PassError::AliasCycle && !has_root(old(self).may_alias_table@, guard@)
                    && final(self).program == old(self).program,
            },
    {
        let root = match self.may_alias_table.get_root_symbol(&guard) {
            Ok(root) => root,
            Err(AliasCycleError) => {
                return Err(PassError::AliasCycle);
            },
        };
        let ghost (v, i) = (root@, inst@);
        self.define_and_use(&root, &inst);
        let ghost mid = self.program;
        let releases = vec![generic::Release(inst, root)];
        assert(named_pairs(releases@) =~= set![(i, v)]) by {
            assert(releases@[0].names() == (i, v));
        }
        self.program.extend(releases);
        proof {
            let p = &old(self).program;
            assert(sym_nexts(p) + Set::empty() =~= sym_nexts(p));
            assert(sym_locks(p) + Set::empty() =~= sym_locks(p));
            assert(sym_releases(p) + Set::empty() =~= sym_releases(p));
            assert(extends(self.program.names(), p.names())) by {
                assert(extends(mid.names(), p.names()));
            }
        }
        Ok(())
    }

    /// A call instruction `inst` of the kind `kind`, with the names of its
    /// operands in order: lock calls take the guard first and the lock
    /// second; `Mutex::new` and guard drops name their value first.  Calls
    /// of other kinds add nothing.
    pub fn handle_call_inst(&mut self, kind: KnownCallsites, operands: &Vec<Symbol>, inst: Symbol) -> (r: Result<(), PassError>)
        requires
            has_room(&old(self).program),
            old(self).may_alias_table.wf(),
        ensures
            final(self).may_alias_table == old(self).may_alias_table,
            final(self).program.wf(),
            r == Err::<(), PassError>(PassError::MissingOperand) <==> (match kind {
                KnownCallsites::StdSyncMutexLock => operands@.len() < 2,
                KnownCallsites::StdSyncMutexNew => operands@.len() < 1,
                KnownCallsites::StdSyncMutexDrop => operands@.len() < 1,
                KnownCallsites::Unknown => false,
            }),
            r is Err ==> final(self).program == old(self).program,
            match kind {
                KnownCallsites::StdSyncMutexLock => operands@.len() >= 2 ==> {
                    let m = old(self).may_alias_table@;
                    let var = operands@[1]@;
                    &&& (r is Ok <==> has_root(m, var))
                    &&& (r is Ok ==> adds(&old(self).program, &final(self).program,
                        set![(root_of(m, var), inst@)], set![(root_of(m, var), inst@)],
                        Set::empty(), set![(inst@, root_of(m, var))], Set::empty()))
                },
                KnownCallsites::StdSyncMutexNew => operands@.len() >= 1 ==> {
                    let var = operands@[0]@;
                    adds(&old(self).program, &final(self).program, set![(var, inst@)], set![(var, inst@)],
                        Set::empty(), Set::empty(), Set::empty())
                },
                KnownCallsites::StdSyncMutexDrop => operands@.len() >= 1 ==> {
                    let m = old(self).may_alias_table@;
                    let guard = operands@[0]@;
                    &&& (r is Ok <==> has_root(m, guard))
                    &&& (r is Ok ==> adds(&old(self).program, &final(self).program,
                        set![(root_of(m, guard), inst@)], set![(root_of(m, guard), inst@)],
                        Set::empty(), Set::empty(), set![(inst@, root_of(m, guard))]))
                },
                KnownCallsites::Unknown => r is Ok && final(self).program == old(self).program,
            },
    {
        match kind {
            KnownCallsites::StdSyncMutexLock => {
                if operands.len() < 2 {
                    return Err(PassError::MissingOperand);
                }
                self.handle_std_sync_mutex_lock(operands[1].duplicate(), inst)
            },
            KnownCallsites::StdSyncMutexNew => {
                if operands.len() < 1 {
                    return Err(PassError::MissingOperand);
                }
                self.handle_std_sync_mutex_new(operands[0].duplicate(), inst);
                Ok(())
            },
            KnownCallsites::StdSyncMutexDrop => {
                if operands.len() < 1 {
                    return Err(PassError::MissingOperand);
                }
                self.handle_std_sync_mutex_drop(operands[0].duplicate(), inst)
            },
            KnownCallsites::Unknown => Ok(()),
        }
    }
}

} // verus!
