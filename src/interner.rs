//! Dense integer handles for symbols, handed out in order of first sight.
use vstd::prelude::*;
use bimap::BiHashMap;
use crate::alias::Symbol;

verus! {

#[verifier::external_type_specification]
#[verifier::external_body]
#[verifier::reject_recursive_types(L)]
#[verifier::reject_recursive_types(R)]
#[verifier::reject_recursive_types(LS)]
#[verifier::reject_recursive_types(RS)]
pub struct ExBiHashMap<L, R, LS, RS>(BiHashMap<L, R, LS, RS>);

/// A bimap between symbol text and handles.
pub type HandleBimap = BiHashMap<String, usize>;

/// The left-to-right pairs that a bimap of strings and handles holds.
pub uninterp spec fn bimap_pairs(m: HandleBimap) -> Map<Seq<char>, usize>;

/// Relies on `bimap::BiHashMap::new`: a new bimap holds no pair.
#[verifier::external_body]
fn bimap_new() -> (r: HandleBimap)
    ensures
        bimap_pairs(r).dom() == Set::<Seq<char>>::empty(),
{
    BiHashMap::new()
}

/// Relies on `bimap::BiHashMap::len`: the number of pairs held.
#[verifier::external_body]
fn bimap_len(m: &HandleBimap) -> (r: usize)
    ensures
        r == bimap_pairs(*m).len(),
{
    m.len()
}

/// Relies on `bimap::BiHashMap::get_by_left`: the right value paired with
/// `left`, if there is one.
#[verifier::external_body]
fn bimap_get_by_left(m: &HandleBimap, left: &String) -> (r: Option<usize>)
    ensures
        match r {
            Some(i) => bimap_pairs(*m).contains_key(left@) && bimap_pairs(*m)[left@] == i,
            None => !bimap_pairs(*m).contains_key(left@),
        },
{
    m.get_by_left(left).copied()
}

/// Relies on `bimap::BiHashMap::get_by_right`: the left value paired with
/// `right`, if there is one.
#[verifier::external_body]
fn bimap_get_by_right(m: &HandleBimap, right: usize) -> (r: Option<&String>)
    ensures
        match r {
            Some(s) => bimap_pairs(*m).contains_key(s@) && bimap_pairs(*m)[s@] == right,
            None => forall|k: Seq<char>| #[trigger] bimap_pairs(*m).contains_key(k) ==> bimap_pairs(*m)[k] != right,
        },
{
    m.get_by_right(&right)
}

/// Relies on `bimap::BiHashMap::insert`: when neither value is paired yet,
/// the new pair is added and no other pair changes.
#[verifier::external_body]
fn bimap_insert(m: &mut HandleBimap, left: String, right: usize)
    requires
        !bimap_pairs(*old(m)).contains_key(left@),
        forall|k: Seq<char>| #[trigger] bimap_pairs(*old(m)).contains_key(k) ==> bimap_pairs(*old(m))[k] != right,
    ensures
        bimap_pairs(*final(m)) == bimap_pairs(*old(m)).insert(left@, right),
{
    m.insert(left, right);
}

/// A symbol interner: the `i`-th distinct symbol seen has the handle `i`.
pub struct InsertionOrderMap {
    mapping: HandleBimap,
    order: Ghost<Seq<Seq<char>>>,
}

impl View for InsertionOrderMap {
    type V = Seq<Seq<char>>;

    /// The symbols seen, in the order of their handles.
    closed spec fn view(&self) -> Seq<Seq<char>> {
        self.order@
    }
}

impl InsertionOrderMap {
    /// The bimap pairs each symbol seen with its position, and nothing else.
    pub closed spec fn wf(&self) -> bool {
        &&& self.order@.no_duplicates()
        &&& bimap_pairs(self.mapping).dom() == self.order@.to_set()
        &&& forall|i: int| 0 <= i < self.order@.len() ==> bimap_pairs(self.mapping)[#[trigger] self.order@[i]] == i
    }

    /// The symbols seen are distinct.
    pub proof fn lemma_distinct(&self)
        requires
            self.wf(),
        ensures
            self@.no_duplicates(),
    {
    }

    /// An interner that has seen nothing.
    pub fn new() -> (r: Self)
        ensures
            r.wf(),
            r@ == Seq::<Seq<char>>::empty(),
    {
        let r = InsertionOrderMap { mapping: bimap_new(), order: Ghost(Seq::empty()) };
        assert(bimap_pairs(r.mapping).dom() =~= r.order@.to_set());
        r
    }

    /// The number of symbols seen.
    pub fn len(&self) -> (r: usize)
        requires
            self.wf(),
        ensures
            r == self@.len(),
    {
        proof {
            self.order@.unique_seq_to_set();
        }
        bimap_len(&self.mapping)
    }

    /// The handle of `value`: its existing one, or else the next handle,
    /// which `value` keeps from then on.
    pub fn map(&mut self, value: Symbol) -> (r: usize)
        requires
            old(self).wf(),
            old(self)@.len() < usize::MAX,
        ensures
            final(self).wf(),
            final(self)@ == if old(self)@.contains(value@) { old(self)@ } else { old(self)@.push(value@) },
            final(self)@.no_duplicates(),
            r < final(self)@.len(),
            final(self)@[r as int] == value@,
    {
        proof {
            self.order@.unique_seq_to_set();
        }
        match bimap_get_by_left(&self.mapping, &value.0) {
            Some(index) => {
                proof {
                    assert(self.order@.to_set().contains(value@));
                    let j = choose|j: int| 0 <= j < self.order@.len() && self.order@[j] == value@;
                    assert(bimap_pairs(self.mapping)[self.order@[j]] == j);
                }
                index
            },
            None => {
                let index = bimap_len(&self.mapping);
                proof {
                    assert(!self.order@.to_set().contains(value@));
                    assert forall|k: Seq<char>| #[trigger] bimap_pairs(self.mapping).contains_key(k) implies
                        bimap_pairs(self.mapping)[k] != index by {
                        assert(self.order@.to_set().contains(k));
                        let j = choose|j: int| 0 <= j < self.order@.len() && self.order@[j] == k;
                        assert(bimap_pairs(self.mapping)[self.order@[j]] == j);
                    }
                }
                let ghost before = self.order@;
                bimap_insert(&mut self.mapping, value.0, index);
                self.order = Ghost(before.push(value@));
                proof {
                    assert(bimap_pairs(self.mapping).dom() =~= self.order@.to_set()) by {
                        assert forall|k: Seq<char>| #[trigger] self.order@.to_set().contains(k) <==> before.to_set().insert(value@).contains(k) by {
                            if self.order@.contains(k) && k != value@ {
                                let j = choose|j: int| 0 <= j < self.order@.len() && self.order@[j] == k;
                                assert(before[j] == k);
                            }
                            if before.contains(k) {
                                let j = choose|j: int| 0 <= j < before.len() && before[j] == k;
                                assert(self.order@[j] == k);
                            }
                            if k == value@ {
                                assert(self.order@[before.len() as int] == k);
                            }
                        }
                    }
                    assert forall|i: int| 0 <= i < self.order@.len() implies
                        bimap_pairs(self.mapping)[#[trigger] self.order@[i]] == i by {
                        if i < before.len() {
                            assert(self.order@[i] == before[i]);
                            assert(before[i] != value@);
                        }
                    }
                }
                index
            },
        }
    }

    /// The symbol whose handle is `index`, if one has it.
    pub fn unmap(&self, index: usize) -> (r: Option<Symbol>)
        requires
            self.wf(),
        ensures
            match r {
                Some(s) => index < self@.len() && s@ == self@[index as int],
                None => index >= self@.len(),
            },
    {
        match bimap_get_by_right(&self.mapping, index) {
            Some(s) => {
                proof {
                    assert(self.order@.to_set().contains(s@));
                    let j = choose|j: int| 0 <= j < self.order@.len() && self.order@[j] == s@;
                    assert(bimap_pairs(self.mapping)[self.order@[j]] == j);
                }
                Some(Symbol(s.clone()))
            },
            None => {
                proof {
                    if index < self.order@.len() {
                        let k = self.order@[index as int];
                        assert(self.order@.to_set().contains(k));
                        assert(bimap_pairs(self.mapping).contains_key(k));
                    }
                }
                None
            },
        }
    }
}

/// Interner bijection: in a well-formed interner, two symbols seen have
/// the same handle only if they are the same symbol, and the symbol at the
/// handle of a symbol seen is that symbol.  (`map` returns the handle of the
/// symbol mapped, and `unmap` the symbol at a handle.)
pub proof fn lemma_interner_bijection(m: InsertionOrderMap, a: Seq<char>, b: Seq<char>)
    requires
        m.wf(),
        m@.contains(a),
        m@.contains(b),
    ensures
        m@[m@.index_of(a)] == a,
        m@.index_of(a) == m@.index_of(b) <==> a == b,
{
}

/// Handles are kept: once a symbol has a handle, every later state that
/// `map` calls lead to (each one extends the symbols seen, without
/// repeating one) gives it the same handle.  Together with
/// `lemma_interner_bijection`, two distinct symbols mapped in any order,
/// with any other `map` calls in between, get distinct handles.
pub proof fn lemma_handle_kept(earlier: Seq<Seq<char>>, later: Seq<Seq<char>>, v: Seq<char>)
    requires
        earlier.is_prefix_of(later),
        later.no_duplicates(),
        earlier.contains(v),
    ensures
        later.contains(v),
        later.index_of(v) == earlier.index_of(v),
        later[earlier.index_of(v)] == v,
{
    let i = earlier.index_of(v);
    assert(earlier[i] == v);
    assert(later[i] == v);
    let j = later.index_of(v);
    assert(later.contains(v));
    assert(later[j] == v);
}

} // verus!
