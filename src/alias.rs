//! Guard-to-resource indirections, and their canonical root.
use vstd::prelude::*;
use crate::reach::lemma_distinct_len_bound;

verus! {

/// An identifier of the analysed program: a variable or an instruction.
#[derive(Debug, Clone, PartialEq, Eq, Hash)]
pub struct Symbol(pub String);

impl View for Symbol {
    type V = Seq<char>;

    open spec fn view(&self) -> Seq<char> {
        self.0@
    }
}

impl Symbol {
    /// The same identifier, as a value of its own.
    pub fn duplicate(&self) -> (r: Symbol)
        ensures
            r@ == self@,
    {
        Symbol(self.0.clone())
    }

    /// Whether `self` and `other` name the same identifier.
    pub fn same(&self, other: &Symbol) -> (r: bool)
        ensures
            r == (self@ == other@),
    {
        self.0 == other.0
    }
}

/// Root resolution met a cycle of two or more aliases.
#[derive(Debug, Clone, Copy, PartialEq, Eq)]
pub struct AliasCycleError;

/// One hop of resolution: the target of `s`, or `s` itself if it has none.
pub open spec fn hop(m: Map<Seq<char>, Seq<char>>, s: Seq<char>) -> Seq<char> {
    if m.contains_key(s) {
        m[s]
    } else {
        s
    }
}

/// Where resolution of `s` stands after `n` hops.
pub open spec fn walk(m: Map<Seq<char>, Seq<char>>, s: Seq<char>, n: nat) -> Seq<char>
    decreases n,
{
    if n == 0 {
        s
    } else {
        hop(m, walk(m, s, (n - 1) as nat))
    }
}

/// `s` has no target, or is its own target.
pub open spec fn is_root(m: Map<Seq<char>, Seq<char>>, s: Seq<char>) -> bool {
    !m.contains_key(s) || m[s] == s
}

/// Resolution of `s` reaches a root.
pub open spec fn has_root(m: Map<Seq<char>, Seq<char>>, s: Seq<char>) -> bool {
    exists|n: nat| is_root(m, #[trigger] walk(m, s, n))
}

/// The root that resolution of `s` reaches, when it reaches one.
pub open spec fn root_of(m: Map<Seq<char>, Seq<char>>, s: Seq<char>) -> Seq<char> {
    walk(m, s, choose|n: nat| is_root(m, #[trigger] walk(m, s, n)))
}

/// `n` hops after `a` more hops from `s` are `a + n` hops from `s`.
proof fn lemma_walk_split(m: Map<Seq<char>, Seq<char>>, s: Seq<char>, a: nat, n: nat)
    ensures
        walk(m, s, a + n) == walk(m, walk(m, s, a), n),
    decreases n,
{
    if n > 0 {
        lemma_walk_split(m, s, a, (n - 1) as nat);
        assert(a + n - 1 == a + (n - 1) as nat);
    }
}

/// A root is never left: every later hop stays on it.
proof fn lemma_root_stays(m: Map<Seq<char>, Seq<char>>, s: Seq<char>, a: nat, n: nat)
    requires
        is_root(m, walk(m, s, a)),
        a <= n,
    ensures
        walk(m, s, n) == walk(m, s, a),
    decreases n - a,
{
    if n > a {
        lemma_root_stays(m, s, a, (n - 1) as nat);
    }
}

/// A symbol has at most one root: two hop counts that both stand on a root
/// stand on the same one.
pub proof fn lemma_root_unique(m: Map<Seq<char>, Seq<char>>, s: Seq<char>, a: nat, b: nat)
    requires
        is_root(m, walk(m, s, a)),
        is_root(m, walk(m, s, b)),
    ensures
        walk(m, s, a) == walk(m, s, b),
{
    if a <= b {
        lemma_root_stays(m, s, a, b);
    } else {
        lemma_root_stays(m, s, b, a);
    }
}

/// A root met after `n` hops is the root of `s`.
proof fn lemma_found_root(m: Map<Seq<char>, Seq<char>>, s: Seq<char>, n: nat)
    requires
        is_root(m, walk(m, s, n)),
    ensures
        has_root(m, s),
        root_of(m, s) == walk(m, s, n),
{
    assert(has_root(m, s));
    let k = choose|k: nat| is_root(m, #[trigger] walk(m, s, k));
    lemma_root_unique(m, s, k, n);
}

/// A guard recorded for a resource that has no target itself resolves to
/// that resource: with `g` mapped to `r` and `r` unmapped, the root of `g`
/// is `r`.
pub proof fn lemma_guard_resolves_to_resource(m: Map<Seq<char>, Seq<char>>, g: Seq<char>, r: Seq<char>)
    requires
        m.contains_key(g),
        m[g] == r,
        !m.contains_key(r),
    ensures
        has_root(m, g),
        root_of(m, g) == r,
{
    assert(walk(m, g, 1) == hop(m, walk(m, g, 0)));
    lemma_found_root(m, g, 1);
}

/// A walk that comes back to where it stood at hop `i`, after hops that
/// met no root, never meets one.
proof fn lemma_cycle_has_no_root(m: Map<Seq<char>, Seq<char>>, s: Seq<char>, i: nat, n: nat, k: nat)
    requires
        i < n,
        walk(m, s, i) == walk(m, s, n),
        forall|j: nat| j < n ==> !is_root(m, #[trigger] walk(m, s, j)),
    ensures
        !is_root(m, walk(m, s, k)),
    decreases k,
{
    if k >= n {
        let p = (n - i) as nat;
        let back = (k - p) as nat;
        lemma_walk_split(m, s, i, (k - n) as nat);
        lemma_walk_split(m, s, n, (k - n) as nat);
        assert(i + (k - n) as nat == back);
        assert(n + (k - n) as nat == k);
        lemma_cycle_has_no_root(m, s, i, n, back);
    }
}

/// A may-alias table: each guard symbol mapped to the symbol it stands for.
pub struct MayAliasTable {
    entries: Vec<(Symbol, Symbol)>,
}

impl View for MayAliasTable {
    type V = Map<Seq<char>, Seq<char>>;

    closed spec fn view(&self) -> Map<Seq<char>, Seq<char>> {
        Map::new(
            |k: Seq<char>| exists|i: int| 0 <= i < self.entries@.len() && (#[trigger] self.entries@[i]).0@ == k,
            |k: Seq<char>| self.entries@[choose|i: int| 0 <= i < self.entries@.len() && (#[trigger] self.entries@[i]).0@ == k].1@,
        )
    }
}

impl MayAliasTable {
    /// Each guard occurs in one entry.
    pub closed spec fn wf(&self) -> bool {
        forall|i: int, j: int|
            0 <= i < j < self.entries@.len() ==> (#[trigger] self.entries@[i]).0@ != (#[trigger] self.entries@[j]).0@
    }

    /// The number of entries: one per guard.
    pub closed spec fn size(&self) -> nat {
        self.entries@.len()
    }

    proof fn lemma_entry(&self, i: int)
        requires
            self.wf(),
            0 <= i < self.entries@.len(),
        ensures
            self@.contains_key(self.entries@[i].0@),
            self@[self.entries@[i].0@] == self.entries@[i].1@,
    {
        let k = self.entries@[i].0@;
        assert(exists|j: int| 0 <= j < self.entries@.len() && (#[trigger] self.entries@[j]).0@ == k) by {
            assert(self.entries@[i].0@ == k);
        }
        let j = choose|j: int| 0 <= j < self.entries@.len() && (#[trigger] self.entries@[j]).0@ == k;
        assert(j == i);
    }

    /// An empty table.
    pub fn new() -> (r: Self)
        ensures
            r.wf(),
            r@ == Map::<Seq<char>, Seq<char>>::empty(),
    {
        let r = MayAliasTable { entries: Vec::new() };
        assert(r@ =~= Map::<Seq<char>, Seq<char>>::empty());
        r
    }

    /// The entry of `key`, if there is one.
    fn find(&self, key: &Symbol) -> (r: Option<usize>)
        requires
            self.wf(),
        ensures
            match r {
                Some(i) => i < self.entries@.len() && self.entries@[i as int].0@ == key@,
                None => !self@.contains_key(key@),
            },
    {
        let mut i: usize = 0;
        while i < self.entries.len()
            invariant
                i <= self.entries@.len(),
                forall|j: int| 0 <= j < i ==> (#[trigger] self.entries@[j]).0@ != key@,
            decreases self.entries@.len() - i,
        {
            if self.entries[i].0.same(key) {
                return Some(i);
            }
            i = i + 1;
        }
        None
    }

    /// Maps `key` to `value`, in place of any earlier target of `key`.
    pub fn insert(&mut self, key: Symbol, value: Symbol)
        requires
            old(self).wf(),
        ensures
            final(self).wf(),
            final(self)@ == old(self)@.insert(key@, value@),
            final(self).size() <= old(self).size() + 1,
    {
        let ghost before = self@;
        match self.find(&key) {
            Some(i) => {
                proof {
                    self.lemma_entry(i as int);
                }
                self.entries.set(i, (key, value));
                proof {
                    assert forall|j: int| 0 <= j < self.entries@.len() && j != i implies
                        (#[trigger] self.entries@[j]).0@ != self.entries@[i as int].0@ by {
                        assert(old(self).entries@[j].0@ != old(self).entries@[i as int].0@);
                    }
                    assert forall|k: Seq<char>| #[trigger] self@.contains_key(k) <==> before.insert(key@, value@).contains_key(k) by {
                        if self@.contains_key(k) {
                            let j = choose|j: int| 0 <= j < self.entries@.len() && (#[trigger] self.entries@[j]).0@ == k;
                            if j != i {
                                old(self).lemma_entry(j);
                            }
                        }
                        if before.contains_key(k) {
                            let j = choose|j: int| 0 <= j < old(self).entries@.len() && (#[trigger] old(self).entries@[j]).0@ == k;
                            self.lemma_entry(j);
                        }
                        if k == key@ {
                            self.lemma_entry(i as int);
                        }
                    }
                    assert forall|k: Seq<char>| #[trigger] self@.contains_key(k) implies self@[k] == before.insert(key@, value@)[k] by {
                        let j = choose|j: int| 0 <= j < self.entries@.len() && (#[trigger] self.entries@[j]).0@ == k;
                        self.lemma_entry(j);
                        if j != i {
                            old(self).lemma_entry(j);
                        }
                    }
                    assert(self@ =~= before.insert(key@, value@));
                }
            },
            None => {
                self.entries.push((key, value));
                proof {
                    let n = old(self).entries@.len() as int;
                    assert forall|j: int| 0 <= j < n implies (#[trigger] self.entries@[j]).0@ != key@ by {
                        old(self).lemma_entry(j);
                    }
                    assert forall|k: Seq<char>| #[trigger] self@.contains_key(k) <==> before.insert(key@, value@).contains_key(k) by {
                        if self@.contains_key(k) {
                            let j = choose|j: int| 0 <= j < self.entries@.len() && (#[trigger] self.entries@[j]).0@ == k;
                            if j < n {
                                old(self).lemma_entry(j);
                            }
                        }
                        if before.contains_key(k) {
                            let j = choose|j: int| 0 <= j < n && (#[trigger] old(self).entries@[j]).0@ == k;
                            self.lemma_entry(j);
                        }
                        if k == key@ {
                            self.lemma_entry(n);
                        }
                    }
                    assert forall|k: Seq<char>| #[trigger] self@.contains_key(k) implies self@[k] == before.insert(key@, value@)[k] by {
                        let j = choose|j: int| 0 <= j < self.entries@.len() && (#[trigger] self.entries@[j]).0@ == k;
                        self.lemma_entry(j);
                        if j < n {
                            old(self).lemma_entry(j);
                        }
                    }
                    assert(self@ =~= before.insert(key@, value@));
                }
            },
        }
    }

    /// The target of `key`, if it has one.
    pub fn get(&self, key: &Symbol) -> (r: Option<&Symbol>)
        requires
            self.wf(),
        ensures
            match r {
                Some(v) => self@.contains_key(key@) && self@[key@] == v@,
                None => !self@.contains_key(key@),
            },
    {
        match self.find(key) {
            Some(i) => {
                proof {
                    self.lemma_entry(i as int);
                }
                Some(&self.entries[i].1)
            },
            None => None,
        }
    }

    /// The root of `key`: follows targets until a symbol with no target, or
    /// one that is its own target.  Fails, instead of going round forever,
    /// when the targets form a cycle of two or more symbols.
    pub fn get_root_symbol(&self, key: &Symbol) -> (r: Result<Symbol, AliasCycleError>)
        requires
            self.wf(),
        ensures
            match r {
                Ok(root) => has_root(self@, key@) && root@ == root_of(self@, key@),
                Err(_) => !has_root(self@, key@),
            },
    {
        let ghost m = self@;
        let ghost keys = self.entries@.map_values(|e: (Symbol, Symbol)| e.0@);
        let mut current = key.duplicate();
        let mut visited: Vec<Symbol> = Vec::new();
        loop
            invariant
                self.wf(),
                m == self@,
                keys == self.entries@.map_values(|e: (Symbol, Symbol)| e.0@),
                current@ == walk(m, key@, visited@.len() as nat),
                forall|j: int| 0 <= j < visited@.len() ==> (#[trigger] visited@[j])@ == walk(m, key@, j as nat),
                forall|j: nat| j < visited@.len() ==> !is_root(m, #[trigger] walk(m, key@, j)),
                forall|a: int, b: int| 0 <= a < b < visited@.len() ==> (#[trigger] visited@[a])@ != (#[trigger] visited@[b])@,
                visited@.len() <= self.entries@.len(),
            decreases self.entries@.len() - visited@.len(),
        {
            let n = visited.len();
            match self.get(&current) {
                None => {
                    proof {
                        lemma_found_root(m, key@, n as nat);
                    }
                    return Ok(current);
                },
                Some(next) => {
                    if next.same(&current) {
                        proof {
                            lemma_found_root(m, key@, n as nat);
                        }
                        return Ok(current);
                    }
                    let mut i: usize = 0;
                    while i < visited.len()
                        invariant
                            i <= visited@.len(),
                            n == visited@.len(),
                            m == self@,
                            current@ == walk(m, key@, n as nat),
                            forall|j: int| 0 <= j < visited@.len() ==> (#[trigger] visited@[j])@ == walk(m, key@, j as nat),
                            forall|j: nat| j < visited@.len() ==> !is_root(m, #[trigger] walk(m, key@, j)),
                            forall|j: int| 0 <= j < i ==> (#[trigger] visited@[j])@ != current@,
                        decreases visited@.len() - i,
                    {
                        if visited[i].same(&current) {
                            proof {
                                lemma_cycle_has_no_root(m, key@, i as nat, n as nat, 0);
                                assert forall|k: nat| !is_root(m, #[trigger] walk(m, key@, k)) by {
                                    lemma_cycle_has_no_root(m, key@, i as nat, n as nat, k);
                                }
                            }
                            return Err(AliasCycleError);
                        }
                        i = i + 1;
                    }
                    let following = next.duplicate();
                    visited.push(current);
                    current = following;
                    proof {
                        let views = visited@.map_values(|s: Symbol| s@);
                        assert forall|j: int| 0 <= j < views.len() implies keys.contains(#[trigger] views[j]) by {
                            let w = visited@[j]@;
                            assert(m.contains_key(w));
                            let e = choose|e: int| 0 <= e < self.entries@.len() && (#[trigger] self.entries@[e]).0@ == w;
                            assert(keys[e] == w);
                        }
                        assert(views.no_duplicates()) by {
                            assert forall|a: int, b: int| 0 <= a < views.len() && 0 <= b < views.len() && a != b
                                implies views[a] != views[b] by {
                                if a < b {
                                    assert(visited@[a]@ != visited@[b]@);
                                } else {
                                    assert(visited@[b]@ != visited@[a]@);
                                }
                            }
                        }
                        lemma_distinct_len_bound(views, keys);
                    }
                },
            }
        }
    }
}

} // verus!
