//! The executable side of the fixpoint engine: input relations as pairs of
//! handles, set operations over them, and the two search stages.
use vstd::prelude::*;
use crate::facts::{
    Def, UseVar, Next, Lock, Release, Kill, In, Out, Edge, Path, Deadlock, ReentrantDeadlockPriors,
    kills, is_def_site, def_use, kill_set, in_set, out_set, edge_set, next_graph, killers, reached_from,
    lemma_reaching_by_search, is_lock_site, releases_any, path_set, deadlock_set, edge_graph, releasers,
    tainted_from, lemma_paths_by_search, strict_path_set, strict_deadlock_set, strict_tainted_from,
    releasers_of, lemma_strict_by_search, push_unique, strict_taint_set,
};
use crate::reach::{contains_node, reachable};

verus! {

broadcast use vstd::seq_lib::group_seq_properties;

/// Adds `x` to `v` unless it is already there.
pub fn push_new(v: &mut Vec<usize>, x: usize)
    requires
        old(v)@.no_duplicates(),
    ensures
        final(v)@.no_duplicates(),
        forall|y: usize| #[trigger] final(v)@.contains(y) <==> old(v)@.contains(y) || y == x,
{
    if !contains_node(v, x) {
        v.push(x);
        proof {
            assert forall|y: usize| #[trigger] v@.contains(y) implies old(v)@.contains(y) || y == x by {
                if y != x {
                    let i = choose|i: int| 0 <= i < v@.len() && v@[i] == y;
                    assert(old(v)@[i] == y);
                }
            }
        }
    }
}

/// The first components of `p`, each once.
pub fn firsts(p: &Vec<(usize, usize)>) -> (r: Vec<usize>)
    ensures
        r@.no_duplicates(),
        forall|a: usize| #[trigger] r@.contains(a) <==> exists|b: usize| p@.contains((a, b)),
{
    let mut r: Vec<usize> = Vec::new();
    let mut i: usize = 0;
    while i < p.len()
        invariant
            i <= p@.len(),
            r@.no_duplicates(),
            forall|a: usize| #[trigger] r@.contains(a) <==> exists|j: int| 0 <= j < i && (#[trigger] p@[j]).0 == a,
        decreases p@.len() - i,
    {
        let (a, _) = p[i];
        push_new(&mut r, a);
        proof {
            assert forall|x: usize| #[trigger] r@.contains(x) <==> exists|j: int| 0 <= j < i + 1 && (#[trigger] p@[j]).0 == x by {
                if x == a {
                    assert(p@[i as int].0 == x);
                }
            }
        }
        i = i + 1;
    }
    proof {
        assert forall|a: usize| #[trigger] r@.contains(a) <==> exists|b: usize| p@.contains((a, b)) by {
            if r@.contains(a) {
                let j = choose|j: int| 0 <= j < p@.len() && (#[trigger] p@[j]).0 == a;
                assert(p@.contains((a, p@[j].1)));
            }
            if exists|b: usize| p@.contains((a, b)) {
                let b = choose|b: usize| p@.contains((a, b));
                let j = choose|j: int| 0 <= j < p@.len() && p@[j] == (a, b);
                assert(p@[j].0 == a);
            }
        }
    }
    r
}

/// The second components of the pairs of `p` whose first component is in
/// `srcs`, each once.
pub fn image(p: &Vec<(usize, usize)>, srcs: &Vec<usize>) -> (r: Vec<usize>)
    ensures
        r@.no_duplicates(),
        forall|b: usize| #[trigger] r@.contains(b) <==> exists|a: usize| srcs@.contains(a) && p@.contains((a, b)),
{
    let mut r: Vec<usize> = Vec::new();
    let mut i: usize = 0;
    while i < p.len()
        invariant
            i <= p@.len(),
            r@.no_duplicates(),
            forall|b: usize| #[trigger] r@.contains(b) <==>
                exists|j: int| 0 <= j < i && (#[trigger] p@[j]).1 == b && srcs@.contains(p@[j].0),
        decreases p@.len() - i,
    {
        let (a, b) = p[i];
        if contains_node(srcs, a) {
            push_new(&mut r, b);
        }
        proof {
            assert forall|x: usize| #[trigger] r@.contains(x) <==>
                exists|j: int| 0 <= j < i + 1 && (#[trigger] p@[j]).1 == x && srcs@.contains(p@[j].0) by {
                if exists|j: int| 0 <= j < i + 1 && (#[trigger] p@[j]).1 == x && srcs@.contains(p@[j].0) {
                    let j = choose|j: int| 0 <= j < i + 1 && (#[trigger] p@[j]).1 == x && srcs@.contains(p@[j].0);
                    if j < i {
                        assert(exists|j: int| 0 <= j < i && (#[trigger] p@[j]).1 == x && srcs@.contains(p@[j].0));
                    }
                }
                if x == b && srcs@.contains(a) {
                    assert(p@[i as int].1 == x);
                }
            }
        }
        i = i + 1;
    }
    proof {
        assert forall|b: usize| #[trigger] r@.contains(b) <==> exists|a: usize| srcs@.contains(a) && p@.contains((a, b)) by {
            if r@.contains(b) {
                let j = choose|j: int| 0 <= j < p@.len() && (#[trigger] p@[j]).1 == b && srcs@.contains(p@[j].0);
                assert(p@.contains((p@[j].0, b)));
            }
            if exists|a: usize| srcs@.contains(a) && p@.contains((a, b)) {
                let a = choose|a: usize| srcs@.contains(a) && p@.contains((a, b));
                let j = choose|j: int| 0 <= j < p@.len() && p@[j] == (a, b);
                assert(p@[j].1 == b && srcs@.contains(p@[j].0));
            }
        }
    }
    r
}

/// `Def` facts as `(var, inst)` pairs.
pub fn def_pairs(v: &Vec<Def>) -> (r: Vec<(usize, usize)>)
    ensures
        forall|a: usize, b: usize| #[trigger] r@.contains((a, b)) <==> v@.contains(Def(a, b)),
{
    let mut r: Vec<(usize, usize)> = Vec::new();
    let mut i: usize = 0;
    while i < v.len()
        invariant
            i <= v@.len(),
            r@.len() == i,
            forall|j: int| 0 <= j < i ==> #[trigger] r@[j] == (v@[j].0, v@[j].1),
        decreases v@.len() - i,
    {
        r.push((v[i].0, v[i].1));
        i = i + 1;
    }
    proof {
        assert forall|a: usize, b: usize| #[trigger] r@.contains((a, b)) <==> v@.contains(Def(a, b)) by {
            if r@.contains((a, b)) {
                let j = choose|j: int| 0 <= j < r@.len() && r@[j] == (a, b);
                assert(v@[j] == Def(a, b));
            }
            if v@.contains(Def(a, b)) {
                let j = choose|j: int| 0 <= j < v@.len() && v@[j] == Def(a, b);
                assert(r@[j] == (a, b));
            }
        }
    }
    r
}

/// `UseVar` facts as `(var, inst)` pairs.
pub fn use_pairs(v: &Vec<UseVar>) -> (r: Vec<(usize, usize)>)
    ensures
        forall|a: usize, b: usize| #[trigger] r@.contains((a, b)) <==> v@.contains(UseVar(a, b)),
{
    let mut r: Vec<(usize, usize)> = Vec::new();
    let mut i: usize = 0;
    while i < v.len()
        invariant
            i <= v@.len(),
            r@.len() == i,
            forall|j: int| 0 <= j < i ==> #[trigger] r@[j] == (v@[j].0, v@[j].1),
        decreases v@.len() - i,
    {
        r.push((v[i].0, v[i].1));
        i = i + 1;
    }
    proof {
        assert forall|a: usize, b: usize| #[trigger] r@.contains((a, b)) <==> v@.contains(UseVar(a, b)) by {
            if r@.contains((a, b)) {
                let j = choose|j: int| 0 <= j < r@.len() && r@[j] == (a, b);
                assert(v@[j] == UseVar(a, b));
            }
            if v@.contains(UseVar(a, b)) {
                let j = choose|j: int| 0 <= j < v@.len() && v@[j] == UseVar(a, b);
                assert(r@[j] == (a, b));
            }
        }
    }
    r
}

/// `Next` facts as `(from, to)` pairs.
pub fn next_pairs(v: &Vec<Next>) -> (r: Vec<(usize, usize)>)
    ensures
        forall|a: usize, b: usize| #[trigger] r@.contains((a, b)) <==> v@.contains(Next(a, b)),
{
    let mut r: Vec<(usize, usize)> = Vec::new();
    let mut i: usize = 0;
    while i < v.len()
        invariant
            i <= v@.len(),
            r@.len() == i,
            forall|j: int| 0 <= j < i ==> #[trigger] r@[j] == (v@[j].0, v@[j].1),
        decreases v@.len() - i,
    {
        r.push((v[i].0, v[i].1));
        i = i + 1;
    }
    proof {
        assert forall|a: usize, b: usize| #[trigger] r@.contains((a, b)) <==> v@.contains(Next(a, b)) by {
            if r@.contains((a, b)) {
                let j = choose|j: int| 0 <= j < r@.len() && r@[j] == (a, b);
                assert(v@[j] == Next(a, b));
            }
            if v@.contains(Next(a, b)) {
                let j = choose|j: int| 0 <= j < v@.len() && v@[j] == Next(a, b);
                assert(r@[j] == (a, b));
            }
        }
    }
    r
}

/// `Lock` facts as `(inst, resource)` pairs.
pub fn lock_pairs(v: &Vec<Lock>) -> (r: Vec<(usize, usize)>)
    ensures
        forall|a: usize, b: usize| #[trigger] r@.contains((a, b)) <==> v@.contains(Lock(a, b)),
{
    let mut r: Vec<(usize, usize)> = Vec::new();
    let mut i: usize = 0;
    while i < v.len()
        invariant
            i <= v@.len(),
            r@.len() == i,
            forall|j: int| 0 <= j < i ==> #[trigger] r@[j] == (v@[j].0, v@[j].1),
        decreases v@.len() - i,
    {
        r.push((v[i].0, v[i].1));
        i = i + 1;
    }
    proof {
        assert forall|a: usize, b: usize| #[trigger] r@.contains((a, b)) <==> v@.contains(Lock(a, b)) by {
            if r@.contains((a, b)) {
                let j = choose|j: int| 0 <= j < r@.len() && r@[j] == (a, b);
                assert(v@[j] == Lock(a, b));
            }
            if v@.contains(Lock(a, b)) {
                let j = choose|j: int| 0 <= j < v@.len() && v@[j] == Lock(a, b);
                assert(r@[j] == (a, b));
            }
        }
    }
    r
}

/// `Release` facts as `(inst, resource)` pairs.
pub fn release_pairs(v: &Vec<Release>) -> (r: Vec<(usize, usize)>)
    ensures
        forall|a: usize, b: usize| #[trigger] r@.contains((a, b)) <==> v@.contains(Release(a, b)),
{
    let mut r: Vec<(usize, usize)> = Vec::new();
    let mut i: usize = 0;
    while i < v.len()
        invariant
            i <= v@.len(),
            r@.len() == i,
            forall|j: int| 0 <= j < i ==> #[trigger] r@[j] == (v@[j].0, v@[j].1),
        decreases v@.len() - i,
    {
        r.push((v[i].0, v[i].1));
        i = i + 1;
    }
    proof {
        assert forall|a: usize, b: usize| #[trigger] r@.contains((a, b)) <==> v@.contains(Release(a, b)) by {
            if r@.contains((a, b)) {
                let j = choose|j: int| 0 <= j < r@.len() && r@[j] == (a, b);
                assert(v@[j] == Release(a, b));
            }
            if v@.contains(Release(a, b)) {
                let j = choose|j: int| 0 <= j < v@.len() && v@[j] == Release(a, b);
                assert(r@[j] == (a, b));
            }
        }
    }
    r
}

/// Each pair of `p` with its components swapped.
pub fn swapped(p: &Vec<(usize, usize)>) -> (r: Vec<(usize, usize)>)
    ensures
        forall|a: usize, b: usize| #[trigger] r@.contains((a, b)) <==> p@.contains((b, a)),
{
    let mut r: Vec<(usize, usize)> = Vec::new();
    let mut i: usize = 0;
    while i < p.len()
        invariant
            i <= p@.len(),
            r@.len() == i,
            forall|j: int| 0 <= j < i ==> #[trigger] r@[j] == (p@[j].1, p@[j].0),
        decreases p@.len() - i,
    {
        let (a, b) = p[i];
        r.push((b, a));
        i = i + 1;
    }
    proof {
        assert forall|a: usize, b: usize| #[trigger] r@.contains((a, b)) <==> p@.contains((b, a)) by {
            if r@.contains((a, b)) {
                let j = choose|j: int| 0 <= j < r@.len() && r@[j] == (a, b);
                assert(p@[j] == (b, a));
            }
            if p@.contains((b, a)) {
                let j = choose|j: int| 0 <= j < p@.len() && p@[j] == (b, a);
                assert(r@[j] == (a, b));
            }
        }
    }
    r
}

/// Adds `Kill(x, d)` for each `x` of `xs`.
fn push_kills(v: &mut Vec<Kill>, xs: &Vec<usize>, d: usize)
    requires
        old(v)@.no_duplicates(),
        xs@.no_duplicates(),
        forall|t: Kill| #[trigger] old(v)@.contains(t) ==> t.1 != d,
    ensures
        final(v)@.no_duplicates(),
        forall|t: Kill| #[trigger] final(v)@.contains(t) <==> old(v)@.contains(t) || (t.1 == d && xs@.contains(t.0)),
{
    let ghost start = v@;
    let mut i: usize = 0;
    while i < xs.len()
        invariant
            i <= xs@.len(),
            xs@.no_duplicates(),
            v@.no_duplicates(),
            forall|t: Kill| #[trigger] start.contains(t) ==> t.1 != d,
            forall|t: Kill| #[trigger] v@.contains(t) <==>
                start.contains(t) || (t.1 == d && exists|j: int| 0 <= j < i && xs@[j] == t.0),
        decreases xs@.len() - i,
    {
        let t = Kill(xs[i], d);
        assert(!v@.contains(t));
        v.push(t);
        proof {
            assert forall|u: Kill| #[trigger] v@.contains(u) <==>
                start.contains(u) || (u.1 == d && exists|j: int| 0 <= j < i + 1 && xs@[j] == u.0) by {
                if v@.contains(u) && u != t {
                    let j = choose|j: int| 0 <= j < v@.len() && v@[j] == u;
                    assert(v@.drop_last()[j] == u);
                }
                if u.1 == d && exists|j: int| 0 <= j < i + 1 && xs@[j] == u.0 {
                    if u != t {
                        let j = choose|j: int| 0 <= j < i + 1 && xs@[j] == u.0;
                        assert(j != i);
                    }
                }
            }
        }
        i = i + 1;
    }
}

/// Adds `In(y, d)` for each `y` of `ys`.
fn push_ins(v: &mut Vec<In>, ys: &Vec<usize>, d: usize)
    requires
        old(v)@.no_duplicates(),
        ys@.no_duplicates(),
        forall|t: In| #[trigger] old(v)@.contains(t) ==> t.1 != d,
    ensures
        final(v)@.no_duplicates(),
        forall|t: In| #[trigger] final(v)@.contains(t) <==> old(v)@.contains(t) || (t.1 == d && ys@.contains(t.0)),
{
    let ghost start = v@;
    let mut i: usize = 0;
    while i < ys.len()
        invariant
            i <= ys@.len(),
            ys@.no_duplicates(),
            v@.no_duplicates(),
            forall|t: In| #[trigger] start.contains(t) ==> t.1 != d,
            forall|t: In| #[trigger] v@.contains(t) <==>
                start.contains(t) || (t.1 == d && exists|j: int| 0 <= j < i && ys@[j] == t.0),
        decreases ys@.len() - i,
    {
        let t = In(ys[i], d);
        assert(!v@.contains(t));
        v.push(t);
        proof {
            assert forall|u: In| #[trigger] v@.contains(u) <==>
                start.contains(u) || (u.1 == d && exists|j: int| 0 <= j < i + 1 && ys@[j] == u.0) by {
                if v@.contains(u) && u != t {
                    let j = choose|j: int| 0 <= j < v@.len() && v@[j] == u;
                    assert(v@.drop_last()[j] == u);
                }
                if u.1 == d && exists|j: int| 0 <= j < i + 1 && ys@[j] == u.0 {
                    if u != t {
                        let j = choose|j: int| 0 <= j < i + 1 && ys@[j] == u.0;
                        assert(j != i);
                    }
                }
            }
        }
        i = i + 1;
    }
}

/// Adds `Out(d, d)`, and `Out(y, d)` for each `y` of `ys` outside `gate`.
fn push_outs(v: &mut Vec<Out>, ys: &Vec<usize>, gate: &Vec<usize>, d: usize)
    requires
        old(v)@.no_duplicates(),
        ys@.no_duplicates(),
        gate@.contains(d),
        forall|t: Out| #[trigger] old(v)@.contains(t) ==> t.1 != d,
    ensures
        final(v)@.no_duplicates(),
        forall|t: Out| #[trigger] final(v)@.contains(t) <==> old(v)@.contains(t)
            || (t.1 == d && (t.0 == d || (ys@.contains(t.0) && !gate@.contains(t.0)))),
{
    let ghost start = v@;
    assert(!v@.contains(Out(d, d)));
    v.push(Out(d, d));
    proof {
        assert forall|u: Out| #[trigger] v@.contains(u) <==> start.contains(u) || u == Out(d, d) by {
            if v@.contains(u) && u != Out(d, d) {
                let j = choose|j: int| 0 <= j < v@.len() && v@[j] == u;
                assert(v@.drop_last()[j] == u);
            }
        }
    }
    let mut i: usize = 0;
    while i < ys.len()
        invariant
            i <= ys@.len(),
            ys@.no_duplicates(),
            gate@.contains(d),
            v@.no_duplicates(),
            forall|t: Out| #[trigger] start.contains(t) ==> t.1 != d,
            forall|t: Out| #[trigger] v@.contains(t) <==> start.contains(t) || (t.1 == d && (t.0 == d
                || exists|j: int| 0 <= j < i && ys@[j] == t.0 && !gate@.contains(t.0))),
        decreases ys@.len() - i,
    {
        let y = ys[i];
        if !contains_node(gate, y) {
            let t = Out(y, d);
            assert(!v@.contains(t));
            v.push(t);
            proof {
                assert forall|u: Out| #[trigger] v@.contains(u) <==> start.contains(u) || (u.1 == d && (u.0 == d
                    || exists|j: int| 0 <= j < i + 1 && ys@[j] == u.0 && !gate@.contains(u.0))) by {
                    if v@.contains(u) && u != t {
                        let j = choose|j: int| 0 <= j < v@.len() && v@[j] == u;
                        assert(v@.drop_last()[j] == u);
                    }
                    if u.1 == d && u.0 != d && exists|j: int| 0 <= j < i + 1 && ys@[j] == u.0 && !gate@.contains(u.0) {
                        if u != t {
                            let j = choose|j: int| 0 <= j < i + 1 && ys@[j] == u.0 && !gate@.contains(u.0);
                            assert(j != i);
                        }
                    }
                }
            }
        } else {
            proof {
                assert forall|u: Out| #[trigger] v@.contains(u) <==> start.contains(u) || (u.1 == d && (u.0 == d
                    || exists|j: int| 0 <= j < i + 1 && ys@[j] == u.0 && !gate@.contains(u.0))) by {
                    if u.1 == d && u.0 != d && exists|j: int| 0 <= j < i + 1 && ys@[j] == u.0 && !gate@.contains(u.0) {
                        let j = choose|j: int| 0 <= j < i + 1 && ys@[j] == u.0 && !gate@.contains(u.0);
                        assert(j != i);
                    }
                }
            }
        }
        i = i + 1;
    }
}

/// Adds `Edge(d, y)` to `v`, and `(d, y)` to `g`, for each `y` of `ys` that
/// is in `used`.
fn push_edges(v: &mut Vec<Edge>, g: &mut Vec<(usize, usize)>, ys: &Vec<usize>, used: &Vec<usize>, d: usize)
    requires
        old(v)@.no_duplicates(),
        ys@.no_duplicates(),
        forall|t: Edge| #[trigger] old(v)@.contains(t) ==> t.0 != d,
        forall|a: usize, b: usize| #[trigger] old(g)@.contains((a, b)) <==> old(v)@.contains(Edge(a, b)),
    ensures
        final(v)@.no_duplicates(),
        forall|t: Edge| #[trigger] final(v)@.contains(t) <==> old(v)@.contains(t)
            || (t.0 == d && ys@.contains(t.1) && used@.contains(t.1)),
        forall|a: usize, b: usize| #[trigger] final(g)@.contains((a, b)) <==> final(v)@.contains(Edge(a, b)),
{
    let ghost start = v@;
    let mut i: usize = 0;
    while i < ys.len()
        invariant
            i <= ys@.len(),
            ys@.no_duplicates(),
            v@.no_duplicates(),
            forall|t: Edge| #[trigger] start.contains(t) ==> t.0 != d,
            forall|t: Edge| #[trigger] v@.contains(t) <==> start.contains(t)
                || (t.0 == d && used@.contains(t.1) && exists|j: int| 0 <= j < i && ys@[j] == t.1),
            forall|a: usize, b: usize| #[trigger] g@.contains((a, b)) <==> v@.contains(Edge(a, b)),
        decreases ys@.len() - i,
    {
        let y = ys[i];
        let ghost old_g = g@;
        let ghost old_v = v@;
        if contains_node(used, y) {
            let t = Edge(d, y);
            assert(!v@.contains(t));
            v.push(t);
            g.push((d, y));
            proof {
                assert forall|u: Edge| #[trigger] v@.contains(u) <==> start.contains(u)
                    || (u.0 == d && used@.contains(u.1) && exists|j: int| 0 <= j < i + 1 && ys@[j] == u.1) by {
                    if v@.contains(u) && u != t {
                        let j = choose|j: int| 0 <= j < v@.len() && v@[j] == u;
                        assert(v@.drop_last()[j] == u);
                    }
                    if u.0 == d && used@.contains(u.1) && exists|j: int| 0 <= j < i + 1 && ys@[j] == u.1 {
                        if u != t {
                            let j = choose|j: int| 0 <= j < i + 1 && ys@[j] == u.1;
                            assert(j != i);
                        }
                    }
                }
                assert forall|a: usize, b: usize| #[trigger] g@.contains((a, b)) <==> v@.contains(Edge(a, b)) by {
                    if g@.contains((a, b)) && (a, b) != (d, y) {
                        let j = choose|j: int| 0 <= j < g@.len() && g@[j] == (a, b);
                        assert(old_g[j] == (a, b));
                    }
                    if v@.contains(Edge(a, b)) && Edge(a, b) != t {
                        let j = choose|j: int| 0 <= j < v@.len() && v@[j] == Edge(a, b);
                        assert(old_v[j] == Edge(a, b));
                    }
                    if (a, b) == (d, y) {
                        assert(g@[g@.len() - 1] == (a, b));
                    }
                }
            }
        } else {
            proof {
                assert forall|u: Edge| #[trigger] v@.contains(u) <==> start.contains(u)
                    || (u.0 == d && used@.contains(u.1) && exists|j: int| 0 <= j < i + 1 && ys@[j] == u.1) by {
                    if u.0 == d && used@.contains(u.1) && exists|j: int| 0 <= j < i + 1 && ys@[j] == u.1 {
                        let j = choose|j: int| 0 <= j < i + 1 && ys@[j] == u.1;
                        assert(j != i);
                    }
                }
            }
        }
        i = i + 1;
    }
}

/// Stratum 0 to 2: `Kill`, `In`, `Out` and `Edge`, each fact once, and
/// `Edge` again as pairs for the search of stratum 3.  The definitions are
/// taken one defining instruction `d` at a time: the search along `Next`
/// from `d` gives every `In(_, d)` before any `Edge(d, _)` is read from it.
pub fn reaching_stage(p: &ReentrantDeadlockPriors) -> (r: (Vec<Kill>, Vec<In>, Vec<Out>, Vec<Edge>, Vec<(usize, usize)>))
    ensures
        r.0@.no_duplicates(),
        r.1@.no_duplicates(),
        r.2@.no_duplicates(),
        r.3@.no_duplicates(),
        r.0@.to_set() == kill_set(p@),
        r.1@.to_set() == in_set(p@),
        r.2@.to_set() == out_set(p@),
        r.3@.to_set() == edge_set(p@),
        forall|a: usize, b: usize| #[trigger] r.4@.contains((a, b)) <==> edge_set(p@).contains(Edge(a, b)),
{
    let ghost f = p@;
    let dv = def_pairs(&p.defs);
    let di = swapped(&dv);
    let up = use_pairs(&p.use_vars);
    let np = next_pairs(&p.nexts);
    let sites = firsts(&di);
    proof {
        assert(np@.to_set() =~= next_graph(f));
        assert forall|d: usize| #[trigger] sites@.contains(d) <==> is_def_site(f, d) by {
            if sites@.contains(d) {
                let v = choose|v: usize| di@.contains((d, v));
                assert(f.defs.contains(Def(v, d)));
            }
            if is_def_site(f, d) {
                let v = choose|v: usize| f.defs.contains(Def(v, d));
                assert(di@.contains((d, v)));
            }
        }
    }
    let mut kill: Vec<Kill> = Vec::new();
    let mut ins: Vec<In> = Vec::new();
    let mut outs: Vec<Out> = Vec::new();
    let mut edges: Vec<Edge> = Vec::new();
    let mut graph: Vec<(usize, usize)> = Vec::new();
    let mut k: usize = 0;
    while k < sites.len()
        invariant
            f == p@,
            k <= sites@.len(),
            sites@.no_duplicates(),
            forall|d: usize| #[trigger] sites@.contains(d) <==> is_def_site(f, d),
            forall|a: usize, b: usize| #[trigger] dv@.contains((a, b)) <==> f.defs.contains(Def(a, b)),
            forall|a: usize, b: usize| #[trigger] di@.contains((a, b)) <==> f.defs.contains(Def(b, a)),
            forall|a: usize, b: usize| #[trigger] up@.contains((a, b)) <==> f.use_vars.contains(UseVar(a, b)),
            np@.to_set() == next_graph(f),
            kill@.no_duplicates(),
            ins@.no_duplicates(),
            outs@.no_duplicates(),
            edges@.no_duplicates(),
            forall|t: Kill| #[trigger] kill@.contains(t) <==>
                (exists|j: int| 0 <= j < k && sites@[j] == t.1) && kills(f, t.0, t.1),
            forall|t: In| #[trigger] ins@.contains(t) <==>
                (exists|j: int| 0 <= j < k && sites@[j] == t.1) && reached_from(f, t.1).contains(t.0),
            forall|t: Out| #[trigger] outs@.contains(t) <==>
                (exists|j: int| 0 <= j < k && sites@[j] == t.1)
                    && (t.0 == t.1 || (reached_from(f, t.1).contains(t.0) && !kills(f, t.0, t.1))),
            forall|t: Edge| #[trigger] edges@.contains(t) <==>
                (exists|j: int| 0 <= j < k && sites@[j] == t.0) && reached_from(f, t.0).contains(t.1)
                    && def_use(f, t.0, t.1),
            forall|a: usize, b: usize| #[trigger] graph@.contains((a, b)) <==> edges@.contains(Edge(a, b)),
        decreases sites@.len() - k,
    {
        let d = sites[k];
        let one = vec![d];
        let vars = image(&di, &one);
        let gate = image(&dv, &vars);
        let used = image(&up, &vars);
        let reached = reachable(&np, d, &gate);
        proof {
            assert(one@.contains(d) && forall|x: usize| #[trigger] one@.contains(x) ==> x == d);
            assert forall|v: usize| #[trigger] vars@.contains(v) <==> f.defs.contains(Def(v, d)) by {
                if f.defs.contains(Def(v, d)) {
                    assert(di@.contains((d, v)));
                }
            }
            assert forall|x: usize| #[trigger] gate@.contains(x) <==> kills(f, x, d) by {
                if gate@.contains(x) {
                    let v = choose|v: usize| vars@.contains(v) && dv@.contains((v, x));
                    assert(f.defs.contains(Def(v, x)) && f.defs.contains(Def(v, d)));
                }
                if kills(f, x, d) {
                    let v = choose|v: usize| #[trigger] f.defs.contains(Def(v, x)) && f.defs.contains(Def(v, d));
                    assert(vars@.contains(v) && dv@.contains((v, x)));
                }
            }
            assert forall|y: usize| #[trigger] used@.contains(y) <==> def_use(f, d, y) by {
                if used@.contains(y) {
                    let v = choose|v: usize| vars@.contains(v) && up@.contains((v, y));
                    assert(f.defs.contains(Def(v, d)) && f.use_vars.contains(UseVar(v, y)));
                }
                if def_use(f, d, y) {
                    let v = choose|v: usize| #[trigger] f.defs.contains(Def(v, d)) && f.use_vars.contains(UseVar(v, y));
                    assert(vars@.contains(v) && up@.contains((v, y)));
                }
            }
            assert(gate@.to_set() =~= killers(f, d));
            assert(reached@.to_set() == reached_from(f, d));
            assert(sites@[k as int] == d);
            assert(sites@.contains(d));
            assert(is_def_site(f, d));
            let v0 = choose|v: usize| #[trigger] f.defs.contains(Def(v, d));
            assert(kills(f, d, d));
            assert(gate@.contains(d));
            assert forall|j: int| 0 <= j < k implies sites@[j] != d by {}
        }
        push_kills(&mut kill, &gate, d);
        push_ins(&mut ins, &reached, d);
        push_outs(&mut outs, &reached, &gate, d);
        push_edges(&mut edges, &mut graph, &reached, &used, d);
        proof {
            assert forall|t: Kill| #[trigger] kill@.contains(t) <==>
                (exists|j: int| 0 <= j < k + 1 && sites@[j] == t.1) && kills(f, t.0, t.1) by {
                if exists|j: int| 0 <= j < k + 1 && sites@[j] == t.1 {
                    if t.1 != d {
                        let j = choose|j: int| 0 <= j < k + 1 && sites@[j] == t.1;
                        assert(j != k);
                    }
                }
            }
            assert forall|t: In| #[trigger] ins@.contains(t) <==>
                (exists|j: int| 0 <= j < k + 1 && sites@[j] == t.1) && reached_from(f, t.1).contains(t.0) by {
                if exists|j: int| 0 <= j < k + 1 && sites@[j] == t.1 {
                    if t.1 != d {
                        let j = choose|j: int| 0 <= j < k + 1 && sites@[j] == t.1;
                        assert(j != k);
                    }
                }
            }
            assert forall|t: Out| #[trigger] outs@.contains(t) <==>
                (exists|j: int| 0 <= j < k + 1 && sites@[j] == t.1)
                    && (t.0 == t.1 || (reached_from(f, t.1).contains(t.0) && !kills(f, t.0, t.1))) by {
                if exists|j: int| 0 <= j < k + 1 && sites@[j] == t.1 {
                    if t.1 != d {
                        let j = choose|j: int| 0 <= j < k + 1 && sites@[j] == t.1;
                        assert(j != k);
                    }
                }
            }
            assert forall|t: Edge| #[trigger] edges@.contains(t) <==>
                (exists|j: int| 0 <= j < k + 1 && sites@[j] == t.0) && reached_from(f, t.0).contains(t.1)
                    && def_use(f, t.0, t.1) by {
                if exists|j: int| 0 <= j < k + 1 && sites@[j] == t.0 {
                    if t.0 != d {
                        let j = choose|j: int| 0 <= j < k + 1 && sites@[j] == t.0;
                        assert(j != k);
                    }
                }
            }
        }
        k = k + 1;
    }
    proof {
        lemma_reaching_by_search(f);
        assert forall|d: usize| #[trigger] is_def_site(f, d) implies exists|j: int| 0 <= j < k && sites@[j] == d by {
            assert(sites@.contains(d));
        }
        assert(kill@.to_set() =~= kill_set(f)) by {
            assert forall|t: Kill| kill_set(f).contains(t) implies kill@.contains(t) by {
                let v = choose|v: usize| #[trigger] f.defs.contains(Def(v, t.0)) && f.defs.contains(Def(v, t.1));
                assert(is_def_site(f, t.1));
            }
        }
        assert forall|d: usize| (exists|j: int| 0 <= j < k && sites@[j] == d) implies #[trigger] is_def_site(f, d) by {
            let j = choose|j: int| 0 <= j < k && sites@[j] == d;
            assert(sites@.contains(d));
        }
        assert forall|t: In| #[trigger] ins@.to_set().contains(t) <==> in_set(f).contains(t) by {
            if is_def_site(f, t.1) {
                assert(exists|j: int| 0 <= j < k && sites@[j] == t.1);
            }
        }
        assert(ins@.to_set() =~= in_set(f));
        assert forall|t: Out| #[trigger] outs@.to_set().contains(t) <==> out_set(f).contains(t) by {
            if is_def_site(f, t.1) {
                assert(exists|j: int| 0 <= j < k && sites@[j] == t.1);
            }
        }
        assert(outs@.to_set() =~= out_set(f));
        assert(edges@.to_set() =~= edge_set(f)) by {
            assert forall|t: Edge| edge_set(f).contains(t) implies edges@.contains(t) by {
                let v = choose|v: usize| #[trigger] f.defs.contains(Def(v, t.0)) && f.use_vars.contains(UseVar(v, t.1));
                assert(is_def_site(f, t.0));
            }
        }
    }
    (kill, ins, outs, edges, graph)
}

/// Adds `Path(a, y)` for each `y` of `ys`.
fn push_paths(v: &mut Vec<Path>, ys: &Vec<usize>, a: usize)
    requires
        old(v)@.no_duplicates(),
        ys@.no_duplicates(),
        forall|t: Path| #[trigger] old(v)@.contains(t) ==> t.0 != a,
    ensures
        final(v)@.no_duplicates(),
        forall|t: Path| #[trigger] final(v)@.contains(t) <==> old(v)@.contains(t) || (t.0 == a && ys@.contains(t.1)),
{
    let ghost start = v@;
    let mut i: usize = 0;
    while i < ys.len()
        invariant
            i <= ys@.len(),
            ys@.no_duplicates(),
            v@.no_duplicates(),
            forall|t: Path| #[trigger] start.contains(t) ==> t.0 != a,
            forall|t: Path| #[trigger] v@.contains(t) <==>
                start.contains(t) || (t.0 == a && exists|j: int| 0 <= j < i && ys@[j] == t.1),
        decreases ys@.len() - i,
    {
        let t = Path(a, ys[i]);
        assert(!v@.contains(t));
        v.push(t);
        proof {
            assert forall|u: Path| #[trigger] v@.contains(u) <==>
                start.contains(u) || (u.0 == a && exists|j: int| 0 <= j < i + 1 && ys@[j] == u.1) by {
                if v@.contains(u) && u != t {
                    let j = choose|j: int| 0 <= j < v@.len() && v@[j] == u;
                    assert(v@.drop_last()[j] == u);
                }
                if u.0 == a && exists|j: int| 0 <= j < i + 1 && ys@[j] == u.1 {
                    if u != t {
                        let j = choose|j: int| 0 <= j < i + 1 && ys@[j] == u.1;
                        assert(j != i);
                    }
                }
            }
        }
        i = i + 1;
    }
}

/// Whether `t` is in `v`.
fn has_deadlock(v: &Vec<Deadlock>, t: Deadlock) -> (r: bool)
    ensures
        r == v@.contains(t),
{
    let mut i: usize = 0;
    while i < v.len()
        invariant
            i <= v@.len(),
            forall|j: int| 0 <= j < i ==> v@[j] != t,
        decreases v@.len() - i,
    {
        if v[i] == t {
            return true;
        }
        i = i + 1;
    }
    false
}

/// Adds `Deadlock(a, r, y)` for each lock `(y, r)` of `locks` whose
/// instruction `y` is in `ys`.
fn push_deadlocks(v: &mut Vec<Deadlock>, locks: &Vec<(usize, usize)>, ys: &Vec<usize>, a: usize)
    requires
        old(v)@.no_duplicates(),
    ensures
        final(v)@.no_duplicates(),
        forall|t: Deadlock| #[trigger] final(v)@.contains(t) <==> old(v)@.contains(t)
            || (t.0 == a && locks@.contains((t.2, t.1)) && ys@.contains(t.2)),
{
    let ghost start = v@;
    let mut i: usize = 0;
    while i < locks.len()
        invariant
            i <= locks@.len(),
            v@.no_duplicates(),
            forall|t: Deadlock| #[trigger] v@.contains(t) <==> start.contains(t)
                || (t.0 == a && ys@.contains(t.2) && exists|j: int| 0 <= j < i && locks@[j] == (t.2, t.1)),
        decreases locks@.len() - i,
    {
        let (y, r) = locks[i];
        let t = Deadlock(a, r, y);
        let ghost before = v@;
        if contains_node(ys, y) && !has_deadlock(v, t) {
            v.push(t);
        }
        proof {
            assert forall|u: Deadlock| #[trigger] v@.contains(u) <==> start.contains(u)
                || (u.0 == a && ys@.contains(u.2) && exists|j: int| 0 <= j < i + 1 && locks@[j] == (u.2, u.1)) by {
                if v@.contains(u) && u != t {
                    let j = choose|j: int| 0 <= j < v@.len() && v@[j] == u;
                    if v@.len() > before.len() {
                        assert(v@.drop_last()[j] == u);
                    }
                }
                if u == t && ys@.contains(y) {
                    assert(locks@[i as int] == (u.2, u.1));
                }
                if u.0 == a && ys@.contains(u.2) && exists|j: int| 0 <= j < i + 1 && locks@[j] == (u.2, u.1) {
                    let j = choose|j: int| 0 <= j < i + 1 && locks@[j] == (u.2, u.1);
                    if j == i {
                        assert(u == t);
                        assert(v@.contains(t));
                    }
                }
            }
        }
        i = i + 1;
    }
    proof {
        assert forall|t: Deadlock| #[trigger] v@.contains(t) <==> start.contains(t)
            || (t.0 == a && locks@.contains((t.2, t.1)) && ys@.contains(t.2)) by {
            if locks@.contains((t.2, t.1)) {
                let j = choose|j: int| 0 <= j < locks@.len() && locks@[j] == (t.2, t.1);
            }
        }
    }
}

/// Stratum 3 and 4: `Path` and `Deadlock`, each fact once, from the `Edge`
/// relation given as pairs.  Each lock site is searched from along `Edge`,
/// stopping at releasing instructions.
pub fn taint_stage(p: &ReentrantDeadlockPriors, graph: &Vec<(usize, usize)>) -> (r: (Vec<Path>, Vec<Deadlock>))
    requires
        forall|a: usize, b: usize| #[trigger] graph@.contains((a, b)) <==> edge_set(p@).contains(Edge(a, b)),
    ensures
        r.0@.no_duplicates(),
        r.1@.no_duplicates(),
        r.0@.to_set() == path_set(p@),
        r.1@.to_set() == deadlock_set(p@),
{
    let ghost f = p@;
    let lp = lock_pairs(&p.locks);
    let rp = release_pairs(&p.releases);
    let sites = firsts(&lp);
    let stops = firsts(&rp);
    proof {
        assert(graph@.to_set() =~= edge_graph(f));
        assert forall|m: usize| #[trigger] stops@.contains(m) <==> releases_any(f, m) by {
            if stops@.contains(m) {
                let r = choose|r: usize| rp@.contains((m, r));
                assert(f.releases.contains(Release(m, r)));
            }
            if releases_any(f, m) {
                let r = choose|r: usize| f.releases.contains(Release(m, r));
                assert(rp@.contains((m, r)));
            }
        }
        assert(stops@.to_set() =~= releasers(f));
        assert forall|a: usize| #[trigger] sites@.contains(a) <==> is_lock_site(f, a) by {
            if sites@.contains(a) {
                let r = choose|r: usize| lp@.contains((a, r));
                assert(f.locks.contains(Lock(a, r)));
            }
            if is_lock_site(f, a) {
                let r = choose|r: usize| f.locks.contains(Lock(a, r));
                assert(lp@.contains((a, r)));
            }
        }
    }
    let mut paths: Vec<Path> = Vec::new();
    let mut deadlocks: Vec<Deadlock> = Vec::new();
    let mut k: usize = 0;
    while k < sites.len()
        invariant
            f == p@,
            k <= sites@.len(),
            sites@.no_duplicates(),
            forall|a: usize| #[trigger] sites@.contains(a) <==> is_lock_site(f, a),
            forall|a: usize, b: usize| #[trigger] lp@.contains((a, b)) <==> f.locks.contains(Lock(a, b)),
            graph@.to_set() == edge_graph(f),
            stops@.to_set() == releasers(f),
            paths@.no_duplicates(),
            deadlocks@.no_duplicates(),
            forall|t: Path| #[trigger] paths@.contains(t) <==>
                (exists|j: int| 0 <= j < k && sites@[j] == t.0) && tainted_from(f, t.0).contains(t.1),
            forall|t: Deadlock| #[trigger] deadlocks@.contains(t) <==>
                (exists|j: int| 0 <= j < k && sites@[j] == t.0) && f.locks.contains(Lock(t.2, t.1))
                    && tainted_from(f, t.0).contains(t.2),
        decreases sites@.len() - k,
    {
        let a = sites[k];
        let reached = reachable(graph, a, &stops);
        proof {
            assert(reached@.to_set() == tainted_from(f, a));
            assert forall|j: int| 0 <= j < k implies sites@[j] != a by {}
        }
        push_paths(&mut paths, &reached, a);
        push_deadlocks(&mut deadlocks, &lp, &reached, a);
        proof {
            assert forall|t: Path| #[trigger] paths@.contains(t) <==>
                (exists|j: int| 0 <= j < k + 1 && sites@[j] == t.0) && tainted_from(f, t.0).contains(t.1) by {
                if exists|j: int| 0 <= j < k + 1 && sites@[j] == t.0 {
                    if t.0 != a {
                        let j = choose|j: int| 0 <= j < k + 1 && sites@[j] == t.0;
                        assert(j != k);
                    }
                }
            }
            assert forall|t: Deadlock| #[trigger] deadlocks@.contains(t) <==>
                (exists|j: int| 0 <= j < k + 1 && sites@[j] == t.0) && f.locks.contains(Lock(t.2, t.1))
                    && tainted_from(f, t.0).contains(t.2) by {
                if exists|j: int| 0 <= j < k + 1 && sites@[j] == t.0 {
                    if t.0 != a {
                        let j = choose|j: int| 0 <= j < k + 1 && sites@[j] == t.0;
                        assert(j != k);
                    }
                }
            }
        }
        k = k + 1;
    }
    proof {
        lemma_paths_by_search(f);
        assert forall|a: usize| #[trigger] is_lock_site(f, a) <==> exists|j: int| 0 <= j < k && sites@[j] == a by {
            if is_lock_site(f, a) {
                assert(sites@.contains(a));
            }
            if exists|j: int| 0 <= j < k && sites@[j] == a {
                assert(sites@.contains(a));
            }
        }
        assert(paths@.to_set() =~= path_set(f));
        assert(deadlocks@.to_set() =~= deadlock_set(f));
    }
    (paths, deadlocks)
}

/// Whether `x` is in `v`.
fn contains_pair(v: &Vec<(usize, usize)>, x: (usize, usize)) -> (r: bool)
    ensures
        r == v@.contains(x),
{
    let mut i: usize = 0;
    while i < v.len()
        invariant
            i <= v@.len(),
            forall|j: int| 0 <= j < i ==> v@[j] != x,
        decreases v@.len() - i,
    {
        let (a, b) = v[i];
        if a == x.0 && b == x.1 {
            return true;
        }
        i = i + 1;
    }
    false
}

/// Stratum 3 and 4 of the strict mode: for each lock `(a, r)` a search
/// from `a` along `Edge` that stops at releases of `r`, and a deadlock for
/// each acquisition of `r` that it reaches.
pub fn strict_taint_stage(p: &ReentrantDeadlockPriors, graph: &Vec<(usize, usize)>) -> (r: (Vec<Path>, Vec<Deadlock>))
    requires
        forall|a: usize, b: usize| #[trigger] graph@.contains((a, b)) <==> edge_set(p@).contains(Edge(a, b)),
    ensures
        r.0@.no_duplicates(),
        r.1@.no_duplicates(),
        r.0@.to_set() == strict_path_set(p@),
        r.1@.to_set() == strict_deadlock_set(p@),
{
    let ghost f = p@;
    let lp = lock_pairs(&p.locks);
    let rp = release_pairs(&p.releases);
    let by_resource = swapped(&rp);
    proof {
        assert(graph@.to_set() =~= edge_graph(f));
    }
    let mut paths: Vec<Path> = Vec::new();
    let mut deadlocks: Vec<Deadlock> = Vec::new();
    let mut k: usize = 0;
    while k < lp.len()
        invariant
            f == p@,
            k <= lp@.len(),
            forall|a: usize, b: usize| #[trigger] lp@.contains((a, b)) <==> f.locks.contains(Lock(a, b)),
            forall|a: usize, b: usize| #[trigger] by_resource@.contains((a, b)) <==> f.releases.contains(Release(b, a)),
            graph@.to_set() == edge_graph(f),
            paths@.no_duplicates(),
            deadlocks@.no_duplicates(),
            forall|t: Path| #[trigger] paths@.contains(t) <==>
                exists|j: int| 0 <= j < k && (#[trigger] lp@[j]).0 == t.0 && strict_tainted_from(f, t.0, lp@[j].1).contains(t.1),
            forall|t: Deadlock| #[trigger] deadlocks@.contains(t) <==>
                (exists|j: int| 0 <= j < k && #[trigger] lp@[j] == (t.0, t.1)) && f.locks.contains(Lock(t.2, t.1))
                    && strict_tainted_from(f, t.0, t.1).contains(t.2),
        decreases lp@.len() - k,
    {
        let (a, r) = lp[k];
        let one = vec![r];
        let stops = image(&by_resource, &one);
        proof {
            assert forall|m: usize| #[trigger] stops@.contains(m) <==> f.releases.contains(Release(m, r)) by {
                if f.releases.contains(Release(m, r)) {
                    assert(one@.contains(r) && by_resource@.contains((r, m)));
                }
            }
            assert(stops@.to_set() =~= releasers_of(f, r));
        }
        let reached = reachable(graph, a, &stops);
        let ghost paths0 = paths@;
        let ghost deadlocks0 = deadlocks@;
        let mut i: usize = 0;
        while i < reached.len()
            invariant
                i <= reached@.len(),
                forall|a2: usize, b2: usize| #[trigger] lp@.contains((a2, b2)) <==> f.locks.contains(Lock(a2, b2)),
                paths@.no_duplicates(),
                deadlocks@.no_duplicates(),
                forall|t: Path| #[trigger] paths@.contains(t) <==>
                    paths0.contains(t) || (t.0 == a && exists|ii: int| 0 <= ii < i && reached@[ii] == t.1),
                forall|t: Deadlock| #[trigger] deadlocks@.contains(t) <==> deadlocks0.contains(t)
                    || (t.0 == a && t.1 == r && lp@.contains((t.2, r)) && exists|ii: int| 0 <= ii < i && reached@[ii] == t.2),
            decreases reached@.len() - i,
        {
            let y = reached[i];
            let ghost pbefore = paths@;
            let ghost dbefore = deadlocks@;
            push_unique(&mut paths, Path(a, y));
            let found = contains_pair(&lp, (y, r));
            if found {
                push_unique(&mut deadlocks, Deadlock(a, r, y));
            }
            proof {
                assert forall|t: Path| #[trigger] paths@.contains(t) <==>
                    paths0.contains(t) || (t.0 == a && exists|ii: int| 0 <= ii < i + 1 && reached@[ii] == t.1) by {
                    assert(paths@.to_set().contains(t) == pbefore.to_set().insert(Path(a, y)).contains(t));
                    if t.0 == a && exists|ii: int| 0 <= ii < i + 1 && reached@[ii] == t.1 {
                        let ii = choose|ii: int| 0 <= ii < i + 1 && reached@[ii] == t.1;
                        if ii < i {
                            assert(pbefore.contains(t));
                        }
                    }
                }
                assert forall|t: Deadlock| #[trigger] deadlocks@.contains(t) <==> deadlocks0.contains(t)
                    || (t.0 == a && t.1 == r && lp@.contains((t.2, r)) && exists|ii: int| 0 <= ii < i + 1 && reached@[ii] == t.2) by {
                    if found {
                        assert(deadlocks@.to_set().contains(t) == dbefore.to_set().insert(Deadlock(a, r, y)).contains(t));
                    }
                    if t.0 == a && t.1 == r && lp@.contains((t.2, r)) && exists|ii: int| 0 <= ii < i + 1 && reached@[ii] == t.2 {
                        let ii = choose|ii: int| 0 <= ii < i + 1 && reached@[ii] == t.2;
                        if ii < i {
                            assert(dbefore.contains(t));
                        }
                    }
                }
            }
            i = i + 1;
        }
        proof {
            assert(reached@.to_set() == strict_tainted_from(f, a, r));
            assert forall|t: Path| #[trigger] paths@.contains(t) <==>
                exists|j: int| 0 <= j < k + 1 && (#[trigger] lp@[j]).0 == t.0 && strict_tainted_from(f, t.0, lp@[j].1).contains(t.1) by {
                if paths@.contains(t) && !paths0.contains(t) {
                    let ii = choose|ii: int| 0 <= ii < i && reached@[ii] == t.1;
                    assert(reached@.to_set().contains(t.1));
                    assert(lp@[k as int].0 == t.0);
                }
                if exists|j: int| 0 <= j < k + 1 && (#[trigger] lp@[j]).0 == t.0 && strict_tainted_from(f, t.0, lp@[j].1).contains(t.1) {
                    let j = choose|j: int| 0 <= j < k + 1 && (#[trigger] lp@[j]).0 == t.0 && strict_tainted_from(f, t.0, lp@[j].1).contains(t.1);
                    if j == k {
                        assert(reached@.to_set().contains(t.1));
                        let ii = choose|ii: int| 0 <= ii < reached@.len() && reached@[ii] == t.1;
                    }
                }
            }
            assert forall|t: Deadlock| #[trigger] deadlocks@.contains(t) <==>
                (exists|j: int| 0 <= j < k + 1 && #[trigger] lp@[j] == (t.0, t.1)) && f.locks.contains(Lock(t.2, t.1))
                    && strict_tainted_from(f, t.0, t.1).contains(t.2) by {
                if deadlocks@.contains(t) && !deadlocks0.contains(t) {
                    let ii = choose|ii: int| 0 <= ii < i && reached@[ii] == t.2;
                    assert(reached@.to_set().contains(t.2));
                    assert(lp@[k as int] == (t.0, t.1));
                }
                if (exists|j: int| 0 <= j < k + 1 && #[trigger] lp@[j] == (t.0, t.1)) && f.locks.contains(Lock(t.2, t.1))
                    && strict_tainted_from(f, t.0, t.1).contains(t.2) {
                    let j = choose|j: int| 0 <= j < k + 1 && #[trigger] lp@[j] == (t.0, t.1);
                    if j == k {
                        assert(reached@.to_set().contains(t.2));
                        let ii = choose|ii: int| 0 <= ii < reached@.len() && reached@[ii] == t.2;
                        assert(lp@.contains((t.2, r)));
                    }
                }
            }
        }
        k = k + 1;
    }
    proof {
        lemma_strict_by_search(f);
        assert forall|t: Path| #[trigger] paths@.to_set().contains(t) <==> strict_path_set(f).contains(t) by {
            if paths@.contains(t) {
                let j = choose|j: int| 0 <= j < k && (#[trigger] lp@[j]).0 == t.0 && strict_tainted_from(f, t.0, lp@[j].1).contains(t.1);
                assert(lp@.contains(lp@[j]));
                assert(f.locks.contains(Lock(t.0, lp@[j].1)));
                assert(strict_taint_set(f).contains((t.0, t.1, lp@[j].1)));
            }
            if strict_path_set(f).contains(t) {
                let r = choose|r: usize| #[trigger] strict_taint_set(f).contains((t.0, t.1, r));
                assert(lp@.contains((t.0, r)));
                let j = choose|j: int| 0 <= j < lp@.len() && lp@[j] == (t.0, r);
                assert(lp@[j].0 == t.0 && strict_tainted_from(f, t.0, lp@[j].1).contains(t.1));
            }
        }
        assert(paths@.to_set() =~= strict_path_set(f));
        assert forall|t: Deadlock| #[trigger] deadlocks@.to_set().contains(t) <==> strict_deadlock_set(f).contains(t) by {
            if deadlocks@.contains(t) {
                let j = choose|j: int| 0 <= j < k && #[trigger] lp@[j] == (t.0, t.1);
                assert(lp@.contains((t.0, t.1)));
            }
            if strict_deadlock_set(f).contains(t) {
                assert(lp@.contains((t.0, t.1)));
                let j = choose|j: int| 0 <= j < lp@.len() && lp@[j] == (t.0, t.1);
            }
        }
        assert(deadlocks@.to_set() =~= strict_deadlock_set(f));
    }
    (paths, deadlocks)
}

} // verus!
