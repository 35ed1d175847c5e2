//! Gated reachability over a graph of integer nodes.
//!
//! Both recursive strata of the engine have the same shape: starting from a
//! source node, follow edges, and keep following them out of a node only if
//! that node is not in a gate set.  This module computes that set of nodes.
use vstd::prelude::*;
use vstd::set_lib::lemma_len_subset;

verus! {

broadcast use vstd::seq_lib::group_seq_properties;

/// `nodes` is closed under the search rules from `src`: every direct
/// successor of `src` is in it, and every successor of a member that is not
/// gated is in it.
pub open spec fn reach_closed(edges: Set<(usize, usize)>, src: usize, gate: Set<usize>, nodes: Set<usize>) -> bool {
    &&& forall|y: usize| #[trigger] edges.contains((src, y)) ==> nodes.contains(y)
    &&& forall|m: usize, y: usize|
        nodes.contains(m) && !gate.contains(m) && #[trigger] edges.contains((m, y)) ==> nodes.contains(y)
}

/// The least set closed under the search rules: the nodes reachable from
/// `src` by a path whose inner nodes are all outside `gate`.
pub open spec fn reach_set(edges: Set<(usize, usize)>, src: usize, gate: Set<usize>) -> Set<usize> {
    Set::new(|y: usize| forall|nodes: Set<usize>| #[trigger] reach_closed(edges, src, gate, nodes) ==> nodes.contains(y))
}

/// A duplicate-free sequence whose elements all occur in `b` is no longer than `b`.
pub proof fn lemma_distinct_len_bound<A>(a: Seq<A>, b: Seq<A>)
    requires
        a.no_duplicates(),
        forall|i: int| 0 <= i < a.len() ==> b.contains(#[trigger] a[i]),
    ensures
        a.len() <= b.len(),
{
    a.unique_seq_to_set();
    b.lemma_cardinality_of_set();
    assert(a.to_set().subset_of(b.to_set()));
    lemma_len_subset(a.to_set(), b.to_set());
}

/// Whether `x` occurs in `v`.
pub fn contains_node(v: &Vec<usize>, x: usize) -> (r: bool)
    ensures
        r == v@.contains(x),
{
    let mut i: usize = 0;
    while i < v.len()
        invariant
            i <= v.len(),
            forall|j: int| 0 <= j < i ==> v@[j] != x,
        decreases v.len() - i,
    {
        if v[i] == x {
            return true;
        }
        i = i + 1;
    }
    false
}

/// The second components of `edges`: the nodes that some edge enters.
pub open spec fn targets(edges: Seq<(usize, usize)>) -> Seq<usize> {
    edges.map_values(|e: (usize, usize)| e.1)
}

/// Appends to `visited` every successor of `m` that it does not hold yet.
fn add_successors(edges: &Vec<(usize, usize)>, m: usize, visited: &mut Vec<usize>)
    requires
        old(visited)@.no_duplicates(),
        forall|i: int| 0 <= i < old(visited)@.len() ==> targets(edges@).contains(#[trigger] old(visited)@[i]),
    ensures
        final(visited)@.no_duplicates(),
        final(visited)@.len() >= old(visited)@.len(),
        final(visited)@.subrange(0, old(visited)@.len() as int) == old(visited)@,
        forall|i: int| 0 <= i < final(visited)@.len() ==> targets(edges@).contains(#[trigger] final(visited)@[i]),
        forall|y: usize| #[trigger] edges@.contains((m, y)) ==> final(visited)@.contains(y),
        forall|y: usize| #[trigger] final(visited)@.contains(y) ==> old(visited)@.contains(y) || edges@.contains((m, y)),
{
    let ghost start = visited@;
    let mut j: usize = 0;
    while j < edges.len()
        invariant
            j <= edges.len(),
            visited@.no_duplicates(),
            visited@.len() >= start.len(),
            visited@.subrange(0, start.len() as int) == start,
            forall|i: int| 0 <= i < visited@.len() ==> targets(edges@).contains(#[trigger] visited@[i]),
            forall|k: int| 0 <= k < j && (#[trigger] edges@[k]).0 == m ==> visited@.contains(edges@[k].1),
            forall|y: usize| #[trigger] visited@.contains(y) ==> start.contains(y) || edges@.contains((m, y)),
        decreases edges.len() - j,
    {
        let (a, b) = edges[j];
        if a == m && !contains_node(visited, b) {
            proof {
                assert(targets(edges@)[j as int] == b);
                assert(edges@[j as int] == (m, b));
            }
            visited.push(b);
            proof {
                assert(visited@.subrange(0, start.len() as int) =~= start);
                assert forall|y: usize| #[trigger] visited@.contains(y) implies start.contains(y) || edges@.contains((m, y)) by {
                    if y != b {
                        let i = choose|i: int| 0 <= i < visited@.len() && visited@[i] == y;
                        assert(visited@.drop_last().contains(y)) by {
                            assert(visited@.drop_last()[i] == y);
                        }
                    }
                }
            }
        }
        j = j + 1;
    }
    proof {
        assert forall|y: usize| #[trigger] edges@.contains((m, y)) implies visited@.contains(y) by {
            let k = choose|k: int| 0 <= k < edges@.len() && edges@[k] == (m, y);
            assert(edges@[k].0 == m);
        }
    }
}

/// The nodes reachable from `src`: each successor of `src`, and each
/// successor of a reached node that is not in `gate`.  Every node appears
/// once.
pub fn reachable(edges: &Vec<(usize, usize)>, src: usize, gate: &Vec<usize>) -> (r: Vec<usize>)
    ensures
        r@.no_duplicates(),
        r@.to_set() == reach_set(edges@.to_set(), src, gate@.to_set()),
{
    let mut visited: Vec<usize> = Vec::new();
    add_successors(edges, src, &mut visited);
    proof {
        lemma_distinct_len_bound(visited@, targets(edges@));
        assert forall|nodes: Set<usize>| #[trigger] reach_closed(edges@.to_set(), src, gate@.to_set(), nodes) implies
            forall|i: int| 0 <= i < visited@.len() ==> nodes.contains(#[trigger] visited@[i]) by {
            assert forall|i: int| 0 <= i < visited@.len() implies nodes.contains(#[trigger] visited@[i]) by {
                assert(visited@.contains(visited@[i]));
                assert(edges@.to_set().contains((src, visited@[i])));
            }
        }
    }
    let mut k: usize = 0;
    while k < visited.len()
        invariant
            k <= visited@.len(),
            visited@.len() <= edges@.len(),
            visited@.no_duplicates(),
            forall|i: int| 0 <= i < visited@.len() ==> targets(edges@).contains(#[trigger] visited@[i]),
            forall|y: usize| #[trigger] edges@.contains((src, y)) ==> visited@.contains(y),
            forall|i: int, y: usize|
                0 <= i < k && !gate@.contains(visited@[i]) && #[trigger] edges@.contains((visited@[i], y))
                    ==> visited@.contains(y),
            forall|nodes: Set<usize>| #[trigger] reach_closed(edges@.to_set(), src, gate@.to_set(), nodes) ==>
                forall|i: int| 0 <= i < visited@.len() ==> nodes.contains(#[trigger] visited@[i]),
        decreases edges@.len() - k,
    {
        let m = visited[k];
        if !contains_node(gate, m) {
            let ghost before = visited@;
            add_successors(edges, m, &mut visited);
            proof {
                lemma_distinct_len_bound(visited@, targets(edges@));
                assert forall|i: int| 0 <= i < before.len() implies visited@[i] == #[trigger] before[i] by {
                    assert(visited@.subrange(0, before.len() as int)[i] == visited@[i]);
                }
                assert forall|y: usize| #[trigger] edges@.contains((src, y)) implies visited@.contains(y) by {
                    let i = choose|i: int| 0 <= i < before.len() && before[i] == y;
                    assert(visited@[i] == y);
                }
                assert forall|i: int, y: usize|
                    0 <= i < k + 1 && !gate@.contains(visited@[i]) && #[trigger] edges@.contains((visited@[i], y))
                        implies visited@.contains(y) by {
                    assert(visited@[i] == before[i]);
                    if i < k {
                        let j = choose|j: int| 0 <= j < before.len() && before[j] == y;
                        assert(visited@[j] == y);
                    }
                }
                assert forall|nodes: Set<usize>| #[trigger] reach_closed(edges@.to_set(), src, gate@.to_set(), nodes) implies
                    forall|i: int| 0 <= i < visited@.len() ==> nodes.contains(#[trigger] visited@[i]) by {
                    assert forall|i: int| 0 <= i < visited@.len() implies nodes.contains(#[trigger] visited@[i]) by {
                        let y = visited@[i];
                        assert(visited@.contains(y));
                        if before.contains(y) {
                            let j = choose|j: int| 0 <= j < before.len() && before[j] == y;
                        } else {
                            assert(edges@.contains((m, y)));
                            assert(edges@.to_set().contains((m, y)));
                            assert(nodes.contains(before[k as int]));
                            assert(!gate@.to_set().contains(m));
                        }
                    }
                }
            }
        }
        k = k + 1;
    }
    proof {
        let found = visited@.to_set();
        assert(reach_closed(edges@.to_set(), src, gate@.to_set(), found)) by {
            assert forall|m: usize, y: usize|
                found.contains(m) && !gate@.contains(m) && #[trigger] edges@.contains((m, y)) implies found.contains(y) by {
                let i = choose|i: int| 0 <= i < visited@.len() && visited@[i] == m;
                assert(edges@.contains((visited@[i], y)));
            }
        }
        assert forall|y: usize| found.contains(y) <==> reach_set(edges@.to_set(), src, gate@.to_set()).contains(y) by {
            if found.contains(y) {
                let i = choose|i: int| 0 <= i < visited@.len() && visited@[i] == y;
                assert forall|nodes: Set<usize>| #[trigger] reach_closed(edges@.to_set(), src, gate@.to_set(), nodes) implies nodes.contains(y) by {
                    assert(nodes.contains(visited@[i]));
                }
            }
        }
        assert(found =~= reach_set(edges@.to_set(), src, gate@.to_set()));
    }
    visited
}

} // verus!
