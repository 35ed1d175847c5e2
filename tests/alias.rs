use badlock::alias::{AliasCycleError, MayAliasTable, Symbol};
use badlock::interner::InsertionOrderMap;

fn sym(s: &str) -> Symbol {
    Symbol(s.to_string())
}

#[test]
fn guard_resolves_to_its_resource() {
    let mut table = MayAliasTable::new();
    table.insert(sym("guard"), sym("resource"));
    assert_eq!(table.get_root_symbol(&sym("guard")), Ok(sym("resource")));
    assert_eq!(table.get_root_symbol(&sym("resource")), Ok(sym("resource")));
}

#[test]
fn two_symbol_cycle_fails() {
    let mut table = MayAliasTable::new();
    table.insert(sym("a"), sym("b"));
    table.insert(sym("b"), sym("a"));
    assert_eq!(table.get_root_symbol(&sym("a")), Err(AliasCycleError));
    assert_eq!(table.get_root_symbol(&sym("b")), Err(AliasCycleError));
    assert_eq!(table.get(&sym("a")), Some(&sym("b")));
}

#[test]
fn longer_cycle_behind_a_chain_fails() {
    let mut table = MayAliasTable::new();
    table.insert(sym("start"), sym("a"));
    table.insert(sym("a"), sym("b"));
    table.insert(sym("b"), sym("c"));
    table.insert(sym("c"), sym("a"));
    assert_eq!(table.get_root_symbol(&sym("start")), Err(AliasCycleError));
}

#[test]
fn chains_and_self_maps_reach_their_root() {
    let mut table = MayAliasTable::new();
    table.insert(sym("g2"), sym("g1"));
    table.insert(sym("g1"), sym("m"));
    table.insert(sym("m"), sym("m"));
    assert_eq!(table.get_root_symbol(&sym("g2")), Ok(sym("m")));
    assert_eq!(table.get_root_symbol(&sym("unknown")), Ok(sym("unknown")));
}

#[test]
fn last_insert_wins() {
    let mut table = MayAliasTable::new();
    table.insert(sym("g"), sym("first"));
    table.insert(sym("g"), sym("second"));
    assert_eq!(table.get(&sym("g")), Some(&sym("second")));
    assert_eq!(table.get(&sym("h")), None);
    assert_eq!(table.get_root_symbol(&sym("g")), Ok(sym("second")));
}

#[test]
fn interner_hands_out_dense_handles() {
    let mut names = InsertionOrderMap::new();
    assert_eq!(names.map(sym("a")), 0);
    assert_eq!(names.map(sym("b")), 1);
    assert_eq!(names.map(sym("a")), 0);
    assert_eq!(names.map(sym("c")), 2);
    assert_eq!(names.len(), 3);
    assert_eq!(names.unmap(1), Some(sym("b")));
    assert_eq!(names.unmap(0), Some(sym("a")));
    assert_eq!(names.unmap(3), None);
}

#[test]
fn distinct_symbols_get_distinct_handles() {
    let mut names = InsertionOrderMap::new();
    let words = ["x", "y", "inst-0", "inst-1", "x", "y"];
    let ids: Vec<usize> = words.iter().map(|w| names.map(sym(w))).collect();
    assert_eq!(ids, vec![0, 1, 2, 3, 0, 1]);
    for (w, id) in words.iter().zip(ids.iter()) {
        assert_eq!(names.unmap(*id), Some(sym(w)));
    }
}
