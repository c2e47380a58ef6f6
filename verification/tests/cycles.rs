use order_analysis::chunk_cycles::ChunkCycles;
use rustc_hash::FxHashSet;

fn edges(lists: Vec<Vec<usize>>) -> Vec<FxHashSet<usize>> {
    lists.into_iter().map(|list| list.into_iter().collect()).collect()
}

fn components(cycles: &ChunkCycles) -> Vec<Vec<usize>> {
    let mut all: Vec<Vec<usize>> = cycles
        .sccs
        .iter()
        .map(|scc| {
            let mut members = scc.clone();
            members.sort();
            members
        })
        .collect();
    all.sort();
    all
}

#[test]
fn chunks_without_cycles_have_no_components() {
    let cycles = ChunkCycles::from_import_edges(&edges(vec![vec![1, 2], vec![2], vec![]]));
    assert!(cycles.sccs.is_empty());
    assert!(cycles.scc_of_chunk.is_empty());
}

#[test]
fn two_chunks_that_import_each_other_are_one_component() {
    let cycles = ChunkCycles::from_import_edges(&edges(vec![vec![1], vec![2], vec![1, 3], vec![]]));
    assert_eq!(components(&cycles), vec![vec![1, 2]]);
    assert_eq!(cycles.scc_of_chunk.get(&1), Some(&0));
    assert_eq!(cycles.scc_of_chunk.get(&2), Some(&0));
    assert_eq!(cycles.scc_of_chunk.get(&0), None);
    assert_eq!(cycles.scc_of_chunk.get(&3), None);
}

#[test]
fn a_chunk_that_imports_itself_is_a_component() {
    let cycles = ChunkCycles::from_import_edges(&edges(vec![vec![0], vec![0]]));
    assert_eq!(components(&cycles), vec![vec![0]]);
}

#[test]
fn separate_cycles_are_separate_components() {
    let cycles = ChunkCycles::from_import_edges(&edges(vec![
        vec![1],
        vec![0, 2],
        vec![3],
        vec![4],
        vec![2],
    ]));
    assert_eq!(components(&cycles), vec![vec![0, 1], vec![2, 3, 4]]);
    // A component comes after those that it imports.
    assert_eq!(cycles.scc_of_chunk.get(&2), Some(&0));
    assert_eq!(cycles.scc_of_chunk.get(&0), Some(&1));
    for (chunk, scc) in &cycles.scc_of_chunk {
        assert!(cycles.sccs[*scc].contains(chunk));
    }
}

#[test]
fn a_cycle_is_reachable_along_imports_only_forwards() {
    let import_edges = edges(vec![vec![1], vec![2], vec![1], vec![0], vec![]]);
    let cycles = ChunkCycles::from_import_edges(&import_edges);
    assert!(cycles.reachable_from(0, &import_edges));
    assert!(cycles.reachable_from(1, &import_edges));
    assert!(cycles.reachable_from(3, &import_edges));
    assert!(!cycles.reachable_from(4, &import_edges));
}

#[test]
fn without_cycles_none_is_reachable() {
    let import_edges = edges(vec![vec![1], vec![]]);
    let cycles = ChunkCycles::from_import_edges(&import_edges);
    assert!(!cycles.reachable_from(0, &import_edges));
}
