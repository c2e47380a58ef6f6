//! Cycles of the static imports between chunks.

use std::hash::BuildHasher;

use petgraph::graphmap::GraphMap;
use petgraph::prelude::DiGraphMap;
use petgraph::Directed;
use rustc_hash::{FxHashMap, FxHashSet};
use vstd::prelude::*;

use crate::chunks::ChunkIdx;
use crate::fx;
use crate::indices;
use crate::reach;

verus! {

/// `petgraph::Directed`: the marker of a directed graph.
#[verifier::external_type_specification]
#[verifier::external_body]
pub struct ExDirected(Directed);

/// `petgraph::graphmap::GraphMap`: a graph whose nodes are plain keys.
#[verifier::external_type_specification]
#[verifier::external_body]
#[verifier::reject_recursive_types(N)]
#[verifier::reject_recursive_types(E)]
#[verifier::reject_recursive_types(Ty)]
#[verifier::reject_recursive_types(S)]
pub struct ExGraphMap<N, E, Ty, S: BuildHasher>(GraphMap<N, E, Ty, S>);

/// The nodes of a graph.
pub uninterp spec fn graph_nodes(graph: DiGraphMap<usize, ()>) -> Set<usize>;

/// The edges of a graph, each as its source and its target.
pub uninterp spec fn graph_edges(graph: DiGraphMap<usize, ()>) -> Set<(usize, usize)>;

/// A set of pairs as a relation.
pub open spec fn linked(edges: Set<(usize, usize)>) -> spec_fn(usize, usize) -> bool {
    |a: usize, b: usize| edges.contains((a, b))
}

/// `GraphMap::new`: a graph without nodes and edges.
#[verifier::external_body]
fn graph_new() -> (graph: DiGraphMap<usize, ()>)
    ensures
        graph_nodes(graph) == Set::<usize>::empty(),
        graph_edges(graph) == Set::<(usize, usize)>::empty(),
{
    DiGraphMap::new()
}

/// `GraphMap::add_node`: adds a node, and leaves the edges alone.
#[verifier::external_body]
fn graph_add_node(graph: &mut DiGraphMap<usize, ()>, node: usize)
    ensures
        graph_nodes(*final(graph)) == graph_nodes(*old(graph)).insert(node),
        graph_edges(*final(graph)) == graph_edges(*old(graph)),
{
    graph.add_node(node);
}

/// `GraphMap::add_edge`: adds the edge from `a` to `b`, and the two nodes if they are missing.
#[verifier::external_body]
fn graph_add_edge(graph: &mut DiGraphMap<usize, ()>, a: usize, b: usize)
    ensures
        graph_nodes(*final(graph)) == graph_nodes(*old(graph)).insert(a).insert(b),
        graph_edges(*final(graph)) == graph_edges(*old(graph)).insert((a, b)),
{
    graph.add_edge(a, b, ());
}

/// `petgraph::algo::tarjan_scc`: the strongly connected components. Every node is in exactly one of
/// them, once. Two nodes are in the same component exactly if each reaches the other. No edge leads
/// from a component to a later one. The order within a component is open.
#[verifier::external_body]
fn tarjan_scc(graph: &DiGraphMap<usize, ()>) -> (components: Vec<Vec<usize>>)
    ensures
        forall|i: int|
            0 <= i < components@.len() ==> (#[trigger] components@[i])@.len() > 0
                && components@[i]@.no_duplicates(),
        forall|i: int, x: usize|
            0 <= i < components@.len() && #[trigger] components@[i]@.contains(x)
                ==> graph_nodes(*graph).contains(x),
        forall|x: usize| #[trigger]
            graph_nodes(*graph).contains(x) ==> exists|i: int|
                0 <= i < components@.len() && #[trigger] components@[i]@.contains(x),
        forall|i: int, j: int, x: usize, y: usize|
            0 <= i < components@.len() && 0 <= j < components@.len()
                && #[trigger] components@[i]@.contains(x) && #[trigger] components@[j]@.contains(y)
                ==> (i == j <==> reach::strongly_connected(linked(graph_edges(*graph)), x, y)),
        forall|i: int, j: int, x: usize, y: usize|
            0 <= i < j < components@.len() && #[trigger] components@[i]@.contains(x)
                && #[trigger] components@[j]@.contains(y) ==> !graph_edges(*graph).contains((x, y)),
{
    petgraph::algo::tarjan_scc(graph)
}

/// Chunk `a` imports chunk `b`.
pub open spec fn imports(import_edges: Seq<FxHashSet<ChunkIdx>>) -> spec_fn(
    ChunkIdx,
    ChunkIdx,
) -> bool {
    |a: ChunkIdx, b: ChunkIdx| a < import_edges.len() && import_edges[a as int]@.contains(b)
}

/// Every import leads to a chunk.
pub open spec fn imports_wf(import_edges: Seq<FxHashSet<ChunkIdx>>) -> bool {
    forall|a: ChunkIdx, b: ChunkIdx| #[trigger]
        imports(import_edges)(a, b) ==> b < import_edges.len()
}

/// Chunk `c` is on a cycle of `edge`, and so is `d`, with a path each way.
pub open spec fn cycle_mates(edge: spec_fn(ChunkIdx, ChunkIdx) -> bool) -> spec_fn(
    ChunkIdx,
    ChunkIdx,
) -> bool {
    |c: ChunkIdx, d: ChunkIdx|
        reach::on_cycle(edge, c) && reach::strongly_connected(edge, c, d)
}

/// Nontrivial strongly connected components of the imports between chunks: two or more chunks, or
/// one that imports itself. The bailout of each root and the closure of the plan both read them.
#[derive(Debug)]
pub struct ChunkCycles {
    pub scc_of_chunk: FxHashMap<ChunkIdx, usize>,
    pub sccs: Vec<Vec<ChunkIdx>>,
}

impl ChunkCycles {
    /// These are the cycles of `edge`: the components are the classes of the chunks on cycles that
    /// reach each other, and each chunk on a cycle knows its component.
    pub open spec fn describes(self, edge: spec_fn(ChunkIdx, ChunkIdx) -> bool) -> bool {
        &&& forall|c: ChunkIdx| #[trigger]
            self.scc_of_chunk@.contains_key(c) <==> reach::on_cycle(edge, c)
        &&& forall|c: ChunkIdx| #[trigger]
            self.scc_of_chunk@.contains_key(c) ==> self.scc_of_chunk@[c] < self.sccs@.len()
                && self.sccs@[self.scc_of_chunk@[c] as int]@.contains(c)
        &&& forall|i: int, c: ChunkIdx|
            0 <= i < self.sccs@.len() && #[trigger] self.sccs@[i]@.contains(c)
                ==> self.scc_of_chunk@.contains_key(c) && self.scc_of_chunk@[c] == i
        &&& forall|i: int|
            0 <= i < self.sccs@.len() ==> (#[trigger] self.sccs@[i])@.len() > 0
                && self.sccs@[i]@.no_duplicates()
        &&& forall|a: ChunkIdx, b: ChunkIdx| #[trigger]
            self.scc_of_chunk@.contains_key(a) && #[trigger] self.scc_of_chunk@.contains_key(b)
                ==> (self.scc_of_chunk@[a] == self.scc_of_chunk@[b] <==> reach::strongly_connected(
                edge,
                a,
                b,
            ))
    }

    /// No chunk of a component imports one of a later component.
    pub open spec fn ordered(self, edge: spec_fn(ChunkIdx, ChunkIdx) -> bool) -> bool {
        forall|i: int, j: int, c: ChunkIdx, d: ChunkIdx|
            0 <= i < j < self.sccs@.len() && #[trigger] self.sccs@[i]@.contains(c)
                && #[trigger] self.sccs@[j]@.contains(d) ==> !edge(c, d)
    }

    /// Every index leads somewhere, in a program of `chunk_count` chunks.
    pub open spec fn wf(self, chunk_count: nat) -> bool {
        &&& forall|c: ChunkIdx| #[trigger]
            self.scc_of_chunk@.contains_key(c) ==> self.scc_of_chunk@[c] < self.sccs@.len()
        &&& forall|i: int, k: int|
            0 <= i < self.sccs@.len() && 0 <= k < self.sccs@[i]@.len() ==> (
            #[trigger] self.sccs@[i]@[k]) < chunk_count
    }

    /// Chunk `c` is on a cycle, and `d` is in the same component.
    pub open spec fn joins(self, c: ChunkIdx, d: ChunkIdx) -> bool {
        self.scc_of_chunk@.contains_key(c) && self.sccs@[self.scc_of_chunk@[c] as int]@.contains(d)
    }

    pub open spec fn same_cycle(self) -> spec_fn(ChunkIdx, ChunkIdx) -> bool {
        |c: ChunkIdx, d: ChunkIdx| self.joins(c, d)
    }

    /// Two chunks are in one component exactly if the first is on a cycle and each reaches the
    /// other.
    pub proof fn lemma_same_cycle(self, edge: spec_fn(ChunkIdx, ChunkIdx) -> bool)
        requires
            self.describes(edge),
        ensures
            self.same_cycle() == cycle_mates(edge),
    {
        assert forall|c: ChunkIdx, d: ChunkIdx| #[trigger]
            self.joins(c, d) <==> reach::on_cycle(edge, c) && reach::strongly_connected(
                edge,
                c,
                d,
            ) by {
            if reach::on_cycle(edge, c) && reach::strongly_connected(edge, c, d) {
                assert(self.scc_of_chunk@.contains_key(c));
                if c != d {
                    let first = reach::lemma_reaches_first_edge(edge, d, c);
                    reach::lemma_reaches_trans(edge, first, c, d);
                    assert(reach::on_cycle(edge, d));
                }
                assert(self.scc_of_chunk@.contains_key(d));
            }
        }
        assert(self.same_cycle() =~= cycle_mates(edge));
    }

    /// Finds the cycles of the imports between chunks.
    #[verifier::rlimit(40)]
    pub fn from_import_edges(import_edges: &Vec<FxHashSet<ChunkIdx>>) -> (cycles: Self)
        requires
            imports_wf(import_edges@),
        ensures
            cycles.describes(imports(import_edges@)),
            cycles.ordered(imports(import_edges@)),
            cycles.wf(import_edges@.len()),
    {
        let ghost edge = imports(import_edges@);
        let graph = graph_of_imports(import_edges);
        let components = tarjan_scc(&graph);
        proof {
            assert(linked(graph_edges(graph)) =~= edge);
            assert forall|j: int, x: ChunkIdx, y: ChunkIdx|
                0 <= j < components@.len() && #[trigger] components@[j]@.contains(x)
                    && #[trigger] edge(x, y) implies exists|l: int|
                0 <= l < components@.len() && #[trigger] components@[l]@.contains(y) by {
                assert(graph_nodes(graph).contains(y));
            }
        }
        let mut scc_of_chunk: FxHashMap<ChunkIdx, usize> = FxHashMap::default();
        let mut sccs: Vec<Vec<ChunkIdx>> = Vec::new();
        // The position among `components` of each component that is kept.
        let ghost mut kept: Seq<int> = Seq::empty();
        let mut i: usize = 0;
        while i < components.len()
            invariant
                edge == imports(import_edges@),
                is_partition(components@, edge),
                forall|j: int, x: ChunkIdx|
                    0 <= j < components@.len() && #[trigger] components@[j]@.contains(x) ==> x
                        < import_edges@.len(),
                i <= components@.len(),
                kept.len() == sccs@.len(),
                forall|t: int|
                    0 <= t < kept.len() ==> 0 <= #[trigger] kept[t] < i && sccs@[t]@
                        == components@[kept[t]]@ && is_cycle(components@[kept[t]]@, edge),
                forall|t: int, u: int|
                    0 <= t < u < kept.len() ==> #[trigger] kept[t] < #[trigger] kept[u],
                forall|j: int|
                    0 <= j < i && is_cycle(#[trigger] components@[j]@, edge) ==> kept.contains(j),
                forall|c: ChunkIdx| #[trigger]
                    scc_of_chunk@.contains_key(c) ==> scc_of_chunk@[c] < sccs@.len()
                        && sccs@[scc_of_chunk@[c] as int]@.contains(c),
                forall|t: int, c: ChunkIdx|
                    0 <= t < sccs@.len() && #[trigger] sccs@[t]@.contains(c)
                        ==> scc_of_chunk@.contains_key(c) && scc_of_chunk@[c] == t,
            decreases components.len() - i,
        {
            let scc: &Vec<ChunkIdx> = &components[i];
            assert(scc@ == components@[i as int]@);
            assert(scc@.contains(scc@[0]));
            if scc.len() < 2 && !fx::set_contains(&import_edges[scc[0]], scc[0]) {
                assert(!is_cycle(scc@, edge));
                i = i + 1;
                continue;
            }
            assert(is_cycle(scc@, edge));
            let ghost before = scc_of_chunk@;
            let number: usize = sccs.len();
            let mut k: usize = 0;
            while k < scc.len()
                invariant
                    k <= scc@.len(),
                    forall|c: ChunkIdx| #[trigger]
                        scc_of_chunk@.contains_key(c) <==> before.contains_key(c) || scc@.take(
                            k as int,
                        ).contains(c),
                    forall|c: ChunkIdx| #[trigger]
                        scc_of_chunk@.contains_key(c) ==> scc_of_chunk@[c] == if scc@.take(
                            k as int,
                        ).contains(c) {
                            number
                        } else {
                            before[c]
                        },
                decreases scc.len() - k,
            {
                let chunk_idx = scc[k];
                fx::map_insert(&mut scc_of_chunk, chunk_idx, number);
                proof {
                    assert(scc@.take(k + 1) =~= scc@.take(k as int).push(chunk_idx));
                    assert forall|c: ChunkIdx|
                        scc@.take(k + 1).contains(c) <==> #[trigger] scc@.take(k as int).contains(c)
                            || c == chunk_idx by {
                        vstd::seq_lib::lemma_seq_contains_after_push(
                            scc@.take(k as int),
                            chunk_idx,
                            c,
                        );
                    }
                    assert forall|c: ChunkIdx| #[trigger]
                        scc_of_chunk@.contains_key(c) <==> before.contains_key(c) || scc@.take(
                            k + 1,
                        ).contains(c) by {
                        assert(scc@.take(k + 1).contains(c) <==> scc@.take(k as int).contains(c)
                            || c == chunk_idx);
                    }
                    assert forall|c: ChunkIdx| #[trigger]
                        scc_of_chunk@.contains_key(c) implies scc_of_chunk@[c] == if scc@.take(
                        k + 1,
                    ).contains(c) {
                        number
                    } else {
                        before[c]
                    } by {
                        assert(scc@.take(k + 1).contains(c) <==> scc@.take(k as int).contains(c)
                            || c == chunk_idx);
                    }
                }
                k = k + 1;
            }
            assert(scc@.take(scc@.len() as int) =~= scc@);
            let members = scc.clone();
            assert(members@ =~= scc@);
            let ghost sccs_before = sccs@;
            let ghost kept_before = kept;
            sccs.push(members);
            proof {
                kept = kept.push(i as int);
                assert(kept[sccs_before.len() as int] == i);
                assert forall|j: int|
                    0 <= j < i + 1 && is_cycle(
                        #[trigger] components@[j]@,
                        edge,
                    ) implies kept.contains(j) by {
                    if j < i {
                        assert(kept_before.contains(j));
                        let t = kept_before.index_of(j);
                        assert(kept[t] == j);
                    }
                }
                assert forall|t: int, c: ChunkIdx|
                    0 <= t < sccs@.len() && #[trigger] sccs@[t]@.contains(
                        c,
                    ) implies scc_of_chunk@.contains_key(c) && scc_of_chunk@[c] == t by {
                    if t < sccs_before.len() {
                        assert(kept[t] == kept_before[t]);
                        assert(0 <= kept_before[t] < i);
                        assert(sccs@[t] == sccs_before[t]);
                        assert(sccs_before[t]@.contains(c));
                        assert(components@[kept[t]]@.contains(c));
                        if scc@.contains(c) {
                            reach::lemma_reaches_self(edge, c);
                            assert(kept[t] == i);
                        }
                        assert(before.contains_key(c) && before[c] == t);
                        assert(!scc@.contains(c));
                        assert(scc_of_chunk@.contains_key(c));
                        assert(scc_of_chunk@[c] == t);
                    } else {
                        assert(sccs@[t] == members);
                        assert(scc@.contains(c));
                        assert(scc_of_chunk@.contains_key(c));
                        assert(scc_of_chunk@[c] == number);
                        assert(number == t);
                    }
                }
                assert forall|c: ChunkIdx| #[trigger]
                    scc_of_chunk@.contains_key(c) implies scc_of_chunk@[c] < sccs@.len()
                    && sccs@[scc_of_chunk@[c] as int]@.contains(c) by {
                    if !scc@.contains(c) {
                        assert(before.contains_key(c));
                        assert(sccs_before[before[c] as int]@.contains(c));
                    }
                }
            }
            i = i + 1;
        }
        let cycles = ChunkCycles { scc_of_chunk, sccs };
        proof {
            assert forall|c: ChunkIdx| #[trigger]
                scc_of_chunk@.contains_key(c) <==> reach::on_cycle(edge, c) by {
                if scc_of_chunk@.contains_key(c) {
                    let t = scc_of_chunk@[c] as int;
                    assert(sccs@[t]@.contains(c));
                    lemma_cycle_members(components@, kept[t], edge, c);
                }
                if reach::on_cycle(edge, c) {
                    let b = choose|b: ChunkIdx| edge(c, b) && #[trigger] reach::reaches(edge, b, c);
                    assert(graph_nodes(graph).contains(c));
                    let j = choose|j: int|
                        0 <= j < components@.len() && #[trigger] components@[j]@.contains(c);
                    lemma_cycle_members(components@, j, edge, c);
                    assert(kept.contains(j));
                    let t = kept.index_of(j);
                    assert(sccs@[t]@.contains(c));
                }
            }
            assert forall|a: ChunkIdx, b: ChunkIdx| #[trigger]
                scc_of_chunk@.contains_key(a) && #[trigger] scc_of_chunk@.contains_key(b) implies (
            scc_of_chunk@[a] == scc_of_chunk@[b] <==> reach::strongly_connected(edge, a, b)) by {
                let s = scc_of_chunk@[a] as int;
                let t = scc_of_chunk@[b] as int;
                assert(sccs@[s]@.contains(a));
                assert(sccs@[t]@.contains(b));
                assert(components@[kept[s]]@.contains(a));
                assert(components@[kept[t]]@.contains(b));
                if kept[s] == kept[t] {
                    assert(sccs@[s]@ == sccs@[t]@);
                }
            }
            assert forall|t: int, k: int|
                0 <= t < sccs@.len() && 0 <= k < sccs@[t]@.len() implies (#[trigger] sccs@[t]@[k])
                < import_edges@.len() by {
                assert(sccs@[t]@.contains(sccs@[t]@[k]));
                assert(components@[kept[t]]@.contains(sccs@[t]@[k]));
            }
            assert forall|t: int, u: int, x: ChunkIdx, y: ChunkIdx|
                0 <= t < u < sccs@.len() && #[trigger] sccs@[t]@.contains(x)
                    && #[trigger] sccs@[u]@.contains(y) implies !edge(x, y) by {
                assert(kept[t] < kept[u]);
                assert(components@[kept[t]]@.contains(x));
                assert(components@[kept[u]]@.contains(y));
                assert(linked(graph_edges(graph))(x, y) == edge(x, y));
            }
            assert forall|t: int| 0 <= t < sccs@.len() implies (#[trigger] sccs@[t])@.len() > 0
                && sccs@[t]@.no_duplicates() by {
                assert(0 <= kept[t] < i);
            }
        }
        cycles
    }

    /// Whether some cycle can be reached from `root_chunk` along the imports.
    pub fn reachable_from(
        &self,
        root_chunk: ChunkIdx,
        import_edges: &Vec<FxHashSet<ChunkIdx>>,
    ) -> (found: bool)
        requires
            imports_wf(import_edges@),
            root_chunk < import_edges@.len(),
        ensures
            found == exists|c: ChunkIdx| #[trigger]
                self.scc_of_chunk@.contains_key(c) && reach::reaches(
                    imports(import_edges@),
                    root_chunk,
                    c,
                ),
    {
        if self.scc_of_chunk.is_empty() {
            return false;
        }
        let ghost edge = imports(import_edges@);
        let mut visited: FxHashSet<ChunkIdx> = FxHashSet::default();
        let mut pending: Vec<ChunkIdx> = Vec::new();
        pending.push(root_chunk);
        proof {
            reach::lemma_reaches_self(edge, root_chunk);
            assert(pending@[0] == root_chunk);
        }
        while pending.len() > 0
            invariant
                edge == imports(import_edges@),
                imports_wf(import_edges@),
                visited@.subset_of(indices::below(import_edges@.len())),
                forall|k: int|
                    0 <= k < pending@.len() ==> (#[trigger] pending@[k]) < import_edges@.len()
                        && reach::reaches(edge, root_chunk, pending@[k]),
                forall|c: ChunkIdx| #[trigger]
                    visited@.contains(c) ==> !self.scc_of_chunk@.contains_key(c),
                visited@.contains(root_chunk) || pending@.contains(root_chunk),
                reach::closed_up_to(edge, visited@, pending@),
            decreases import_edges@.len() - visited@.len(), pending@.len(),
        {
            let ghost waiting = pending@;
            let chunk_idx = match pending.pop() {
                Some(chunk_idx) => chunk_idx,
                None => return false,
            };
            let ghost seen = visited@;
            proof {
                assert(waiting =~= pending@.push(chunk_idx));
                assert(waiting[waiting.len() - 1] == chunk_idx);
                assert forall|c: ChunkIdx| #[trigger] waiting.contains(c) implies c == chunk_idx
                    || pending@.contains(c) by {
                    vstd::seq_lib::lemma_seq_contains_after_push(pending@, chunk_idx, c);
                }
                assert forall|k: int| 0 <= k < pending@.len() implies waiting[k]
                    == #[trigger] pending@[k] by {}
                assert(import_edges@.len() == import_edges.len());
                indices::lemma_below_bounds_len(import_edges@.len(), seen);
            }
            if !fx::set_insert(&mut visited, chunk_idx) {
                assert(visited@ =~= seen);
                continue;
            }
            proof {
                assert(visited@.subset_of(indices::below(import_edges@.len())));
                indices::lemma_below_bounds_len(import_edges@.len(), visited@);
            }
            if fx::map_get(&self.scc_of_chunk, chunk_idx).is_some() {
                return true;
            }
            let ghost rest = pending@;
            let mut importees = fx::set_items(&import_edges[chunk_idx]);
            let ghost targets = importees@;
            pending.append(&mut importees);
            proof {
                assert(pending@ =~= rest + targets);
                assert forall|k: int| 0 <= k < pending@.len() implies (#[trigger] pending@[k])
                    < import_edges@.len() && reach::reaches(edge, root_chunk, pending@[k]) by {
                    if k < rest.len() {
                        assert(pending@[k] == rest[k]);
                    } else {
                        let c = targets[k - rest.len()];
                        assert(targets.to_set().contains(c));
                        assert(edge(chunk_idx, c));
                        reach::lemma_reaches_step(edge, root_chunk, chunk_idx, c);
                    }
                }
                assert forall|c: ChunkIdx| rest.contains(c) implies #[trigger] pending@.contains(
                    c,
                ) by {
                    let k = rest.index_of(c);
                    assert(pending@[k] == c);
                }
                assert forall|a: ChunkIdx, b: ChunkIdx| #[trigger]
                    visited@.contains(a) && #[trigger] edge(a, b) implies visited@.contains(b)
                    || pending@.contains(b) by {
                    if a == chunk_idx {
                        assert(targets.to_set().contains(b));
                        let k = targets.index_of(b);
                        assert(pending@[rest.len() + k] == b);
                    } else {
                        assert(seen.contains(a));
                        assert(seen.contains(b) || waiting.contains(b));
                    }
                }
            }
        }
        proof {
            assert(reach::closed_under(edge, visited@)) by {
                assert forall|a: ChunkIdx, b: ChunkIdx| #[trigger]
                    visited@.contains(a) && #[trigger] edge(a, b) implies visited@.contains(b) by {
                    assert(visited@.contains(b) || pending@.contains(b));
                }
            }
            assert forall|c: ChunkIdx| #[trigger]
                self.scc_of_chunk@.contains_key(c) implies !reach::reaches(
                edge,
                root_chunk,
                c,
            ) by {
                if reach::reaches(edge, root_chunk, c) {
                    reach::lemma_closed_contains_reachable(edge, visited@, root_chunk, c);
                }
            }
        }
        false
    }
}

/// The relation has `count` classes of nodes on cycles that reach each other.
pub open spec fn counts_cycles(edge: spec_fn(ChunkIdx, ChunkIdx) -> bool, count: nat) -> bool {
    exists|cycles: ChunkCycles| #[trigger] cycles.describes(edge) && cycles.sccs@.len() == count
}

/// The chunks as nodes, and their imports as edges.
fn graph_of_imports(import_edges: &Vec<FxHashSet<ChunkIdx>>) -> (graph: DiGraphMap<ChunkIdx, ()>)
    requires
        imports_wf(import_edges@),
    ensures
        graph_nodes(graph) == indices::below(import_edges@.len()),
        forall|a: ChunkIdx, b: ChunkIdx| #[trigger]
            graph_edges(graph).contains((a, b)) <==> imports(import_edges@)(a, b),
{
    let mut graph = graph_new();
    let mut importer: usize = 0;
    while importer < import_edges.len()
        invariant
            imports_wf(import_edges@),
            importer <= import_edges@.len(),
            graph_nodes(graph).subset_of(indices::below(import_edges@.len())),
            indices::below(importer as nat).subset_of(graph_nodes(graph)),
            forall|a: ChunkIdx, b: ChunkIdx| #[trigger]
                graph_edges(graph).contains((a, b)) <==> a < importer && imports(import_edges@)(
                    a,
                    b,
                ),
        decreases import_edges.len() - importer,
    {
        graph_add_node(&mut graph, importer);
        let importees = fx::set_items(&import_edges[importer]);
        let mut k: usize = 0;
        while k < importees.len()
            invariant
                imports_wf(import_edges@),
                importer < import_edges@.len(),
                importees@.to_set() == import_edges@[importer as int]@,
                k <= importees@.len(),
                graph_nodes(graph).subset_of(indices::below(import_edges@.len())),
                indices::below(importer as nat).subset_of(graph_nodes(graph)),
                graph_nodes(graph).contains(importer),
                forall|a: ChunkIdx, b: ChunkIdx| #[trigger]
                    graph_edges(graph).contains((a, b)) <==> (a < importer && imports(
                        import_edges@,
                    )(a, b)) || (a == importer && importees@.take(k as int).contains(b)),
            decreases importees.len() - k,
        {
            let importee = importees[k];
            proof {
                assert(importees@.to_set().contains(importee));
                assert(imports(import_edges@)(importer, importee));
                assert(importees@.take(k + 1) =~= importees@.take(k as int).push(importee));
            }
            let ghost edges_before = graph_edges(graph);
            graph_add_edge(&mut graph, importer, importee);
            assert forall|a: ChunkIdx, b: ChunkIdx| #[trigger]
                graph_edges(graph).contains((a, b)) <==> (a < importer && imports(import_edges@)(
                    a,
                    b,
                )) || (a == importer && importees@.take(k + 1).contains(b)) by {
                vstd::seq_lib::lemma_seq_contains_after_push(
                    importees@.take(k as int),
                    importee,
                    b,
                );
                assert(edges_before.contains((a, b)) <==> (a < importer && imports(import_edges@)(
                    a,
                    b,
                )) || (a == importer && importees@.take(k as int).contains(b)));
            }
            k = k + 1;
        }
        proof {
            assert(importees@.take(importees@.len() as int) =~= importees@);
            assert forall|b: ChunkIdx| #[trigger]
                importees@.contains(b) <==> import_edges@[importer as int]@.contains(b) by {
                assert(importees@.to_set().contains(b) <==> importees@.contains(b));
            }
        }
        importer = importer + 1;
    }
    assert(graph_nodes(graph) =~= indices::below(import_edges@.len()));
    graph
}

/// The components are the classes of the nodes in them that reach each other.
spec fn is_partition(
    components: Seq<Vec<ChunkIdx>>,
    edge: spec_fn(ChunkIdx, ChunkIdx) -> bool,
) -> bool {
    &&& forall|i: int|
        0 <= i < components.len() ==> (#[trigger] components[i])@.len() > 0
            && components[i]@.no_duplicates()
    &&& forall|i: int, x: ChunkIdx, y: ChunkIdx|
        0 <= i < components.len() && #[trigger] components[i]@.contains(x) && #[trigger] edge(x, y)
            ==> exists|j: int| 0 <= j < components.len() && #[trigger] components[j]@.contains(y)
    &&& forall|i: int, j: int, x: ChunkIdx, y: ChunkIdx|
        0 <= i < components.len() && 0 <= j < components.len()
            && #[trigger] components[i]@.contains(x) && #[trigger] components[j]@.contains(y) ==> (i
            == j <==> reach::strongly_connected(edge, x, y))
}

/// The component has two or more chunks, or one that imports itself.
spec fn is_cycle(component: Seq<ChunkIdx>, edge: spec_fn(ChunkIdx, ChunkIdx) -> bool) -> bool {
    component.len() >= 2 || edge(component[0], component[0])
}

/// A chunk is on a cycle exactly if its component is nontrivial.
proof fn lemma_cycle_members(
    components: Seq<Vec<ChunkIdx>>,
    i: int,
    edge: spec_fn(ChunkIdx, ChunkIdx) -> bool,
    c: ChunkIdx,
)
    requires
        is_partition(components, edge),
        0 <= i < components.len(),
        components[i]@.contains(c),
    ensures
        is_cycle(components[i]@, edge) <==> reach::on_cycle(edge, c),
{
    let component = components[i]@;
    if component.len() >= 2 {
        let k = component.index_of(c);
        let other = if k == 0 {
            component[1]
        } else {
            component[0]
        };
        assert(component.contains(other));
        assert(reach::strongly_connected(edge, c, other));
        let first = reach::lemma_reaches_first_edge(edge, c, other);
        reach::lemma_reaches_trans(edge, first, other, c);
    } else {
        assert(component[0] == c);
        if edge(c, c) {
            reach::lemma_reaches_self(edge, c);
        }
        if reach::on_cycle(edge, c) {
            let b = choose|b: ChunkIdx| edge(c, b) && #[trigger] reach::reaches(edge, b, c);
            reach::lemma_reaches_edge(edge, c, b);
            let j = choose|j: int|
                0 <= j < components.len() && #[trigger] components[j]@.contains(b);
            assert(i == j);
            assert(component[component.index_of(b)] == b);
        }
    }
}

} // verus!
