//! What the steps do that make a plan, each taken alone.

use rustc_hash::FxHashSet;
use vstd::prelude::*;

use crate::at_risk;
use crate::chunk_cycles;
use crate::chunk_cycles::ChunkCycles;
use crate::chunks::{ChunkGraph, ChunkIdx};
use crate::entry_laws;
use crate::link::{LinkStageOutput, ModuleIdx};
use crate::reach;
use crate::seqs;
use crate::wrap_plan;

verus! {

impl LinkStageOutput {
    /// The sensitive modules of an order are those of its modules whose moment matters, each once.
    /// One stands before another exactly if it occurs before the other does.
    pub proof fn law_sensitive_modules_keep_their_order(
        self,
        order: Seq<ModuleIdx>,
        a: int,
        y: ModuleIdx,
    )
        requires
            0 <= a < order.len(),
            self.order_sensitive(order[a]),
            self.order_sensitive(y),
            order.contains(y),
            forall|k: int| 0 <= k <= a ==> order[k] != y,
        ensures
            exists|i: int, j: int|
                #![trigger self.sensitive_order(order)[i], self.sensitive_order(order)[j]]
                0 <= i < j < self.sensitive_order(order).len() && self.sensitive_order(order)[i]
                    == order[a] && self.sensitive_order(order)[j] == y,
            self.sensitive_order(order).no_duplicates(),
            forall|m: ModuleIdx| #[trigger]
                self.sensitive_order(order).contains(m) <==> order.contains(m)
                    && self.order_sensitive(m),
    {
        self.lemma_sensitive_order(order);
        seqs::lemma_first_occurrences(order, |m: ModuleIdx| self.order_sensitive(m), a, y);
    }

    /// Planning what an order evaluates behind a planned module adds each module that can be wrapped,
    /// whose moment matters, and that does not occur before some planned one whose moment matters.
    pub proof fn law_later_modules_join(
        self,
        order: Seq<ModuleIdx>,
        plan: Set<ModuleIdx>,
        a: int,
        x: ModuleIdx,
    )
        requires
            0 <= a < order.len(),
            plan.contains(order[a]),
            self.order_sensitive(order[a]),
            order.contains(x),
            forall|k: int| 0 <= k < a ==> order[k] != x,
            self.order_sensitive(x),
            self.wrap_eligible(x),
        ensures
            self.with_suffix(order, plan).contains(x),
    {
        let kept = self.sensitive_order(order);
        if order[a] != x {
            assert forall|k: int| 0 <= k <= a implies order[k] != x by {}
            self.law_sensitive_modules_keep_their_order(order, a, x);
            let (i, j) = choose|i: int, j: int|
                #![trigger kept[i], kept[j]]
                0 <= i < j < kept.len() && kept[i] == order[a] && kept[j] == x;
            assert(plan.contains(kept[i]) && kept[j] == x);
        }
    }

    /// It adds nothing else, and takes nothing away.
    pub proof fn law_only_later_modules_join(
        self,
        order: Seq<ModuleIdx>,
        plan: Set<ModuleIdx>,
        x: ModuleIdx,
    ) -> (a: int)
        ensures
            plan.contains(x) ==> self.with_suffix(order, plan).contains(x),
            self.with_suffix(order, plan).contains(x) && !plan.contains(x) ==> {
                &&& 0 <= a < order.len()
                &&& plan.contains(order[a])
                &&& self.order_sensitive(order[a])
                &&& order.contains(x)
                &&& forall|k: int| 0 <= k <= a ==> order[k] != x
                &&& self.order_sensitive(x)
                &&& self.wrap_eligible(x)
            },
    {
        let kept = self.sensitive_order(order);
        self.lemma_sensitive_order(order);
        if self.with_suffix(order, plan).contains(x) && !plan.contains(x) {
            assert(wrap_plan::behind_planned(kept, plan, x));
            let (i, j) = choose|i: int, j: int|
                #![trigger kept[i], kept[j]]
                0 <= i <= j < kept.len() && plan.contains(kept[i]) && kept[j] == x;
            assert(kept.contains(kept[i]) && kept.contains(kept[j]));
            seqs::lemma_occurs_first(order, |m: ModuleIdx| self.order_sensitive(m), i, j)
        } else {
            0
        }
    }

    /// Over several orders, one after the other, each one adds to what the earlier ones left.
    pub proof fn law_orders_are_taken_in_turn(
        self,
        roots: Seq<(ModuleIdx, Seq<ModuleIdx>)>,
        k: int,
        plan: Set<ModuleIdx>,
    )
        requires
            0 <= k < roots.len(),
        ensures
            self.with_suffixes(roots, 0, plan) == plan,
            self.with_suffixes(roots, k + 1, plan) == self.with_suffix(
                roots[k].1,
                self.with_suffixes(roots, k, plan),
            ),
            plan.subset_of(self.with_suffixes(roots, k, plan)),
            self.with_suffixes(roots, k, plan).subset_of(
                self.with_suffixes(roots, roots.len() as int, plan),
            ),
    {
        self.lemma_orders_only_add(roots, 0, k, plan);
        self.lemma_orders_only_add(roots, k, roots.len() as int, plan);
    }

    proof fn lemma_orders_only_add(
        self,
        roots: Seq<(ModuleIdx, Seq<ModuleIdx>)>,
        from: int,
        to: int,
        plan: Set<ModuleIdx>,
    )
        requires
            0 <= from <= to,
        ensures
            self.with_suffixes(roots, from, plan).subset_of(self.with_suffixes(roots, to, plan)),
        decreases to - from,
    {
        if from < to {
            self.lemma_orders_only_add(roots, from, to - 1, plan);
        }
    }

    /// Planning what shares a cycle of chunks with the plan adds each module that can be wrapped,
    /// whose moment matters, and that stands in a chunk of the component of a planned module's chunk.
    /// It adds nothing else, and takes nothing away.
    pub proof fn law_cycle_members_join(
        self,
        chunk_graph: ChunkGraph,
        cycles: ChunkCycles,
        plan: Set<ModuleIdx>,
        x: ModuleIdx,
    )
        ensures
            self.with_cycle_members(chunk_graph, cycles.same_cycle(), plan).contains(x) <==> {
                ||| plan.contains(x)
                ||| self.order_sensitive(x) && self.wrap_eligible(x) && exists|
                    p: ModuleIdx,
                    d: ChunkIdx,
                |
                    #![trigger plan.contains(p), chunk_graph.chunk_table@[d as int].modules@.contains(x)]
                    {
                        &&& plan.contains(p)
                        &&& chunk_graph.module_to_chunk@[p as int] is Some
                        &&& cycles.scc_of_chunk@.contains_key(
                            chunk_graph.module_to_chunk@[p as int]->0,
                        )
                        &&& cycles.sccs@[cycles.scc_of_chunk@[chunk_graph.module_to_chunk@[p as int]->0] as int]@.contains(
                            d,
                        )
                        &&& d < chunk_graph.chunk_table@.len()
                        &&& chunk_graph.chunk_table@[d as int].modules@.contains(x)
                    }
            },
    {
        let same_cycle = cycles.same_cycle();
        if chunk_graph.shares_cycle(same_cycle, plan, x) {
            let (p, d) = choose|p: ModuleIdx, d: ChunkIdx|
                #![trigger plan.contains(p), chunk_graph.hosts(d, x)]
                plan.contains(p) && chunk_graph.hosts(d, x) && chunk_graph.joined(
                    same_cycle,
                    p,
                    d,
                );
            assert(plan.contains(p) && chunk_graph.chunk_table@[d as int].modules@.contains(x));
        }
        if exists|p: ModuleIdx, d: ChunkIdx|
            #![trigger plan.contains(p), chunk_graph.chunk_table@[d as int].modules@.contains(x)]
            {
                &&& plan.contains(p)
                &&& chunk_graph.module_to_chunk@[p as int] is Some
                &&& cycles.scc_of_chunk@.contains_key(chunk_graph.module_to_chunk@[p as int]->0)
                &&& cycles.sccs@[cycles.scc_of_chunk@[chunk_graph.module_to_chunk@[p as int]->0] as int]@.contains(
                    d,
                )
                &&& d < chunk_graph.chunk_table@.len()
                &&& chunk_graph.chunk_table@[d as int].modules@.contains(x)
            } {
            let (p, d) = choose|p: ModuleIdx, d: ChunkIdx|
                #![trigger plan.contains(p), chunk_graph.chunk_table@[d as int].modules@.contains(x)]
                {
                    &&& plan.contains(p)
                    &&& chunk_graph.module_to_chunk@[p as int] is Some
                    &&& cycles.scc_of_chunk@.contains_key(
                        chunk_graph.module_to_chunk@[p as int]->0,
                    )
                    &&& cycles.sccs@[cycles.scc_of_chunk@[chunk_graph.module_to_chunk@[p as int]->0] as int]@.contains(
                        d,
                    )
                    &&& d < chunk_graph.chunk_table@.len()
                    &&& chunk_graph.chunk_table@[d as int].modules@.contains(x)
                };
            assert(chunk_graph.hosts(d, x));
            assert(cycles.joins(chunk_graph.module_to_chunk@[p as int]->0, d));
            assert(chunk_graph.joined(same_cycle, p, d));
            assert(chunk_graph.shares_cycle(same_cycle, plan, x));
        }
    }
}

/// A module is premature if it has a lower position than one that is expected before it.
pub proof fn law_what_comes_too_early_is_premature(
    expected: Seq<ModuleIdx>,
    positions: Map<ModuleIdx, usize>,
    i: int,
    j: int,
)
    requires
        0 <= i < j < expected.len(),
        positions.contains_key(expected[i]),
        positions.contains_key(expected[j]),
        positions[expected[j]] < positions[expected[i]],
    ensures
        at_risk::premature(expected, positions, expected[j]),
{
}

/// No other module is.
pub proof fn law_nothing_else_is_premature(
    expected: Seq<ModuleIdx>,
    positions: Map<ModuleIdx, usize>,
    m: ModuleIdx,
) -> (found: (int, int))
    requires
        at_risk::premature(expected, positions, m),
    ensures
        0 <= found.0 < found.1 < expected.len(),
        expected[found.1] == m,
        positions.contains_key(expected[found.0]),
        positions.contains_key(m),
        positions[m] < positions[expected[found.0]],
{
    choose|i: int, j: int|
        #![trigger expected[i], expected[j]]
        {
            &&& 0 <= i < j < expected.len()
            &&& expected[j] == m
            &&& positions.contains_key(expected[i])
            &&& positions.contains_key(m)
            &&& positions[m] < positions[expected[i]]
        }
}

impl ChunkCycles {
    /// Where imports go in a circle, be it from a chunk to itself, its chunks are all in one
    /// component, and each knows it.
    pub proof fn law_circles_are_components(
        self,
        import_edges: Seq<FxHashSet<ChunkIdx>>,
        path: Seq<ChunkIdx>,
        i: int,
    )
        requires
            self.describes(chunk_cycles::imports(import_edges)),
            entry_laws::lasso(import_edges, path, 0),
            0 <= i < path.len(),
        ensures
            self.scc_of_chunk@.contains_key(path[0]),
            self.scc_of_chunk@.contains_key(path[i]),
            self.scc_of_chunk@[path[i]] == self.scc_of_chunk@[path[0]],
            self.scc_of_chunk@[path[0]] < self.sccs@.len(),
            self.sccs@[self.scc_of_chunk@[path[0]] as int]@.contains(path[i]),
    {
        let edge = chunk_cycles::imports(import_edges);
        entry_laws::lemma_imported_path(import_edges, path);
        entry_laws::lemma_path_turns(edge, path, 0);
        entry_laws::lemma_path_part(edge, path, 0, i);
        entry_laws::lemma_path_part(edge, path, i, path.len() - 1);
        let c = path[0];
        let d = path[i];
        let last = path.len() - 1;
        assert(reach::on_cycle(edge, d)) by {
            if i < last {
                entry_laws::lemma_path_part(edge, path, i + 1, last);
                reach::lemma_reaches_trans(edge, path[i + 1], c, d);
                assert(edge(path[i], path[i + 1]));
            }
        }
        assert(reach::strongly_connected(edge, d, c));
        assert(self.scc_of_chunk@.contains_key(c));
        assert(self.scc_of_chunk@.contains_key(d));
    }

    /// Two chunks are in one component only if imports lead from the one to the other and back.
    pub proof fn law_components_are_circles(
        self,
        import_edges: Seq<FxHashSet<ChunkIdx>>,
        s: int,
        c: ChunkIdx,
        d: ChunkIdx,
    ) -> (found: (Seq<ChunkIdx>, int))
        requires
            self.describes(chunk_cycles::imports(import_edges)),
            0 <= s < self.sccs@.len(),
            self.sccs@[s]@.contains(c),
            self.sccs@[s]@.contains(d),
        ensures
            entry_laws::lasso(import_edges, found.0, 0),
            found.0[0] == c,
            0 <= found.1 < found.0.len(),
            found.0[found.1] == d,
    {
        let edge = chunk_cycles::imports(import_edges);
        assert(self.scc_of_chunk@.contains_key(c) && self.scc_of_chunk@.contains_key(d));
        assert(reach::strongly_connected(edge, c, d));
        entry_laws::lemma_mates_have_lasso(import_edges, c, d)
    }
}

} // verus!
