//! What the trace of the analysis tells.

use rustc_hash::FxHashSet;
use vstd::prelude::*;

use crate::analysis::OnDemand;
use crate::chunk_cycles;
use crate::chunk_cycles::ChunkCycles;
use crate::chunks::ChunkIdx;
use crate::indices;
use crate::link::ModuleIdx;
use crate::plan::OrderAnalysis;
use crate::reach;

verus! {

impl ChunkCycles {
    /// The component of the other list that holds the first chunk of a component of this one.
    spec fn matching(self, other: ChunkCycles) -> spec_fn(int) -> int {
        |i: int| other.scc_of_chunk@[self.sccs@[i]@[0]] as int
    }

    proof fn lemma_no_more_components(
        self,
        other: ChunkCycles,
        edge: spec_fn(ChunkIdx, ChunkIdx) -> bool,
    )
        requires
            self.describes(edge),
            other.describes(edge),
        ensures
            self.sccs@.len() <= other.sccs@.len(),
    {
        let mine = vstd::set_lib::set_int_range(0, self.sccs@.len() as int);
        let others = vstd::set_lib::set_int_range(0, other.sccs@.len() as int);
        let f = self.matching(other);
        vstd::set_lib::lemma_int_range(0, self.sccs@.len() as int);
        vstd::set_lib::lemma_int_range(0, other.sccs@.len() as int);
        assert forall|i: int| 0 <= i < self.sccs@.len() implies {
            let c = #[trigger] self.sccs@[i]@[0];
            &&& self.scc_of_chunk@.contains_key(c)
            &&& self.scc_of_chunk@[c] == i
            &&& other.scc_of_chunk@.contains_key(c)
            &&& 0 <= f(i) < other.sccs@.len()
        } by {
            let c = self.sccs@[i]@[0];
            assert(self.sccs@[i]@.contains(c));
            assert(self.scc_of_chunk@.contains_key(c));
            assert(reach::on_cycle(edge, c));
            assert(other.scc_of_chunk@.contains_key(c));
        }
        assert forall|i: int, j: int|
            mine.contains(i) && mine.contains(j) && #[trigger] f(i) == #[trigger] f(j) implies i
            == j by {
            let c = self.sccs@[i]@[0];
            let d = self.sccs@[j]@[0];
            assert(other.scc_of_chunk@[c] == other.scc_of_chunk@[d]);
            assert(other.scc_of_chunk@.contains_key(c) && other.scc_of_chunk@.contains_key(d));
            assert(reach::strongly_connected(edge, c, d));
            assert(self.scc_of_chunk@.contains_key(c) && self.scc_of_chunk@.contains_key(d));
            assert(self.scc_of_chunk@[c] == self.scc_of_chunk@[d]);
        }
        let image = mine.map(f);
        assert(image.subset_of(others)) by {
            assert forall|y: int| image.contains(y) implies #[trigger] others.contains(y) by {
                let i = choose|i: int| mine.contains(i) && f(i) == y;
                let c = self.sccs@[i]@[0];
            }
        }
        vstd::set_lib::lemma_map_size(mine, image, f);
        vstd::set_lib::lemma_len_subset(image, others);
    }

    /// There is only one number of components that describe the same imports.
    pub proof fn law_components_are_counted_alike(
        self,
        other: ChunkCycles,
        edge: spec_fn(ChunkIdx, ChunkIdx) -> bool,
    )
        requires
            self.describes(edge),
            other.describes(edge),
        ensures
            self.sccs@.len() == other.sccs@.len(),
    {
        self.lemma_no_more_components(other, edge);
        other.lemma_no_more_components(self, edge);
    }
}

impl OnDemand {
    /// Each round goes on from what the one before it had at risk. Each but the last adds something,
    /// and the last adds nothing. The first plan holds what was at risk first, the last plan holds
    /// what is at risk last, and the first plan is the last one where there was only one round.
    pub proof fn law_the_trace_adds_up(self, analysis: OrderAnalysis)
        requires
            self.link.wf(),
            self.concludes(analysis),
        ensures
            analysis.trace matches Some(trace) && {
                let last = trace.rounds@.len() - 1;
                &&& last >= 0
                &&& trace.rounds@[last].added == 0
                &&& forall|k: int|
                    0 <= k < last ==> (#[trigger] trace.rounds@[k]).added > 0
                &&& forall|k: int, l: int|
                    0 <= k && l == k + 1 && l <= last ==> (#[trigger] trace.rounds@[k]).at_risk
                        + (#[trigger] trace.rounds@[l]).added == trace.rounds@[l].at_risk
                &&& trace.rounds@[0].at_risk - trace.rounds@[0].added <= trace.one_shot_planned
                &&& trace.one_shot_planned <= analysis.plan@.len()
                &&& trace.rounds@[last].at_risk <= analysis.plan@.len()
                &&& last == 0 ==> trace.one_shot_planned == analysis.plan@.len()
            },
    {
        let trace = analysis.trace->0;
        let last = (trace.rounds@.len() - 1) as nat;
        let plan = analysis.plan@;
        let n = self.link.module_count();
        assert forall|k: int| 0 <= k <= last implies self.round_traced(
            k as nat,
            #[trigger] trace.rounds@[k],
        ) by {}
        let risk = self.risk_after(last);
        assert(risk + self.emergent(risk) =~= risk);
        assert(self.risk_after(last + 1) == risk);
        assert(self.round_traced(last, trace.rounds@[last as int]));
        assert forall|k: int| 0 <= k < last implies (#[trigger] trace.rounds@[k]).added > 0 by {
            assert(!self.settled(k as nat));
            let before = self.risk_after(k as nat);
            let after = self.risk_after((k + 1) as nat);
            assert(self.round_traced(k as nat, trace.rounds@[k]));
            self.lemma_risk_bounded((k + 1) as nat);
            vstd::set_lib::lemma_len_subset(before, after);
            if before.len() == after.len() {
                vstd::set_lib::lemma_subset_equality(before, after);
                assert(self.emergent(before).subset_of(before));
            }
        }
        assert forall|k: int, l: int| 0 <= k && l == k + 1 && l <= last implies (
        #[trigger] trace.rounds@[k]).at_risk + (#[trigger] trace.rounds@[l]).added
            == trace.rounds@[l].at_risk by {
            assert(self.round_traced(k as nat, trace.rounds@[k]));
            assert(self.round_traced(l as nat, trace.rounds@[l]));
        }
        self.lemma_risk_within_plan(0);
        self.lemma_risk_within_plan(last);
        self.law_rounds_only_add(0, last);
        self.lemma_risk_bounded(last);
        self.lemma_plan_bounded(last);
        vstd::set_lib::lemma_len_subset(self.plan_after(0), self.plan_after(last));
        vstd::set_lib::lemma_len_subset(self.risk_after(last), self.plan_after(last));
        self.lemma_plan_bounded(0);
        vstd::set_lib::lemma_len_subset(self.risk_after(0), self.plan_after(0));
        assert(self.round_traced(0, trace.rounds@[0]));
    }

    proof fn lemma_risk_within_plan(self, rounds: nat)
        ensures
            self.risk_after(rounds).subset_of(self.plan_after(rounds)),
    {
        let risk = self.risk_after(rounds);
        self.lemma_risk_eligible(rounds);
        self.rules().law_plan_is_closed(risk);
        assert forall|x: ModuleIdx| #[trigger] risk.contains(x) implies self.plan_after(
            rounds,
        ).contains(x) by {
            assert(risk.contains(x) && self.link.wrap_eligible(x));
        }
    }

    proof fn lemma_risk_bounded(self, rounds: nat)
        requires
            self.link.wf(),
        ensures
            self.risk_after(rounds).finite(),
    {
        self.lemma_risk_eligible(rounds);
        indices::lemma_below_bounds_len(self.link.module_count(), self.risk_after(rounds));
    }

    proof fn lemma_plan_bounded(self, rounds: nat)
        requires
            self.link.wf(),
        ensures
            self.plan_after(rounds).finite(),
    {
        self.rules().law_plan_is_eligible(self.risk_after(rounds));
        indices::lemma_below_bounds_len(self.link.module_count(), self.plan_after(rounds));
    }

    /// The trace counts the circles of imports between chunks as they were, and, in its last round,
    /// as they are once the plan is carried out.
    pub proof fn law_the_trace_counts_cycles(
        self,
        analysis: OrderAnalysis,
        first: ChunkCycles,
        edges: Seq<FxHashSet<ChunkIdx>>,
        last: ChunkCycles,
    )
        requires
            self.concludes(analysis),
            first.describes(chunk_cycles::imports(self.import_edges)),
            chunk_cycles::imports(edges) == self.link.lowered_edge(
                self.chunk_graph,
                analysis.plan@,
                self.import_edges,
            ),
            last.describes(chunk_cycles::imports(edges)),
        ensures
            analysis.trace matches Some(trace) && {
                &&& trace.pre_lowering_cycles == first.sccs@.len()
                &&& trace.rounds@.last().emergent_cycles == last.sccs@.len()
            },
    {
        let trace = analysis.trace->0;
        let end = (trace.rounds@.len() - 1) as nat;
        let edge = self.edge();
        let lowered = self.lowered(self.risk_after(end));
        assert(self.round_traced(end, trace.rounds@[end as int]));
        let counted = choose|cycles: ChunkCycles| #[trigger]
            cycles.describes(edge) && cycles.sccs@.len() == trace.pre_lowering_cycles as nat;
        counted.law_components_are_counted_alike(first, edge);
        let emergent = choose|cycles: ChunkCycles| #[trigger]
            cycles.describes(lowered) && cycles.sccs@.len()
                == trace.rounds@[end as int].emergent_cycles as nat;
        emergent.law_components_are_counted_alike(last, lowered);
    }

    /// Each round counts the circles of imports between chunks under the plan that it starts from. The
    /// first of these plans is the one whose size the trace tells.
    pub proof fn law_each_round_counts_cycles(
        self,
        analysis: OrderAnalysis,
        k: int,
        edges: Seq<FxHashSet<ChunkIdx>>,
        cycles: ChunkCycles,
    )
        requires
            self.concludes(analysis),
            0 <= k < analysis.trace->0.rounds@.len(),
            chunk_cycles::imports(edges) == self.link.lowered_edge(
                self.chunk_graph,
                self.plan_after(k as nat),
                self.import_edges,
            ),
            cycles.describes(chunk_cycles::imports(edges)),
        ensures
            analysis.trace->0.rounds@[k].emergent_cycles == cycles.sccs@.len(),
            k == 0 ==> analysis.trace->0.one_shot_planned == self.plan_after(k as nat).len(),
    {
        let trace = analysis.trace->0;
        let lowered = self.lowered(self.risk_after(k as nat));
        assert(self.round_traced(k as nat, trace.rounds@[k]));
        let counted = choose|cycles: ChunkCycles| #[trigger]
            cycles.describes(lowered) && cycles.sccs@.len()
                == trace.rounds@[k].emergent_cycles as nat;
        counted.law_components_are_counted_alike(cycles, lowered);
    }
}

} // verus!
