//! The default strict mode: every eligible module is wrapped.

use rustc_hash::FxHashSet;
use vstd::prelude::*;

use crate::chunks::{ChunkGraph, ChunkIdx};
use crate::link::{LinkStageOutput, ModuleIdx};
use crate::plan::{OrderAnalysis, OrderWrapPlan};
use crate::reach;
use crate::seqs;
use crate::stage::GenerateStage;
use crate::visit;

verus! {

impl LinkStageOutput {
    /// `m` stands behind an entry module that survived tree shaking.
    pub open spec fn behind_entry(self, m: ModuleIdx) -> bool {
        exists|k: int|
            #![trigger self.entries@[k]]
            0 <= k < self.entries@.len() && self.included(self.entries@[k]) && self.is_normal(
                self.entries@[k],
            ) && self.source_reaches(self.entries@[k], m)
    }

    /// Every eligible module that static imports lead to from a kept entry.
    pub open spec fn wrap_all_plan(self) -> Set<ModuleIdx> {
        Set::new(|m: ModuleIdx| self.wrap_eligible(m) && self.behind_entry(m))
    }

    /// Walking each module once over all entries plans what the expected orders of the entries, each
    /// taken alone, hold.
    pub proof fn law_wrap_all_plans_every_expected_module(self, m: ModuleIdx)
        requires
            self.wf(),
        ensures
            self.wrap_all_plan().contains(m) <==> self.wrap_eligible(m) && exists|k: int|
                0 <= k < self.entries@.len() && self.included(#[trigger] self.entries@[k])
                    && self.expected_order(self.entries@[k]).contains(m),
    {
        if self.wrap_all_plan().contains(m) {
            let k = choose|k: int|
                #![trigger self.entries@[k]]
                0 <= k < self.entries@.len() && self.included(self.entries@[k]) && self.is_normal(
                    self.entries@[k],
                ) && self.source_reaches(self.entries@[k], m);
            self.law_expected_order_members(self.entries@[k]);
            assert(self.expected_order(self.entries@[k]).contains(m));
        }
        if self.wrap_eligible(m) && exists|k: int|
            0 <= k < self.entries@.len() && self.included(#[trigger] self.entries@[k])
                && self.expected_order(self.entries@[k]).contains(m) {
            let k = choose|k: int|
                0 <= k < self.entries@.len() && self.included(#[trigger] self.entries@[k])
                    && self.expected_order(self.entries@[k]).contains(m);
            self.law_expected_order_members(self.entries@[k]);
            assert(self.behind_entry(m));
        }
    }

    /// The first `count` entries, without those that are not kept or not bundled.
    spec fn live_entries(self, count: int) -> Seq<ModuleIdx>
        decreases count,
    {
        if count <= 0 {
            Seq::empty()
        } else {
            let root = self.entries@[count - 1];
            self.live_entries(count - 1) + if self.included(root) {
                self.bundled_root(root)
            } else {
                Seq::empty()
            }
        }
    }

    proof fn lemma_live_entries(self, count: int)
        requires
            self.wf(),
            0 <= count <= self.entries@.len(),
        ensures
            self.source_graph().holds_all(self.live_entries(count)),
            forall|m: ModuleIdx| #[trigger]
                self.live_entries(count).contains(m) <==> exists|k: int|
                    0 <= k < count && #[trigger] self.entries@[k] == m && self.included(m)
                        && self.is_normal(m),
        decreases count,
    {
        let live = self.live_entries(count);
        if count > 0 {
            self.lemma_live_entries(count - 1);
            let root = self.entries@[count - 1];
            let before = self.live_entries(count - 1);
            if self.included(root) && self.is_normal(root) {
                assert(live =~= before.push(root));
            } else {
                assert(live =~= before);
            }
            assert forall|m: ModuleIdx| #[trigger] live.contains(m) <==> exists|k: int|
                0 <= k < count && #[trigger] self.entries@[k] == m && self.included(m)
                    && self.is_normal(m) by {
                if live.contains(m) {
                    let i = live.index_of(m);
                    if i < before.len() {
                        assert(before.contains(m)) by {
                            assert(before[i] == m);
                        }
                    } else {
                        assert(self.entries@[count - 1] == m);
                    }
                }
                if exists|k: int|
                    0 <= k < count && #[trigger] self.entries@[k] == m && self.included(m)
                        && self.is_normal(m) {
                    let k = choose|k: int|
                        0 <= k < count && #[trigger] self.entries@[k] == m && self.included(m)
                            && self.is_normal(m);
                    if k < count - 1 {
                        assert(before.contains(m));
                        let i = before.index_of(m);
                        assert(live[i] == m);
                    } else {
                        assert(live[live.len() - 1] == m);
                    }
                }
            }
        }
        assert forall|i: int| 0 <= i < live.len() implies self.source_graph().nodes.contains(
            #[trigger] live[i],
        ) by {
            assert(live.contains(live[i]));
        }
    }

    /// What a walk from all kept entries visits is what stands behind one.
    proof fn lemma_behind_entry(self)
        requires
            self.wf(),
        ensures
            forall|m: ModuleIdx|
                self.source_graph().walk(
                    self.live_entries(self.entries@.len() as int),
                    Set::empty(),
                ).visited.contains(m) <==> #[trigger] self.behind_entry(m),
    {
        let graph = self.source_graph();
        let live = self.live_entries(self.entries@.len() as int);
        self.lemma_source_graph_wf();
        self.lemma_live_entries(self.entries@.len() as int);
        graph.lemma_walk_visits_reachable(live);
        assert forall|m: ModuleIdx|
            graph.walk(live, Set::empty()).visited.contains(m) <==> #[trigger] self.behind_entry(
                m,
            ) by {
            if graph.walk(live, Set::empty()).visited.contains(m) {
                let i = choose|i: int|
                    0 <= i < live.len() && reach::reaches(graph.edge(), #[trigger] live[i], m);
                assert(live.contains(live[i]));
            }
            if self.behind_entry(m) {
                let k = choose|k: int|
                    #![trigger self.entries@[k]]
                    0 <= k < self.entries@.len() && self.included(self.entries@[k])
                        && self.is_normal(self.entries@[k]) && self.source_reaches(
                        self.entries@[k],
                        m,
                    );
                assert(live.contains(self.entries@[k]));
                let i = live.index_of(self.entries@[k]);
                assert(reach::reaches(graph.edge(), live[i], m));
            }
        }
    }
}

impl<'a> GenerateStage<'a> {
    /// Adds the eligible modules of `order` to the plan.
    fn plan_eligible(&self, order: &Vec<ModuleIdx>, plan: &mut OrderWrapPlan)
        requires
            self.link_output.wf(),
            forall|i: int|
                0 <= i < order@.len() ==> (#[trigger] order@[i]) < self.link_output.module_count(),
        ensures
            forall|m: ModuleIdx| #[trigger]
                final(plan)@.contains(m) <==> old(plan)@.contains(m) || (order@.contains(m)
                    && self.link_output.wrap_eligible(m)),
    {
        let mut i: usize = 0;
        while i < order.len()
            invariant
                self.link_output.wf(),
                forall|j: int|
                    0 <= j < order@.len() ==> (#[trigger] order@[j])
                        < self.link_output.module_count(),
                i <= order@.len(),
                forall|m: ModuleIdx| #[trigger]
                    plan@.contains(m) <==> old(plan)@.contains(m) || (order@.take(
                        i as int,
                    ).contains(m) && self.link_output.wrap_eligible(m)),
            decreases order.len() - i,
        {
            let module_idx = order[i];
            assert(order@.take(i + 1) =~= order@.take(i as int).push(module_idx));
            if self.is_order_wrap_eligible(module_idx) {
                plan.insert(module_idx);
            }
            assert forall|m: ModuleIdx| #[trigger] plan@.contains(m) <==> old(plan)@.contains(m)
                || (order@.take(i + 1).contains(m) && self.link_output.wrap_eligible(m)) by {
                vstd::seq_lib::lemma_seq_contains_after_push(order@.take(i as int), module_idx, m);
            }
            i = i + 1;
        }
        assert(order@.take(order@.len() as int) =~= order@);
    }

    /// Plans every eligible module behind a kept entry. Wrapping them all leaves nothing that runs
    /// eagerly, so no chunk imports have to be predicted.
    pub fn wrap_all_order_analysis(&self, chunk_graph: &ChunkGraph) -> (analysis: OrderAnalysis)
        requires
            self.link_output.wf(),
        ensures
            analysis.plan@ == self.link_output.wrap_all_plan(),
            analysis.import_edges@.len() == chunk_graph.chunk_table@.len(),
            forall|c: int|
                0 <= c < analysis.import_edges@.len() ==> (#[trigger] analysis.import_edges@[c])@
                    == Set::<ChunkIdx>::empty(),
            analysis.trace is None,
    {
        let link = self.link_output;
        let ghost graph = link.source_graph();
        let mut plan = OrderWrapPlan::default();
        let mut states = visit::unvisited_states(link.module_table.modules.len());
        let mut k: usize = 0;
        proof {
            link.lemma_source_graph_wf();
            graph.lemma_walk_step(Seq::<ModuleIdx>::empty(), Set::empty());
        }
        while k < link.entries.len()
            invariant
                link == self.link_output,
                link.wf(),
                graph == link.source_graph(),
                graph.wf(),
                k <= link.entries@.len(),
                states@.len() == link.module_count(),
                visit::visited(states@) == graph.walk(
                    link.live_entries(k as int),
                    Set::empty(),
                ).visited,
                forall|m: ModuleIdx| #[trigger]
                    plan@.contains(m) <==> link.wrap_eligible(m) && visit::visited(
                        states@,
                    ).contains(m),
            decreases link.entries.len() - k,
        {
            let root = link.entries[k];
            let ghost seen = visit::visited(states@);
            let ghost live = link.live_entries(k as int);
            proof {
                link.lemma_live_entries(k as int);
                link.lemma_live_entries(k + 1);
                graph.lemma_walk_basics(live, Set::empty());
            }
            if link.metas[root].is_included {
                let ghost before = states@;
                let ghost walk = graph.walk(link.bundled_root(root), seen);
                proof {
                    assert(graph.holds_all(link.bundled_root(root)));
                    graph.lemma_walk_append(live, link.bundled_root(root), Set::empty());
                    graph.lemma_walk_basics(link.bundled_root(root), seen);
                    seqs::lemma_filter_members(walk.order, |m: ModuleIdx| link.included(m));
                }
                let order = self.expected_order_for_root_with_states(root, &mut states);
                proof {
                    assert forall|i: int| 0 <= i < order@.len() implies (#[trigger] order@[i])
                        < link.module_count() by {
                        assert(order@.contains(order@[i]));
                    }
                    assert(visit::visited(states@) =~= walk.visited) by {
                        assert(walk.visited.subset_of(graph.nodes));
                        assert(seen.subset_of(walk.visited));
                    }
                }
                self.plan_eligible(&order, &mut plan);
                proof {
                    assert forall|m: ModuleIdx| #[trigger]
                        plan@.contains(m) <==> link.wrap_eligible(m) && visit::visited(
                            states@,
                        ).contains(m) by {
                        assert(walk.visited.contains(m) <==> seen.contains(m)
                            || walk.order.contains(m));
                    }
                }
            } else {
                assert(link.live_entries(k + 1) =~= live);
            }
            k = k + 1;
        }
        proof {
            link.lemma_behind_entry();
            assert(plan@ =~= link.wrap_all_plan());
        }
        let mut import_edges: Vec<FxHashSet<ChunkIdx>> = Vec::new();
        let mut c: usize = 0;
        while c < chunk_graph.chunk_table.len()
            invariant
                c <= chunk_graph.chunk_table@.len(),
                import_edges@.len() == c,
                forall|d: int|
                    0 <= d < import_edges@.len() ==> (#[trigger] import_edges@[d])@ == Set::<
                        ChunkIdx,
                    >::empty(),
            decreases chunk_graph.chunk_table.len() - c,
        {
            import_edges.push(FxHashSet::default());
            c = c + 1;
        }
        OrderAnalysis { plan, import_edges, trace: None }
    }
}

} // verus!
