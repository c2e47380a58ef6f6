//! Which modules have to be wrapped so that the chunks evaluate them in source order.

use rustc_hash::FxHashSet;
use vstd::prelude::*;

use crate::actual_order;
use crate::chunk_cycles;
use crate::chunk_cycles::ChunkCycles;
use crate::chunks::{ChunkGraph, ChunkIdx};
use crate::fx;
use crate::indices;
use crate::link::{LinkStageOutput, ModuleIdx};
use crate::plan::{FixpointRound, FixpointTrace, OrderAnalysis, RootOrderAnalysis};
use crate::reach;
use crate::stage::GenerateStage;
use crate::wrap_plan;
use crate::wrap_plan::WrapRules;

verus! {

/// Everything that decides what is wrapped on demand. `chunk_imports` lists the imports of each
/// chunk in the order in which they are executed.
pub struct OnDemand {
    pub link: LinkStageOutput,
    pub chunk_graph: ChunkGraph,
    pub import_edges: Seq<FxHashSet<ChunkIdx>>,
    pub chunk_imports: Seq<Seq<ChunkIdx>>,
}

impl OnDemand {
    /// The imports between chunks before anything is wrapped.
    pub open spec fn edge(self) -> spec_fn(ChunkIdx, ChunkIdx) -> bool {
        chunk_cycles::imports(self.import_edges)
    }

    /// The kept entries that have a chunk of their own.
    pub open spec fn entries(self) -> Seq<ModuleIdx> {
        self.link.entries@.filter(|root: ModuleIdx| self.is_analysed(root))
    }

    pub open spec fn is_analysed(self, root: ModuleIdx) -> bool {
        self.link.included(root) && self.chunk_graph.entry_module_to_entry_chunk@.contains_key(root)
    }

    /// These entries with their expected orders.
    pub open spec fn roots(self) -> Seq<(ModuleIdx, Seq<ModuleIdx>)> {
        self.entries().map_values(|root: ModuleIdx| (root, self.link.expected_order(root)))
    }

    pub open spec fn entry_chunk(self, root: ModuleIdx) -> ChunkIdx {
        self.chunk_graph.entry_module_to_entry_chunk@[root]
    }

    /// The rules that a plan has to follow.
    pub open spec fn rules(self) -> WrapRules {
        WrapRules {
            link: self.link,
            roots: self.roots(),
            chunk_graph: self.chunk_graph,
            same_cycle: chunk_cycles::cycle_mates(self.edge()),
        }
    }

    /// A cycle can be reached from the chunk.
    pub open spec fn reaches_cycle(self, c: ChunkIdx) -> bool {
        exists|d: ChunkIdx| #[trigger]
            reach::on_cycle(self.edge(), d) && reach::reaches(self.edge(), c, d)
    }

    /// Running the entry `root` puts `x` at risk: `x` has to be delayed to keep the order, or the
    /// entry leads to a cycle of chunks and everything eligible behind it is delayed.
    pub open spec fn endangers(self, root: ModuleIdx, x: ModuleIdx) -> bool {
        let expected = self.link.expected_order(root);
        let chunk = self.entry_chunk(root);
        ||| self.link.at_risk(
            expected,
            self.chunk_graph.actual_order(self.link, self.chunk_imports, root, chunk),
            self.chunk_graph.trigger_hosts(self.link, self.chunk_imports, root, chunk),
        ).contains(x)
        ||| self.reaches_cycle(chunk) && expected.contains(x) && self.link.wrap_eligible(x)
    }

    /// The modules that some entry puts at risk.
    pub open spec fn first_risk(self) -> Set<ModuleIdx> {
        Set::new(
            |x: ModuleIdx|
                exists|k: int|
                    0 <= k < self.entries().len() && self.endangers(
                        #[trigger] self.entries()[k],
                        x,
                    ),
        )
    }

    /// The imports between chunks once the plan for `risk` is carried out.
    pub open spec fn lowered(self, risk: Set<ModuleIdx>) -> spec_fn(ChunkIdx, ChunkIdx) -> bool {
        self.link.lowered_edge(self.chunk_graph, self.rules().plan_of(risk), self.import_edges)
    }

    /// The eligible modules in chunks that are on a cycle once the plan for `risk` is carried out.
    pub open spec fn emergent(self, risk: Set<ModuleIdx>) -> Set<ModuleIdx> {
        cyclic_eligible(self.link, self.chunk_graph, self.lowered(risk))
    }

    /// What is at risk after `rounds` rounds.
    pub open spec fn risk_after(self, rounds: nat) -> Set<ModuleIdx>
        decreases rounds,
    {
        if rounds == 0 {
            self.first_risk()
        } else {
            let before = self.risk_after((rounds - 1) as nat);
            before + self.emergent(before)
        }
    }

    /// One more round would add nothing.
    pub open spec fn settled(self, rounds: nat) -> bool {
        self.emergent(self.risk_after(rounds)).subset_of(self.risk_after(rounds))
    }

    /// The plan after `rounds` rounds.
    pub open spec fn plan_after(self, rounds: nat) -> Set<ModuleIdx> {
        self.rules().plan_of(self.risk_after(rounds))
    }

    /// `trace` tells what happened in the rounds up to and including the first that adds nothing.
    pub open spec fn traced(self, trace: FixpointTrace) -> bool {
        &&& trace.rounds@.len() > 0
        &&& trace.one_shot_planned == self.plan_after(0).len()
        &&& chunk_cycles::counts_cycles(self.edge(), trace.pre_lowering_cycles as nat)
        &&& self.settled((trace.rounds@.len() - 1) as nat)
        &&& forall|k: int|
            #![trigger trace.rounds@[k]]
            0 <= k < trace.rounds@.len() ==> self.round_traced(k as nat, trace.rounds@[k])
        &&& forall|k: nat| k < trace.rounds@.len() - 1 ==> !#[trigger] self.settled(k)
    }

    pub open spec fn round_traced(self, k: nat, round: FixpointRound) -> bool {
        &&& chunk_cycles::counts_cycles(
            self.lowered(self.risk_after(k)),
            round.emergent_cycles as nat,
        )
        &&& round.added + self.risk_after(k).len() == self.risk_after(k + 1).len()
        &&& round.at_risk == self.risk_after(k + 1).len()
    }

    /// `analysis` is the outcome: the plan once nothing more has to be added.
    pub open spec fn concludes(self, analysis: OrderAnalysis) -> bool {
        analysis.trace matches Some(trace) && self.traced(trace) && analysis.plan@
            == self.plan_after((trace.rounds@.len() - 1) as nat)
    }
}

/// The eligible modules in chunks on a cycle of `edge`.
pub open spec fn cyclic_eligible(
    link: LinkStageOutput,
    chunk_graph: ChunkGraph,
    edge: spec_fn(ChunkIdx, ChunkIdx) -> bool,
) -> Set<ModuleIdx> {
    Set::new(
        |x: ModuleIdx|
            link.wrap_eligible(x) && exists|c: ChunkIdx|
                reach::on_cycle(edge, c) && #[trigger] chunk_graph.hosts(c, x),
    )
}

impl<'a> GenerateStage<'a> {
    /// Adds the eligible modules of `modules`, and says how many were missing.
    fn add_eligible(&self, modules: &Vec<ModuleIdx>, at_risk: &mut FxHashSet<ModuleIdx>) -> (added:
        usize)
        requires
            self.link_output.wf(),
            old(at_risk)@.subset_of(indices::below(self.link_output.module_count())),
            forall|i: int|
                0 <= i < modules@.len() ==> (#[trigger] modules@[i])
                    < self.link_output.module_count(),
        ensures
            forall|x: ModuleIdx| #[trigger]
                final(at_risk)@.contains(x) <==> old(at_risk)@.contains(x) || (modules@.contains(x)
                    && self.link_output.wrap_eligible(x)),
            final(at_risk)@.subset_of(indices::below(self.link_output.module_count())),
            added + old(at_risk)@.len() == final(at_risk)@.len(),
    {
        let link = self.link_output;
        let ghost before = at_risk@;
        let mut added: usize = 0;
        let mut i: usize = 0;
        proof {
            indices::lemma_below_bounds_len(link.module_count(), before);
        }
        while i < modules.len()
            invariant
                link == self.link_output,
                link.wf(),
                forall|j: int|
                    0 <= j < modules@.len() ==> (#[trigger] modules@[j]) < link.module_count(),
                i <= modules@.len(),
                at_risk@.subset_of(indices::below(link.module_count())),
                forall|x: ModuleIdx| #[trigger]
                    at_risk@.contains(x) <==> before.contains(x) || (modules@.take(
                        i as int,
                    ).contains(x) && link.wrap_eligible(x)),
                added + before.len() == at_risk@.len(),
            decreases modules.len() - i,
        {
            let module_idx = modules[i];
            let ghost middle = at_risk@;
            proof {
                indices::lemma_below_bounds_len(link.module_count(), middle);
                assert(modules@.take(i + 1) =~= modules@.take(i as int).push(module_idx));
            }
            if self.is_order_wrap_eligible(module_idx) {
                if fx::set_insert(at_risk, module_idx) {
                    proof {
                        indices::lemma_below_bounds_len(link.module_count(), at_risk@);
                    }
                    added = added + 1;
                } else {
                    assert(at_risk@ =~= middle);
                }
            }
            assert forall|x: ModuleIdx| #[trigger] at_risk@.contains(x) <==> before.contains(x) || (
            modules@.take(i + 1).contains(x) && link.wrap_eligible(x)) by {
                vstd::seq_lib::lemma_seq_contains_after_push(
                    modules@.take(i as int),
                    module_idx,
                    x,
                );
            }
            i = i + 1;
        }
        assert(modules@.take(modules@.len() as int) =~= modules@);
        added
    }

    /// Adds the eligible modules that the chunks of a component host, and says how many were
    /// missing.
    fn add_component(
        &self,
        chunk_graph: &ChunkGraph,
        component: &Vec<ChunkIdx>,
        at_risk: &mut FxHashSet<ModuleIdx>,
    ) -> (added: usize)
        requires
            self.link_output.wf(),
            chunk_graph.wf(self.link_output.module_count()),
            old(at_risk)@.subset_of(indices::below(self.link_output.module_count())),
            forall|k: int|
                0 <= k < component@.len() ==> (#[trigger] component@[k])
                    < chunk_graph.chunk_table@.len(),
        ensures
            forall|x: ModuleIdx| #[trigger]
                final(at_risk)@.contains(x) <==> old(at_risk)@.contains(x) || (
                self.link_output.wrap_eligible(x) && exists|k: int|
                    0 <= k < component@.len() && chunk_graph.hosts(#[trigger] component@[k], x)),
            final(at_risk)@.subset_of(indices::below(self.link_output.module_count())),
            added + old(at_risk)@.len() == final(at_risk)@.len(),
    {
        let link = self.link_output;
        let ghost before = at_risk@;
        let mut added: usize = 0;
        let mut k: usize = 0;
        while k < component.len()
            invariant
                link == self.link_output,
                link.wf(),
                chunk_graph.wf(link.module_count()),
                forall|j: int|
                    0 <= j < component@.len() ==> (#[trigger] component@[j])
                        < chunk_graph.chunk_table@.len(),
                k <= component@.len(),
                at_risk@.subset_of(indices::below(link.module_count())),
                forall|x: ModuleIdx| #[trigger]
                    at_risk@.contains(x) <==> before.contains(x) || (link.wrap_eligible(x)
                        && exists|j: int|
                        0 <= j < k && chunk_graph.hosts(#[trigger] component@[j], x)),
                added + before.len() == at_risk@.len(),
            decreases component.len() - k,
        {
            let chunk_idx = component[k];
            let ghost middle = at_risk@;
            let modules: &Vec<ModuleIdx> = &chunk_graph.chunk_table[chunk_idx].modules;
            assert forall|i: int| 0 <= i < modules@.len() implies (#[trigger] modules@[i])
                < link.module_count() by {
                assert(chunk_graph.chunk_table@[chunk_idx as int].modules@[i]
                    < link.module_count());
            }
            let more = self.add_eligible(modules, at_risk);
            proof {
                indices::lemma_below_bounds_len(link.module_count(), at_risk@);
                assert forall|x: ModuleIdx| #[trigger]
                    at_risk@.contains(x) <==> before.contains(x) || (link.wrap_eligible(x)
                        && exists|j: int|
                        0 <= j < k + 1 && chunk_graph.hosts(#[trigger] component@[j], x)) by {
                    if middle.contains(x) && !before.contains(x) {
                        let j = choose|j: int|
                            0 <= j < k && chunk_graph.hosts(#[trigger] component@[j], x);
                        assert(j < k + 1);
                    }
                    if at_risk@.contains(x) && !middle.contains(x) {
                        assert(chunk_graph.hosts(component@[k as int], x));
                    }
                }
            }
            added = added + more;
            k = k + 1;
        }
        added
    }

    /// Adds the eligible modules in chunks on a cycle, and says how many were missing.
    #[verifier::rlimit(40)]
    fn add_cyclic_chunk_modules(
        &self,
        chunk_graph: &ChunkGraph,
        cycles: &ChunkCycles,
        at_risk: &mut FxHashSet<ModuleIdx>,
        Ghost(edge): Ghost<spec_fn(ChunkIdx, ChunkIdx) -> bool>,
    ) -> (added: usize)
        requires
            self.link_output.wf(),
            chunk_graph.wf(self.link_output.module_count()),
            cycles.wf(chunk_graph.chunk_table@.len()),
            cycles.describes(edge),
            old(at_risk)@.subset_of(indices::below(self.link_output.module_count())),
        ensures
            final(at_risk)@ == old(at_risk)@ + cyclic_eligible(
                *self.link_output,
                *chunk_graph,
                edge,
            ),
            final(at_risk)@.subset_of(indices::below(self.link_output.module_count())),
            added + old(at_risk)@.len() == final(at_risk)@.len(),
    {
        let link = self.link_output;
        let ghost before = at_risk@;
        let mut added: usize = 0;
        let mut t: usize = 0;
        while t < cycles.sccs.len()
            invariant
                link == self.link_output,
                link.wf(),
                chunk_graph.wf(link.module_count()),
                cycles.wf(chunk_graph.chunk_table@.len()),
                t <= cycles.sccs@.len(),
                at_risk@.subset_of(indices::below(link.module_count())),
                forall|x: ModuleIdx| #[trigger]
                    at_risk@.contains(x) <==> before.contains(x) || (link.wrap_eligible(x)
                        && exists|u: int, k: int|
                        #![trigger cycles.sccs@[u]@[k]]
                        0 <= u < t && 0 <= k < cycles.sccs@[u]@.len() && chunk_graph.hosts(
                            cycles.sccs@[u]@[k],
                            x,
                        )),
                added + before.len() == at_risk@.len(),
            decreases cycles.sccs.len() - t,
        {
            let ghost middle = at_risk@;
            let component: &Vec<ChunkIdx> = &cycles.sccs[t];
            assert forall|k: int| 0 <= k < component@.len() implies (#[trigger] component@[k])
                < chunk_graph.chunk_table@.len() by {
                assert(cycles.sccs@[t as int]@[k] < chunk_graph.chunk_table@.len());
            }
            let more = self.add_component(chunk_graph, component, at_risk);
            proof {
                indices::lemma_below_bounds_len(link.module_count(), at_risk@);
                assert forall|x: ModuleIdx| #[trigger]
                    at_risk@.contains(x) <==> before.contains(x) || (link.wrap_eligible(x)
                        && exists|u: int, k: int|
                        #![trigger cycles.sccs@[u]@[k]]
                        0 <= u < t + 1 && 0 <= k < cycles.sccs@[u]@.len() && chunk_graph.hosts(
                            cycles.sccs@[u]@[k],
                            x,
                        )) by {
                    if middle.contains(x) && !before.contains(x) {
                        let (u, k) = choose|u: int, k: int|
                            #![trigger cycles.sccs@[u]@[k]]
                            0 <= u < t && 0 <= k < cycles.sccs@[u]@.len() && chunk_graph.hosts(
                                cycles.sccs@[u]@[k],
                                x,
                            );
                        assert(u < t + 1 && chunk_graph.hosts(cycles.sccs@[u]@[k], x));
                    }
                    if at_risk@.contains(x) && !middle.contains(x) {
                        let k = choose|k: int|
                            0 <= k < component@.len() && chunk_graph.hosts(
                                #[trigger] component@[k],
                                x,
                            );
                        assert(cycles.sccs@[t as int]@[k] == component@[k]);
                    }
                    if exists|u: int, k: int|
                        #![trigger cycles.sccs@[u]@[k]]
                        0 <= u < t + 1 && 0 <= k < cycles.sccs@[u]@.len() && chunk_graph.hosts(
                            cycles.sccs@[u]@[k],
                            x,
                        ) {
                        let (u, k) = choose|u: int, k: int|
                            #![trigger cycles.sccs@[u]@[k]]
                            0 <= u < t + 1 && 0 <= k < cycles.sccs@[u]@.len() && chunk_graph.hosts(
                                cycles.sccs@[u]@[k],
                                x,
                            );
                        if u == t {
                            assert(chunk_graph.hosts(component@[k], x));
                        }
                    }
                }
            }
            added = added + more;
            t = t + 1;
        }
        proof {
            let cyclic = cyclic_eligible(*link, *chunk_graph, edge);
            assert forall|x: ModuleIdx| at_risk@.contains(x) <==> before.contains(x)
                || #[trigger] cyclic.contains(x) by {
                if at_risk@.contains(x) && !before.contains(x) {
                    let (u, k) = choose|u: int, k: int|
                        #![trigger cycles.sccs@[u]@[k]]
                        0 <= u < cycles.sccs@.len() && 0 <= k < cycles.sccs@[u]@.len()
                            && chunk_graph.hosts(cycles.sccs@[u]@[k], x);
                    let c = cycles.sccs@[u]@[k];
                    assert(cycles.sccs@[u]@.contains(c));
                    assert(cycles.scc_of_chunk@.contains_key(c));
                    assert(reach::on_cycle(edge, c) && chunk_graph.hosts(c, x));
                }
                if cyclic.contains(x) {
                    let c = choose|c: ChunkIdx|
                        reach::on_cycle(edge, c) && #[trigger] chunk_graph.hosts(c, x);
                    assert(cycles.scc_of_chunk@.contains_key(c));
                    let u = cycles.scc_of_chunk@[c] as int;
                    let k = cycles.sccs@[u]@.index_of(c);
                    assert(chunk_graph.hosts(cycles.sccs@[u]@[k], x));
                }
            }
            assert(at_risk@ =~= before + cyclic);
        }
        added
    }
}

/// What decides the wrapping on demand, from its parts.
pub open spec fn on_demand(
    link: LinkStageOutput,
    chunk_graph: ChunkGraph,
    import_edges: Seq<FxHashSet<ChunkIdx>>,
    chunk_imports: Seq<Seq<ChunkIdx>>,
) -> OnDemand {
    OnDemand { link, chunk_graph, import_edges, chunk_imports }
}

/// Listed imports lead to chunks if the imports do.
proof fn lemma_listed_imports_wf(
    chunk_graph: ChunkGraph,
    import_edges: Seq<FxHashSet<ChunkIdx>>,
    chunk_imports: Seq<Seq<ChunkIdx>>,
)
    requires
        import_edges.len() <= usize::MAX,
        chunk_cycles::imports_wf(import_edges),
        chunk_graph.lists_imports(import_edges, chunk_imports),
    ensures
        actual_order::chunk_imports_wf(chunk_imports),
{
    assert forall|c: int, k: int|
        0 <= c < chunk_imports.len() && 0 <= k < chunk_imports[c].len() implies (
    #[trigger] chunk_imports[c][k]) < chunk_imports.len() by {
        assert(chunk_imports[c].to_set().contains(chunk_imports[c][k]));
        assert(chunk_cycles::imports(import_edges)(c as usize, chunk_imports[c][k]));
    }
}

impl OnDemand {
    /// Only eligible modules are at risk.
    pub proof fn lemma_first_risk_eligible(self)
        ensures
            forall|x: ModuleIdx| #[trigger]
                self.first_risk().contains(x) ==> self.link.wrap_eligible(x),
    {
        assert forall|x: ModuleIdx| #[trigger]
            self.first_risk().contains(x) implies self.link.wrap_eligible(x) by {
            let k = choose|k: int|
                0 <= k < self.entries().len() && self.endangers(#[trigger] self.entries()[k], x);
        }
    }

    /// Only eligible modules are ever at risk.
    pub proof fn lemma_risk_eligible(self, rounds: nat)
        ensures
            forall|x: ModuleIdx| #[trigger]
                self.risk_after(rounds).contains(x) ==> self.link.wrap_eligible(x),
        decreases rounds,
    {
        if rounds == 0 {
            self.lemma_first_risk_eligible();
        } else {
            self.lemma_risk_eligible((rounds - 1) as nat);
            let before = self.risk_after((rounds - 1) as nat);
            assert forall|x: ModuleIdx| #[trigger]
                self.risk_after(rounds).contains(x) implies self.link.wrap_eligible(x) by {
                assert(before.contains(x) ==> self.link.wrap_eligible(x));
            }
        }
    }
}

impl<'a> GenerateStage<'a> {
    /// The expected order of an entry, and the modules that running it puts at risk.
    fn analyze_root(
        &self,
        root: ModuleIdx,
        root_chunk: ChunkIdx,
        chunk_graph: &ChunkGraph,
        import_edges: &Vec<FxHashSet<ChunkIdx>>,
        chunk_imports: &Vec<Vec<ChunkIdx>>,
        chunk_cycles: &ChunkCycles,
    ) -> (order_and_risk: (Vec<ModuleIdx>, FxHashSet<ModuleIdx>))
        requires
            self.link_output.wf(),
            chunk_graph.wf(self.link_output.module_count()),
            import_edges@.len() == chunk_graph.chunk_table@.len(),
            chunk_cycles::imports_wf(import_edges@),
            chunk_graph.lists_imports(import_edges@, actual_order::lists(chunk_imports@)),
            chunk_cycles.describes(chunk_cycles::imports(import_edges@)),
            root < self.link_output.module_count(),
            chunk_graph.entry_module_to_entry_chunk@.contains_key(root),
            chunk_graph.entry_module_to_entry_chunk@[root] == root_chunk,
        ensures
            order_and_risk.0@ == self.link_output.expected_order(root),
            forall|x: ModuleIdx| #[trigger]
                order_and_risk.1@.contains(x) <==> on_demand(
                    *self.link_output,
                    *chunk_graph,
                    import_edges@,
                    actual_order::lists(chunk_imports@),
                ).endangers(root, x),
    {
        let link = self.link_output;
        let ghost demand = on_demand(
            *link,
            *chunk_graph,
            import_edges@,
            actual_order::lists(chunk_imports@),
        );
        proof {
            assert(import_edges@.len() == import_edges.len());
            lemma_listed_imports_wf(*chunk_graph, import_edges@, demand.chunk_imports);
            link.law_expected_order_members(root);
        }
        let expected_order = self.expected_order_for_root(root);
        assert forall|i: int| 0 <= i < expected_order@.len() implies (
        #[trigger] expected_order@[i]) < link.module_count() by {
            assert(expected_order@.contains(expected_order@[i]));
        }
        let (actual_order, trigger_hosts) = self.actual_order_for_root(
            root,
            root_chunk,
            chunk_graph,
            chunk_imports,
        );
        let mut at_risk = self.at_risk_modules(
            expected_order.as_slice(),
            actual_order.as_slice(),
            &trigger_hosts,
        );
        let ghost misplaced = at_risk@;
        proof {
            assert forall|x: ModuleIdx| #[trigger] misplaced.contains(x) implies x
                < link.module_count() by {}
            assert forall|d: ChunkIdx| #[trigger]
                chunk_cycles.scc_of_chunk@.contains_key(d) <==> reach::on_cycle(
                    demand.edge(),
                    d,
                ) by {}
        }
        let cycle_ahead = chunk_cycles.reachable_from(root_chunk, import_edges);
        proof {
            assert(cycle_ahead == demand.reaches_cycle(root_chunk)) by {
                if cycle_ahead {
                    let d = choose|d: ChunkIdx| #[trigger]
                        chunk_cycles.scc_of_chunk@.contains_key(d) && reach::reaches(
                            demand.edge(),
                            root_chunk,
                            d,
                        );
                    assert(reach::on_cycle(demand.edge(), d));
                }
                if demand.reaches_cycle(root_chunk) {
                    let d = choose|d: ChunkIdx| #[trigger]
                        reach::on_cycle(demand.edge(), d) && reach::reaches(
                            demand.edge(),
                            root_chunk,
                            d,
                        );
                    assert(chunk_cycles.scc_of_chunk@.contains_key(d));
                }
            }
        }
        // Wrapping can change how an entry leads into a cycle of chunks, so everything eligible
        // behind such an entry is delayed.
        if cycle_ahead {
            self.add_eligible(&expected_order, &mut at_risk);
        }
        (expected_order, at_risk)
    }

    /// The modules that some entry puts at risk, and the entries with their expected orders.
    fn analyze_roots(
        &self,
        chunk_graph: &ChunkGraph,
        import_edges: &Vec<FxHashSet<ChunkIdx>>,
        chunk_imports: &Vec<Vec<ChunkIdx>>,
        chunk_cycles: &ChunkCycles,
    ) -> (risk_and_roots: (FxHashSet<ModuleIdx>, Vec<RootOrderAnalysis>))
        requires
            self.link_output.wf(),
            chunk_graph.wf(self.link_output.module_count()),
            import_edges@.len() == chunk_graph.chunk_table@.len(),
            chunk_cycles::imports_wf(import_edges@),
            chunk_graph.lists_imports(import_edges@, actual_order::lists(chunk_imports@)),
            chunk_cycles.describes(chunk_cycles::imports(import_edges@)),
        ensures
            ({
                let demand = on_demand(
                    *self.link_output,
                    *chunk_graph,
                    import_edges@,
                    actual_order::lists(chunk_imports@),
                );
                &&& risk_and_roots.0@ == demand.first_risk()
                &&& wrap_plan::root_orders(risk_and_roots.1@) == demand.roots()
            }),
            self.link_output.roots_wf(risk_and_roots.1@),
    {
        let link = self.link_output;
        let ghost demand = on_demand(
            *link,
            *chunk_graph,
            import_edges@,
            actual_order::lists(chunk_imports@),
        );
        let ghost analysed = |root: ModuleIdx| demand.is_analysed(root);
        let ghost with_order = |root: ModuleIdx| (root, link.expected_order(root));
        let mut all_at_risk: FxHashSet<ModuleIdx> = FxHashSet::default();
        let mut roots: Vec<RootOrderAnalysis> = Vec::new();
        let mut k: usize = 0;
        proof {
            assert(link.entries@.take(0).filter(analysed) =~= Seq::<ModuleIdx>::empty()) by {
                reveal(Seq::filter);
            }
            assert(wrap_plan::root_orders(roots@) =~= Seq::<ModuleIdx>::empty().map_values(
                with_order,
            ));
        }
        while k < link.entries.len()
            invariant
                link == self.link_output,
                link.wf(),
                chunk_graph.wf(link.module_count()),
                import_edges@.len() == chunk_graph.chunk_table@.len(),
                chunk_cycles::imports_wf(import_edges@),
                chunk_graph.lists_imports(import_edges@, actual_order::lists(chunk_imports@)),
                chunk_cycles.describes(chunk_cycles::imports(import_edges@)),
                demand == on_demand(
                    *link,
                    *chunk_graph,
                    import_edges@,
                    actual_order::lists(chunk_imports@),
                ),
                analysed == (|root: ModuleIdx| demand.is_analysed(root)),
                with_order == (|root: ModuleIdx| (root, link.expected_order(root))),
                k <= link.entries@.len(),
                link.roots_wf(roots@),
                wrap_plan::root_orders(roots@) == link.entries@.take(k as int).filter(
                    analysed,
                ).map_values(with_order),
                forall|x: ModuleIdx| #[trigger]
                    all_at_risk@.contains(x) <==> exists|j: int|
                        0 <= j < link.entries@.take(k as int).filter(analysed).len()
                            && demand.endangers(
                            #[trigger] link.entries@.take(k as int).filter(analysed)[j],
                            x,
                        ),
            decreases link.entries.len() - k,
        {
            let root = link.entries[k];
            let ghost done = link.entries@.take(k as int).filter(analysed);
            let ghost next = link.entries@.take(k + 1).filter(analysed);
            proof {
                assert(link.entries@.take(k + 1) =~= link.entries@.take(k as int).push(root));
                link.entries@.take(k as int).lemma_filter_push(root, analysed);
            }
            let entry_chunk = fx::map_get(&chunk_graph.entry_module_to_entry_chunk, root);
            if link.metas[root].is_included && entry_chunk.is_some() {
                if let Some(root_chunk) = entry_chunk {
                    let (expected_order, at_risk) = self.analyze_root(
                        root,
                        root_chunk,
                        chunk_graph,
                        import_edges,
                        chunk_imports,
                        chunk_cycles,
                    );
                    let ghost before = all_at_risk@;
                    let ghost roots_before = roots@;
                    let risky = fx::set_items(&at_risk);
                    fx::set_extend(&mut all_at_risk, &risky);
                    proof {
                        link.law_expected_order_members(root);
                        assert forall|i: int| 0 <= i < expected_order@.len() implies (
                        #[trigger] expected_order@[i]) < link.module_count() by {
                            assert(expected_order@.contains(expected_order@[i]));
                        }
                        assert(next =~= done.push(root));
                        assert forall|x: ModuleIdx| #[trigger]
                            all_at_risk@.contains(x) <==> exists|j: int|
                                0 <= j < next.len() && demand.endangers(#[trigger] next[j], x) by {
                            assert(all_at_risk@.contains(x) <==> before.contains(x)
                                || at_risk@.contains(x));
                            if before.contains(x) {
                                let j = choose|j: int|
                                    0 <= j < done.len() && demand.endangers(
                                        #[trigger] done[j],
                                        x,
                                    );
                                assert(next[j] == done[j]);
                            }
                            if at_risk@.contains(x) {
                                assert(next[done.len() as int] == root);
                            }
                            if exists|j: int|
                                0 <= j < next.len() && demand.endangers(#[trigger] next[j], x) {
                                let j = choose|j: int|
                                    0 <= j < next.len() && demand.endangers(
                                        #[trigger] next[j],
                                        x,
                                    );
                                if j < done.len() {
                                    assert(done[j] == next[j]);
                                }
                            }
                        }
                    }
                    roots.push(RootOrderAnalysis { root, expected_order });
                    proof {
                        assert(wrap_plan::root_orders(roots@) =~= wrap_plan::root_orders(
                            roots_before,
                        ).push((root, expected_order@)));
                        assert(next.map_values(with_order) =~= done.map_values(with_order).push(
                            with_order(root),
                        ));
                    }
                }
            } else {
                assert(next =~= done);
            }
            k = k + 1;
        }
        proof {
            assert(link.entries@.take(k as int) =~= link.entries@);
            assert(demand.entries() == link.entries@.filter(analysed));
            assert(all_at_risk@ =~= demand.first_risk());
            assert(demand.roots() =~= demand.entries().map_values(with_order));
        }
        (all_at_risk, roots)
    }

    /// Decides which modules to wrap so that the chunks evaluate them in source order.
    ///
    /// Without strict execution order there is nothing to decide. By default everything eligible
    /// is wrapped. On demand, only what would be evaluated at the wrong moment is wrapped, and what
    /// has to be because of it. The wrappers themselves make chunks import each other; where that
    /// closes a cycle, the modules in it are put at risk too, until no new cycle appears.
    ///
    /// `import_edges` holds the imports between chunks before anything is wrapped. Only wrapping on
    /// demand looks at it.
    #[verifier::rlimit(40)]
    pub fn analyze_execution_order(
        &self,
        chunk_graph: &ChunkGraph,
        import_edges: Vec<FxHashSet<ChunkIdx>>,
    ) -> (analysis: Option<OrderAnalysis>)
        requires
            self.options.strict_execution_order ==> self.link_output.wf(),
            self.options.strict_execution_order && self.options.on_demand_wrapping ==> {
                &&& chunk_graph.wf(self.link_output.module_count())
                &&& import_edges@.len() == chunk_graph.chunk_table@.len()
                &&& chunk_cycles::imports_wf(import_edges@)
            },
        ensures
            analysis is Some <==> self.options.strict_execution_order,
            self.options.strict_execution_order && !self.options.on_demand_wrapping ==> {
                &&& analysis->0.plan@ == self.link_output.wrap_all_plan()
                &&& analysis->0.import_edges@.len() == chunk_graph.chunk_table@.len()
                &&& forall|c: int|
                    0 <= c < analysis->0.import_edges@.len() ==> (
                    #[trigger] analysis->0.import_edges@[c])@ == Set::<ChunkIdx>::empty()
                &&& analysis->0.trace is None
            },
            self.options.strict_execution_order && self.options.on_demand_wrapping ==> {
                &&& analysis->0.import_edges == import_edges
                &&& exists|chunk_imports: Seq<Seq<ChunkIdx>>|
                    {
                        &&& #[trigger] chunk_graph.lists_imports(import_edges@, chunk_imports)
                        &&& on_demand(
                            *self.link_output,
                            *chunk_graph,
                            import_edges@,
                            chunk_imports,
                        ).concludes(analysis->0)
                        &&& forall|root: ModuleIdx| #[trigger]
                            self.link_output.entries@.contains(root)
                                && self.link_output.metas@[root as int].is_included
                                && chunk_graph.entry_module_to_entry_chunk@.contains_key(root)
                                ==> self.link_output.at_risk(
                                self.link_output.expected_order(root),
                                chunk_graph.actual_order(
                                    *self.link_output,
                                    chunk_imports,
                                    root,
                                    chunk_graph.entry_module_to_entry_chunk@[root],
                                ),
                                chunk_graph.trigger_hosts(
                                    *self.link_output,
                                    chunk_imports,
                                    root,
                                    chunk_graph.entry_module_to_entry_chunk@[root],
                                ),
                            ).subset_of(analysis->0.plan@)
                    }
                &&& analysis->0.trace->0.rounds@.len() <= self.link_output.module_count() + 1
                &&& analysis->0.trace->0.one_shot_planned <= analysis->0.plan@.len()
            },
    {
        if !self.options.strict_execution_order {
            return None;
        }
        if !self.options.on_demand_wrapping {
            return Some(self.wrap_all_order_analysis(chunk_graph));
        }
        let link = self.link_output;
        let chunk_imports = actual_order::sorted_chunk_imports(chunk_graph, &import_edges);
        let chunk_cycles = ChunkCycles::from_import_edges(&import_edges);
        let ghost demand = on_demand(
            *link,
            *chunk_graph,
            import_edges@,
            actual_order::lists(chunk_imports@),
        );
        let (mut all_at_risk, roots) = self.analyze_roots(
            chunk_graph,
            &import_edges,
            &chunk_imports,
            &chunk_cycles,
        );
        proof {
            chunk_cycles.lemma_same_cycle(demand.edge());
            assert(wrap_plan::wrap_rules(*link, roots@, *chunk_graph, chunk_cycles.same_cycle())
                == demand.rules());
            demand.lemma_risk_eligible(0);
            assert(all_at_risk@.subset_of(indices::below(link.module_count())));
        }
        let mut plan = self.build_order_wrap_plan(
            fx::set_clone(&all_at_risk),
            &roots,
            chunk_graph,
            &chunk_cycles,
        );
        let one_shot_planned: usize = plan.len();
        let mut rounds: Vec<FixpointRound> = Vec::new();
        loop
            invariant_except_break
                all_at_risk@ == demand.risk_after(rounds@.len()),
                rounds@.len() <= all_at_risk@.len(),
                plan@ == demand.plan_after(rounds@.len()),
                forall|k: int|
                    #![trigger rounds@[k]]
                    0 <= k < rounds@.len() ==> demand.round_traced(k as nat, rounds@[k]),
                forall|k: nat| k < rounds@.len() ==> !#[trigger] demand.settled(k),
            invariant
                link == self.link_output,
                link.wf(),
                link.roots_wf(roots@),
                chunk_graph.wf(link.module_count()),
                import_edges@.len() == chunk_graph.chunk_table@.len(),
                chunk_cycles::imports_wf(import_edges@),
                chunk_cycles.wf(chunk_graph.chunk_table@.len()),
                demand.link == *link,
                demand.chunk_graph == *chunk_graph,
                demand.import_edges == import_edges@,
                wrap_plan::wrap_rules(*link, roots@, *chunk_graph, chunk_cycles.same_cycle())
                    == demand.rules(),
                all_at_risk@.subset_of(indices::below(link.module_count())),
            ensures
                rounds@.len() > 0,
                rounds@.len() <= link.module_count() + 1,
                plan@ == demand.plan_after((rounds@.len() - 1) as nat),
                demand.settled((rounds@.len() - 1) as nat),
                forall|k: int|
                    #![trigger rounds@[k]]
                    0 <= k < rounds@.len() ==> demand.round_traced(k as nat, rounds@[k]),
                forall|k: nat| k < rounds@.len() - 1 ==> !#[trigger] demand.settled(k),
            decreases link.module_count() - all_at_risk@.len(),
        {
            let ghost k = rounds@.len();
            let ghost risk = all_at_risk@;
            let ghost earlier = rounds@;
            proof {
                indices::lemma_below_bounds_len(link.module_count(), risk);
                demand.lemma_plan_in_table(k);
            }
            let post_edges = self.post_lowering_import_edges(chunk_graph, &plan, &import_edges);
            let post_cycles = ChunkCycles::from_import_edges(&post_edges);
            let ghost lowered = demand.lowered(risk);
            let added = self.add_cyclic_chunk_modules(
                chunk_graph,
                &post_cycles,
                &mut all_at_risk,
                Ghost(lowered),
            );
            let at_risk: usize = fx::set_len(&all_at_risk);
            let round = FixpointRound { emergent_cycles: post_cycles.sccs.len(), added, at_risk };
            rounds.push(round);
            proof {
                assert(all_at_risk@ == demand.risk_after(k + 1));
                indices::lemma_below_bounds_len(link.module_count(), all_at_risk@);
                assert(post_cycles.describes(lowered));
                assert(demand.round_traced(k, round));
                assert forall|j: int|
                    #![trigger rounds@[j]]
                    0 <= j < rounds@.len() implies demand.round_traced(j as nat, rounds@[j]) by {
                    if j < k {
                        assert(rounds@[j] == earlier[j]);
                    }
                }
            }
            if added == 0 {
                proof {
                    assert(risk.subset_of(all_at_risk@));
                    vstd::set_lib::lemma_subset_equality(risk, all_at_risk@);
                    assert(demand.settled(k));
                }
                break;
            }
            proof {
                if demand.settled(k) {
                    assert(all_at_risk@ =~= risk);
                }
            }
            plan = self.build_order_wrap_plan(
                fx::set_clone(&all_at_risk),
                &roots,
                chunk_graph,
                &chunk_cycles,
            );
        }
        proof {
            let last = (rounds@.len() - 1) as nat;
            demand.law_rounds_only_add(0, last);
            demand.lemma_plan_in_table(last);
            indices::lemma_below_bounds_len(link.module_count(), demand.plan_after(last));
            vstd::set_lib::lemma_len_subset(demand.plan_after(0), demand.plan_after(last));
        }
        let trace = FixpointTrace {
            one_shot_planned,
            pre_lowering_cycles: chunk_cycles.sccs.len(),
            rounds,
        };
        let analysis = OrderAnalysis { plan, import_edges, trace: Some(trace) };
        proof {
            assert(chunk_cycles.describes(demand.edge()));
            assert(demand.concludes(analysis));
            assert forall|root: ModuleIdx| #[trigger]
                link.entries@.contains(root) && link.metas@[root as int].is_included
                    && chunk_graph.entry_module_to_entry_chunk@.contains_key(
                    root,
                ) implies link.at_risk(
                link.expected_order(root),
                chunk_graph.actual_order(
                    *link,
                    demand.chunk_imports,
                    root,
                    chunk_graph.entry_module_to_entry_chunk@[root],
                ),
                chunk_graph.trigger_hosts(
                    *link,
                    demand.chunk_imports,
                    root,
                    chunk_graph.entry_module_to_entry_chunk@[root],
                ),
            ).subset_of(analysis.plan@) by {
                let k = link.entries@.index_of(root);
                assert(link.entries@[k] == root);
                demand.law_every_kept_entry_is_covered(analysis, root);
            }
        }
        Some(analysis)
    }
}

impl OnDemand {
    /// Only modules of the module table are planned.
    proof fn lemma_plan_in_table(self, rounds: nat)
        requires
            self.link.wf(),
        ensures
            self.plan_after(rounds).subset_of(indices::below(self.link.module_count())),
    {
        self.rules().law_plan_is_eligible(self.risk_after(rounds));
    }
}

} // verus!
