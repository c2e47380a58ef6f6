//! What holds of every plan.

use vstd::prelude::*;

use crate::analysis::OnDemand;
use crate::chunk_cycles;
use crate::chunks::ChunkIdx;
use crate::indices;
use crate::link::ModuleIdx;
use crate::plan::OrderAnalysis;
use crate::reach;
use crate::seqs;

verus! {

impl OnDemand {
    /// What is at risk only grows from round to round, and so does the plan: the last plan holds
    /// the first.
    pub proof fn law_rounds_only_add(self, earlier: nat, later: nat)
        requires
            earlier <= later,
        ensures
            self.risk_after(earlier).subset_of(self.risk_after(later)),
            self.plan_after(earlier).subset_of(self.plan_after(later)),
        decreases later,
    {
        if earlier < later {
            self.law_rounds_only_add(earlier, (later - 1) as nat);
        }
        self.rules().law_plan_grows_with_risk(self.risk_after(earlier), self.risk_after(later));
    }

    /// Whatever the rounds add stands in a chunk that is on a cycle under the plan of an earlier
    /// round.
    pub proof fn law_rounds_add_only_cycle_members(self, rounds: nat, x: ModuleIdx)
        requires
            self.risk_after(rounds).contains(x),
            !self.first_risk().contains(x),
        ensures
            exists|k: nat|
                k < rounds && #[trigger] self.emergent(self.risk_after(k)).contains(x),
        decreases rounds,
    {
        let last = (rounds - 1) as nat;
        if self.risk_after(last).contains(x) {
            self.law_rounds_add_only_cycle_members(last, x);
            let k = choose|k: nat|
                k < last && #[trigger] self.emergent(self.risk_after(k)).contains(x);
            assert(k < rounds);
        } else {
            assert(self.emergent(self.risk_after(last)).contains(x));
        }
    }

    /// Once the last round has added nothing, no chunk on a cycle of the final imports hosts an
    /// eligible module that is not planned. So nothing eligible runs eagerly in a cycle.
    pub proof fn law_cycles_hold_nothing_eager(self, rounds: nat, c: ChunkIdx, m: ModuleIdx)
        requires
            self.settled(rounds),
            reach::on_cycle(self.lowered(self.risk_after(rounds)), c),
            self.chunk_graph.hosts(c, m),
            self.link.wrap_eligible(m),
        ensures
            self.plan_after(rounds).contains(m),
    {
        let risk = self.risk_after(rounds);
        assert(self.emergent(risk).contains(m));
        assert(risk.contains(m));
        self.rules().law_plan_is_closed(risk);
    }

    /// A cycle that was there before anything was wrapped hosts nothing eager either.
    pub proof fn law_first_cycles_hold_nothing_eager(self, rounds: nat, c: ChunkIdx, m: ModuleIdx)
        requires
            self.settled(rounds),
            reach::on_cycle(self.edge(), c),
            self.chunk_graph.hosts(c, m),
            self.link.wrap_eligible(m),
        ensures
            self.plan_after(rounds).contains(m),
    {
        self.link.law_lowering_keeps_imports(
            self.chunk_graph,
            self.plan_after(rounds),
            self.import_edges,
            c,
        );
        self.law_cycles_hold_nothing_eager(rounds, c, m);
    }

    /// Once a round adds nothing, no later round adds anything: the outcome does not depend on how
    /// long the rounds go on.
    pub proof fn law_settled_is_final(self, rounds: nat, later: nat)
        requires
            self.settled(rounds),
            rounds <= later,
        ensures
            self.risk_after(later) == self.risk_after(rounds),
            self.plan_after(later) == self.plan_after(rounds),
            self.settled(later),
        decreases later,
    {
        if rounds < later {
            self.law_settled_is_final(rounds, (later - 1) as nat);
            let risk = self.risk_after(rounds);
            assert(risk + self.emergent(risk) =~= risk);
        }
    }

    /// After at most as many rounds as there are modules, a round adds nothing.
    pub proof fn law_rounds_end(self)
        requires
            self.link.wf(),
        ensures
            exists|rounds: nat|
                rounds <= self.link.module_count() && #[trigger] self.settled(rounds),
    {
        let n = self.link.module_count();
        if forall|rounds: nat| rounds <= n ==> !#[trigger] self.settled(rounds) {
            self.lemma_unsettled_grows(n + 1);
            self.lemma_risk_in_table(n + 1);
            indices::lemma_below_bounds_len(n, self.risk_after(n + 1));
        }
    }

    proof fn lemma_risk_in_table(self, rounds: nat)
        ensures
            self.risk_after(rounds).subset_of(indices::below(self.link.module_count())),
    {
        self.lemma_risk_eligible(rounds);
    }

    proof fn lemma_unsettled_grows(self, rounds: nat)
        requires
            self.link.wf(),
            forall|k: nat| k < rounds ==> !#[trigger] self.settled(k),
        ensures
            self.risk_after(rounds).len() >= rounds,
        decreases rounds,
    {
        if rounds > 0 {
            let before = self.risk_after((rounds - 1) as nat);
            let after = self.risk_after(rounds);
            self.lemma_unsettled_grows((rounds - 1) as nat);
            self.lemma_risk_in_table(rounds);
            indices::lemma_below_bounds_len(self.link.module_count(), after);
            assert(!self.settled((rounds - 1) as nat));
            vstd::set_lib::lemma_len_subset(before, after);
            if before.len() == after.len() {
                vstd::set_lib::lemma_subset_equality(before, after);
                assert(self.emergent(before).subset_of(before));
            }
        }
    }

    /// Only eligible modules are planned.
    pub proof fn law_plan_is_eligible(self, rounds: nat, m: ModuleIdx)
        requires
            self.plan_after(rounds).contains(m),
        ensures
            self.link.wrap_eligible(m),
    {
        self.rules().law_plan_is_eligible(self.risk_after(rounds));
    }

    /// The plan covers every kept entry that has a chunk of its own. It holds all that has to be
    /// delayed when the entry runs; and where the entry leads to a cycle of chunks, all that is
    /// eligible behind the entry. It holds eligible modules only.
    pub proof fn law_plan_covers_every_entry(self, analysis: OrderAnalysis, root: ModuleIdx)
        requires
            self.concludes(analysis),
            self.link.entries@.contains(root),
            self.is_analysed(root),
        ensures
            self.link.at_risk(
                self.link.expected_order(root),
                self.chunk_graph.actual_order(
                    self.link,
                    self.chunk_imports,
                    root,
                    self.entry_chunk(root),
                ),
                self.chunk_graph.trigger_hosts(
                    self.link,
                    self.chunk_imports,
                    root,
                    self.entry_chunk(root),
                ),
            ).subset_of(analysis.plan@),
            forall|m: ModuleIdx|
                self.reaches_cycle(self.entry_chunk(root)) && self.link.expected_order(
                    root,
                ).contains(m) && self.link.wrap_eligible(m) ==> #[trigger] analysis.plan@.contains(
                    m,
                ),
            forall|m: ModuleIdx| #[trigger]
                analysis.plan@.contains(m) ==> self.link.wrap_eligible(m),
    {
        let last = (analysis.trace->0.rounds@.len() - 1) as nat;
        let risk = self.risk_after(last);
        seqs::lemma_filter_members(self.link.entries@, |m: ModuleIdx| self.is_analysed(m));
        assert(self.entries().contains(root));
        let k = self.entries().index_of(root);
        assert(self.entries()[k] == root);
        self.law_rounds_only_add(0, last);
        self.rules().law_plan_is_closed(risk);
        self.rules().law_plan_is_eligible(risk);
        assert forall|m: ModuleIdx| self.endangers(root, m) implies #[trigger] analysis.plan@.contains(
            m,
        ) by {
            assert(self.endangers(self.entries()[k], m));
            assert(self.first_risk().contains(m));
            assert(risk.contains(m));
        }
    }

    /// Where no two chunks are executed at the same moment, the plan covers what the entry puts at
    /// risk however the imports of the chunks are listed.
    pub proof fn law_plan_covers_every_listing(
        self,
        analysis: OrderAnalysis,
        root: ModuleIdx,
        listed: Seq<Seq<ChunkIdx>>,
    )
        requires
            self.concludes(analysis),
            self.link.entries@.contains(root),
            self.is_analysed(root),
            self.import_edges.len() == self.chunk_graph.chunk_table@.len(),
            chunk_cycles::imports_wf(self.import_edges),
            self.chunk_graph.executes_one_at_a_time(),
            self.chunk_graph.lists_imports(self.import_edges, self.chunk_imports),
            self.chunk_graph.lists_imports(self.import_edges, listed),
        ensures
            self.link.at_risk(
                self.link.expected_order(root),
                self.chunk_graph.actual_order(self.link, listed, root, self.entry_chunk(root)),
                self.chunk_graph.trigger_hosts(self.link, listed, root, self.entry_chunk(root)),
            ).subset_of(analysis.plan@),
    {
        self.chunk_graph.law_import_order_is_unique(
            self.import_edges,
            self.chunk_imports,
            listed,
        );
        self.law_plan_covers_every_entry(analysis, root);
    }

    /// Wrapping on demand wraps nothing that wrapping everything would leave alone, where every
    /// eligible module stands behind a kept entry.
    pub proof fn law_on_demand_wraps_no_more(self, rounds: nat)
        requires
            forall|m: ModuleIdx| #[trigger]
                self.link.wrap_eligible(m) ==> self.link.behind_entry(m),
        ensures
            self.plan_after(rounds).subset_of(self.link.wrap_all_plan()),
    {
        self.rules().law_plan_is_eligible(self.risk_after(rounds));
    }

    /// Where every entry evaluates its sensitive modules as expected and reaches no cycle, and the
    /// wrappers of interop close none, nothing is wrapped on demand.
    pub proof fn law_nothing_reordered_nothing_wrapped(self)
        requires
            forall|k: int, m: ModuleIdx|
                #![trigger self.entries()[k], self.link.misplaced(
                    self.link.expected_order(self.entries()[k]),
                    self.chunk_graph.actual_order(
                        self.link,
                        self.chunk_imports,
                        self.entries()[k],
                        self.entry_chunk(self.entries()[k]),
                    ),
                    m,
                )]
                0 <= k < self.entries().len() ==> !self.link.misplaced(
                    self.link.expected_order(self.entries()[k]),
                    self.chunk_graph.actual_order(
                        self.link,
                        self.chunk_imports,
                        self.entries()[k],
                        self.entry_chunk(self.entries()[k]),
                    ),
                    m,
                ),
            forall|k: int|
                0 <= k < self.entries().len() ==> !self.reaches_cycle(
                    self.entry_chunk(#[trigger] self.entries()[k]),
                ),
            self.emergent(Set::empty()) == Set::<ModuleIdx>::empty(),
        ensures
            self.settled(0),
            self.plan_after(0) == Set::<ModuleIdx>::empty(),
    {
        assert forall|x: ModuleIdx| !#[trigger] self.first_risk().contains(x) by {
            if self.first_risk().contains(x) {
                let k = choose|k: int|
                    0 <= k < self.entries().len() && self.endangers(
                        #[trigger] self.entries()[k],
                        x,
                    );
                let root = self.entries()[k];
                assert(!self.reaches_cycle(self.entry_chunk(root)));
            }
        }
        assert(self.first_risk() =~= Set::<ModuleIdx>::empty());
        self.rules().law_no_risk_no_plan();
    }
}

} // verus!
