//! What else has to be wrapped once some modules are.

use rustc_hash::FxHashSet;
use vstd::prelude::*;

use crate::chunk_cycles::ChunkCycles;
use crate::chunks::{ChunkGraph, ChunkIdx};
use crate::fx;
use crate::indices;
use crate::link::{LinkStageOutput, ModuleIdx};
use crate::members;
use crate::plan::{OrderWrapPlan, RootOrderAnalysis};
use crate::stage::GenerateStage;

verus! {

/// An entry module and its expected order, as mathematical values.
pub open spec fn root_orders(roots: Seq<RootOrderAnalysis>) -> Seq<(ModuleIdx, Seq<ModuleIdx>)> {
    roots.map_values(|root: RootOrderAnalysis| (root.root, root.expected_order@))
}

/// `x` is, or comes behind, a planned module of `order`.
pub open spec fn behind_planned(
    order: Seq<ModuleIdx>,
    plan: Set<ModuleIdx>,
    x: ModuleIdx,
) -> bool {
    exists|i: int, j: int|
        #![trigger order[i], order[j]]
        0 <= i <= j < order.len() && plan.contains(order[i]) && order[j] == x
}

impl LinkStageOutput {
    /// The modules of the roots and of their orders are in the module table.
    pub open spec fn roots_wf(self, roots: Seq<RootOrderAnalysis>) -> bool {
        &&& forall|k: int|
            0 <= k < roots.len() ==> (#[trigger] roots[k]).root < self.module_count()
        &&& forall|k: int, i: int|
            0 <= k < roots.len() && 0 <= i < roots[k].expected_order@.len() ==> (
            #[trigger] roots[k].expected_order@[i]) < self.module_count()
    }

    /// The plan with every eligible sensitive module that an entry evaluates behind a planned one.
    /// The calls that run the wrapped modules come after the eager code, so whatever is expected
    /// behind them has to wait too.
    pub open spec fn with_suffix(self, order: Seq<ModuleIdx>, plan: Set<ModuleIdx>) -> Set<
        ModuleIdx,
    > {
        plan + Set::new(
            |x: ModuleIdx|
                self.wrap_eligible(x) && behind_planned(self.sensitive_order(order), plan, x),
        )
    }

    /// The same for the first `count` roots, one after the other.
    pub open spec fn with_suffixes(
        self,
        roots: Seq<(ModuleIdx, Seq<ModuleIdx>)>,
        count: int,
        plan: Set<ModuleIdx>,
    ) -> Set<ModuleIdx>
        decreases count,
    {
        if count <= 0 {
            plan
        } else {
            self.with_suffix(roots[count - 1].1, self.with_suffixes(roots, count - 1, plan))
        }
    }

    /// The plan with every eligible sensitive module that shares a cycle of chunks with a planned
    /// one.
    pub open spec fn with_cycle_members(
        self,
        chunk_graph: ChunkGraph,
        same_cycle: spec_fn(ChunkIdx, ChunkIdx) -> bool,
        plan: Set<ModuleIdx>,
    ) -> Set<ModuleIdx> {
        plan + Set::new(
            |x: ModuleIdx|
                self.order_sensitive(x) && self.wrap_eligible(x) && chunk_graph.shares_cycle(
                    same_cycle,
                    plan,
                    x,
                ),
        )
    }
}

impl ChunkGraph {
    /// A chunk that hosts `x` is on a cycle with the chunk of a planned module.
    pub open spec fn shares_cycle(
        self,
        same_cycle: spec_fn(ChunkIdx, ChunkIdx) -> bool,
        plan: Set<ModuleIdx>,
        x: ModuleIdx,
    ) -> bool {
        exists|p: ModuleIdx, d: ChunkIdx|
            #![trigger plan.contains(p), self.hosts(d, x)]
            plan.contains(p) && self.hosts(d, x) && self.joined(same_cycle, p, d)
    }

    /// Chunk `d` is on a cycle with the chunk of `p`.
    pub open spec fn joined(
        self,
        same_cycle: spec_fn(ChunkIdx, ChunkIdx) -> bool,
        p: ModuleIdx,
        d: ChunkIdx,
    ) -> bool {
        self.chunk_of(p) matches Some(c) && same_cycle(c, d)
    }
}

/// Everything that decides what a plan forces into it.
pub struct WrapRules {
    pub link: LinkStageOutput,
    pub roots: Seq<(ModuleIdx, Seq<ModuleIdx>)>,
    pub chunk_graph: ChunkGraph,
    pub same_cycle: spec_fn(ChunkIdx, ChunkIdx) -> bool,
}

impl WrapRules {
    /// Static imports of bundled modules lead from a root to `x`.
    pub open spec fn reachable(self, x: ModuleIdx) -> bool {
        exists|k: int|
            0 <= k < self.roots.len() && self.link.source_reaches((#[trigger] self.roots[k]).0, x)
    }

    /// An entry evaluates the sensitive module `x` behind a planned one.
    pub open spec fn suffix_forces(self, plan: Set<ModuleIdx>, x: ModuleIdx) -> bool {
        exists|k: int|
            0 <= k < self.roots.len() && behind_planned(
                self.link.sensitive_order((#[trigger] self.roots[k]).1),
                plan,
                x,
            )
    }

    /// The sensitive module `x` shares a cycle of chunks with a planned one.
    pub open spec fn cycle_forces(self, plan: Set<ModuleIdx>, x: ModuleIdx) -> bool {
        self.link.order_sensitive(x) && self.chunk_graph.shares_cycle(self.same_cycle, plan, x)
    }

    /// An entry reaches `x`, and evaluating `x` needs a planned module.
    pub open spec fn import_forces(self, plan: Set<ModuleIdx>, x: ModuleIdx) -> bool {
        self.reachable(x) && (self.link.imports_member(x, plan) || self.link.reads_member(x, plan))
    }

    /// The plan cannot do without the eligible module `x`.
    pub open spec fn forces(self, plan: Set<ModuleIdx>, x: ModuleIdx) -> bool {
        self.link.wrap_eligible(x) && (self.suffix_forces(plan, x) || self.cycle_forces(plan, x)
            || self.import_forces(plan, x))
    }

    /// The plan holds whatever it forces.
    pub open spec fn closed(self, plan: Set<ModuleIdx>) -> bool {
        forall|x: ModuleIdx| #[trigger] self.forces(plan, x) ==> plan.contains(x)
    }

    /// The plan holds the eligible modules of `seed`.
    pub open spec fn covers(self, plan: Set<ModuleIdx>, seed: Set<ModuleIdx>) -> bool {
        forall|x: ModuleIdx| #[trigger]
            seed.contains(x) && self.link.wrap_eligible(x) ==> plan.contains(x)
    }

    /// The smallest closed plan that holds the eligible modules of `seed`.
    pub open spec fn plan_of(self, seed: Set<ModuleIdx>) -> Set<ModuleIdx> {
        Set::new(
            |x: ModuleIdx|
                forall|plan: Set<ModuleIdx>| #[trigger]
                    self.closed(plan) && self.covers(plan, seed) ==> plan.contains(x),
        )
    }

    /// A larger plan forces at least as much.
    pub proof fn lemma_forces_monotone(
        self,
        small: Set<ModuleIdx>,
        large: Set<ModuleIdx>,
        x: ModuleIdx,
    )
        requires
            small.subset_of(large),
            self.forces(small, x),
        ensures
            self.forces(large, x),
    {
        if self.suffix_forces(small, x) {
            let k = choose|k: int|
                0 <= k < self.roots.len() && behind_planned(
                    self.link.sensitive_order((#[trigger] self.roots[k]).1),
                    small,
                    x,
                );
            let order = self.link.sensitive_order(self.roots[k].1);
            let (i, j) = choose|i: int, j: int|
                #![trigger order[i], order[j]]
                0 <= i <= j < order.len() && small.contains(order[i]) && order[j] == x;
            assert(large.contains(order[i]) && order[j] == x);
            assert(behind_planned(order, large, x));
            assert(self.suffix_forces(large, x));
        } else if self.cycle_forces(small, x) {
            let (p, d) = choose|p: ModuleIdx, d: ChunkIdx|
                #![trigger small.contains(p), self.chunk_graph.hosts(d, x)]
                small.contains(p) && self.chunk_graph.hosts(d, x) && self.chunk_graph.joined(
                    self.same_cycle,
                    p,
                    d,
                );
            assert(large.contains(p) && self.chunk_graph.hosts(d, x));
            assert(self.cycle_forces(large, x));
        } else {
            members::lemma_members_monotone(self.link, small, large, x);
        }
    }

    /// A closed plan that holds some plan holds what the suffix rule makes of that one.
    proof fn lemma_suffixes_within(self, count: int, plan: Set<ModuleIdx>, closed: Set<ModuleIdx>)
        requires
            0 <= count <= self.roots.len(),
            plan.subset_of(closed),
            self.closed(closed),
        ensures
            self.link.with_suffixes(self.roots, count, plan).subset_of(closed),
        decreases count,
    {
        if count > 0 {
            self.lemma_suffixes_within(count - 1, plan, closed);
            let before = self.link.with_suffixes(self.roots, count - 1, plan);
            let order = self.roots[count - 1].1;
            assert forall|x: ModuleIdx| #[trigger]
                self.link.with_suffix(order, before).contains(x) implies closed.contains(x) by {
                if !before.contains(x) {
                    assert(behind_planned(
                        self.link.sensitive_order(self.roots[count - 1].1),
                        before,
                        x,
                    ));
                    assert(self.suffix_forces(before, x));
                    self.lemma_forces_monotone(before, closed, x);
                }
            }
        }
    }

    /// A plan that the suffix rule leaves alone holds whatever that rule forces.
    proof fn lemma_suffixes_fixed(self, count: int, plan: Set<ModuleIdx>)
        requires
            0 <= count <= self.roots.len(),
            self.link.with_suffixes(self.roots, count, plan) == plan,
        ensures
            forall|k: int, x: ModuleIdx|
                0 <= k < count && self.link.wrap_eligible(x) && #[trigger] behind_planned(
                    self.link.sensitive_order(self.roots[k].1),
                    plan,
                    x,
                ) ==> plan.contains(x),
        decreases count,
    {
        if count > 0 {
            let before = self.link.with_suffixes(self.roots, count - 1, plan);
            self.lemma_suffixes_grow(count - 1, plan);
            assert(before =~= plan);
            self.lemma_suffixes_fixed(count - 1, plan);
            assert forall|k: int, x: ModuleIdx|
                0 <= k < count && self.link.wrap_eligible(x) && #[trigger] behind_planned(
                    self.link.sensitive_order(self.roots[k].1),
                    plan,
                    x,
                ) implies plan.contains(x) by {
                if k == count - 1 {
                    assert(self.link.with_suffix(self.roots[k].1, before).contains(x));
                }
            }
        }
    }

    proof fn lemma_suffixes_grow(self, count: int, plan: Set<ModuleIdx>)
        ensures
            plan.subset_of(self.link.with_suffixes(self.roots, count, plan)),
        decreases count,
    {
        if count > 0 {
            self.lemma_suffixes_grow(count - 1, plan);
        }
    }

    /// The plan holds the eligible modules that it was made for, and whatever it forces.
    pub proof fn law_plan_is_closed(self, seed: Set<ModuleIdx>)
        ensures
            self.closed(self.plan_of(seed)),
            self.covers(self.plan_of(seed), seed),
    {
        let plan = self.plan_of(seed);
        assert forall|x: ModuleIdx| #[trigger] self.forces(plan, x) implies plan.contains(x) by {
            assert forall|closed: Set<ModuleIdx>| #[trigger]
                self.closed(closed) && self.covers(closed, seed) implies closed.contains(x) by {
                self.lemma_plan_is_least(seed, closed);
                self.lemma_forces_monotone(plan, closed, x);
            }
        }
    }

    /// More modules at risk never make the plan smaller.
    pub proof fn law_plan_grows_with_risk(self, small: Set<ModuleIdx>, large: Set<ModuleIdx>)
        requires
            small.subset_of(large),
        ensures
            self.plan_of(small).subset_of(self.plan_of(large)),
    {
        self.law_plan_is_closed(large);
        assert(self.covers(self.plan_of(large), small));
        self.lemma_plan_is_least(small, self.plan_of(large));
    }

    /// Planning for a plan gives the same plan.
    pub proof fn law_plan_is_stable(self, seed: Set<ModuleIdx>)
        ensures
            self.plan_of(self.plan_of(seed)) == self.plan_of(seed),
    {
        let plan = self.plan_of(seed);
        self.law_plan_is_closed(seed);
        self.law_plan_is_closed(plan);
        self.law_plan_is_eligible(seed);
        assert(self.covers(plan, plan));
        self.lemma_plan_is_least(plan, plan);
        assert forall|x: ModuleIdx| #[trigger] plan.contains(x) implies self.plan_of(plan).contains(
            x,
        ) by {
            assert(self.link.wrap_eligible(x));
        }
        assert(self.plan_of(plan) =~= plan);
    }

    /// Once an entry wraps a sensitive module, every eligible sensitive module that it evaluates
    /// later is wrapped too.
    pub proof fn law_later_sensitive_modules_wait(
        self,
        seed: Set<ModuleIdx>,
        k: int,
        i: int,
        j: int,
    )
        requires
            0 <= k < self.roots.len(),
            0 <= i <= j < self.link.sensitive_order(self.roots[k].1).len(),
            self.plan_of(seed).contains(self.link.sensitive_order(self.roots[k].1)[i]),
            self.link.wrap_eligible(self.link.sensitive_order(self.roots[k].1)[j]),
        ensures
            self.plan_of(seed).contains(self.link.sensitive_order(self.roots[k].1)[j]),
    {
        let plan = self.plan_of(seed);
        let order = self.link.sensitive_order(self.roots[k].1);
        self.law_plan_is_closed(seed);
        assert(plan.contains(order[i]) && order[j] == order[j]);
        assert(behind_planned(self.link.sensitive_order(self.roots[k].1), plan, order[j]));
        assert(self.forces(plan, order[j]));
    }

    /// Where nothing is at risk, nothing is planned.
    pub proof fn law_no_risk_no_plan(self)
        ensures
            self.plan_of(Set::empty()) == Set::<ModuleIdx>::empty(),
    {
        let none: Set<ModuleIdx> = Set::empty();
        assert forall|x: ModuleIdx| !#[trigger] self.forces(none, x) by {
            self.lemma_nothing_forces_nothing(x);
        }
        assert(self.closed(none));
        assert(self.covers(none, none));
        self.lemma_plan_is_least(none, none);
        assert(self.plan_of(none) =~= none);
    }

    proof fn lemma_nothing_forces_nothing(self, x: ModuleIdx)
        ensures
            !self.forces(Set::empty(), x),
    {
        let none: Set<ModuleIdx> = Set::empty();
        members::lemma_no_members(self.link, x);
        assert forall|k: int|
            0 <= k < self.roots.len() implies !behind_planned(
            self.link.sensitive_order((#[trigger] self.roots[k]).1),
            none,
            x,
        ) by {}
    }

    /// Only eligible modules are planned.
    pub proof fn law_plan_is_eligible(self, seed: Set<ModuleIdx>)
        ensures
            forall|x: ModuleIdx| #[trigger]
                self.plan_of(seed).contains(x) ==> self.link.wrap_eligible(x),
    {
        let eligible = Set::new(|x: ModuleIdx| self.link.wrap_eligible(x));
        assert(self.closed(eligible));
        assert(self.covers(eligible, seed));
        self.lemma_plan_is_least(seed, eligible);
    }

    /// A closed plan that holds the seed holds the smallest one.
    pub proof fn lemma_plan_is_least(self, seed: Set<ModuleIdx>, plan: Set<ModuleIdx>)
        requires
            self.closed(plan),
            self.covers(plan, seed),
        ensures
            self.plan_of(seed).subset_of(plan),
    {
        assert forall|x: ModuleIdx| #[trigger] self.plan_of(seed).contains(x) implies plan.contains(
            x,
        ) by {
            assert(self.closed(plan) && self.covers(plan, seed));
        }
    }
}

impl<'a> GenerateStage<'a> {
    /// Adds every eligible sensitive module that an entry evaluates behind a planned one, entry by
    /// entry, and says whether the plan changed.
    pub fn close_expected_sensitive_suffixes(
        &self,
        roots: &Vec<RootOrderAnalysis>,
        plan: &mut OrderWrapPlan,
    ) -> (changed: bool)
        requires
            self.link_output.wf(),
            self.link_output.roots_wf(roots@),
        ensures
            final(plan)@ == self.link_output.with_suffixes(
                root_orders(roots@),
                roots@.len() as int,
                old(plan)@,
            ),
            old(plan)@.subset_of(final(plan)@),
            changed <==> final(plan)@ != old(plan)@,
    {
        let link = self.link_output;
        let ghost orders = root_orders(roots@);
        let mut changed: bool = false;
        let mut k: usize = 0;
        while k < roots.len()
            invariant
                link == self.link_output,
                link.wf(),
                link.roots_wf(roots@),
                orders == root_orders(roots@),
                k <= roots@.len(),
                plan@ == link.with_suffixes(orders, k as int, old(plan)@),
                old(plan)@.subset_of(plan@),
                changed <==> plan@ != old(plan)@,
            decreases roots.len() - k,
        {
            let ghost before = plan@;
            let expected_order: &Vec<ModuleIdx> = &roots[k].expected_order;
            assert forall|i: int| 0 <= i < expected_order@.len() implies (
            #[trigger] expected_order@[i]) < link.module_count() by {
                assert(roots@[k as int].expected_order@[i] < link.module_count());
            }
            let grew = self.close_expected_sensitive_suffix(expected_order, plan);
            proof {
                assert(orders[k as int].1 == expected_order@);
                lemma_grown(old(plan)@, before, plan@);
            }
            changed = changed || grew;
            k = k + 1;
        }
        changed
    }

    /// Adds every eligible sensitive module of `expected_order` behind a planned one, and says
    /// whether the plan changed.
    fn close_expected_sensitive_suffix(
        &self,
        expected_order: &Vec<ModuleIdx>,
        plan: &mut OrderWrapPlan,
    ) -> (changed: bool)
        requires
            self.link_output.wf(),
            forall|i: int|
                0 <= i < expected_order@.len() ==> (#[trigger] expected_order@[i])
                    < self.link_output.module_count(),
        ensures
            final(plan)@ == self.link_output.with_suffix(expected_order@, old(plan)@),
            changed <==> final(plan)@ != old(plan)@,
    {
        let link = self.link_output;
        let ghost before = plan@;
        let expected_sensitive_order = self.sensitive_order(expected_order.as_slice());
        let ghost order = expected_sensitive_order@;
        proof {
            link.lemma_sensitive_in_table(expected_order@);
        }
        let mut first_wrapped_idx: usize = 0;
        while first_wrapped_idx < expected_sensitive_order.len() && !plan.contains(
            &expected_sensitive_order[first_wrapped_idx],
        )
            invariant
                order == expected_sensitive_order@,
                plan@ == before,
                first_wrapped_idx <= order.len(),
                forall|i: int|
                    0 <= i < first_wrapped_idx ==> !before.contains(#[trigger] order[i]),
            decreases expected_sensitive_order.len() - first_wrapped_idx,
        {
            first_wrapped_idx = first_wrapped_idx + 1;
        }
        let ghost first = first_wrapped_idx as int;
        let mut changed: bool = false;
        let mut j: usize = first_wrapped_idx;
        while j < expected_sensitive_order.len()
            invariant
                link == self.link_output,
                link.wf(),
                order == expected_sensitive_order@,
                forall|i: int|
                    0 <= i < order.len() ==> (#[trigger] order[i]) < link.module_count(),
                first <= j <= order.len(),
                forall|x: ModuleIdx| #[trigger]
                    plan@.contains(x) <==> before.contains(x) || (link.wrap_eligible(x) && exists|
                        i: int,
                    |
                        first <= i < j && #[trigger] order[i] == x),
                changed <==> plan@ != before,
            decreases expected_sensitive_order.len() - j,
        {
            let module_idx = expected_sensitive_order[j];
            let ghost middle = plan@;
            if self.is_order_wrap_eligible(module_idx) {
                let added = plan.insert(module_idx);
                proof {
                    if added {
                        assert(plan@.contains(module_idx) && !before.contains(module_idx));
                    } else {
                        assert(plan@ =~= middle);
                    }
                }
                changed = changed || added;
            }
            assert forall|x: ModuleIdx| #[trigger]
                plan@.contains(x) <==> before.contains(x) || (link.wrap_eligible(x) && exists|i:
                    int|
                    first <= i < j + 1 && #[trigger] order[i] == x) by {
                if middle.contains(x) && !before.contains(x) {
                    let i = choose|i: int| first <= i < j && #[trigger] order[i] == x;
                    assert(i < j + 1);
                }
                if plan@.contains(x) && !middle.contains(x) {
                    assert(order[j as int] == x);
                }
            }
            j = j + 1;
        }
        proof {
            let wanted = link.with_suffix(expected_order@, before);
            assert forall|x: ModuleIdx| plan@.contains(x) <==> #[trigger] wanted.contains(x) by {
                if plan@.contains(x) && !before.contains(x) {
                    let i = choose|i: int| first <= i < order.len() && #[trigger] order[i] == x;
                    assert(before.contains(order[first]));
                    assert(behind_planned(order, before, x));
                }
                if wanted.contains(x) && !before.contains(x) {
                    let (i, l) = choose|i: int, l: int|
                        #![trigger order[i], order[l]]
                        0 <= i <= l < order.len() && before.contains(order[i]) && order[l] == x;
                    assert(first <= i);
                    assert(order[l] == x);
                }
            }
            assert(plan@ =~= wanted);
        }
        changed
    }

    /// Adds the eligible sensitive modules of `modules`, and says whether the plan changed.
    fn plan_sensitive_modules(&self, modules: &Vec<ModuleIdx>, plan: &mut OrderWrapPlan) -> (
    changed: bool)
        requires
            self.link_output.wf(),
            forall|i: int|
                0 <= i < modules@.len() ==> (#[trigger] modules@[i])
                    < self.link_output.module_count(),
        ensures
            forall|x: ModuleIdx| #[trigger]
                final(plan)@.contains(x) <==> old(plan)@.contains(x) || (modules@.contains(x)
                    && self.link_output.order_sensitive(x) && self.link_output.wrap_eligible(x)),
            changed <==> final(plan)@ != old(plan)@,
    {
        let link = self.link_output;
        let ghost before = plan@;
        let mut changed: bool = false;
        let mut i: usize = 0;
        while i < modules.len()
            invariant
                link == self.link_output,
                link.wf(),
                forall|j: int|
                    0 <= j < modules@.len() ==> (#[trigger] modules@[j]) < link.module_count(),
                i <= modules@.len(),
                forall|x: ModuleIdx| #[trigger]
                    plan@.contains(x) <==> before.contains(x) || (modules@.take(i as int).contains(
                        x,
                    ) && link.order_sensitive(x) && link.wrap_eligible(x)),
                changed <==> plan@ != before,
            decreases modules.len() - i,
        {
            let module_idx = modules[i];
            let ghost middle = plan@;
            if self.is_order_sensitive(module_idx) && self.is_order_wrap_eligible(module_idx) {
                let added = plan.insert(module_idx);
                proof {
                    if added {
                        assert(plan@.contains(module_idx) && !before.contains(module_idx));
                    } else {
                        assert(plan@ =~= middle);
                    }
                }
                changed = changed || added;
            }
            proof {
                assert(modules@.take(i + 1) =~= modules@.take(i as int).push(module_idx));
                assert forall|x: ModuleIdx| #[trigger]
                    plan@.contains(x) <==> before.contains(x) || (modules@.take(i + 1).contains(x)
                        && link.order_sensitive(x) && link.wrap_eligible(x)) by {
                    vstd::seq_lib::lemma_seq_contains_after_push(
                        modules@.take(i as int),
                        module_idx,
                        x,
                    );
                }
            }
            i = i + 1;
        }
        assert(modules@.take(modules@.len() as int) =~= modules@);
        changed
    }

    /// Adds the eligible sensitive modules that the chunks of a component host, and says whether
    /// the plan changed.
    fn plan_component(
        &self,
        chunk_graph: &ChunkGraph,
        component: &Vec<ChunkIdx>,
        plan: &mut OrderWrapPlan,
    ) -> (changed: bool)
        requires
            self.link_output.wf(),
            chunk_graph.wf(self.link_output.module_count()),
            forall|k: int|
                0 <= k < component@.len() ==> (#[trigger] component@[k])
                    < chunk_graph.chunk_table@.len(),
        ensures
            forall|x: ModuleIdx| #[trigger]
                final(plan)@.contains(x) <==> old(plan)@.contains(x) || (
                self.link_output.order_sensitive(x) && self.link_output.wrap_eligible(x) && exists|
                    k: int,
                |
                    0 <= k < component@.len() && chunk_graph.hosts(#[trigger] component@[k], x)),
            changed <==> final(plan)@ != old(plan)@,
    {
        let link = self.link_output;
        let ghost before = plan@;
        let mut changed: bool = false;
        let mut k: usize = 0;
        while k < component.len()
            invariant
                link == self.link_output,
                link.wf(),
                chunk_graph.wf(link.module_count()),
                forall|j: int|
                    0 <= j < component@.len() ==> (#[trigger] component@[j])
                        < chunk_graph.chunk_table@.len(),
                k <= component@.len(),
                before.subset_of(plan@),
                forall|x: ModuleIdx| #[trigger]
                    plan@.contains(x) <==> before.contains(x) || (link.order_sensitive(x)
                        && link.wrap_eligible(x) && exists|j: int|
                        0 <= j < k && chunk_graph.hosts(#[trigger] component@[j], x)),
                changed <==> plan@ != before,
            decreases component.len() - k,
        {
            let chunk_idx = component[k];
            let ghost middle = plan@;
            let modules: &Vec<ModuleIdx> = &chunk_graph.chunk_table[chunk_idx].modules;
            assert forall|i: int| 0 <= i < modules@.len() implies (#[trigger] modules@[i])
                < link.module_count() by {
                assert(chunk_graph.chunk_table@[chunk_idx as int].modules@[i]
                    < link.module_count());
            }
            let grew = self.plan_sensitive_modules(modules, plan);
            proof {
                assert forall|x: ModuleIdx| #[trigger]
                    plan@.contains(x) <==> before.contains(x) || (link.order_sensitive(x)
                        && link.wrap_eligible(x) && exists|j: int|
                        0 <= j < k + 1 && chunk_graph.hosts(#[trigger] component@[j], x)) by {
                    if middle.contains(x) && !before.contains(x) {
                        let j = choose|j: int|
                            0 <= j < k && chunk_graph.hosts(#[trigger] component@[j], x);
                        assert(j < k + 1);
                    }
                    if plan@.contains(x) && !middle.contains(x) {
                        assert(chunk_graph.hosts(component@[k as int], x));
                    }
                }
                lemma_grown(before, middle, plan@);
            }
            changed = changed || grew;
            k = k + 1;
        }
        changed
    }

    /// Adds every eligible sensitive module that shares a cycle of chunks with a planned one, and
    /// says whether the plan changed.
    #[verifier::rlimit(40)]
    pub fn close_cyclic_chunk_members(
        &self,
        chunk_graph: &ChunkGraph,
        chunk_cycles: &ChunkCycles,
        plan: &mut OrderWrapPlan,
    ) -> (changed: bool)
        requires
            self.link_output.wf(),
            chunk_graph.wf(self.link_output.module_count()),
            chunk_cycles.wf(chunk_graph.chunk_table@.len()),
            old(plan)@.subset_of(indices::below(self.link_output.module_count())),
        ensures
            final(plan)@ == self.link_output.with_cycle_members(
                *chunk_graph,
                chunk_cycles.same_cycle(),
                old(plan)@,
            ),
            changed <==> final(plan)@ != old(plan)@,
    {
        let link = self.link_output;
        let ghost before = plan@;
        let planned = plan.modules();
        let mut triggered_sccs: FxHashSet<usize> = FxHashSet::default();
        let mut i: usize = 0;
        while i < planned.len()
            invariant
                link == self.link_output,
                chunk_graph.wf(link.module_count()),
                planned@.to_set() == before,
                before.subset_of(indices::below(link.module_count())),
                i <= planned@.len(),
                forall|scc: usize| #[trigger]
                    triggered_sccs@.contains(scc) <==> exists|j: int|
                        0 <= j < i && triggers(
                            *chunk_graph,
                            *chunk_cycles,
                            #[trigger] planned@[j],
                            scc,
                        ),
            decreases planned.len() - i,
        {
            let module_idx = planned[i];
            let ghost earlier = triggered_sccs@;
            assert(planned@.to_set().contains(module_idx));
            if let Some(chunk_idx) = chunk_graph.module_to_chunk[module_idx] {
                if let Some(scc_idx) = fx::map_get(&chunk_cycles.scc_of_chunk, chunk_idx) {
                    fx::set_insert(&mut triggered_sccs, scc_idx);
                }
            }
            assert forall|scc: usize| #[trigger] triggered_sccs@.contains(scc) <==> exists|j: int|
                0 <= j < i + 1 && triggers(
                    *chunk_graph,
                    *chunk_cycles,
                    #[trigger] planned@[j],
                    scc,
                ) by {
                if earlier.contains(scc) {
                    let j = choose|j: int|
                        0 <= j < i && triggers(
                            *chunk_graph,
                            *chunk_cycles,
                            #[trigger] planned@[j],
                            scc,
                        );
                    assert(j < i + 1);
                }
                if triggered_sccs@.contains(scc) && !earlier.contains(scc) {
                    assert(triggers(*chunk_graph, *chunk_cycles, planned@[i as int], scc));
                }
            }
            i = i + 1;
        }
        let triggered = fx::set_items(&triggered_sccs);
        let mut changed: bool = false;
        let mut t: usize = 0;
        while t < triggered.len()
            invariant
                link == self.link_output,
                link.wf(),
                chunk_graph.wf(link.module_count()),
                chunk_cycles.wf(chunk_graph.chunk_table@.len()),
                planned@.to_set() == before,
                triggered@.to_set() == triggered_sccs@,
                forall|scc: usize| #[trigger]
                    triggered_sccs@.contains(scc) <==> exists|j: int|
                        0 <= j < planned@.len() && triggers(
                            *chunk_graph,
                            *chunk_cycles,
                            #[trigger] planned@[j],
                            scc,
                        ),
                t <= triggered@.len(),
                before.subset_of(plan@),
                forall|x: ModuleIdx| #[trigger]
                    plan@.contains(x) <==> before.contains(x) || (link.order_sensitive(x)
                        && link.wrap_eligible(x) && exists|u: int|
                        0 <= u < t && component_hosts(
                            *chunk_graph,
                            *chunk_cycles,
                            #[trigger] triggered@[u],
                            x,
                        )),
                changed <==> plan@ != before,
            decreases triggered.len() - t,
        {
            let scc_idx = triggered[t];
            let ghost middle = plan@;
            proof {
                assert(triggered@.to_set().contains(scc_idx));
                assert(triggered_sccs@.contains(scc_idx));
            }
            let component: &Vec<ChunkIdx> = &chunk_cycles.sccs[scc_idx];
            assert forall|k: int| 0 <= k < component@.len() implies (#[trigger] component@[k])
                < chunk_graph.chunk_table@.len() by {
                assert(chunk_cycles.sccs@[scc_idx as int]@[k] < chunk_graph.chunk_table@.len());
            }
            let grew = self.plan_component(chunk_graph, component, plan);
            proof {
                assert forall|x: ModuleIdx| #[trigger]
                    plan@.contains(x) <==> before.contains(x) || (link.order_sensitive(x)
                        && link.wrap_eligible(x) && exists|u: int|
                        0 <= u < t + 1 && component_hosts(
                            *chunk_graph,
                            *chunk_cycles,
                            #[trigger] triggered@[u],
                            x,
                        )) by {
                    if middle.contains(x) && !before.contains(x) {
                        let u = choose|u: int|
                            0 <= u < t && component_hosts(
                                *chunk_graph,
                                *chunk_cycles,
                                #[trigger] triggered@[u],
                                x,
                            );
                        assert(u < t + 1);
                    }
                    if plan@.contains(x) && !middle.contains(x) {
                        assert(component_hosts(
                            *chunk_graph,
                            *chunk_cycles,
                            triggered@[t as int],
                            x,
                        ));
                    }
                }
                lemma_grown(before, middle, plan@);
            }
            changed = changed || grew;
            t = t + 1;
        }
        proof {
            let same_cycle = chunk_cycles.same_cycle();
            let wanted = link.with_cycle_members(*chunk_graph, same_cycle, before);
            assert forall|x: ModuleIdx| plan@.contains(x) <==> #[trigger] wanted.contains(x) by {
                if plan@.contains(x) && !before.contains(x) {
                    let u = choose|u: int|
                        0 <= u < triggered@.len() && component_hosts(
                            *chunk_graph,
                            *chunk_cycles,
                            #[trigger] triggered@[u],
                            x,
                        );
                    assert(triggered@.to_set().contains(triggered@[u]));
                    assert(triggered_sccs@.contains(triggered@[u]));
                    let j = choose|j: int|
                        0 <= j < planned@.len() && triggers(
                            *chunk_graph,
                            *chunk_cycles,
                            #[trigger] planned@[j],
                            triggered@[u],
                        );
                    assert(planned@.to_set().contains(planned@[j]));
                    let component = chunk_cycles.sccs@[triggered@[u] as int];
                    let k = choose|k: int|
                        0 <= k < component@.len() && chunk_graph.hosts(
                            #[trigger] component@[k],
                            x,
                        );
                    assert(component@.contains(component@[k]));
                    assert(chunk_graph.joined(same_cycle, planned@[j], component@[k]));
                    assert(before.contains(planned@[j]) && chunk_graph.hosts(component@[k], x));
                }
                if wanted.contains(x) && !before.contains(x) {
                    let (p, d) = choose|p: ModuleIdx, d: ChunkIdx|
                        #![trigger before.contains(p), chunk_graph.hosts(d, x)]
                        before.contains(p) && chunk_graph.hosts(d, x) && chunk_graph.joined(
                            same_cycle,
                            p,
                            d,
                        );
                    let c = chunk_graph.chunk_of(p)->0;
                    assert(chunk_cycles.joins(c, d));
                    let scc = chunk_cycles.scc_of_chunk@[c];
                    assert(planned@.contains(p)) by {
                        assert(planned@.to_set().contains(p));
                    }
                    let j = planned@.index_of(p);
                    assert(triggers(*chunk_graph, *chunk_cycles, planned@[j], scc));
                    assert(triggered_sccs@.contains(scc));
                    assert(triggered@.contains(scc)) by {
                        assert(triggered@.to_set().contains(scc));
                    }
                    let u = triggered@.index_of(scc);
                    let component = chunk_cycles.sccs@[scc as int];
                    let k = component@.index_of(d);
                    assert(chunk_graph.hosts(component@[k], x));
                    assert(component_hosts(*chunk_graph, *chunk_cycles, triggered@[u], x));
                }
            }
            assert(plan@ =~= wanted);
        }
        changed
    }
}

/// The chunk of `p` is in the component `scc`.
spec fn triggers(
    chunk_graph: ChunkGraph,
    chunk_cycles: ChunkCycles,
    p: ModuleIdx,
    scc: usize,
) -> bool {
    chunk_graph.chunk_of(p) matches Some(c) && chunk_cycles.scc_of_chunk@.contains_key(c)
        && chunk_cycles.scc_of_chunk@[c] == scc
}

/// A chunk of the component `scc` hosts `x`.
spec fn component_hosts(
    chunk_graph: ChunkGraph,
    chunk_cycles: ChunkCycles,
    scc: usize,
    x: ModuleIdx,
) -> bool {
    exists|k: int|
        0 <= k < chunk_cycles.sccs@[scc as int]@.len() && chunk_graph.hosts(
            #[trigger] chunk_cycles.sccs@[scc as int]@[k],
            x,
        )
}

/// A set that grew at one step of several has grown.
proof fn lemma_grown(before: Set<ModuleIdx>, middle: Set<ModuleIdx>, after: Set<ModuleIdx>)
    requires
        before.subset_of(middle),
        middle.subset_of(after),
    ensures
        before.subset_of(after),
        after != before <==> middle != before || after != middle,
{
    if after == before {
        assert(middle =~= before);
    }
    if middle == before && after == middle {
        assert(after =~= before);
    }
}

impl LinkStageOutput {
    proof fn lemma_sensitive_in_table(self, order: Seq<ModuleIdx>)
        requires
            forall|i: int|
                0 <= i < order.len() ==> (#[trigger] order[i]) < self.module_count(),
        ensures
            forall|i: int|
                0 <= i < self.sensitive_order(order).len() ==> (
                #[trigger] self.sensitive_order(order)[i]) < self.module_count(),
    {
        let sensitive = self.sensitive_order(order);
        self.lemma_sensitive_order(order);
        assert forall|i: int| 0 <= i < sensitive.len() implies (#[trigger] sensitive[i])
            < self.module_count() by {
            assert(sensitive.contains(sensitive[i]));
        }
    }
}

/// The rules that hold for the given entries, chunks and cycles.
pub open spec fn wrap_rules(
    link: LinkStageOutput,
    roots: Seq<RootOrderAnalysis>,
    chunk_graph: ChunkGraph,
    same_cycle: spec_fn(ChunkIdx, ChunkIdx) -> bool,
) -> WrapRules {
    WrapRules { link, roots: root_orders(roots), chunk_graph, same_cycle }
}

impl<'a> GenerateStage<'a> {
    /// Plans the eligible modules of `at_risk`, and whatever else has to be wrapped because of
    /// them.
    #[verifier::rlimit(40)]
    pub fn build_order_wrap_plan(
        &self,
        at_risk: FxHashSet<ModuleIdx>,
        roots: &Vec<RootOrderAnalysis>,
        chunk_graph: &ChunkGraph,
        chunk_cycles: &ChunkCycles,
    ) -> (plan: OrderWrapPlan)
        requires
            self.link_output.wf(),
            self.link_output.roots_wf(roots@),
            chunk_graph.wf(self.link_output.module_count()),
            chunk_cycles.wf(chunk_graph.chunk_table@.len()),
            at_risk@.subset_of(indices::below(self.link_output.module_count())),
        ensures
            plan@ == wrap_rules(
                *self.link_output,
                roots@,
                *chunk_graph,
                chunk_cycles.same_cycle(),
            ).plan_of(at_risk@),
    {
        let link = self.link_output;
        let ghost rules = wrap_rules(*link, roots@, *chunk_graph, chunk_cycles.same_cycle());
        let source_reachable = self.source_reachable_modules(roots);
        let mut plan = OrderWrapPlan::default();
        let seed = fx::set_items(&at_risk);
        let mut i: usize = 0;
        while i < seed.len()
            invariant
                link == self.link_output,
                link.wf(),
                seed@.to_set() == at_risk@,
                at_risk@.subset_of(indices::below(link.module_count())),
                i <= seed@.len(),
                forall|x: ModuleIdx| #[trigger]
                    plan@.contains(x) <==> seed@.take(i as int).contains(x) && link.wrap_eligible(
                        x,
                    ),
            decreases seed.len() - i,
        {
            let module_idx = seed[i];
            assert(seed@.to_set().contains(module_idx));
            if self.is_order_wrap_eligible(module_idx) {
                plan.insert(module_idx);
            }
            proof {
                assert(seed@.take(i + 1) =~= seed@.take(i as int).push(module_idx));
                assert forall|x: ModuleIdx| #[trigger]
                    plan@.contains(x) <==> seed@.take(i + 1).contains(x) && link.wrap_eligible(
                        x,
                    ) by {
                    vstd::seq_lib::lemma_seq_contains_after_push(
                        seed@.take(i as int),
                        module_idx,
                        x,
                    );
                }
            }
            i = i + 1;
        }
        proof {
            assert(seed@.take(seed@.len() as int) =~= seed@);
            assert forall|x: ModuleIdx| #[trigger]
                plan@.contains(x) <==> at_risk@.contains(x) && link.wrap_eligible(x) by {
                assert(seed@.to_set().contains(x) <==> seed@.contains(x));
            }
            assert forall|x: ModuleIdx| #[trigger]
                source_reachable@.contains(x) <==> rules.reachable(x) by {
                rules.lemma_reachable(roots@, x);
            }
        }
        loop
            invariant
                link == self.link_output,
                link.wf(),
                link.roots_wf(roots@),
                chunk_graph.wf(link.module_count()),
                chunk_cycles.wf(chunk_graph.chunk_table@.len()),
                rules == wrap_rules(*link, roots@, *chunk_graph, chunk_cycles.same_cycle()),
                forall|x: ModuleIdx| #[trigger]
                    source_reachable@.contains(x) <==> rules.reachable(x),
                forall|x: ModuleIdx| #[trigger] plan@.contains(x) ==> link.wrap_eligible(x),
                rules.covers(plan@, at_risk@),
                forall|closed: Set<ModuleIdx>| #[trigger]
                    rules.closed(closed) && rules.covers(closed, at_risk@) ==> plan@.subset_of(
                        closed,
                    ),
            ensures
                rules.closed(plan@),
            decreases link.module_count() - plan@.len(),
        {
            let ghost start = plan@;
            proof {
                assert(start.subset_of(indices::below(link.module_count())));
                indices::lemma_below_bounds_len(link.module_count(), start);
            }
            let mut changed = self.close_expected_sensitive_suffixes(roots, &mut plan);
            let ghost after_suffixes = plan@;
            proof {
                assert(after_suffixes == rules.link.with_suffixes(
                    rules.roots,
                    rules.roots.len() as int,
                    start,
                ));
                rules.lemma_suffixes_eligible(rules.roots.len() as int, start);
                assert forall|closed: Set<ModuleIdx>| #[trigger]
                    rules.closed(closed) && rules.covers(
                        closed,
                        at_risk@,
                    ) implies after_suffixes.subset_of(closed) by {
                    rules.lemma_suffixes_within(rules.roots.len() as int, start, closed);
                }
                assert(after_suffixes.subset_of(indices::below(link.module_count())));
            }
            let grew = self.close_cyclic_chunk_members(chunk_graph, chunk_cycles, &mut plan);
            changed = changed || grew;
            let ghost after_cycles = plan@;
            proof {
                lemma_grown(start, after_suffixes, after_cycles);
                assert forall|closed: Set<ModuleIdx>| #[trigger]
                    rules.closed(closed) && rules.covers(
                        closed,
                        at_risk@,
                    ) implies after_cycles.subset_of(closed) by {
                    assert forall|x: ModuleIdx| #[trigger]
                        after_cycles.contains(x) implies closed.contains(x) by {
                        if !after_suffixes.contains(x) {
                            assert(rules.forces(after_suffixes, x));
                            rules.lemma_forces_monotone(after_suffixes, closed, x);
                        }
                    }
                }
            }
            let mut current: FxHashSet<ModuleIdx> = FxHashSet::default();
            let members = plan.modules();
            fx::set_extend(&mut current, &members);
            assert(current@ =~= after_cycles);
            let mut m: usize = 0;
            while m < link.module_table.modules.len()
                invariant
                    link == self.link_output,
                    link.wf(),
                    rules.link == *link,
                    forall|x: ModuleIdx| #[trigger]
                        source_reachable@.contains(x) <==> rules.reachable(x),
                    m <= link.module_count(),
                    current@ == after_cycles,
                    start.subset_of(after_cycles),
                    after_cycles.subset_of(plan@),
                    forall|x: ModuleIdx| #[trigger]
                        plan@.contains(x) <==> after_cycles.contains(x) || (x < m
                            && link.wrap_eligible(x) && rules.import_forces(after_cycles, x)),
                    changed <==> plan@ != start,
                decreases link.module_table.modules.len() - m,
            {
                let ghost middle = plan@;
                let ghost before = changed;
                if link.module_table.modules[m].is_normal() && fx::set_contains(
                    &source_reachable,
                    m,
                ) && self.is_order_wrap_eligible(m) && !plan.contains(&m) {
                    if self.statically_imports_wrapped_member(m, &current)
                        || self.top_level_reads_wrapped_export(m, &current) {
                        let added = plan.insert(m);
                        changed = changed || added;
                        assert(plan@.contains(m) && !start.contains(m));
                    }
                }
                assert forall|x: ModuleIdx| #[trigger]
                    plan@.contains(x) <==> after_cycles.contains(x) || (x < m + 1
                        && link.wrap_eligible(x) && rules.import_forces(after_cycles, x)) by {
                    assert(source_reachable@.contains(x) <==> rules.reachable(x));
                    assert(middle.contains(x) <==> after_cycles.contains(x) || (x < m
                        && link.wrap_eligible(x) && rules.import_forces(after_cycles, x)));
                }
                m = m + 1;
            }
            proof {
                assert forall|closed: Set<ModuleIdx>| #[trigger]
                    rules.closed(closed) && rules.covers(closed, at_risk@) implies plan@.subset_of(
                    closed,
                ) by {
                    assert forall|x: ModuleIdx| #[trigger] plan@.contains(x) implies closed.contains(
                        x,
                    ) by {
                        if !after_cycles.contains(x) {
                            assert(rules.forces(after_cycles, x));
                            rules.lemma_forces_monotone(after_cycles, closed, x);
                        }
                    }
                }
                assert(plan@.subset_of(indices::below(link.module_count())));
                indices::lemma_below_bounds_len(link.module_count(), plan@);
                vstd::set_lib::lemma_len_subset(start, plan@);
            }
            if !changed {
                proof {
                    assert(after_suffixes =~= start);
                    assert(after_cycles =~= start);
                    rules.lemma_suffixes_fixed(rules.roots.len() as int, start);
                    assert forall|x: ModuleIdx| #[trigger]
                        rules.forces(start, x) implies start.contains(x) by {
                        if rules.suffix_forces(start, x) {
                            let k = choose|k: int|
                                0 <= k < rules.roots.len() && behind_planned(
                                    rules.link.sensitive_order((#[trigger] rules.roots[k]).1),
                                    start,
                                    x,
                                );
                            assert(behind_planned(
                                rules.link.sensitive_order(rules.roots[k].1),
                                start,
                                x,
                            ));
                        } else if rules.cycle_forces(start, x) {
                            assert(after_cycles.contains(x));
                        } else {
                            assert(plan@.contains(x));
                        }
                    }
                }
                break;
            }
            proof {
                if start.len() == plan@.len() {
                    vstd::set_lib::lemma_subset_equality(start, plan@);
                }
            }
        }
        proof {
            rules.lemma_plan_is_least(at_risk@, plan@);
            assert(plan@ =~= rules.plan_of(at_risk@)) by {
                assert forall|x: ModuleIdx| #[trigger] plan@.contains(x) implies rules.plan_of(
                    at_risk@,
                ).contains(x) by {
                    assert forall|closed: Set<ModuleIdx>| #[trigger]
                        rules.closed(closed) && rules.covers(
                            closed,
                            at_risk@,
                        ) implies closed.contains(x) by {
                        assert(plan@.subset_of(closed));
                    }
                }
            }
        }
        plan
    }
}

impl WrapRules {
    proof fn lemma_reachable(self, roots: Seq<RootOrderAnalysis>, x: ModuleIdx)
        requires
            self.roots == root_orders(roots),
        ensures
            self.reachable(x) <==> self.link.reached_from(roots, x),
    {
        if self.reachable(x) {
            let k = choose|k: int|
                0 <= k < self.roots.len() && self.link.source_reaches(
                    (#[trigger] self.roots[k]).0,
                    x,
                );
            assert(self.roots[k].0 == roots[k].root);
        }
        if self.link.reached_from(roots, x) {
            let k = choose|k: int|
                0 <= k < roots.len() && self.link.source_reaches((#[trigger] roots[k]).root, x);
            assert(self.roots[k].0 == roots[k].root);
        }
    }

    proof fn lemma_suffixes_eligible(self, count: int, plan: Set<ModuleIdx>)
        requires
            forall|x: ModuleIdx| #[trigger] plan.contains(x) ==> self.link.wrap_eligible(x),
        ensures
            forall|x: ModuleIdx| #[trigger]
                self.link.with_suffixes(self.roots, count, plan).contains(x)
                    ==> self.link.wrap_eligible(x),
        decreases count,
    {
        if count > 0 {
            self.lemma_suffixes_eligible(count - 1, plan);
            let before = self.link.with_suffixes(self.roots, count - 1, plan);
            assert forall|x: ModuleIdx| #[trigger]
                self.link.with_suffixes(self.roots, count, plan).contains(
                    x,
                ) implies self.link.wrap_eligible(x) by {
                assert(before.contains(x) ==> self.link.wrap_eligible(x));
            }
        }
    }
}

} // verus!
