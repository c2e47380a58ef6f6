//! What every plan holds, and what it does not, read off the link tables and the chunks.

use vstd::prelude::*;

use crate::chunk_cycles::ChunkCycles;
use crate::chunks::{ChunkGraph, ChunkIdx};
use crate::link::{
    ExportsKind, ImportKind, LinkStageOutput, Module, ModuleIdx, SymbolOrMemberExprRef, WrapKind,
};
use crate::plan::RootOrderAnalysis;
use crate::seqs;
use crate::wrap_plan;
use crate::wrap_plan::WrapRules;

verus! {

/// What a plan is made from.
pub struct PlanInput {
    pub link: LinkStageOutput,
    pub roots: Seq<RootOrderAnalysis>,
    pub chunk_graph: ChunkGraph,
    pub cycles: ChunkCycles,
    pub at_risk: Set<ModuleIdx>,
}

impl PlanInput {
    /// The rules that the plan follows.
    pub open spec fn rules(self) -> WrapRules {
        wrap_plan::wrap_rules(
            self.link,
            self.roots,
            self.chunk_graph,
            self.cycles.same_cycle(),
        )
    }

    /// The plan that is made from it.
    pub open spec fn plan(self) -> Set<ModuleIdx> {
        self.rules().plan_of(self.at_risk)
    }

    /// Each module at risk that can be wrapped is planned.
    pub proof fn law_what_is_at_risk_is_planned(self, x: ModuleIdx)
        requires
            self.link.wf(),
            self.at_risk.contains(x),
            x < self.link.module_table.modules@.len(),
            x != self.link.runtime.id,
            self.link.metas@[x as int].is_included,
            self.link.metas@[x as int].wrap_kind == WrapKind::Unwrapped,
            self.link.module_table.modules@[x as int] matches Module::Normal(module) && (
            module.exports_kind == ExportsKind::Esm || module.exports_kind == ExportsKind::Unknown),
        ensures
            self.plan().contains(x),
    {
        self.rules().law_plan_is_closed(self.at_risk);
    }

    /// Nothing is planned that cannot be wrapped.
    pub proof fn law_what_is_planned_can_be_wrapped(self, x: ModuleIdx)
        requires
            self.link.wf(),
            self.plan().contains(x),
        ensures
            x < self.link.module_table.modules@.len(),
            x != self.link.runtime.id,
            self.link.metas@[x as int].is_included,
            self.link.metas@[x as int].wrap_kind == WrapKind::Unwrapped,
            self.link.module_table.modules@[x as int] matches Module::Normal(module) && (
            module.exports_kind == ExportsKind::Esm || module.exports_kind == ExportsKind::Unknown),
    {
        self.rules().law_plan_is_eligible(self.at_risk);
    }

    /// A module that can be wrapped, that an entry leads to, and that has an execution dependency in
    /// the plan is planned once any of its static imports, at whatever position, is planned or leads
    /// to a planned module.
    pub proof fn law_importers_are_planned(
        self,
        x: ModuleIdx,
        root: int,
        way: Seq<ModuleIdx>,
        way_records: Seq<int>,
        dependency: int,
        record: int,
        path: Seq<ModuleIdx>,
        path_records: Seq<int>,
    )
        requires
            self.link.wf(),
            x < self.link.module_table.modules@.len(),
            x != self.link.runtime.id,
            self.link.metas@[x as int].is_included,
            self.link.metas@[x as int].wrap_kind == WrapKind::Unwrapped,
            self.link.module_table.modules@[x as int] matches Module::Normal(module) && {
                &&& module.exports_kind == ExportsKind::Esm || module.exports_kind
                    == ExportsKind::Unknown
                &&& 0 <= record < module.import_records@.len()
                &&& module.import_records@[record].kind == ImportKind::Import
                &&& module.import_records@[record].resolved_module == Some(path[0])
            },
            0 <= root < self.roots.len(),
            way[0] == self.roots[root].root,
            way.last() == x,
            self.link.import_path(way, way_records),
            0 <= dependency < self.link.metas@[x as int].execution_dependencies@.len(),
            self.plan().contains(self.link.metas@[x as int].execution_dependencies@[dependency]),
            self.link.import_path(path, path_records),
            self.plan().contains(path.last()),
        ensures
            self.plan().contains(x),
    {
        let rules = self.rules();
        rules.law_plan_is_closed(self.at_risk);
        self.lemma_reached(x, root, way, way_records);
        self.link.law_whose_imports_count(x, dependency, record, path, path_records, self.plan());
        assert(rules.import_forces(self.plan(), x));
        assert(rules.forces(self.plan(), x));
    }

    /// A module that can be wrapped, that an entry leads to, and whose top-level code reads imports
    /// is planned once any reference of any of its source statements touches the plan.
    pub proof fn law_readers_are_planned(
        self,
        x: ModuleIdx,
        root: int,
        way: Seq<ModuleIdx>,
        way_records: Seq<int>,
        s: int,
        r: int,
    )
        requires
            self.link.wf(),
            x < self.link.module_table.modules@.len(),
            x != self.link.runtime.id,
            self.link.metas@[x as int].is_included,
            self.link.metas@[x as int].wrap_kind == WrapKind::Unwrapped,
            self.link.module_table.modules@[x as int] matches Module::Normal(module) && {
                &&& module.exports_kind == ExportsKind::Esm || module.exports_kind
                    == ExportsKind::Unknown
                &&& module.meta.top_level_import_read
            },
            0 <= root < self.roots.len(),
            way[0] == self.roots[root].root,
            way.last() == x,
            self.link.import_path(way, way_records),
            1 <= s < self.link.stmt_infos@[x as int].infos@.len(),
            0 <= r < self.link.stmt_infos@[x as int].infos@[s].referenced_symbols@.len(),
            self.link.reference_touches(
                x,
                self.link.stmt_infos@[x as int].infos@[s].referenced_symbols@[r],
                self.plan(),
            ),
        ensures
            self.plan().contains(x),
    {
        let rules = self.rules();
        rules.law_plan_is_closed(self.at_risk);
        self.lemma_reached(x, root, way, way_records);
        self.link.law_whose_reads_count(x, s, r, self.plan());
        assert(rules.import_forces(self.plan(), x));
        assert(rules.forces(self.plan(), x));
    }

    /// In particular, top-level code that names a symbol whose owner is planned, or that stands for
    /// a symbol whose owner is, puts its module into the plan.
    pub proof fn law_readers_of_a_planned_symbol_are_planned(
        self,
        x: ModuleIdx,
        root: int,
        way: Seq<ModuleIdx>,
        way_records: Seq<int>,
        s: int,
        r: int,
    )
        requires
            self.link.wf(),
            x < self.link.module_table.modules@.len(),
            x != self.link.runtime.id,
            self.link.metas@[x as int].is_included,
            self.link.metas@[x as int].wrap_kind == WrapKind::Unwrapped,
            self.link.module_table.modules@[x as int] matches Module::Normal(module) && {
                &&& module.exports_kind == ExportsKind::Esm || module.exports_kind
                    == ExportsKind::Unknown
                &&& module.meta.top_level_import_read
            },
            0 <= root < self.roots.len(),
            way[0] == self.roots[root].root,
            way.last() == x,
            self.link.import_path(way, way_records),
            1 <= s < self.link.stmt_infos@[x as int].infos@.len(),
            0 <= r < self.link.stmt_infos@[x as int].infos@[s].referenced_symbols@.len(),
            self.link.stmt_infos@[x as int].infos@[s].referenced_symbols@[r] matches
                SymbolOrMemberExprRef::Symbol(symbol_ref) && (self.plan().contains(symbol_ref.owner)
                || self.plan().contains(
                self.link.symbol_db.links@[symbol_ref.owner as int]@[symbol_ref.symbol as int].canonical.owner,
            )),
        ensures
            self.plan().contains(x),
    {
        let reference = self.link.stmt_infos@[x as int].infos@[s].referenced_symbols@[r];
        self.link.law_what_a_reference_touches(x, reference, self.plan());
        self.link.law_what_a_symbol_touches(reference->Symbol_0, self.plan());
        self.law_readers_are_planned(x, root, way, way_records, s, r);
    }

    proof fn lemma_reached(
        self,
        x: ModuleIdx,
        root: int,
        way: Seq<ModuleIdx>,
        way_records: Seq<int>,
    )
        requires
            self.link.wf(),
            self.link.is_normal(x),
            0 <= root < self.roots.len(),
            way[0] == self.roots[root].root,
            way.last() == x,
            self.link.import_path(way, way_records),
        ensures
            self.rules().reachable(x),
    {
        self.link.lemma_import_path_reaches(way, way_records);
        assert(self.rules().roots[root].0 == self.roots[root].root);
        assert(self.link.source_reaches(self.rules().roots[root].0, x));
    }

    /// Once an entry expects a planned module whose moment matters, every other one whose moment
    /// matters and that the entry does not expect earlier is planned too, if it can be wrapped.
    pub proof fn law_what_comes_later_is_planned(self, root: int, i: int, x: ModuleIdx)
        requires
            self.link.wf(),
            0 <= root < self.roots.len(),
            0 <= i < self.roots[root].expected_order@.len(),
            self.plan().contains(self.roots[root].expected_order@[i]),
            self.link.order_sensitive(self.roots[root].expected_order@[i]),
            self.roots[root].expected_order@.contains(x),
            forall|k: int| 0 <= k < i ==> self.roots[root].expected_order@[k] != x,
            self.link.order_sensitive(x),
            self.link.wrap_eligible(x),
        ensures
            self.plan().contains(x),
    {
        let rules = self.rules();
        let order = self.roots[root].expected_order@;
        let plan = self.plan();
        let sensitive = |m: ModuleIdx| self.link.order_sensitive(m);
        if order[i] != x {
            assert forall|k: int| 0 <= k <= i implies order[k] != x by {}
            seqs::lemma_first_occurrences(order, sensitive, i, x);
            let kept = self.link.sensitive_order(order);
            let (p, q) = choose|p: int, q: int|
                #![trigger kept[p], kept[q]]
                0 <= p < q < kept.len() && kept[p] == order[i] && kept[q] == x;
            rules.law_plan_is_closed(self.at_risk);
            assert(rules.roots[root].1 == order);
            assert(plan.contains(kept[p]) && kept[q] == x);
            assert(wrap_plan::behind_planned(
                self.link.sensitive_order(rules.roots[root].1),
                plan,
                x,
            ));
            assert(rules.suffix_forces(plan, x));
            assert(rules.forces(plan, x));
        }
    }

    /// Every module whose moment matters, that can be wrapped, and that is in a chunk of a cycle is
    /// planned once a module of any chunk of that cycle is.
    pub proof fn law_cycles_are_planned_together(
        self,
        p: ModuleIdx,
        c: ChunkIdx,
        d: ChunkIdx,
        k: int,
    )
        requires
            self.plan().contains(p),
            self.chunk_graph.module_to_chunk@[p as int] == Some(c),
            self.cycles.scc_of_chunk@.contains_key(c),
            self.cycles.sccs@[self.cycles.scc_of_chunk@[c] as int]@.contains(d),
            d < self.chunk_graph.chunk_table@.len(),
            0 <= k < self.chunk_graph.chunk_table@[d as int].modules@.len(),
            self.link.order_sensitive(self.chunk_graph.chunk_table@[d as int].modules@[k]),
            self.link.wrap_eligible(self.chunk_graph.chunk_table@[d as int].modules@[k]),
        ensures
            self.plan().contains(self.chunk_graph.chunk_table@[d as int].modules@[k]),
    {
        let rules = self.rules();
        let plan = self.plan();
        let x = self.chunk_graph.chunk_table@[d as int].modules@[k];
        rules.law_plan_is_closed(self.at_risk);
        assert(self.chunk_graph.hosts(d, x));
        assert(self.cycles.joins(c, d));
        assert((rules.same_cycle)(c, d));
        assert(self.chunk_graph.joined(rules.same_cycle, p, d));
        assert(plan.contains(p) && self.chunk_graph.hosts(d, x));
        assert(self.chunk_graph.shares_cycle(rules.same_cycle, plan, x));
        assert(rules.cycle_forces(plan, x));
        assert(rules.forces(plan, x));
    }

    /// Nothing more is planned than these reasons ask for: a set of modules that holds what is at
    /// risk, what is expected behind its members, what shares a cycle with them, and what imports or
    /// reads from them behind an entry, always of what can be wrapped, holds the plan.
    pub proof fn law_nothing_else_is_planned(self, set: Set<ModuleIdx>)
        requires
            self.link.wf(),
            forall|x: ModuleIdx| #[trigger]
                self.at_risk.contains(x) && self.link.wrap_eligible(x) ==> set.contains(x),
            forall|root: int, i: int, x: ModuleIdx|
                #![trigger self.roots[root].expected_order@[i], self.link.wrap_eligible(x)]
                {
                    &&& 0 <= root < self.roots.len()
                    &&& 0 <= i < self.roots[root].expected_order@.len()
                    &&& set.contains(self.roots[root].expected_order@[i])
                    &&& self.link.order_sensitive(self.roots[root].expected_order@[i])
                    &&& self.roots[root].expected_order@.contains(x)
                    &&& forall|k: int| 0 <= k < i ==> self.roots[root].expected_order@[k] != x
                    &&& self.link.order_sensitive(x)
                    &&& self.link.wrap_eligible(x)
                } ==> set.contains(x),
            forall|p: ModuleIdx, c: ChunkIdx, d: ChunkIdx, k: int|
                #![trigger set.contains(p), self.cycles.joins(c, d), self.chunk_graph.chunk_table@[d as int].modules@[k]]
                {
                    &&& set.contains(p)
                    &&& self.chunk_graph.module_to_chunk@[p as int] == Some(c)
                    &&& self.cycles.scc_of_chunk@.contains_key(c)
                    &&& self.cycles.sccs@[self.cycles.scc_of_chunk@[c] as int]@.contains(d)
                    &&& d < self.chunk_graph.chunk_table@.len()
                    &&& 0 <= k < self.chunk_graph.chunk_table@[d as int].modules@.len()
                    &&& self.link.order_sensitive(
                        self.chunk_graph.chunk_table@[d as int].modules@[k],
                    )
                    &&& self.link.wrap_eligible(self.chunk_graph.chunk_table@[d as int].modules@[k])
                } ==> set.contains(self.chunk_graph.chunk_table@[d as int].modules@[k]),
            forall|root: int, x: ModuleIdx|
                #![trigger self.link.source_reaches(self.roots[root].root, x)]
                {
                    &&& 0 <= root < self.roots.len()
                    &&& self.link.source_reaches(self.roots[root].root, x)
                    &&& self.link.wrap_eligible(x)
                    &&& self.link.imports_member(x, set) || self.link.reads_member(x, set)
                } ==> set.contains(x),
        ensures
            self.plan().subset_of(set),
    {
        let rules = self.rules();
        assert forall|x: ModuleIdx| #[trigger] rules.forces(set, x) implies set.contains(x) by {
            if rules.suffix_forces(set, x) {
                let root = choose|k: int|
                    0 <= k < rules.roots.len() && wrap_plan::behind_planned(
                        self.link.sensitive_order((#[trigger] rules.roots[k]).1),
                        set,
                        x,
                    );
                self.lemma_suffix_step(set, root, x);
            } else if rules.cycle_forces(set, x) {
                let (p, d) = choose|p: ModuleIdx, d: ChunkIdx|
                    #![trigger set.contains(p), self.chunk_graph.hosts(d, x)]
                    set.contains(p) && self.chunk_graph.hosts(d, x) && self.chunk_graph.joined(
                        rules.same_cycle,
                        p,
                        d,
                    );
                let c = self.chunk_graph.chunk_of(p)->0;
                let k = self.chunk_graph.chunk_table@[d as int].modules@.index_of(x);
                assert(self.cycles.joins(c, d));
                assert(self.chunk_graph.chunk_table@[d as int].modules@[k] == x);
            } else {
                let root = choose|k: int|
                    0 <= k < rules.roots.len() && self.link.source_reaches(
                        (#[trigger] rules.roots[k]).0,
                        x,
                    );
                assert(self.link.source_reaches(self.roots[root].root, x));
            }
        }
        assert(rules.closed(set));
        assert(rules.covers(set, self.at_risk));
        rules.lemma_plan_is_least(self.at_risk, set);
    }

    proof fn lemma_suffix_step(self, set: Set<ModuleIdx>, root: int, x: ModuleIdx)
        requires
            0 <= root < self.roots.len(),
            self.link.wrap_eligible(x),
            wrap_plan::behind_planned(
                self.link.sensitive_order(self.rules().roots[root].1),
                set,
                x,
            ),
            forall|root: int, i: int, x: ModuleIdx|
                #![trigger self.roots[root].expected_order@[i], self.link.wrap_eligible(x)]
                {
                    &&& 0 <= root < self.roots.len()
                    &&& 0 <= i < self.roots[root].expected_order@.len()
                    &&& set.contains(self.roots[root].expected_order@[i])
                    &&& self.link.order_sensitive(self.roots[root].expected_order@[i])
                    &&& self.roots[root].expected_order@.contains(x)
                    &&& forall|k: int| 0 <= k < i ==> self.roots[root].expected_order@[k] != x
                    &&& self.link.order_sensitive(x)
                    &&& self.link.wrap_eligible(x)
                } ==> set.contains(x),
        ensures
            set.contains(x),
    {
        let order = self.roots[root].expected_order@;
        assert(self.rules().roots[root].1 == order);
        let kept = self.link.sensitive_order(order);
        let (i, j) = choose|i: int, j: int|
            #![trigger kept[i], kept[j]]
            0 <= i <= j < kept.len() && set.contains(kept[i]) && kept[j] == x;
        self.link.lemma_sensitive_order(order);
        assert(kept.contains(kept[i]) && kept.contains(kept[j]));
        if i < j {
            let a = seqs::lemma_occurs_first(
                order,
                |m: ModuleIdx| self.link.order_sensitive(m),
                i,
                j,
            );
            assert(self.roots[root].expected_order@[a] == kept[i]);
        }
    }
}

} // verus!
