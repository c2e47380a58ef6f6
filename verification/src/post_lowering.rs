//! The imports between chunks once a plan is carried out.

use rustc_hash::FxHashSet;
use vstd::prelude::*;

use crate::chunk_cycles;
use crate::chunks::{ChunkGraph, ChunkIdx};
use crate::fx;
use crate::indices;
use crate::init_questions::InitAnswers;
use crate::init_targets;
use crate::init_targets::{Credit, InitWorld, WrappedEsmInitTargetContext};
use crate::link::{
    ImportKind, ImportRecordIdx, LinkStageOutput, ModuleIdx, StmtInfo, SymbolRef,
};
use crate::plan::OrderWrapPlan;
use crate::reach;
use crate::stage::GenerateStage;
use crate::wrap_state::{OrderWrapState, OrderWrapper, OrderWraps};

verus! {

impl LinkStageOutput {
    /// The order wrapper that a plan gives `m`. The namespace symbol stands in for the symbol of
    /// the wrapper.
    pub open spec fn probe_wrapper(self, plan: Set<ModuleIdx>, m: ModuleIdx) -> Option<
        OrderWrapper,
    > {
        if plan.contains(m) && self.wrap_eligible(m) {
            Some(
                OrderWrapper {
                    wrapper_ref: self.normal(m).namespace_object_ref,
                    runtime_helper: self.runtime.esm_helper,
                },
            )
        } else {
            None
        }
    }

    /// The wrappers as the plan would have them.
    pub open spec fn probe_wraps(self, plan: Set<ModuleIdx>) -> OrderWraps {
        OrderWraps {
            order_wrappers: Seq::new(
                self.module_count(),
                |m: int| self.probe_wrapper(plan, m as usize),
            ),
            nested_reexport_records: Set::empty(),
        }
    }

    /// Under the plan, `m` carries an `init_*` function.
    pub open spec fn probe_inits(self, plan: Set<ModuleIdx>, m: ModuleIdx) -> bool {
        self.probe_wraps(plan).init_target(m, self.meta(m)) is Some
    }

    /// Under the plan, the `init_*` function of `m` can be called from where its wrapper is in
    /// reach.
    pub open spec fn probe_callable(self, plan: Set<ModuleIdx>) -> Seq<bool> {
        Seq::new(
            self.module_count(),
            |m: int|
                init_targets::init_callable(
                    m as usize,
                    self.meta(m as usize),
                    self.probe_wraps(plan),
                    true,
                ),
        )
    }

    /// What decides the `init_*` calls in chunk `c` under the plan. Every wrapper is in reach, and
    /// a forwarder in the same chunk owns what it forwards.
    pub open spec fn probe_world(
        self,
        chunk_graph: ChunkGraph,
        plan: Set<ModuleIdx>,
        c: ChunkIdx,
    ) -> InitWorld {
        InitWorld {
            tables: self.tables(),
            state: self.probe_wraps(plan),
            strict: true,
            callable: self.probe_callable(plan),
            owns: chunk_graph.hosted_in(c),
        }
    }

    /// The `init_*` functions that the record of `importer` calls from chunk `c` under the plan.
    pub open spec fn probe_targets(
        self,
        chunk_graph: ChunkGraph,
        plan: Set<ModuleIdx>,
        importer: ModuleIdx,
        c: ChunkIdx,
        rec: ImportRecordIdx,
    ) -> Seq<ModuleIdx> {
        let world = self.probe_world(chunk_graph, plan, c);
        world.record_targets(
            self.normal(importer),
            world.order_wrapped(importer, self.meta(importer)),
            rec,
            Set::empty(),
            self.module_count(),
            Credit::Least,
        )
    }

    /// The record of the statement is a static import that calls `init_*` functions: the statement
    /// was kept, or it only passes bindings on.
    pub open spec fn forwards(self, importer: ModuleIdx, stmt: int, rec: ImportRecordIdx) -> bool {
        let record = self.records(importer)[rec as int];
        &&& record.kind == ImportKind::Import
        &&& self.meta(importer).keeps_stmt(stmt) || record.meta.is_export_star
            || record.meta.is_re_export_only
    }

    /// Some statement of `importer`, in chunk `c`, calls the `init_*` function of a module in the
    /// emitted chunk `d`.
    pub open spec fn importer_needs(
        self,
        chunk_graph: ChunkGraph,
        plan: Set<ModuleIdx>,
        importer: ModuleIdx,
        c: ChunkIdx,
        d: ChunkIdx,
    ) -> bool {
        exists|s: int, r: int|
            #![trigger self.stmts(importer)[s].import_records@[r]]
            {
                let rec = self.stmts(importer)[s].import_records@[r];
                &&& 0 <= s < self.stmts(importer).len()
                &&& 0 <= r < self.stmts(importer)[s].import_records@.len()
                &&& self.forwards(importer, s, rec)
                &&& chunk_graph.some_lives_in(
                    self.probe_targets(chunk_graph, plan, importer, c, rec),
                    c,
                    d,
                )
            }
    }

    /// Carrying out the plan makes chunk `c` import chunk `d`.
    pub open spec fn lowering_adds(
        self,
        chunk_graph: ChunkGraph,
        plan: Set<ModuleIdx>,
        c: ChunkIdx,
        d: ChunkIdx,
    ) -> bool {
        exists|importer: ModuleIdx| #[trigger]
            self.is_normal(importer) && self.probe_inits(plan, importer) && chunk_graph.chunk_of(
                importer,
            ) == Some(c) && self.importer_needs(chunk_graph, plan, importer, c, d)
    }

    /// The imports between chunks once the plan is carried out.
    pub open spec fn lowered_edge(
        self,
        chunk_graph: ChunkGraph,
        plan: Set<ModuleIdx>,
        baseline: Seq<FxHashSet<ChunkIdx>>,
    ) -> spec_fn(ChunkIdx, ChunkIdx) -> bool {
        |c: ChunkIdx, d: ChunkIdx|
            chunk_cycles::imports(baseline)(c, d) || self.lowering_adds(chunk_graph, plan, c, d)
    }
}

impl LinkStageOutput {
    /// Carrying out a plan takes no import between chunks away, so a cycle stays a cycle.
    pub proof fn law_lowering_keeps_imports(
        self,
        chunk_graph: ChunkGraph,
        plan: Set<ModuleIdx>,
        baseline: Seq<FxHashSet<ChunkIdx>>,
        c: ChunkIdx,
    )
        ensures
            forall|d: ChunkIdx| #[trigger]
                chunk_cycles::imports(baseline)(c, d) ==> self.lowered_edge(
                    chunk_graph,
                    plan,
                    baseline,
                )(c, d),
            reach::on_cycle(chunk_cycles::imports(baseline), c) ==> reach::on_cycle(
                self.lowered_edge(chunk_graph, plan, baseline),
                c,
            ),
    {
        let edge = chunk_cycles::imports(baseline);
        let lowered = self.lowered_edge(chunk_graph, plan, baseline);
        if reach::on_cycle(edge, c) {
            let b = choose|b: ChunkIdx| edge(c, b) && #[trigger] reach::reaches(edge, b, c);
            reach::lemma_reaches_monotone(edge, lowered, b, c);
            assert(lowered(c, b));
        }
    }
}

impl LinkStageOutput {
    /// A chunk comes to import another that it did not import before exactly where a bundled module
    /// in it, which carries an `init_*` function under the plan, has a static import in a statement
    /// that was kept, or that only passes bindings on, for which it calls the `init_*` function of
    /// a module in the other chunk, which is emitted.
    pub proof fn law_lowering_adds_exactly_the_calls(
        self,
        chunk_graph: ChunkGraph,
        plan: Set<ModuleIdx>,
        baseline: Seq<FxHashSet<ChunkIdx>>,
        c: ChunkIdx,
        d: ChunkIdx,
    )
        requires
            c != d,
            !chunk_cycles::imports(baseline)(c, d),
        ensures
            self.lowered_edge(chunk_graph, plan, baseline)(c, d) <==> exists|
                m: ModuleIdx,
                s: int,
                r: int,
                t: ModuleIdx,
            |
                #![trigger self.stmts(m)[s].import_records@[r], chunk_graph.lives_in(t, c, d)]
                {
                    let rec = self.stmts(m)[s].import_records@[r];
                    &&& self.is_normal(m) && chunk_graph.chunk_of(m) == Some(c)
                    &&& self.probe_inits(plan, m)
                    &&& 0 <= s < self.stmts(m).len()
                    &&& 0 <= r < self.stmts(m)[s].import_records@.len()
                    &&& self.forwards(m, s, rec)
                    &&& self.probe_targets(chunk_graph, plan, m, c, rec).contains(t)
                    &&& chunk_graph.lives_in(t, c, d)
                },
    {
        if self.lowering_adds(chunk_graph, plan, c, d) {
            let m = choose|m: ModuleIdx| #[trigger]
                self.is_normal(m) && self.probe_inits(plan, m) && chunk_graph.chunk_of(m) == Some(c)
                    && self.importer_needs(chunk_graph, plan, m, c, d);
            let (s, r) = choose|s: int, r: int|
                #![trigger self.stmts(m)[s].import_records@[r]]
                {
                    let rec = self.stmts(m)[s].import_records@[r];
                    &&& 0 <= s < self.stmts(m).len()
                    &&& 0 <= r < self.stmts(m)[s].import_records@.len()
                    &&& self.forwards(m, s, rec)
                    &&& chunk_graph.some_lives_in(
                        self.probe_targets(chunk_graph, plan, m, c, rec),
                        c,
                        d,
                    )
                };
            let rec = self.stmts(m)[s].import_records@[r];
            let targets = self.probe_targets(chunk_graph, plan, m, c, rec);
            let k = choose|k: int|
                0 <= k < targets.len() && chunk_graph.lives_in(#[trigger] targets[k], c, d);
            assert(targets.contains(targets[k]) && chunk_graph.lives_in(targets[k], c, d));
        }
        if exists|m: ModuleIdx, s: int, r: int, t: ModuleIdx|
            #![trigger self.stmts(m)[s].import_records@[r], chunk_graph.lives_in(t, c, d)]
            {
                let rec = self.stmts(m)[s].import_records@[r];
                &&& self.is_normal(m) && chunk_graph.chunk_of(m) == Some(c)
                &&& self.probe_inits(plan, m)
                &&& 0 <= s < self.stmts(m).len()
                &&& 0 <= r < self.stmts(m)[s].import_records@.len()
                &&& self.forwards(m, s, rec)
                &&& self.probe_targets(chunk_graph, plan, m, c, rec).contains(t)
                &&& chunk_graph.lives_in(t, c, d)
            } {
            let (m, s, r, t) = choose|m: ModuleIdx, s: int, r: int, t: ModuleIdx|
                #![trigger self.stmts(m)[s].import_records@[r], chunk_graph.lives_in(t, c, d)]
                {
                    let rec = self.stmts(m)[s].import_records@[r];
                    &&& self.is_normal(m) && chunk_graph.chunk_of(m) == Some(c)
                    &&& self.probe_inits(plan, m)
                    &&& 0 <= s < self.stmts(m).len()
                    &&& 0 <= r < self.stmts(m)[s].import_records@.len()
                    &&& self.forwards(m, s, rec)
                    &&& self.probe_targets(chunk_graph, plan, m, c, rec).contains(t)
                    &&& chunk_graph.lives_in(t, c, d)
                };
            let rec = self.stmts(m)[s].import_records@[r];
            let targets = self.probe_targets(chunk_graph, plan, m, c, rec);
            assert(chunk_graph.lives_in(targets[targets.index_of(t)], c, d));
            assert(chunk_graph.some_lives_in(targets, c, d));
            assert(self.importer_needs(chunk_graph, plan, m, c, d));
        }
    }
}

impl ChunkGraph {
    /// The module lives in the emitted chunk `d`, which is not `c`.
    pub open spec fn lives_in(self, m: ModuleIdx, c: ChunkIdx, d: ChunkIdx) -> bool {
        self.chunk_of(m) == Some(d) && d != c && self.module_in_live_chunk@[m as int]
    }

    /// For each module, whether it lives in chunk `c`.
    pub open spec fn hosted_in(self, c: ChunkIdx) -> Seq<bool> {
        self.module_to_chunk@.map_values(|place: Option<ChunkIdx>| place == Some(c))
    }

    pub open spec fn some_lives_in(self, modules: Seq<ModuleIdx>, c: ChunkIdx, d: ChunkIdx) -> bool {
        exists|k: int| 0 <= k < modules.len() && self.lives_in(#[trigger] modules[k], c, d)
    }
}

impl<'a> WrappedEsmInitTargetContext<'a> {
    /// For each module, whether its `init_*` function can be called where every wrapper is in reach.
    pub open spec fn all_in_reach(self) -> Seq<bool> {
        Seq::new(
            self.tables().module_count(),
            |m: int|
                init_targets::init_callable(
                    m as usize,
                    self.tables().meta(m as usize),
                    self.order_wrap_state@,
                    true,
                ),
        )
    }
}

impl<'a> GenerateStage<'a> {
    /// The wrappers as the plan would have them. Only what is wrapped matters, so the namespace
    /// symbol of a module stands in for the symbol of its wrapper.
    pub fn probe_order_state(&self, plan: &OrderWrapPlan) -> (probe_state: OrderWrapState)
        requires
            self.link_output.wf(),
            plan@.subset_of(indices::below(self.link_output.module_count())),
        ensures
            probe_state@ == self.link_output.probe_wraps(plan@),
    {
        let link = self.link_output;
        let runtime_helper = link.runtime.esm_helper;
        let mut probe_state = OrderWrapState::with_module_count(link.module_table.modules.len());
        let planned = plan.modules();
        let mut i: usize = 0;
        while i < planned.len()
            invariant
                link == self.link_output,
                link.wf(),
                runtime_helper == link.runtime.esm_helper,
                planned@.to_set() == plan@,
                plan@.subset_of(indices::below(link.module_count())),
                i <= planned@.len(),
                probe_state@.nested_reexport_records == Set::<(ModuleIdx, ImportRecordIdx)>::empty(),
                probe_state@.order_wrappers.len() == link.module_count(),
                forall|m: ModuleIdx|
                    m < link.module_count() ==> #[trigger] probe_state@.order_wrappers[m as int]
                        == if planned@.take(i as int).contains(m) {
                        link.probe_wrapper(plan@, m)
                    } else {
                        None
                    },
            decreases planned.len() - i,
        {
            let module_idx = planned[i];
            let ghost before = probe_state@;
            proof {
                assert(planned@.to_set().contains(module_idx));
                assert(planned@.take(i + 1) =~= planned@.take(i as int).push(module_idx));
                assert forall|m: ModuleIdx|
                    planned@.take(i + 1).contains(m) <==> #[trigger] planned@.take(
                        i as int,
                    ).contains(m) || m == module_idx by {
                    vstd::seq_lib::lemma_seq_contains_after_push(
                        planned@.take(i as int),
                        module_idx,
                        m,
                    );
                }
            }
            if self.is_order_wrap_eligible(module_idx) {
                if let Some(module) = link.module_table.modules[module_idx].as_normal() {
                    probe_state.insert_order_wrapper(
                        module_idx,
                        module.namespace_object_ref,
                        runtime_helper,
                    );
                }
            }
            assert forall|m: ModuleIdx|
                m < link.module_count() implies #[trigger] probe_state@.order_wrappers[m as int]
                == if planned@.take(i + 1).contains(m) {
                link.probe_wrapper(plan@, m)
            } else {
                None
            } by {
                assert(planned@.take(i + 1).contains(m) <==> planned@.take(i as int).contains(m)
                    || m == module_idx);
                assert(before.order_wrappers[m as int] == if planned@.take(i as int).contains(m) {
                    link.probe_wrapper(plan@, m)
                } else {
                    None
                });
            }
            i = i + 1;
        }
        proof {
            assert(planned@.take(i as int) =~= planned@);
            let wanted = link.probe_wraps(plan@);
            assert forall|m: int| 0 <= m < link.module_count() implies #[trigger] wanted.order_wrappers[m]
                == probe_state@.order_wrappers[m] by {
                assert(planned@.to_set().contains(m as usize) <==> planned@.contains(m as usize));
                assert(probe_state@.order_wrappers[(m as usize) as int] == if planned@.contains(
                    m as usize,
                ) {
                    link.probe_wrapper(plan@, m as usize)
                } else {
                    None
                });
            }
            assert(probe_state@.order_wrappers =~= wanted.order_wrappers);
        }
        probe_state
    }

    /// The `init_*` functions that the record calls from its chunk.
    fn record_targets(
        &self,
        ctx: &WrappedEsmInitTargetContext<'_>,
        rec_idx: ImportRecordIdx,
        chunk_graph: &ChunkGraph,
        importer_chunk: ChunkIdx,
    ) -> (targets: Vec<ModuleIdx>)
        requires
            ctx.wf(),
            rec_idx < ctx.importer.import_records@.len(),
            chunk_graph.wf(ctx.tables().module_count()),
        ensures
            targets@ == ctx.init_targets(
                rec_idx,
                ctx.all_in_reach(),
                chunk_graph.hosted_in(importer_chunk),
            ),
            forall|k: int|
                0 <= k < targets@.len() ==> (#[trigger] targets@[k]) < ctx.tables().module_count(),
    {
        let homes: &Vec<Option<ChunkIdx>> = &chunk_graph.module_to_chunk;
        let in_reach = |symbol_ref: SymbolRef| -> (answer: bool)
            ensures
                answer,
            { true };
        let hosted_here = |m: ModuleIdx| -> (answer: bool)
            requires
                m < homes@.len(),
            ensures
                answer == (homes@[m as int] == Some(importer_chunk)),
            { homes[m] == Some(importer_chunk) };
        let ghost inquiry = ctx.inquiry(in_reach, hosted_here);
        let ghost n = ctx.tables().module_count();
        proof {
            assert forall|m: ModuleIdx| m < n implies #[trigger] hosted_here.requires((m,)) by {}
            ctx.lemma_takes_any_walk(in_reach, hosted_here, rec_idx);
        }
        let targets = init_targets::collect_wrapped_esm_init_targets_for_import_record(
            ctx,
            rec_idx,
            in_reach,
            hosted_here,
        );
        proof {
            let answers = choose|answers: InitAnswers|
                {
                    &&& #[trigger] inquiry.gave(answers)
                    &&& forall|callable: Seq<bool>, owns: Seq<bool>|
                        answers.agree(callable, owns, n) ==> targets@ == #[trigger] ctx.init_targets(
                            rec_idx,
                            callable,
                            owns,
                        )
                };
            let callable = ctx.all_in_reach();
            let owns = chunk_graph.hosted_in(importer_chunk);
            assert forall|m: ModuleIdx| #[trigger]
                answers.callable.contains_key(m) implies callable[m as int]
                == answers.callable[m] by {
                assert(inquiry.answers_callable(m, answers.callable[m]));
            }
            assert forall|m: ModuleIdx| #[trigger]
                answers.owns.contains_key(m) implies owns[m as int] == answers.owns[m] by {
                assert(hosted_here.ensures((m,), answers.owns[m]));
            }
            assert(answers.agree(callable, owns, n));
        }
        targets
    }

    /// Adds the chunks that the `init_*` calls of one record make its chunk import.
    fn add_record_edges(
        &self,
        ctx: &WrappedEsmInitTargetContext<'_>,
        rec_idx: ImportRecordIdx,
        chunk_graph: &ChunkGraph,
        importer_chunk: ChunkIdx,
        edges: &mut FxHashSet<ChunkIdx>,
    )
        requires
            ctx.wf(),
            rec_idx < ctx.importer.import_records@.len(),
            chunk_graph.wf(ctx.tables().module_count()),
        ensures
            forall|d: ChunkIdx| #[trigger]
                final(edges)@.contains(d) <==> old(edges)@.contains(d) || chunk_graph.some_lives_in(
                    ctx.init_targets(
                        rec_idx,
                        ctx.all_in_reach(),
                        chunk_graph.hosted_in(importer_chunk),
                    ),
                    importer_chunk,
                    d,
                ),
    {
        let targets = self.record_targets(ctx, rec_idx, chunk_graph, importer_chunk);
        let mut k: usize = 0;
        while k < targets.len()
            invariant
                chunk_graph.wf(ctx.tables().module_count()),
                forall|j: int|
                    0 <= j < targets@.len() ==> (#[trigger] targets@[j])
                        < ctx.tables().module_count(),
                k <= targets@.len(),
                forall|d: ChunkIdx| #[trigger]
                    edges@.contains(d) <==> old(edges)@.contains(d) || exists|j: int|
                        0 <= j < k && chunk_graph.lives_in(
                            #[trigger] targets@[j],
                            importer_chunk,
                            d,
                        ),
            decreases targets.len() - k,
        {
            let target_idx = targets[k];
            let ghost before = edges@;
            if let Some(target_chunk) = chunk_graph.module_to_chunk[target_idx] {
                if target_chunk != importer_chunk && chunk_graph.module_is_in_live_chunk(
                    target_idx,
                ) {
                    fx::set_insert(edges, target_chunk);
                }
            }
            assert forall|d: ChunkIdx| #[trigger]
                edges@.contains(d) <==> old(edges)@.contains(d) || exists|j: int|
                    0 <= j < k + 1 && chunk_graph.lives_in(
                        #[trigger] targets@[j],
                        importer_chunk,
                        d,
                    ) by {
                if before.contains(d) && !old(edges)@.contains(d) {
                    let j = choose|j: int|
                        0 <= j < k && chunk_graph.lives_in(
                            #[trigger] targets@[j],
                            importer_chunk,
                            d,
                        );
                    assert(j < k + 1);
                }
                if edges@.contains(d) && !before.contains(d) {
                    assert(chunk_graph.lives_in(targets@[k as int], importer_chunk, d));
                }
            }
            k = k + 1;
        }
    }

    /// Adds the chunks that the `init_*` calls of one importer make its chunk import.
    #[verifier::rlimit(40)]
    fn add_importer_edges(
        &self,
        importer_idx: ModuleIdx,
        importer_chunk: ChunkIdx,
        chunk_graph: &ChunkGraph,
        probe_state: &OrderWrapState,
        edges: &mut FxHashSet<ChunkIdx>,
        Ghost(plan): Ghost<Set<ModuleIdx>>,
    )
        requires
            self.link_output.wf(),
            chunk_graph.wf(self.link_output.module_count()),
            self.link_output.is_normal(importer_idx),
            probe_state@ == self.link_output.probe_wraps(plan),
        ensures
            forall|d: ChunkIdx| #[trigger]
                final(edges)@.contains(d) <==> old(edges)@.contains(d)
                    || self.link_output.importer_needs(
                    *chunk_graph,
                    plan,
                    importer_idx,
                    importer_chunk,
                    d,
                ),
    {
        let link = self.link_output;
        let module = match link.module_table.modules[importer_idx].as_normal() {
            Some(module) => module,
            None => return,
        };
        let meta = &link.metas[importer_idx];
        let ctx = WrappedEsmInitTargetContext {
            importer: module,
            importer_meta: meta,
            modules: &link.module_table.modules,
            metas: &link.metas,
            stmt_infos: &link.stmt_infos,
            symbol_db: &link.symbol_db,
            order_wrap_state: probe_state,
            strict_execution_order: true,
        };
        let ghost callable = ctx.all_in_reach();
        let ghost owns = chunk_graph.hosted_in(importer_chunk);
        proof {
            assert(link.tables().module_wf(importer_idx));
            let world = link.probe_world(*chunk_graph, plan, importer_chunk);
            assert(callable =~= world.callable);
            assert(ctx.world(callable, owns) == world);
            assert forall|rec: ImportRecordIdx| #[trigger]
                ctx.init_targets(rec, callable, owns) == link.probe_targets(
                    *chunk_graph,
                    plan,
                    importer_idx,
                    importer_chunk,
                    rec,
                ) by {}
        }
        let stmts: &Vec<StmtInfo> = &link.stmt_infos[importer_idx].infos;
        let mut s: usize = 0;
        while s < stmts.len()
            invariant
                link == self.link_output,
                link.wf(),
                chunk_graph.wf(link.module_count()),
                link.is_normal(importer_idx),
                link.tables().module_wf(importer_idx),
                *module == link.normal(importer_idx),
                *meta == link.meta(importer_idx),
                stmts@ == link.stmts(importer_idx),
                ctx.wf(),
                ctx.tables() == link.tables(),
                ctx.importer == module,
                callable == ctx.all_in_reach(),
                owns == chunk_graph.hosted_in(importer_chunk),
                forall|rec: ImportRecordIdx| #[trigger]
                    ctx.init_targets(rec, callable, owns) == link.probe_targets(
                        *chunk_graph,
                        plan,
                        importer_idx,
                        importer_chunk,
                        rec,
                    ),
                s <= stmts@.len(),
                forall|d: ChunkIdx| #[trigger]
                    edges@.contains(d) <==> old(edges)@.contains(d) || exists|p: int, q: int|
                        #![trigger stmts@[p].import_records@[q]]
                        0 <= p < s && 0 <= q < stmts@[p].import_records@.len() && link.record_needs(
                            *chunk_graph,
                            plan,
                            importer_idx,
                            p,
                            stmts@[p].import_records@[q],
                            importer_chunk,
                            d,
                        ),
            decreases stmts.len() - s,
        {
            let stmt_is_included: bool = meta.stmt_info_included[s];
            let records: &Vec<ImportRecordIdx> = &stmts[s].import_records;
            let ghost outer = edges@;
            let mut r: usize = 0;
            while r < records.len()
                invariant
                    link == self.link_output,
                    link.wf(),
                    chunk_graph.wf(link.module_count()),
                    link.is_normal(importer_idx),
                    link.tables().module_wf(importer_idx),
                    *module == link.normal(importer_idx),
                    stmts@ == link.stmts(importer_idx),
                    s < stmts@.len(),
                    stmt_is_included == link.meta(importer_idx).keeps_stmt(s as int),
                    records@ == stmts@[s as int].import_records@,
                    ctx.wf(),
                    ctx.tables() == link.tables(),
                    ctx.importer == module,
                    callable == ctx.all_in_reach(),
                    owns == chunk_graph.hosted_in(importer_chunk),
                    forall|rec: ImportRecordIdx| #[trigger]
                        ctx.init_targets(rec, callable, owns) == link.probe_targets(
                            *chunk_graph,
                            plan,
                            importer_idx,
                            importer_chunk,
                            rec,
                        ),
                    r <= records@.len(),
                    forall|d: ChunkIdx| #[trigger]
                        edges@.contains(d) <==> outer.contains(d) || exists|q: int|
                            0 <= q < r && link.record_needs(
                                *chunk_graph,
                                plan,
                                importer_idx,
                                s as int,
                                #[trigger] records@[q],
                                importer_chunk,
                                d,
                            ),
                decreases records.len() - r,
            {
                let rec_idx = records[r];
                let ghost before = edges@;
                assert(stmts@[s as int].import_records@[r as int] < module.import_records@.len());
                let record = &module.import_records[rec_idx];
                let forwards: bool = record.kind == ImportKind::Import && (stmt_is_included
                    || record.meta.is_export_star || record.meta.is_re_export_only);
                assert(forwards == link.forwards(importer_idx, s as int, rec_idx));
                if forwards {
                    self.add_record_edges(
                        &ctx,
                        rec_idx,
                        chunk_graph,
                        importer_chunk,
                        edges,
                    );
                }
                assert forall|d: ChunkIdx| #[trigger]
                    edges@.contains(d) <==> outer.contains(d) || exists|q: int|
                        0 <= q < r + 1 && link.record_needs(
                            *chunk_graph,
                            plan,
                            importer_idx,
                            s as int,
                            #[trigger] records@[q],
                            importer_chunk,
                            d,
                        ) by {
                    assert(edges@.contains(d) <==> before.contains(d) || link.record_needs(
                        *chunk_graph,
                        plan,
                        importer_idx,
                        s as int,
                        records@[r as int],
                        importer_chunk,
                        d,
                    ));
                    if before.contains(d) && !outer.contains(d) {
                        let q = choose|q: int|
                            0 <= q < r && link.record_needs(
                                *chunk_graph,
                                plan,
                                importer_idx,
                                s as int,
                                #[trigger] records@[q],
                                importer_chunk,
                                d,
                            );
                        assert(q < r + 1);
                    }
                }
                r = r + 1;
            }
            proof {
                assert forall|d: ChunkIdx| #[trigger]
                    edges@.contains(d) <==> old(edges)@.contains(d) || exists|p: int, q: int|
                        #![trigger stmts@[p].import_records@[q]]
                        0 <= p < s + 1 && 0 <= q < stmts@[p].import_records@.len()
                            && link.record_needs(
                            *chunk_graph,
                            plan,
                            importer_idx,
                            p,
                            stmts@[p].import_records@[q],
                            importer_chunk,
                            d,
                        ) by {
                    if outer.contains(d) && !old(edges)@.contains(d) {
                        let (p, q) = choose|p: int, q: int|
                            #![trigger stmts@[p].import_records@[q]]
                            0 <= p < s && 0 <= q < stmts@[p].import_records@.len()
                                && link.record_needs(
                                *chunk_graph,
                                plan,
                                importer_idx,
                                p,
                                stmts@[p].import_records@[q],
                                importer_chunk,
                                d,
                            );
                        assert(p < s + 1 && 0 <= q < stmts@[p].import_records@.len());
                    }
                    if edges@.contains(d) && !outer.contains(d) {
                        let q = choose|q: int|
                            0 <= q < records@.len() && link.record_needs(
                                *chunk_graph,
                                plan,
                                importer_idx,
                                s as int,
                                #[trigger] records@[q],
                                importer_chunk,
                                d,
                            );
                        assert(stmts@[s as int].import_records@[q] == records@[q]);
                    }
                    if exists|p: int, q: int|
                        #![trigger stmts@[p].import_records@[q]]
                        0 <= p < s + 1 && 0 <= q < stmts@[p].import_records@.len()
                            && link.record_needs(
                            *chunk_graph,
                            plan,
                            importer_idx,
                            p,
                            stmts@[p].import_records@[q],
                            importer_chunk,
                            d,
                        ) {
                        let (p, q) = choose|p: int, q: int|
                            #![trigger stmts@[p].import_records@[q]]
                            0 <= p < s + 1 && 0 <= q < stmts@[p].import_records@.len()
                                && link.record_needs(
                                *chunk_graph,
                                plan,
                                importer_idx,
                                p,
                                stmts@[p].import_records@[q],
                                importer_chunk,
                                d,
                            );
                        if p == s {
                            assert(records@[q] == stmts@[p].import_records@[q]);
                        }
                    }
                }
            }
            s = s + 1;
        }
    }

    /// The imports between chunks once the plan is carried out: the `baseline`, and one import for
    /// each `init_*` call from one chunk into another. A module that carries an `init_*` function
    /// calls those of the modules that its static imports lead to, also where the import itself was
    /// dropped because it only passed bindings on.
    pub fn post_lowering_import_edges(
        &self,
        chunk_graph: &ChunkGraph,
        plan: &OrderWrapPlan,
        baseline: &Vec<FxHashSet<ChunkIdx>>,
    ) -> (edges: Vec<FxHashSet<ChunkIdx>>)
        requires
            self.link_output.wf(),
            chunk_graph.wf(self.link_output.module_count()),
            plan@.subset_of(indices::below(self.link_output.module_count())),
            baseline@.len() == chunk_graph.chunk_table@.len(),
            chunk_cycles::imports_wf(baseline@),
        ensures
            edges@.len() == baseline@.len(),
            chunk_cycles::imports(edges@) == self.link_output.lowered_edge(
                *chunk_graph,
                plan@,
                baseline@,
            ),
            chunk_cycles::imports_wf(edges@),
    {
        let link = self.link_output;
        let mut edges = copy_edges(baseline);
        let probe_state = self.probe_order_state(plan);
        let mut importer_idx: usize = 0;
        while importer_idx < link.module_table.modules.len()
            invariant
                link == self.link_output,
                link.wf(),
                chunk_graph.wf(link.module_count()),
                baseline@.len() == chunk_graph.chunk_table@.len(),
                probe_state@ == link.probe_wraps(plan@),
                importer_idx <= link.module_count(),
                edges@.len() == baseline@.len(),
                forall|c: ChunkIdx, d: ChunkIdx|
                    c < edges@.len() ==> (#[trigger] edges@[c as int]@.contains(d)
                        <==> baseline@[c as int]@.contains(d) || link.earlier_adds(
                        *chunk_graph,
                        plan@,
                        importer_idx,
                        c,
                        d,
                    )),
            decreases link.module_table.modules.len() - importer_idx,
        {
            let ghost before = edges@;
            let meta = &link.metas[importer_idx];
            if link.module_table.modules[importer_idx].is_normal() && probe_state.esm_init_target(
                importer_idx,
                meta,
            ).is_some() {
                if let Some(importer_chunk) = chunk_graph.module_to_chunk[importer_idx] {
                    self.add_importer_edges(
                        importer_idx,
                        importer_chunk,
                        chunk_graph,
                        &probe_state,
                        &mut edges[importer_chunk],
                        Ghost(plan@),
                    );
                }
            }
            assert forall|c: ChunkIdx, d: ChunkIdx| c < edges@.len() implies (
            #[trigger] edges@[c as int]@.contains(d) <==> baseline@[c as int]@.contains(d)
                || link.earlier_adds(
                *chunk_graph,
                plan@,
                (importer_idx + 1) as usize,
                c,
                d,
            )) by {
                assert(before[c as int]@.contains(d) <==> baseline@[c as int]@.contains(d)
                    || link.earlier_adds(*chunk_graph, plan@, importer_idx, c, d));
                link.lemma_earlier_adds_step(*chunk_graph, plan@, importer_idx, c, d);
            }
            importer_idx = importer_idx + 1;
        }
        proof {
            let edge = chunk_cycles::imports(edges@);
            let lowered = link.lowered_edge(*chunk_graph, plan@, baseline@);
            assert forall|c: ChunkIdx, d: ChunkIdx| edge(c, d) == #[trigger] lowered(c, d) by {
                link.lemma_all_added(*chunk_graph, plan@, importer_idx, c, d);
                if c < edges@.len() {
                    assert(edges@[c as int]@.contains(d) <==> baseline@[c as int]@.contains(d)
                        || link.earlier_adds(*chunk_graph, plan@, importer_idx, c, d));
                }
            }
            assert(edge =~= lowered);
            assert forall|c: ChunkIdx, d: ChunkIdx| #[trigger] edge(c, d) implies d
                < edges@.len() by {
                assert(lowered(c, d));
                if !chunk_cycles::imports(baseline@)(c, d) {
                    link.lemma_added_in_table(*chunk_graph, plan@, c, d);
                }
            }
        }
        edges
    }
}

/// The same sets again.
fn copy_edges(edges: &Vec<FxHashSet<ChunkIdx>>) -> (copy: Vec<FxHashSet<ChunkIdx>>)
    ensures
        copy@.len() == edges@.len(),
        forall|c: int| 0 <= c < copy@.len() ==> (#[trigger] copy@[c])@ == edges@[c]@,
{
    let mut copy: Vec<FxHashSet<ChunkIdx>> = Vec::new();
    let mut c: usize = 0;
    while c < edges.len()
        invariant
            c <= edges@.len(),
            copy@.len() == c,
            forall|d: int| 0 <= d < copy@.len() ==> (#[trigger] copy@[d])@ == edges@[d]@,
        decreases edges.len() - c,
    {
        copy.push(fx::set_clone(&edges[c]));
        c = c + 1;
    }
    copy
}

impl LinkStageOutput {
    /// The record makes chunk `c` import chunk `d`.
    spec fn record_needs(
        self,
        chunk_graph: ChunkGraph,
        plan: Set<ModuleIdx>,
        importer: ModuleIdx,
        stmt: int,
        rec: ImportRecordIdx,
        c: ChunkIdx,
        d: ChunkIdx,
    ) -> bool {
        self.forwards(importer, stmt, rec) && chunk_graph.some_lives_in(
            self.probe_targets(chunk_graph, plan, importer, c, rec),
            c,
            d,
        )
    }

    /// One of the first `count` modules makes chunk `c` import chunk `d`.
    spec fn earlier_adds(
        self,
        chunk_graph: ChunkGraph,
        plan: Set<ModuleIdx>,
        count: usize,
        c: ChunkIdx,
        d: ChunkIdx,
    ) -> bool {
        exists|importer: ModuleIdx|
            importer < count && #[trigger] self.is_normal(importer) && self.probe_inits(
                plan,
                importer,
            ) && chunk_graph.chunk_of(importer) == Some(c) && self.importer_needs(
                chunk_graph,
                plan,
                importer,
                c,
                d,
            )
    }

    proof fn lemma_earlier_adds_step(
        self,
        chunk_graph: ChunkGraph,
        plan: Set<ModuleIdx>,
        count: usize,
        c: ChunkIdx,
        d: ChunkIdx,
    )
        requires
            count < self.module_count() <= usize::MAX,
        ensures
            self.earlier_adds(chunk_graph, plan, (count + 1) as usize, c, d) <==> self.earlier_adds(
                chunk_graph,
                plan,
                count,
                c,
                d,
            ) || (self.is_normal(count) && self.probe_inits(plan, count) && chunk_graph.chunk_of(
                count,
            ) == Some(c) && self.importer_needs(chunk_graph, plan, count, c, d)),
    {
        let next = (count + 1) as usize;
        if self.earlier_adds(chunk_graph, plan, count, c, d) {
            let importer = choose|importer: ModuleIdx|
                importer < count && #[trigger] self.is_normal(importer) && self.probe_inits(
                    plan,
                    importer,
                ) && chunk_graph.chunk_of(importer) == Some(c) && self.importer_needs(
                    chunk_graph,
                    plan,
                    importer,
                    c,
                    d,
                );
            assert(importer < next && self.is_normal(importer));
        }
    }

    proof fn lemma_all_added(
        self,
        chunk_graph: ChunkGraph,
        plan: Set<ModuleIdx>,
        count: usize,
        c: ChunkIdx,
        d: ChunkIdx,
    )
        requires
            count == self.module_count(),
            chunk_graph.wf(self.module_count()),
        ensures
            self.earlier_adds(chunk_graph, plan, count, c, d) <==> self.lowering_adds(
                chunk_graph,
                plan,
                c,
                d,
            ),
            self.lowering_adds(chunk_graph, plan, c, d) ==> c < chunk_graph.chunk_table@.len(),
    {
        if self.lowering_adds(chunk_graph, plan, c, d) {
            let importer = choose|importer: ModuleIdx| #[trigger]
                self.is_normal(importer) && self.probe_inits(plan, importer)
                    && chunk_graph.chunk_of(importer) == Some(c) && self.importer_needs(
                    chunk_graph,
                    plan,
                    importer,
                    c,
                    d,
                );
            assert(importer < count && self.is_normal(importer));
            assert(chunk_graph.module_to_chunk@[importer as int] == Some(c));
        }
    }

    /// The chunks that carrying out a plan makes others import are in the chunk table.
    proof fn lemma_added_in_table(
        self,
        chunk_graph: ChunkGraph,
        plan: Set<ModuleIdx>,
        c: ChunkIdx,
        d: ChunkIdx,
    )
        requires
            self.wf(),
            chunk_graph.wf(self.module_count()),
            self.lowering_adds(chunk_graph, plan, c, d),
        ensures
            d < chunk_graph.chunk_table@.len(),
    {
        let importer = choose|importer: ModuleIdx| #[trigger]
            self.is_normal(importer) && self.probe_inits(plan, importer) && chunk_graph.chunk_of(
                importer,
            ) == Some(c) && self.importer_needs(chunk_graph, plan, importer, c, d);
        assert(self.tables().module_wf(importer));
        let (s, r) = choose|s: int, r: int|
            #![trigger self.stmts(importer)[s].import_records@[r]]
            {
                let rec = self.stmts(importer)[s].import_records@[r];
                &&& 0 <= s < self.stmts(importer).len()
                &&& 0 <= r < self.stmts(importer)[s].import_records@.len()
                &&& self.forwards(importer, s, rec)
                &&& chunk_graph.some_lives_in(
                    self.probe_targets(chunk_graph, plan, importer, c, rec),
                    c,
                    d,
                )
            };
        let rec = self.stmts(importer)[s].import_records@[r];
        let targets = self.probe_targets(chunk_graph, plan, importer, c, rec);
        let k = choose|k: int|
            0 <= k < targets.len() && chunk_graph.lives_in(#[trigger] targets[k], c, d);
        assert(targets.contains(targets[k]));
        let world = self.probe_world(chunk_graph, plan, c);
        world.law_targets_are_callable(
            self.normal(importer),
            world.order_wrapped(importer, self.meta(importer)),
            rec,
            Set::empty(),
            self.module_count(),
            Credit::Least,
            targets[k],
        );
        assert(chunk_graph.module_to_chunk@[targets[k] as int] == Some(d));
    }
}

} // verus!
