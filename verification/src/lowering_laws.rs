//! Which imports between chunks a plan adds, read off the import records and the chunks.

use rustc_hash::FxHashSet;
use vstd::prelude::*;

use crate::chunk_cycles;
use crate::chunks::{ChunkGraph, ChunkIdx};
use crate::init_targets::Credit;
use crate::link::{
    ConcatenateWrappedModuleKind, ImportKind, ImportRecordIdx, LinkStageOutput, Module, ModuleIdx,
    Specifier, WrapKind,
};
use crate::wrap_state::OrderWrapper;

verus! {

/// A plan, and the chunks that it is carried out on.
pub struct Lowering {
    pub link: LinkStageOutput,
    pub chunk_graph: ChunkGraph,
    pub plan: Set<ModuleIdx>,
    pub baseline: Seq<FxHashSet<ChunkIdx>>,
}

impl Lowering {
    pub open spec fn wf(self) -> bool {
        &&& self.link.wf()
        &&& self.chunk_graph.wf(self.link.module_count())
    }

    /// These are the imports between chunks once the plan is carried out.
    pub open spec fn leads_to(self, edges: Seq<FxHashSet<ChunkIdx>>) -> bool {
        chunk_cycles::imports(edges) == self.link.lowered_edge(
            self.chunk_graph,
            self.plan,
            self.baseline,
        )
    }

    /// The module carries an `init_*` function: it is planned and can be wrapped, or interop wraps it
    /// as an ES module and has a symbol for the wrapper.
    pub open spec fn carries_init(self, m: ModuleIdx) -> bool {
        (self.plan.contains(m) && self.link.wrap_eligible(m)) || (
        self.link.metas@[m as int].wrap_kind == WrapKind::Esm
            && self.link.metas@[m as int].wrapper_ref is Some)
    }

    /// This `init_*` function can be called.
    pub open spec fn can_be_called(self, m: ModuleIdx) -> bool {
        &&& self.carries_init(m)
        &&& self.link.metas@[m as int].is_included
        &&& self.link.metas@[m as int].concatenated_wrapped_module_kind
            != ConcatenateWrappedModuleKind::Inner
    }

    /// What the record of the module calls from its chunk.
    pub open spec fn called(self, m: ModuleIdx, c: ChunkIdx, rec: ImportRecordIdx) -> Seq<
        ModuleIdx,
    > {
        self.link.probe_targets(self.chunk_graph, self.plan, m, c, rec)
    }

    proof fn lemma_world(self, c: ChunkIdx, m: ModuleIdx)
        requires
            self.wf(),
            m < self.link.module_table.modules@.len(),
        ensures
            self.link.probe_world(self.chunk_graph, self.plan, c).wf(),
            self.link.probe_world(self.chunk_graph, self.plan, c).callable[m as int]
                == self.can_be_called(m),
            self.link.probe_world(self.chunk_graph, self.plan, c).owns[m as int] <==> (
            self.chunk_graph.module_to_chunk@[m as int] == Some(c)),
            self.link.probe_world(self.chunk_graph, self.plan, c).state.order_wrappers[m as int] is Some
                <==> self.plan.contains(m) && self.link.wrap_eligible(m),
            self.link.probe_inits(self.plan, m) == self.carries_init(m),
    {
    }

    /// Each module that is planned and can be wrapped gets an order wrapper, in whose place the
    /// namespace object of the module stands, and that uses the runtime helper for ES modules. No
    /// other module gets one, and no re-export is walked through.
    pub proof fn law_planned_modules_get_wrappers(self, m: ModuleIdx)
        requires
            m < self.link.module_table.modules@.len(),
        ensures
            self.link.probe_wraps(self.plan).order_wrappers.len()
                == self.link.module_table.modules@.len(),
            self.plan.contains(m) && self.link.wrap_eligible(m) ==> self.link.probe_wraps(
                self.plan,
            ).order_wrappers[m as int] == Some(
                (OrderWrapper {
                    wrapper_ref: (self.link.module_table.modules@[m as int]->Normal_0).namespace_object_ref,
                    runtime_helper: self.link.runtime.esm_helper,
                }),
            ),
            !(self.plan.contains(m) && self.link.wrap_eligible(m)) ==> self.link.probe_wraps(
                self.plan,
            ).order_wrappers[m as int] is None,
            self.link.probe_wraps(self.plan).nested_reexport_records == Set::<
                (ModuleIdx, ImportRecordIdx),
            >::empty(),
    {
    }

    /// What a bundled module in chunk `c` calls for a static import of one of its statements makes
    /// its chunk import the chunks that are called into.
    proof fn lemma_calls_are_imported(
        self,
        edges: Seq<FxHashSet<ChunkIdx>>,
        m: ModuleIdx,
        c: ChunkIdx,
        s: int,
        r: int,
        k: int,
        d: ChunkIdx,
    )
        requires
            self.wf(),
            self.leads_to(edges),
            self.link.is_normal(m),
            self.chunk_graph.module_to_chunk@[m as int] == Some(c),
            self.carries_init(m),
            0 <= s < self.link.stmts(m).len(),
            0 <= r < self.link.stmts(m)[s].import_records@.len(),
            self.link.forwards(m, s, self.link.stmts(m)[s].import_records@[r]),
            0 <= k < self.called(m, c, self.link.stmts(m)[s].import_records@[r]).len(),
            ({
                let t = self.called(m, c, self.link.stmts(m)[s].import_records@[r])[k];
                &&& self.chunk_graph.module_to_chunk@[t as int] == Some(d)
                &&& self.chunk_graph.module_in_live_chunk@[t as int]
            }),
            d != c,
        ensures
            c < edges.len(),
            edges[c as int]@.contains(d),
    {
        let rec = self.link.stmts(m)[s].import_records@[r];
        let targets = self.called(m, c, rec);
        self.lemma_world(c, m);
        assert(self.chunk_graph.lives_in(targets[k], c, d));
        assert(self.chunk_graph.some_lives_in(targets, c, d));
        assert(self.link.importer_needs(self.chunk_graph, self.plan, m, c, d));
        assert(self.link.is_normal(m));
        assert(self.link.lowering_adds(self.chunk_graph, self.plan, c, d));
        assert(self.link.lowered_edge(self.chunk_graph, self.plan, self.baseline)(c, d));
        assert(chunk_cycles::imports(edges)(c, d));
    }

    /// No import between chunks is lost.
    pub proof fn law_imports_stay(self, edges: Seq<FxHashSet<ChunkIdx>>, c: ChunkIdx, d: ChunkIdx)
        requires
            self.leads_to(edges),
            c < self.baseline.len(),
            self.baseline[c as int]@.contains(d),
        ensures
            c < edges.len(),
            edges[c as int]@.contains(d),
    {
        assert(chunk_cycles::imports(self.baseline)(c, d));
        assert(self.link.lowered_edge(self.chunk_graph, self.plan, self.baseline)(c, d));
        assert(chunk_cycles::imports(edges)(c, d));
    }

    /// A bundled module that carries an `init_*` function calls another live chunk for a static
    /// import of a statement that was kept: its chunk comes to import that one.
    pub proof fn law_kept_statements_add_imports(
        self,
        edges: Seq<FxHashSet<ChunkIdx>>,
        m: ModuleIdx,
        c: ChunkIdx,
        s: int,
        r: int,
        k: int,
        d: ChunkIdx,
    )
        requires
            self.wf(),
            self.leads_to(edges),
            m < self.link.module_table.modules@.len(),
            self.chunk_graph.module_to_chunk@[m as int] == Some(c),
            self.carries_init(m),
            0 <= s < self.link.stmt_infos@[m as int].infos@.len(),
            0 <= r < self.link.stmt_infos@[m as int].infos@[s].import_records@.len(),
            ({
                let rec = self.link.stmt_infos@[m as int].infos@[s].import_records@[r];
                &&& self.link.module_table.modules@[m as int] matches Module::Normal(module)
                    && module.import_records@[rec as int].kind == ImportKind::Import
                &&& self.link.metas@[m as int].stmt_info_included@[s]
                &&& 0 <= k < self.called(m, c, rec).len()
                &&& self.chunk_graph.module_to_chunk@[self.called(m, c, rec)[k] as int] == Some(d)
                &&& self.chunk_graph.module_in_live_chunk@[self.called(m, c, rec)[k] as int]
            }),
            d != c,
        ensures
            c < edges.len(),
            edges[c as int]@.contains(d),
    {
        assert(self.link.tables().module_wf(m));
        self.lemma_calls_are_imported(edges, m, c, s, r, k, d);
    }

    /// So it does for an `export *`, though the statement was dropped.
    pub proof fn law_export_stars_add_imports(
        self,
        edges: Seq<FxHashSet<ChunkIdx>>,
        m: ModuleIdx,
        c: ChunkIdx,
        s: int,
        r: int,
        k: int,
        d: ChunkIdx,
    )
        requires
            self.wf(),
            self.leads_to(edges),
            m < self.link.module_table.modules@.len(),
            self.chunk_graph.module_to_chunk@[m as int] == Some(c),
            self.carries_init(m),
            0 <= s < self.link.stmt_infos@[m as int].infos@.len(),
            0 <= r < self.link.stmt_infos@[m as int].infos@[s].import_records@.len(),
            ({
                let rec = self.link.stmt_infos@[m as int].infos@[s].import_records@[r];
                &&& self.link.module_table.modules@[m as int] matches Module::Normal(module) && {
                    &&& module.import_records@[rec as int].kind == ImportKind::Import
                    &&& module.import_records@[rec as int].meta.is_export_star
                }
                &&& 0 <= k < self.called(m, c, rec).len()
                &&& self.chunk_graph.module_to_chunk@[self.called(m, c, rec)[k] as int] == Some(d)
                &&& self.chunk_graph.module_in_live_chunk@[self.called(m, c, rec)[k] as int]
            }),
            d != c,
        ensures
            c < edges.len(),
            edges[c as int]@.contains(d),
    {
        self.lemma_calls_are_imported(edges, m, c, s, r, k, d);
    }

    /// And so it does for an import that only passes bindings on.
    pub proof fn law_re_exports_add_imports(
        self,
        edges: Seq<FxHashSet<ChunkIdx>>,
        m: ModuleIdx,
        c: ChunkIdx,
        s: int,
        r: int,
        k: int,
        d: ChunkIdx,
    )
        requires
            self.wf(),
            self.leads_to(edges),
            m < self.link.module_table.modules@.len(),
            self.chunk_graph.module_to_chunk@[m as int] == Some(c),
            self.carries_init(m),
            0 <= s < self.link.stmt_infos@[m as int].infos@.len(),
            0 <= r < self.link.stmt_infos@[m as int].infos@[s].import_records@.len(),
            ({
                let rec = self.link.stmt_infos@[m as int].infos@[s].import_records@[r];
                &&& self.link.module_table.modules@[m as int] matches Module::Normal(module) && {
                    &&& module.import_records@[rec as int].kind == ImportKind::Import
                    &&& module.import_records@[rec as int].meta.is_re_export_only
                }
                &&& 0 <= k < self.called(m, c, rec).len()
                &&& self.chunk_graph.module_to_chunk@[self.called(m, c, rec)[k] as int] == Some(d)
                &&& self.chunk_graph.module_in_live_chunk@[self.called(m, c, rec)[k] as int]
            }),
            d != c,
        ensures
            c < edges.len(),
            edges[c as int]@.contains(d),
    {
        self.lemma_calls_are_imported(edges, m, c, s, r, k, d);
    }

    /// Nothing else adds an import between chunks.
    pub proof fn law_nothing_else_adds_imports(
        self,
        edges: Seq<FxHashSet<ChunkIdx>>,
        c: ChunkIdx,
        d: ChunkIdx,
    ) -> (found: (ModuleIdx, int, int, int))
        requires
            self.wf(),
            self.leads_to(edges),
            c < edges.len(),
            edges[c as int]@.contains(d),
            !(c < self.baseline.len() && self.baseline[c as int]@.contains(d)),
        ensures
            d != c,
            found.0 < self.link.module_table.modules@.len(),
            self.chunk_graph.module_to_chunk@[found.0 as int] == Some(c),
            self.carries_init(found.0),
            0 <= found.1 < self.link.stmt_infos@[found.0 as int].infos@.len(),
            0 <= found.2
                < self.link.stmt_infos@[found.0 as int].infos@[found.1].import_records@.len(),
            ({
                let rec = self.link.stmt_infos@[found.0 as int].infos@[found.1].import_records@[found.2];
                &&& self.link.module_table.modules@[found.0 as int] matches Module::Normal(module)
                    && {
                    &&& module.import_records@[rec as int].kind == ImportKind::Import
                    &&& self.link.metas@[found.0 as int].stmt_info_included@[found.1]
                        || module.import_records@[rec as int].meta.is_export_star
                        || module.import_records@[rec as int].meta.is_re_export_only
                }
                &&& 0 <= found.3 < self.called(found.0, c, rec).len()
                &&& self.chunk_graph.module_to_chunk@[self.called(found.0, c, rec)[found.3] as int]
                    == Some(d)
                &&& self.chunk_graph.module_in_live_chunk@[self.called(
                    found.0,
                    c,
                    rec,
                )[found.3] as int]
            }),
    {
        assert(chunk_cycles::imports(edges)(c, d));
        assert(self.link.lowered_edge(self.chunk_graph, self.plan, self.baseline)(c, d));
        assert(self.link.lowering_adds(self.chunk_graph, self.plan, c, d));
        let m = choose|m: ModuleIdx| #[trigger]
            self.link.is_normal(m) && self.link.probe_inits(self.plan, m)
                && self.chunk_graph.chunk_of(m) == Some(c) && self.link.importer_needs(
                self.chunk_graph,
                self.plan,
                m,
                c,
                d,
            );
        let (s, r) = choose|s: int, r: int|
            #![trigger self.link.stmts(m)[s].import_records@[r]]
            {
                let rec = self.link.stmts(m)[s].import_records@[r];
                &&& 0 <= s < self.link.stmts(m).len()
                &&& 0 <= r < self.link.stmts(m)[s].import_records@.len()
                &&& self.link.forwards(m, s, rec)
                &&& self.chunk_graph.some_lives_in(
                    self.link.probe_targets(self.chunk_graph, self.plan, m, c, rec),
                    c,
                    d,
                )
            };
        let rec = self.link.stmts(m)[s].import_records@[r];
        let targets = self.called(m, c, rec);
        let k = choose|k: int|
            0 <= k < targets.len() && self.chunk_graph.lives_in(#[trigger] targets[k], c, d);
        self.lemma_world(c, m);
        (m, s, r, k)
    }

    /// An import of a module that can be called under the plan calls it, and nothing else.
    pub proof fn law_planned_importees_are_called(
        self,
        m: ModuleIdx,
        c: ChunkIdx,
        rec: ImportRecordIdx,
        importee: ModuleIdx,
    )
        requires
            self.wf(),
            self.link.module_table.modules@[m as int] matches Module::Normal(module)
                && module.import_records@[rec as int].resolved_module == Some(importee),
            importee < self.link.module_table.modules@.len(),
            self.can_be_called(importee),
        ensures
            self.called(m, c, rec) == seq![importee],
    {
        let world = self.link.probe_world(self.chunk_graph, self.plan, c);
        self.lemma_world(c, importee);
        world.law_callable_importees_are_called(
            self.link.normal(m),
            world.order_wrapped(m, self.link.meta(m)),
            rec,
            importee,
            Set::empty(),
            self.link.module_count(),
            Credit::Least,
        );
    }

    /// An import of a module that cannot be called under the plan, and that interop wraps, was
    /// dropped, or stands in another chunk, calls the owners of what the names that it takes stand
    /// for, as far as they can be called.
    pub proof fn law_owners_of_names_are_called(
        self,
        m: ModuleIdx,
        c: ChunkIdx,
        rec: ImportRecordIdx,
        importee: ModuleIdx,
        i: int,
        e: int,
    )
        requires
            self.wf(),
            m < self.link.module_table.modules@.len(),
            self.link.module_table.modules@[m as int] matches Module::Normal(module) && {
                &&& rec < module.import_records@.len()
                &&& module.import_records@[rec as int].resolved_module == Some(importee)
                &&& 0 <= i < module.named_imports@.len()
                &&& module.named_imports@[i].record_idx == rec
                &&& module.named_imports@[i].imported matches Specifier::Literal(name) && name@
                    == self.link.metas@[importee as int].resolved_exports@[e].name@
            },
            0 <= e < self.link.metas@[importee as int].resolved_exports@.len(),
            !self.can_be_called(importee),
            self.link.metas@[importee as int].wrap_kind != WrapKind::Unwrapped
                || !self.link.metas@[importee as int].is_included
                || self.chunk_graph.module_to_chunk@[importee as int] != Some(c),
            ({
                let s = self.link.metas@[importee as int].resolved_exports@[e].symbol_ref;
                self.can_be_called(
                    self.link.symbol_db.links@[s.owner as int]@[s.symbol as int].resolving_namespace.owner,
                )
            }),
        ensures
            ({
                let s = self.link.metas@[importee as int].resolved_exports@[e].symbol_ref;
                self.called(m, c, rec).contains(
                    self.link.symbol_db.links@[s.owner as int]@[s.symbol as int].resolving_namespace.owner,
                )
            }),
    {
        let world = self.link.probe_world(self.chunk_graph, self.plan, c);
        let s = self.link.metas@[importee as int].resolved_exports@[e].symbol_ref;
        let end = self.link.symbol_db.links@[s.owner as int]@[s.symbol as int].resolving_namespace;
        assert(self.link.tables().module_wf(m));
        assert(importee < self.link.module_count());
        assert(self.link.tables().module_wf(importee));
        assert(self.link.symbol_db.holds(s));
        assert(self.link.symbol_db.holds(self.link.symbol_db.link(s).resolving_namespace));
        self.lemma_world(c, importee);
        self.lemma_world(c, end.owner);
        world.law_imported_names_are_initialized(
            self.link.normal(m),
            world.order_wrapped(m, self.link.meta(m)),
            rec,
            importee,
            Set::empty(),
            self.link.module_count(),
            Credit::Least,
            i,
            e,
            seq![end],
            Seq::empty(),
        );
    }

    /// An import of a kept, unwrapped module in the same chunk that is not planned calls nothing, if
    /// no source statement of that module with a static import was dropped: it calls what is behind
    /// it itself.
    pub proof fn law_forwarders_in_the_chunk_call_themselves(
        self,
        m: ModuleIdx,
        c: ChunkIdx,
        rec: ImportRecordIdx,
        importee: ModuleIdx,
    )
        requires
            self.wf(),
            self.link.module_table.modules@[m as int] matches Module::Normal(module)
                && module.import_records@[rec as int].resolved_module == Some(importee),
            importee < self.link.module_table.modules@.len(),
            !self.plan.contains(importee),
            self.link.metas@[importee as int].wrap_kind == WrapKind::Unwrapped,
            self.link.metas@[importee as int].is_included,
            self.chunk_graph.module_to_chunk@[importee as int] == Some(c),
            self.link.module_table.modules@[importee as int] matches Module::Normal(module)
                ==> forall|s: int, r: int|
                #![trigger self.link.stmt_infos@[importee as int].infos@[s].import_records@[r]]
                {
                    &&& 1 <= s < self.link.stmt_infos@[importee as int].infos@.len()
                    &&& 0 <= r
                        < self.link.stmt_infos@[importee as int].infos@[s].import_records@.len()
                    &&& module.import_records@[self.link.stmt_infos@[importee as int].infos@[s].import_records@[r] as int].kind
                        == ImportKind::Import
                } ==> 0 <= s < self.link.metas@[importee as int].stmt_info_included@.len()
                    && self.link.metas@[importee as int].stmt_info_included@[s],
        ensures
            self.called(m, c, rec) == Seq::<ModuleIdx>::empty(),
    {
        let world = self.link.probe_world(self.chunk_graph, self.plan, c);
        self.lemma_world(c, importee);
        world.law_forwarders_are_left_everything(
            self.link.normal(m),
            world.order_wrapped(m, self.link.meta(m)),
            rec,
            importee,
            Set::empty(),
            self.link.module_count(),
            Credit::Least,
        );
    }

    /// Where a source statement of that module with a static import was dropped, this does not hold:
    /// the owner of what an imported name stands for is called, unless the module calls it itself.
    pub proof fn law_partly_dropped_forwarders_do_not_hide_names(
        self,
        m: ModuleIdx,
        c: ChunkIdx,
        rec: ImportRecordIdx,
        importee: ModuleIdx,
        i: int,
        e: int,
        s: int,
        r: int,
    )
        requires
            self.wf(),
            m < self.link.module_table.modules@.len(),
            self.link.module_table.modules@[m as int] matches Module::Normal(module) && {
                &&& rec < module.import_records@.len()
                &&& module.import_records@[rec as int].resolved_module == Some(importee)
                &&& 0 <= i < module.named_imports@.len()
                &&& module.named_imports@[i].record_idx == rec
                &&& module.named_imports@[i].imported matches Specifier::Literal(name) && name@
                    == self.link.metas@[importee as int].resolved_exports@[e].name@
            },
            0 <= e < self.link.metas@[importee as int].resolved_exports@.len(),
            !self.can_be_called(importee),
            self.link.module_table.modules@[importee as int] matches Module::Normal(module) && {
                &&& 1 <= s < self.link.stmt_infos@[importee as int].infos@.len()
                &&& 0 <= r
                    < self.link.stmt_infos@[importee as int].infos@[s].import_records@.len()
                &&& module.import_records@[self.link.stmt_infos@[importee as int].infos@[s].import_records@[r] as int].kind
                    == ImportKind::Import
                &&& !self.link.metas@[importee as int].stmt_info_included@[s]
            },
            ({
                let name = self.link.metas@[importee as int].resolved_exports@[e].symbol_ref;
                self.can_be_called(
                    self.link.symbol_db.links@[name.owner as int]@[name.symbol as int].resolving_namespace.owner,
                )
            }),
        ensures
            ({
                let name = self.link.metas@[importee as int].resolved_exports@[e].symbol_ref;
                let t = self.link.symbol_db.links@[name.owner as int]@[name.symbol as int].resolving_namespace.owner;
                self.called(m, c, rec).contains(t) || self.link.probe_world(
                    self.chunk_graph,
                    self.plan,
                    c,
                ).emits(importee, t)
            }),
    {
        let world = self.link.probe_world(self.chunk_graph, self.plan, c);
        let name = self.link.metas@[importee as int].resolved_exports@[e].symbol_ref;
        let end = self.link.symbol_db.links@[name.owner as int]@[name.symbol as int].resolving_namespace;
        let wrapped = world.order_wrapped(m, self.link.meta(m));
        assert(self.link.tables().module_wf(m));
        assert(importee < self.link.module_count());
        assert(self.link.tables().module_wf(importee));
        assert(self.link.symbol_db.holds(name));
        assert(self.link.symbol_db.holds(self.link.symbol_db.link(name).resolving_namespace));
        self.lemma_world(c, importee);
        self.lemma_world(c, end.owner);
        world.lemma_imported_names_are_wanted(self.link.normal(m), wrapped, rec, importee, i, e);
        world.law_forwarders_are_left_what_they_call(
            self.link.normal(m),
            wrapped,
            rec,
            importee,
            s,
            r,
            end.owner,
        );
    }
}

} // verus!
