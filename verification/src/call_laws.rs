//! Which `init_*` functions a static import calls, read off the named imports, the exports and the
//! symbols.

use vstd::prelude::*;

use crate::init_laws;
use crate::init_targets;
use crate::init_targets::{Credit, InitWorld, WrappedEsmInitTargetContext};
use crate::link::{
    ConcatenateWrappedModuleKind, ImportKind, ImportRecordIdx, LinkingMetadata, Module, ModuleIdx,
    NamedImport, NormalModule, ResolvedExport, Specifier, SymbolRef, WrapKind,
};
use crate::reach;
use crate::seqs;
use crate::wrap_state::{EsmInitOrigin, EsmInitTarget, OrderWraps};

verus! {

impl OrderWraps {
    /// A module carries the `init_*` function of its order wrapper if it has one, and else that of
    /// its interop wrapper if interop wrapped it as an ES module and gave it a symbol.
    pub proof fn law_who_carries_init(self, m: ModuleIdx, meta: LinkingMetadata)
        ensures
            m < self.order_wrappers.len() && self.order_wrappers[m as int] is Some
                ==> self.init_target(m, meta) == Some(
                (EsmInitTarget {
                    wrapper_ref: self.order_wrappers[m as int]->0.wrapper_ref,
                    origin: EsmInitOrigin::ExecutionOrder,
                }),
            ),
            !(m < self.order_wrappers.len() && self.order_wrappers[m as int] is Some)
                && meta.wrap_kind == WrapKind::Esm && meta.wrapper_ref is Some
                ==> self.init_target(m, meta) == Some(
                (EsmInitTarget {
                    wrapper_ref: meta.wrapper_ref->0,
                    origin: EsmInitOrigin::Interop,
                }),
            ),
            !(m < self.order_wrappers.len() && self.order_wrappers[m as int] is Some) && (
            meta.wrap_kind != WrapKind::Esm || meta.wrapper_ref is None) ==> self.init_target(
                m,
                meta,
            ) is None,
            self.order_wrapped(m, meta) <==> m < self.order_wrappers.len()
                && self.order_wrappers[m as int] is Some,
    {
    }

    /// An `init_*` function can be called exactly if its wrapper is in reach, its module was kept,
    /// and the module does not share the wrapper of another one.
    pub proof fn law_who_can_be_called(self, m: ModuleIdx, meta: LinkingMetadata, in_reach: bool)
        ensures
            init_targets::init_callable(m, meta, self, in_reach) <==> {
                &&& (m < self.order_wrappers.len() && self.order_wrappers[m as int] is Some) || (
                meta.wrap_kind == WrapKind::Esm && meta.wrapper_ref is Some)
                &&& in_reach
                &&& meta.is_included
                &&& meta.concatenated_wrapped_module_kind != ConcatenateWrappedModuleKind::Inner
            },
    {
    }
}

/// Whether a module can be called is asked of the wrapper that it carries: where the answers about
/// that are all `in_reach`, it can be exactly if it carries one, the wrapper is in reach, the module
/// was kept, and it does not share the wrapper of another one.
pub proof fn law_reach_is_asked_of_the_carried_wrapper<F: Fn(SymbolRef) -> bool>(
    state: OrderWraps,
    m: ModuleIdx,
    meta: LinkingMetadata,
    wrapper_is_reachable: F,
    in_reach: bool,
    answer: bool,
)
    requires
        init_targets::answers_callable_for(m, meta, state, wrapper_is_reachable, answer),
        m < state.order_wrappers.len() && state.order_wrappers[m as int] is Some ==> forall|r: bool|
            wrapper_is_reachable.ensures((state.order_wrappers[m as int]->0.wrapper_ref,), r)
                ==> r == in_reach,
        !(m < state.order_wrappers.len() && state.order_wrappers[m as int] is Some)
            && meta.wrapper_ref is Some ==> forall|r: bool|
            wrapper_is_reachable.ensures((meta.wrapper_ref->0,), r) ==> r == in_reach,
    ensures
        answer <==> {
            &&& (m < state.order_wrappers.len() && state.order_wrappers[m as int] is Some) || (
            meta.wrap_kind == WrapKind::Esm && meta.wrapper_ref is Some)
            &&& in_reach
            &&& meta.is_included
            &&& meta.concatenated_wrapped_module_kind != ConcatenateWrappedModuleKind::Inner
        },
{
}

impl InitWorld {
    /// What an import of the module needs is found behind it: its `init_*` function cannot be
    /// called, and it is no kept, unwrapped module that owns the initialization of what it forwards.
    pub open spec fn looked_behind(self, m: ModuleIdx) -> bool {
        &&& m < self.tables.modules.len()
        &&& !self.callable[m as int]
        &&& {
            ||| m < self.state.order_wrappers.len() && self.state.order_wrappers[m as int] is Some
            ||| self.tables.metas[m as int].wrap_kind != WrapKind::Unwrapped
            ||| !self.tables.metas[m as int].is_included
            ||| !self.owns[m as int]
        }
    }

    /// The symbol is the namespace object of a bundled module that was dropped, and whose `init_*`
    /// function cannot be called. The other one is what the given export of that module stands for,
    /// seen through namespace objects.
    pub open spec fn opens(self, symbol: SymbolRef, export: int, other: SymbolRef) -> bool {
        let m = symbol.owner;
        let exported = self.tables.metas[m as int].resolved_exports@[export].symbol_ref;
        &&& m < self.tables.modules.len()
        &&& self.tables.modules[m as int] matches Module::Normal(module)
            && module.namespace_object_ref == symbol
        &&& !self.tables.metas[m as int].is_included
        &&& !self.callable[m as int]
        &&& 0 <= export < self.tables.metas[m as int].resolved_exports@.len()
        &&& other
            == self.tables.symbol_db.links@[exported.owner as int]@[exported.symbol as int].resolving_namespace
    }

    /// Each symbol of the path opens up to the next one, by the export at the same position.
    pub open spec fn opened(self, path: Seq<SymbolRef>, exports: Seq<int>) -> bool {
        &&& path.len() == exports.len() + 1
        &&& forall|i: int|
            #![trigger exports[i]]
            0 <= i < exports.len() ==> self.opens(path[i], exports[i], path[i + 1])
    }

    spec fn export_between(
        self,
        through_namespaces: bool,
        a: (ModuleIdx, usize),
        b: (ModuleIdx, usize),
    ) -> int {
        (self.symbol_graph(through_namespaces).succ)(a).index_of(b)
    }

    proof fn lemma_opened_reaches(self, path: Seq<SymbolRef>, exports: Seq<int>)
        requires
            self.opened(path, exports),
        ensures
            reach::reaches(
                self.symbol_graph(true).edge(),
                init_targets::symbol_key(path[0]),
                init_targets::symbol_key(path.last()),
            ),
    {
        let edge = self.symbol_graph(true).edge();
        let keys = path.map_values(|s: SymbolRef| init_targets::symbol_key(s));
        assert forall|i: int, j: int| 0 <= i && j == i + 1 && j < keys.len() implies edge(
            #[trigger] keys[i],
            #[trigger] keys[j],
        ) by {
            assert(0 <= exports[i]);
            let m = path[i].owner;
            let next = (self.symbol_graph(true).succ)(keys[i]);
            assert(self.stands_for_exports(keys[i]));
            assert(next[exports[i]] == keys[j]);
            assert(next.contains(keys[j]));
        }
        assert(reach::is_path(edge, keys));
        assert(keys[0] == init_targets::symbol_key(path[0]));
        assert(keys.last() == init_targets::symbol_key(path.last()));
    }

    proof fn lemma_reaches_opened(
        self,
        through_namespaces: bool,
        a: (ModuleIdx, usize),
        b: (ModuleIdx, usize),
    ) -> (found: (Seq<SymbolRef>, Seq<int>))
        requires
            reach::reaches(self.symbol_graph(through_namespaces).edge(), a, b),
        ensures
            self.opened(found.0, found.1),
            found.0.len() == 1 || through_namespaces,
            init_targets::symbol_key(found.0[0]) == a,
            init_targets::symbol_key(found.0.last()) == b,
    {
        let edge = self.symbol_graph(through_namespaces).edge();
        let keys = choose|path: Seq<(ModuleIdx, usize)>|
            #[trigger] reach::is_path(edge, path) && path[0] == a && path.last() == b;
        let path = keys.map_values(
            |key: (ModuleIdx, usize)| SymbolRef { owner: key.0, symbol: key.1 },
        );
        let exports = Seq::new(
            (keys.len() - 1) as nat,
            |i: int| self.export_between(through_namespaces, keys[i], keys[i + 1]),
        );
        assert forall|i: int| #![trigger exports[i]] 0 <= i < exports.len() implies self.opens(
            path[i],
            exports[i],
            path[i + 1],
        ) && through_namespaces by {
            assert(edge(keys[i], keys[i + 1]));
            let next = (self.symbol_graph(through_namespaces).succ)(keys[i]);
            assert(next.contains(keys[i + 1]));
            assert(next[exports[i]] == keys[i + 1]);
        }
        if keys.len() > 1 {
            assert(0 <= exports[0]);
        }
        (path, exports)
    }

    /// A symbol leads to `t` if what it stands for is owned by `t`, or opens up to that, and `t` can
    /// be called.
    proof fn lemma_symbol_target(
        self,
        symbols: Seq<SymbolRef>,
        through_namespaces: bool,
        s: SymbolRef,
        path: Seq<SymbolRef>,
        exports: Seq<int>,
    )
        requires
            self.wf(),
            forall|i: int|
                0 <= i < symbols.len() ==> self.tables.symbol_db.holds(#[trigger] symbols[i]),
            symbols.contains(s),
            path[0]
                == self.tables.symbol_db.links@[s.owner as int]@[s.symbol as int].resolving_namespace,
            self.opened(path, exports),
            path.len() == 1 || through_namespaces,
            self.callable[path.last().owner as int],
        ensures
            self.symbol_targets(symbols, through_namespaces).contains(path.last().owner),
    {
        let graph = self.symbol_graph(through_namespaces);
        let keys = self.canonical_keys(symbols);
        let end = init_targets::symbol_key(path.last());
        self.lemma_keys_held(symbols, through_namespaces);
        if through_namespaces {
            self.lemma_opened_reaches(path, exports);
        } else {
            reach::lemma_reaches_self(graph.edge(), end);
        }
        let i = symbols.index_of(s);
        assert(keys[i] == init_targets::symbol_key(path[0]));
        assert(reach::reaches(graph.edge(), keys[i], end));
        graph.lemma_walk_visits_reachable(keys);
        let order = graph.walk(keys, Set::empty()).order;
        assert(order.to_set().contains(end));
        let callable = |key: (ModuleIdx, usize)| self.is_callable(key.0);
        seqs::lemma_filter_members(order, callable);
        let kept = order.filter(callable);
        assert(kept.contains(end));
        let k = kept.index_of(end);
        assert(self.symbol_targets(symbols, through_namespaces)[k] == end.0);
    }

    proof fn lemma_keys_held(self, symbols: Seq<SymbolRef>, through_namespaces: bool)
        requires
            self.wf(),
            forall|i: int|
                0 <= i < symbols.len() ==> self.tables.symbol_db.holds(#[trigger] symbols[i]),
        ensures
            self.symbol_graph(through_namespaces).wf(),
            self.symbol_graph(through_namespaces).holds_all(self.canonical_keys(symbols)),
    {
        let graph = self.symbol_graph(through_namespaces);
        let keys = self.canonical_keys(symbols);
        self.lemma_symbol_graph_wf(through_namespaces);
        assert forall|i: int| 0 <= i < keys.len() implies graph.nodes.contains(
            #[trigger] keys[i],
        ) by {
            assert(self.tables.symbol_db.holds(symbols[i]));
            let link = self.tables.symbol_db.link(symbols[i]);
            assert(self.tables.symbol_db.holds(link.resolving_namespace));
        }
    }

    /// Only so does a symbol lead to a module.
    proof fn lemma_target_symbol(
        self,
        symbols: Seq<SymbolRef>,
        through_namespaces: bool,
        t: ModuleIdx,
    ) -> (found: (SymbolRef, Seq<SymbolRef>, Seq<int>))
        requires
            self.wf(),
            forall|i: int|
                0 <= i < symbols.len() ==> self.tables.symbol_db.holds(#[trigger] symbols[i]),
            self.symbol_targets(symbols, through_namespaces).contains(t),
        ensures
            symbols.contains(found.0),
            found.1[0]
                == self.tables.symbol_db.links@[found.0.owner as int]@[found.0.symbol as int].resolving_namespace,
            self.opened(found.1, found.2),
            found.1.len() == 1 || through_namespaces,
            found.1.last().owner == t,
            self.callable[t as int],
    {
        let graph = self.symbol_graph(through_namespaces);
        let keys = self.canonical_keys(symbols);
        self.lemma_keys_held(symbols, through_namespaces);
        graph.lemma_walk_visits_reachable(keys);
        let order = graph.walk(keys, Set::empty()).order;
        let callable = |key: (ModuleIdx, usize)| self.is_callable(key.0);
        seqs::lemma_filter_members(order, callable);
        let kept = order.filter(callable);
        let k = self.symbol_targets(symbols, through_namespaces).index_of(t);
        let end = kept[k];
        assert(end.0 == t);
        assert(kept.contains(end));
        assert(order.to_set().contains(end));
        let i = choose|i: int|
            0 <= i < keys.len() && reach::reaches(graph.edge(), #[trigger] keys[i], end);
        let (path, exports) = self.lemma_reaches_opened(through_namespaces, keys[i], end);
        assert(symbols.contains(symbols[i]));
        let s = symbols[i];
        let link = self.tables.symbol_db.link(s);
        assert(keys[i] == init_targets::symbol_key(link.resolving_namespace));
        assert(path[0] == link.resolving_namespace);
        (s, path, exports)
    }

    proof fn lemma_behind(
        self,
        importer: NormalModule,
        importer_wrapped: bool,
        rec: ImportRecordIdx,
        importee: ModuleIdx,
        before: Set<ModuleIdx>,
        depth: nat,
        credit: Credit,
    )
        requires
            importer.import_records@[rec as int].resolved_module == Some(importee),
            self.looked_behind(importee),
        ensures
            self.record_targets(importer, importer_wrapped, rec, before, depth, credit)
                == self.symbol_targets(
                init_targets::consumed_symbols(
                    importer,
                    rec,
                    self.tables.metas[importee as int].resolved_exports@,
                ),
                importer_wrapped,
            ),
    {
    }

    /// A name that an import takes from a module and that the module exports: whatever the record
    /// is for, if what the export stands for is owned by a module that can be called, or opens up to
    /// that, the import calls it.
    pub proof fn law_imported_names_are_initialized(
        self,
        importer: NormalModule,
        importer_wrapped: bool,
        rec: ImportRecordIdx,
        importee: ModuleIdx,
        before: Set<ModuleIdx>,
        depth: nat,
        credit: Credit,
        i: int,
        e: int,
        path: Seq<SymbolRef>,
        exports: Seq<int>,
    )
        requires
            self.wf(),
            importer.wf(self.tables.module_count(), self.tables.symbol_db),
            rec < importer.import_records@.len(),
            importer.import_records@[rec as int].resolved_module == Some(importee),
            self.looked_behind(importee),
            0 <= i < importer.named_imports@.len(),
            importer.named_imports@[i].record_idx == rec,
            0 <= e < self.tables.metas[importee as int].resolved_exports@.len(),
            importer.named_imports@[i].imported matches Specifier::Literal(name) && name@
                == self.tables.metas[importee as int].resolved_exports@[e].name@,
            ({
                let s = self.tables.metas[importee as int].resolved_exports@[e].symbol_ref;
                path[0]
                    == self.tables.symbol_db.links@[s.owner as int]@[s.symbol as int].resolving_namespace
            }),
            self.opened(path, exports),
            path.len() == 1 || importer_wrapped,
            self.callable[path.last().owner as int],
        ensures
            self.record_targets(
                importer,
                importer_wrapped,
                rec,
                before,
                depth,
                credit,
            ).contains(path.last().owner),
    {
        let all = self.tables.metas[importee as int].resolved_exports@;
        let symbols = init_targets::consumed_symbols(importer, rec, all);
        let s = all[e].symbol_ref;
        self.lemma_behind(importer, importer_wrapped, rec, importee, before, depth, credit);
        self.lemma_consumed_symbols_held(importer, rec, importee);
        assert(self.tables.module_wf(importee));
        if importer.import_records@[rec as int].meta.is_export_star {
            assert(symbols[e] == s);
        } else {
            let taken = |import: NamedImport| init_targets::imported_symbols(import, rec, all);
            seqs::lemma_flat_map_members(importer.named_imports@, taken);
            let import = importer.named_imports@[i];
            lemma_exported_symbol(all, e, import.imported_as);
            assert(taken(import)[0] == s);
            assert(taken(import).contains(s));
        }
        assert(symbols.contains(s));
        self.lemma_symbol_target(symbols, importer_wrapped, s, path, exports);
    }

    /// Whether the importee is a forwarder or not, the owner of what an imported name stands for is
    /// needed, if it can be called and the importee cannot.
    pub proof fn lemma_imported_names_are_wanted(
        self,
        importer: NormalModule,
        importer_wrapped: bool,
        rec: ImportRecordIdx,
        importee: ModuleIdx,
        i: int,
        e: int,
    )
        requires
            self.wf(),
            importer.wf(self.tables.module_count(), self.tables.symbol_db),
            rec < importer.import_records@.len(),
            importer.import_records@[rec as int].resolved_module == Some(importee),
            !self.callable[importee as int],
            0 <= i < importer.named_imports@.len(),
            importer.named_imports@[i].record_idx == rec,
            0 <= e < self.tables.metas[importee as int].resolved_exports@.len(),
            importer.named_imports@[i].imported matches Specifier::Literal(name) && name@
                == self.tables.metas[importee as int].resolved_exports@[e].name@,
            ({
                let s = self.tables.metas[importee as int].resolved_exports@[e].symbol_ref;
                self.callable[self.tables.symbol_db.links@[s.owner as int]@[s.symbol as int].resolving_namespace.owner as int]
            }),
        ensures
            ({
                let s = self.tables.metas[importee as int].resolved_exports@[e].symbol_ref;
                self.wanted(importer, importer_wrapped, rec).contains(
                    self.tables.symbol_db.links@[s.owner as int]@[s.symbol as int].resolving_namespace.owner,
                )
            }),
    {
        let s = self.tables.metas[importee as int].resolved_exports@[e].symbol_ref;
        let end = self.tables.symbol_db.links@[s.owner as int]@[s.symbol as int].resolving_namespace;
        let other = InitWorld { owns: Seq::new(self.owns.len(), |m: int| false), ..self };
        assert(importee < self.tables.module_count());
        other.law_imported_names_are_initialized(
            importer,
            importer_wrapped,
            rec,
            importee,
            Set::empty(),
            0,
            Credit::Least,
            i,
            e,
            seq![end],
            Seq::empty(),
        );
        other.law_targets_are_wanted(
            importer,
            importer_wrapped,
            rec,
            Set::empty(),
            0,
            Credit::Least,
            end.owner,
        );
        self.lemma_wants_the_same(other, importer, importer_wrapped, rec);
    }

    /// The same for a name that the module does not export: what the import binds it to counts.
    pub proof fn law_unexported_names_are_initialized(
        self,
        importer: NormalModule,
        importer_wrapped: bool,
        rec: ImportRecordIdx,
        importee: ModuleIdx,
        before: Set<ModuleIdx>,
        depth: nat,
        credit: Credit,
        i: int,
        path: Seq<SymbolRef>,
        exports: Seq<int>,
    )
        requires
            self.wf(),
            importer.wf(self.tables.module_count(), self.tables.symbol_db),
            rec < importer.import_records@.len(),
            importer.import_records@[rec as int].resolved_module == Some(importee),
            !importer.import_records@[rec as int].meta.is_export_star,
            self.looked_behind(importee),
            0 <= i < importer.named_imports@.len(),
            importer.named_imports@[i].record_idx == rec,
            importer.named_imports@[i].imported matches Specifier::Literal(name) && forall|e: int|
                0 <= e < self.tables.metas[importee as int].resolved_exports@.len() ==> (
                #[trigger] self.tables.metas[importee as int].resolved_exports@[e]).name@ != name@,
            ({
                let s = importer.named_imports@[i].imported_as;
                path[0]
                    == self.tables.symbol_db.links@[s.owner as int]@[s.symbol as int].resolving_namespace
            }),
            self.opened(path, exports),
            path.len() == 1 || importer_wrapped,
            self.callable[path.last().owner as int],
        ensures
            self.record_targets(
                importer,
                importer_wrapped,
                rec,
                before,
                depth,
                credit,
            ).contains(path.last().owner),
    {
        let all = self.tables.metas[importee as int].resolved_exports@;
        let symbols = init_targets::consumed_symbols(importer, rec, all);
        let import = importer.named_imports@[i];
        let s = import.imported_as;
        let taken = |import: NamedImport| init_targets::imported_symbols(import, rec, all);
        self.lemma_behind(importer, importer_wrapped, rec, importee, before, depth, credit);
        self.lemma_consumed_symbols_held(importer, rec, importee);
        seqs::lemma_flat_map_members(importer.named_imports@, taken);
        assert(taken(import)[0] == s);
        assert(taken(import).contains(s));
        assert(symbols.contains(s));
        self.lemma_symbol_target(symbols, importer_wrapped, s, path, exports);
    }

    /// An import of the whole namespace, and an `export *`, take every export.
    pub proof fn law_all_exports_are_initialized(
        self,
        importer: NormalModule,
        importer_wrapped: bool,
        rec: ImportRecordIdx,
        importee: ModuleIdx,
        before: Set<ModuleIdx>,
        depth: nat,
        credit: Credit,
        i: int,
        e: int,
        path: Seq<SymbolRef>,
        exports: Seq<int>,
    )
        requires
            self.wf(),
            importer.wf(self.tables.module_count(), self.tables.symbol_db),
            rec < importer.import_records@.len(),
            importer.import_records@[rec as int].resolved_module == Some(importee),
            self.looked_behind(importee),
            importer.import_records@[rec as int].meta.is_export_star || (0 <= i
                < importer.named_imports@.len() && importer.named_imports@[i].record_idx == rec
                && importer.named_imports@[i].imported is Star),
            0 <= e < self.tables.metas[importee as int].resolved_exports@.len(),
            ({
                let s = self.tables.metas[importee as int].resolved_exports@[e].symbol_ref;
                path[0]
                    == self.tables.symbol_db.links@[s.owner as int]@[s.symbol as int].resolving_namespace
            }),
            self.opened(path, exports),
            path.len() == 1 || importer_wrapped,
            self.callable[path.last().owner as int],
        ensures
            self.record_targets(
                importer,
                importer_wrapped,
                rec,
                before,
                depth,
                credit,
            ).contains(path.last().owner),
    {
        let all = self.tables.metas[importee as int].resolved_exports@;
        let symbols = init_targets::consumed_symbols(importer, rec, all);
        let s = all[e].symbol_ref;
        self.lemma_behind(importer, importer_wrapped, rec, importee, before, depth, credit);
        self.lemma_consumed_symbols_held(importer, rec, importee);
        if importer.import_records@[rec as int].meta.is_export_star {
            assert(symbols[e] == s);
        } else {
            let taken = |import: NamedImport| init_targets::imported_symbols(import, rec, all);
            seqs::lemma_flat_map_members(importer.named_imports@, taken);
            let import = importer.named_imports@[i];
            assert(taken(import)[e] == s);
            assert(taken(import).contains(s));
        }
        assert(symbols.contains(s));
        self.lemma_symbol_target(symbols, importer_wrapped, s, path, exports);
    }

    /// Nothing else is called: each call is of a module that can be called, and that owns what a
    /// taken symbol stands for, or what that opens up to. The symbol is that of the export with the
    /// given number, or, where that is negative, what the import with the other number binds a name
    /// to that is not exported.
    pub proof fn law_nothing_else_is_initialized(
        self,
        importer: NormalModule,
        importer_wrapped: bool,
        rec: ImportRecordIdx,
        importee: ModuleIdx,
        before: Set<ModuleIdx>,
        depth: nat,
        credit: Credit,
        t: ModuleIdx,
    ) -> (found: (int, int, SymbolRef, Seq<SymbolRef>, Seq<int>))
        requires
            self.wf(),
            importer.wf(self.tables.module_count(), self.tables.symbol_db),
            rec < importer.import_records@.len(),
            importer.import_records@[rec as int].resolved_module == Some(importee),
            !self.callable[importee as int],
            self.record_targets(
                importer,
                importer_wrapped,
                rec,
                before,
                depth,
                credit,
            ).contains(t),
        ensures
            self.callable[t as int],
            found.1 < self.tables.metas[importee as int].resolved_exports@.len(),
            found.1 >= 0 ==> found.2
                == self.tables.metas[importee as int].resolved_exports@[found.1].symbol_ref,
            importer.import_records@[rec as int].meta.is_export_star ==> found.1 >= 0,
            !importer.import_records@[rec as int].meta.is_export_star ==> {
                &&& 0 <= found.0 < importer.named_imports@.len()
                &&& importer.named_imports@[found.0].record_idx == rec
                &&& importer.named_imports@[found.0].imported is Star ==> found.1 >= 0
                &&& importer.named_imports@[found.0].imported matches Specifier::Literal(name)
                    ==> found.1 >= 0
                    ==> self.tables.metas[importee as int].resolved_exports@[found.1].name@ == name@
                &&& importer.named_imports@[found.0].imported matches Specifier::Literal(name)
                    ==> found.1 < 0 ==> found.2 == importer.named_imports@[found.0].imported_as
                    && forall|e: int|
                    0 <= e < self.tables.metas[importee as int].resolved_exports@.len() ==> (
                    #[trigger] self.tables.metas[importee as int].resolved_exports@[e]).name@
                        != name@
            },
            found.3[0]
                == self.tables.symbol_db.links@[found.2.owner as int]@[found.2.symbol as int].resolving_namespace,
            self.opened(found.3, found.4),
            found.3.len() == 1 || importer_wrapped,
            found.3.last().owner == t,
    {
        let all = self.tables.metas[importee as int].resolved_exports@;
        let symbols = init_targets::consumed_symbols(importer, rec, all);
        self.law_targets_are_wanted(importer, importer_wrapped, rec, before, depth, credit, t);
        self.lemma_consumed_symbols_held(importer, rec, importee);
        let (s, path, exports) = self.lemma_target_symbol(symbols, importer_wrapped, t);
        if importer.import_records@[rec as int].meta.is_export_star {
            let e = symbols.index_of(s);
            assert(symbols[e] == s);
            (0, e, s, path, exports)
        } else {
            let taken = |import: NamedImport| init_targets::imported_symbols(import, rec, all);
            seqs::lemma_flat_map_members(importer.named_imports@, taken);
            let i = choose|i: int|
                0 <= i < importer.named_imports@.len() && taken(
                    #[trigger] importer.named_imports@[i],
                ).contains(s);
            let import = importer.named_imports@[i];
            let k = taken(import).index_of(s);
            assert(taken(import)[k] == s);
            match import.imported {
                Specifier::Star => {
                    assert(all[k].symbol_ref == s);
                    (i, k, s, path, exports)
                },
                Specifier::Literal(name) => {
                    assert(s == init_targets::exported_symbol(all, name@, import.imported_as));
                    if exists|e: int| 0 <= e < all.len() && (#[trigger] all[e]).name@ == name@ {
                        let e = choose|e: int|
                            0 <= e < all.len() && (#[trigger] all[e]).name@ == name@;
                        (i, e, s, path, exports)
                    } else {
                        (i, -1, s, path, exports)
                    }
                },
            }
        }
    }

    /// Symbols are followed in turn: what an earlier one stands for is called before what a later one
    /// stands for, if no symbol up to the earlier one leads to the latter.
    proof fn lemma_symbols_in_order(
        self,
        symbols: Seq<SymbolRef>,
        through_namespaces: bool,
        a: int,
        b: int,
    )
        requires
            self.wf(),
            forall|i: int|
                0 <= i < symbols.len() ==> self.tables.symbol_db.holds(#[trigger] symbols[i]),
            0 <= a < b < symbols.len(),
            self.callable[self.canonical_key(symbols[a]).0 as int],
            self.callable[self.canonical_key(symbols[b]).0 as int],
            forall|k: int|
                0 <= k <= a ==> !reach::reaches(
                    self.symbol_graph(through_namespaces).edge(),
                    self.canonical_key(#[trigger] symbols[k]),
                    self.canonical_key(symbols[b]),
                ),
        ensures
            ({
                let targets = self.symbol_targets(symbols, through_namespaces);
                exists|p: int, q: int|
                    #![trigger targets[p], targets[q]]
                    0 <= p < q < targets.len() && targets[p] == self.canonical_key(symbols[a]).0
                        && targets[q] == self.canonical_key(symbols[b]).0
            }),
    {
        let graph = self.symbol_graph(through_namespaces);
        let keys = self.canonical_keys(symbols);
        let first = keys.take(a + 1);
        let rest = keys.skip(a + 1);
        let none: Set<(ModuleIdx, usize)> = Set::empty();
        let x = keys[a];
        let y = keys[b];
        self.lemma_keys_held(symbols, through_namespaces);
        assert(keys =~= first + rest);
        assert(graph.holds_all(first));
        assert(graph.holds_all(rest));
        graph.lemma_walk_reaches(first, none);
        graph.lemma_walk_basics(first, none);
        graph.lemma_walk_reaches(keys, none);
        assert(first[a] == x);
        let one = graph.walk(first, none);
        if one.visited.contains(y) {
            assert(one.order.to_set().contains(y));
            let i = choose|i: int|
                0 <= i < first.len() && reach::reaches(graph.edge(), #[trigger] first[i], y);
            assert(first[i] == self.canonical_key(symbols[i]));
        }
        assert(keys[b] == y);
        graph.lemma_first_part_finishes_first(first, rest, none, x, y);
        let order = graph.walk(keys, none).order;
        let (u, v) = choose|u: int, v: int|
            #![trigger order[u], order[v]]
            0 <= u < v < order.len() && order[u] == x && order[v] == y;
        let callable = |key: (ModuleIdx, usize)| self.is_callable(key.0);
        seqs::lemma_filter_keeps_order(order, callable, u, v);
        let kept = order.filter(callable);
        let (p, q) = choose|p: int, q: int|
            #![trigger kept[p], kept[q]]
            0 <= p < q < kept.len() && kept[p] == order[u] && kept[q] == order[v];
        let targets = self.symbol_targets(symbols, through_namespaces);
        assert(targets[p] == x.0 && targets[q] == y.0);
    }

    /// Of two names that are taken through the record, by an importer without an order wrapper, the
    /// owner of what the earlier one stands for is called before that of the later one, unless a name
    /// up to the earlier one already stands for what the later one does.
    pub proof fn law_names_are_followed_in_order(
        self,
        importer: NormalModule,
        rec: ImportRecordIdx,
        importee: ModuleIdx,
        before: Set<ModuleIdx>,
        depth: nat,
        credit: Credit,
        i: int,
        e: int,
        j: int,
        f: int,
    )
        requires
            self.wf(),
            importer.wf(self.tables.module_count(), self.tables.symbol_db),
            rec < importer.import_records@.len(),
            importer.import_records@[rec as int].resolved_module == Some(importee),
            !importer.import_records@[rec as int].meta.is_export_star,
            self.looked_behind(importee),
            0 <= i < j < importer.named_imports@.len(),
            importer.named_imports@[i].record_idx == rec,
            importer.named_imports@[j].record_idx == rec,
            0 <= e < self.tables.metas[importee as int].resolved_exports@.len(),
            0 <= f < self.tables.metas[importee as int].resolved_exports@.len(),
            importer.named_imports@[i].imported matches Specifier::Literal(name) && name@
                == self.tables.metas[importee as int].resolved_exports@[e].name@,
            importer.named_imports@[j].imported matches Specifier::Literal(name) && name@
                == self.tables.metas[importee as int].resolved_exports@[f].name@,
            ({
                let all = self.tables.metas[importee as int].resolved_exports@;
                let late = self.tables.symbol_db.link(all[f].symbol_ref).resolving_namespace;
                &&& self.callable[self.tables.symbol_db.link(
                    all[e].symbol_ref,
                ).resolving_namespace.owner as int]
                &&& self.callable[late.owner as int]
                &&& forall|k: int|
                    #![trigger importer.named_imports@[k]]
                    0 <= k <= i && importer.named_imports@[k].record_idx == rec ==> {
                        &&& importer.named_imports@[k].imported is Literal
                        &&& self.tables.symbol_db.link(
                            importer.named_imports@[k].imported_as,
                        ).resolving_namespace != late
                        &&& forall|g: int|
                            0 <= g < all.len() && (#[trigger] all[g]).name@ == (
                            importer.named_imports@[k].imported->Literal_0)@
                                ==> self.tables.symbol_db.link(
                                all[g].symbol_ref,
                            ).resolving_namespace != late
                    }
            }),
        ensures
            ({
                let all = self.tables.metas[importee as int].resolved_exports@;
                let targets = self.record_targets(importer, false, rec, before, depth, credit);
                exists|p: int, q: int|
                    #![trigger targets[p], targets[q]]
                    0 <= p < q < targets.len() && targets[p] == self.tables.symbol_db.link(
                        all[e].symbol_ref,
                    ).resolving_namespace.owner && targets[q] == self.tables.symbol_db.link(
                        all[f].symbol_ref,
                    ).resolving_namespace.owner
            }),
    {
        let all = self.tables.metas[importee as int].resolved_exports@;
        let imports = importer.named_imports@;
        let taken = |import: NamedImport| init_targets::imported_symbols(import, rec, all);
        let symbols = init_targets::consumed_symbols(importer, rec, all);
        let front = imports.take(i);
        let here = imports.take(i + 1);
        let back = imports.skip(i + 1);
        let late = self.canonical_key(all[f].symbol_ref);
        self.lemma_behind(importer, false, rec, importee, before, depth, credit);
        self.lemma_consumed_symbols_held(importer, rec, importee);
        assert(self.tables.module_wf(importee));
        assert(imports =~= here + back);
        seqs::lemma_flat_map_add(here, back, taken);
        imports.lemma_flat_map_take_append(taken, i);
        lemma_exported_symbol(all, e, imports[i].imported_as);
        lemma_exported_symbol(all, f, imports[j].imported_as);
        assert(taken(imports[i]) =~= seq![all[e].symbol_ref]);
        assert(taken(imports[j]) =~= seq![all[f].symbol_ref]);
        let first = here.flat_map(taken);
        let rest = back.flat_map(taken);
        let a = first.len() - 1;
        assert(first == front.flat_map(taken) + seq![all[e].symbol_ref]);
        assert(symbols[a] == all[e].symbol_ref);
        seqs::lemma_flat_map_members(back, taken);
        assert(back[j - i - 1] == imports[j]);
        assert(taken(back[j - i - 1])[0] == all[f].symbol_ref);
        assert(taken(back[j - i - 1]).contains(all[f].symbol_ref));
        assert(rest.contains(all[f].symbol_ref));
        let b = first.len() + rest.index_of(all[f].symbol_ref);
        assert(symbols[b] == all[f].symbol_ref);
        seqs::lemma_flat_map_members(here, taken);
        assert forall|k: int| 0 <= k <= a implies !reach::reaches(
            self.symbol_graph(false).edge(),
            self.canonical_key(#[trigger] symbols[k]),
            late,
        ) by {
            let s = symbols[k];
            assert(first[k] == s);
            assert(first.contains(s));
            let n = choose|n: int| 0 <= n < here.len() && taken(#[trigger] here[n]).contains(s);
            let import = imports[n];
            assert(here[n] == import);
            assert(import.record_idx == rec);
            assert(s == init_targets::exported_symbol(
                all,
                (import.imported->Literal_0)@,
                import.imported_as,
            ));
            if reach::reaches(self.symbol_graph(false).edge(), self.canonical_key(s), late) {
                let (path, opens) = self.lemma_reaches_opened(
                    false,
                    self.canonical_key(s),
                    late,
                );
                assert(path[0] == path.last());
                assert(self.canonical_key(s) == late);
            }
        }
        self.lemma_symbols_in_order(symbols, false, a, b);
    }

    /// For an `export *`, exports are followed in turn, in the same way.
    pub proof fn law_exports_are_followed_in_order(
        self,
        importer: NormalModule,
        rec: ImportRecordIdx,
        importee: ModuleIdx,
        before: Set<ModuleIdx>,
        depth: nat,
        credit: Credit,
        e: int,
        f: int,
    )
        requires
            self.wf(),
            importer.wf(self.tables.module_count(), self.tables.symbol_db),
            rec < importer.import_records@.len(),
            importer.import_records@[rec as int].resolved_module == Some(importee),
            importer.import_records@[rec as int].meta.is_export_star,
            self.looked_behind(importee),
            0 <= e < f < self.tables.metas[importee as int].resolved_exports@.len(),
            ({
                let all = self.tables.metas[importee as int].resolved_exports@;
                let late = self.tables.symbol_db.link(all[f].symbol_ref).resolving_namespace;
                &&& self.callable[self.tables.symbol_db.link(
                    all[e].symbol_ref,
                ).resolving_namespace.owner as int]
                &&& self.callable[late.owner as int]
                &&& forall|g: int|
                    0 <= g <= e ==> self.tables.symbol_db.link(
                        (#[trigger] all[g]).symbol_ref,
                    ).resolving_namespace != late
            }),
        ensures
            ({
                let all = self.tables.metas[importee as int].resolved_exports@;
                let targets = self.record_targets(importer, false, rec, before, depth, credit);
                exists|p: int, q: int|
                    #![trigger targets[p], targets[q]]
                    0 <= p < q < targets.len() && targets[p] == self.tables.symbol_db.link(
                        all[e].symbol_ref,
                    ).resolving_namespace.owner && targets[q] == self.tables.symbol_db.link(
                        all[f].symbol_ref,
                    ).resolving_namespace.owner
            }),
    {
        let all = self.tables.metas[importee as int].resolved_exports@;
        let symbols = init_targets::consumed_symbols(importer, rec, all);
        let late = self.canonical_key(all[f].symbol_ref);
        self.lemma_behind(importer, false, rec, importee, before, depth, credit);
        self.lemma_consumed_symbols_held(importer, rec, importee);
        assert forall|k: int| 0 <= k <= e implies !reach::reaches(
            self.symbol_graph(false).edge(),
            self.canonical_key(#[trigger] symbols[k]),
            late,
        ) by {
            let s = symbols[k];
            assert(s == all[k].symbol_ref);
            if reach::reaches(self.symbol_graph(false).edge(), self.canonical_key(s), late) {
                let (path, opens) = self.lemma_reaches_opened(
                    false,
                    self.canonical_key(s),
                    late,
                );
                assert(path[0] == path.last());
                assert(self.canonical_key(s) == late);
            }
        }
        assert(symbols[e] == all[e].symbol_ref && symbols[f] == all[f].symbol_ref);
        self.lemma_symbols_in_order(symbols, false, e, f);
    }

    /// An import of a module whose `init_*` function can be called calls that, and nothing else,
    /// unless the module is a forwarder that owns its initialization.
    pub proof fn law_callable_importees_are_called(
        self,
        importer: NormalModule,
        importer_wrapped: bool,
        rec: ImportRecordIdx,
        importee: ModuleIdx,
        before: Set<ModuleIdx>,
        depth: nat,
        credit: Credit,
    )
        requires
            importer.import_records@[rec as int].resolved_module == Some(importee),
            self.callable[importee as int],
            (importee < self.state.order_wrappers.len()
                && self.state.order_wrappers[importee as int] is Some)
                || self.tables.metas[importee as int].wrap_kind != WrapKind::Unwrapped,
        ensures
            self.record_targets(importer, importer_wrapped, rec, before, depth, credit)
                == seq![importee],
    {
    }

    /// An import of what was not resolved calls nothing.
    pub proof fn law_unresolved_imports_call_nothing(
        self,
        importer: NormalModule,
        importer_wrapped: bool,
        rec: ImportRecordIdx,
        before: Set<ModuleIdx>,
        depth: nat,
        credit: Credit,
    )
        requires
            importer.import_records@[rec as int].resolved_module is None,
        ensures
            self.record_targets(importer, importer_wrapped, rec, before, depth, credit)
                == Seq::<ModuleIdx>::empty(),
    {
    }

    /// A kept, unwrapped module without an order wrapper that owns the initialization of what it
    /// forwards is left everything, if the order is not strict, or if none of its source statements
    /// with a static import was dropped.
    pub proof fn law_forwarders_are_left_everything(
        self,
        importer: NormalModule,
        importer_wrapped: bool,
        rec: ImportRecordIdx,
        importee: ModuleIdx,
        before: Set<ModuleIdx>,
        depth: nat,
        credit: Credit,
    )
        requires
            importer.import_records@[rec as int].resolved_module == Some(importee),
            importee < self.tables.modules.len(),
            !(importee < self.state.order_wrappers.len()
                && self.state.order_wrappers[importee as int] is Some),
            self.tables.metas[importee as int].wrap_kind == WrapKind::Unwrapped,
            self.tables.metas[importee as int].is_included,
            self.owns[importee as int],
            !self.strict || (self.tables.modules[importee as int] matches Module::Normal(module)
                ==> forall|s: int, r: int|
                #![trigger self.tables.stmt_infos[importee as int].infos@[s].import_records@[r]]
                {
                    &&& 1 <= s < self.tables.stmt_infos[importee as int].infos@.len()
                    &&& 0 <= r
                        < self.tables.stmt_infos[importee as int].infos@[s].import_records@.len()
                    &&& module.import_records@[self.tables.stmt_infos[importee as int].infos@[s].import_records@[r] as int].kind
                        == ImportKind::Import
                } ==> 0 <= s < self.tables.metas[importee as int].stmt_info_included@.len()
                    && self.tables.metas[importee as int].stmt_info_included@[s]),
        ensures
            self.record_targets(importer, importer_wrapped, rec, before, depth, credit)
                == Seq::<ModuleIdx>::empty(),
    {
        if self.strict && self.tables.is_normal(importee) {
            let meta = self.tables.meta(importee);
            assert forall|s: int, r: int|
                #![trigger self.tables.stmts(importee)[s].import_records@[r]]
                {
                    &&& 0 < s < self.tables.stmts(importee).len()
                    &&& !meta.keeps_stmt(s)
                    &&& 0 <= r < self.tables.stmts(importee)[s].import_records@.len()
                } implies self.tables.records(importee)[self.tables.stmts(importee)[s].import_records@[r] as int].kind
                != ImportKind::Import by {
                let rec = self.tables.stmt_infos[importee as int].infos@[s].import_records@[r];
            }
            assert(self.discharges_own_hops(importee));
        }
    }

    /// Behind such a forwarder, where the order is strict and a source statement of it with a static
    /// import was dropped, the importer calls what it needs, except what the forwarder is credited
    /// with: in the same order, and without the latter.
    pub proof fn law_forwarders_are_left_what_they_call(
        self,
        importer: NormalModule,
        importer_wrapped: bool,
        rec: ImportRecordIdx,
        importee: ModuleIdx,
        s: int,
        r: int,
        t: ModuleIdx,
    )
        requires
            self.wf(),
            importer.wf(self.tables.module_count(), self.tables.symbol_db),
            rec < importer.import_records@.len(),
            importer.import_records@[rec as int].resolved_module == Some(importee),
            self.strict,
            self.tables.modules[importee as int] matches Module::Normal(module) && {
                &&& 1 <= s < self.tables.stmt_infos[importee as int].infos@.len()
                &&& 0 <= r
                    < self.tables.stmt_infos[importee as int].infos@[s].import_records@.len()
                &&& module.import_records@[self.tables.stmt_infos[importee as int].infos@[s].import_records@[r] as int].kind
                    == ImportKind::Import
                &&& !(0 <= s < self.tables.metas[importee as int].stmt_info_included@.len()
                    && self.tables.metas[importee as int].stmt_info_included@[s])
            },
            self.wanted(importer, importer_wrapped, rec).contains(t),
        ensures
            self.record_targets(
                importer,
                importer_wrapped,
                rec,
                Set::empty(),
                self.tables.module_count(),
                Credit::Least,
            ).contains(t) || self.emits(importee, t),
    {
        let rec2 = self.tables.stmts(importee)[s].import_records@[r];
        assert(!self.tables.meta(importee).keeps_stmt(s));
        assert(self.tables.records(importee)[rec2 as int].kind == ImportKind::Import);
        assert(!self.discharges_own_hops(importee));
        let n = self.tables.module_count();
        if self.eager_forwarder(importee) && !self.is_callable(importee) {
            let calls = self.forwarder_calls(importee, Set::empty(), n, Credit::Least);
            seqs::lemma_filter_members(
                self.wanted(importer, importer_wrapped, rec),
                |m: ModuleIdx| !calls.contains(m),
            );
            if calls.contains(t) {
                self.law_discharged_is_emitted(importee, Set::empty(), n, t);
            }
        }
    }

    /// Where no forwarder behind it leads back to itself, nothing is called that a kept, unwrapped
    /// importee without an order wrapper calls itself, if it owns the initialization of what it
    /// forwards and cannot be called.
    pub proof fn law_what_forwarders_call_is_not_repeated(
        self,
        importer: NormalModule,
        importer_wrapped: bool,
        rec: ImportRecordIdx,
        importee: ModuleIdx,
        t: ModuleIdx,
    )
        requires
            self.wf(),
            importer.import_records@[rec as int].resolved_module == Some(importee),
            importee < self.tables.modules.len(),
            !self.callable[importee as int],
            !(importee < self.state.order_wrappers.len()
                && self.state.order_wrappers[importee as int] is Some),
            self.tables.metas[importee as int].wrap_kind == WrapKind::Unwrapped,
            self.tables.metas[importee as int].is_included,
            self.owns[importee as int],
            init_laws::no_circle_behind(self.forwarding(), importee),
            self.emits(importee, t),
        ensures
            !self.record_targets(
                importer,
                importer_wrapped,
                rec,
                Set::empty(),
                self.tables.module_count(),
                Credit::Least,
            ).contains(t),
    {
        let n = self.tables.module_count();
        assert(self.eager_forwarder(importee));
        self.law_discharged_is_exact(importee);
        let calls = self.forwarder_calls(importee, Set::empty(), n, Credit::Least);
        assert(calls.contains(t));
        seqs::lemma_filter_members(
            self.wanted(importer, importer_wrapped, rec),
            |m: ModuleIdx| !calls.contains(m),
        );
    }

    /// A module calls `init_*` functions exactly for the static imports of its kept source
    /// statements that no wrapped ancestor walks through.
    pub proof fn law_which_records_call(self, m: ModuleIdx, rec: ImportRecordIdx)
        requires
            self.wf(),
            m < self.tables.modules.len(),
        ensures
            self.own_hops(m).contains(rec) <==> exists|s: int, r: int|
                #![trigger self.tables.stmt_infos[m as int].infos@[s].import_records@[r]]
                {
                    &&& 1 <= s < self.tables.stmt_infos[m as int].infos@.len()
                    &&& self.tables.metas[m as int].stmt_info_included@[s]
                    &&& 0 <= r < self.tables.stmt_infos[m as int].infos@[s].import_records@.len()
                    &&& self.tables.stmt_infos[m as int].infos@[s].import_records@[r] == rec
                    &&& self.tables.modules[m as int]->Normal_0.import_records@[rec as int].kind
                        == ImportKind::Import
                    &&& !self.state.nested_reexport_records.contains((m, rec))
                },
    {
        assert(self.tables.module_wf(m));
        self.lemma_hops_members(m, rec, self.tables.stmts(m).len());
    }

    proof fn lemma_hops_members(self, m: ModuleIdx, rec: ImportRecordIdx, stmt_end: nat)
        requires
            self.wf(),
            m < self.tables.modules.len(),
            stmt_end <= self.tables.stmts(m).len(),
        ensures
            init_targets::hops(self.tables, self.state, m, stmt_end).contains(rec) <==> exists|
                s: int,
                r: int,
            |
                #![trigger self.tables.stmt_infos[m as int].infos@[s].import_records@[r]]
                {
                    &&& 1 <= s < stmt_end
                    &&& self.tables.metas[m as int].stmt_info_included@[s]
                    &&& 0 <= r < self.tables.stmt_infos[m as int].infos@[s].import_records@.len()
                    &&& self.tables.stmt_infos[m as int].infos@[s].import_records@[r] == rec
                    &&& self.tables.modules[m as int]->Normal_0.import_records@[rec as int].kind
                        == ImportKind::Import
                    &&& !self.state.nested_reexport_records.contains((m, rec))
                },
        decreases stmt_end,
    {
        assert(self.tables.module_wf(m));
        if stmt_end > 1 {
            let last = stmt_end - 1;
            let before = init_targets::hops(self.tables, self.state, m, last as nat);
            let own = init_targets::stmt_hops(self.tables, self.state, m, last);
            let all = self.tables.stmt_infos[m as int].infos@[last].import_records@;
            self.lemma_hops_members(m, rec, last as nat);
            seqs::lemma_filter_members(
                all,
                |rec: ImportRecordIdx| init_targets::emits_for(self.tables, self.state, m, rec),
            );
            seqs::lemma_contains_either(before, own, rec);
            if own.contains(rec) {
                let r = all.index_of(rec);
                assert(self.tables.stmt_infos[m as int].infos@[last].import_records@[r] == rec);
            }
            if exists|s: int, r: int|
                #![trigger self.tables.stmt_infos[m as int].infos@[s].import_records@[r]]
                {
                    &&& 1 <= s < stmt_end
                    &&& self.tables.metas[m as int].stmt_info_included@[s]
                    &&& 0 <= r < self.tables.stmt_infos[m as int].infos@[s].import_records@.len()
                    &&& self.tables.stmt_infos[m as int].infos@[s].import_records@[r] == rec
                    &&& self.tables.modules[m as int]->Normal_0.import_records@[rec as int].kind
                        == ImportKind::Import
                    &&& !self.state.nested_reexport_records.contains((m, rec))
                } {
                let (s, r) = choose|s: int, r: int|
                    #![trigger self.tables.stmt_infos[m as int].infos@[s].import_records@[r]]
                    {
                        &&& 1 <= s < stmt_end
                        &&& self.tables.metas[m as int].stmt_info_included@[s]
                        &&& 0 <= r
                            < self.tables.stmt_infos[m as int].infos@[s].import_records@.len()
                        &&& self.tables.stmt_infos[m as int].infos@[s].import_records@[r] == rec
                        &&& self.tables.modules[m as int]->Normal_0.import_records@[rec as int].kind
                            == ImportKind::Import
                        &&& !self.state.nested_reexport_records.contains((m, rec))
                    };
                if s == last {
                    assert(all[r] == rec);
                    assert(all.contains(rec));
                    assert(own.contains(rec));
                }
            }
        }
    }
}

impl<'a> WrappedEsmInitTargetContext<'a> {
    /// The importee is looked behind: it cannot be called, and it is no kept, unwrapped module
    /// without an order wrapper that owns the initialization of what it forwards.
    pub open spec fn looks_behind(
        self,
        callable: Seq<bool>,
        owns: Seq<bool>,
        importee: ModuleIdx,
    ) -> bool {
        &&& callable.len() == self.modules@.len()
        &&& owns.len() == self.modules@.len()
        &&& importee < self.modules@.len()
        &&& !callable[importee as int]
        &&& {
            ||| importee < self.order_wrap_state.order_wrappers@.len()
                && self.order_wrap_state.order_wrappers@[importee as int] is Some
            ||| self.metas@[importee as int].wrap_kind != WrapKind::Unwrapped
            ||| !self.metas@[importee as int].is_included
            ||| !owns[importee as int]
        }
    }

    /// For a module of the table, what its records call is what it is said to emit.
    pub proof fn law_modules_emit_what_their_imports_call(
        self,
        rec: ImportRecordIdx,
        callable: Seq<bool>,
        owns: Seq<bool>,
        t: ModuleIdx,
    )
        requires
            self.wf(),
            callable.len() == self.modules@.len(),
            owns.len() == self.modules@.len(),
            self.importer.idx < self.modules@.len(),
            self.modules@[self.importer.idx as int] == Module::Normal(*self.importer),
            self.metas@[self.importer.idx as int] == *self.importer_meta,
            self.init_targets(rec, callable, owns).contains(t),
            exists|s: int, r: int|
                #![trigger self.stmt_infos@[self.importer.idx as int].infos@[s].import_records@[r]]
                {
                    &&& 1 <= s < self.stmt_infos@[self.importer.idx as int].infos@.len()
                    &&& self.importer_meta.stmt_info_included@[s]
                    &&& 0 <= r
                        < self.stmt_infos@[self.importer.idx as int].infos@[s].import_records@.len()
                    &&& self.stmt_infos@[self.importer.idx as int].infos@[s].import_records@[r]
                        == rec
                    &&& self.importer.import_records@[rec as int].kind == ImportKind::Import
                    &&& !self.order_wrap_state.nested_reexport_records@.contains(
                        (self.importer.idx, rec),
                    )
                },
        ensures
            self.world(callable, owns).emits(self.importer.idx, t),
    {
        let world = self.world(callable, owns);
        let m = self.importer.idx;
        let (s, r) = choose|s: int, r: int|
            #![trigger self.stmt_infos@[m as int].infos@[s].import_records@[r]]
            {
                &&& 1 <= s < self.stmt_infos@[m as int].infos@.len()
                &&& self.importer_meta.stmt_info_included@[s]
                &&& 0 <= r < self.stmt_infos@[m as int].infos@[s].import_records@.len()
                &&& self.stmt_infos@[m as int].infos@[s].import_records@[r] == rec
                &&& self.importer.import_records@[rec as int].kind == ImportKind::Import
                &&& !self.order_wrap_state.nested_reexport_records@.contains((m, rec))
            };
        assert(world.tables.stmt_infos[m as int].infos@[s].import_records@[r] == rec);
        world.law_which_records_call(m, rec);
        let k = world.own_hops(m).index_of(rec);
        assert(world.own_hops(m)[k] == rec);
        assert(world.hop_targets(m, world.own_hops(m)[k]).contains(t));
    }

    /// For every name that the importer imports through the record, whether the record only passes
    /// bindings on or not: where the importee exports the name, and what the export stands for, seen
    /// through namespace objects, is owned by a module that can be called, that module is called.
    pub proof fn law_owners_of_imported_names_are_called(
        self,
        rec: ImportRecordIdx,
        callable: Seq<bool>,
        owns: Seq<bool>,
        importee: ModuleIdx,
        i: int,
        e: int,
    )
        requires
            self.wf(),
            rec < self.importer.import_records@.len(),
            self.importer.import_records@[rec as int].resolved_module == Some(importee),
            self.looks_behind(callable, owns, importee),
            0 <= i < self.importer.named_imports@.len(),
            self.importer.named_imports@[i].record_idx == rec,
            0 <= e < self.metas@[importee as int].resolved_exports@.len(),
            self.importer.named_imports@[i].imported matches Specifier::Literal(name) && name@
                == self.metas@[importee as int].resolved_exports@[e].name@,
            ({
                let s = self.metas@[importee as int].resolved_exports@[e].symbol_ref;
                callable[self.symbol_db.links@[s.owner as int]@[s.symbol as int].resolving_namespace.owner as int]
            }),
        ensures
            ({
                let s = self.metas@[importee as int].resolved_exports@[e].symbol_ref;
                self.init_targets(rec, callable, owns).contains(
                    self.symbol_db.links@[s.owner as int]@[s.symbol as int].resolving_namespace.owner,
                )
            }),
    {
        let s = self.metas@[importee as int].resolved_exports@[e].symbol_ref;
        let end = self.symbol_db.links@[s.owner as int]@[s.symbol as int].resolving_namespace;
        self.world(callable, owns).law_imported_names_are_initialized(
            *self.importer,
            self.importer_wrapped(),
            rec,
            importee,
            Set::empty(),
            self.tables().module_count(),
            Credit::Least,
            i,
            e,
            seq![end],
            Seq::empty(),
        );
    }

    /// For an importer with an order wrapper, the same holds of what a name opens up to, where it
    /// leads to the namespace objects of dropped modules.
    pub proof fn law_order_wrapped_importers_open_namespaces(
        self,
        rec: ImportRecordIdx,
        callable: Seq<bool>,
        owns: Seq<bool>,
        importee: ModuleIdx,
        i: int,
        e: int,
        path: Seq<SymbolRef>,
        exports: Seq<int>,
    )
        requires
            self.wf(),
            self.importer.idx < self.order_wrap_state.order_wrappers@.len(),
            self.order_wrap_state.order_wrappers@[self.importer.idx as int] is Some,
            rec < self.importer.import_records@.len(),
            self.importer.import_records@[rec as int].resolved_module == Some(importee),
            self.looks_behind(callable, owns, importee),
            0 <= i < self.importer.named_imports@.len(),
            self.importer.named_imports@[i].record_idx == rec,
            0 <= e < self.metas@[importee as int].resolved_exports@.len(),
            self.importer.named_imports@[i].imported matches Specifier::Literal(name) && name@
                == self.metas@[importee as int].resolved_exports@[e].name@,
            ({
                let s = self.metas@[importee as int].resolved_exports@[e].symbol_ref;
                path[0]
                    == self.symbol_db.links@[s.owner as int]@[s.symbol as int].resolving_namespace
            }),
            self.world(callable, owns).opened(path, exports),
            callable[path.last().owner as int],
        ensures
            self.init_targets(rec, callable, owns).contains(path.last().owner),
    {
        self.world(callable, owns).law_imported_names_are_initialized(
            *self.importer,
            self.importer_wrapped(),
            rec,
            importee,
            Set::empty(),
            self.tables().module_count(),
            Credit::Least,
            i,
            e,
            path,
            exports,
        );
    }

    /// An importer without one looks behind no namespace object: it calls only the importee and the
    /// owners of what the symbols that it takes stand for.
    pub proof fn law_other_importers_open_no_namespaces(
        self,
        rec: ImportRecordIdx,
        callable: Seq<bool>,
        owns: Seq<bool>,
        importee: ModuleIdx,
        t: ModuleIdx,
    ) -> (s: SymbolRef)
        requires
            self.wf(),
            !(self.importer.idx < self.order_wrap_state.order_wrappers@.len()
                && self.order_wrap_state.order_wrappers@[self.importer.idx as int] is Some),
            rec < self.importer.import_records@.len(),
            self.importer.import_records@[rec as int].resolved_module == Some(importee),
            callable.len() == self.modules@.len(),
            owns.len() == self.modules@.len(),
            !callable[importee as int],
            self.init_targets(rec, callable, owns).contains(t),
        ensures
            callable[t as int],
            self.symbol_db.links@[s.owner as int]@[s.symbol as int].resolving_namespace.owner == t,
            (exists|e: int|
                0 <= e < self.metas@[importee as int].resolved_exports@.len() && (
                #[trigger] self.metas@[importee as int].resolved_exports@[e]).symbol_ref == s)
                || exists|i: int|
                0 <= i < self.importer.named_imports@.len()
                    && self.importer.named_imports@[i].record_idx == rec && (
                #[trigger] self.importer.named_imports@[i]).imported_as == s,
    {
        let (i, e, s, path, exports) = self.world(callable, owns).law_nothing_else_is_initialized(
            *self.importer,
            self.importer_wrapped(),
            rec,
            importee,
            Set::empty(),
            self.tables().module_count(),
            Credit::Least,
            t,
        );
        if e >= 0 {
            assert(self.metas@[importee as int].resolved_exports@[e].symbol_ref == s);
        } else {
            assert(self.importer.named_imports@[i].imported_as == s);
        }
        s
    }

    /// For an `export *`, and for an import of the whole namespace, the owners of what all exports
    /// stand for are called, as far as they can be.
    pub proof fn law_owners_of_all_exports_are_called(
        self,
        rec: ImportRecordIdx,
        callable: Seq<bool>,
        owns: Seq<bool>,
        importee: ModuleIdx,
        i: int,
        e: int,
    )
        requires
            self.wf(),
            rec < self.importer.import_records@.len(),
            self.importer.import_records@[rec as int].resolved_module == Some(importee),
            self.looks_behind(callable, owns, importee),
            self.importer.import_records@[rec as int].meta.is_export_star || (0 <= i
                < self.importer.named_imports@.len() && self.importer.named_imports@[i].record_idx
                == rec && self.importer.named_imports@[i].imported is Star),
            0 <= e < self.metas@[importee as int].resolved_exports@.len(),
            ({
                let s = self.metas@[importee as int].resolved_exports@[e].symbol_ref;
                callable[self.symbol_db.links@[s.owner as int]@[s.symbol as int].resolving_namespace.owner as int]
            }),
        ensures
            ({
                let s = self.metas@[importee as int].resolved_exports@[e].symbol_ref;
                self.init_targets(rec, callable, owns).contains(
                    self.symbol_db.links@[s.owner as int]@[s.symbol as int].resolving_namespace.owner,
                )
            }),
    {
        let s = self.metas@[importee as int].resolved_exports@[e].symbol_ref;
        let end = self.symbol_db.links@[s.owner as int]@[s.symbol as int].resolving_namespace;
        self.world(callable, owns).law_all_exports_are_initialized(
            *self.importer,
            self.importer_wrapped(),
            rec,
            importee,
            Set::empty(),
            self.tables().module_count(),
            Credit::Least,
            i,
            e,
            seq![end],
            Seq::empty(),
        );
    }

    /// An import of a module that can be called, and that has an order wrapper or that interop
    /// wraps, calls it and nothing else. An import of what was not resolved calls nothing.
    pub proof fn law_callable_importees_alone_are_called(
        self,
        rec: ImportRecordIdx,
        callable: Seq<bool>,
        owns: Seq<bool>,
    )
        ensures
            self.importer.import_records@[rec as int].resolved_module matches Some(importee) ==> (
            callable[importee as int] && ((importee < self.order_wrap_state.order_wrappers@.len()
                && self.order_wrap_state.order_wrappers@[importee as int] is Some)
                || self.metas@[importee as int].wrap_kind != WrapKind::Unwrapped)
                ==> self.init_targets(rec, callable, owns) == seq![importee]),
            self.importer.import_records@[rec as int].resolved_module is None
                ==> self.init_targets(rec, callable, owns) == Seq::<ModuleIdx>::empty(),
    {
    }

    /// Without strict execution order, a kept, unwrapped importee without an order wrapper that owns
    /// the initialization of what it forwards is left everything. With it, it is if none of its
    /// source statements with a static import was dropped.
    pub proof fn law_owning_importees_are_left_everything(
        self,
        rec: ImportRecordIdx,
        callable: Seq<bool>,
        owns: Seq<bool>,
        importee: ModuleIdx,
    )
        requires
            self.importer.import_records@[rec as int].resolved_module == Some(importee),
            importee < self.modules@.len(),
            !(importee < self.order_wrap_state.order_wrappers@.len()
                && self.order_wrap_state.order_wrappers@[importee as int] is Some),
            self.metas@[importee as int].wrap_kind == WrapKind::Unwrapped,
            self.metas@[importee as int].is_included,
            owns[importee as int],
            !self.strict_execution_order || (self.modules@[importee as int] matches Module::Normal(
                module,
            ) ==> forall|s: int, r: int|
                #![trigger self.stmt_infos@[importee as int].infos@[s].import_records@[r]]
                {
                    &&& 1 <= s < self.stmt_infos@[importee as int].infos@.len()
                    &&& 0 <= r < self.stmt_infos@[importee as int].infos@[s].import_records@.len()
                    &&& module.import_records@[self.stmt_infos@[importee as int].infos@[s].import_records@[r] as int].kind
                        == ImportKind::Import
                } ==> 0 <= s < self.metas@[importee as int].stmt_info_included@.len()
                    && self.metas@[importee as int].stmt_info_included@[s]),
        ensures
            self.init_targets(rec, callable, owns) == Seq::<ModuleIdx>::empty(),
    {
        self.world(callable, owns).law_forwarders_are_left_everything(
            *self.importer,
            self.importer_wrapped(),
            rec,
            importee,
            Set::empty(),
            self.tables().module_count(),
            Credit::Least,
        );
    }

    /// With strict execution order, and where such a statement was dropped, the importee is left
    /// only what it calls itself: of what the importer would call otherwise, it calls the rest.
    pub proof fn law_partly_dropped_importees_are_left_what_they_call(
        self,
        rec: ImportRecordIdx,
        callable: Seq<bool>,
        owns: Seq<bool>,
        importee: ModuleIdx,
        s: int,
        r: int,
        t: ModuleIdx,
    )
        requires
            self.wf(),
            callable.len() == self.modules@.len(),
            owns.len() == self.modules@.len(),
            rec < self.importer.import_records@.len(),
            self.importer.import_records@[rec as int].resolved_module == Some(importee),
            self.strict_execution_order,
            self.modules@[importee as int] matches Module::Normal(module) && {
                &&& 1 <= s < self.stmt_infos@[importee as int].infos@.len()
                &&& 0 <= r < self.stmt_infos@[importee as int].infos@[s].import_records@.len()
                &&& module.import_records@[self.stmt_infos@[importee as int].infos@[s].import_records@[r] as int].kind
                    == ImportKind::Import
                &&& !(0 <= s < self.metas@[importee as int].stmt_info_included@.len()
                    && self.metas@[importee as int].stmt_info_included@[s])
            },
            self.init_targets(
                rec,
                callable,
                Seq::new(owns.len(), |m: int| m != importee && owns[m]),
            ).contains(t),
        ensures
            self.init_targets(rec, callable, owns).contains(t) || self.world(
                callable,
                owns,
            ).emits(importee, t),
    {
        let world = self.world(callable, owns);
        let others = Seq::new(owns.len(), |m: int| m != importee && owns[m]);
        let other = self.world(callable, others);
        other.law_targets_are_wanted(
            *self.importer,
            self.importer_wrapped(),
            rec,
            Set::empty(),
            self.tables().module_count(),
            Credit::Least,
            t,
        );
        world.lemma_wants_the_same(other, *self.importer, self.importer_wrapped(), rec);
        world.law_forwarders_are_left_what_they_call(
            *self.importer,
            self.importer_wrapped(),
            rec,
            importee,
            s,
            r,
            t,
        );
    }
}

impl InitWorld {
    /// What a record brings in needs the same `init_*` functions, whoever owns the initialization.
    proof fn lemma_wants_the_same(
        self,
        other: InitWorld,
        importer: NormalModule,
        importer_wrapped: bool,
        rec: ImportRecordIdx,
    )
        requires
            other == (InitWorld { owns: other.owns, ..self }),
        ensures
            other.wanted(importer, importer_wrapped, rec) == self.wanted(
                importer,
                importer_wrapped,
                rec,
            ),
    {
        assert forall|symbols: Seq<SymbolRef>| #[trigger]
            other.canonical_keys(symbols) == self.canonical_keys(symbols) by {
            assert(other.canonical_keys(symbols) =~= self.canonical_keys(symbols));
        }
        let mine = self.symbol_graph(importer_wrapped);
        let others = other.symbol_graph(importer_wrapped);
        assert(mine.succ =~= others.succ);
        assert(mine == others);
        assert forall|order: Seq<(ModuleIdx, usize)>| #[trigger]
            other.owners_to_init(order) == self.owners_to_init(order) by {
            assert((|key: (ModuleIdx, usize)| other.is_callable(key.0)) =~= (|
                key: (ModuleIdx, usize),
            | self.is_callable(key.0)));
        }
    }
}

proof fn lemma_exported_symbol(exports: Seq<ResolvedExport>, e: int, otherwise: SymbolRef)
    requires
        0 <= e < exports.len(),
        forall|j: int, k: int|
            0 <= j < k < exports.len() ==> (#[trigger] exports[j]).name@ != (
            #[trigger] exports[k]).name@,
    ensures
        init_targets::exported_symbol(exports, exports[e].name@, otherwise)
            == exports[e].symbol_ref,
{
    let name = exports[e].name@;
    let k = choose|k: int| 0 <= k < exports.len() && (#[trigger] exports[k]).name@ == name;
    assert(exports[k].name@ == name);
    assert(k == e);
}

} // verus!
