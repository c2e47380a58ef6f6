//! What is asked of a single module, and how modules lead to each other, read off the link tables.

use vstd::prelude::*;

use crate::link;
use crate::link::{
    ExportsKind, ImportKind, LinkStageOutput, Module, ModuleIdx, SymbolOrMemberExprRef, SymbolRef,
    WrapKind,
};
use crate::reach;

verus! {

impl LinkStageOutput {
    /// An order wrapper can be given to exactly the kept, bundled modules that are written as ESM,
    /// or say nothing about their exports, and that have no wrapper of another kind. The runtime
    /// never gets one.
    pub proof fn law_who_can_be_wrapped(self, m: ModuleIdx)
        requires
            self.wf(),
            m < self.module_table.modules@.len(),
        ensures
            self.wrap_eligible(m) <==> {
                &&& m != self.runtime.id
                &&& self.metas@[m as int].is_included
                &&& self.metas@[m as int].wrap_kind == WrapKind::Unwrapped
                &&& self.module_table.modules@[m as int] matches Module::Normal(module) && (
                module.exports_kind == ExportsKind::Esm || module.exports_kind
                    == ExportsKind::Unknown)
            },
    {
    }

    /// The moment at which a kept, bundled module other than the runtime runs matters if its source
    /// says so, or if one of its kept source statements statically imports a bundled module that
    /// interop wraps, in either way. It matters for no other module.
    pub proof fn law_whose_moment_matters(self, m: ModuleIdx)
        requires
            self.wf(),
            m < self.module_table.modules@.len(),
        ensures
            self.order_sensitive(m) <==> {
                &&& m != self.runtime.id
                &&& self.metas@[m as int].is_included
                &&& self.module_table.modules@[m as int] matches Module::Normal(module) && (
                module.meta.execution_order_sensitive || exists|s: int, r: int|
                    #![trigger self.stmt_infos@[m as int].infos@[s].import_records@[r]]
                    {
                        let rec = self.stmt_infos@[m as int].infos@[s].import_records@[r];
                        &&& 1 <= s < self.stmt_infos@[m as int].infos@.len()
                        &&& self.metas@[m as int].stmt_info_included@[s]
                        &&& 0 <= r < self.stmt_infos@[m as int].infos@[s].import_records@.len()
                        &&& module.import_records@[rec as int].kind == ImportKind::Import
                        &&& module.import_records@[rec as int].resolved_module matches Some(i) && {
                            &&& self.module_table.modules@[i as int] is Normal
                            &&& self.metas@[i as int].wrap_kind == WrapKind::Cjs
                                || self.metas@[i as int].wrap_kind == WrapKind::Esm
                        }
                    })
            },
    {
        assert(self.tables().module_wf(m));
        if self.module_table.modules@[m as int] is Normal {
            let module = self.module_table.modules@[m as int]->Normal_0;
            if self.triggers_interop(m) {
                let (s, r) = choose|s: int, r: int|
                    #![trigger self.stmts(m)[s].import_records@[r]]
                    {
                        &&& link::NAMESPACE_STMT_IDX < s < self.stmts(m).len()
                        &&& self.meta(m).keeps_stmt(s)
                        &&& 0 <= r < self.stmts(m)[s].import_records@.len()
                        &&& self.runs_wrapper(
                            self.records(m)[self.stmts(m)[s].import_records@[r] as int],
                        )
                    };
                let rec = self.stmt_infos@[m as int].infos@[s].import_records@[r];
                assert(self.runs_wrapper(module.import_records@[rec as int]));
            }
            if exists|s: int, r: int|
                #![trigger self.stmt_infos@[m as int].infos@[s].import_records@[r]]
                {
                    let rec = self.stmt_infos@[m as int].infos@[s].import_records@[r];
                    &&& 1 <= s < self.stmt_infos@[m as int].infos@.len()
                    &&& self.metas@[m as int].stmt_info_included@[s]
                    &&& 0 <= r < self.stmt_infos@[m as int].infos@[s].import_records@.len()
                    &&& module.import_records@[rec as int].kind == ImportKind::Import
                    &&& module.import_records@[rec as int].resolved_module matches Some(i) && {
                        &&& self.module_table.modules@[i as int] is Normal
                        &&& self.metas@[i as int].wrap_kind == WrapKind::Cjs
                            || self.metas@[i as int].wrap_kind == WrapKind::Esm
                    }
                } {
                let (s, r) = choose|s: int, r: int|
                    #![trigger self.stmt_infos@[m as int].infos@[s].import_records@[r]]
                    {
                        let rec = self.stmt_infos@[m as int].infos@[s].import_records@[r];
                        &&& 1 <= s < self.stmt_infos@[m as int].infos@.len()
                        &&& self.metas@[m as int].stmt_info_included@[s]
                        &&& 0 <= r < self.stmt_infos@[m as int].infos@[s].import_records@.len()
                        &&& module.import_records@[rec as int].kind == ImportKind::Import
                        &&& module.import_records@[rec as int].resolved_module matches Some(i) && {
                            &&& self.module_table.modules@[i as int] is Normal
                            &&& self.metas@[i as int].wrap_kind == WrapKind::Cjs
                                || self.metas@[i as int].wrap_kind == WrapKind::Esm
                        }
                    };
                let rec = self.stmts(m)[s].import_records@[r];
                assert(rec < module.import_records@.len());
                let importee = module.import_records@[rec as int].resolved_module->0;
                assert(importee < self.module_count());
                assert(self.runs_wrapper(self.records(m)[rec as int]));
            }
        }
    }

    /// Each module of the path is bundled and has a static import of the next one, in the record at
    /// the same position of `records`.
    pub open spec fn import_path(self, path: Seq<ModuleIdx>, records: Seq<int>) -> bool {
        &&& path.len() == records.len() + 1
        &&& forall|i: int|
            #![trigger records[i]]
            0 <= i < records.len() ==> {
                &&& path[i] < self.module_table.modules@.len()
                &&& self.module_table.modules@[path[i] as int] matches Module::Normal(module) && {
                    &&& 0 <= records[i] < module.import_records@.len()
                    &&& module.import_records@[records[i]].kind == ImportKind::Import
                    &&& module.import_records@[records[i]].resolved_module == Some(path[i + 1])
                }
            }
    }

    /// A path along static imports is a path of the graphs that the analyses walk.
    pub proof fn lemma_import_path_reaches(self, path: Seq<ModuleIdx>, records: Seq<int>)
        requires
            self.wf(),
            self.import_path(path, records),
        ensures
            reach::reaches(self.static_edge(), path[0], path.last()),
            self.is_normal(path.last()) ==> self.source_reaches(path[0], path.last()),
    {
        let static_edge = self.static_edge();
        let source_edge = self.source_graph().edge();
        assert forall|i: int, j: int| 0 <= i && j == i + 1 && j < path.len() implies static_edge(
            #[trigger] path[i],
            #[trigger] path[j],
        ) by {
            assert(0 <= records[i] < self.records(path[i]).len());
            assert(self.static_target(self.records(path[i])[records[i]]) == Some(path[j]));
        }
        assert(reach::is_path(static_edge, path));
        if self.is_normal(path.last()) {
            assert forall|i: int, j: int|
                0 <= i && j == i + 1 && j < path.len() implies source_edge(
                #[trigger] path[i],
                #[trigger] path[j],
            ) by {
                assert(0 <= records[i] < self.records(path[i]).len());
                if j < records.len() {
                    assert(0 <= records[j]);
                } else {
                    assert(path[j] == path.last());
                }
                assert(self.is_normal(path[j]));
                assert(self.source_target(self.records(path[i])[records[i]]) == Some(path[j]));
                self.lemma_source_edge(path[i], path[j]);
            }
            assert(reach::is_path(source_edge, path));
        }
    }

    /// The graph of the source has no other paths.
    pub proof fn lemma_source_reaches_path(self, a: ModuleIdx, b: ModuleIdx) -> (found: (
        Seq<ModuleIdx>,
        Seq<int>,
    ))
        requires
            self.wf(),
            self.source_reaches(a, b),
        ensures
            self.import_path(found.0, found.1),
            found.0[0] == a,
            found.0.last() == b,
    {
        let edge = self.source_graph().edge();
        let path = choose|path: Seq<ModuleIdx>|
            #[trigger] reach::is_path(edge, path) && path[0] == a && path.last() == b;
        let records = Seq::new(
            (path.len() - 1) as nat,
            |i: int|
                choose|k: int|
                    0 <= k < self.records(path[i]).len() && self.source_target(
                        #[trigger] self.records(path[i])[k],
                    ) == Some(path[i + 1]),
        );
        assert forall|i: int| #![trigger records[i]] 0 <= i < records.len() implies {
            &&& path[i] < self.module_table.modules@.len()
            &&& self.module_table.modules@[path[i] as int] matches Module::Normal(module) && {
                &&& 0 <= records[i] < module.import_records@.len()
                &&& module.import_records@[records[i]].kind == ImportKind::Import
                &&& module.import_records@[records[i]].resolved_module == Some(path[i + 1])
            }
        } by {
            assert(edge(path[i], path[i + 1]));
            self.lemma_source_edge(path[i], path[i + 1]);
            let k = choose|k: int|
                0 <= k < self.records(path[i]).len() && self.source_target(
                    #[trigger] self.records(path[i])[k],
                ) == Some(path[i + 1]);
            assert(self.source_target(self.records(path[i])[records[i]]) == Some(path[i + 1]));
        }
        (path, records)
    }

    /// Static imports lead nowhere else, whether or not their targets are bundled.
    pub proof fn lemma_static_reaches_path(self, a: ModuleIdx, b: ModuleIdx) -> (found: (
        Seq<ModuleIdx>,
        Seq<int>,
    ))
        requires
            self.wf(),
            reach::reaches(self.static_edge(), a, b),
        ensures
            self.import_path(found.0, found.1),
            found.0[0] == a,
            found.0.last() == b,
    {
        let edge = self.static_edge();
        let path = choose|path: Seq<ModuleIdx>|
            #[trigger] reach::is_path(edge, path) && path[0] == a && path.last() == b;
        let records = Seq::new(
            (path.len() - 1) as nat,
            |i: int|
                choose|k: int|
                    0 <= k < self.records(path[i]).len() && self.static_target(
                        #[trigger] self.records(path[i])[k],
                    ) == Some(path[i + 1]),
        );
        assert forall|i: int| #![trigger records[i]] 0 <= i < records.len() implies {
            &&& path[i] < self.module_table.modules@.len()
            &&& self.module_table.modules@[path[i] as int] matches Module::Normal(module) && {
                &&& 0 <= records[i] < module.import_records@.len()
                &&& module.import_records@[records[i]].kind == ImportKind::Import
                &&& module.import_records@[records[i]].resolved_module == Some(path[i + 1])
            }
        } by {
            assert(edge(path[i], path[i + 1]));
            assert(self.imports_statically(path[i], path[i + 1]));
            let k = choose|k: int|
                0 <= k < self.records(path[i]).len() && self.static_target(
                    #[trigger] self.records(path[i])[k],
                ) == Some(path[i + 1]);
            assert(self.static_target(self.records(path[i])[records[i]]) == Some(path[i + 1]));
        }
        (path, records)
    }

    /// Reading a symbol touches the owner of the symbol, the owner of the symbol that it stands for,
    /// and the owners of all symbols that either is exported through. It touches nothing else.
    pub proof fn law_what_a_symbol_touches(self, symbol_ref: SymbolRef, members: Set<ModuleIdx>)
        ensures
            ({
                let canonical = self.symbol_db.links@[symbol_ref.owner as int]@[symbol_ref.symbol as int].canonical;
                let chains = self.normal_symbol_exports_chain_map@;
                self.symbol_touches(symbol_ref, members) <==> {
                    ||| members.contains(symbol_ref.owner)
                    ||| members.contains(canonical.owner)
                    ||| exists|k: int|
                        chains.contains_key((symbol_ref.owner, symbol_ref.symbol)) && 0 <= k
                            < chains[(symbol_ref.owner, symbol_ref.symbol)]@.len()
                            && members.contains(
                            (#[trigger] chains[(symbol_ref.owner, symbol_ref.symbol)]@[k]).owner,
                        )
                    ||| exists|k: int|
                        chains.contains_key((canonical.owner, canonical.symbol)) && 0 <= k
                            < chains[(canonical.owner, canonical.symbol)]@.len()
                            && members.contains(
                            (#[trigger] chains[(canonical.owner, canonical.symbol)]@[k]).owner,
                        )
                }
            }),
    {
    }

    /// A reference to a symbol touches what the symbol does. A member expression that was resolved
    /// touches what the symbol that it names and each symbol that it depends on do; one that was not
    /// touches what its object does.
    pub proof fn law_what_a_reference_touches(
        self,
        m: ModuleIdx,
        reference: SymbolOrMemberExprRef,
        members: Set<ModuleIdx>,
    )
        ensures
            reference matches SymbolOrMemberExprRef::Symbol(symbol_ref) ==> (self.reference_touches(
                m,
                reference,
                members,
            ) <==> self.symbol_touches(symbol_ref, members)),
            reference matches SymbolOrMemberExprRef::MemberExpr(member) ==> ({
                let resolutions = self.metas@[m as int].resolved_member_expr_refs@;
                if member.expr < resolutions.len() && resolutions[member.expr as int] is Some {
                    let resolution = resolutions[member.expr as int]->0;
                    self.reference_touches(m, reference, members) <==> {
                        ||| resolution.resolved is Some && self.symbol_touches(
                            resolution.resolved->0,
                            members,
                        )
                        ||| exists|d: int|
                            0 <= d < resolution.depended_refs@.len() && self.symbol_touches(
                                #[trigger] resolution.depended_refs@[d],
                                members,
                            )
                    }
                } else {
                    self.reference_touches(m, reference, members) <==> self.symbol_touches(
                        member.object_ref,
                        members,
                    )
                }
            }),
    {
    }

    /// A kept, bundled module whose top-level code reads imports reads from the members if any
    /// reference of any of its source statements, kept or not, touches one.
    pub proof fn law_whose_reads_count(
        self,
        m: ModuleIdx,
        s: int,
        r: int,
        members: Set<ModuleIdx>,
    )
        requires
            self.wf(),
            m < self.module_table.modules@.len(),
            self.metas@[m as int].is_included,
            self.module_table.modules@[m as int] matches Module::Normal(module)
                && module.meta.top_level_import_read,
            1 <= s < self.stmt_infos@[m as int].infos@.len(),
            0 <= r < self.stmt_infos@[m as int].infos@[s].referenced_symbols@.len(),
            self.reference_touches(
                m,
                self.stmt_infos@[m as int].infos@[s].referenced_symbols@[r],
                members,
            ),
        ensures
            self.reads_member(m, members),
    {
        assert(self.reference_touches(m, self.stmts(m)[s].referenced_symbols@[r], members));
    }

    /// Nothing else is read from the members.
    pub proof fn law_only_such_reads_count(self, m: ModuleIdx, members: Set<ModuleIdx>) -> (found: (
        int,
        int,
    ))
        requires
            self.wf(),
            m < self.module_table.modules@.len(),
            self.reads_member(m, members),
        ensures
            self.metas@[m as int].is_included,
            self.module_table.modules@[m as int] matches Module::Normal(module)
                && module.meta.top_level_import_read,
            1 <= found.0 < self.stmt_infos@[m as int].infos@.len(),
            0 <= found.1 < self.stmt_infos@[m as int].infos@[found.0].referenced_symbols@.len(),
            self.reference_touches(
                m,
                self.stmt_infos@[m as int].infos@[found.0].referenced_symbols@[found.1],
                members,
            ),
    {
        choose|s: int, r: int|
            #![trigger self.stmts(m)[s].referenced_symbols@[r]]
            link::NAMESPACE_STMT_IDX < s < self.stmts(m).len() && 0 <= r < self.stmts(
                m,
            )[s].referenced_symbols@.len() && self.reference_touches(
                m,
                self.stmts(m)[s].referenced_symbols@[r],
                members,
            )
    }

    /// A bundled module imports from the members if any of its execution dependencies is one, and
    /// any of its static imports, at whatever position, leads to one.
    pub proof fn law_whose_imports_count(
        self,
        m: ModuleIdx,
        dependency: int,
        record: int,
        path: Seq<ModuleIdx>,
        records: Seq<int>,
        members: Set<ModuleIdx>,
    )
        requires
            self.wf(),
            m < self.module_table.modules@.len(),
            0 <= dependency < self.metas@[m as int].execution_dependencies@.len(),
            members.contains(self.metas@[m as int].execution_dependencies@[dependency]),
            self.module_table.modules@[m as int] matches Module::Normal(module) && {
                &&& 0 <= record < module.import_records@.len()
                &&& module.import_records@[record].kind == ImportKind::Import
                &&& module.import_records@[record].resolved_module == Some(path[0])
            },
            self.import_path(path, records),
            members.contains(path.last()),
        ensures
            self.imports_member(m, members),
    {
        self.lemma_import_path_reaches(path, records);
        assert(self.static_target(self.records(m)[record]) == Some(path[0]));
        assert(self.leads_to_member(path[0], members));
        assert(members.contains(self.meta(m).execution_dependencies@[dependency]));
    }

    /// No other module imports from the members.
    pub proof fn law_only_such_imports_count(self, m: ModuleIdx, members: Set<ModuleIdx>) -> (found:
        (int, int, Seq<ModuleIdx>, Seq<int>))
        requires
            self.wf(),
            m < self.module_table.modules@.len(),
            self.imports_member(m, members),
        ensures
            0 <= found.0 < self.metas@[m as int].execution_dependencies@.len(),
            members.contains(self.metas@[m as int].execution_dependencies@[found.0]),
            self.module_table.modules@[m as int] matches Module::Normal(module) && {
                &&& 0 <= found.1 < module.import_records@.len()
                &&& module.import_records@[found.1].kind == ImportKind::Import
                &&& module.import_records@[found.1].resolved_module == Some(found.2[0])
            },
            self.import_path(found.2, found.3),
            members.contains(found.2.last()),
    {
        let d = choose|d: int|
            0 <= d < self.meta(m).execution_dependencies@.len() && members.contains(
                #[trigger] self.meta(m).execution_dependencies@[d],
            );
        let k = choose|k: int|
            0 <= k < self.records(m).len() && (self.static_target(#[trigger] self.records(m)[k])
                matches Some(importee) && self.leads_to_member(importee, members));
        let importee = self.static_target(self.records(m)[k])->0;
        let member = choose|x: ModuleIdx| #[trigger]
            members.contains(x) && reach::reaches(self.static_edge(), importee, x);
        let (path, records) = self.lemma_static_reaches_path(importee, member);
        (d, k, path, records)
    }
}

} // verus!
