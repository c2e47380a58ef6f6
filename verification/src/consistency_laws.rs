//! What the checks of consistency ask for.

use rustc_hash::FxHashSet;
use vstd::prelude::*;

use crate::chunk_cycles;
use crate::chunks::{ChunkGraph, ChunkIdx};
use crate::link::{
    LinkStageOutput, LinkingMetadata, ModuleIdx, NormalModule, StmtInfo, SymbolOrMemberExprRef,
    SymbolRef, SymbolRefDb,
};

verus! {

impl SymbolRefDb {
    /// A table of symbols is refused only if it does not have one list for each module, or if a
    /// symbol leads to one that is not there.
    pub proof fn law_which_symbols_are_refused(self, module_count: nat) -> (found: (int, int))
        requires
            !self.wf(module_count),
            self.links@.len() == module_count,
        ensures
            0 <= found.0 < self.links@.len(),
            0 <= found.1 < self.links@[found.0]@.len(),
            ({
                let link = self.links@[found.0]@[found.1];
                ||| link.canonical.owner >= self.links@.len()
                ||| link.canonical.symbol >= self.links@[link.canonical.owner as int]@.len()
                ||| link.resolving_namespace.owner >= self.links@.len()
                ||| link.resolving_namespace.symbol
                    >= self.links@[link.resolving_namespace.owner as int]@.len()
            }),
    {
        let s = choose|s: SymbolRef|
            #![trigger self.link(s)]
            self.holds(s) && !(self.holds(self.link(s).canonical) && self.holds(
                self.link(s).resolving_namespace,
            ));
        (s.owner as int, s.symbol as int)
    }
}

impl NormalModule {
    /// A module is refused only if an import leads out of the module table, or if a name is bound to
    /// a symbol that is not there.
    pub proof fn law_which_modules_are_refused(self, module_count: nat, db: SymbolRefDb) -> (found:
        int)
        requires
            !self.wf(module_count, db),
        ensures
            ({
                ||| 0 <= found < self.import_records@.len()
                    && self.import_records@[found].resolved_module is Some
                    && self.import_records@[found].resolved_module->0 >= module_count
                ||| 0 <= found < self.named_imports@.len() && {
                    let s = self.named_imports@[found].imported_as;
                    s.owner >= db.links@.len() || s.symbol >= db.links@[s.owner as int]@.len()
                }
            }),
    {
        if exists|k: int|
            #![trigger self.import_records@[k]]
            0 <= k < self.import_records@.len() && self.import_records@[k].resolved_module is Some
                && self.import_records@[k].resolved_module->0 >= module_count {
            choose|k: int|
                #![trigger self.import_records@[k]]
                0 <= k < self.import_records@.len()
                    && self.import_records@[k].resolved_module is Some
                    && self.import_records@[k].resolved_module->0 >= module_count
        } else {
            choose|k: int|
                0 <= k < self.named_imports@.len() && !db.holds(
                    (#[trigger] self.named_imports@[k]).imported_as,
                )
        }
    }

    /// Statements are refused only if one refers to an import or to a symbol that is not there.
    pub proof fn law_which_statements_are_refused(
        self,
        stmts: Seq<StmtInfo>,
        db: SymbolRefDb,
    ) -> (found: (int, int))
        requires
            !self.stmts_wf(stmts, db),
        ensures
            0 <= found.0 < stmts.len(),
            ({
                let stmt = stmts[found.0];
                ||| 0 <= found.1 < stmt.import_records@.len() && stmt.import_records@[found.1]
                    >= self.import_records@.len()
                ||| 0 <= found.1 < stmt.referenced_symbols@.len() && {
                    let s = match stmt.referenced_symbols@[found.1] {
                        SymbolOrMemberExprRef::Symbol(symbol_ref) => symbol_ref,
                        SymbolOrMemberExprRef::MemberExpr(member) => member.object_ref,
                    };
                    s.owner >= db.links@.len() || s.symbol >= db.links@[s.owner as int]@.len()
                }
            }),
    {
        if exists|s: int, r: int|
            0 <= s < stmts.len() && 0 <= r < stmts[s].import_records@.len() && (
            #[trigger] stmts[s].import_records@[r]) >= self.import_records@.len() {
            choose|s: int, r: int|
                0 <= s < stmts.len() && 0 <= r < stmts[s].import_records@.len() && (
                #[trigger] stmts[s].import_records@[r]) >= self.import_records@.len()
        } else {
            choose|s: int, r: int|
                0 <= s < stmts.len() && 0 <= r < stmts[s].referenced_symbols@.len() && !(match (
                #[trigger] stmts[s].referenced_symbols@[r]) {
                    SymbolOrMemberExprRef::Symbol(symbol_ref) => db.holds(symbol_ref),
                    SymbolOrMemberExprRef::MemberExpr(member) => db.holds(member.object_ref),
                })
        }
    }
}

impl LinkingMetadata {
    /// Exports are refused only if the symbol of one is not there, or if two have the same name.
    pub proof fn law_which_exports_are_refused(self, db: SymbolRefDb) -> (found: (int, int))
        requires
            !self.exports_wf(db),
        ensures
            ({
                ||| 0 <= found.0 < self.resolved_exports@.len() && {
                    let s = self.resolved_exports@[found.0].symbol_ref;
                    s.owner >= db.links@.len() || s.symbol >= db.links@[s.owner as int]@.len()
                }
                ||| 0 <= found.0 < found.1 < self.resolved_exports@.len()
                    && self.resolved_exports@[found.0].name@
                    == self.resolved_exports@[found.1].name@
            }),
    {
        if exists|k: int|
            0 <= k < self.resolved_exports@.len() && !db.holds(
                (#[trigger] self.resolved_exports@[k]).symbol_ref,
            ) {
            let k = choose|k: int|
                0 <= k < self.resolved_exports@.len() && !db.holds(
                    (#[trigger] self.resolved_exports@[k]).symbol_ref,
                );
            (k, k)
        } else {
            choose|j: int, k: int|
                0 <= j < k < self.resolved_exports@.len() && (
                #[trigger] self.resolved_exports@[j]).name@ == (
                #[trigger] self.resolved_exports@[k]).name@
        }
    }
}

impl LinkStageOutput {
    /// Where the tables have an entry for each module, and the symbols are consistent, the tables are
    /// refused only for an entry that is not in the module table, or for a module: it does not tell
    /// of each statement whether it was kept, its exports or the resolutions of its member
    /// expressions are refused, or it is bundled and stands in the wrong place, is refused itself, or
    /// has statements that are.
    pub proof fn law_which_tables_are_refused(self) -> (m: ModuleIdx)
        requires
            !self.wf(),
            self.metas@.len() == self.module_table.modules@.len(),
            self.stmt_infos@.len() == self.module_table.modules@.len(),
            self.symbol_db.wf(self.module_table.modules@.len()),
        ensures
            ({
                let n = self.module_table.modules@.len();
                ||| self.entries@.contains(m) && m >= n
                ||| m < n && {
                    ||| self.metas@[m as int].stmt_info_included@.len()
                        != self.stmt_infos@[m as int].infos@.len()
                    ||| !self.metas@[m as int].exports_wf(self.symbol_db)
                    ||| !self.metas@[m as int].resolutions_wf(self.symbol_db)
                    ||| self.module_table.modules@[m as int] is Normal && {
                        let module = self.module_table.modules@[m as int]->Normal_0;
                        ||| module.idx != m
                        ||| !module.wf(n, self.symbol_db)
                        ||| !module.stmts_wf(self.stmt_infos@[m as int].infos@, self.symbol_db)
                    }
                }
            }),
    {
        assert(self.module_table.modules@.len() == self.module_table.modules.len());
        if self.tables().wf() {
            let k = choose|k: int|
                0 <= k < self.entries@.len() && (#[trigger] self.entries@[k])
                    >= self.module_count();
            assert(self.entries@.contains(self.entries@[k]));
            self.entries@[k]
        } else {
            choose|m: ModuleIdx| m < self.module_count() && !#[trigger] self.tables().module_wf(m)
        }
    }
}

impl ChunkGraph {
    /// Where the chunks tell of each module where it is, they are refused only if a module is in a
    /// chunk that is not there, if a chunk holds a module that is not there, or if an entry has such a
    /// chunk.
    pub proof fn law_which_chunks_are_refused(self, module_count: nat) -> (found: (int, int))
        requires
            !self.wf(module_count),
            self.module_to_chunk@.len() == module_count,
            self.module_in_live_chunk@.len() == module_count,
        ensures
            ({
                ||| 0 <= found.0 < module_count && self.module_to_chunk@[found.0] is Some
                    && self.module_to_chunk@[found.0]->0 >= self.chunk_table@.len()
                ||| 0 <= found.0 < self.chunk_table@.len() && 0 <= found.1
                    < self.chunk_table@[found.0].modules@.len()
                    && self.chunk_table@[found.0].modules@[found.1] >= module_count
                ||| exists|m: ModuleIdx| #[trigger]
                    self.entry_module_to_entry_chunk@.contains_key(m)
                        && self.entry_module_to_entry_chunk@[m] >= self.chunk_table@.len()
            }),
    {
        if exists|m: int|
            #![trigger self.module_to_chunk@[m]]
            0 <= m < module_count && self.module_to_chunk@[m] is Some
                && self.module_to_chunk@[m]->0 >= self.chunk_table@.len() {
            let m = choose|m: int|
                #![trigger self.module_to_chunk@[m]]
                0 <= m < module_count && self.module_to_chunk@[m] is Some
                    && self.module_to_chunk@[m]->0 >= self.chunk_table@.len();
            (m, 0)
        } else if exists|c: int, k: int|
            0 <= c < self.chunk_table@.len() && 0 <= k < self.chunk_table@[c].modules@.len() && (
            #[trigger] self.chunk_table@[c].modules@[k]) >= module_count {
            choose|c: int, k: int|
                0 <= c < self.chunk_table@.len() && 0 <= k < self.chunk_table@[c].modules@.len()
                    && (#[trigger] self.chunk_table@[c].modules@[k]) >= module_count
        } else {
            (0, 0)
        }
    }
}

/// Imports between chunks are refused only if one leads to a chunk that is not there.
pub proof fn law_which_imports_are_refused(import_edges: Seq<FxHashSet<ChunkIdx>>) -> (found: (
    ChunkIdx,
    ChunkIdx,
))
    requires
        !chunk_cycles::imports_wf(import_edges),
    ensures
        found.0 < import_edges.len(),
        import_edges[found.0 as int]@.contains(found.1),
        found.1 >= import_edges.len(),
{
    choose|a: ChunkIdx, b: ChunkIdx| #[trigger]
        chunk_cycles::imports(import_edges)(a, b) && b >= import_edges.len()
}

} // verus!
