//! The generate stage, and what it asks of a single module.

use vstd::prelude::*;

use crate::link::{
    ExportsKind, ImportKind, ImportRecordIdx, LinkStageOutput, ModuleIdx, StmtInfo, WrapKind,
    NAMESPACE_STMT_IDX,
};

verus! {

/// The options that decide how execution order is kept.
#[derive(Debug, Clone, Copy, PartialEq, Eq, Structural)]
pub struct BundlerOptions {
    /// `output.strictExecutionOrder`.
    pub strict_execution_order: bool,
    /// `experimental.onDemandWrapping`.
    pub on_demand_wrapping: bool,
}

/// The stage that turns the linked modules into chunks.
#[derive(Debug, Clone, Copy)]
pub struct GenerateStage<'a> {
    pub link_output: &'a LinkStageOutput,
    pub options: &'a BundlerOptions,
}

impl<'a> GenerateStage<'a> {
    /// Whether evaluating the module at another moment could be noticed.
    pub fn is_order_sensitive(&self, module_idx: ModuleIdx) -> (sensitive: bool)
        requires
            self.link_output.wf(),
            module_idx < self.link_output.module_count(),
        ensures
            sensitive == self.link_output.order_sensitive(module_idx),
    {
        if module_idx == self.link_output.runtime.id {
            return false;
        }
        let module = match self.link_output.module_table.modules[module_idx].as_normal() {
            Some(module) => module,
            None => return false,
        };
        if !self.link_output.metas[module_idx].is_included {
            return false;
        }
        module.meta.execution_order_sensitive || self.eagerly_triggers_interop_module(module_idx)
    }

    /// Whether evaluating the module runs the wrapper of an interop module. A retained static
    /// import of an interop module runs its wrapper inside the importer; a `require` in a function
    /// body runs it only when the function is called.
    pub fn eagerly_triggers_interop_module(&self, module_idx: ModuleIdx) -> (triggers: bool)
        requires
            self.link_output.wf(),
            module_idx < self.link_output.module_count(),
        ensures
            triggers == self.link_output.triggers_interop(module_idx),
    {
        let link = self.link_output;
        let module = match link.module_table.modules[module_idx].as_normal() {
            Some(module) => module,
            None => return false,
        };
        let meta = &link.metas[module_idx];
        if !meta.is_included {
            return false;
        }
        assert(link.tables().module_wf(module_idx));
        let stmts: &Vec<StmtInfo> = &link.stmt_infos[module_idx].infos;
        let mut s: usize = NAMESPACE_STMT_IDX + 1;
        while s < stmts.len()
            invariant
                link == self.link_output,
                link.wf(),
                module_idx < link.module_count(),
                link.tables().module_wf(module_idx),
                link.is_normal(module_idx),
                link.included(module_idx),
                *module == link.normal(module_idx),
                *meta == link.meta(module_idx),
                stmts@ == link.stmts(module_idx),
                NAMESPACE_STMT_IDX < s,
                forall|p: int, r: int|
                    NAMESPACE_STMT_IDX < p < s && p < stmts@.len() && meta.keeps_stmt(p) && 0 <= r
                        < stmts@[p].import_records@.len() ==> !link.runs_wrapper(
                        module.import_records@[#[trigger] stmts@[p].import_records@[r] as int],
                    ),
            decreases stmts.len() - s,
        {
            if meta.stmt_info_included[s] {
                let records: &Vec<ImportRecordIdx> = &stmts[s].import_records;
                let mut r: usize = 0;
                while r < records.len()
                    invariant
                        link == self.link_output,
                        link.wf(),
                        module_idx < link.module_count(),
                        link.tables().module_wf(module_idx),
                        link.is_normal(module_idx),
                        link.included(module_idx),
                        *module == link.normal(module_idx),
                        *meta == link.meta(module_idx),
                        stmts@ == link.stmts(module_idx),
                        NAMESPACE_STMT_IDX < s < stmts@.len(),
                        meta.keeps_stmt(s as int),
                        records@ == stmts@[s as int].import_records@,
                        r <= records@.len(),
                        forall|q: int|
                            0 <= q < r ==> !link.runs_wrapper(
                                module.import_records@[#[trigger] records@[q] as int],
                            ),
                    decreases records.len() - r,
                {
                    assert(stmts@[s as int].import_records@[r as int] < module.import_records@.len());
                    let record = &module.import_records[records[r]];
                    if record.kind == ImportKind::Import {
                        if let Some(importee_idx) = record.resolved_module {
                            if link.module_table.modules[importee_idx].is_normal()
                                && link.metas[importee_idx].wrap_kind != WrapKind::Unwrapped {
                                assert(link.runs_wrapper(
                                    link.records(module_idx)[link.stmts(
                                        module_idx,
                                    )[s as int].import_records@[r as int] as int],
                                ));
                                return true;
                            }
                        }
                    }
                    r = r + 1;
                }
            }
            s = s + 1;
        }
        false
    }

    /// Whether the module can be given an order wrapper.
    pub fn is_order_wrap_eligible(&self, module_idx: ModuleIdx) -> (eligible: bool)
        requires
            self.link_output.wf(),
            module_idx < self.link_output.module_count(),
        ensures
            eligible == self.link_output.wrap_eligible(module_idx),
    {
        if module_idx == self.link_output.runtime.id {
            return false;
        }
        if !self.link_output.metas[module_idx].is_included {
            return false;
        }
        let module = match self.link_output.module_table.modules[module_idx].as_normal() {
            Some(module) => module,
            None => return false,
        };
        matches!(module.exports_kind, ExportsKind::Esm | ExportsKind::Unknown)
            && self.link_output.metas[module_idx].wrap_kind == WrapKind::Unwrapped
    }
}

} // verus!
