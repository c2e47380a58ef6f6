//! What the link stage hands to the analyses: modules, their metadata, statements and symbols.

use rustc_hash::FxHashMap;
use vstd::prelude::*;

use crate::dfs::Digraph;
use crate::indices;
use crate::reach;

verus! {

/// Position of a module in the module table.
pub type ModuleIdx = usize;

/// Position of an import record in its module.
pub type ImportRecordIdx = usize;

/// Position of a statement in its module.
pub type StmtInfoIdx = usize;

/// Position of a symbol in the symbol table of its module.
pub type SymbolId = usize;

/// A symbol, named by the module that owns it.
#[derive(Debug, Clone, Copy, PartialEq, Eq, Structural, Hash)]
pub struct SymbolRef {
    pub owner: ModuleIdx,
    pub symbol: SymbolId,
}

/// How an import record imports.
#[derive(Debug, Clone, Copy, PartialEq, Eq, Structural, Hash)]
pub enum ImportKind {
    /// A static `import` or `export ... from`.
    Import,
    /// `import(...)`.
    DynamicImport,
    /// `require(...)`.
    Require,
    /// `@import` in a style sheet.
    AtImport,
    /// `url(...)` in a style sheet.
    UrlImport,
    /// `new URL(..., import.meta.url)`.
    NewUrl,
    /// `import.meta.hot.accept(...)`.
    HotAccept,
}

/// Flags of an import record.
#[derive(Debug, Clone, Copy, PartialEq, Eq, Structural, Hash)]
pub struct ImportRecordMeta {
    /// `export * from`.
    pub is_export_star: bool,
    /// `export { .. } from`: the bindings are only passed on.
    pub is_re_export_only: bool,
}

/// One import of a module. `resolved_module` is `None` where resolution found nothing to bundle.
#[derive(Debug, Clone, Copy, PartialEq, Eq, Structural, Hash)]
pub struct ImportRecord {
    pub kind: ImportKind,
    pub meta: ImportRecordMeta,
    pub resolved_module: Option<ModuleIdx>,
}

/// What a named import asks for: the whole namespace, or one export by name.
#[derive(Debug)]
pub enum Specifier {
    Star,
    Literal(String),
}

/// One binding that a module imports through the record `record_idx`.
#[derive(Debug)]
pub struct NamedImport {
    pub imported: Specifier,
    pub imported_as: SymbolRef,
    pub record_idx: ImportRecordIdx,
}

/// The module system that a module's exports follow.
#[derive(Debug, Clone, Copy, PartialEq, Eq, Structural, Hash)]
pub enum ExportsKind {
    Esm,
    CommonJs,
    /// The source says nothing about its exports.
    Unknown,
}

/// Facts about a module's source that the scanner found.
#[derive(Debug, Clone, Copy, PartialEq, Eq, Structural, Hash)]
pub struct EcmaViewMeta {
    /// Evaluating the module has an effect whose order matters.
    pub execution_order_sensitive: bool,
    /// Top-level code reads an imported binding.
    pub top_level_import_read: bool,
}

/// A module whose source is bundled.
#[derive(Debug)]
pub struct NormalModule {
    pub idx: ModuleIdx,
    pub exports_kind: ExportsKind,
    pub meta: EcmaViewMeta,
    pub import_records: Vec<ImportRecord>,
    pub named_imports: Vec<NamedImport>,
    pub namespace_object_ref: SymbolRef,
}

/// An entry of the module table.
#[derive(Debug)]
pub enum Module {
    Normal(NormalModule),
    External,
}

/// All modules, by index.
#[derive(Debug)]
pub struct ModuleTable {
    pub modules: Vec<Module>,
}

/// The wrapper that interop puts around a module.
#[derive(Debug, Clone, Copy, PartialEq, Eq, Structural, Hash)]
pub enum WrapKind {
    Unwrapped,
    Cjs,
    Esm,
}

/// The place of a module in a group of wrapped modules that share one wrapper.
#[derive(Debug, Clone, Copy, PartialEq, Eq, Structural, Hash)]
pub enum ConcatenateWrappedModuleKind {
    Separate,
    Root,
    Inner,
}

/// The symbol that an export name of a module resolves to.
#[derive(Debug)]
pub struct ResolvedExport {
    pub name: String,
    pub symbol_ref: SymbolRef,
}

/// A member expression `object.property` in a statement. `expr` is its position among the member
/// expressions of its module.
#[derive(Debug, Clone, Copy, PartialEq, Eq, Structural, Hash)]
pub struct MemberExprRef {
    pub object_ref: SymbolRef,
    pub expr: usize,
}

/// What linking made of a member expression: the symbol it names, if it names one, and the symbols
/// that it depends on.
#[derive(Debug)]
pub struct MemberExprRefResolution {
    pub resolved: Option<SymbolRef>,
    pub depended_refs: Vec<SymbolRef>,
}

/// A reference in a statement.
#[derive(Debug, Clone, Copy, PartialEq, Eq, Structural, Hash)]
pub enum SymbolOrMemberExprRef {
    Symbol(SymbolRef),
    MemberExpr(MemberExprRef),
}

/// What one statement imports and refers to.
#[derive(Debug)]
pub struct StmtInfo {
    pub import_records: Vec<ImportRecordIdx>,
    pub referenced_symbols: Vec<SymbolOrMemberExprRef>,
}

/// The statements of a module. The first one declares the namespace object.
#[derive(Debug)]
pub struct StmtInfos {
    pub infos: Vec<StmtInfo>,
}

/// Position of the statement that declares the namespace object; the source statements follow it.
pub const NAMESPACE_STMT_IDX: StmtInfoIdx = 0;

/// What linking and tree shaking decided about a module.
#[derive(Debug)]
pub struct LinkingMetadata {
    pub is_included: bool,
    pub wrap_kind: WrapKind,
    /// The symbol of the interop wrapper.
    pub wrapper_ref: Option<SymbolRef>,
    pub concatenated_wrapped_module_kind: ConcatenateWrappedModuleKind,
    /// The exports of the module, each name once.
    pub resolved_exports: Vec<ResolvedExport>,
    /// Which statements survived tree shaking.
    pub stmt_info_included: Vec<bool>,
    pub execution_dependencies: Vec<ModuleIdx>,
    /// What linking made of each member expression that it resolved.
    pub resolved_member_expr_refs: Vec<Option<MemberExprRefResolution>>,
}

/// Where a symbol leads.
#[derive(Debug, Clone, Copy, PartialEq, Eq, Structural, Hash)]
pub struct SymbolLink {
    /// The symbol at the end of the chain of imports.
    pub canonical: SymbolRef,
    /// The same, seen through the namespace object that the symbol is a member of, if it is one.
    pub resolving_namespace: SymbolRef,
}

/// The symbols of all modules: for each module, where each of its symbols leads.
#[derive(Debug)]
pub struct SymbolRefDb {
    pub links: Vec<Vec<SymbolLink>>,
}

/// A helper of the runtime module, by number.
#[derive(Debug, Clone, Copy, PartialEq, Eq, Structural, Hash)]
pub struct RuntimeHelper {
    pub id: usize,
}

/// The runtime module and the helper that builds ESM wrappers.
#[derive(Debug, Clone, Copy, PartialEq, Eq, Structural, Hash)]
pub struct RuntimeModule {
    pub id: ModuleIdx,
    pub esm_helper: RuntimeHelper,
}

/// The result of the link stage.
#[derive(Debug)]
pub struct LinkStageOutput {
    pub module_table: ModuleTable,
    /// The entry modules, in order.
    pub entries: Vec<ModuleIdx>,
    pub metas: Vec<LinkingMetadata>,
    pub stmt_infos: Vec<StmtInfos>,
    pub symbol_db: SymbolRefDb,
    pub runtime: RuntimeModule,
    /// For a symbol, as its owner and number, the symbols that it passes through when it is
    /// exported.
    pub normal_symbol_exports_chain_map: FxHashMap<(ModuleIdx, SymbolId), Vec<SymbolRef>>,
}

/// What `pick` makes of the records from position `from` on, in order, without the records that it
/// makes nothing of.
pub open spec fn picked_from(
    records: Seq<ImportRecord>,
    pick: spec_fn(ImportRecord) -> Option<ModuleIdx>,
    from: int,
) -> Seq<ModuleIdx>
    decreases records.len() - from,
{
    if from >= records.len() {
        Seq::empty()
    } else {
        match pick(records[from]) {
            Some(m) => seq![m] + picked_from(records, pick, from + 1),
            None => picked_from(records, pick, from + 1),
        }
    }
}

/// Each picked module comes from a record, and each record that picks a module contributes it.
pub proof fn lemma_picked_from(
    records: Seq<ImportRecord>,
    pick: spec_fn(ImportRecord) -> Option<ModuleIdx>,
    from: int,
)
    requires
        0 <= from,
    ensures
        forall|m: ModuleIdx| #[trigger]
            picked_from(records, pick, from).contains(m) <==> exists|k: int|
                from <= k < records.len() && pick(#[trigger] records[k]) == Some(m),
    decreases records.len() - from,
{
    let all = picked_from(records, pick, from);
    if from < records.len() {
        lemma_picked_from(records, pick, from + 1);
        let rest = picked_from(records, pick, from + 1);
        assert forall|m: ModuleIdx| #[trigger] all.contains(m) <==> exists|k: int|
            from <= k < records.len() && pick(#[trigger] records[k]) == Some(m) by {
            if all.contains(m) {
                let i = all.index_of(m);
                if pick(records[from]) is Some {
                    if i > 0 {
                        assert(rest[i - 1] == m);
                        assert(rest.contains(m));
                    } else {
                        assert(pick(records[from]) == Some(m));
                    }
                } else {
                    assert(rest.contains(m));
                }
            }
            if exists|k: int| from <= k < records.len() && pick(#[trigger] records[k]) == Some(m) {
                let k = choose|k: int|
                    from <= k < records.len() && pick(#[trigger] records[k]) == Some(m);
                if k == from {
                    assert(all[0] == m);
                } else {
                    assert(pick(records[k]) == Some(m));
                    assert(rest.contains(m));
                    let i = rest.index_of(m);
                    if pick(records[from]) is Some {
                        assert(all[i + 1] == m);
                    } else {
                        assert(all[i] == m);
                    }
                }
            }
        }
    }
}

/// What is picked from the records splits at any position.
pub proof fn lemma_picked_splits(
    records: Seq<ImportRecord>,
    pick: spec_fn(ImportRecord) -> Option<ModuleIdx>,
    from: int,
    middle: int,
) -> (first: Seq<ModuleIdx>)
    requires
        0 <= from <= middle <= records.len(),
    ensures
        picked_from(records, pick, from) == first + picked_from(records, pick, middle),
        forall|m: ModuleIdx| #[trigger]
            first.contains(m) <==> exists|k: int|
                from <= k < middle && pick(#[trigger] records[k]) == Some(m),
    decreases middle - from,
{
    if from == middle {
        let none: Seq<ModuleIdx> = Seq::empty();
        assert(none + picked_from(records, pick, middle) =~= picked_from(records, pick, middle));
        none
    } else {
        let rest = lemma_picked_splits(records, pick, from + 1, middle);
        let first = match pick(records[from]) {
            Some(m) => seq![m] + rest,
            None => rest,
        };
        assert(picked_from(records, pick, from) =~= first + picked_from(records, pick, middle));
        assert forall|m: ModuleIdx| #[trigger] first.contains(m) <==> exists|k: int|
            from <= k < middle && pick(#[trigger] records[k]) == Some(m) by {
            if first.contains(m) {
                let i = first.index_of(m);
                if pick(records[from]) is Some && i == 0 {
                    assert(pick(records[from]) == Some(m));
                } else {
                    let shift: int = if pick(records[from]) is Some {
                        1
                    } else {
                        0
                    };
                    assert(rest[i - shift] == m);
                    assert(rest.contains(m));
                }
            }
            if exists|k: int| from <= k < middle && pick(#[trigger] records[k]) == Some(m) {
                let k = choose|k: int| from <= k < middle && pick(#[trigger] records[k]) == Some(m);
                if k == from {
                    assert(first[0] == m);
                } else {
                    assert(rest.contains(m));
                    let i = rest.index_of(m);
                    let shift: int = if pick(records[from]) is Some {
                        1
                    } else {
                        0
                    };
                    assert(first[i + shift] == m);
                }
            }
        }
        first
    }
}

impl Module {
    /// The bundled module, if this is one.
    pub fn as_normal(&self) -> (module: Option<&NormalModule>)
        ensures
            module == match *self {
                Module::Normal(normal) => Some(&normal),
                Module::External => None,
            },
    {
        match self {
            Module::Normal(normal) => Some(normal),
            Module::External => None,
        }
    }

    /// Whether this is a bundled module.
    pub fn is_normal(&self) -> (normal: bool)
        ensures
            normal == (self is Normal),
    {
        matches!(self, Module::Normal(_))
    }
}

impl SymbolRefDb {
    /// Whether the table holds `symbol_ref`.
    pub open spec fn holds(self, symbol_ref: SymbolRef) -> bool {
        &&& symbol_ref.owner < self.links@.len()
        &&& symbol_ref.symbol < self.links@[symbol_ref.owner as int]@.len()
    }

    pub open spec fn link(self, symbol_ref: SymbolRef) -> SymbolLink {
        self.links@[symbol_ref.owner as int]@[symbol_ref.symbol as int]
    }

    /// There is a table for each module, and every symbol leads to a symbol.
    pub open spec fn wf(self, module_count: nat) -> bool {
        &&& self.links@.len() == module_count
        &&& forall|symbol_ref: SymbolRef|
            #![trigger self.link(symbol_ref)]
            self.holds(symbol_ref) ==> self.holds(self.link(symbol_ref).canonical) && self.holds(
                self.link(symbol_ref).resolving_namespace,
            )
    }

    /// The symbol that `symbol_ref` stands for.
    pub fn canonical_ref_for(&self, symbol_ref: SymbolRef) -> (canonical: SymbolRef)
        requires
            self.holds(symbol_ref),
        ensures
            canonical == self.link(symbol_ref).canonical,
    {
        self.links[symbol_ref.owner][symbol_ref.symbol].canonical
    }

    /// The symbol that `symbol_ref` stands for, seen through namespace objects.
    pub fn canonical_ref_resolving_namespace(&self, symbol_ref: SymbolRef) -> (canonical: SymbolRef)
        requires
            self.holds(symbol_ref),
        ensures
            canonical == self.link(symbol_ref).resolving_namespace,
    {
        self.links[symbol_ref.owner][symbol_ref.symbol].resolving_namespace
    }
}

impl LinkingMetadata {
    /// The statement survived tree shaking.
    pub open spec fn keeps_stmt(self, stmt: int) -> bool {
        0 <= stmt < self.stmt_info_included@.len() && self.stmt_info_included@[stmt]
    }

    /// The symbols of the exports are in `db`, and no name is exported twice.
    pub open spec fn exports_wf(self, db: SymbolRefDb) -> bool {
        &&& forall|k: int|
            0 <= k < self.resolved_exports@.len() ==> db.holds(
                (#[trigger] self.resolved_exports@[k]).symbol_ref,
            )
        &&& forall|j: int, k: int|
            0 <= j < k < self.resolved_exports@.len() ==> (
            #[trigger] self.resolved_exports@[j]).name@ != (
            #[trigger] self.resolved_exports@[k]).name@
    }

    pub open spec fn resolutions_wf(self, db: SymbolRefDb) -> bool {
        forall|k: int|
            #![trigger self.resolved_member_expr_refs@[k]]
            0 <= k < self.resolved_member_expr_refs@.len() ==> (
            self.resolved_member_expr_refs@[k] matches Some(resolution) ==> {
                &&& resolution.resolved matches Some(symbol_ref) ==> db.holds(symbol_ref)
                &&& forall|d: int|
                    0 <= d < resolution.depended_refs@.len() ==> db.holds(
                        #[trigger] resolution.depended_refs@[d],
                    )
            })
    }
}

impl MemberExprRef {
    /// What linking made of the expression, if it resolved it.
    pub open spec fn resolution_in(
        self,
        resolutions: Seq<Option<MemberExprRefResolution>>,
    ) -> Option<MemberExprRefResolution> {
        if self.expr < resolutions.len() {
            resolutions[self.expr as int]
        } else {
            None
        }
    }

    /// What linking made of the expression, if it resolved it.
    pub fn resolution<'a>(&self, resolutions: &'a Vec<Option<MemberExprRefResolution>>) -> (found:
        Option<&'a MemberExprRefResolution>)
        ensures
            found == match self.resolution_in(resolutions@) {
                Some(resolution) => Some(&resolution),
                None => None,
            },
    {
        if self.expr < resolutions.len() {
            resolutions[self.expr].as_ref()
        } else {
            None
        }
    }
}

impl NormalModule {
    /// The imports lead into a module table of `module_count` modules, and what the module imports
    /// by name is in `db`.
    pub open spec fn wf(self, module_count: nat, db: SymbolRefDb) -> bool {
        &&& forall|k: int|
            #![trigger self.import_records@[k]]
            0 <= k < self.import_records@.len() ==> (
            self.import_records@[k].resolved_module matches Some(importee) ==> importee
                < module_count)
        &&& forall|k: int|
            0 <= k < self.named_imports@.len() ==> db.holds(
                (#[trigger] self.named_imports@[k]).imported_as,
            )
    }

    /// The statements refer to import records of the module and to symbols in `db`.
    pub open spec fn stmts_wf(self, stmts: Seq<StmtInfo>, db: SymbolRefDb) -> bool {
        &&& forall|s: int, r: int|
            0 <= s < stmts.len() && 0 <= r < stmts[s].import_records@.len() ==> (
            #[trigger] stmts[s].import_records@[r]) < self.import_records@.len()
        &&& forall|s: int, r: int|
            0 <= s < stmts.len() && 0 <= r < stmts[s].referenced_symbols@.len() ==> match (
            #[trigger] stmts[s].referenced_symbols@[r]) {
                SymbolOrMemberExprRef::Symbol(symbol_ref) => db.holds(symbol_ref),
                SymbolOrMemberExprRef::MemberExpr(member) => db.holds(member.object_ref),
            }
    }
}

/// The tables of the link stage that describe modules, as mathematical values.
#[verifier::ext_equal]
pub struct LinkTables {
    pub modules: Seq<Module>,
    pub metas: Seq<LinkingMetadata>,
    pub stmt_infos: Seq<StmtInfos>,
    pub symbol_db: SymbolRefDb,
}

impl LinkTables {
    pub open spec fn module_count(self) -> nat {
        self.modules.len()
    }

    /// `m` is a bundled module.
    pub open spec fn is_normal(self, m: ModuleIdx) -> bool {
        m < self.modules.len() && self.modules[m as int] is Normal
    }

    pub open spec fn normal(self, m: ModuleIdx) -> NormalModule {
        self.modules[m as int]->Normal_0
    }

    pub open spec fn meta(self, m: ModuleIdx) -> LinkingMetadata {
        self.metas[m as int]
    }

    pub open spec fn stmts(self, m: ModuleIdx) -> Seq<StmtInfo> {
        self.stmt_infos[m as int].infos@
    }

    pub open spec fn records(self, m: ModuleIdx) -> Seq<ImportRecord> {
        self.normal(m).import_records@
    }

    /// `m` survived tree shaking.
    pub open spec fn included(self, m: ModuleIdx) -> bool {
        m < self.modules.len() && self.meta(m).is_included
    }

    /// Interop puts no wrapper around `m`.
    pub open spec fn unwrapped(self, m: ModuleIdx) -> bool {
        self.meta(m).wrap_kind == WrapKind::Unwrapped
    }

    pub open spec fn module_wf(self, m: ModuleIdx) -> bool {
        &&& self.meta(m).stmt_info_included@.len() == self.stmts(m).len()
        &&& self.meta(m).exports_wf(self.symbol_db)
        &&& self.meta(m).resolutions_wf(self.symbol_db)
        &&& self.is_normal(m) ==> {
            &&& self.normal(m).idx == m
            &&& self.normal(m).wf(self.module_count(), self.symbol_db)
            &&& self.normal(m).stmts_wf(self.stmts(m), self.symbol_db)
        }
    }

    /// Every index leads somewhere: the tables have an entry for each module, and what one table
    /// refers to, another holds.
    pub open spec fn wf(self) -> bool {
        &&& self.module_count() <= usize::MAX
        &&& self.metas.len() == self.module_count()
        &&& self.stmt_infos.len() == self.module_count()
        &&& self.symbol_db.wf(self.module_count())
        &&& forall|m: ModuleIdx| m < self.module_count() ==> #[trigger] self.module_wf(m)
    }

    /// All modules of the table.
    pub open spec fn all_modules(self) -> Set<ModuleIdx> {
        indices::below(self.module_count())
    }
}

impl LinkStageOutput {
    pub open spec fn tables(self) -> LinkTables {
        LinkTables {
            modules: self.module_table.modules@,
            metas: self.metas@,
            stmt_infos: self.stmt_infos@,
            symbol_db: self.symbol_db,
        }
    }

    pub open spec fn module_count(self) -> nat {
        self.tables().module_count()
    }

    /// `m` is a bundled module.
    pub open spec fn is_normal(self, m: ModuleIdx) -> bool {
        self.tables().is_normal(m)
    }

    pub open spec fn normal(self, m: ModuleIdx) -> NormalModule {
        self.tables().normal(m)
    }

    pub open spec fn meta(self, m: ModuleIdx) -> LinkingMetadata {
        self.tables().meta(m)
    }

    pub open spec fn stmts(self, m: ModuleIdx) -> Seq<StmtInfo> {
        self.tables().stmts(m)
    }

    pub open spec fn records(self, m: ModuleIdx) -> Seq<ImportRecord> {
        self.tables().records(m)
    }

    /// `m` survived tree shaking.
    pub open spec fn included(self, m: ModuleIdx) -> bool {
        self.tables().included(m)
    }

    /// Interop puts no wrapper around `m`.
    pub open spec fn unwrapped(self, m: ModuleIdx) -> bool {
        self.tables().unwrapped(m)
    }

    /// Every index leads somewhere.
    pub open spec fn wf(self) -> bool {
        &&& self.tables().wf()
        &&& forall|k: int|
            0 <= k < self.entries@.len() ==> (#[trigger] self.entries@[k]) < self.module_count()
    }

    /// The bundled module that a static import leads to.
    pub open spec fn source_target(self, record: ImportRecord) -> Option<ModuleIdx> {
        match record.resolved_module {
            Some(importee) if record.kind == ImportKind::Import && self.is_normal(importee) => Some(
                importee,
            ),
            _ => None,
        }
    }

    pub open spec fn source_pick(self) -> spec_fn(ImportRecord) -> Option<ModuleIdx> {
        |record: ImportRecord| self.source_target(record)
    }

    /// The bundled modules that `m` imports statically, in the order of its import records.
    pub open spec fn source_imports(self, m: ModuleIdx) -> Seq<ModuleIdx> {
        if self.is_normal(m) {
            picked_from(self.records(m), self.source_pick(), 0)
        } else {
            Seq::empty()
        }
    }

    /// The modules and their static imports, as the source has them.
    pub open spec fn source_graph(self) -> Digraph<ModuleIdx> {
        Digraph {
            nodes: indices::below(self.module_count()),
            succ: |m: ModuleIdx| self.source_imports(m),
        }
    }

    /// Static imports of bundled modules lead from `root` to `m`.
    pub open spec fn source_reaches(self, root: ModuleIdx, m: ModuleIdx) -> bool {
        reach::reaches(self.source_graph().edge(), root, m)
    }

    /// `m` can be given an order wrapper: it is bundled, kept, follows ESM, and interop does not
    /// wrap it already. The runtime module is never wrapped.
    pub open spec fn wrap_eligible(self, m: ModuleIdx) -> bool {
        &&& m != self.runtime.id
        &&& self.included(m)
        &&& self.is_normal(m)
        &&& self.normal(m).exports_kind == ExportsKind::Esm || self.normal(m).exports_kind
            == ExportsKind::Unknown
        &&& self.unwrapped(m)
    }

    /// The record is a static import of a bundled module that interop wraps.
    pub open spec fn runs_wrapper(self, record: ImportRecord) -> bool {
        &&& record.kind == ImportKind::Import
        &&& record.resolved_module matches Some(importee) && self.is_normal(importee)
            && !self.unwrapped(importee)
    }

    /// A kept source statement of the kept module `m` statically imports a module that interop
    /// wraps, so evaluating `m` runs that wrapper.
    pub open spec fn triggers_interop(self, m: ModuleIdx) -> bool {
        &&& self.is_normal(m)
        &&& self.included(m)
        &&& exists|s: int, r: int|
            #![trigger self.stmts(m)[s].import_records@[r]]
            {
                &&& NAMESPACE_STMT_IDX < s < self.stmts(m).len()
                &&& self.meta(m).keeps_stmt(s)
                &&& 0 <= r < self.stmts(m)[s].import_records@.len()
                &&& self.runs_wrapper(
                    self.records(m)[self.stmts(m)[s].import_records@[r] as int],
                )
            }
    }

    /// The moment at which `m` is evaluated can be observed.
    pub open spec fn order_sensitive(self, m: ModuleIdx) -> bool {
        &&& m != self.runtime.id
        &&& self.is_normal(m)
        &&& self.included(m)
        &&& self.normal(m).meta.execution_order_sensitive || self.triggers_interop(m)
    }
}

} // verus!
