//! Which `init_*` functions a static import has to call.

use rustc_hash::FxHashSet;
use vstd::prelude::*;

use crate::dfs::Digraph;
use crate::fx;
use crate::indices;
use crate::init_questions;
use crate::init_questions::{InitAnswers, InitQuestions};
use crate::link::{
    ConcatenateWrappedModuleKind, ImportKind, ImportRecordIdx, LinkTables, LinkingMetadata, Module,
    ModuleIdx, NamedImport, NormalModule, ResolvedExport, Specifier, StmtInfo, StmtInfos,
    SymbolRef, SymbolRefDb, WrapKind, NAMESPACE_STMT_IDX,
};
use crate::reach;
use crate::seqs;
use crate::wrap_state::{EsmInitOrigin, OrderWrapState, OrderWraps};

verus! {

/// Everything that decides which `init_*` functions an import of `importer` calls.
#[derive(Clone, Copy)]
pub struct WrappedEsmInitTargetContext<'a> {
    pub importer: &'a NormalModule,
    pub importer_meta: &'a LinkingMetadata,
    pub modules: &'a Vec<Module>,
    pub metas: &'a Vec<LinkingMetadata>,
    pub stmt_infos: &'a Vec<StmtInfos>,
    pub symbol_db: &'a SymbolRefDb,
    pub order_wrap_state: &'a OrderWrapState,
    /// Without it a forwarder owns the initialization of everything behind it.
    pub strict_execution_order: bool,
}

/// Whether the `init_*` function of a module can be called, given whether its wrapper symbol is
/// within reach: there must be one, the module must be kept, and it must not share the wrapper of
/// another module.
pub open spec fn init_callable(
    m: ModuleIdx,
    meta: LinkingMetadata,
    state: OrderWraps,
    wrapper_in_reach: bool,
) -> bool {
    &&& state.init_target(m, meta) is Some
    &&& wrapper_in_reach
    &&& meta.is_included
    &&& meta.concatenated_wrapped_module_kind != ConcatenateWrappedModuleKind::Inner
}

/// What decides the `init_*` calls of every import in a program: the link tables, the wrappers, and
/// for each module whether its `init_*` function can be called and whether, as a forwarder, it owns
/// the initialization of what it forwards.
#[verifier::ext_equal]
pub struct InitWorld {
    pub tables: LinkTables,
    pub state: OrderWraps,
    pub strict: bool,
    pub callable: Seq<bool>,
    pub owns: Seq<bool>,
}

/// The symbol that `name` is exported as, or `otherwise` if it is not exported.
pub open spec fn exported_symbol(
    exports: Seq<ResolvedExport>,
    name: Seq<char>,
    otherwise: SymbolRef,
) -> SymbolRef {
    if exists|k: int| 0 <= k < exports.len() && (#[trigger] exports[k]).name@ == name {
        let k = choose|k: int| 0 <= k < exports.len() && (#[trigger] exports[k]).name@ == name;
        exports[k].symbol_ref
    } else {
        otherwise
    }
}

/// The symbols of all exports.
pub open spec fn exported_symbols(exports: Seq<ResolvedExport>) -> Seq<SymbolRef> {
    exports.map_values(|export: ResolvedExport| export.symbol_ref)
}

/// The symbols that a named import of the record `rec` takes from a module with these exports.
pub open spec fn imported_symbols(
    import: NamedImport,
    rec: ImportRecordIdx,
    exports: Seq<ResolvedExport>,
) -> Seq<SymbolRef> {
    if import.record_idx != rec {
        Seq::empty()
    } else {
        match import.imported {
            Specifier::Star => exported_symbols(exports),
            Specifier::Literal(name) => seq![
                exported_symbol(exports, name@, import.imported_as),
            ],
        }
    }
}

/// Every source statement of `m` that imports statically was kept.
pub open spec fn hops_all_kept(tables: LinkTables, m: ModuleIdx, meta: LinkingMetadata) -> bool {
    tables.is_normal(m) ==> forall|s: int, r: int|
        #![trigger tables.stmts(m)[s].import_records@[r]]
        {
            &&& NAMESPACE_STMT_IDX < s < tables.stmts(m).len()
            &&& !meta.keeps_stmt(s)
            &&& 0 <= r < tables.stmts(m)[s].import_records@.len()
        } ==> tables.records(m)[tables.stmts(m)[s].import_records@[r] as int].kind
            != ImportKind::Import
}

/// The symbols that the importer takes from the module with these exports through the record.
pub open spec fn consumed_symbols(
    importer: NormalModule,
    rec: ImportRecordIdx,
    exports: Seq<ResolvedExport>,
) -> Seq<SymbolRef> {
    if importer.import_records@[rec as int].meta.is_export_star {
        exported_symbols(exports)
    } else {
        importer.named_imports@.flat_map(
            |import: NamedImport| imported_symbols(import, rec, exports),
        )
    }
}

/// The record is a static import that no wrapped ancestor walks through.
pub open spec fn emits_for(
    tables: LinkTables,
    state: OrderWraps,
    m: ModuleIdx,
    rec: ImportRecordIdx,
) -> bool {
    &&& tables.records(m)[rec as int].kind == ImportKind::Import
    &&& !state.nested_reexport_records.contains((m, rec))
}

/// The records of one statement for which `m` emits `init_*()` calls.
pub open spec fn stmt_hops(
    tables: LinkTables,
    state: OrderWraps,
    m: ModuleIdx,
    stmt: int,
) -> Seq<ImportRecordIdx> {
    if tables.meta(m).keeps_stmt(stmt) {
        tables.stmts(m)[stmt].import_records@.filter(
            |rec: ImportRecordIdx| emits_for(tables, state, m, rec),
        )
    } else {
        Seq::empty()
    }
}

/// The records for which the source statements of `m` before `stmt_end` emit `init_*()` calls.
pub open spec fn hops(
    tables: LinkTables,
    state: OrderWraps,
    m: ModuleIdx,
    stmt_end: nat,
) -> Seq<ImportRecordIdx>
    decreases stmt_end,
{
    if stmt_end <= NAMESPACE_STMT_IDX + 1 {
        Seq::empty()
    } else {
        hops(tables, state, m, (stmt_end - 1) as nat) + stmt_hops(tables, state, m, stmt_end - 1)
    }
}

/// The symbol is the namespace object of a bundled module that was dropped.
pub open spec fn dropped_namespace(tables: LinkTables, key: (ModuleIdx, usize)) -> bool {
    &&& tables.is_normal(key.0)
    &&& symbol_key(tables.normal(key.0).namespace_object_ref) == key
    &&& !tables.meta(key.0).is_included
}

/// How much an importer leaves to the eager forwarders behind a record.
#[derive(Debug, Clone, Copy, PartialEq, Eq, Structural)]
pub enum Credit {
    /// Nothing.
    Nothing,
    /// What the forwarder is sure to call.
    Least,
    /// Everything that the forwarder can be relied on for, wherever it is come to.
    Most,
}

impl Credit {
    pub open spec fn rank(self) -> nat {
        match self {
            Credit::Nothing => 0,
            Credit::Least => 1,
            Credit::Most => 1,
        }
    }

    /// The credit that the forwarders behind a forwarder get.
    pub open spec fn opposite(self) -> Credit {
        match self {
            Credit::Nothing => Credit::Nothing,
            Credit::Least => Credit::Most,
            Credit::Most => Credit::Least,
        }
    }
}

impl InitWorld {
    pub open spec fn wf(self) -> bool {
        &&& self.tables.wf()
        &&& self.callable.len() == self.tables.module_count()
        &&& self.owns.len() == self.tables.module_count()
    }

    pub open spec fn is_callable(self, m: ModuleIdx) -> bool {
        self.callable[m as int]
    }

    pub open spec fn init_target_is_none(self, m: ModuleIdx) -> bool {
        self.state.init_target(m, self.tables.meta(m)) is None
    }

    /// `m` was wrapped to keep the execution order.
    pub open spec fn order_wrapped(self, m: ModuleIdx, meta: LinkingMetadata) -> bool {
        self.state.order_wrapped(m, meta)
    }

    /// The key of the symbol that `symbol_ref` stands for, seen through namespace objects.
    pub open spec fn canonical_key(self, symbol_ref: SymbolRef) -> (ModuleIdx, usize) {
        resolved_key(self.tables.symbol_db, symbol_ref)
    }

    /// The namespace object of a module that was dropped, and that has no `init_*` function of its
    /// own, stands for all the exports of that module.
    pub open spec fn stands_for_exports(self, key: (ModuleIdx, usize)) -> bool {
        !self.is_callable(key.0) && dropped_namespace(self.tables, key)
    }

    /// The graph in which a namespace object leads to the exports that it stands for. Only an
    /// importer that was wrapped to keep the execution order looks behind namespace objects.
    pub open spec fn symbol_graph(self, through_namespaces: bool) -> Digraph<(ModuleIdx, usize)> {
        Digraph {
            nodes: symbol_keys(self.tables.symbol_db),
            succ: |key: (ModuleIdx, usize)|
                if through_namespaces && self.stands_for_exports(key) {
                    self.canonical_keys(
                        exported_symbols(self.tables.meta(key.0).resolved_exports@),
                    )
                } else {
                    Seq::empty()
                },
        }
    }

    pub open spec fn canonical_keys(self, symbols: Seq<SymbolRef>) -> Seq<(ModuleIdx, usize)> {
        resolved_keys(self.tables.symbol_db, symbols)
    }

    /// The owners of the symbols in `order` whose `init_*` function can be called.
    pub open spec fn owners_to_init(self, order: Seq<(ModuleIdx, usize)>) -> Seq<ModuleIdx> {
        order.filter(|key: (ModuleIdx, usize)| self.is_callable(key.0)).map_values(
            |key: (ModuleIdx, usize)| key.0,
        )
    }

    /// The targets and the visited symbols, once `symbol_ref` is followed to the modules whose
    /// `init_*` function its use needs.
    pub open spec fn follow(
        self,
        through_namespaces: bool,
        symbol_ref: SymbolRef,
        targets: Seq<ModuleIdx>,
        visited: Set<(ModuleIdx, usize)>,
    ) -> (Seq<ModuleIdx>, Set<(ModuleIdx, usize)>) {
        self.follow_all(
            through_namespaces,
            seq![self.canonical_key(symbol_ref)],
            targets,
            visited,
        )
    }

    /// The targets and the visited symbols, once all these symbols are followed in turn.
    pub open spec fn follow_all(
        self,
        through_namespaces: bool,
        keys: Seq<(ModuleIdx, usize)>,
        targets: Seq<ModuleIdx>,
        visited: Set<(ModuleIdx, usize)>,
    ) -> (Seq<ModuleIdx>, Set<(ModuleIdx, usize)>) {
        let walk = self.symbol_graph(through_namespaces).walk(keys, visited);
        (targets + self.owners_to_init(walk.order), walk.visited)
    }

    /// The modules whose `init_*` function must have run before these symbols are used, in the
    /// order in which the symbols lead to them.
    pub open spec fn symbol_targets(
        self,
        symbols: Seq<SymbolRef>,
        through_namespaces: bool,
    ) -> Seq<ModuleIdx> {
        self.owners_to_init(
            self.symbol_graph(through_namespaces).walk(
                self.canonical_keys(symbols),
                Set::empty(),
            ).order,
        )
    }

    pub open spec fn consumed_symbols(
        self,
        importer: NormalModule,
        rec: ImportRecordIdx,
        exports: Seq<ResolvedExport>,
    ) -> Seq<SymbolRef> {
        consumed_symbols(importer, rec, exports)
    }

    /// An eager, kept module without a wrapper, which owns the initialization of what it forwards:
    /// its own `init_*()` calls run before the importer.
    pub open spec fn eager_forwarder(self, m: ModuleIdx) -> bool {
        &&& self.init_target_is_none(m)
        &&& self.tables.unwrapped(m)
        &&& self.tables.included(m)
        &&& self.owns[m as int]
    }

    /// `m` itself calls all the `init_*` functions behind it.
    pub open spec fn discharges_own_hops(self, m: ModuleIdx) -> bool {
        hops_all_kept(self.tables, m, self.tables.meta(m))
    }

    /// An eager forwarder that calls everything behind it itself: the importer leaves all of it to
    /// the forwarder.
    pub open spec fn delegates_all(self, importee: ModuleIdx) -> bool {
        self.eager_forwarder(importee) && (!self.strict || self.discharges_own_hops(importee))
    }

    /// The `init_*` functions that must have run before the importer uses what the record brings
    /// in: that of a callable importee, or else those that the symbols it takes lead to.
    pub open spec fn wanted(
        self,
        importer: NormalModule,
        importer_wrapped: bool,
        rec: ImportRecordIdx,
    ) -> Seq<ModuleIdx> {
        match importer.import_records@[rec as int].resolved_module {
            None => Seq::empty(),
            Some(importee) => if self.is_callable(importee) {
                seq![importee]
            } else {
                self.symbol_targets(
                    self.consumed_symbols(
                        importer,
                        rec,
                        self.tables.meta(importee).resolved_exports@,
                    ),
                    importer_wrapped,
                )
            },
        }
    }

    /// The records for which the statements of `m` emit `init_*()` calls.
    pub open spec fn own_hops(self, m: ModuleIdx) -> Seq<ImportRecordIdx> {
        hops(self.tables, self.state, m, self.tables.stmts(m).len())
    }

    /// The `init_*` functions that `importer` has to call for the record, while the forwarders of
    /// `path` are being looked into. `depth` bounds how many more are looked into inside each other.
    ///
    /// The importer calls what it needs, but leaves to an eager forwarder what `credit` says that
    /// this forwarder calls.
    pub open spec fn record_targets(
        self,
        importer: NormalModule,
        importer_wrapped: bool,
        rec: ImportRecordIdx,
        path: Set<ModuleIdx>,
        depth: nat,
        credit: Credit,
    ) -> Seq<ModuleIdx>
        decreases depth, credit.rank(), 1nat, 0nat,
    {
        match importer.import_records@[rec as int].resolved_module {
            None => Seq::empty(),
            Some(importee) => if self.delegates_all(importee) {
                Seq::empty()
            } else if self.is_callable(importee) || !self.eager_forwarder(importee)
                || credit == Credit::Nothing {
                self.wanted(importer, importer_wrapped, rec)
            } else {
                let calls = self.forwarder_calls(importee, path, depth, credit);
                self.wanted(importer, importer_wrapped, rec).filter(
                    |m: ModuleIdx| !calls.contains(m),
                )
            },
        }
    }

    /// What a forwarder is credited with calling. It is sure to call what it needs where the
    /// forwarders behind it get the most credit, and can be relied on for no more than what it needs
    /// where they get the least. A forwarder that leads back to itself is, there, sure to call
    /// nothing, and may be relied on for everything that it needs.
    pub open spec fn forwarder_calls(
        self,
        f: ModuleIdx,
        path: Set<ModuleIdx>,
        depth: nat,
        credit: Credit,
    ) -> Set<ModuleIdx>
        decreases depth, credit.rank(), 0nat, 0nat,
    {
        if !self.tables.is_normal(f) || credit == Credit::Nothing {
            Set::empty()
        } else if !path.contains(f) && depth > 0 {
            self.records_targets(
                f,
                self.own_hops(f),
                path.insert(f),
                (depth - 1) as nat,
                credit.opposite(),
            )
        } else if credit == Credit::Most {
            self.records_targets(f, self.own_hops(f), path, depth, Credit::Nothing)
        } else {
            Set::empty()
        }
    }

    /// The `init_*` functions that module `m` calls for these records.
    pub open spec fn records_targets(
        self,
        m: ModuleIdx,
        recs: Seq<ImportRecordIdx>,
        path: Set<ModuleIdx>,
        depth: nat,
        credit: Credit,
    ) -> Set<ModuleIdx>
        decreases depth, credit.rank(), 2nat, recs.len(),
    {
        if recs.len() == 0 {
            Set::empty()
        } else {
            self.records_targets(m, recs.drop_last(), path, depth, credit) + self.record_targets(
                self.tables.normal(m),
                self.order_wrapped(m, self.tables.meta(m)),
                recs.last(),
                path,
                depth,
                credit,
            ).to_set()
        }
    }

    /// What module `m` calls for one of its own records.
    pub open spec fn hop_targets(self, m: ModuleIdx, rec: ImportRecordIdx) -> Seq<ModuleIdx> {
        self.record_targets(
            self.tables.normal(m),
            self.order_wrapped(m, self.tables.meta(m)),
            rec,
            Set::empty(),
            self.tables.module_count(),
            Credit::Least,
        )
    }

    /// A statement of the bundled module `m` calls the `init_*` function of `target`.
    pub open spec fn emits(self, m: ModuleIdx, target: ModuleIdx) -> bool {
        self.tables.is_normal(m) && exists|k: int|
            0 <= k < self.own_hops(m).len() && self.hop_targets(
                m,
                #[trigger] self.own_hops(m)[k],
            ).contains(target)
    }
}

/// A symbol as a key: its owner and its number.
pub open spec fn symbol_key(symbol_ref: SymbolRef) -> (ModuleIdx, usize) {
    (symbol_ref.owner, symbol_ref.symbol)
}

/// The key of the symbol that `symbol_ref` stands for, seen through namespace objects.
pub open spec fn resolved_key(db: SymbolRefDb, symbol_ref: SymbolRef) -> (ModuleIdx, usize) {
    symbol_key(db.link(symbol_ref).resolving_namespace)
}

pub open spec fn resolved_keys(db: SymbolRefDb, symbols: Seq<SymbolRef>) -> Seq<
    (ModuleIdx, usize),
> {
    symbols.map_values(|symbol_ref: SymbolRef| resolved_key(db, symbol_ref))
}

/// The keys of all symbols.
pub open spec fn symbol_keys(db: SymbolRefDb) -> Set<(ModuleIdx, usize)> {
    Set::new(
        |key: (ModuleIdx, usize)| db.holds(SymbolRef { owner: key.0, symbol: key.1 }),
    )
}

/// Whether the module carries an `init_*` function that can be called from here.
pub fn wrapped_esm_target_is_reachable<F: Fn(SymbolRef) -> bool>(
    module_idx: ModuleIdx,
    meta: &LinkingMetadata,
    order_wrap_state: &OrderWrapState,
    wrapper_is_reachable: &F,
) -> (reachable: bool)
    requires
        order_wrap_state@.init_target(module_idx, *meta) matches Some(target)
            ==> (*wrapper_is_reachable).requires((target.wrapper_ref,)),
    ensures
        answers_callable_for(
            module_idx,
            *meta,
            order_wrap_state@,
            *wrapper_is_reachable,
            reachable,
        ),
{
    match order_wrap_state.esm_init_target(module_idx, meta) {
        Some(target) => {
            let in_reach: bool = (*wrapper_is_reachable)(target.wrapper_ref);
            in_reach && meta.is_included && meta.concatenated_wrapped_module_kind
                != ConcatenateWrappedModuleKind::Inner
        },
        None => false,
    }
}

proof fn lemma_all_symbol_keys_finite(tables: LinkTables)
    requires
        tables.wf(),
    ensures
        symbol_keys(tables.symbol_db).finite(),
{
    let db = tables.symbol_db;
    lemma_symbol_keys_finite(db, db.links@.len());
    assert(symbol_keys(db) =~= Set::new(
        |key: (ModuleIdx, usize)|
            key.0 < db.links@.len() && db.holds(SymbolRef { owner: key.0, symbol: key.1 }),
    ));
}

proof fn lemma_symbol_keys_finite(db: SymbolRefDb, owners: nat)
    requires
        owners <= db.links@.len() <= usize::MAX,
    ensures
        Set::new(
            |key: (ModuleIdx, usize)|
                key.0 < owners && db.holds(SymbolRef { owner: key.0, symbol: key.1 }),
        ).finite(),
    decreases owners,
{
    let all = Set::new(
        |key: (ModuleIdx, usize)|
            key.0 < owners && db.holds(SymbolRef { owner: key.0, symbol: key.1 }),
    );
    if owners == 0 {
        assert(all =~= Set::empty());
    } else {
        let last = (owners - 1) as usize;
        lemma_symbol_keys_finite(db, last as nat);
        let before = Set::new(
            |key: (ModuleIdx, usize)|
                key.0 < last as nat && db.holds(SymbolRef { owner: key.0, symbol: key.1 }),
        );
        let numbers = vstd::set_lib::set_int_range(0, db.links@[last as int]@.len() as int);
        vstd::set_lib::lemma_int_range(0, db.links@[last as int]@.len() as int);
        let own = numbers.map(|i: int| (last, i as usize));
        numbers.lemma_map_finite(|i: int| (last, i as usize));
        assert(all.subset_of(before + own)) by {
            assert forall|key: (ModuleIdx, usize)| all.contains(key) implies #[trigger] (before
                + own).contains(key) by {
                if key.0 == last {
                    assert(numbers.contains(key.1 as int));
                    assert(key == (last, (key.1 as int) as usize));
                    assert(own.contains(key));
                }
            }
        }
        vstd::set_lib::lemma_set_subset_finite(before + own, all);
    }
}

impl InitWorld {
    pub proof fn lemma_symbol_graph_wf(self, through_namespaces: bool)
        requires
            self.wf(),
        ensures
            self.symbol_graph(through_namespaces).wf(),
    {
        let graph = self.symbol_graph(through_namespaces);
        let db = self.tables.symbol_db;
        lemma_all_symbol_keys_finite(self.tables);
        assert forall|key: (ModuleIdx, usize), i: int|
            graph.nodes.contains(key) && 0 <= i < (graph.succ)(key).len() implies graph.nodes.contains(
            #[trigger] (graph.succ)(key)[i],
        ) by {
            assert(self.tables.module_wf(key.0));
            let export = self.tables.meta(key.0).resolved_exports@[i];
            assert(db.holds(export.symbol_ref));
        }
    }

    proof fn lemma_owners_to_init_add(
        self,
        a: Seq<(ModuleIdx, usize)>,
        b: Seq<(ModuleIdx, usize)>,
    )
        ensures
            self.owners_to_init(a + b) == self.owners_to_init(a) + self.owners_to_init(b),
    {
        let callable = |key: (ModuleIdx, usize)| self.is_callable(key.0);
        Seq::filter_distributes_over_add(a, b, callable);
        assert(self.owners_to_init(a + b) =~= self.owners_to_init(a) + self.owners_to_init(b));
    }

    proof fn lemma_owners_to_init_one(self, key: (ModuleIdx, usize))
        ensures
            self.owners_to_init(seq![key]) == if self.is_callable(key.0) {
                seq![key.0]
            } else {
                Seq::empty()
            },
    {
        let callable = |k: (ModuleIdx, usize)| self.is_callable(k.0);
        reveal_with_fuel(Seq::filter, 2);
        assert(seq![key].drop_last() =~= Seq::empty());
        if self.is_callable(key.0) {
            assert(seq![key].filter(callable) =~= seq![key]);
            assert(self.owners_to_init(seq![key]) =~= seq![key.0]);
        } else {
            assert(seq![key].filter(callable) =~= Seq::empty());
            assert(self.owners_to_init(seq![key]) =~= Seq::empty());
        }
    }
}

/// `answer` says whether the `init_*` function of module `m` can be called, where
/// `wrapper_is_reachable` answers for its wrapper symbol.
pub open spec fn answers_callable_for<F: Fn(SymbolRef) -> bool>(
    m: ModuleIdx,
    meta: LinkingMetadata,
    state: OrderWraps,
    wrapper_is_reachable: F,
    answer: bool,
) -> bool {
    match state.init_target(m, meta) {
        Some(target) => exists|in_reach: bool| #[trigger]
            wrapper_is_reachable.ensures((target.wrapper_ref,), in_reach) && answer
                == init_callable(m, meta, state, in_reach),
        None => !answer,
    }
}

impl<'a> WrappedEsmInitTargetContext<'a> {
    pub open spec fn tables(self) -> LinkTables {
        LinkTables {
            modules: self.modules@,
            metas: self.metas@,
            stmt_infos: self.stmt_infos@,
            symbol_db: *self.symbol_db,
        }
    }

    /// The tables are consistent, and the importer fits them.
    pub open spec fn wf(self) -> bool {
        &&& self.tables().wf()
        &&& self.importer.wf(self.tables().module_count(), *self.symbol_db)
    }

    pub open spec fn world(self, callable: Seq<bool>, owns: Seq<bool>) -> InitWorld {
        InitWorld {
            tables: self.tables(),
            state: self.order_wrap_state@,
            strict: self.strict_execution_order,
            callable,
            owns,
        }
    }

    /// The `init_*` functions that the importer has to call for the record.
    pub open spec fn init_targets(
        self,
        rec: ImportRecordIdx,
        callable: Seq<bool>,
        owns: Seq<bool>,
    ) -> Seq<ModuleIdx> {
        self.world(callable, owns).record_targets(
            *self.importer,
            self.importer_wrapped(),
            rec,
            Set::empty(),
            self.tables().module_count(),
            Credit::Least,
        )
    }

    /// The symbols that the importer takes from the importee through the record stand for these.
    pub open spec fn consumed_keys(self, rec: ImportRecordIdx, importee: ModuleIdx) -> Seq<
        (ModuleIdx, usize),
    > {
        resolved_keys(
            *self.symbol_db,
            consumed_symbols(*self.importer, rec, self.metas@[importee as int].resolved_exports@),
        )
    }

    /// The importer was wrapped to keep the execution order.
    pub open spec fn importer_wrapped(self) -> bool {
        self.order_wrap_state@.order_wrapped(self.importer.idx, *self.importer_meta)
    }
}

impl InitWorld {
    /// The targets of symbols are found by following them all, with nothing visited before.
    proof fn lemma_symbol_targets_follow(self, symbols: Seq<SymbolRef>, through_namespaces: bool)
        ensures
            self.symbol_targets(symbols, through_namespaces) == self.follow_all(
                through_namespaces,
                resolved_keys(self.tables.symbol_db, symbols),
                Seq::empty(),
                Set::empty(),
            ).0,
    {
        let targets = self.symbol_targets(symbols, through_namespaces);
        assert(Seq::<ModuleIdx>::empty() + targets =~= targets);
    }

    proof fn lemma_follow_none(
        self,
        through_namespaces: bool,
        targets: Seq<ModuleIdx>,
        visited: Set<(ModuleIdx, usize)>,
    )
        requires
            self.wf(),
            visited.subset_of(symbol_keys(self.tables.symbol_db)),
        ensures
            self.follow_all(through_namespaces, Seq::empty(), targets, visited) == (
                targets,
                visited,
            ),
    {
        let graph = self.symbol_graph(through_namespaces);
        let none: Seq<(ModuleIdx, usize)> = Seq::empty();
        self.lemma_symbol_graph_wf(through_namespaces);
        graph.lemma_walk_step(none, visited);
        assert(self.owners_to_init(none) =~= Seq::empty());
        assert(targets + Seq::<ModuleIdx>::empty() =~= targets);
    }

    /// Following more symbols goes on from where following the first ones ended.
    proof fn lemma_follow_more(
        self,
        through_namespaces: bool,
        first: Seq<(ModuleIdx, usize)>,
        more: Seq<(ModuleIdx, usize)>,
        targets: Seq<ModuleIdx>,
        visited: Set<(ModuleIdx, usize)>,
    )
        requires
            self.wf(),
            keys_held(self.tables.symbol_db, first),
            keys_held(self.tables.symbol_db, more),
            visited.subset_of(symbol_keys(self.tables.symbol_db)),
        ensures
            ({
                let (found, seen) = self.follow_all(through_namespaces, first, targets, visited);
                self.follow_all(through_namespaces, first + more, targets, visited)
                    == self.follow_all(through_namespaces, more, found, seen)
            }),
    {
        let graph = self.symbol_graph(through_namespaces);
        self.lemma_symbol_graph_wf(through_namespaces);
        assert(graph.holds_all(first));
        assert(graph.holds_all(more));
        graph.lemma_walk_append(first, more, visited);
        let start = graph.walk(first, visited);
        let rest = graph.walk(more, start.visited);
        self.lemma_owners_to_init_add(start.order, rest.order);
        assert(targets + self.owners_to_init(start.order + rest.order) =~= (targets
            + self.owners_to_init(start.order)) + self.owners_to_init(rest.order));
    }

    /// Following one symbol: one that was visited adds nothing, one whose owner can be called adds
    /// the owner, a namespace object may lead on, and any other adds nothing but itself.
    proof fn lemma_follow_one(
        self,
        through_namespaces: bool,
        key: (ModuleIdx, usize),
        targets: Seq<ModuleIdx>,
        visited: Set<(ModuleIdx, usize)>,
    )
        requires
            self.wf(),
            symbol_keys(self.tables.symbol_db).contains(key),
            visited.subset_of(symbol_keys(self.tables.symbol_db)),
        ensures
            self.follow_all(through_namespaces, seq![key], targets, visited) == if visited.contains(
                key,
            ) {
                (targets, visited)
            } else if self.is_callable(key.0) {
                (targets.push(key.0), visited.insert(key))
            } else if through_namespaces && dropped_namespace(self.tables, key) {
                self.follow_all(
                    through_namespaces,
                    init_questions::export_keys(self.tables, key.0),
                    targets,
                    visited.insert(key),
                )
            } else {
                (targets, visited.insert(key))
            },
    {
        let graph = self.symbol_graph(through_namespaces);
        let none: Seq<(ModuleIdx, usize)> = Seq::empty();
        let succ = (graph.succ)(key);
        let marked = visited.insert(key);
        self.lemma_symbol_graph_wf(through_namespaces);
        assert(graph.holds_all(seq![key]));
        graph.lemma_walk_step(seq![key], visited);
        assert(seq![key].drop_first() =~= none);
        self.lemma_follow_none(through_namespaces, targets, visited);
        self.lemma_follow_none(through_namespaces, targets, marked);
        self.lemma_owners_to_init_one(key);
        assert(self.owners_to_init(none) =~= Seq::empty());
        assert(graph.holds_all(succ));
        graph.lemma_walk_basics(succ, marked);
        let below = graph.walk(succ, marked);
        graph.lemma_walk_step(none, visited);
        graph.lemma_walk_step(none, below.visited);
        graph.lemma_walk_step(none, marked);
        if !visited.contains(key) {
            let walk = graph.walk(seq![key], visited);
            assert(walk.order =~= below.order + seq![key]);
            self.lemma_owners_to_init_add(below.order, seq![key]);
            if self.is_callable(key.0) {
                assert(succ =~= none);
                assert(self.owners_to_init(walk.order) =~= seq![key.0]);
                assert(targets + seq![key.0] =~= targets.push(key.0));
            } else {
                assert(self.owners_to_init(walk.order) =~= self.owners_to_init(below.order));
                if !(through_namespaces && dropped_namespace(self.tables, key)) {
                    assert(succ =~= none);
                }
            }
        }
    }
}

/// All these symbols are in the symbol table.
pub open spec fn keys_held(db: SymbolRefDb, keys: Seq<(ModuleIdx, usize)>) -> bool {
    forall|i: int| 0 <= i < keys.len() ==> symbol_keys(db).contains(#[trigger] keys[i])
}

/// What a sequence maps to begins with what its beginning maps to.
proof fn lemma_flat_map_begins<A, B>(s: Seq<A>, f: spec_fn(A) -> Seq<B>, k: int, n: int)
    requires
        0 <= k <= n <= s.len(),
    ensures
        s.take(k).flat_map(f).is_prefix_of(s.take(n).flat_map(f)),
    decreases n - k,
{
    if k < n {
        lemma_flat_map_begins(s, f, k, n - 1);
        s.lemma_flat_map_take_append(f, n - 1);
    }
}

/// Follows the symbol to the modules whose `init_*` function its use needs.
fn add_wrapped_esm_init_target_for_symbol<F: Fn(SymbolRef) -> bool, G: Fn(ModuleIdx) -> bool>(
    ctx: &WrappedEsmInitTargetContext<'_>,
    questions: &mut InitQuestions<'_, F, G>,
    symbol_ref: SymbolRef,
    targets: &mut Vec<ModuleIdx>,
    visited_symbols: &mut FxHashSet<(ModuleIdx, usize)>,
)
    requires
        ctx.tables().wf(),
        old(questions).about(*ctx),
        ctx.symbol_db.holds(symbol_ref),
        old(questions).inquiry@.takes_symbol(
            ctx.importer_wrapped(),
            resolved_key(*ctx.symbol_db, symbol_ref),
        ),
        old(visited_symbols)@.subset_of(symbol_keys(*ctx.symbol_db)),
    ensures
        final(questions).about(*ctx),
        final(questions).extend(*old(questions)),
        forall|world: InitWorld| #[trigger]
            final(questions).fit(world) ==> (final(targets)@, final(visited_symbols)@)
                == world.follow(
                ctx.importer_wrapped(),
                symbol_ref,
                old(targets)@,
                old(visited_symbols)@,
            ),
        old(visited_symbols)@.subset_of(final(visited_symbols)@),
        final(visited_symbols)@.subset_of(symbol_keys(*ctx.symbol_db)),
    decreases symbol_keys(*ctx.symbol_db).len() - old(visited_symbols)@.len(), 0nat,
{
    let canonical_ref = ctx.symbol_db.canonical_ref_resolving_namespace(symbol_ref);
    let owner: ModuleIdx = canonical_ref.owner;
    let ghost key = resolved_key(*ctx.symbol_db, symbol_ref);
    let ghost before = visited_symbols@;
    let ghost all = symbol_keys(*ctx.symbol_db);
    proof {
        assert(all.contains(key));
        lemma_all_symbol_keys_finite(ctx.tables());
        vstd::set_lib::lemma_set_subset_finite(all, before);
        vstd::set_lib::lemma_len_subset(before.insert(key), all);
        reach::lemma_reaches_self(
            init_questions::namespace_leads(ctx.tables(), ctx.importer_wrapped()),
            key,
        );
    }
    if !fx::pair_set_insert(visited_symbols, (canonical_ref.owner, canonical_ref.symbol)) {
        proof {
            assert(before.insert(key) =~= before);
            assert forall|world: InitWorld| #[trigger] questions.fit(world) implies (
                targets@,
                visited_symbols@,
            ) == world.follow(ctx.importer_wrapped(), symbol_ref, old(targets)@, before) by {
                world.lemma_follow_one(ctx.importer_wrapped(), key, old(targets)@, before);
            }
        }
        return;
    }
    if questions.is_callable(ctx, owner) {
        targets.push(owner);
        proof {
            assert forall|world: InitWorld| #[trigger] questions.fit(world) implies (
                targets@,
                visited_symbols@,
            ) == world.follow(ctx.importer_wrapped(), symbol_ref, old(targets)@, before) by {
                world.lemma_follow_one(ctx.importer_wrapped(), key, old(targets)@, before);
            }
        }
        return;
    }
    let importer_is_order_wrapped: bool = match ctx.order_wrap_state.esm_init_target(
        ctx.importer.idx,
        ctx.importer_meta,
    ) {
        Some(target) => target.origin == EsmInitOrigin::ExecutionOrder,
        None => false,
    };
    let leads_on: bool = match ctx.modules[owner].as_normal() {
        Some(module) => module.namespace_object_ref == canonical_ref
            && !ctx.metas[owner].is_included && importer_is_order_wrapped,
        None => false,
    };
    assert(leads_on == (ctx.importer_wrapped() && dropped_namespace(ctx.tables(), key)));
    let ghost asked = *questions;
    if leads_on {
        proof {
            questions.inquiry@.lemma_takes_exports(key);
        }
        add_exported_symbols(ctx, questions, owner, targets, visited_symbols);
        proof {
            questions.lemma_earlier_fit(asked);
        }
    }
    proof {
        assert forall|world: InitWorld| #[trigger] questions.fit(world) implies (
            targets@,
            visited_symbols@,
        ) == world.follow(ctx.importer_wrapped(), symbol_ref, old(targets)@, before) by {
            assert(asked.fit(world));
            assert(asked.callable.given(owner, false));
            world.lemma_follow_one(ctx.importer_wrapped(), key, old(targets)@, before);
        }
    }
}

/// Follows all symbols that the module exports.
fn add_exported_symbols<F: Fn(SymbolRef) -> bool, G: Fn(ModuleIdx) -> bool>(
    ctx: &WrappedEsmInitTargetContext<'_>,
    questions: &mut InitQuestions<'_, F, G>,
    module_idx: ModuleIdx,
    targets: &mut Vec<ModuleIdx>,
    visited_symbols: &mut FxHashSet<(ModuleIdx, usize)>,
)
    requires
        ctx.tables().wf(),
        old(questions).about(*ctx),
        module_idx < ctx.tables().module_count(),
        old(questions).inquiry@.takes_symbols(
            ctx.importer_wrapped(),
            init_questions::export_keys(ctx.tables(), module_idx),
        ),
        old(visited_symbols)@.subset_of(symbol_keys(*ctx.symbol_db)),
    ensures
        final(questions).about(*ctx),
        final(questions).extend(*old(questions)),
        forall|world: InitWorld| #[trigger]
            final(questions).fit(world) ==> (final(targets)@, final(visited_symbols)@)
                == world.follow_all(
                ctx.importer_wrapped(),
                init_questions::export_keys(ctx.tables(), module_idx),
                old(targets)@,
                old(visited_symbols)@,
            ),
        old(visited_symbols)@.subset_of(final(visited_symbols)@),
        final(visited_symbols)@.subset_of(symbol_keys(*ctx.symbol_db)),
    decreases symbol_keys(*ctx.symbol_db).len() - old(visited_symbols)@.len(), 1nat,
{
    let exports: &Vec<ResolvedExport> = &ctx.metas[module_idx].resolved_exports;
    let ghost keys = init_questions::export_keys(ctx.tables(), module_idx);
    let ghost before = visited_symbols@;
    let ghost all = symbol_keys(*ctx.symbol_db);
    let ghost wrapped = ctx.importer_wrapped();
    let ghost inquiry = questions.inquiry@;
    proof {
        assert(ctx.tables().module_wf(module_idx));
        assert(keys_held(*ctx.symbol_db, keys)) by {
            assert forall|i: int| 0 <= i < keys.len() implies all.contains(#[trigger] keys[i]) by {
                assert(ctx.symbol_db.holds(exports@[i].symbol_ref));
            }
        }
        assert(keys.take(0) =~= Seq::empty());
        assert forall|world: InitWorld| #[trigger] questions.fit(world) implies (
            targets@,
            visited_symbols@,
        ) == world.follow_all(wrapped, keys.take(0), old(targets)@, before) by {
            world.lemma_follow_none(wrapped, old(targets)@, before);
        }
        lemma_all_symbol_keys_finite(ctx.tables());
        vstd::set_lib::lemma_set_subset_finite(all, before);
    }
    let mut i: usize = 0;
    while i < exports.len()
        invariant
            ctx.tables().wf(),
            ctx.tables().module_wf(module_idx),
            wrapped == ctx.importer_wrapped(),
            all == symbol_keys(*ctx.symbol_db),
            all.finite(),
            *exports == ctx.tables().meta(module_idx).resolved_exports,
            keys == init_questions::export_keys(ctx.tables(), module_idx),
            keys_held(*ctx.symbol_db, keys),
            questions.about(*ctx),
            questions.inquiry@ == inquiry,
            questions.extend(*old(questions)),
            inquiry.takes_symbols(wrapped, keys),
            before == old(visited_symbols)@,
            before.subset_of(visited_symbols@),
            before.subset_of(all),
            visited_symbols@.subset_of(all),
            i <= exports@.len(),
            forall|world: InitWorld| #[trigger]
                questions.fit(world) ==> (targets@, visited_symbols@) == world.follow_all(
                    wrapped,
                    keys.take(i as int),
                    old(targets)@,
                    before,
                ),
        decreases exports.len() - i,
    {
        let ghost asked = *questions;
        let ghost found = targets@;
        let ghost seen = visited_symbols@;
        let ghost next = seq![keys[i as int]];
        proof {
            assert(ctx.symbol_db.holds(exports@[i as int].symbol_ref));
            assert(inquiry.takes_symbol(wrapped, keys[i as int]));
            assert(keys.take(i as int) + next =~= keys.take(i + 1));
            vstd::set_lib::lemma_set_subset_finite(all, seen);
            vstd::set_lib::lemma_len_subset(before, seen);
            vstd::set_lib::lemma_len_subset(seen, all);
        }
        add_wrapped_esm_init_target_for_symbol(
            ctx,
            questions,
            exports[i].symbol_ref,
            targets,
            visited_symbols,
        );
        proof {
            questions.lemma_earlier_fit(asked);
            assert forall|world: InitWorld| #[trigger] questions.fit(world) implies (
                targets@,
                visited_symbols@,
            ) == world.follow_all(wrapped, keys.take(i + 1), old(targets)@, before) by {
                assert(asked.fit(world));
                world.lemma_follow_more(wrapped, keys.take(i as int), next, old(targets)@, before);
            }
        }
        i = i + 1;
    }
    assert(keys.take(keys.len() as int) =~= keys);
}

/// Whether an eager forwarder calls every `init_*` function behind it from its own statements. A
/// statement that tree shaking dropped emits nothing, so each source statement that imports
/// statically must have been kept.
pub fn eager_forwarder_discharges_own_hops(
    ctx: &WrappedEsmInitTargetContext<'_>,
    module_idx: ModuleIdx,
    meta: &LinkingMetadata,
) -> (discharges: bool)
    requires
        ctx.tables().wf(),
        module_idx < ctx.tables().module_count(),
        meta.stmt_info_included@.len() == ctx.tables().stmts(module_idx).len(),
    ensures
        discharges == hops_all_kept(ctx.tables(), module_idx, *meta),
{
    let module = match ctx.modules[module_idx].as_normal() {
        Some(module) => module,
        None => return true,
    };
    let ghost tables = ctx.tables();
    let stmts: &Vec<StmtInfo> = &ctx.stmt_infos[module_idx].infos;
    assert(tables.module_wf(module_idx));
    let mut s: usize = NAMESPACE_STMT_IDX + 1;
    while s < stmts.len()
        invariant
            tables == ctx.tables(),
            tables.is_normal(module_idx),
            tables.module_wf(module_idx),
            *module == tables.normal(module_idx),
            stmts@ == tables.stmts(module_idx),
            meta.stmt_info_included@.len() == stmts@.len(),
            NAMESPACE_STMT_IDX < s,
            forall|p: int, r: int|
                NAMESPACE_STMT_IDX < p < s && p < stmts@.len() && !meta.keeps_stmt(p) && 0 <= r
                    < stmts@[p].import_records@.len()
                    ==> module.import_records@[#[trigger] stmts@[p].import_records@[r] as int].kind
                    != ImportKind::Import,
        decreases stmts.len() - s,
    {
        if !meta.stmt_info_included[s] {
            let records: &Vec<ImportRecordIdx> = &stmts[s].import_records;
            let mut r: usize = 0;
            while r < records.len()
                invariant
                    tables == ctx.tables(),
                    tables.is_normal(module_idx),
                    tables.module_wf(module_idx),
                    *module == tables.normal(module_idx),
                    stmts@ == tables.stmts(module_idx),
                    NAMESPACE_STMT_IDX < s < stmts@.len(),
                    !meta.keeps_stmt(s as int),
                    records@ == stmts@[s as int].import_records@,
                    r <= records@.len(),
                    forall|q: int|
                        0 <= q < r ==> module.import_records@[#[trigger] records@[q] as int].kind
                            != ImportKind::Import,
                decreases records.len() - r,
            {
                assert(tables.stmts(module_idx)[s as int].import_records@[r as int]
                    < module.import_records@.len());
                if module.import_records[records[r]].kind == ImportKind::Import {
                    return false;
                }
                r = r + 1;
            }
        }
        s = s + 1;
    }
    true
}

/// The symbol that `name` is exported as, or `otherwise` if it is not exported.
fn find_exported_symbol(
    exports: &Vec<ResolvedExport>,
    name: &String,
    otherwise: SymbolRef,
) -> (found: SymbolRef)
    requires
        forall|j: int, k: int|
            0 <= j < k < exports@.len() ==> (#[trigger] exports@[j]).name@ != (
            #[trigger] exports@[k]).name@,
    ensures
        found == exported_symbol(exports@, name@, otherwise),
{
    let mut k: usize = 0;
    while k < exports.len()
        invariant
            k <= exports@.len(),
            forall|j: int, k: int|
                0 <= j < k < exports@.len() ==> (#[trigger] exports@[j]).name@ != (
                #[trigger] exports@[k]).name@,
            forall|j: int| 0 <= j < k ==> (#[trigger] exports@[j]).name@ != name@,
        decreases exports.len() - k,
    {
        if exports[k].name == *name {
            proof {
                let j = choose|j: int|
                    0 <= j < exports@.len() && (#[trigger] exports@[j]).name@ == name@;
                assert(exports@[k as int].name@ == name@);
                assert(j == k);
            }
            return exports[k].symbol_ref;
        }
        k = k + 1;
    }
    otherwise
}

/// The modules whose `init_*` function the symbols need that the importer takes through the record.
fn consumed_symbol_targets<F: Fn(SymbolRef) -> bool, G: Fn(ModuleIdx) -> bool>(
    ctx: &WrappedEsmInitTargetContext<'_>,
    questions: &mut InitQuestions<'_, F, G>,
    rec_idx: ImportRecordIdx,
    importee_idx: ModuleIdx,
) -> (targets: Vec<ModuleIdx>)
    requires
        ctx.wf(),
        old(questions).about(*ctx),
        rec_idx < ctx.importer.import_records@.len(),
        importee_idx < ctx.tables().module_count(),
        old(questions).inquiry@.takes_symbols(
            ctx.importer_wrapped(),
            ctx.consumed_keys(rec_idx, importee_idx),
        ),
    ensures
        final(questions).about(*ctx),
        final(questions).extend(*old(questions)),
        forall|world: InitWorld| #[trigger]
            final(questions).fit(world) ==> targets@ == world.symbol_targets(
                consumed_symbols(
                    *ctx.importer,
                    rec_idx,
                    ctx.tables().meta(importee_idx).resolved_exports@,
                ),
                ctx.importer_wrapped(),
            ),
{
    let mut targets: Vec<ModuleIdx> = Vec::new();
    let mut visited_symbols: FxHashSet<(ModuleIdx, usize)> = FxHashSet::default();
    let exports: &Vec<ResolvedExport> = &ctx.metas[importee_idx].resolved_exports;
    let ghost db = *ctx.symbol_db;
    let ghost wrapped = ctx.importer_wrapped();
    let ghost inquiry = questions.inquiry@;
    let ghost nothing: Seq<ModuleIdx> = Seq::empty();
    if ctx.importer.import_records[rec_idx].meta.is_export_star {
        add_exported_symbols(ctx, questions, importee_idx, &mut targets, &mut visited_symbols);
        assert forall|world: InitWorld| #[trigger] questions.fit(world) implies targets@
            == world.symbol_targets(exported_symbols(exports@), wrapped) by {
            world.lemma_symbol_targets_follow(exported_symbols(exports@), wrapped);
        }
        return targets;
    }
    let imports: &Vec<NamedImport> = &ctx.importer.named_imports;
    let ghost taken = |import: NamedImport| imported_symbols(import, rec_idx, exports@);
    let ghost keys = ctx.consumed_keys(rec_idx, importee_idx);
    proof {
        assert(ctx.tables().module_wf(importee_idx));
        assert(resolved_keys(db, imports@.take(0).flat_map(taken)) =~= Seq::empty());
        assert forall|world: InitWorld| #[trigger] questions.fit(world) implies (
            targets@,
            visited_symbols@,
        ) == world.follow_all(
            wrapped,
            resolved_keys(db, imports@.take(0).flat_map(taken)),
            nothing,
            Set::empty(),
        ) by {
            world.lemma_follow_none(wrapped, nothing, Set::empty());
        }
        assert(imports@.take(imports@.len() as int) =~= imports@);
    }
    let mut k: usize = 0;
    while k < imports.len()
        invariant
            ctx.wf(),
            ctx.tables().module_wf(importee_idx),
            importee_idx < ctx.tables().module_count(),
            db == *ctx.symbol_db,
            wrapped == ctx.importer_wrapped(),
            *exports == ctx.tables().meta(importee_idx).resolved_exports,
            *imports == ctx.importer.named_imports,
            imports@.take(imports@.len() as int) == imports@,
            taken == (|import: NamedImport| imported_symbols(import, rec_idx, exports@)),
            keys == resolved_keys(db, imports@.flat_map(taken)),
            questions.about(*ctx),
            questions.inquiry@ == inquiry,
            questions.extend(*old(questions)),
            inquiry.takes_symbols(wrapped, keys),
            k <= imports@.len(),
            nothing == Seq::<ModuleIdx>::empty(),
            visited_symbols@.subset_of(symbol_keys(db)),
            keys_held(db, resolved_keys(db, imports@.take(k as int).flat_map(taken))),
            forall|world: InitWorld| #[trigger]
                questions.fit(world) ==> (targets@, visited_symbols@) == world.follow_all(
                    wrapped,
                    resolved_keys(db, imports@.take(k as int).flat_map(taken)),
                    nothing,
                    Set::empty(),
                ),
        decreases imports.len() - k,
    {
        let import = &imports[k];
        let ghost asked = *questions;
        let ghost so_far = resolved_keys(db, imports@.take(k as int).flat_map(taken));
        let ghost next = resolved_keys(db, taken(*import));
        proof {
            imports@.lemma_flat_map_take_append(taken, k as int);
            lemma_flat_map_begins(imports@, taken, k + 1, imports@.len() as int);
            let whole = resolved_keys(db, imports@.take(k + 1).flat_map(taken));
            assert(whole =~= so_far + next);
            assert forall|i: int| 0 <= i < next.len() implies symbol_keys(db).contains(
                #[trigger] next[i],
            ) by {
                assert(db.holds(imports@[k as int].imported_as));
                assert(db.holds(taken(*import)[i])) by {
                    if import.imported is Star {
                        assert(db.holds(exports@[i].symbol_ref));
                    }
                }
            }
            assert(keys_held(db, whole));
            assert forall|i: int| 0 <= i < next.len() implies inquiry.takes_symbol(
                wrapped,
                #[trigger] next[i],
            ) by {
                assert(whole[so_far.len() + i] == next[i]);
                assert(keys[so_far.len() + i] == whole[so_far.len() + i]);
            }
        }
        if import.record_idx == rec_idx {
            match &import.imported {
                Specifier::Star => {
                    assert(next == init_questions::export_keys(ctx.tables(), importee_idx));
                    add_exported_symbols(
                        ctx,
                        questions,
                        importee_idx,
                        &mut targets,
                        &mut visited_symbols,
                    );
                },
                Specifier::Literal(name) => {
                    let symbol_ref = find_exported_symbol(exports, name, import.imported_as);
                    assert(taken(*import)[0] == symbol_ref);
                    assert(next =~= seq![resolved_key(db, symbol_ref)]);
                    assert(inquiry.takes_symbol(wrapped, next[0]));
                    assert(symbol_keys(db).contains(next[0]));
                    assert(db.holds(symbol_ref));
                    add_wrapped_esm_init_target_for_symbol(
                        ctx,
                        questions,
                        symbol_ref,
                        &mut targets,
                        &mut visited_symbols,
                    );
                },
            }
        } else {
            assert(next =~= Seq::empty());
        }
        proof {
            questions.lemma_earlier_fit(asked);
            assert forall|world: InitWorld| #[trigger] questions.fit(world) implies (
                targets@,
                visited_symbols@,
            ) == world.follow_all(
                wrapped,
                resolved_keys(db, imports@.take(k + 1).flat_map(taken)),
                nothing,
                Set::empty(),
            ) by {
                assert(asked.fit(world));
                world.lemma_follow_more(wrapped, so_far, next, nothing, Set::empty());
                if next.len() == 0 {
                    assert(so_far + next =~= so_far);
                }
            }
        }
        k = k + 1;
    }
    assert forall|world: InitWorld| #[trigger] questions.fit(world) implies targets@
        == world.symbol_targets(imports@.flat_map(taken), wrapped) by {
        world.lemma_symbol_targets_follow(imports@.flat_map(taken), wrapped);
    }
    targets
}

/// The targets that are not discharged, in order.
fn retain_undischarged(targets: Vec<ModuleIdx>, discharged: &FxHashSet<ModuleIdx>) -> (kept: Vec<
    ModuleIdx,
>)
    ensures
        kept@ == targets@.filter(|m: ModuleIdx| !discharged@.contains(m)),
{
    let ghost keep = |m: ModuleIdx| !discharged@.contains(m);
    let mut kept: Vec<ModuleIdx> = Vec::new();
    let mut i: usize = 0;
    assert(targets@.take(0).filter(keep) =~= Seq::empty()) by {
        reveal_with_fuel(Seq::filter, 1);
    }
    while i < targets.len()
        invariant
            keep == (|m: ModuleIdx| !discharged@.contains(m)),
            i <= targets@.len(),
            kept@ == targets@.take(i as int).filter(keep),
        decreases targets.len() - i,
    {
        proof {
            assert(targets@.take(i + 1) =~= targets@.take(i as int).push(targets@[i as int]));
            targets@.take(i as int).lemma_filter_push(targets@[i as int], keep);
        }
        if !fx::set_contains(discharged, targets[i]) {
            kept.push(targets[i]);
        }
        i = i + 1;
    }
    assert(targets@.take(targets@.len() as int) =~= targets@);
    kept
}

/// The `init_*` functions that the importer has to call for the record, where it leaves to an eager
/// forwarder what `credit` says. The visited forwarders are those that are being looked into; `depth`
/// bounds how many more are looked into inside each other.
fn collect_esm_init_targets_for_record<F: Fn(SymbolRef) -> bool, G: Fn(ModuleIdx) -> bool>(
    ctx: &WrappedEsmInitTargetContext<'_>,
    questions: &mut InitQuestions<'_, F, G>,
    rec_idx: ImportRecordIdx,
    visited_forwarders: &FxHashSet<ModuleIdx>,
    credit: Credit,
    Ghost(depth): Ghost<nat>,
) -> (targets: Vec<ModuleIdx>)
    requires
        ctx.wf(),
        old(questions).about(*ctx),
        rec_idx < ctx.importer.import_records@.len(),
        old(questions).inquiry@.takes_walk(*ctx.importer, ctx.importer_wrapped(), rec_idx),
        visited_forwarders@.subset_of(ctx.tables().all_modules()),
        depth + visited_forwarders@.len() >= ctx.tables().module_count(),
    ensures
        final(questions).about(*ctx),
        final(questions).extend(*old(questions)),
        forall|world: InitWorld| #[trigger]
            final(questions).fit(world) ==> targets@ == world.record_targets(
                *ctx.importer,
                ctx.importer_wrapped(),
                rec_idx,
                visited_forwarders@,
                depth,
                credit,
            ),
    decreases depth, credit.rank(), 1nat,
{
    let importee_idx: ModuleIdx = match ctx.importer.import_records[rec_idx].resolved_module {
        Some(importee_idx) => importee_idx,
        None => return Vec::new(),
    };
    let importee_meta = &ctx.metas[importee_idx];
    let ghost inquiry = questions.inquiry@;
    assert(ctx.tables().module_wf(importee_idx));
    assert(inquiry.takes_record(*ctx.importer, ctx.importer_wrapped(), rec_idx));

    let mut importee_is_eager_forwarder: bool = false;
    if ctx.order_wrap_state.esm_init_target(importee_idx, importee_meta).is_none()
        && importee_meta.wrap_kind == WrapKind::Unwrapped && importee_meta.is_included {
        assert(inquiry.may_forward(importee_idx));
        importee_is_eager_forwarder = questions.owns_initialization(ctx, importee_idx);
    }
    let ghost owned = *questions;
    assert forall|world: InitWorld| #[trigger]
        owned.fit(world) implies importee_is_eager_forwarder == world.eager_forwarder(
        importee_idx,
    ) by {
        if inquiry.may_forward(importee_idx) {
            assert(owned.owns.given(importee_idx, importee_is_eager_forwarder));
        }
    }

    // The forwarder owns everything behind it.
    let left_everything: bool = importee_is_eager_forwarder && (!ctx.strict_execution_order
        || eager_forwarder_discharges_own_hops(ctx, importee_idx, importee_meta));
    if left_everything {
        return Vec::new();
    }
    let callable: bool = questions.is_callable(ctx, importee_idx);
    let ghost called = *questions;
    proof {
        called.lemma_earlier_fit(owned);
    }
    if callable {
        let mut targets: Vec<ModuleIdx> = Vec::new();
        targets.push(importee_idx);
        assert(targets@ =~= seq![importee_idx]);
        assert forall|world: InitWorld| #[trigger] questions.fit(world) implies targets@
            == world.record_targets(
            *ctx.importer,
            ctx.importer_wrapped(),
            rec_idx,
            visited_forwarders@,
            depth,
            credit,
        ) by {
            assert(owned.fit(world));
            assert(called.callable.given(importee_idx, true));
        }
        return targets;
    }
    proof {
        assert(called.callable.given(importee_idx, false));
        assert(inquiry.answers_callable(importee_idx, false));
        if inquiry.may_forward(importee_idx) && inquiry.takes_all(importee_idx) {
            assert(called.owns.given(importee_idx, false)) by {
                assert(owned.owns.given(importee_idx, importee_is_eager_forwarder));
            }
        }
        assert(inquiry.may_follow(importee_idx));
    }
    let targets = consumed_symbol_targets(ctx, questions, rec_idx, importee_idx);
    let ghost followed = *questions;
    proof {
        followed.lemma_earlier_fit(called);
        assert forall|world: InitWorld| #[trigger] followed.fit(world) implies {
            &&& world.wanted(*ctx.importer, ctx.importer_wrapped(), rec_idx) == targets@
            &&& !world.delegates_all(importee_idx)
            &&& !world.is_callable(importee_idx)
            &&& world.eager_forwarder(importee_idx) == importee_is_eager_forwarder
        } by {
            assert(called.fit(world));
            assert(owned.fit(world));
        }
    }
    if !importee_is_eager_forwarder {
        return targets;
    }
    if targets.len() == 0 {
        assert forall|world: InitWorld| #[trigger] questions.fit(world) implies targets@
            == world.record_targets(
            *ctx.importer,
            ctx.importer_wrapped(),
            rec_idx,
            visited_forwarders@,
            depth,
            credit,
        ) by {
            let calls = world.forwarder_calls(importee_idx, visited_forwarders@, depth, credit);
            seqs::lemma_filter_members(targets@, |m: ModuleIdx| !calls.contains(m));
            assert(followed.fit(world));
            assert(targets@.filter(|m: ModuleIdx| !calls.contains(m)) =~= targets@);
        }
        return targets;
    }
    proof {
        assert(called.owns.given(importee_idx, true)) by {
            assert(owned.owns.given(importee_idx, true));
        }
        if ctx.tables().is_normal(importee_idx) {
            inquiry.lemma_takes_hops(
                *ctx.importer,
                ctx.importer_wrapped(),
                rec_idx,
                importee_idx,
            );
        }
    }
    // The forwarder calls some of them itself; the importer calls the others.
    let mut path = fx::set_clone(visited_forwarders);
    match credit {
        Credit::Nothing => targets,
        Credit::Least => {
            let discharged = forwarder_discharged_targets(
                ctx,
                questions,
                importee_idx,
                &mut path,
                Ghost(depth),
            );
            proof {
                questions.lemma_earlier_fit(followed);
            }
            retain_undischarged(targets, &discharged)
        },
        Credit::Most => {
            let possible = forwarder_possible_targets(
                ctx,
                questions,
                importee_idx,
                &mut path,
                Ghost(depth),
            );
            proof {
                questions.lemma_earlier_fit(followed);
            }
            retain_undischarged(targets, &possible)
        },
    }
}

/// Where a module is missing from `path`, not all modules are in it.
proof fn lemma_missing_module_leaves_depth(
    tables: LinkTables,
    path: Set<ModuleIdx>,
    m: ModuleIdx,
)
    requires
        path.subset_of(tables.all_modules()),
        !path.contains(m),
        m < tables.module_count() <= usize::MAX,
    ensures
        path.finite(),
        path.len() < tables.module_count(),
        path.insert(m).len() == path.len() + 1,
{
    indices::lemma_below_bounds_len(tables.module_count(), path);
    indices::lemma_below_bounds_len(tables.module_count(), path.insert(m));
}

/// A record of a kept statement for which the module emits calls is among its hops.
proof fn lemma_hop_listed(tables: LinkTables, state: OrderWraps, m: ModuleIdx, s: int, r: int)
    requires
        NAMESPACE_STMT_IDX < s < tables.stmts(m).len(),
        0 <= r < tables.stmts(m)[s].import_records@.len(),
        tables.meta(m).keeps_stmt(s),
        emits_for(tables, state, m, tables.stmts(m)[s].import_records@[r]),
    ensures
        exists|k: int|
            0 <= k < hops(tables, state, m, tables.stmts(m).len()).len() && #[trigger] hops(
                tables,
                state,
                m,
                tables.stmts(m).len(),
            )[k] == tables.stmts(m)[s].import_records@[r],
{
    let records = tables.stmts(m)[s].import_records@;
    let emitting = |rec: ImportRecordIdx| emits_for(tables, state, m, rec);
    seqs::lemma_filter_members(records, emitting);
    assert(records.contains(records[r]));
    let kept = records.filter(emitting);
    assert(kept.contains(records[r]));
    let i = kept.index_of(records[r]);
    let before = hops(tables, state, m, s as nat);
    assert(hops(tables, state, m, (s + 1) as nat)[before.len() + i] == records[r]);
    lemma_hops_grow(tables, state, m, (s + 1) as nat, tables.stmts(m).len());
    assert(hops(tables, state, m, tables.stmts(m).len())[before.len() + i] == records[r]);
}

proof fn lemma_hops_grow(
    tables: LinkTables,
    state: OrderWraps,
    m: ModuleIdx,
    earlier: nat,
    later: nat,
)
    requires
        earlier <= later,
    ensures
        hops(tables, state, m, earlier).is_prefix_of(hops(tables, state, m, later)),
    decreases later,
{
    if earlier < later {
        lemma_hops_grow(tables, state, m, earlier, (later - 1) as nat);
    }
}

/// The modules whose `init_*` functions an eager forwarder calls for sure from its own kept
/// statements: never more than it calls, so that leaving these calls to it drops none. The visited
/// forwarders are those that are being looked into, and the forwarder becomes one of them. Where it
/// is one already, the forwarders lead in a circle, and it is not relied on for anything.
fn forwarder_discharged_targets<F: Fn(SymbolRef) -> bool, G: Fn(ModuleIdx) -> bool>(
    ctx: &WrappedEsmInitTargetContext<'_>,
    questions: &mut InitQuestions<'_, F, G>,
    forwarder_idx: ModuleIdx,
    visited_forwarders: &mut FxHashSet<ModuleIdx>,
    Ghost(depth): Ghost<nat>,
) -> (discharged: FxHashSet<ModuleIdx>)
    requires
        ctx.wf(),
        old(questions).about(*ctx),
        forwarder_idx < ctx.tables().module_count(),
        ctx.tables().is_normal(forwarder_idx) ==> old(questions).inquiry@.takes_hops(forwarder_idx),
        old(visited_forwarders)@.subset_of(ctx.tables().all_modules()),
        depth + old(visited_forwarders)@.len() >= ctx.tables().module_count(),
    ensures
        final(questions).about(*ctx),
        final(questions).extend(*old(questions)),
        forall|world: InitWorld| #[trigger]
            final(questions).fit(world) ==> discharged@ == world.forwarder_calls(
                forwarder_idx,
                old(visited_forwarders)@,
                depth,
                Credit::Least,
            ),
        forall|world: InitWorld, t: ModuleIdx|
            #![trigger final(questions).fit(world), discharged@.contains(t)]
            final(questions).fit(world) && discharged@.contains(t) ==> world.emits(
                forwarder_idx,
                t,
            ),
        final(visited_forwarders)@ == old(visited_forwarders)@.insert(forwarder_idx),
    decreases depth, 1nat, 0nat,
{
    let ghost before = visited_forwarders@;
    if !fx::set_insert(visited_forwarders, forwarder_idx) {
        assert(before.insert(forwarder_idx) =~= before);
        return FxHashSet::default();
    }
    if !ctx.modules[forwarder_idx].is_normal() {
        return FxHashSet::default();
    }
    proof {
        lemma_missing_module_leaves_depth(ctx.tables(), before, forwarder_idx);
    }
    let discharged = forwarder_hop_targets(
        ctx,
        questions,
        forwarder_idx,
        visited_forwarders,
        Credit::Most,
        Ghost((depth - 1) as nat),
    );
    assert forall|world: InitWorld| #[trigger] questions.fit(world) implies discharged@
        == world.forwarder_calls(forwarder_idx, before, depth, Credit::Least) by {}
    assert forall|world: InitWorld, t: ModuleIdx|
        #![trigger questions.fit(world), discharged@.contains(t)]
        questions.fit(world) && discharged@.contains(t) implies world.emits(forwarder_idx, t) by {
        world.law_discharged_is_emitted(forwarder_idx, before, depth, t);
    }
    discharged
}

/// The modules whose `init_*` functions an eager forwarder may call from its own kept statements:
/// everything that it is relied on for anywhere is among them. The forwarder becomes one of those
/// that are being looked into. Where it is one already, it may call whatever it needs.
fn forwarder_possible_targets<F: Fn(SymbolRef) -> bool, G: Fn(ModuleIdx) -> bool>(
    ctx: &WrappedEsmInitTargetContext<'_>,
    questions: &mut InitQuestions<'_, F, G>,
    forwarder_idx: ModuleIdx,
    visited_forwarders: &mut FxHashSet<ModuleIdx>,
    Ghost(depth): Ghost<nat>,
) -> (possible: FxHashSet<ModuleIdx>)
    requires
        ctx.wf(),
        old(questions).about(*ctx),
        forwarder_idx < ctx.tables().module_count(),
        ctx.tables().is_normal(forwarder_idx) ==> old(questions).inquiry@.takes_hops(forwarder_idx),
        old(visited_forwarders)@.subset_of(ctx.tables().all_modules()),
        depth + old(visited_forwarders)@.len() >= ctx.tables().module_count(),
    ensures
        final(questions).about(*ctx),
        final(questions).extend(*old(questions)),
        forall|world: InitWorld| #[trigger]
            final(questions).fit(world) ==> possible@ == world.forwarder_calls(
                forwarder_idx,
                old(visited_forwarders)@,
                depth,
                Credit::Most,
            ),
        final(visited_forwarders)@ == old(visited_forwarders)@.insert(forwarder_idx),
    decreases depth, 1nat, 0nat,
{
    let ghost before = visited_forwarders@;
    let first_time = fx::set_insert(visited_forwarders, forwarder_idx);
    if !ctx.modules[forwarder_idx].is_normal() {
        return FxHashSet::default();
    }
    if first_time {
        proof {
            lemma_missing_module_leaves_depth(ctx.tables(), before, forwarder_idx);
        }
        forwarder_hop_targets(
            ctx,
            questions,
            forwarder_idx,
            visited_forwarders,
            Credit::Least,
            Ghost((depth - 1) as nat),
        )
    } else {
        assert(before.insert(forwarder_idx) =~= before);
        forwarder_hop_targets(
            ctx,
            questions,
            forwarder_idx,
            visited_forwarders,
            Credit::Nothing,
            Ghost(depth),
        )
    }
}

/// The modules whose `init_*` functions the kept statements of a forwarder call, where the
/// forwarders behind it get the given credit. A statement that was dropped, or that a wrapped
/// ancestor walks through, calls nothing.
#[verifier::rlimit(40)]
fn forwarder_hop_targets<F: Fn(SymbolRef) -> bool, G: Fn(ModuleIdx) -> bool>(
    ctx: &WrappedEsmInitTargetContext<'_>,
    questions: &mut InitQuestions<'_, F, G>,
    forwarder_idx: ModuleIdx,
    visited_forwarders: &FxHashSet<ModuleIdx>,
    credit: Credit,
    Ghost(depth): Ghost<nat>,
) -> (called: FxHashSet<ModuleIdx>)
    requires
        ctx.wf(),
        old(questions).about(*ctx),
        ctx.tables().is_normal(forwarder_idx),
        old(questions).inquiry@.takes_hops(forwarder_idx),
        visited_forwarders@.subset_of(ctx.tables().all_modules()),
        depth + visited_forwarders@.len() >= ctx.tables().module_count(),
    ensures
        final(questions).about(*ctx),
        final(questions).extend(*old(questions)),
        forall|world: InitWorld| #[trigger]
            final(questions).fit(world) ==> called@ == world.records_targets(
                forwarder_idx,
                world.own_hops(forwarder_idx),
                visited_forwarders@,
                depth,
                credit,
            ),
    decreases depth, credit.rank(), 2nat,
{
    let mut called: FxHashSet<ModuleIdx> = FxHashSet::default();
    let ghost tables = ctx.tables();
    let ghost state = ctx.order_wrap_state@;
    let ghost inquiry = questions.inquiry@;
    let ghost wrapped = state.order_wrapped(forwarder_idx, tables.meta(forwarder_idx));
    let forwarder = match ctx.modules[forwarder_idx].as_normal() {
        Some(forwarder) => forwarder,
        None => return called,
    };
    proof {
        assert(tables.module_wf(forwarder_idx));
    }
    let ghost path = visited_forwarders@;
    let forwarder_meta = &ctx.metas[forwarder_idx];
    let forwarder_ctx = WrappedEsmInitTargetContext {
        importer: forwarder,
        importer_meta: forwarder_meta,
        modules: ctx.modules,
        metas: ctx.metas,
        stmt_infos: ctx.stmt_infos,
        symbol_db: ctx.symbol_db,
        order_wrap_state: ctx.order_wrap_state,
        strict_execution_order: ctx.strict_execution_order,
    };
    let stmts: &Vec<StmtInfo> = &ctx.stmt_infos[forwarder_idx].infos;
    let mut s: usize = NAMESPACE_STMT_IDX + 1;
    assert(hops(tables, state, forwarder_idx, s as nat) =~= Seq::empty());
    while s < stmts.len()
        invariant
            ctx.wf(),
            tables == ctx.tables(),
            state == ctx.order_wrap_state@,
            tables == forwarder_ctx.tables(),
            state == forwarder_ctx.order_wrap_state@,
            forwarder_ctx.strict_execution_order == ctx.strict_execution_order,
            forwarder_ctx.wf(),
            *forwarder_ctx.importer == tables.normal(forwarder_idx),
            forwarder == forwarder_ctx.importer,
            *forwarder_meta == tables.meta(forwarder_idx),
            wrapped == state.order_wrapped(forwarder_idx, tables.meta(forwarder_idx)),
            forwarder_ctx.importer_wrapped() == wrapped,
            tables.is_normal(forwarder_idx),
            tables.module_wf(forwarder_idx),
            stmts@ == tables.stmts(forwarder_idx),
            questions.about(*ctx),
            questions.inquiry@ == inquiry,
            questions.extend(*old(questions)),
            inquiry.takes_hops(forwarder_idx),
            NAMESPACE_STMT_IDX < s,
            s <= stmts@.len() || s == NAMESPACE_STMT_IDX + 1,
            path == visited_forwarders@,
            path.subset_of(tables.all_modules()),
            depth + path.len() >= tables.module_count(),
            forall|world: InitWorld| #[trigger]
                questions.fit(world) ==> called@ == world.records_targets(
                    forwarder_idx,
                    hops(tables, state, forwarder_idx, s as nat),
                    path,
                    depth,
                    credit,
                ),
        decreases stmts.len() - s,
    {
        let ghost done = hops(tables, state, forwarder_idx, s as nat);
        let ghost emits = |rec: ImportRecordIdx| emits_for(tables, state, forwarder_idx, rec);
        assert(forwarder_meta.stmt_info_included@.len() == stmts@.len());
        if forwarder_meta.stmt_info_included[s] {
            let records: &Vec<ImportRecordIdx> = &stmts[s].import_records;
            let mut r: usize = 0;
            proof {
                reveal_with_fuel(Seq::filter, 1);
                assert(records@.take(0).filter(emits) =~= Seq::empty());
                assert(done + Seq::<ImportRecordIdx>::empty() =~= done);
                assert(hops(tables, state, forwarder_idx, (s + 1) as nat) =~= done
                    + records@.filter(emits));
            }
            while r < records.len()
                invariant
                    ctx.wf(),
                    tables == ctx.tables(),
                    state == ctx.order_wrap_state@,
                    tables == forwarder_ctx.tables(),
                    state == forwarder_ctx.order_wrap_state@,
                    forwarder_ctx.strict_execution_order == ctx.strict_execution_order,
                    forwarder_ctx.wf(),
                    *forwarder_ctx.importer == tables.normal(forwarder_idx),
                    forwarder == forwarder_ctx.importer,
                    wrapped == state.order_wrapped(forwarder_idx, tables.meta(forwarder_idx)),
                    forwarder_ctx.importer_wrapped() == wrapped,
                    tables.is_normal(forwarder_idx),
                    tables.module_wf(forwarder_idx),
                    stmts@ == tables.stmts(forwarder_idx),
                    s < stmts@.len(),
                    tables.meta(forwarder_idx).keeps_stmt(s as int),
                    records@ == stmts@[s as int].import_records@,
                    emits == (|rec: ImportRecordIdx| emits_for(tables, state, forwarder_idx, rec)),
                    NAMESPACE_STMT_IDX < s,
                    hops(tables, state, forwarder_idx, (s + 1) as nat) == done + records@.filter(
                        emits,
                    ),
                    questions.about(*ctx),
                    questions.inquiry@ == inquiry,
                    questions.extend(*old(questions)),
                    inquiry.takes_hops(forwarder_idx),
                    inquiry.tables == tables,
                    inquiry.state == state,
                    r <= records@.len(),
                    path == visited_forwarders@,
                    path.subset_of(tables.all_modules()),
                    depth + path.len() >= tables.module_count(),
                    forall|world: InitWorld| #[trigger]
                        questions.fit(world) ==> called@ == world.records_targets(
                            forwarder_idx,
                            done + records@.take(r as int).filter(emits),
                            path,
                            depth,
                            credit,
                        ),
                decreases records.len() - r,
            {
                let rec_idx: ImportRecordIdx = records[r];
                assert(stmts@[s as int].import_records@[r as int] < forwarder.import_records@.len());
                let ghost so_far = done + records@.take(r as int).filter(emits);
                let ghost next = done + records@.take(r + 1).filter(emits);
                proof {
                    assert(records@.take(r + 1) =~= records@.take(r as int).push(rec_idx));
                    records@.take(r as int).lemma_filter_push(rec_idx, emits);
                }
                if forwarder.import_records[rec_idx].kind == ImportKind::Import
                    && !ctx.order_wrap_state.is_nested_reexport_record(forwarder_idx, rec_idx) {
                    let ghost asked = *questions;
                    let ghost before = called@;
                    proof {
                        assert(emits(rec_idx));
                        assert(next =~= so_far.push(rec_idx));
                        assert(next.drop_last() =~= so_far);
                        lemma_hop_listed(tables, state, forwarder_idx, s as int, r as int);
                        let k = choose|k: int|
                            0 <= k < inquiry.own_hops(forwarder_idx).len()
                                && #[trigger] inquiry.own_hops(forwarder_idx)[k] == rec_idx;
                        assert(inquiry.takes_walk(
                            tables.normal(forwarder_idx),
                            wrapped,
                            inquiry.own_hops(forwarder_idx)[k],
                        ));
                        assert(questions.about(forwarder_ctx));
                    }
                    let targets = collect_esm_init_targets_for_record(
                        &forwarder_ctx,
                        questions,
                        rec_idx,
                        visited_forwarders,
                        credit,
                        Ghost(depth),
                    );
                    fx::set_extend(&mut called, &targets);
                    proof {
                        assert(questions.about(*ctx));
                        questions.lemma_earlier_fit(asked);
                        assert forall|world: InitWorld| #[trigger] questions.fit(world) implies called@
                            == world.records_targets(forwarder_idx, next, path, depth, credit) by {
                            assert(asked.fit(world));
                            assert(before == world.records_targets(
                                forwarder_idx,
                                next.drop_last(),
                                path,
                                depth,
                                credit,
                            ));
                        }
                    }
                } else {
                    assert(!emits(rec_idx));
                    assert(next =~= so_far);
                }
                r = r + 1;
            }
            assert(records@.take(records@.len() as int) =~= records@);
        } else {
            assert(hops(tables, state, forwarder_idx, (s + 1) as nat) =~= done);
        }
        s = s + 1;
    }
    proof {
        if stmts@.len() <= NAMESPACE_STMT_IDX + 1 {
            assert(hops(tables, state, forwarder_idx, stmts@.len()) =~= hops(
                tables,
                state,
                forwarder_idx,
                s as nat,
            ));
        }
    }
    called
}

/// Resolves the direct and forwarded ESM `init_*` targets of one static import record.
///
/// An eager, kept forwarder that owns its initialization calls the `init_*` functions behind its
/// kept statements itself, before the importer runs, so the importer leaves those to it. A
/// statement of the forwarder that tree shaking dropped emits nothing, so what only that statement
/// reaches stays with the importer.
///
/// The closures are asked about modules as the search comes to them, and about none twice. Whatever
/// would be answered about other modules, the result is the same.
pub fn collect_wrapped_esm_init_targets_for_import_record<
    F: Fn(SymbolRef) -> bool,
    G: Fn(ModuleIdx) -> bool,
>(
    ctx: &WrappedEsmInitTargetContext<'_>,
    rec_idx: ImportRecordIdx,
    wrapper_is_reachable: F,
    forwarding_module_owns_initialization: G,
) -> (targets: Vec<ModuleIdx>)
    requires
        ctx.wf(),
        rec_idx < ctx.importer.import_records@.len(),
        ctx.inquiry(wrapper_is_reachable, forwarding_module_owns_initialization).takes_walk(
            *ctx.importer,
            ctx.importer_wrapped(),
            rec_idx,
        ),
    ensures
        exists|answers: InitAnswers|
            {
                &&& #[trigger] ctx.inquiry(
                    wrapper_is_reachable,
                    forwarding_module_owns_initialization,
                ).gave(answers)
                &&& forall|callable: Seq<bool>, owns: Seq<bool>|
                    answers.agree(callable, owns, ctx.tables().module_count()) ==> targets@
                        == #[trigger] ctx.init_targets(rec_idx, callable, owns)
            },
        forall|k: int|
            0 <= k < targets@.len() ==> (#[trigger] targets@[k]) < ctx.tables().module_count(),
{
    let mut questions = InitQuestions::new(
        ctx,
        &wrapper_is_reachable,
        &forwarding_module_owns_initialization,
    );
    let visited_forwarders: FxHashSet<ModuleIdx> = FxHashSet::default();
    let targets = collect_esm_init_targets_for_record(
        ctx,
        &mut questions,
        rec_idx,
        &visited_forwarders,
        Credit::Least,
        Ghost(ctx.tables().module_count()),
    );
    proof {
        let answers = questions.answers();
        questions.lemma_answers_given();
        assert(questions.inquiry@.gave(answers));
        assert forall|callable: Seq<bool>, owns: Seq<bool>|
            answers.agree(callable, owns, ctx.tables().module_count()) implies targets@
            == #[trigger] ctx.init_targets(rec_idx, callable, owns) by {
            questions.lemma_agree_fits(ctx.world(callable, owns));
            assert(questions.fit(ctx.world(callable, owns)));
        }
        let world = questions.lemma_some_world();
        assert forall|k: int| 0 <= k < targets@.len() implies (#[trigger] targets@[k])
            < ctx.tables().module_count() by {
            assert(targets@.contains(targets@[k]));
            world.law_targets_are_callable(
                *ctx.importer,
                ctx.importer_wrapped(),
                rec_idx,
                Set::empty(),
                ctx.tables().module_count(),
                Credit::Least,
                targets@[k],
            );
        }
    }
    targets
}

} // verus!
