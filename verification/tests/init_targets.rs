use std::cell::RefCell;

use order_analysis::init_targets::{
    collect_wrapped_esm_init_targets_for_import_record, eager_forwarder_discharges_own_hops,
    wrapped_esm_target_is_reachable, WrappedEsmInitTargetContext,
};
use order_analysis::link::{
    ConcatenateWrappedModuleKind, EcmaViewMeta, ExportsKind, ImportKind, ImportRecord,
    ImportRecordMeta, LinkingMetadata, Module, NamedImport, NormalModule, ResolvedExport,
    RuntimeHelper, Specifier, StmtInfo, StmtInfos, SymbolLink, SymbolRef, SymbolRefDb, WrapKind,
};
use order_analysis::wrap_state::{EsmInitOrigin, EsmInitTarget, OrderWrapState};

const SYMBOLS: usize = 4;

fn symbol(owner: usize, symbol: usize) -> SymbolRef {
    SymbolRef { owner, symbol }
}

/// The tables of a program of kept ESM modules.
struct Program {
    modules: Vec<Module>,
    metas: Vec<LinkingMetadata>,
    stmt_infos: Vec<StmtInfos>,
    symbol_db: SymbolRefDb,
    state: OrderWrapState,
}

/// `imports[m]` lists what module `m` imports statically, one statement each.
fn program(imports: Vec<Vec<usize>>) -> Program {
    let mut modules = Vec::new();
    let mut metas = Vec::new();
    let mut stmt_infos = Vec::new();
    let mut links = Vec::new();
    let module_count = imports.len();
    for (idx, targets) in imports.into_iter().enumerate() {
        let mut infos = vec![StmtInfo { import_records: vec![], referenced_symbols: vec![] }];
        let mut import_records = Vec::new();
        for to in targets {
            infos.push(StmtInfo {
                import_records: vec![import_records.len()],
                referenced_symbols: vec![],
            });
            import_records.push(ImportRecord {
                kind: ImportKind::Import,
                meta: ImportRecordMeta { is_export_star: false, is_re_export_only: false },
                resolved_module: Some(to),
            });
        }
        metas.push(LinkingMetadata {
            is_included: true,
            wrap_kind: WrapKind::Unwrapped,
            wrapper_ref: None,
            concatenated_wrapped_module_kind: ConcatenateWrappedModuleKind::Separate,
            resolved_exports: vec![],
            stmt_info_included: vec![true; infos.len()],
            execution_dependencies: vec![],
            resolved_member_expr_refs: vec![],
        });
        modules.push(Module::Normal(NormalModule {
            idx,
            exports_kind: ExportsKind::Esm,
            meta: EcmaViewMeta { execution_order_sensitive: false, top_level_import_read: false },
            import_records,
            named_imports: vec![],
            namespace_object_ref: symbol(idx, 0),
        }));
        stmt_infos.push(StmtInfos { infos });
        links.push(
            (0..SYMBOLS)
                .map(|number| SymbolLink {
                    canonical: symbol(idx, number),
                    resolving_namespace: symbol(idx, number),
                })
                .collect(),
        );
    }
    Program {
        modules,
        metas,
        stmt_infos,
        symbol_db: SymbolRefDb { links },
        state: OrderWrapState::with_module_count(module_count),
    }
}

impl Program {
    fn normal(&mut self, m: usize) -> &mut NormalModule {
        match &mut self.modules[m] {
            Module::Normal(module) => module,
            Module::External => panic!("module {} is not bundled", m),
        }
    }

    /// Gives module `m` an order wrapper.
    fn wrap(&mut self, m: usize) {
        self.state.insert_order_wrapper(m, symbol(m, 3), RuntimeHelper { id: 0 });
    }

    /// Module `m` takes `imported` through its record `rec`.
    fn take(&mut self, m: usize, rec: usize, imported: Specifier) {
        self.normal(m).named_imports.push(NamedImport {
            imported,
            imported_as: symbol(m, 2),
            record_idx: rec,
        });
    }

    fn take_name(&mut self, m: usize, rec: usize, name: &str) {
        self.take(m, rec, Specifier::Literal(String::from(name)));
    }

    fn export(&mut self, m: usize, name: &str, symbol_ref: SymbolRef) {
        self.metas[m]
            .resolved_exports
            .push(ResolvedExport { name: String::from(name), symbol_ref });
    }

    fn context(&self, importer: usize, strict_execution_order: bool) -> WrappedEsmInitTargetContext<'_> {
        let importer = match &self.modules[importer] {
            Module::Normal(module) => module,
            Module::External => panic!("module {} is not bundled", importer),
        };
        WrappedEsmInitTargetContext {
            importer,
            importer_meta: &self.metas[importer.idx],
            modules: &self.modules,
            metas: &self.metas,
            stmt_infos: &self.stmt_infos,
            symbol_db: &self.symbol_db,
            order_wrap_state: &self.state,
            strict_execution_order,
        }
    }

    /// The targets of a record where every wrapper is in reach, and the modules in `chunk` live in
    /// the chunk of the importer.
    fn targets(&self, importer: usize, rec: usize, chunk: &[usize]) -> Vec<usize> {
        collect_wrapped_esm_init_targets_for_import_record(
            &self.context(importer, true),
            rec,
            |_| true,
            |m| chunk.contains(&m),
        )
    }
}

#[test]
fn an_unresolved_import_calls_nothing() {
    let mut program = program(vec![vec![1], vec![]]);
    program.wrap(1);
    program.normal(0).import_records[0].resolved_module = None;
    assert!(program.targets(0, 0, &[]).is_empty());
}

#[test]
fn a_wrapped_importee_is_called_itself() {
    let mut program = program(vec![vec![1], vec![]]);
    assert!(program.targets(0, 0, &[]).is_empty());
    program.wrap(1);
    assert_eq!(program.targets(0, 0, &[]), vec![1]);
}

#[test]
fn an_interop_wrapper_counts_only_with_its_symbol() {
    let mut program = program(vec![vec![1], vec![]]);
    program.metas[1].wrap_kind = WrapKind::Esm;
    assert!(program.targets(0, 0, &[]).is_empty());
    program.metas[1].wrapper_ref = Some(symbol(1, 3));
    assert_eq!(program.targets(0, 0, &[]), vec![1]);
    assert_eq!(
        program.state.esm_init_target(1, &program.metas[1]),
        Some(EsmInitTarget { wrapper_ref: symbol(1, 3), origin: EsmInitOrigin::Interop })
    );
    program.metas[1].wrap_kind = WrapKind::Cjs;
    assert!(program.targets(0, 0, &[]).is_empty());
}

#[test]
fn a_target_must_be_kept_in_reach_and_have_its_own_wrapper() {
    let mut program = program(vec![vec![1], vec![]]);
    let reachable = |program: &Program, in_reach: bool| {
        let answer = move |_: SymbolRef| in_reach;
        wrapped_esm_target_is_reachable(1, &program.metas[1], &program.state, &answer)
    };
    assert!(!reachable(&program, true));
    program.wrap(1);
    assert!(reachable(&program, true));
    assert!(!reachable(&program, false));
    program.metas[1].concatenated_wrapped_module_kind = ConcatenateWrappedModuleKind::Inner;
    assert!(!reachable(&program, true));
    program.metas[1].concatenated_wrapped_module_kind = ConcatenateWrappedModuleKind::Root;
    assert!(reachable(&program, true));
    program.metas[1].is_included = false;
    assert!(!reachable(&program, true));
}

/// Module 0 imports the barrel 1, which imports the wrapped modules 2 and 3.
fn barrel() -> Program {
    let mut program = program(vec![vec![1], vec![2, 3], vec![], vec![]]);
    program.wrap(2);
    program.wrap(3);
    program.export(1, "a", symbol(2, 1));
    program.export(1, "b", symbol(3, 1));
    program.export(1, "c", symbol(2, 2));
    program
}

#[test]
fn an_import_calls_what_the_names_it_takes_lead_to() {
    let mut program = barrel();
    assert!(program.targets(0, 0, &[]).is_empty());
    program.take_name(0, 0, "b");
    assert_eq!(program.targets(0, 0, &[]), vec![3]);
    program.take_name(0, 0, "a");
    assert_eq!(program.targets(0, 0, &[]), vec![3, 2]);
}

#[test]
fn each_symbol_is_followed_once_but_two_symbols_of_one_module_twice() {
    let mut program = barrel();
    program.take_name(0, 0, "a");
    program.take_name(0, 0, "a");
    assert_eq!(program.targets(0, 0, &[]), vec![2]);
    program.take_name(0, 0, "c");
    assert_eq!(program.targets(0, 0, &[]), vec![2, 2]);
}

#[test]
fn names_taken_through_another_record_do_not_count() {
    let mut program = barrel();
    program.take_name(0, 5, "a");
    assert!(program.targets(0, 0, &[]).is_empty());
}

#[test]
fn a_name_that_is_not_exported_falls_back_to_the_local_symbol() {
    let mut program = barrel();
    program.take_name(0, 0, "missing");
    assert!(program.targets(0, 0, &[]).is_empty());
    program.symbol_db.links[0][2].resolving_namespace = symbol(3, 1);
    assert_eq!(program.targets(0, 0, &[]), vec![3]);
}

#[test]
fn a_namespace_import_or_star_export_takes_every_export() {
    let mut star = barrel();
    star.take(0, 0, Specifier::Star);
    assert_eq!(star.targets(0, 0, &[]), vec![2, 3, 2]);
    let mut reexport = barrel();
    reexport.normal(0).import_records[0].meta.is_export_star = true;
    assert_eq!(reexport.targets(0, 0, &[]), vec![2, 3, 2]);
}

#[test]
fn only_an_order_wrapped_importer_looks_behind_a_dropped_namespace() {
    // The barrel exports the namespace object of module 2, which was dropped and exports `a` of
    // the wrapped module 3.
    let mut program = program(vec![vec![1], vec![2], vec![3], vec![]]);
    program.wrap(3);
    program.metas[2].is_included = false;
    program.export(1, "ns", symbol(2, 0));
    program.export(2, "a", symbol(3, 1));
    program.take_name(0, 0, "ns");
    assert!(program.targets(0, 0, &[]).is_empty());
    program.wrap(0);
    assert_eq!(program.targets(0, 0, &[]), vec![3]);
    program.metas[2].is_included = true;
    assert!(program.targets(0, 0, &[]).is_empty());
}

#[test]
fn namespaces_that_contain_each_other_are_followed_once() {
    let mut program = program(vec![vec![1], vec![], vec![], vec![]]);
    program.wrap(0);
    program.wrap(3);
    program.metas[1].is_included = false;
    program.metas[2].is_included = false;
    program.export(1, "other", symbol(2, 0));
    program.export(2, "back", symbol(1, 0));
    program.export(2, "a", symbol(3, 1));
    program.normal(0).import_records[0].meta.is_export_star = true;
    assert_eq!(program.targets(0, 0, &[]), vec![3]);
}

#[test]
fn a_forwarder_with_all_imports_kept_is_left_to_call_them() {
    let mut program = barrel();
    program.take_name(0, 0, "a");
    let context = program.context(0, true);
    assert!(eager_forwarder_discharges_own_hops(&context, 1, &program.metas[1]));
    assert!(program.targets(0, 0, &[1]).is_empty());
    assert_eq!(program.targets(0, 0, &[0]), vec![2]);
}

#[test]
fn a_forwarder_without_imports_is_left_to_call_everything() {
    let mut program = program(vec![vec![1], vec![], vec![]]);
    program.wrap(2);
    program.export(1, "a", symbol(2, 1));
    program.take_name(0, 0, "a");
    assert_eq!(program.targets(0, 0, &[]), vec![2]);
    assert!(program.targets(0, 0, &[1]).is_empty());
}

#[test]
fn a_dropped_hop_stays_with_the_importer() {
    let mut program = barrel();
    program.take_name(0, 0, "a");
    program.take_name(0, 0, "b");
    // The statement that imports module 3 was dropped.
    program.metas[1].stmt_info_included[2] = false;
    let context = program.context(0, true);
    assert!(!eager_forwarder_discharges_own_hops(&context, 1, &program.metas[1]));
    assert_eq!(program.targets(0, 0, &[1]), vec![3]);
    // A `require` that was dropped is no hop.
    program.normal(1).import_records[1].kind = ImportKind::Require;
    assert!(program.targets(0, 0, &[1]).is_empty());
}

#[test]
fn a_hop_that_an_ancestor_walks_through_stays_with_the_importer() {
    let mut program = barrel();
    program.take_name(0, 0, "a");
    program.take_name(0, 0, "b");
    program.metas[1].stmt_info_included[2] = false;
    program.state.nested_reexport_records.insert((1, 0));
    assert!(program.state.is_nested_reexport_record(1, 0));
    assert!(!program.state.is_nested_reexport_record(1, 1));
    assert_eq!(program.targets(0, 0, &[1]), vec![2, 3]);
}

#[test]
fn without_strict_order_a_forwarder_owns_everything() {
    let mut program = barrel();
    program.take_name(0, 0, "b");
    program.metas[1].stmt_info_included[2] = false;
    let targets = collect_wrapped_esm_init_targets_for_import_record(
        &program.context(0, false),
        0,
        |_| true,
        |m| m == 1,
    );
    assert!(targets.is_empty());
    let elsewhere = collect_wrapped_esm_init_targets_for_import_record(
        &program.context(0, false),
        0,
        |_| true,
        |_| false,
    );
    assert_eq!(elsewhere, vec![3]);
}

#[test]
fn a_dropped_forwarder_calls_nothing() {
    let mut program = barrel();
    program.take_name(0, 0, "a");
    program.metas[1].is_included = false;
    assert_eq!(program.targets(0, 0, &[1]), vec![2]);
}

#[test]
fn a_wrapper_out_of_reach_is_not_called() {
    let mut program = barrel();
    program.take(0, 0, Specifier::Star);
    let targets = collect_wrapped_esm_init_targets_for_import_record(
        &program.context(0, true),
        0,
        |wrapper| wrapper.owner == 3,
        |_| false,
    );
    assert_eq!(targets, vec![3]);
}

/// Forwarders 0, 1, .. in a circle, each with a dropped import besides. All pass on `a` of the
/// wrapped last module.
fn circle(length: usize) -> Program {
    let last = length;
    let mut imports: Vec<Vec<usize>> =
        (0..length).map(|m| vec![(m + 1) % length, last]).collect();
    imports.push(vec![]);
    let mut program = program(imports);
    program.wrap(last);
    for m in 0..length {
        program.take_name(m, 0, "a");
        program.export(m, "a", symbol(last, 1));
        program.metas[m].stmt_info_included[2] = false;
    }
    program
}

#[test]
fn two_forwarders_that_rely_on_each_other_both_call() {
    let program = circle(2);
    assert_eq!(program.targets(0, 0, &[0, 1]), vec![2]);
    assert_eq!(program.targets(1, 0, &[0, 1]), vec![2]);
}

#[test]
fn forwarders_in_a_longer_circle_all_call() {
    for length in 3..6 {
        let program = circle(length);
        let chunk: Vec<usize> = (0..length).collect();
        for m in 0..length {
            assert_eq!(program.targets(m, 0, &chunk), vec![length]);
        }
    }
}

#[test]
fn a_forwarder_that_is_come_to_twice_counts_both_times() {
    // 0 imports forwarder 1, which imports forwarder 2 twice, for `b` and for `a`. Forwarder 2
    // leaves `a` to forwarder 3, which calls it. So 1 calls it too, and 0 leaves it to 1.
    let mut program = program(vec![
        vec![1],
        vec![2, 2, 4],
        vec![3, 4],
        vec![4, 4],
        vec![],
        vec![],
    ]);
    program.wrap(4);
    program.wrap(5);
    for m in 1..4 {
        let last = program.metas[m].stmt_info_included.len() - 1;
        program.metas[m].stmt_info_included[last] = false;
        program.export(m, "a", symbol(4, 1));
    }
    program.export(2, "b", symbol(5, 1));
    program.take_name(0, 0, "a");
    program.take_name(1, 0, "b");
    program.take_name(1, 1, "a");
    program.take_name(2, 0, "a");
    let chunk = [1, 2, 3];
    assert_eq!(program.targets(3, 0, &chunk), vec![4]);
    assert!(program.targets(2, 0, &chunk).is_empty());
    assert_eq!(program.targets(1, 0, &chunk), vec![5]);
    assert_eq!(program.targets(1, 1, &chunk), vec![4]);
    assert!(program.targets(0, 0, &chunk).is_empty());
}

#[test]
fn a_forwarder_that_imports_itself_calls_and_so_does_its_importer() {
    // 0 imports forwarder 1, which imports itself and the wrapped module 2; that import is dropped.
    let mut program = program(vec![vec![1], vec![1, 2], vec![]]);
    program.wrap(2);
    program.take_name(0, 0, "a");
    program.take_name(1, 0, "a");
    program.export(1, "a", symbol(2, 1));
    program.metas[1].stmt_info_included[2] = false;
    assert_eq!(program.targets(1, 0, &[1]), vec![2]);
    assert_eq!(program.targets(0, 0, &[1]), vec![2]);
}

#[test]
fn an_importer_keeps_in_order_what_the_forwarder_does_not_call() {
    // 0 takes `a`, `b` and `c` through forwarder 1, which keeps only its import of `b`.
    let mut program = program(vec![vec![1], vec![2, 3, 4], vec![], vec![], vec![]]);
    for (m, name) in [(2, "a"), (3, "b"), (4, "c")] {
        program.wrap(m);
        program.take_name(0, 0, name);
        program.export(1, name, symbol(m, 1));
    }
    program.metas[1].stmt_info_included[1] = false;
    program.metas[1].stmt_info_included[3] = false;
    assert_eq!(program.targets(0, 0, &[]), vec![2, 3, 4]);
    assert_eq!(program.targets(1, 1, &[1]), vec![3]);
    assert_eq!(program.targets(0, 0, &[1]), vec![2, 4]);
}

#[test]
fn a_chain_of_forwarders_calls_at_its_end() {
    // 0 imports forwarder 1, which imports forwarder 2, which imports the wrapped module 3.
    let mut program = program(vec![vec![1], vec![2, 3], vec![3, 3], vec![]]);
    program.wrap(3);
    for m in 0..3 {
        program.take_name(m, 0, "a");
    }
    program.export(1, "a", symbol(3, 1));
    program.export(2, "a", symbol(3, 1));
    program.metas[1].stmt_info_included[2] = false;
    program.metas[2].stmt_info_included[2] = false;
    assert_eq!(program.targets(2, 0, &[1, 2]), vec![3]);
    assert!(program.targets(1, 0, &[1, 2]).is_empty());
    assert_eq!(program.targets(0, 0, &[1, 2]), vec![3]);
}

/// The targets of the record, and what the two closures were asked, in order. Every wrapper is in
/// reach, and the modules in `chunk` own their initialization.
fn asked(
    program: &Program,
    importer: usize,
    strict: bool,
    chunk: &[usize],
) -> (Vec<usize>, Vec<usize>, Vec<usize>) {
    let wrappers = RefCell::new(vec![]);
    let owners = RefCell::new(vec![]);
    let targets = collect_wrapped_esm_init_targets_for_import_record(
        &program.context(importer, strict),
        0,
        |wrapper| {
            wrappers.borrow_mut().push(wrapper.owner);
            true
        },
        |m| {
            owners.borrow_mut().push(m);
            chunk.contains(&m)
        },
    );
    (targets, wrappers.into_inner(), owners.into_inner())
}

#[test]
fn a_wrapped_importee_is_the_only_module_asked_about() {
    let mut program = program(vec![vec![1], vec![2], vec![]]);
    program.wrap(1);
    program.wrap(2);
    program.take_name(0, 0, "a");
    program.export(1, "a", symbol(2, 1));
    assert_eq!(asked(&program, 0, true, &[]), (vec![1], vec![1], vec![]));
}

#[test]
fn only_modules_on_the_way_are_asked_about() {
    let mut program = barrel();
    program.take_name(0, 0, "a");
    assert_eq!(asked(&program, 0, true, &[]), (vec![2], vec![2], vec![1]));
}

#[test]
fn nothing_behind_a_forwarder_that_is_left_everything_is_asked_about() {
    let mut program = barrel();
    program.take_name(0, 0, "a");
    assert_eq!(asked(&program, 0, true, &[1]), (vec![], vec![], vec![1]));
    program.metas[1].stmt_info_included[1] = false;
    assert_eq!(asked(&program, 0, false, &[1]), (vec![], vec![], vec![1]));
}

#[test]
fn no_module_is_asked_about_twice() {
    let program = circle(3);
    assert_eq!(asked(&program, 0, true, &[0, 1, 2]), (vec![3], vec![3], vec![1, 2, 0]));
}
