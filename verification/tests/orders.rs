use order_analysis::actual_order::sorted_chunk_imports;
use order_analysis::chunks::{Chunk, ChunkGraph};
use order_analysis::link::{
    ConcatenateWrappedModuleKind, EcmaViewMeta, ExportsKind, ImportKind, ImportRecord,
    ImportRecordMeta, LinkStageOutput, LinkingMetadata, Module, ModuleTable, NormalModule,
    RuntimeHelper, RuntimeModule, StmtInfo, StmtInfos, SymbolLink, SymbolRef, SymbolRefDb, WrapKind,
};
use order_analysis::stage::{BundlerOptions, GenerateStage};
use order_analysis::visit::{unvisited_states, VisitState};
use rustc_hash::{FxHashMap, FxHashSet};

const STRICT: BundlerOptions =
    BundlerOptions { strict_execution_order: true, on_demand_wrapping: true };

/// A module of a test program: what it imports and how, and what linking decided about it.
struct Source {
    imports: Vec<(ImportKind, usize)>,
    sensitive: bool,
    included: bool,
    external: bool,
    wrap_kind: WrapKind,
    exports_kind: ExportsKind,
}

fn source(imports: Vec<usize>) -> Source {
    Source {
        imports: imports.into_iter().map(|to| (ImportKind::Import, to)).collect(),
        sensitive: true,
        included: true,
        external: false,
        wrap_kind: WrapKind::Unwrapped,
        exports_kind: ExportsKind::Esm,
    }
}

fn interop(imports: Vec<usize>) -> Source {
    Source { wrap_kind: WrapKind::Cjs, exports_kind: ExportsKind::CommonJs, ..source(imports) }
}

fn program(sources: Vec<Source>, entries: Vec<usize>) -> LinkStageOutput {
    let mut modules = Vec::new();
    let mut metas = Vec::new();
    let mut stmt_infos = Vec::new();
    let mut links = Vec::new();
    for (idx, source) in sources.into_iter().enumerate() {
        let namespace = SymbolRef { owner: idx, symbol: 0 };
        let mut infos = vec![StmtInfo { import_records: vec![], referenced_symbols: vec![] }];
        let mut import_records = Vec::new();
        for (kind, to) in &source.imports {
            infos.push(StmtInfo {
                import_records: vec![import_records.len()],
                referenced_symbols: vec![],
            });
            import_records.push(ImportRecord {
                kind: *kind,
                meta: ImportRecordMeta { is_export_star: false, is_re_export_only: false },
                resolved_module: Some(*to),
            });
        }
        metas.push(LinkingMetadata {
            is_included: source.included,
            wrap_kind: source.wrap_kind,
            wrapper_ref: None,
            concatenated_wrapped_module_kind: ConcatenateWrappedModuleKind::Separate,
            resolved_exports: vec![],
            stmt_info_included: vec![true; infos.len()],
            execution_dependencies: vec![],
            resolved_member_expr_refs: vec![],
        });
        modules.push(if source.external {
            Module::External
        } else {
            Module::Normal(NormalModule {
                idx,
                exports_kind: source.exports_kind,
                meta: EcmaViewMeta {
                    execution_order_sensitive: source.sensitive,
                    top_level_import_read: false,
                },
                import_records,
                named_imports: vec![],
                namespace_object_ref: namespace,
            })
        });
        stmt_infos.push(StmtInfos { infos });
        links.push(vec![SymbolLink { canonical: namespace, resolving_namespace: namespace }]);
    }
    LinkStageOutput {
        module_table: ModuleTable { modules },
        entries,
        metas,
        stmt_infos,
        symbol_db: SymbolRefDb { links },
        runtime: RuntimeModule { id: usize::MAX, esm_helper: RuntimeHelper { id: 0 } },
        normal_symbol_exports_chain_map: FxHashMap::default(),
    }
}

fn stage(link_output: &LinkStageOutput) -> GenerateStage<'_> {
    GenerateStage { link_output, options: &STRICT }
}

fn chunks(module_count: usize, hosted: Vec<(u32, Vec<usize>)>) -> ChunkGraph {
    let mut module_to_chunk = vec![None; module_count];
    let mut chunk_table = Vec::new();
    for (chunk, (exec_order, modules)) in hosted.into_iter().enumerate() {
        for module in &modules {
            module_to_chunk[*module] = Some(chunk);
        }
        chunk_table.push(Chunk { modules, exec_order });
    }
    ChunkGraph {
        chunk_table,
        module_to_chunk,
        entry_module_to_entry_chunk: FxHashMap::default(),
        module_in_live_chunk: vec![true; module_count],
    }
}

fn edges(lists: Vec<Vec<usize>>) -> Vec<FxHashSet<usize>> {
    lists.into_iter().map(|list| list.into_iter().collect()).collect()
}

fn set(members: Vec<usize>) -> FxHashSet<usize> {
    members.into_iter().collect()
}

#[test]
fn imports_are_expected_before_their_importer_in_written_order() {
    let link = program(vec![source(vec![2, 1]), source(vec![3]), source(vec![3]), source(vec![])], vec![0]);
    assert_eq!(stage(&link).expected_order_for_root(0), vec![3, 2, 1, 0]);
    assert_eq!(stage(&link).expected_order_for_root(1), vec![3, 1]);
}

#[test]
fn circular_imports_are_expected_once() {
    let link = program(vec![source(vec![1]), source(vec![0, 2]), source(vec![1])], vec![0]);
    assert_eq!(stage(&link).expected_order_for_root(0), vec![2, 1, 0]);
    assert_eq!(stage(&link).expected_order_for_root(1), vec![0, 2, 1]);
}

#[test]
fn only_kept_bundled_modules_behind_static_imports_are_expected() {
    let dropped = Source { included: false, ..source(vec![3]) };
    let outside = Source { external: true, ..source(vec![]) };
    let mut entry = source(vec![1, 2]);
    entry.imports.push((ImportKind::DynamicImport, 4));
    entry.imports.push((ImportKind::Require, 4));
    let link = program(vec![entry, dropped, outside, source(vec![]), source(vec![])], vec![0]);
    assert_eq!(stage(&link).expected_order_for_root(0), vec![3, 0]);
    assert!(stage(&link).expected_order_for_root(2).is_empty());
}

#[test]
fn shared_states_leave_out_what_was_visited() {
    let link = program(vec![source(vec![2]), source(vec![2]), source(vec![]), source(vec![])], vec![0, 1]);
    let stage = stage(&link);
    let mut states = unvisited_states(4);
    assert_eq!(stage.expected_order_for_root_with_states(0, &mut states), vec![2, 0]);
    assert_eq!(
        states,
        vec![VisitState::Done, VisitState::Unvisited, VisitState::Done, VisitState::Unvisited]
    );
    assert_eq!(stage.expected_order_for_root_with_states(1, &mut states), vec![1]);
    assert!(stage.expected_order_for_root_with_states(1, &mut states).is_empty());
    assert_eq!(
        states,
        vec![VisitState::Done, VisitState::Done, VisitState::Done, VisitState::Unvisited]
    );
}

#[test]
fn chunk_imports_are_listed_by_execution_order() {
    let graph = chunks(0, vec![(0, vec![]), (3, vec![]), (1, vec![]), (2, vec![])]);
    let imports = sorted_chunk_imports(&graph, &edges(vec![vec![1, 2, 3], vec![], vec![3, 1], vec![]]));
    assert_eq!(imports, vec![vec![2, 3, 1], vec![], vec![3, 1], vec![]]);
}

#[test]
fn imported_chunks_run_first_in_execution_order() {
    let link = program(vec![source(vec![]), source(vec![]), source(vec![]), source(vec![])], vec![0]);
    let graph = chunks(4, vec![(9, vec![0]), (2, vec![1, 3]), (1, vec![2])]);
    let imports = sorted_chunk_imports(&graph, &edges(vec![vec![1, 2], vec![], vec![]]));
    let (order, hosts) = stage(&link).actual_order_for_root(0, 0, &graph, &imports);
    assert_eq!(order, vec![2, 1, 3, 0]);
    assert!(hosts.is_empty());
}

#[test]
fn chunks_that_import_each_other_run_once() {
    let link = program(vec![source(vec![]), source(vec![])], vec![0]);
    let graph = chunks(2, vec![(0, vec![0]), (1, vec![1])]);
    let imports = sorted_chunk_imports(&graph, &edges(vec![vec![1], vec![0]]));
    let (order, _) = stage(&link).actual_order_for_root(0, 0, &graph, &imports);
    assert_eq!(order, vec![1, 0]);
}

#[test]
fn interop_modules_run_where_they_are_first_called() {
    // 0 and 1 both import the interop module 2, which requires the interop module 3.
    let mut wrapped = interop(vec![]);
    wrapped.imports.push((ImportKind::Require, 3));
    let link = program(vec![source(vec![2]), source(vec![2]), wrapped, interop(vec![])], vec![0]);
    let graph = chunks(4, vec![(0, vec![2, 3, 1, 0])]);
    let imports = sorted_chunk_imports(&graph, &edges(vec![vec![]]));
    let (order, hosts) = stage(&link).actual_order_for_root(0, 0, &graph, &imports);
    assert_eq!(order, vec![3, 2, 1, 0]);
    assert_eq!(hosts, [(2, 1), (3, 1)].into_iter().collect());
}

#[test]
fn a_wrapped_entry_is_called_after_its_chunk() {
    let link = program(vec![interop(vec![]), source(vec![])], vec![0]);
    let graph = chunks(2, vec![(0, vec![0, 1])]);
    let imports = sorted_chunk_imports(&graph, &edges(vec![vec![]]));
    let (order, hosts) = stage(&link).actual_order_for_root(0, 0, &graph, &imports);
    assert_eq!(order, vec![1, 0]);
    assert!(hosts.is_empty());
}

#[test]
fn dropped_and_outside_modules_do_not_run() {
    let dropped = Source { included: false, ..source(vec![]) };
    let outside = Source { external: true, wrap_kind: WrapKind::Cjs, ..source(vec![]) };
    let link = program(vec![source(vec![2]), dropped, outside], vec![0]);
    let graph = chunks(3, vec![(0, vec![1, 0])]);
    let imports = sorted_chunk_imports(&graph, &edges(vec![vec![]]));
    let (order, hosts) = stage(&link).actual_order_for_root(0, 0, &graph, &imports);
    assert_eq!(order, vec![0]);
    assert!(hosts.is_empty());
}

#[test]
fn sensitive_modules_keep_their_first_place() {
    let plain = Source { sensitive: false, ..source(vec![]) };
    let link = program(vec![source(vec![]), plain, source(vec![])], vec![]);
    assert_eq!(stage(&link).sensitive_order(&[2, 1, 0, 2, 0]), vec![2, 0]);
}

#[test]
fn importing_an_interop_module_makes_a_module_sensitive() {
    let importer = Source { sensitive: false, ..source(vec![1]) };
    let mut caller = Source { sensitive: false, ..source(vec![]) };
    caller.imports.push((ImportKind::Require, 1));
    let link = program(vec![importer, interop(vec![]), caller], vec![]);
    let stage = stage(&link);
    assert!(stage.eagerly_triggers_interop_module(0));
    assert!(stage.is_order_sensitive(0));
    assert!(!stage.eagerly_triggers_interop_module(2));
    assert!(!stage.is_order_sensitive(2));
}

#[test]
fn the_runtime_is_neither_sensitive_nor_eligible() {
    let mut link = program(vec![source(vec![]), source(vec![])], vec![]);
    link.runtime.id = 1;
    let stage = stage(&link);
    assert!(stage.is_order_sensitive(0) && stage.is_order_wrap_eligible(0));
    assert!(!stage.is_order_sensitive(1) && !stage.is_order_wrap_eligible(1));
}

#[test]
fn only_kept_unwrapped_esm_modules_are_eligible() {
    let silent = Source { exports_kind: ExportsKind::Unknown, ..source(vec![]) };
    let commonjs = Source { exports_kind: ExportsKind::CommonJs, ..source(vec![]) };
    let dropped = Source { included: false, ..source(vec![]) };
    let outside = Source { external: true, ..source(vec![]) };
    let link = program(vec![silent, commonjs, interop(vec![]), dropped, outside], vec![]);
    let stage = stage(&link);
    let eligible: Vec<bool> = (0..5).map(|m| stage.is_order_wrap_eligible(m)).collect();
    assert_eq!(eligible, vec![true, false, false, false, false]);
}

#[test]
fn the_expected_order_puts_nothing_at_risk() {
    let link = program(vec![source(vec![]), source(vec![])], vec![]);
    assert!(stage(&link).at_risk_modules(&[0, 1], &[0, 1], &FxHashMap::default()).is_empty());
}

#[test]
fn modules_that_run_too_early_are_at_risk() {
    let link = program(vec![source(vec![]), source(vec![]), source(vec![])], vec![]);
    let found = stage(&link).at_risk_modules(&[0, 1, 2], &[1, 0, 2], &FxHashMap::default());
    assert_eq!(found, set(vec![1]));
}

#[test]
fn sensitive_modules_of_one_order_only_are_at_risk() {
    let link = program(vec![source(vec![]), source(vec![]), source(vec![])], vec![]);
    let found = stage(&link).at_risk_modules(&[0, 1], &[1, 2], &FxHashMap::default());
    assert_eq!(found, set(vec![0, 2]));
}

#[test]
fn an_interop_module_at_risk_delays_its_host() {
    let link = program(vec![source(vec![]), interop(vec![]), source(vec![])], vec![]);
    let hosts: FxHashMap<usize, usize> = [(1, 2)].into_iter().collect();
    let stage = stage(&link);
    assert_eq!(stage.at_risk_modules(&[0, 1], &[1, 0], &hosts), set(vec![2]));
    assert!(stage.at_risk_modules(&[0, 1], &[1, 0], &FxHashMap::default()).is_empty());
    let stuck: FxHashMap<usize, usize> = [(1, 1)].into_iter().collect();
    assert!(stage.at_risk_modules(&[0, 1], &[1, 0], &stuck).is_empty());
}
