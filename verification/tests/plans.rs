use order_analysis::actual_order::sorted_chunk_imports;
use order_analysis::chunk_cycles::ChunkCycles;
use order_analysis::chunks::{Chunk, ChunkGraph};
use order_analysis::consistency::imports_are_consistent;
use order_analysis::link::{
    ConcatenateWrappedModuleKind, EcmaViewMeta, ExportsKind, ImportKind, ImportRecord,
    ImportRecordMeta, LinkStageOutput, LinkingMetadata, MemberExprRef, MemberExprRefResolution,
    Module, ModuleTable, NamedImport, NormalModule, ResolvedExport, RuntimeHelper, RuntimeModule,
    Specifier, StmtInfo, StmtInfos, SymbolLink, SymbolOrMemberExprRef, SymbolRef, SymbolRefDb,
    WrapKind,
};
use order_analysis::plan::{FixpointRound, OrderAnalysis, OrderWrapPlan, RootOrderAnalysis};
use order_analysis::stage::{BundlerOptions, GenerateStage};
use order_analysis::wrap_state::{EsmInitOrigin, OrderWrapper};
use rustc_hash::{FxHashMap, FxHashSet};

const SYMBOLS: usize = 4;

const ON_DEMAND: BundlerOptions =
    BundlerOptions { strict_execution_order: true, on_demand_wrapping: true };
const WRAP_ALL: BundlerOptions =
    BundlerOptions { strict_execution_order: true, on_demand_wrapping: false };
const OFF: BundlerOptions =
    BundlerOptions { strict_execution_order: false, on_demand_wrapping: true };

fn symbol(owner: usize, symbol: usize) -> SymbolRef {
    SymbolRef { owner, symbol }
}

/// A program of sensitive, kept ESM modules: `imports[m]` lists what module `m` imports statically,
/// one statement each.
fn program(imports: Vec<Vec<usize>>, entries: Vec<usize>) -> LinkStageOutput {
    let mut modules = Vec::new();
    let mut metas = Vec::new();
    let mut stmt_infos = Vec::new();
    let mut links = Vec::new();
    for (idx, targets) in imports.into_iter().enumerate() {
        let mut infos = vec![StmtInfo { import_records: vec![], referenced_symbols: vec![] }];
        let mut import_records = Vec::new();
        for to in targets {
            infos.push(StmtInfo {
                import_records: vec![import_records.len()],
                referenced_symbols: vec![],
            });
            import_records.push(ImportRecord {
                kind: ImportKind::Import,
                meta: ImportRecordMeta { is_export_star: false, is_re_export_only: false },
                resolved_module: Some(to),
            });
        }
        metas.push(LinkingMetadata {
            is_included: true,
            wrap_kind: WrapKind::Unwrapped,
            wrapper_ref: None,
            concatenated_wrapped_module_kind: ConcatenateWrappedModuleKind::Separate,
            resolved_exports: vec![],
            stmt_info_included: vec![true; infos.len()],
            execution_dependencies: vec![],
            resolved_member_expr_refs: vec![],
        });
        modules.push(Module::Normal(NormalModule {
            idx,
            exports_kind: ExportsKind::Esm,
            meta: EcmaViewMeta { execution_order_sensitive: true, top_level_import_read: false },
            import_records,
            named_imports: vec![],
            namespace_object_ref: symbol(idx, 0),
        }));
        stmt_infos.push(StmtInfos { infos });
        links.push(
            (0..SYMBOLS)
                .map(|number| SymbolLink {
                    canonical: symbol(idx, number),
                    resolving_namespace: symbol(idx, number),
                })
                .collect(),
        );
    }
    LinkStageOutput {
        module_table: ModuleTable { modules },
        entries,
        metas,
        stmt_infos,
        symbol_db: SymbolRefDb { links },
        runtime: RuntimeModule { id: usize::MAX, esm_helper: RuntimeHelper { id: 7 } },
        normal_symbol_exports_chain_map: FxHashMap::default(),
    }
}

fn normal(link: &mut LinkStageOutput, m: usize) -> &mut NormalModule {
    match &mut link.module_table.modules[m] {
        Module::Normal(module) => module,
        Module::External => panic!("module {} is not bundled", m),
    }
}

fn insensitive(link: &mut LinkStageOutput, m: usize) {
    normal(link, m).meta.execution_order_sensitive = false;
}

fn interop(link: &mut LinkStageOutput, m: usize) {
    link.metas[m].wrap_kind = WrapKind::Cjs;
    normal(link, m).exports_kind = ExportsKind::CommonJs;
}

/// Module `importer` imports `name` of `from` through its record `rec`.
fn take_name(link: &mut LinkStageOutput, importer: usize, rec: usize, name: &str) {
    normal(link, importer).named_imports.push(NamedImport {
        imported: Specifier::Literal(String::from(name)),
        imported_as: symbol(importer, 2),
        record_idx: rec,
    });
}

/// Module `m` exports `name` as the symbol `symbol_ref`.
fn export_name(link: &mut LinkStageOutput, m: usize, name: &str, symbol_ref: SymbolRef) {
    link.metas[m]
        .resolved_exports
        .push(ResolvedExport { name: String::from(name), symbol_ref });
}

fn stage<'a>(link_output: &'a LinkStageOutput, options: &'a BundlerOptions) -> GenerateStage<'a> {
    GenerateStage { link_output, options }
}

fn chunks(module_count: usize, hosted: Vec<Vec<usize>>, entries: Vec<(usize, usize)>) -> ChunkGraph {
    let mut module_to_chunk = vec![None; module_count];
    let mut chunk_table = Vec::new();
    for (chunk, modules) in hosted.into_iter().enumerate() {
        for module in &modules {
            module_to_chunk[*module] = Some(chunk);
        }
        chunk_table.push(Chunk { modules, exec_order: chunk as u32 });
    }
    ChunkGraph {
        chunk_table,
        module_to_chunk,
        entry_module_to_entry_chunk: entries.into_iter().collect(),
        module_in_live_chunk: vec![true; module_count],
    }
}

fn edges(lists: Vec<Vec<usize>>) -> Vec<FxHashSet<usize>> {
    lists.into_iter().map(|list| list.into_iter().collect()).collect()
}

fn set(members: Vec<usize>) -> FxHashSet<usize> {
    members.into_iter().collect()
}

fn plan(members: Vec<usize>) -> OrderWrapPlan {
    let mut plan = OrderWrapPlan::default();
    for member in members {
        plan.insert(member);
    }
    plan
}

fn planned(plan: &OrderWrapPlan) -> Vec<usize> {
    let mut modules = plan.modules();
    modules.sort();
    modules
}

fn root(root: usize, expected_order: Vec<usize>) -> RootOrderAnalysis {
    RootOrderAnalysis { root, expected_order }
}

#[test]
fn a_plan_holds_each_module_once() {
    let mut plan = OrderWrapPlan::default();
    assert!(plan.is_empty());
    assert_eq!(plan.len(), 0);
    assert!(plan.insert(3));
    assert!(plan.insert(1));
    assert!(!plan.insert(3));
    assert!(!plan.is_empty());
    assert_eq!(plan.len(), 2);
    assert!(plan.contains(&1) && plan.contains(&3) && !plan.contains(&2));
    assert_eq!(planned(&plan), vec![1, 3]);
}

#[test]
fn later_sensitive_modules_of_an_entry_join_the_plan() {
    let mut link = program(vec![vec![]; 5], vec![]);
    insensitive(&mut link, 2);
    interop(&mut link, 3);
    let stage = stage(&link, &ON_DEMAND);
    let mut plan = plan(vec![1]);
    let roots = vec![root(4, vec![0, 1, 2, 3, 4])];
    assert!(stage.close_expected_sensitive_suffixes(&roots, &mut plan));
    assert_eq!(planned(&plan), vec![1, 4]);
    assert!(!stage.close_expected_sensitive_suffixes(&roots, &mut plan));
}

#[test]
fn an_entry_without_planned_modules_adds_none() {
    let link = program(vec![vec![]; 3], vec![]);
    let mut plan = plan(vec![2]);
    assert!(!stage(&link, &ON_DEMAND).close_expected_sensitive_suffixes(&vec![root(1, vec![0, 1])], &mut plan));
    assert_eq!(planned(&plan), vec![2]);
}

#[test]
fn an_earlier_entry_pulls_in_a_later_one() {
    let link = program(vec![vec![]; 4], vec![]);
    let mut plan = plan(vec![0]);
    let roots = vec![root(1, vec![0, 1]), root(3, vec![1, 2, 3])];
    assert!(stage(&link, &ON_DEMAND).close_expected_sensitive_suffixes(&roots, &mut plan));
    assert_eq!(planned(&plan), vec![0, 1, 2, 3]);
}

#[test]
fn sensitive_modules_in_the_same_cycle_join_the_plan() {
    let mut link = program(vec![vec![]; 5], vec![]);
    insensitive(&mut link, 3);
    let graph = chunks(5, vec![vec![0], vec![1, 3], vec![2], vec![4]], vec![]);
    let cycles = ChunkCycles::from_import_edges(&edges(vec![vec![1], vec![2], vec![1], vec![3]]));
    let stage = stage(&link, &ON_DEMAND);
    let mut plan = plan(vec![2]);
    assert!(stage.close_cyclic_chunk_members(&graph, &cycles, &mut plan));
    assert_eq!(planned(&plan), vec![1, 2]);
    assert!(!stage.close_cyclic_chunk_members(&graph, &cycles, &mut plan));
    let mut outside = plan_of_zero();
    assert!(!stage.close_cyclic_chunk_members(&graph, &cycles, &mut outside));
    assert_eq!(planned(&outside), vec![0]);
}

fn plan_of_zero() -> OrderWrapPlan {
    plan(vec![0])
}

#[test]
fn modules_behind_static_imports_are_reachable() {
    let mut link = program(vec![vec![1], vec![2], vec![1], vec![0], vec![]], vec![]);
    normal(&mut link, 2).import_records.push(ImportRecord {
        kind: ImportKind::DynamicImport,
        meta: ImportRecordMeta { is_export_star: false, is_re_export_only: false },
        resolved_module: Some(4),
    });
    let stage = stage(&link, &ON_DEMAND);
    assert_eq!(stage.source_reachable_modules(&vec![root(0, vec![])]), set(vec![0, 1, 2]));
    assert_eq!(
        stage.source_reachable_modules(&vec![root(1, vec![]), root(4, vec![])]),
        set(vec![1, 2, 4])
    );
    assert!(stage.source_reachable_modules(&vec![]).is_empty());
}

#[test]
fn static_imports_lead_to_members_through_others() {
    let link = program(vec![vec![1], vec![2], vec![1], vec![]], vec![]);
    let stage = stage(&link, &ON_DEMAND);
    assert!(stage.static_import_reaches_member(0, &set(vec![2])));
    assert!(stage.static_import_reaches_member(2, &set(vec![2])));
    assert!(!stage.static_import_reaches_member(1, &set(vec![0, 3])));
}

#[test]
fn importing_a_member_takes_an_execution_dependency_too() {
    let mut link = program(vec![vec![1], vec![2], vec![]], vec![]);
    assert!(!stage(&link, &ON_DEMAND).statically_imports_wrapped_member(0, &set(vec![2])));
    link.metas[0].execution_dependencies = vec![1, 2];
    assert!(stage(&link, &ON_DEMAND).statically_imports_wrapped_member(0, &set(vec![2])));
    assert!(!stage(&link, &ON_DEMAND).statically_imports_wrapped_member(0, &set(vec![0])));
    link.metas[2].execution_dependencies = vec![0];
    assert!(!stage(&link, &ON_DEMAND).statically_imports_wrapped_member(2, &set(vec![0])));
}

#[test]
fn a_symbol_touches_its_owners_and_its_export_chain() {
    let mut link = program(vec![vec![]; 5], vec![]);
    link.symbol_db.links[0][1].canonical = symbol(1, 1);
    link.normal_symbol_exports_chain_map.insert((0, 1), vec![symbol(2, 0)]);
    link.normal_symbol_exports_chain_map.insert((1, 1), vec![symbol(4, 0), symbol(3, 0)]);
    let stage = stage(&link, &ON_DEMAND);
    for member in 0..4 {
        assert!(stage.symbol_touches_wrapped_export(symbol(0, 1), &set(vec![member])));
    }
    assert!(!stage.symbol_touches_wrapped_export(symbol(0, 2), &set(vec![1, 2, 3, 4])));
    assert!(!stage.symbol_touches_wrapped_export(symbol(1, 1), &set(vec![0, 2])));
}

#[test]
fn a_member_expression_touches_what_it_resolves_to() {
    let mut link = program(vec![vec![]; 5], vec![]);
    link.metas[0].resolved_member_expr_refs = vec![
        Some(MemberExprRefResolution {
            resolved: Some(symbol(1, 1)),
            depended_refs: vec![symbol(2, 1), symbol(3, 1)],
        }),
        None,
        Some(MemberExprRefResolution { resolved: None, depended_refs: vec![] }),
    ];
    let stage = stage(&link, &ON_DEMAND);
    let touches = |expr: usize, member: usize| {
        stage.reference_touches_wrapped_export(
            0,
            &SymbolOrMemberExprRef::MemberExpr(MemberExprRef { object_ref: symbol(4, 1), expr }),
            &set(vec![member]),
        )
    };
    assert!(touches(0, 1) && touches(0, 2) && touches(0, 3));
    assert!(!touches(0, 4));
    assert!(touches(1, 4) && touches(9, 4));
    assert!(!touches(1, 1));
    assert!(!touches(2, 4));
}

#[test]
fn only_top_level_reads_of_kept_modules_count() {
    let mut link = program(vec![vec![], vec![]], vec![]);
    link.stmt_infos[0].infos.push(StmtInfo {
        import_records: vec![],
        referenced_symbols: vec![SymbolOrMemberExprRef::Symbol(symbol(1, 1))],
    });
    link.metas[0].stmt_info_included.push(false);
    assert!(!stage(&link, &ON_DEMAND).top_level_reads_wrapped_export(0, &set(vec![1])));
    normal(&mut link, 0).meta.top_level_import_read = true;
    assert!(stage(&link, &ON_DEMAND).top_level_reads_wrapped_export(0, &set(vec![1])));
    assert!(!stage(&link, &ON_DEMAND).top_level_reads_wrapped_export(0, &set(vec![0])));
    link.metas[0].is_included = false;
    assert!(!stage(&link, &ON_DEMAND).top_level_reads_wrapped_export(0, &set(vec![1])));
}

#[test]
fn references_of_the_namespace_statement_do_not_count() {
    let mut link = program(vec![vec![], vec![]], vec![]);
    normal(&mut link, 0).meta.top_level_import_read = true;
    link.stmt_infos[0].infos[0]
        .referenced_symbols
        .push(SymbolOrMemberExprRef::Symbol(symbol(1, 1)));
    assert!(!stage(&link, &ON_DEMAND).top_level_reads_wrapped_export(0, &set(vec![1])));
}

#[test]
fn a_plan_pulls_in_its_importers_step_by_step() {
    let mut link = program(vec![vec![1], vec![2], vec![], vec![2]], vec![0]);
    for m in 0..4 {
        insensitive(&mut link, m);
    }
    link.metas[0].execution_dependencies = vec![1];
    link.metas[1].execution_dependencies = vec![2];
    link.metas[3].execution_dependencies = vec![2];
    let graph = chunks(4, vec![vec![0, 1, 2, 3]], vec![]);
    let cycles = ChunkCycles::from_import_edges(&edges(vec![vec![]]));
    let roots = vec![root(0, vec![2, 1, 0])];
    let stage = stage(&link, &ON_DEMAND);
    // Module 3 imports module 2 as well, but no entry reaches it.
    let plan = stage.build_order_wrap_plan(set(vec![2]), &roots, &graph, &cycles);
    assert_eq!(planned(&plan), vec![0, 1, 2]);
    let again = stage.build_order_wrap_plan(set(planned(&plan)), &roots, &graph, &cycles);
    assert_eq!(planned(&again), planned(&plan));
    assert!(stage.build_order_wrap_plan(set(vec![]), &roots, &graph, &cycles).is_empty());
}

#[test]
fn ineligible_modules_at_risk_are_not_planned() {
    let mut link = program(vec![vec![], vec![]], vec![0]);
    interop(&mut link, 1);
    let graph = chunks(2, vec![vec![0, 1]], vec![]);
    let cycles = ChunkCycles::from_import_edges(&edges(vec![vec![]]));
    let plan = stage(&link, &ON_DEMAND).build_order_wrap_plan(set(vec![1]), &vec![], &graph, &cycles);
    assert!(plan.is_empty());
}

#[test]
fn wrapping_everything_plans_what_stands_behind_kept_entries() {
    let mut link = program(vec![vec![1], vec![2], vec![], vec![4], vec![], vec![]], vec![0, 3]);
    interop(&mut link, 1);
    link.metas[3].is_included = false;
    let graph = chunks(6, vec![vec![0, 1], vec![2, 3, 4, 5]], vec![]);
    let analysis = stage(&link, &WRAP_ALL).wrap_all_order_analysis(&graph);
    assert_eq!(planned(&analysis.plan), vec![0, 2]);
    assert_eq!(analysis.import_edges.len(), 2);
    assert!(analysis.import_edges.iter().all(|imports| imports.is_empty()));
    assert!(analysis.trace.is_none());
}

#[test]
fn the_probe_wraps_exactly_the_eligible_planned_modules() {
    let mut link = program(vec![vec![]; 3], vec![]);
    interop(&mut link, 2);
    let state = stage(&link, &ON_DEMAND).probe_order_state(&plan(vec![1, 2]));
    assert_eq!(
        state.order_wrappers,
        vec![
            None,
            Some(OrderWrapper { wrapper_ref: symbol(1, 0), runtime_helper: RuntimeHelper { id: 7 } }),
            None
        ]
    );
    assert!(state.nested_reexport_records.is_empty());
    let target = state.esm_init_target(1, &link.metas[1]);
    assert_eq!(target.map(|target| target.origin), Some(EsmInitOrigin::ExecutionOrder));
    assert!(state.esm_init_target(2, &link.metas[2]).is_none());
}

/// Module 0 imports module 1, each in a chunk of its own.
fn pair() -> (LinkStageOutput, ChunkGraph) {
    (program(vec![vec![1], vec![]], vec![0]), chunks(2, vec![vec![0], vec![1]], vec![(0, 0)]))
}

#[test]
fn a_wrapped_importer_imports_the_chunks_that_it_initializes() {
    let (link, graph) = pair();
    let stage = stage(&link, &ON_DEMAND);
    let baseline = edges(vec![vec![], vec![0]]);
    let lowered = |members: Vec<usize>| {
        stage.post_lowering_import_edges(&graph, &plan(members), &baseline)
    };
    assert_eq!(lowered(vec![0, 1]), edges(vec![vec![1], vec![0]]));
    // An eager importer forwards nothing, and an eager importee is not called.
    assert_eq!(lowered(vec![1]), baseline);
    assert_eq!(lowered(vec![0]), baseline);
    assert_eq!(lowered(vec![]), baseline);
}

#[test]
fn calls_into_the_same_or_a_dead_chunk_add_no_import() {
    let (link, mut graph) = pair();
    let baseline = edges(vec![vec![], vec![]]);
    graph.module_in_live_chunk[1] = false;
    let stage = stage(&link, &ON_DEMAND);
    assert_eq!(stage.post_lowering_import_edges(&graph, &plan(vec![0, 1]), &baseline), baseline);
    let together = chunks(2, vec![vec![0, 1], vec![]], vec![]);
    assert_eq!(stage.post_lowering_import_edges(&together, &plan(vec![0, 1]), &baseline), baseline);
}

#[test]
fn a_dropped_import_adds_nothing_unless_it_only_passes_bindings_on() {
    let (mut link, graph) = pair();
    let baseline = edges(vec![vec![], vec![]]);
    link.metas[0].stmt_info_included[1] = false;
    assert_eq!(
        stage(&link, &ON_DEMAND).post_lowering_import_edges(&graph, &plan(vec![0, 1]), &baseline),
        baseline
    );
    normal(&mut link, 0).import_records[0].meta.is_re_export_only = true;
    assert_eq!(
        stage(&link, &ON_DEMAND).post_lowering_import_edges(&graph, &plan(vec![0, 1]), &baseline),
        edges(vec![vec![1], vec![]])
    );
}

#[test]
fn an_init_call_is_forwarded_through_an_eager_barrel() {
    // 0 takes `x` from the barrel 1, which passes on `x` of module 2.
    let mut link = program(vec![vec![1], vec![2], vec![]], vec![0]);
    take_name(&mut link, 0, 0, "x");
    export_name(&mut link, 1, "x", symbol(2, 1));
    let graph = chunks(3, vec![vec![0], vec![1], vec![2]], vec![]);
    let baseline = edges(vec![vec![], vec![], vec![]]);
    let lowered =
        stage(&link, &ON_DEMAND).post_lowering_import_edges(&graph, &plan(vec![0, 2]), &baseline);
    assert_eq!(lowered, edges(vec![vec![2], vec![], vec![]]));
}

fn analyze(
    link: &LinkStageOutput,
    options: &BundlerOptions,
    graph: &ChunkGraph,
    imports: Vec<Vec<usize>>,
) -> Option<OrderAnalysis> {
    stage(link, options).analyze_execution_order(graph, edges(imports))
}

#[test]
fn without_strict_order_there_is_nothing_to_analyze() {
    let (link, graph) = pair();
    assert!(analyze(&link, &OFF, &graph, vec![vec![1], vec![]]).is_none());
}

#[test]
fn without_on_demand_wrapping_everything_is_wrapped() {
    let (link, graph) = pair();
    let analysis = analyze(&link, &WRAP_ALL, &graph, vec![vec![1], vec![]]);
    let analysis = analysis.expect("strict order is analyzed");
    assert_eq!(planned(&analysis.plan), vec![0, 1]);
    assert_eq!(analysis.import_edges, edges(vec![vec![], vec![]]));
}

#[test]
fn chunks_in_source_order_need_no_wrapping() {
    let (link, graph) = pair();
    let analysis = analyze(&link, &ON_DEMAND, &graph, vec![vec![1], vec![]]);
    let analysis = analysis.expect("strict order is analyzed");
    assert!(analysis.plan.is_empty());
    assert_eq!(analysis.import_edges, edges(vec![vec![1], vec![]]));
    let trace = analysis.trace.expect("on-demand wrapping is traced");
    assert_eq!(trace.one_shot_planned, 0);
    assert_eq!(trace.pre_lowering_cycles, 0);
    assert_eq!(trace.rounds, vec![FixpointRound { emergent_cycles: 0, added: 0, at_risk: 0 }]);
}

/// The entry 0 imports 1, then 2; chunk 1 hosts module 2 and runs before chunk 2, which hosts
/// module 1.
fn swapped() -> (LinkStageOutput, ChunkGraph) {
    let link = program(vec![vec![1, 2], vec![], vec![]], vec![0]);
    let graph = chunks(3, vec![vec![0], vec![2], vec![1]], vec![(0, 0)]);
    (link, graph)
}

#[test]
fn a_chunk_that_runs_too_early_is_wrapped_with_what_follows() {
    let (link, graph) = swapped();
    let analysis = analyze(&link, &ON_DEMAND, &graph, vec![vec![1, 2], vec![], vec![]]);
    let analysis = analysis.expect("strict order is analyzed");
    // Module 2 runs before module 1; the entry is expected behind module 2.
    assert_eq!(planned(&analysis.plan), vec![0, 2]);
    let trace = analysis.trace.expect("on-demand wrapping is traced");
    assert_eq!(trace.one_shot_planned, 2);
    assert_eq!(trace.rounds, vec![FixpointRound { emergent_cycles: 0, added: 0, at_risk: 1 }]);
}

#[test]
fn what_an_entry_puts_at_risk_is_planned() {
    let (link, graph) = swapped();
    let imports = vec![vec![1, 2], vec![], vec![]];
    let analysis = analyze(&link, &ON_DEMAND, &graph, imports.clone());
    let analysis = analysis.expect("strict order is analyzed");
    let stage = stage(&link, &ON_DEMAND);
    let expected = stage.expected_order_for_root(0);
    let listed = sorted_chunk_imports(&graph, &analysis.import_edges);
    let (actual, hosts) = stage.actual_order_for_root(0, 0, &graph, &listed);
    let at_risk = stage.at_risk_modules(&expected, &actual, &hosts);
    assert_eq!(at_risk, set(vec![2]));
    assert!(at_risk.iter().all(|m| analysis.plan.contains(m)));
    assert_eq!(analysis.import_edges, edges(imports));
}

#[test]
fn everything_behind_an_entry_that_reaches_a_cycle_is_wrapped() {
    let (link, graph) = pair();
    let analysis = analyze(&link, &ON_DEMAND, &graph, vec![vec![1], vec![0]]);
    let analysis = analysis.expect("strict order is analyzed");
    assert_eq!(planned(&analysis.plan), vec![0, 1]);
    let trace = analysis.trace.expect("on-demand wrapping is traced");
    assert_eq!(trace.pre_lowering_cycles, 1);
    assert_eq!(trace.rounds, vec![FixpointRound { emergent_cycles: 1, added: 0, at_risk: 2 }]);
}

#[test]
fn a_cycle_that_wrapping_closes_is_wrapped_in_another_round() {
    // Wrapping modules 2 and 0 makes chunk 0 import chunk 1, which imports chunk 3. Chunk 3 imports
    // chunk 0 for module 3, so the three are a cycle, and the eager module 4 in chunk 3 has to wait.
    let mut link = program(vec![vec![1, 2], vec![], vec![], vec![], vec![]], vec![0]);
    insensitive(&mut link, 3);
    insensitive(&mut link, 4);
    let graph =
        chunks(5, vec![vec![0, 3], vec![2], vec![1], vec![4]], vec![(0, 2), (1, 2)]);
    let imports = vec![vec![], vec![3], vec![1], vec![0]];
    let analysis = analyze(&link, &ON_DEMAND, &graph, imports);
    let analysis = analysis.expect("strict order is analyzed");
    let trace = analysis.trace.expect("on-demand wrapping is traced");
    assert_eq!(planned(&analysis.plan), vec![0, 2, 3, 4]);
    assert_eq!(trace.one_shot_planned, 2);
    assert_eq!(trace.pre_lowering_cycles, 0);
    assert_eq!(
        trace.rounds,
        vec![
            FixpointRound { emergent_cycles: 1, added: 2, at_risk: 4 },
            FixpointRound { emergent_cycles: 1, added: 0, at_risk: 4 },
        ]
    );
}

#[test]
fn entries_without_a_chunk_are_passed_over() {
    let (link, mut graph) = swapped();
    graph.entry_module_to_entry_chunk = FxHashMap::default();
    let analysis = analyze(&link, &ON_DEMAND, &graph, vec![vec![1, 2], vec![], vec![]]);
    assert!(analysis.expect("strict order is analyzed").plan.is_empty());
}

#[test]
fn more_risk_never_makes_the_plan_smaller() {
    let (link, graph) = swapped();
    let cycles = ChunkCycles::from_import_edges(&edges(vec![vec![1, 2], vec![], vec![]]));
    let roots = vec![root(0, vec![1, 2, 0])];
    let stage = stage(&link, &ON_DEMAND);
    let small = stage.build_order_wrap_plan(set(vec![2]), &roots, &graph, &cycles);
    let large = stage.build_order_wrap_plan(set(vec![1, 2]), &roots, &graph, &cycles);
    assert_eq!(planned(&small), vec![0, 2]);
    assert_eq!(planned(&large), vec![0, 1, 2]);
}

#[test]
fn wrapping_on_demand_wraps_no_more_than_wrapping_everything() {
    let (link, graph) = swapped();
    let imports = vec![vec![1, 2], vec![], vec![]];
    let some = analyze(&link, &ON_DEMAND, &graph, imports.clone());
    let all = analyze(&link, &WRAP_ALL, &graph, imports);
    assert_eq!(planned(&some.expect("strict order is analyzed").plan), vec![0, 2]);
    assert_eq!(planned(&all.expect("strict order is analyzed").plan), vec![0, 1, 2]);
}

#[test]
fn consistent_tables_are_recognized() {
    let (link, graph) = pair();
    assert!(link.is_consistent());
    assert!(graph.is_consistent(2));
    assert!(!graph.is_consistent(3));
    assert!(imports_are_consistent(&edges(vec![vec![1], vec![]])));
    assert!(!imports_are_consistent(&edges(vec![vec![2], vec![]])));
}

#[test]
fn indices_that_lead_nowhere_are_recognized() {
    let broken = |change: fn(&mut LinkStageOutput)| {
        let (mut link, _) = pair();
        change(&mut link);
        !link.is_consistent()
    };
    assert!(broken(|link| link.entries.push(2)));
    assert!(broken(|link| normal(link, 0).import_records[0].resolved_module = Some(2)));
    assert!(broken(|link| normal(link, 1).idx = 0));
    assert!(broken(|link| link.stmt_infos[0].infos[1].import_records.push(1)));
    assert!(broken(|link| link.metas[0].stmt_info_included.push(true)));
    assert!(broken(|link| link.symbol_db.links[0][0].canonical = symbol(0, SYMBOLS)));
    assert!(broken(|link| link.symbol_db.links[1][1].resolving_namespace = symbol(2, 0)));
    assert!(broken(|link| export_name(link, 0, "x", symbol(1, SYMBOLS))));
    assert!(broken(|link| {
        export_name(link, 0, "x", symbol(1, 1));
        export_name(link, 0, "x", symbol(1, 2));
    }));
    assert!(broken(|link| {
        link.stmt_infos[0].infos[1]
            .referenced_symbols
            .push(SymbolOrMemberExprRef::Symbol(symbol(5, 0)))
    }));
    assert!(broken(|link| {
        link.metas[0].resolved_member_expr_refs.push(Some(MemberExprRefResolution {
            resolved: None,
            depended_refs: vec![symbol(0, 9)],
        }))
    }));
    assert!(broken(|link| {
        normal(link, 0).named_imports.push(NamedImport {
            imported: Specifier::Star,
            imported_as: symbol(7, 0),
            record_idx: 0,
        })
    }));
    let (_, mut graph) = pair();
    graph.entry_module_to_entry_chunk.insert(1, 2);
    assert!(!graph.is_consistent(2));
    let (_, mut graph) = pair();
    graph.chunk_table[0].modules.push(2);
    assert!(!graph.is_consistent(2));
    let (_, mut graph) = pair();
    graph.module_to_chunk[0] = Some(2);
    assert!(!graph.is_consistent(2));
}
