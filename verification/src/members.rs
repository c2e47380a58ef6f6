//! How a module depends on the modules of a plan.

use rustc_hash::FxHashSet;
use vstd::prelude::*;

use crate::fx;
use crate::indices;
use crate::link;
use crate::link::{
    ImportKind, ImportRecord, LinkStageOutput, ModuleIdx, StmtInfo, SymbolOrMemberExprRef,
    SymbolRef, NAMESPACE_STMT_IDX,
};
use crate::plan::RootOrderAnalysis;
use crate::reach;
use crate::stage::GenerateStage;

verus! {

impl LinkStageOutput {
    /// The module that a static import leads to, bundled or not.
    pub open spec fn static_target(self, record: ImportRecord) -> Option<ModuleIdx> {
        if record.kind == ImportKind::Import {
            record.resolved_module
        } else {
            None
        }
    }

    /// `a` is bundled and imports `b` statically.
    pub open spec fn imports_statically(self, a: ModuleIdx, b: ModuleIdx) -> bool {
        self.is_normal(a) && exists|k: int|
            0 <= k < self.records(a).len() && self.static_target(#[trigger] self.records(a)[k])
                == Some(b)
    }

    pub open spec fn static_edge(self) -> spec_fn(ModuleIdx, ModuleIdx) -> bool {
        |a: ModuleIdx, b: ModuleIdx| self.imports_statically(a, b)
    }

    /// Static imports lead from `root` to a member.
    pub open spec fn leads_to_member(self, root: ModuleIdx, members: Set<ModuleIdx>) -> bool {
        exists|m: ModuleIdx| #[trigger]
            members.contains(m) && reach::reaches(self.static_edge(), root, m)
    }

    /// `m` depends on a member for its execution, and one of its static imports leads to a member.
    pub open spec fn imports_member(self, m: ModuleIdx, members: Set<ModuleIdx>) -> bool {
        &&& self.is_normal(m)
        &&& exists|d: int|
            0 <= d < self.meta(m).execution_dependencies@.len() && members.contains(
                #[trigger] self.meta(m).execution_dependencies@[d],
            )
        &&& exists|k: int|
            0 <= k < self.records(m).len() && (self.static_target(#[trigger] self.records(m)[k])
                matches Some(importee) && self.leads_to_member(importee, members))
    }

    /// A symbol that `symbol_ref` passes through when it is exported is owned by a member.
    pub open spec fn chain_touches(self, symbol_ref: SymbolRef, members: Set<ModuleIdx>) -> bool {
        let chains = self.normal_symbol_exports_chain_map@;
        let key = (symbol_ref.owner, symbol_ref.symbol);
        chains.contains_key(key) && exists|i: int|
            0 <= i < chains[key]@.len() && members.contains((#[trigger] chains[key]@[i]).owner)
    }

    /// Reading `symbol_ref` reads something that a member owns.
    pub open spec fn symbol_touches(self, symbol_ref: SymbolRef, members: Set<ModuleIdx>) -> bool {
        let canonical = self.symbol_db.link(symbol_ref).canonical;
        ||| members.contains(symbol_ref.owner)
        ||| members.contains(canonical.owner)
        ||| self.chain_touches(symbol_ref, members)
        ||| self.chain_touches(canonical, members)
    }

    /// A reference in `m` reads something that a member owns.
    pub open spec fn reference_touches(
        self,
        m: ModuleIdx,
        reference: SymbolOrMemberExprRef,
        members: Set<ModuleIdx>,
    ) -> bool {
        match reference {
            SymbolOrMemberExprRef::Symbol(symbol_ref) => self.symbol_touches(symbol_ref, members),
            SymbolOrMemberExprRef::MemberExpr(member) => match member.resolution_in(
                self.meta(m).resolved_member_expr_refs@,
            ) {
                None => self.symbol_touches(member.object_ref, members),
                Some(resolution) => {
                    ||| resolution.resolved matches Some(symbol_ref) && self.symbol_touches(
                        symbol_ref,
                        members,
                    )
                    ||| exists|d: int|
                        0 <= d < resolution.depended_refs@.len() && self.symbol_touches(
                            #[trigger] resolution.depended_refs@[d],
                            members,
                        )
                },
            },
        }
    }

    /// Evaluating the kept module `m` reads something that a member owns.
    pub open spec fn reads_member(self, m: ModuleIdx, members: Set<ModuleIdx>) -> bool {
        &&& self.is_normal(m)
        &&& self.included(m)
        &&& self.normal(m).meta.top_level_import_read
        &&& exists|s: int, r: int|
            #![trigger self.stmts(m)[s].referenced_symbols@[r]]
            NAMESPACE_STMT_IDX < s < self.stmts(m).len() && 0 <= r < self.stmts(
                m,
            )[s].referenced_symbols@.len() && self.reference_touches(
                m,
                self.stmts(m)[s].referenced_symbols@[r],
                members,
            )
    }

    /// Static imports of bundled modules lead from a root to `m`.
    pub open spec fn reached_from(self, roots: Seq<RootOrderAnalysis>, m: ModuleIdx) -> bool {
        exists|k: int|
            0 <= k < roots.len() && self.source_reaches((#[trigger] roots[k]).root, m)
    }

    proof fn lemma_reached_step(
        self,
        roots: Seq<RootOrderAnalysis>,
        a: ModuleIdx,
        b: ModuleIdx,
    )
        requires
            self.reached_from(roots, a),
            self.source_graph().edge()(a, b),
        ensures
            self.reached_from(roots, b),
    {
        let k = choose|k: int|
            0 <= k < roots.len() && self.source_reaches((#[trigger] roots[k]).root, a);
        reach::lemma_reaches_step(self.source_graph().edge(), roots[k].root, a, b);
    }

    /// A static import of a bundled module is an edge of the source graph.
    pub proof fn lemma_source_edge(self, a: ModuleIdx, b: ModuleIdx)
        ensures
            self.source_graph().edge()(a, b) <==> self.is_normal(a) && exists|k: int|
                0 <= k < self.records(a).len() && self.source_target(#[trigger] self.records(a)[k])
                    == Some(b),
    {
        link::lemma_picked_from(self.records(a), self.source_pick(), 0);
        let picked = link::picked_from(self.records(a), self.source_pick(), 0);
        assert(self.source_graph().edge()(a, b) == self.source_imports(a).contains(b));
        if self.is_normal(a) {
            assert(picked.contains(b) <==> exists|k: int|
                0 <= k < self.records(a).len() && (self.source_pick())(
                    #[trigger] self.records(a)[k],
                ) == Some(b));
        }
    }
}

/// A step of a search: `pending`, whose last element was just taken and put into `seen`, gets the
/// targets of that element.
proof fn lemma_search_step(
    edge: spec_fn(ModuleIdx, ModuleIdx) -> bool,
    seen_before: Set<ModuleIdx>,
    waiting: Seq<ModuleIdx>,
    pending: Seq<ModuleIdx>,
)
    requires
        waiting.len() > 0,
        reach::closed_up_to(edge, seen_before, waiting),
        forall|m: ModuleIdx| waiting.drop_last().contains(m) ==> #[trigger] pending.contains(m),
        forall|b: ModuleIdx| edge(waiting.last(), b) ==> #[trigger] pending.contains(b),
    ensures
        reach::closed_up_to(edge, seen_before.insert(waiting.last()), pending),
{
    let seen = seen_before.insert(waiting.last());
    assert forall|a: ModuleIdx, b: ModuleIdx| #[trigger]
        seen.contains(a) && #[trigger] edge(a, b) implies seen.contains(b) || pending.contains(
        b,
    ) by {
        if a != waiting.last() {
            assert(seen_before.contains(a));
            if !seen_before.contains(b) && b != waiting.last() {
                let i = waiting.index_of(b);
                assert(waiting.drop_last()[i] == b);
                assert(waiting.drop_last().contains(b));
            }
        }
    }
}

/// What a search that has nothing pending has seen is closed.
proof fn lemma_search_done(edge: spec_fn(ModuleIdx, ModuleIdx) -> bool, seen: Set<ModuleIdx>)
    requires
        reach::closed_up_to(edge, seen, Seq::empty()),
    ensures
        reach::closed_under(edge, seen),
{
    assert forall|a: ModuleIdx, b: ModuleIdx| #[trigger]
        seen.contains(a) && #[trigger] edge(a, b) implies seen.contains(b) by {
        assert(seen.contains(b) || Seq::<ModuleIdx>::empty().contains(b));
    }
}

impl<'a> GenerateStage<'a> {
    /// The modules that static imports of bundled modules lead to from the roots.
    #[verifier::rlimit(40)]
    pub fn source_reachable_modules(&self, roots: &Vec<RootOrderAnalysis>) -> (reachable: FxHashSet<
        ModuleIdx,
    >)
        requires
            self.link_output.wf(),
            forall|k: int|
                0 <= k < roots@.len() ==> (#[trigger] roots@[k]).root
                    < self.link_output.module_count(),
        ensures
            forall|m: ModuleIdx| #[trigger]
                reachable@.contains(m) <==> exists|k: int|
                    0 <= k < roots@.len() && self.link_output.source_reaches(
                        (#[trigger] roots@[k]).root,
                        m,
                    ),
    {
        let link = self.link_output;
        let ghost edge = link.source_graph().edge();
        let mut reachable: FxHashSet<ModuleIdx> = FxHashSet::default();
        let mut stack: Vec<ModuleIdx> = Vec::new();
        let mut k: usize = 0;
        while k < roots.len()
            invariant
                k <= roots@.len(),
                stack@.len() == k,
                forall|j: int| 0 <= j < k ==> #[trigger] stack@[j] == roots@[j].root,
            decreases roots.len() - k,
        {
            stack.push(roots[k].root);
            k = k + 1;
        }
        proof {
            assert forall|j: int| 0 <= j < stack@.len() implies (#[trigger] stack@[j])
                < link.module_count() && link.reached_from(roots@, stack@[j]) by {
                assert(stack@[j] == roots@[j].root);
                reach::lemma_reaches_self(edge, roots@[j].root);
            }
            assert forall|j: int| 0 <= j < roots@.len() implies stack@.contains(
                (#[trigger] roots@[j]).root,
            ) by {
                assert(stack@[j] == roots@[j].root);
            }
        }
        while stack.len() > 0
            invariant
                link == self.link_output,
                link.wf(),
                edge == link.source_graph().edge(),
                forall|j: int|
                    0 <= j < stack@.len() ==> (#[trigger] stack@[j]) < link.module_count()
                        && link.reached_from(roots@, stack@[j]),
                reachable@.subset_of(indices::below(link.module_count())),
                forall|m: ModuleIdx| #[trigger]
                    reachable@.contains(m) ==> link.reached_from(roots@, m),
                forall|j: int|
                    0 <= j < roots@.len() ==> reachable@.contains((#[trigger] roots@[j]).root)
                        || stack@.contains(roots@[j].root),
                reach::closed_up_to(edge, reachable@, stack@),
            decreases link.module_count() - reachable@.len(), stack@.len(),
        {
            let ghost waiting = stack@;
            let ghost seen = reachable@;
            let module_idx = match stack.pop() {
                Some(module_idx) => module_idx,
                None => return reachable,
            };
            proof {
                assert(waiting.last() == module_idx);
                assert(waiting[waiting.len() - 1] == module_idx);
                assert(stack@ =~= waiting.drop_last());
                assert forall|m: ModuleIdx| #[trigger] waiting.contains(m) implies m == module_idx
                    || stack@.contains(m) by {
                    let i = waiting.index_of(m);
                    if i < waiting.len() - 1 {
                        assert(stack@[i] == m);
                    }
                }
                assert forall|j: int| 0 <= j < stack@.len() implies #[trigger] stack@[j]
                    == waiting[j] by {}
                indices::lemma_below_bounds_len(link.module_count(), seen);
            }
            if !fx::set_insert(&mut reachable, module_idx) {
                assert(reachable@ =~= seen);
                continue;
            }
            proof {
                assert(reachable@.subset_of(indices::below(link.module_count())));
                indices::lemma_below_bounds_len(link.module_count(), reachable@);
            }
            let module = match link.module_table.modules[module_idx].as_normal() {
                Some(module) => module,
                None => {
                    proof {
                        assert forall|b: ModuleIdx| edge(
                            module_idx,
                            b,
                        ) implies #[trigger] stack@.contains(b) by {
                            link.lemma_source_edge(module_idx, b);
                        }
                        lemma_search_step(edge, seen, waiting, stack@);
                    }
                    continue;
                },
            };
            assert(link.tables().module_wf(module_idx));
            let mut left: usize = module.import_records.len();
            while left > 0
                invariant
                    link == self.link_output,
                    link.wf(),
                    edge == link.source_graph().edge(),
                    link.is_normal(module_idx),
                    link.tables().module_wf(module_idx),
                    *module == link.normal(module_idx),
                    link.reached_from(roots@, module_idx),
                    left <= module.import_records@.len(),
                    forall|j: int|
                        0 <= j < stack@.len() ==> (#[trigger] stack@[j]) < link.module_count()
                            && link.reached_from(roots@, stack@[j]),
                    forall|m: ModuleIdx|
                        waiting.drop_last().contains(m) ==> #[trigger] stack@.contains(m),
                    forall|r: int|
                        left <= r < module.import_records@.len() ==> (link.source_target(
                            #[trigger] module.import_records@[r],
                        ) matches Some(importee) ==> stack@.contains(importee)),
                decreases left,
            {
                left = left - 1;
                let record = &module.import_records[left];
                let ghost before = stack@;
                if record.kind == ImportKind::Import {
                    if let Some(importee_idx) = record.resolved_module {
                        if link.module_table.modules[importee_idx].is_normal() {
                            stack.push(importee_idx);
                            proof {
                                assert(link.source_target(module.import_records@[left as int])
                                    == Some(importee_idx));
                                link.lemma_source_edge(module_idx, importee_idx);
                                link.lemma_reached_step(roots@, module_idx, importee_idx);
                                assert(stack@[before.len() as int] == importee_idx);
                                assert forall|m: ModuleIdx| before.contains(
                                    m,
                                ) implies #[trigger] stack@.contains(m) by {
                                    assert(stack@[before.index_of(m)] == m);
                                }
                            }
                        }
                    }
                }
            }
            proof {
                assert forall|b: ModuleIdx| edge(
                    module_idx,
                    b,
                ) implies #[trigger] stack@.contains(b) by {
                    link.lemma_source_edge(module_idx, b);
                    let r = choose|r: int|
                        0 <= r < link.records(module_idx).len() && link.source_target(
                            #[trigger] link.records(module_idx)[r],
                        ) == Some(b);
                    assert(link.source_target(module.import_records@[r]) == Some(b));
                }
                lemma_search_step(edge, seen, waiting, stack@);
                assert forall|j: int| 0 <= j < roots@.len() implies reachable@.contains(
                    (#[trigger] roots@[j]).root,
                ) || stack@.contains(roots@[j].root) by {
                    if waiting.contains(roots@[j].root) && roots@[j].root != module_idx {
                        let i = waiting.index_of(roots@[j].root);
                        assert(waiting.drop_last()[i] == roots@[j].root);
                        assert(waiting.drop_last().contains(roots@[j].root));
                    }
                }
            }
        }
        proof {
            assert(stack@ =~= Seq::empty());
            lemma_search_done(edge, reachable@);
            assert forall|m: ModuleIdx| #[trigger] reachable@.contains(m) <==> exists|j: int|
                0 <= j < roots@.len() && link.source_reaches((#[trigger] roots@[j]).root, m) by {
                if exists|j: int|
                    0 <= j < roots@.len() && link.source_reaches((#[trigger] roots@[j]).root, m) {
                    let j = choose|j: int|
                        0 <= j < roots@.len() && link.source_reaches((#[trigger] roots@[j]).root, m);
                    reach::lemma_closed_contains_reachable(edge, reachable@, roots@[j].root, m);
                }
            }
        }
        reachable
    }

    /// Whether static imports lead from `root` to a module in `current`.
    pub fn static_import_reaches_member(
        &self,
        root: ModuleIdx,
        current: &FxHashSet<ModuleIdx>,
    ) -> (found: bool)
        requires
            self.link_output.wf(),
            root < self.link_output.module_count(),
        ensures
            found == self.link_output.leads_to_member(root, current@),
    {
        let link = self.link_output;
        let ghost edge = link.static_edge();
        let mut visited: FxHashSet<ModuleIdx> = FxHashSet::default();
        let mut stack: Vec<ModuleIdx> = Vec::new();
        stack.push(root);
        proof {
            reach::lemma_reaches_self(edge, root);
            assert(stack@[0] == root);
        }
        while stack.len() > 0
            invariant
                link == self.link_output,
                link.wf(),
                edge == link.static_edge(),
                forall|j: int|
                    0 <= j < stack@.len() ==> (#[trigger] stack@[j]) < link.module_count()
                        && reach::reaches(edge, root, stack@[j]),
                visited@.subset_of(indices::below(link.module_count())),
                forall|m: ModuleIdx| #[trigger] visited@.contains(m) ==> !current@.contains(m),
                visited@.contains(root) || stack@.contains(root),
                reach::closed_up_to(edge, visited@, stack@),
            decreases link.module_count() - visited@.len(), stack@.len(),
        {
            let ghost waiting = stack@;
            let ghost seen = visited@;
            let module_idx = match stack.pop() {
                Some(module_idx) => module_idx,
                None => return false,
            };
            proof {
                assert(waiting.last() == module_idx);
                assert(waiting[waiting.len() - 1] == module_idx);
                assert(stack@ =~= waiting.drop_last());
                assert forall|m: ModuleIdx| #[trigger] waiting.contains(m) implies m == module_idx
                    || stack@.contains(m) by {
                    let i = waiting.index_of(m);
                    if i < waiting.len() - 1 {
                        assert(stack@[i] == m);
                    }
                }
                assert forall|j: int| 0 <= j < stack@.len() implies #[trigger] stack@[j]
                    == waiting[j] by {}
                indices::lemma_below_bounds_len(link.module_count(), seen);
            }
            if !fx::set_insert(&mut visited, module_idx) {
                assert(visited@ =~= seen);
                continue;
            }
            proof {
                assert(visited@.subset_of(indices::below(link.module_count())));
                indices::lemma_below_bounds_len(link.module_count(), visited@);
            }
            if fx::set_contains(current, module_idx) {
                assert(reach::reaches(edge, root, module_idx));
                return true;
            }
            let module = match link.module_table.modules[module_idx].as_normal() {
                Some(module) => module,
                None => {
                    proof {
                        lemma_search_step(edge, seen, waiting, stack@);
                    }
                    continue;
                },
            };
            assert(link.tables().module_wf(module_idx));
            let mut r: usize = 0;
            while r < module.import_records.len()
                invariant
                    link == self.link_output,
                    link.wf(),
                    edge == link.static_edge(),
                    link.is_normal(module_idx),
                    link.tables().module_wf(module_idx),
                    *module == link.normal(module_idx),
                    reach::reaches(edge, root, module_idx),
                    r <= module.import_records@.len(),
                    forall|j: int|
                        0 <= j < stack@.len() ==> (#[trigger] stack@[j]) < link.module_count()
                            && reach::reaches(edge, root, stack@[j]),
                    forall|m: ModuleIdx|
                        waiting.drop_last().contains(m) ==> #[trigger] stack@.contains(m),
                    forall|q: int|
                        0 <= q < r ==> (link.static_target(
                            #[trigger] module.import_records@[q],
                        ) matches Some(importee) ==> stack@.contains(importee)),
                decreases module.import_records.len() - r,
            {
                let record = &module.import_records[r];
                let ghost before = stack@;
                if record.kind == ImportKind::Import {
                    if let Some(importee_idx) = record.resolved_module {
                        stack.push(importee_idx);
                        proof {
                            assert(link.static_target(link.records(module_idx)[r as int]) == Some(
                                importee_idx,
                            ));
                            assert(edge(module_idx, importee_idx));
                            reach::lemma_reaches_step(edge, root, module_idx, importee_idx);
                            assert(stack@[before.len() as int] == importee_idx);
                            assert forall|m: ModuleIdx| before.contains(
                                m,
                            ) implies #[trigger] stack@.contains(m) by {
                                assert(stack@[before.index_of(m)] == m);
                            }
                        }
                    }
                }
                r = r + 1;
            }
            proof {
                assert forall|b: ModuleIdx| edge(
                    module_idx,
                    b,
                ) implies #[trigger] stack@.contains(b) by {
                    let q = choose|q: int|
                        0 <= q < link.records(module_idx).len() && link.static_target(
                            #[trigger] link.records(module_idx)[q],
                        ) == Some(b);
                    assert(link.static_target(module.import_records@[q]) == Some(b));
                }
                lemma_search_step(edge, seen, waiting, stack@);
                if waiting.contains(root) && root != module_idx {
                    let i = waiting.index_of(root);
                    assert(waiting.drop_last()[i] == root);
                    assert(waiting.drop_last().contains(root));
                }
            }
        }
        proof {
            assert(stack@ =~= Seq::empty());
            lemma_search_done(edge, visited@);
            assert forall|m: ModuleIdx| #[trigger] current@.contains(m) implies !reach::reaches(
                edge,
                root,
                m,
            ) by {
                if reach::reaches(edge, root, m) {
                    reach::lemma_closed_contains_reachable(edge, visited@, root, m);
                }
            }
        }
        false
    }
}

impl<'a> GenerateStage<'a> {
    /// Whether the module depends on a module in `current` for its execution, and a static import
    /// of it leads to one.
    pub fn statically_imports_wrapped_member(
        &self,
        module_idx: ModuleIdx,
        current: &FxHashSet<ModuleIdx>,
    ) -> (imports: bool)
        requires
            self.link_output.wf(),
            module_idx < self.link_output.module_count(),
        ensures
            imports == self.link_output.imports_member(module_idx, current@),
    {
        let link = self.link_output;
        let module = match link.module_table.modules[module_idx].as_normal() {
            Some(module) => module,
            None => return false,
        };
        let dependencies: &Vec<ModuleIdx> = &link.metas[module_idx].execution_dependencies;
        let mut depends: bool = false;
        let mut d: usize = 0;
        while d < dependencies.len() && !depends
            invariant
                dependencies@ == link.meta(module_idx).execution_dependencies@,
                d <= dependencies@.len(),
                depends == exists|i: int|
                    0 <= i < d && current@.contains(#[trigger] dependencies@[i]),
            decreases dependencies.len() - d,
        {
            if fx::set_contains(current, dependencies[d]) {
                assert(current@.contains(dependencies@[d as int]));
                depends = true;
            }
            d = d + 1;
        }
        if !depends {
            return false;
        }
        assert(link.tables().module_wf(module_idx));
        let mut k: usize = 0;
        while k < module.import_records.len()
            invariant
                link == self.link_output,
                link.wf(),
                link.is_normal(module_idx),
                link.tables().module_wf(module_idx),
                *module == link.normal(module_idx),
                exists|i: int|
                    0 <= i < link.meta(module_idx).execution_dependencies@.len()
                        && current@.contains(
                        #[trigger] link.meta(module_idx).execution_dependencies@[i],
                    ),
                k <= module.import_records@.len(),
                forall|j: int|
                    0 <= j < k ==> !(link.static_target(#[trigger] module.import_records@[j])
                        matches Some(importee) && link.leads_to_member(importee, current@)),
            decreases module.import_records.len() - k,
        {
            let record = &module.import_records[k];
            if record.kind == ImportKind::Import {
                if let Some(importee_idx) = record.resolved_module {
                    if self.static_import_reaches_member(importee_idx, current) {
                        assert(link.static_target(link.records(module_idx)[k as int]) == Some(
                            importee_idx,
                        ));
                        return true;
                    }
                }
            }
            k = k + 1;
        }
        false
    }

    /// Whether a symbol that `symbol_ref` passes through when it is exported is owned by a module
    /// in `current`.
    fn exports_chain_touches(&self, symbol_ref: SymbolRef, current: &FxHashSet<ModuleIdx>) -> (
    touches: bool)
        ensures
            touches == self.link_output.chain_touches(symbol_ref, current@),
    {
        let chains = &self.link_output.normal_symbol_exports_chain_map;
        let refs = match fx::symbol_map_get(chains, (symbol_ref.owner, symbol_ref.symbol)) {
            Some(refs) => refs,
            None => return false,
        };
        let mut i: usize = 0;
        while i < refs.len()
            invariant
                self.link_output.normal_symbol_exports_chain_map@.contains_key(
                    (symbol_ref.owner, symbol_ref.symbol),
                ),
                *refs == self.link_output.normal_symbol_exports_chain_map@[(
                    symbol_ref.owner,
                    symbol_ref.symbol,
                )],
                i <= refs@.len(),
                forall|j: int| 0 <= j < i ==> !current@.contains((#[trigger] refs@[j]).owner),
            decreases refs.len() - i,
        {
            if fx::set_contains(current, refs[i].owner) {
                return true;
            }
            i = i + 1;
        }
        false
    }

    /// Whether reading the symbol reads something that a module in `current` owns.
    pub fn symbol_touches_wrapped_export(
        &self,
        symbol_ref: SymbolRef,
        current: &FxHashSet<ModuleIdx>,
    ) -> (touches: bool)
        requires
            self.link_output.symbol_db.holds(symbol_ref),
        ensures
            touches == self.link_output.symbol_touches(symbol_ref, current@),
    {
        let canonical_ref = self.link_output.symbol_db.canonical_ref_for(symbol_ref);
        fx::set_contains(current, symbol_ref.owner) || fx::set_contains(
            current,
            canonical_ref.owner,
        ) || self.exports_chain_touches(symbol_ref, current) || self.exports_chain_touches(
            canonical_ref,
            current,
        )
    }

    /// Whether a reference in the module reads something that a module in `current` owns.
    pub fn reference_touches_wrapped_export(
        &self,
        module_idx: ModuleIdx,
        reference_ref: &SymbolOrMemberExprRef,
        current: &FxHashSet<ModuleIdx>,
    ) -> (touches: bool)
        requires
            self.link_output.wf(),
            module_idx < self.link_output.module_count(),
            match *reference_ref {
                SymbolOrMemberExprRef::Symbol(symbol_ref) => self.link_output.symbol_db.holds(
                    symbol_ref,
                ),
                SymbolOrMemberExprRef::MemberExpr(member) => self.link_output.symbol_db.holds(
                    member.object_ref,
                ),
            },
        ensures
            touches == self.link_output.reference_touches(module_idx, *reference_ref, current@),
    {
        let link = self.link_output;
        match reference_ref {
            SymbolOrMemberExprRef::Symbol(symbol_ref) => self.symbol_touches_wrapped_export(
                *symbol_ref,
                current,
            ),
            SymbolOrMemberExprRef::MemberExpr(member_expr_ref) => {
                let resolutions = &link.metas[module_idx].resolved_member_expr_refs;
                let resolution = match member_expr_ref.resolution(resolutions) {
                    Some(resolution) => resolution,
                    None => {
                        return self.symbol_touches_wrapped_export(
                            member_expr_ref.object_ref,
                            current,
                        );
                    },
                };
                proof {
                    assert(link.tables().module_wf(module_idx));
                    assert(link.meta(module_idx).resolved_member_expr_refs@[member_expr_ref.expr as int]
                        == Some(*resolution));
                }
                if let Some(symbol_ref) = resolution.resolved {
                    if self.symbol_touches_wrapped_export(symbol_ref, current) {
                        return true;
                    }
                }
                let depended_refs: &Vec<SymbolRef> = &resolution.depended_refs;
                let mut d: usize = 0;
                while d < depended_refs.len()
                    invariant
                        link == self.link_output,
                        d <= depended_refs@.len(),
                        forall|i: int|
                            0 <= i < depended_refs@.len() ==> link.symbol_db.holds(
                                #[trigger] depended_refs@[i],
                            ),
                        forall|i: int|
                            0 <= i < d ==> !link.symbol_touches(
                                #[trigger] depended_refs@[i],
                                current@,
                            ),
                        depended_refs@ == resolution.depended_refs@,
                        link.reference_touches(module_idx, *reference_ref, current@) == exists|i:
                            int|
                            0 <= i < resolution.depended_refs@.len() && link.symbol_touches(
                                #[trigger] resolution.depended_refs@[i],
                                current@,
                            ),
                    decreases depended_refs.len() - d,
                {
                    if self.symbol_touches_wrapped_export(depended_refs[d], current) {
                        assert(link.symbol_touches(resolution.depended_refs@[d as int], current@));
                        return true;
                    }
                    d = d + 1;
                }
                false
            },
        }
    }

    /// Whether evaluating the module reads something that a module in `current` owns.
    pub fn top_level_reads_wrapped_export(
        &self,
        module_idx: ModuleIdx,
        current: &FxHashSet<ModuleIdx>,
    ) -> (reads: bool)
        requires
            self.link_output.wf(),
            module_idx < self.link_output.module_count(),
        ensures
            reads == self.link_output.reads_member(module_idx, current@),
    {
        let link = self.link_output;
        let module = match link.module_table.modules[module_idx].as_normal() {
            Some(module) => module,
            None => return false,
        };
        if !link.metas[module_idx].is_included || !module.meta.top_level_import_read {
            return false;
        }
        assert(link.tables().module_wf(module_idx));
        let stmts: &Vec<StmtInfo> = &link.stmt_infos[module_idx].infos;
        let mut s: usize = NAMESPACE_STMT_IDX + 1;
        while s < stmts.len()
            invariant
                link == self.link_output,
                link.wf(),
                module_idx < link.module_count(),
                link.is_normal(module_idx),
                link.included(module_idx),
                link.normal(module_idx).meta.top_level_import_read,
                link.tables().module_wf(module_idx),
                stmts@ == link.stmts(module_idx),
                NAMESPACE_STMT_IDX < s,
                forall|p: int, r: int|
                    NAMESPACE_STMT_IDX < p < s && p < stmts@.len() && 0 <= r
                        < stmts@[p].referenced_symbols@.len() ==> !link.reference_touches(
                        module_idx,
                        #[trigger] stmts@[p].referenced_symbols@[r],
                        current@,
                    ),
            decreases stmts.len() - s,
        {
            let references: &Vec<SymbolOrMemberExprRef> = &stmts[s].referenced_symbols;
            let mut r: usize = 0;
            while r < references.len()
                invariant
                    link == self.link_output,
                    link.wf(),
                    module_idx < link.module_count(),
                    link.is_normal(module_idx),
                    link.included(module_idx),
                    link.normal(module_idx).meta.top_level_import_read,
                    link.tables().module_wf(module_idx),
                    stmts@ == link.stmts(module_idx),
                    NAMESPACE_STMT_IDX < s < stmts@.len(),
                    references@ == stmts@[s as int].referenced_symbols@,
                    r <= references@.len(),
                    forall|q: int|
                        0 <= q < r ==> !link.reference_touches(
                            module_idx,
                            #[trigger] references@[q],
                            current@,
                        ),
                decreases references.len() - r,
            {
                proof {
                    let reference = stmts@[s as int].referenced_symbols@[r as int];
                    assert(link.normal(module_idx).stmts_wf(stmts@, link.symbol_db));
                    assert(references@[r as int] == reference);
                }
                if self.reference_touches_wrapped_export(module_idx, &references[r], current) {
                    assert(link.reference_touches(
                        module_idx,
                        link.stmts(module_idx)[s as int].referenced_symbols@[r as int],
                        current@,
                    ));
                    return true;
                }
                r = r + 1;
            }
            s = s + 1;
        }
        false
    }
}

/// With more members, a module depends on members in at least the same ways.
pub proof fn lemma_members_monotone(
    link: LinkStageOutput,
    small: Set<ModuleIdx>,
    large: Set<ModuleIdx>,
    m: ModuleIdx,
)
    requires
        small.subset_of(large),
    ensures
        link.imports_member(m, small) ==> link.imports_member(m, large),
        link.reads_member(m, small) ==> link.reads_member(m, large),
{
    if link.imports_member(m, small) {
        let d = choose|d: int|
            0 <= d < link.meta(m).execution_dependencies@.len() && small.contains(
                #[trigger] link.meta(m).execution_dependencies@[d],
            );
        assert(large.contains(link.meta(m).execution_dependencies@[d]));
        let k = choose|k: int|
            0 <= k < link.records(m).len() && (link.static_target(#[trigger] link.records(m)[k])
                matches Some(importee) && link.leads_to_member(importee, small));
        let importee = link.static_target(link.records(m)[k])->0;
        let found = choose|x: ModuleIdx| #[trigger]
            small.contains(x) && reach::reaches(link.static_edge(), importee, x);
        assert(large.contains(found));
        assert(link.leads_to_member(importee, large));
        assert(link.static_target(link.records(m)[k]) == Some(importee));
    }
    if link.reads_member(m, small) {
        let (s, r) = choose|s: int, r: int|
            #![trigger link.stmts(m)[s].referenced_symbols@[r]]
            NAMESPACE_STMT_IDX < s < link.stmts(m).len() && 0 <= r < link.stmts(
                m,
            )[s].referenced_symbols@.len() && link.reference_touches(
                m,
                link.stmts(m)[s].referenced_symbols@[r],
                small,
            );
        let reference = link.stmts(m)[s].referenced_symbols@[r];
        assert(link.reference_touches(m, reference, large)) by {
            match reference {
                SymbolOrMemberExprRef::Symbol(symbol_ref) => {
                    lemma_symbol_monotone(link, small, large, symbol_ref);
                },
                SymbolOrMemberExprRef::MemberExpr(member) => {
                    lemma_symbol_monotone(link, small, large, member.object_ref);
                    match member.resolution_in(link.meta(m).resolved_member_expr_refs@) {
                        None => {},
                        Some(resolution) => {
                            if resolution.resolved is Some {
                                lemma_symbol_monotone(link, small, large, resolution.resolved->0);
                            }
                            if exists|d: int|
                                0 <= d < resolution.depended_refs@.len() && link.symbol_touches(
                                    #[trigger] resolution.depended_refs@[d],
                                    small,
                                ) {
                                let d = choose|d: int|
                                    0 <= d < resolution.depended_refs@.len() && link.symbol_touches(
                                        #[trigger] resolution.depended_refs@[d],
                                        small,
                                    );
                                lemma_symbol_monotone(
                                    link,
                                    small,
                                    large,
                                    resolution.depended_refs@[d],
                                );
                            }
                        },
                    }
                },
            }
        }
    }
}

proof fn lemma_symbol_monotone(
    link: LinkStageOutput,
    small: Set<ModuleIdx>,
    large: Set<ModuleIdx>,
    symbol_ref: SymbolRef,
)
    requires
        small.subset_of(large),
    ensures
        link.symbol_touches(symbol_ref, small) ==> link.symbol_touches(symbol_ref, large),
{
    lemma_chain_monotone(link, small, large, symbol_ref);
    lemma_chain_monotone(link, small, large, link.symbol_db.link(symbol_ref).canonical);
}

proof fn lemma_chain_monotone(
    link: LinkStageOutput,
    small: Set<ModuleIdx>,
    large: Set<ModuleIdx>,
    symbol_ref: SymbolRef,
)
    requires
        small.subset_of(large),
    ensures
        link.chain_touches(symbol_ref, small) ==> link.chain_touches(symbol_ref, large),
{
    if link.chain_touches(symbol_ref, small) {
        let chain = link.normal_symbol_exports_chain_map@[(symbol_ref.owner, symbol_ref.symbol)];
        let i = choose|i: int|
            0 <= i < chain@.len() && small.contains((#[trigger] chain@[i]).owner);
        assert(large.contains(chain@[i].owner));
    }
}

/// Without members, no module depends on one.
pub proof fn lemma_no_members(link: LinkStageOutput, m: ModuleIdx)
    ensures
        !link.imports_member(m, Set::empty()),
        !link.reads_member(m, Set::empty()),
{
    let none: Set<ModuleIdx> = Set::empty();
    assert forall|symbol_ref: SymbolRef| !#[trigger] link.symbol_touches(symbol_ref, none) by {}
}

} // verus!
