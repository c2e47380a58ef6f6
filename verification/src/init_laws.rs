//! What holds of the `init_*` calls of every static import.

use vstd::prelude::*;

use crate::indices;
use crate::init_targets;
use crate::init_targets::{Credit, InitWorld};
use crate::link::{
    ImportRecordIdx, ModuleIdx, NamedImport, NormalModule, ResolvedExport, SymbolRef,
    NAMESPACE_STMT_IDX,
};
use crate::reach;
use crate::seqs;

verus! {

/// Everything that `a` reaches.
pub open spec fn reached(edge: spec_fn(ModuleIdx, ModuleIdx) -> bool, a: ModuleIdx) -> Set<
    ModuleIdx,
> {
    Set::new(|f: ModuleIdx| reach::reaches(edge, a, f))
}

/// Nothing that `a` reaches, itself included, leads back to itself.
pub open spec fn no_circle_behind(
    edge: spec_fn(ModuleIdx, ModuleIdx) -> bool,
    a: ModuleIdx,
) -> bool {
    forall|f: ModuleIdx| #[trigger] reach::reaches(edge, a, f) ==> !reach::on_cycle(edge, f)
}

spec fn edges_in_table(edge: spec_fn(ModuleIdx, ModuleIdx) -> bool, module_count: nat) -> bool {
    forall|a: ModuleIdx, b: ModuleIdx| #[trigger] edge(a, b) ==> b < module_count
}

proof fn lemma_reached_in_table(
    edge: spec_fn(ModuleIdx, ModuleIdx) -> bool,
    module_count: nat,
    a: ModuleIdx,
)
    requires
        a < module_count <= usize::MAX,
        edges_in_table(edge, module_count),
    ensures
        reached(edge, a).contains(a),
        reached(edge, a).subset_of(indices::below(module_count)),
        reached(edge, a).finite(),
        0 < reached(edge, a).len() <= module_count,
{
    let table = indices::below(module_count);
    reach::lemma_reaches_self(edge, a);
    assert(reach::closed_under(edge, table));
    assert forall|f: ModuleIdx| #[trigger] reached(edge, a).contains(f) implies table.contains(f) by {
        reach::lemma_closed_contains_reachable(edge, table, a, f);
    }
    indices::lemma_below_bounds_len(module_count, reached(edge, a));
    assert(reached(edge, a).contains(a));
}

/// One step on, less is reached, where nothing leads in a circle.
proof fn lemma_reached_shrinks(
    edge: spec_fn(ModuleIdx, ModuleIdx) -> bool,
    module_count: nat,
    a: ModuleIdx,
    b: ModuleIdx,
)
    requires
        a < module_count <= usize::MAX,
        edges_in_table(edge, module_count),
        edge(a, b),
        no_circle_behind(edge, a),
    ensures
        b < module_count,
        no_circle_behind(edge, b),
        reached(edge, b).subset_of(reached(edge, a).remove(a)),
        reached(edge, b).finite(),
        reached(edge, b).len() < reached(edge, a).len(),
{
    lemma_reached_in_table(edge, module_count, a);
    lemma_reached_in_table(edge, module_count, b);
    reach::lemma_reaches_self(edge, a);
    reach::lemma_reaches_edge(edge, a, b);
    assert forall|f: ModuleIdx| #[trigger]
        reach::reaches(edge, b, f) implies reach::reaches(edge, a, f) && f != a by {
        reach::lemma_reaches_trans(edge, a, b, f);
        if f == a {
            assert(reach::on_cycle(edge, a));
        }
    }
    assert(reached(edge, b).subset_of(reached(edge, a).remove(a)));
    vstd::set_lib::lemma_len_subset(reached(edge, b), reached(edge, a).remove(a));
}

impl InitWorld {
    /// All symbols that an import takes are in the symbol table.
    pub proof fn lemma_consumed_symbols_held(
        self,
        importer: NormalModule,
        rec: ImportRecordIdx,
        importee: ModuleIdx,
    )
        requires
            self.wf(),
            importer.wf(self.tables.module_count(), self.tables.symbol_db),
            importee < self.tables.module_count(),
        ensures
            ({
                let symbols = self.consumed_symbols(
                    importer,
                    rec,
                    self.tables.meta(importee).resolved_exports@,
                );
                forall|i: int|
                    0 <= i < symbols.len() ==> self.tables.symbol_db.holds(#[trigger] symbols[i])
            }),
    {
        let exports = self.tables.meta(importee).resolved_exports@;
        assert(self.tables.module_wf(importee));
        if importer.import_records@[rec as int].meta.is_export_star {
            let symbols = init_targets::exported_symbols(exports);
            assert forall|i: int| 0 <= i < symbols.len() implies self.tables.symbol_db.holds(
                #[trigger] symbols[i],
            ) by {
                assert(self.tables.symbol_db.holds(exports[i].symbol_ref));
            }
        } else {
            self.lemma_named_symbols_held(importer, rec, exports, importer.named_imports@.len() as int);
            assert(importer.named_imports@.take(importer.named_imports@.len() as int)
                =~= importer.named_imports@);
        }
    }

    proof fn lemma_named_symbols_held(
        self,
        importer: NormalModule,
        rec: ImportRecordIdx,
        exports: Seq<ResolvedExport>,
        count: int,
    )
        requires
            importer.wf(self.tables.module_count(), self.tables.symbol_db),
            forall|k: int|
                0 <= k < exports.len() ==> self.tables.symbol_db.holds(
                    (#[trigger] exports[k]).symbol_ref,
                ),
            0 <= count <= importer.named_imports@.len(),
        ensures
            ({
                let symbols = importer.named_imports@.take(count).flat_map(
                    |import: NamedImport| init_targets::imported_symbols(import, rec, exports),
                );
                forall|i: int|
                    0 <= i < symbols.len() ==> self.tables.symbol_db.holds(#[trigger] symbols[i])
            }),
        decreases count,
    {
        let taken = |import: NamedImport| init_targets::imported_symbols(import, rec, exports);
        let imports = importer.named_imports@;
        let symbols = imports.take(count).flat_map(taken);
        if count == 0 {
            assert(symbols =~= Seq::<SymbolRef>::empty());
        } else {
            self.lemma_named_symbols_held(importer, rec, exports, count - 1);
            imports.lemma_flat_map_take_append(taken, count - 1);
            let before = imports.take(count - 1).flat_map(taken);
            let import = imports[count - 1];
            let next = taken(import);
            assert forall|i: int| 0 <= i < symbols.len() implies self.tables.symbol_db.holds(
                #[trigger] symbols[i],
            ) by {
                if i < before.len() {
                    assert(symbols[i] == before[i]);
                } else {
                    assert(symbols[i] == next[i - before.len()]);
                    assert(self.tables.symbol_db.holds(imports[count - 1].imported_as));
                    if import.imported is Star {
                        assert(self.tables.symbol_db.holds(exports[i - before.len()].symbol_ref));
                    }
                }
            }
        }
    }

    /// The modules that symbols lead to are in the module table, and can be called.
    proof fn lemma_symbol_targets_callable(
        self,
        symbols: Seq<SymbolRef>,
        through_namespaces: bool,
        m: ModuleIdx,
    )
        requires
            self.wf(),
            forall|i: int|
                0 <= i < symbols.len() ==> self.tables.symbol_db.holds(#[trigger] symbols[i]),
            self.symbol_targets(symbols, through_namespaces).contains(m),
        ensures
            m < self.tables.module_count(),
            self.is_callable(m),
    {
        let graph = self.symbol_graph(through_namespaces);
        let keys = self.canonical_keys(symbols);
        self.lemma_symbol_graph_wf(through_namespaces);
        assert forall|i: int| 0 <= i < keys.len() implies graph.nodes.contains(
            #[trigger] keys[i],
        ) by {
            assert(self.tables.symbol_db.holds(symbols[i]));
            let link = self.tables.symbol_db.link(symbols[i]);
            assert(self.tables.symbol_db.holds(link.resolving_namespace));
        }
        let order = graph.walk(keys, Set::empty()).order;
        graph.lemma_walk_basics(keys, Set::empty());
        let callable = |key: (ModuleIdx, usize)| self.is_callable(key.0);
        seqs::lemma_filter_members(order, callable);
        let kept = order.filter(callable);
        let i = self.symbol_targets(symbols, through_namespaces).index_of(m);
        assert(kept[i].0 == m);
        assert(kept.contains(kept[i]));
        assert(order.contains(kept[i]));
        assert(order.to_set().contains(kept[i]));
        assert(graph.nodes.contains(kept[i]));
    }

    /// A static import calls nothing that it does not need.
    pub proof fn law_targets_are_wanted(
        self,
        importer: NormalModule,
        importer_wrapped: bool,
        rec: ImportRecordIdx,
        path: Set<ModuleIdx>,
        depth: nat,
        credit: Credit,
        m: ModuleIdx,
    )
        requires
            self.record_targets(importer, importer_wrapped, rec, path, depth, credit).contains(m),
        ensures
            self.wanted(importer, importer_wrapped, rec).contains(m),
    {
        let importee = importer.import_records@[rec as int].resolved_module->0;
        let calls = self.forwarder_calls(importee, path, depth, credit);
        seqs::lemma_filter_members(
            self.wanted(importer, importer_wrapped, rec),
            |t: ModuleIdx| !calls.contains(t),
        );
    }

    /// A static import only ever calls `init_*` functions that can be called, and those of modules
    /// in the table.
    pub proof fn law_targets_are_callable(
        self,
        importer: NormalModule,
        importer_wrapped: bool,
        rec: ImportRecordIdx,
        path: Set<ModuleIdx>,
        depth: nat,
        credit: Credit,
        m: ModuleIdx,
    )
        requires
            self.wf(),
            importer.wf(self.tables.module_count(), self.tables.symbol_db),
            rec < importer.import_records@.len(),
            self.record_targets(importer, importer_wrapped, rec, path, depth, credit).contains(m),
        ensures
            m < self.tables.module_count(),
            self.is_callable(m),
    {
        self.law_targets_are_wanted(importer, importer_wrapped, rec, path, depth, credit, m);
        let importee = importer.import_records@[rec as int].resolved_module->0;
        let wanted = self.wanted(importer, importer_wrapped, rec);
        if self.is_callable(importee) {
            assert(wanted[wanted.index_of(m)] == importee);
        } else {
            let exports = self.tables.meta(importee).resolved_exports@;
            let symbols = self.consumed_symbols(importer, rec, exports);
            self.lemma_consumed_symbols_held(importer, rec, importee);
            self.lemma_symbol_targets_callable(symbols, importer_wrapped, m);
        }
    }

    /// Everything behind an eager forwarder that calls it all itself, or without strict execution
    /// order everything behind any eager forwarder, is left to the forwarder.
    pub proof fn law_full_delegation_calls_nothing(
        self,
        importer: NormalModule,
        importer_wrapped: bool,
        rec: ImportRecordIdx,
    )
        requires
            importer.import_records@[rec as int].resolved_module matches Some(importee)
                && self.delegates_all(importee),
        ensures
            self.record_targets(
                importer,
                importer_wrapped,
                rec,
                Set::empty(),
                self.tables.module_count(),
                Credit::Least,
            ) == Seq::<ModuleIdx>::empty(),
    {
    }

    /// The calls of module `m` for one of its own records.
    spec fn hop(
        self,
        m: ModuleIdx,
        rec: ImportRecordIdx,
        path: Set<ModuleIdx>,
        depth: nat,
        credit: Credit,
    ) -> Seq<ModuleIdx> {
        self.record_targets(
            self.tables.normal(m),
            self.order_wrapped(m, self.tables.meta(m)),
            rec,
            path,
            depth,
            credit,
        )
    }

    /// What the records together call, one of them calls.
    proof fn lemma_hops_member(
        self,
        m: ModuleIdx,
        recs: Seq<ImportRecordIdx>,
        path: Set<ModuleIdx>,
        depth: nat,
        credit: Credit,
        t: ModuleIdx,
    )
        ensures
            self.records_targets(m, recs, path, depth, credit).contains(t) <==> exists|k: int|
                0 <= k < recs.len() && self.hop(m, #[trigger] recs[k], path, depth, credit).contains(
                    t,
                ),
        decreases recs.len(),
    {
        if recs.len() > 0 {
            let front = recs.drop_last();
            let last = self.hop(m, recs.last(), path, depth, credit);
            self.lemma_hops_member(m, front, path, depth, credit, t);
            assert(last.to_set().contains(t) <==> last.contains(t));
            if self.records_targets(m, front, path, depth, credit).contains(t) {
                let k = choose|k: int|
                    0 <= k < front.len() && self.hop(
                        m,
                        #[trigger] front[k],
                        path,
                        depth,
                        credit,
                    ).contains(t);
                assert(recs[k] == front[k]);
            }
            if last.contains(t) {
                assert(recs[recs.len() - 1] == recs.last());
            }
            if exists|k: int|
                0 <= k < recs.len() && self.hop(m, #[trigger] recs[k], path, depth, credit).contains(
                    t,
                ) {
                let k = choose|k: int|
                    0 <= k < recs.len() && self.hop(
                        m,
                        #[trigger] recs[k],
                        path,
                        depth,
                        credit,
                    ).contains(t);
                if k < recs.len() - 1 {
                    assert(front[k] == recs[k]);
                }
            }
        }
    }

    /// With the most credit for the forwarder, a record calls at most as much as with the least.
    proof fn lemma_hop_order(
        self,
        m: ModuleIdx,
        rec: ImportRecordIdx,
        most: (Set<ModuleIdx>, nat),
        least: (Set<ModuleIdx>, nat),
        t: ModuleIdx,
    )
        requires
            self.hop(m, rec, most.0, most.1, Credit::Most).contains(t),
        ensures
            self.hop(m, rec, least.0, least.1, Credit::Least).contains(t),
        decreases most.1 + least.1, 1nat,
    {
        let importer = self.tables.normal(m);
        let wrapped = self.order_wrapped(m, self.tables.meta(m));
        let wanted = self.wanted(importer, wrapped, rec);
        if importer.import_records@[rec as int].resolved_module is Some {
            let g = importer.import_records@[rec as int].resolved_module->0;
            let many = self.forwarder_calls(g, most.0, most.1, Credit::Most);
            let few = self.forwarder_calls(g, least.0, least.1, Credit::Least);
            seqs::lemma_filter_members(wanted, |x: ModuleIdx| !many.contains(x));
            seqs::lemma_filter_members(wanted, |x: ModuleIdx| !few.contains(x));
            if few.contains(t) {
                self.lemma_least_below_most(g, least, most, t);
            }
        }
    }

    /// What a forwarder is sure to call somewhere, it can be relied on for everywhere.
    proof fn lemma_least_below_most(
        self,
        f: ModuleIdx,
        least: (Set<ModuleIdx>, nat),
        most: (Set<ModuleIdx>, nat),
        t: ModuleIdx,
    )
        requires
            self.forwarder_calls(f, least.0, least.1, Credit::Least).contains(t),
        ensures
            self.forwarder_calls(f, most.0, most.1, Credit::Most).contains(t),
        decreases most.1 + least.1, 0nat,
    {
        let hops = self.own_hops(f);
        let path = least.0.insert(f);
        let depth = (least.1 - 1) as nat;
        self.lemma_hops_member(f, hops, path, depth, Credit::Most, t);
        let k = choose|k: int|
            0 <= k < hops.len() && self.hop(f, #[trigger] hops[k], path, depth, Credit::Most).contains(
                t,
            );
        if !most.0.contains(f) && most.1 > 0 {
            let other = (most.0.insert(f), (most.1 - 1) as nat);
            self.lemma_hop_order(f, hops[k], (path, depth), other, t);
            self.lemma_hops_member(f, hops, other.0, other.1, Credit::Least, t);
        } else {
            self.law_targets_are_wanted(
                self.tables.normal(f),
                self.order_wrapped(f, self.tables.meta(f)),
                hops[k],
                path,
                depth,
                Credit::Most,
                t,
            );
            assert(self.hop(f, hops[k], most.0, most.1, Credit::Nothing).contains(t));
            self.lemma_hops_member(f, hops, most.0, most.1, Credit::Nothing, t);
        }
    }

    /// A forwarder is never credited with a call that it does not make: what it is left to call, it
    /// calls.
    pub proof fn law_discharged_is_emitted(
        self,
        f: ModuleIdx,
        path: Set<ModuleIdx>,
        depth: nat,
        t: ModuleIdx,
    )
        requires
            self.forwarder_calls(f, path, depth, Credit::Least).contains(t),
        ensures
            self.emits(f, t),
    {
        let hops = self.own_hops(f);
        let below = (path.insert(f), (depth - 1) as nat);
        self.lemma_hops_member(f, hops, below.0, below.1, Credit::Most, t);
        let k = choose|k: int|
            0 <= k < hops.len() && self.hop(
                f,
                #[trigger] hops[k],
                below.0,
                below.1,
                Credit::Most,
            ).contains(t);
        self.lemma_hop_order(f, hops[k], below, (Set::empty(), self.tables.module_count()), t);
        assert(self.hop_targets(f, hops[k]).contains(t));
    }

    /// The importer leaves to `m` what it calls, so `m` has to be looked into.
    pub open spec fn is_looked_into(self, m: ModuleIdx) -> bool {
        self.eager_forwarder(m) && !self.delegates_all(m) && !self.is_callable(m)
    }

    /// A statement of `a` that emits calls leads to the forwarder `b`, which has to be looked into.
    pub open spec fn leads_to(self, a: ModuleIdx, b: ModuleIdx) -> bool {
        self.tables.is_normal(a) && self.is_looked_into(b) && exists|k: int|
            0 <= k < self.own_hops(a).len() && self.tables.records(a)[#[trigger] self.own_hops(
                a,
            )[k] as int].resolved_module == Some(b)
    }

    pub open spec fn forwarding(self) -> spec_fn(ModuleIdx, ModuleIdx) -> bool {
        |a: ModuleIdx, b: ModuleIdx| self.leads_to(a, b)
    }

    /// Where nothing leads in a circle, what a forwarder calls for a record depends neither on how
    /// the forwarder was come to nor on the credit that the forwarders behind it get.
    proof fn lemma_hop_settles(
        self,
        f: ModuleIdx,
        k: int,
        one: (Set<ModuleIdx>, nat, Credit),
        two: (Set<ModuleIdx>, nat, Credit),
    )
        requires
            self.wf(),
            self.tables.is_normal(f),
            0 <= k < self.own_hops(f).len(),
            no_circle_behind(self.forwarding(), f),
            one.0.disjoint(reached(self.forwarding(), f).remove(f)),
            two.0.disjoint(reached(self.forwarding(), f).remove(f)),
            one.1 + 1 >= reached(self.forwarding(), f).len(),
            two.1 + 1 >= reached(self.forwarding(), f).len(),
            one.2 != Credit::Nothing,
            two.2 != Credit::Nothing,
        ensures
            self.hop(f, self.own_hops(f)[k], one.0, one.1, one.2) == self.hop(
                f,
                self.own_hops(f)[k],
                two.0,
                two.1,
                two.2,
            ),
        decreases reached(self.forwarding(), f).len(), 0nat,
    {
        let rec = self.own_hops(f)[k];
        if self.tables.normal(f).import_records@[rec as int].resolved_module is Some {
            let g = self.tables.normal(f).import_records@[rec as int].resolved_module->0;
            if self.is_looked_into(g) {
                assert(self.leads_to(f, g));
                assert(self.tables.included(g));
                self.lemma_forwarding_in_table();
                lemma_reached_shrinks(self.forwarding(), self.tables.module_count(), f, g);
                self.lemma_forwarder_settles(g, one, two);
            }
        }
    }

    proof fn lemma_forwarder_settles(
        self,
        f: ModuleIdx,
        one: (Set<ModuleIdx>, nat, Credit),
        two: (Set<ModuleIdx>, nat, Credit),
    )
        requires
            self.wf(),
            f < self.tables.module_count(),
            no_circle_behind(self.forwarding(), f),
            one.0.disjoint(reached(self.forwarding(), f)),
            two.0.disjoint(reached(self.forwarding(), f)),
            one.1 >= reached(self.forwarding(), f).len(),
            two.1 >= reached(self.forwarding(), f).len(),
            one.2 != Credit::Nothing,
            two.2 != Credit::Nothing,
        ensures
            self.forwarder_calls(f, one.0, one.1, one.2) == self.forwarder_calls(
                f,
                two.0,
                two.1,
                two.2,
            ),
        decreases reached(self.forwarding(), f).len(), 1nat,
    {
        let hops = self.own_hops(f);
        let below_one = (one.0.insert(f), (one.1 - 1) as nat, one.2.opposite());
        let below_two = (two.0.insert(f), (two.1 - 1) as nat, two.2.opposite());
        self.lemma_forwarding_in_table();
        lemma_reached_in_table(self.forwarding(), self.tables.module_count(), f);
        if self.tables.is_normal(f) {
            assert forall|k: int| 0 <= k < hops.len() implies self.hop(
                f,
                #[trigger] hops[k],
                below_one.0,
                below_one.1,
                below_one.2,
            ) == self.hop(f, hops[k], below_two.0, below_two.1, below_two.2) by {
                self.lemma_hop_settles(f, k, below_one, below_two);
            }
            assert forall|t: ModuleIdx| #[trigger]
                self.forwarder_calls(f, one.0, one.1, one.2).contains(t) == self.forwarder_calls(
                    f,
                    two.0,
                    two.1,
                    two.2,
                ).contains(t) by {
                self.lemma_hops_member(f, hops, below_one.0, below_one.1, below_one.2, t);
                self.lemma_hops_member(f, hops, below_two.0, below_two.1, below_two.2, t);
            }
            assert(self.forwarder_calls(f, one.0, one.1, one.2) =~= self.forwarder_calls(
                f,
                two.0,
                two.1,
                two.2,
            ));
        }
    }

    proof fn lemma_forwarding_in_table(self)
        ensures
            edges_in_table(self.forwarding(), self.tables.module_count()),
    {
        assert forall|a: ModuleIdx, b: ModuleIdx| #[trigger] self.forwarding()(a, b) implies b
            < self.tables.module_count() by {
            assert(self.tables.included(b));
        }
    }

    /// Where no forwarder behind `f` leads back to itself, `f` is credited with exactly what it
    /// calls.
    pub proof fn law_discharged_is_exact(self, f: ModuleIdx)
        requires
            self.wf(),
            f < self.tables.module_count(),
            no_circle_behind(self.forwarding(), f),
        ensures
            forall|t: ModuleIdx| #[trigger]
                self.forwarder_calls(
                    f,
                    Set::empty(),
                    self.tables.module_count(),
                    Credit::Least,
                ).contains(t) <==> self.emits(f, t),
    {
        self.law_discharged_is_exact_on_the_way(f, Set::empty(), self.tables.module_count());
    }

    /// The same holds while other forwarders are being looked into, unless `f` leads back to one of
    /// them.
    pub proof fn law_discharged_is_exact_on_the_way(
        self,
        f: ModuleIdx,
        path: Set<ModuleIdx>,
        depth: nat,
    )
        requires
            self.wf(),
            f < self.tables.module_count(),
            no_circle_behind(self.forwarding(), f),
            path.subset_of(self.tables.all_modules()),
            depth + path.len() >= self.tables.module_count(),
            path.disjoint(reached(self.forwarding(), f)),
        ensures
            forall|t: ModuleIdx| #[trigger]
                self.forwarder_calls(f, path, depth, Credit::Least).contains(t) <==> self.emits(
                    f,
                    t,
                ),
    {
        let n = self.tables.module_count();
        let behind = reached(self.forwarding(), f);
        let hops = self.own_hops(f);
        let start = (Set::<ModuleIdx>::empty(), n, Credit::Least);
        let below = (path.insert(f), (depth - 1) as nat, Credit::Most);
        self.lemma_forwarding_in_table();
        lemma_reached_in_table(self.forwarding(), n, f);
        indices::lemma_below_bounds_len(n, path);
        indices::lemma_below_bounds_len(n, path + behind);
        vstd::set_lib::lemma_set_disjoint_lens(path, behind);
        assert forall|t: ModuleIdx| #[trigger]
            self.forwarder_calls(f, path, depth, Credit::Least).contains(t) <==> self.emits(
                f,
                t,
            ) by {
            if self.forwarder_calls(f, path, depth, Credit::Least).contains(t) {
                self.law_discharged_is_emitted(f, path, depth, t);
            }
            if self.emits(f, t) {
                let k = choose|k: int|
                    0 <= k < hops.len() && self.hop_targets(f, #[trigger] hops[k]).contains(t);
                self.lemma_hop_settles(f, k, start, below);
                assert(self.hop(f, hops[k], below.0, below.1, below.2).contains(t));
                self.lemma_hops_member(f, hops, below.0, below.1, below.2, t);
            }
        }
    }

    /// What module `m` needs for one of its own records.
    pub open spec fn hop_wanted(self, m: ModuleIdx, rec: ImportRecordIdx) -> Seq<ModuleIdx> {
        self.wanted(
            self.tables.normal(m),
            self.order_wrapped(m, self.tables.meta(m)),
            rec,
        )
    }

    /// A statement of the bundled module `m` that emits calls needs `t`.
    pub open spec fn asks_for(self, m: ModuleIdx, t: ModuleIdx) -> bool {
        self.tables.is_normal(m) && exists|k: int|
            0 <= k < self.own_hops(m).len() && self.hop_wanted(
                m,
                #[trigger] self.own_hops(m)[k],
            ).contains(t)
    }

    /// `a` needs `t` for a record whose importee `b` is left everything.
    pub open spec fn leaves_all_to(self, t: ModuleIdx, a: ModuleIdx, b: ModuleIdx) -> bool {
        self.tables.is_normal(a) && self.delegates_all(b) && exists|k: int|
            {
                &&& 0 <= k < self.own_hops(a).len()
                &&& self.tables.records(a)[#[trigger] self.own_hops(a)[k] as int].resolved_module
                    == Some(b)
                &&& self.hop_wanted(a, self.own_hops(a)[k]).contains(t)
            }
    }

    pub open spec fn full_delegation(self, t: ModuleIdx) -> spec_fn(ModuleIdx, ModuleIdx) -> bool {
        |a: ModuleIdx, b: ModuleIdx| self.leaves_all_to(t, a, b)
    }

    /// `a` needs `t` for a record whose importee `b` is a forwarder that is left what it calls.
    pub open spec fn leaves_part_to(self, t: ModuleIdx, a: ModuleIdx, b: ModuleIdx) -> bool {
        self.tables.is_normal(a) && self.eager_forwarder(b) && !self.delegates_all(b) && exists|
            k: int,
        |
            {
                &&& 0 <= k < self.own_hops(a).len()
                &&& self.tables.records(a)[#[trigger] self.own_hops(a)[k] as int].resolved_module
                    == Some(b)
                &&& self.hop_wanted(a, self.own_hops(a)[k]).contains(t)
            }
    }

    /// Each forwarder that everything is left to, from `m` on, asks for `t` itself, and none of
    /// them leaves `t` to itself in the end.
    pub open spec fn delegation_ends(self, t: ModuleIdx, m: ModuleIdx) -> bool {
        &&& no_circle_behind(self.full_delegation(t), m)
        &&& forall|f: ModuleIdx| #[trigger]
            reach::reaches(self.full_delegation(t), m, f) ==> self.asks_for(f, t)
    }

    /// A call of `t` that is left to the forwarder `m` ends up with `e`. Where `m` is left what it
    /// calls, `e` is `m`. Where `m` is left everything, `e` is `m`, a forwarder that everything is
    /// left to in turn, or one that such a forwarder leaves the call to because it makes it.
    pub open spec fn ends_up_with(self, t: ModuleIdx, m: ModuleIdx, e: ModuleIdx) -> bool {
        if self.delegates_all(m) {
            exists|g: ModuleIdx| #[trigger]
                reach::reaches(self.full_delegation(t), m, g) && (e == g || self.leaves_part_to(
                    t,
                    g,
                    e,
                ))
        } else {
            e == m
        }
    }

    /// What the importer needs and does not call, it leaves to an eager forwarder: one that
    /// everything is left to, or one that calls it.
    proof fn lemma_withheld(
        self,
        importer: NormalModule,
        importer_wrapped: bool,
        rec: ImportRecordIdx,
        t: ModuleIdx,
    ) -> (g: ModuleIdx)
        requires
            self.wanted(importer, importer_wrapped, rec).contains(t),
            !self.record_targets(
                importer,
                importer_wrapped,
                rec,
                Set::empty(),
                self.tables.module_count(),
                Credit::Least,
            ).contains(t),
        ensures
            importer.import_records@[rec as int].resolved_module == Some(g),
            self.eager_forwarder(g),
            self.delegates_all(g) || self.emits(g, t),
    {
        let g = importer.import_records@[rec as int].resolved_module->0;
        let n = self.tables.module_count();
        if !self.delegates_all(g) {
            let calls = self.forwarder_calls(g, Set::empty(), n, Credit::Least);
            seqs::lemma_filter_members(
                self.wanted(importer, importer_wrapped, rec),
                |m: ModuleIdx| !calls.contains(m),
            );
            self.law_discharged_is_emitted(g, Set::empty(), n, t);
        }
        g
    }

    /// Whatever is left to a forwarder that is left everything, it calls, or one that it leads to.
    proof fn lemma_delegates_emit(self, f: ModuleIdx, t: ModuleIdx) -> (e: ModuleIdx)
        requires
            self.wf(),
            self.delegates_all(f),
            self.delegation_ends(t, f),
        ensures
            self.eager_forwarder(e),
            self.emits(e, t),
            self.ends_up_with(t, f, e),
        decreases reached(self.full_delegation(t), f).len(),
    {
        let edge = self.full_delegation(t);
        let n = self.tables.module_count();
        reach::lemma_reaches_self(edge, f);
        assert(self.asks_for(f, t));
        assert(self.tables.included(f));
        let k = choose|k: int|
            0 <= k < self.own_hops(f).len() && self.hop_wanted(
                f,
                #[trigger] self.own_hops(f)[k],
            ).contains(t);
        let rec = self.own_hops(f)[k];
        if self.hop_targets(f, rec).contains(t) {
            f
        } else {
            let g = self.lemma_withheld(
                self.tables.normal(f),
                self.order_wrapped(f, self.tables.meta(f)),
                rec,
                t,
            );
            if self.delegates_all(g) {
                assert(self.leaves_all_to(t, f, g));
                assert(edges_in_table(edge, n)) by {
                    assert forall|a: ModuleIdx, b: ModuleIdx| #[trigger] edge(a, b) implies b
                        < n by {
                        assert(self.tables.included(b));
                    }
                }
                lemma_reached_shrinks(edge, n, f, g);
                reach::lemma_reaches_edge(edge, f, g);
                assert forall|h: ModuleIdx| #[trigger]
                    reach::reaches(edge, g, h) implies reach::reaches(edge, f, h) by {
                    reach::lemma_reaches_trans(edge, f, g, h);
                }
                self.lemma_delegates_emit(g, t)
            } else {
                assert(self.leaves_part_to(t, f, g));
                g
            }
        }
    }

    /// Nothing that an import needs is lost when the importer leaves calls to an eager forwarder:
    /// what the importer does not call itself, the forwarder calls, or, where it is left everything,
    /// one that the call ends up with. Only where the forwarder is left everything does this take a
    /// condition: it has to ask for the module itself, as do those that it leaves everything to in
    /// turn, without going in a circle.
    pub proof fn law_nothing_needed_is_lost(
        self,
        importer: NormalModule,
        importer_wrapped: bool,
        rec: ImportRecordIdx,
        t: ModuleIdx,
    )
        requires
            self.wf(),
            importer.wf(self.tables.module_count(), self.tables.symbol_db),
            rec < importer.import_records@.len(),
            importer.import_records@[rec as int].resolved_module matches Some(importee)
                ==> self.delegates_all(importee) ==> self.delegation_ends(t, importee),
            self.wanted(importer, importer_wrapped, rec).contains(t),
        ensures
            importer.import_records@[rec as int].resolved_module is Some,
            self.record_targets(
                importer,
                importer_wrapped,
                rec,
                Set::empty(),
                self.tables.module_count(),
                Credit::Least,
            ).contains(t) || exists|e: ModuleIdx|
                self.eager_forwarder(e) && #[trigger] self.emits(e, t) && self.ends_up_with(
                    t,
                    importer.import_records@[rec as int].resolved_module->0,
                    e,
                ),
    {
        let targets = self.record_targets(
            importer,
            importer_wrapped,
            rec,
            Set::empty(),
            self.tables.module_count(),
            Credit::Least,
        );
        if !targets.contains(t) {
            let g = self.lemma_withheld(importer, importer_wrapped, rec, t);
            if self.delegates_all(g) {
                let e = self.lemma_delegates_emit(g, t);
                assert(self.emits(e, t));
            } else {
                assert(self.emits(g, t));
            }
        }
    }

    /// The same modules, none of which owns its initialization.
    pub open spec fn disowned(self) -> InitWorld {
        InitWorld { owns: Seq::new(self.owns.len(), |m: int| false), ..self }
    }

    /// Only a module that carries an `init_*` function can be called.
    pub open spec fn callable_carry_init(self) -> bool {
        forall|m: ModuleIdx|
            m < self.tables.module_count() && #[trigger] self.is_callable(m)
                ==> !self.init_target_is_none(m)
    }

    /// Behind a forwarder that is left only what it calls, the importer calls what it would call if
    /// no module owned its initialization, without what the forwarder discharges, in the same order.
    pub proof fn law_partial_delegation_filters(
        self,
        importer: NormalModule,
        importer_wrapped: bool,
        rec: ImportRecordIdx,
        path: Set<ModuleIdx>,
        depth: nat,
    )
        requires
            self.wf(),
            self.callable_carry_init(),
            importer.wf(self.tables.module_count(), self.tables.symbol_db),
            rec < importer.import_records@.len(),
            importer.import_records@[rec as int].resolved_module matches Some(importee)
                && self.eager_forwarder(importee) && !self.delegates_all(importee),
        ensures
            ({
                let importee = importer.import_records@[rec as int].resolved_module->0;
                let discharged = self.forwarder_calls(importee, path, depth, Credit::Least);
                self.record_targets(
                    importer,
                    importer_wrapped,
                    rec,
                    path,
                    depth,
                    Credit::Least,
                ) == self.disowned().record_targets(
                    importer,
                    importer_wrapped,
                    rec,
                    path,
                    depth,
                    Credit::Least,
                ).filter(|m: ModuleIdx| !discharged.contains(m))
            }),
    {
        let importee = importer.import_records@[rec as int].resolved_module->0;
        let discharged = self.forwarder_calls(importee, path, depth, Credit::Least);
        assert(!self.disowned().eager_forwarder(importee));
        self.lemma_disowned_wants_the_same(importer, importer_wrapped, rec);
        assert(self.record_targets(
            importer,
            importer_wrapped,
            rec,
            path,
            depth,
            Credit::Least,
        ) == self.wanted(importer, importer_wrapped, rec).filter(
            |m: ModuleIdx| !discharged.contains(m),
        ));
    }

    /// What a record brings in needs the same `init_*` functions, whoever owns the initialization.
    proof fn lemma_disowned_wants_the_same(
        self,
        importer: NormalModule,
        importer_wrapped: bool,
        rec: ImportRecordIdx,
    )
        ensures
            self.disowned().wanted(importer, importer_wrapped, rec) == self.wanted(
                importer,
                importer_wrapped,
                rec,
            ),
    {
        let other = self.disowned();
        assert forall|symbols: Seq<SymbolRef>| #[trigger]
            other.canonical_keys(symbols) == self.canonical_keys(symbols) by {
            assert(other.canonical_keys(symbols) =~= self.canonical_keys(symbols));
        }
        let mine = self.symbol_graph(importer_wrapped);
        let others = other.symbol_graph(importer_wrapped);
        assert(mine.succ =~= others.succ);
        assert(mine == others);
        assert forall|order: Seq<(ModuleIdx, usize)>| #[trigger]
            other.owners_to_init(order) == self.owners_to_init(order) by {
            assert((|key: (ModuleIdx, usize)| other.is_callable(key.0)) =~= (|
                key: (ModuleIdx, usize),
            | self.is_callable(key.0)));
        }
    }

    /// Where no module owns its initialization, a forwarder discharges exactly what its emitting
    /// records call, which is what they need.
    pub proof fn law_unowned_discharges_everything_needed(
        self,
        f: ModuleIdx,
        path: Set<ModuleIdx>,
        depth: nat,
    )
        requires
            self.wf(),
            f < self.tables.module_count(),
            forall|m: ModuleIdx|
                m < self.tables.module_count() ==> !(#[trigger] self.owns[m as int]),
            !path.contains(f),
            depth > 0,
        ensures
            forall|t: ModuleIdx| #[trigger]
                self.forwarder_calls(f, path, depth, Credit::Least).contains(t) <==> self.emits(
                    f,
                    t,
                ),
            forall|t: ModuleIdx| #[trigger] self.emits(f, t) <==> self.asks_for(f, t),
    {
        let hops = self.own_hops(f);
        let n = self.tables.module_count();
        let below = (path.insert(f), (depth - 1) as nat);
        if self.tables.is_normal(f) {
            self.lemma_own_hops_in_range(f);
            assert forall|k: int| 0 <= k < hops.len() implies {
                &&& self.hop_targets(f, #[trigger] hops[k]) == self.hop_wanted(f, hops[k])
                &&& self.hop(f, hops[k], below.0, below.1, Credit::Most) == self.hop_wanted(
                    f,
                    hops[k],
                )
            } by {
                self.lemma_unowned_calls_all(f, hops[k], Set::empty(), n, Credit::Least);
                self.lemma_unowned_calls_all(f, hops[k], below.0, below.1, Credit::Most);
            }
            assert forall|t: ModuleIdx| self.asks_for(f, t) == #[trigger] self.emits(f, t) by {
                if self.asks_for(f, t) {
                    let k = choose|k: int|
                        0 <= k < hops.len() && self.hop_wanted(f, #[trigger] hops[k]).contains(t);
                    assert(self.hop_targets(f, hops[k]).contains(t));
                }
            }
            assert forall|t: ModuleIdx| #[trigger]
                self.forwarder_calls(f, path, depth, Credit::Least).contains(t) <==> self.emits(
                    f,
                    t,
                ) by {
                self.lemma_hops_member(f, hops, below.0, below.1, Credit::Most, t);
                if self.emits(f, t) {
                    let k = choose|k: int|
                        0 <= k < hops.len() && self.hop_targets(f, #[trigger] hops[k]).contains(t);
                    assert(self.hop(f, hops[k], below.0, below.1, Credit::Most).contains(t));
                }
                if self.forwarder_calls(f, path, depth, Credit::Least).contains(t) {
                    self.law_discharged_is_emitted(f, path, depth, t);
                }
            }
        }
    }

    proof fn lemma_unowned_calls_all(
        self,
        m: ModuleIdx,
        rec: ImportRecordIdx,
        path: Set<ModuleIdx>,
        depth: nat,
        credit: Credit,
    )
        requires
            self.wf(),
            self.tables.is_normal(m),
            rec < self.tables.records(m).len(),
            forall|x: ModuleIdx|
                x < self.tables.module_count() ==> !(#[trigger] self.owns[x as int]),
        ensures
            self.hop(m, rec, path, depth, credit) == self.hop_wanted(m, rec),
    {
        assert(self.tables.module_wf(m));
        if self.tables.normal(m).import_records@[rec as int].resolved_module is Some {
            let g = self.tables.normal(m).import_records@[rec as int].resolved_module->0;
            assert(!self.owns[g as int]);
        }
    }

    /// The records for which a module emits calls are its own.
    proof fn lemma_own_hops_in_range(self, m: ModuleIdx)
        requires
            self.wf(),
            self.tables.is_normal(m),
        ensures
            forall|k: int|
                0 <= k < self.own_hops(m).len() ==> (#[trigger] self.own_hops(m)[k])
                    < self.tables.records(m).len(),
    {
        self.lemma_hops_in_range(m, self.tables.stmts(m).len());
    }

    proof fn lemma_hops_in_range(self, m: ModuleIdx, stmt_end: nat)
        requires
            self.wf(),
            self.tables.is_normal(m),
            stmt_end <= self.tables.stmts(m).len(),
        ensures
            ({
                let hops = init_targets::hops(self.tables, self.state, m, stmt_end);
                forall|k: int|
                    0 <= k < hops.len() ==> (#[trigger] hops[k]) < self.tables.records(m).len()
            }),
        decreases stmt_end,
    {
        if stmt_end > NAMESPACE_STMT_IDX + 1 {
            let hops = init_targets::hops(self.tables, self.state, m, stmt_end);
            let before = init_targets::hops(self.tables, self.state, m, (stmt_end - 1) as nat);
            let own = init_targets::stmt_hops(self.tables, self.state, m, stmt_end - 1);
            let all = self.tables.stmts(m)[stmt_end - 1].import_records@;
            self.lemma_hops_in_range(m, (stmt_end - 1) as nat);
            seqs::lemma_filter_members(
                all,
                |rec: ImportRecordIdx| init_targets::emits_for(self.tables, self.state, m, rec),
            );
            assert(self.tables.module_wf(m));
            assert forall|k: int| 0 <= k < hops.len() implies (#[trigger] hops[k])
                < self.tables.records(m).len() by {
                if k >= before.len() {
                    let j = k - before.len();
                    assert(own.contains(own[j]));
                    let i = all.index_of(own[j]);
                    assert(self.tables.stmts(m)[stmt_end - 1].import_records@[i] == own[j]);
                } else {
                    assert(hops[k] == before[k]);
                }
            }
        }
    }

    /// Following a symbol only adds: to what was visited, and behind the targets found so far. A
    /// symbol that was followed before adds nothing, and neither does another that stands for the
    /// same one.
    pub proof fn law_symbols_are_followed_once(
        self,
        through_namespaces: bool,
        symbol_ref: SymbolRef,
        other: SymbolRef,
        targets: Seq<ModuleIdx>,
        visited: Set<(ModuleIdx, usize)>,
    )
        requires
            self.wf(),
            self.tables.symbol_db.holds(symbol_ref),
            self.tables.symbol_db.holds(other),
            self.canonical_key(other) == self.canonical_key(symbol_ref),
            visited.subset_of(self.symbol_graph(through_namespaces).nodes),
        ensures
            ({
                let first = self.follow(through_namespaces, symbol_ref, targets, visited);
                &&& visited.contains(self.canonical_key(symbol_ref)) ==> first == (targets, visited)
                &&& targets.is_prefix_of(first.0)
                &&& visited.subset_of(first.1)
                &&& first.1.contains(self.canonical_key(symbol_ref))
                &&& self.follow(through_namespaces, other, first.0, first.1) == first
            }),
    {
        let graph = self.symbol_graph(through_namespaces);
        let key = self.canonical_key(symbol_ref);
        let none: Seq<(ModuleIdx, usize)> = Seq::empty();
        self.lemma_symbol_graph_wf(through_namespaces);
        assert(graph.holds_all(seq![key]));
        graph.lemma_walk_basics(seq![key], visited);
        graph.lemma_walk_step(seq![key], visited);
        assert(seq![key].drop_first() =~= none);
        graph.lemma_walk_step(none, visited);
        if !visited.contains(key) {
            let succ = (graph.succ)(key);
            assert(graph.nodes.contains(key));
            assert(graph.holds_all(succ));
            graph.lemma_walk_basics(succ, visited.insert(key));
            graph.lemma_walk_basics(none, graph.walk(succ, visited.insert(key)).visited);
        }
        let first = graph.walk(seq![key], visited);
        graph.lemma_walk_step(seq![key], first.visited);
        graph.lemma_walk_step(none, first.visited);
        assert(self.owners_to_init(none) =~= Seq::empty());
        assert(targets + Seq::<ModuleIdx>::empty() =~= targets);
        let found = self.follow(through_namespaces, symbol_ref, targets, visited).0;
        assert(found + Seq::<ModuleIdx>::empty() =~= found);
    }
}

} // verus!
