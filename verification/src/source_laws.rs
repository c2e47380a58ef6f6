//! What the source expects of every entry, read off the import records.

use vstd::prelude::*;

use crate::link;
use crate::link::{ImportKind, LinkStageOutput, Module, ModuleIdx};
use crate::reach;
use crate::seqs;

verus! {

impl LinkStageOutput {
    /// A kept, bundled module that static imports lead to from an entry is expected, whether or not
    /// the modules on the way are kept.
    pub proof fn law_imported_modules_are_expected(self, path: Seq<ModuleIdx>, records: Seq<int>)
        requires
            self.wf(),
            self.import_path(path, records),
            path.last() < self.module_table.modules@.len(),
            self.module_table.modules@[path.last() as int] is Normal,
            self.metas@[path.last() as int].is_included,
        ensures
            self.expected_order(path[0]).contains(path.last()),
    {
        self.lemma_import_path_reaches(path, records);
        if records.len() > 0 {
            assert(0 <= records[0]);
        }
        self.law_expected_order_members(path[0]);
    }

    /// Nothing else is expected.
    pub proof fn law_only_imported_modules_are_expected(self, root: ModuleIdx, m: ModuleIdx) -> (
        found: (Seq<ModuleIdx>, Seq<int>))
        requires
            self.wf(),
            root < self.module_table.modules@.len(),
            self.expected_order(root).contains(m),
        ensures
            m < self.module_table.modules@.len(),
            self.metas@[m as int].is_included,
            self.module_table.modules@[m as int] is Normal,
            self.import_path(found.0, found.1),
            found.0[0] == root,
            found.0.last() == m,
    {
        self.law_expected_order_members(root);
        let (path, records) = self.lemma_source_reaches_path(root, m);
        let bundled = Set::new(|x: ModuleIdx| self.is_normal(x));
        let edge = self.source_graph().edge();
        assert forall|a: ModuleIdx, b: ModuleIdx| #[trigger]
            bundled.contains(a) && #[trigger] edge(a, b) implies bundled.contains(b) by {
            self.lemma_source_edge(a, b);
        }
        reach::lemma_closed_contains_reachable(edge, bundled, root, m);
        (path, records)
    }

    /// A module is expected behind each kept, bundled module that it imports statically, unless
    /// imports lead back from there.
    pub proof fn law_imports_come_first(
        self,
        root: ModuleIdx,
        importer: ModuleIdx,
        record: int,
        importee: ModuleIdx,
    )
        requires
            self.wf(),
            root < self.module_table.modules@.len(),
            self.expected_order(root).contains(importer),
            self.module_table.modules@[importer as int] matches Module::Normal(module) && {
                &&& 0 <= record < module.import_records@.len()
                &&& module.import_records@[record].kind == ImportKind::Import
                &&& module.import_records@[record].resolved_module == Some(importee)
            },
            self.module_table.modules@[importee as int] is Normal,
            self.metas@[importee as int].is_included,
            forall|path: Seq<ModuleIdx>, records: Seq<int>|
                !(#[trigger] self.import_path(path, records) && path[0] == importee && path.last()
                    == importer),
        ensures
            exists|i: int, j: int|
                #![trigger self.expected_order(root)[i], self.expected_order(root)[j]]
                0 <= i < j < self.expected_order(root).len() && self.expected_order(root)[i]
                    == importee && self.expected_order(root)[j] == importer,
    {
        self.law_expected_order_members(root);
        assert(self.tables().module_wf(importer));
        assert(importee < self.module_count());
        assert(self.source_target(self.records(importer)[record]) == Some(importee));
        self.lemma_source_edge(importer, importee);
        if self.source_reaches(importee, importer) {
            let (path, records) = self.lemma_source_reaches_path(importee, importer);
            assert(self.import_path(path, records));
        }
        self.law_imports_are_expected_first(root, importer, importee);
    }

    /// Of two static imports of a module behind an entry, what the earlier one brings in is expected
    /// before what the later one does, if imports do not lead back from there, if neither it nor an
    /// earlier one leads to the other one, and if nothing else imports that.
    pub proof fn law_every_module_imports_in_written_order(
        self,
        root: ModuleIdx,
        m: ModuleIdx,
        earlier: int,
        later: int,
        x: ModuleIdx,
        y: ModuleIdx,
    )
        requires
            self.wf(),
            root < self.module_table.modules@.len(),
            self.expected_order(root).contains(m),
            self.module_table.modules@[m as int] matches Module::Normal(module) && {
                &&& 0 <= earlier < later < module.import_records@.len()
                &&& module.import_records@[earlier].kind == ImportKind::Import
                &&& module.import_records@[earlier].resolved_module == Some(x)
                &&& module.import_records@[later].kind == ImportKind::Import
                &&& module.import_records@[later].resolved_module == Some(y)
                &&& forall|path: Seq<ModuleIdx>, records: Seq<int>, k: int|
                    #![trigger self.import_path(path, records), module.import_records@[k]]
                    0 <= k <= earlier && module.import_records@[k].kind == ImportKind::Import
                        && self.import_path(path, records)
                        && module.import_records@[k].resolved_module == Some(path[0])
                        ==> path.last() != y
            },
            self.module_table.modules@[x as int] is Normal,
            self.metas@[x as int].is_included,
            self.module_table.modules@[y as int] is Normal,
            self.metas@[y as int].is_included,
            y != m,
            y != root,
            forall|path: Seq<ModuleIdx>, records: Seq<int>|
                !(#[trigger] self.import_path(path, records) && path[0] == x && path.last() == m),
            forall|z: ModuleIdx, k: int|
                #![trigger self.records(z)[k]]
                self.is_normal(z) && 0 <= k < self.records(z).len()
                    && self.records(z)[k].resolved_module == Some(y) ==> z == m,
        ensures
            exists|i: int, j: int|
                #![trigger self.expected_order(root)[i], self.expected_order(root)[j]]
                0 <= i < j < self.expected_order(root).len() && self.expected_order(root)[i] == x
                    && self.expected_order(root)[j] == y,
    {
        let graph = self.source_graph();
        let records = self.records(m);
        let pick = self.source_pick();
        let list = self.bundled_root(root);
        let kept = |m: ModuleIdx| self.included(m);
        let whole = graph.walk(list, Set::empty()).order;
        self.law_expected_order_members(root);
        self.lemma_source_graph_wf();
        assert(graph.holds_all(list));
        seqs::lemma_filter_members(whole, kept);
        assert(self.expected_order(root) == whole.filter(kept));
        assert(whole.contains(m));
        assert(self.tables().module_wf(m));
        assert(x < self.module_count() && y < self.module_count());
        let first = link::lemma_picked_splits(records, pick, 0, earlier + 1);
        let rest = link::picked_from(records, pick, earlier + 1);
        link::lemma_picked_from(records, pick, earlier + 1);
        assert((graph.succ)(m) == first + rest);
        assert(pick(records[earlier]) == Some(x));
        assert(pick(records[later]) == Some(y));
        assert(first.contains(x) && rest.contains(y));
        if self.source_reaches(x, m) {
            let (path, steps) = self.lemma_source_reaches_path(x, m);
            assert(self.import_path(path, steps));
        }
        assert forall|i: int| 0 <= i < first.len() implies !reach::reaches(
            graph.edge(),
            #[trigger] first[i],
            y,
        ) by {
            if reach::reaches(graph.edge(), first[i], y) {
                assert(first.contains(first[i]));
                let k = choose|k: int|
                    0 <= k < earlier + 1 && pick(#[trigger] records[k]) == Some(first[i]);
                let (path, steps) = self.lemma_source_reaches_path(first[i], y);
                assert(self.import_path(path, steps));
                let module = self.module_table.modules@[m as int]->Normal_0;
                assert(module.import_records@[k].resolved_module == Some(path[0]));
            }
        }
        assert forall|p: ModuleIdx| #[trigger] graph.edge()(p, y) implies p == m by {
            self.lemma_source_edge(p, y);
            let k = choose|k: int|
                0 <= k < self.records(p).len() && self.source_target(
                    #[trigger] self.records(p)[k],
                ) == Some(y);
            assert(self.records(p)[k].resolved_module == Some(y));
        }
        graph.lemma_successors_finish_in_order(list, m, first, rest, x, y);
        let (a, b) = choose|i: int, j: int|
            #![trigger whole[i], whole[j]]
            0 <= i < j < whole.len() && whole[i] == x && whole[j] == y;
        seqs::lemma_filter_keeps_order(whole, kept, a, b);
        let order = whole.filter(kept);
        let (i, j) = choose|i: int, j: int|
            #![trigger order[i], order[j]]
            0 <= i < j < order.len() && order[i] == whole[a] && order[j] == whole[b];
        assert(self.expected_order(root)[i] == x && self.expected_order(root)[j] == y);
    }

    /// Of two static imports of an entry, what the earlier one brings in is expected before what the
    /// later one does, unless the earlier ones already lead to it.
    pub proof fn law_imports_come_in_written_order(
        self,
        root: ModuleIdx,
        earlier: int,
        later: int,
        x: ModuleIdx,
        y: ModuleIdx,
    )
        requires
            self.wf(),
            root < self.module_table.modules@.len(),
            self.module_table.modules@[root as int] matches Module::Normal(module) && {
                &&& 0 <= earlier < later < module.import_records@.len()
                &&& module.import_records@[earlier].kind == ImportKind::Import
                &&& module.import_records@[earlier].resolved_module == Some(x)
                &&& module.import_records@[later].kind == ImportKind::Import
                &&& module.import_records@[later].resolved_module == Some(y)
                &&& forall|path: Seq<ModuleIdx>, records: Seq<int>, k: int|
                    #![trigger self.import_path(path, records), module.import_records@[k]]
                    0 <= k <= earlier && module.import_records@[k].kind == ImportKind::Import
                        && self.import_path(path, records)
                        && module.import_records@[k].resolved_module == Some(path[0])
                        ==> path.last() != y
            },
            x != root,
            y != root,
            self.module_table.modules@[x as int] is Normal,
            self.metas@[x as int].is_included,
            self.module_table.modules@[y as int] is Normal,
            self.metas@[y as int].is_included,
        ensures
            exists|i: int, j: int|
                #![trigger self.expected_order(root)[i], self.expected_order(root)[j]]
                0 <= i < j < self.expected_order(root).len() && self.expected_order(root)[i] == x
                    && self.expected_order(root)[j] == y,
    {
        let graph = self.source_graph();
        let module = self.module_table.modules@[root as int]->Normal_0;
        let records = self.records(root);
        let pick = self.source_pick();
        let none: Set<ModuleIdx> = Set::empty();
        let seen = none.insert(root);
        self.lemma_source_graph_wf();
        assert(self.tables().module_wf(root));
        assert(x < self.module_count() && y < self.module_count());
        let first = link::lemma_picked_splits(records, pick, 0, earlier + 1);
        let rest = link::picked_from(records, pick, earlier + 1);
        link::lemma_picked_from(records, pick, 0);
        link::lemma_picked_from(records, pick, earlier + 1);
        let all = self.source_imports(root);
        assert(all == first + rest);
        assert(graph.holds_all(first)) by {
            assert forall|i: int| 0 <= i < first.len() implies graph.nodes.contains(
                #[trigger] first[i],
            ) by {
                assert(all[i] == first[i]);
                assert((graph.succ)(root)[i] == first[i]);
            }
        }
        assert(graph.holds_all(rest)) by {
            assert forall|i: int| 0 <= i < rest.len() implies graph.nodes.contains(
                #[trigger] rest[i],
            ) by {
                assert(all[first.len() + i] == rest[i]);
                assert((graph.succ)(root)[first.len() + i] == rest[i]);
            }
        }
        graph.lemma_walk_reaches(first, seen);
        graph.lemma_walk_basics(first, seen);
        assert(pick(records[earlier]) == Some(x));
        assert(first.contains(x));
        assert(pick(records[later]) == Some(y));
        assert(rest.contains(y));
        let one = graph.walk(first, seen);
        assert(one.visited.contains(first[first.index_of(x)]));
        if one.visited.contains(y) {
            assert(one.order.to_set().contains(y));
            let i = choose|i: int|
                0 <= i < first.len() && reach::reaches(graph.edge(), #[trigger] first[i], y);
            assert(first.contains(first[i]));
            let k = choose|k: int|
                0 <= k < earlier + 1 && pick(#[trigger] records[k]) == Some(first[i]);
            let (path, steps) = self.lemma_source_reaches_path(first[i], y);
            assert(self.import_path(path, steps));
            assert(module.import_records@[k].resolved_module == Some(path[0]));
        }
        graph.lemma_walk_reaches(first + rest, seen);
        assert(graph.holds_all(first + rest));
        let place = rest.index_of(y);
        assert((first + rest)[first.len() + place] == y);
        graph.lemma_first_part_finishes_first(first, rest, seen, x, y);
        let below = graph.walk(first + rest, seen);
        let start = self.bundled_root(root);
        assert(start == seq![root]);
        assert(graph.holds_all(start));
        graph.lemma_walk_step(start, none);
        graph.lemma_walk_basics(first + rest, seen);
        assert(start.drop_first() =~= Seq::empty());
        let whole = graph.walk(start, none).order;
        assert((graph.succ)(root) == first + rest);
        let (a, b) = choose|a: int, b: int|
            #![trigger below.order[a], below.order[b]]
            0 <= a < b < below.order.len() && below.order[a] == x && below.order[b] == y;
        assert(whole[a] == x && whole[b] == y);
        let kept = |m: ModuleIdx| self.included(m);
        seqs::lemma_filter_keeps_order(whole, kept, a, b);
        let (i, j) = choose|i: int, j: int|
            #![trigger whole.filter(kept)[i], whole.filter(kept)[j]]
            0 <= i < j < whole.filter(kept).len() && whole.filter(kept)[i] == x && whole.filter(
                kept,
            )[j] == y;
        assert(self.expected_order(root) == whole.filter(kept));
        assert(self.expected_order(root)[i] == x && self.expected_order(root)[j] == y);
    }
}

} // verus!
