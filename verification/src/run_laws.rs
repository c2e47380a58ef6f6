//! What running the chunks of an entry evaluates, and in which order, read off the chunks and the
//! import records.

use rustc_hash::FxHashSet;
use vstd::prelude::*;

use crate::actual_order;
use crate::chunks::{ChunkGraph, ChunkIdx};
use crate::link;
use crate::link::{ImportKind, LinkStageOutput, Module, ModuleIdx, WrapKind};
use crate::reach;
use crate::seqs;

verus! {

impl LinkStageOutput {
    /// Each module of the path is bundled and kept, and has an import or a `require` of the next one
    /// in the record at the same position of `records`. The next one is bundled and kept, and interop
    /// wraps it.
    pub open spec fn call_path(self, path: Seq<ModuleIdx>, records: Seq<int>) -> bool {
        &&& path.len() == records.len() + 1
        &&& forall|i: int|
            #![trigger records[i]]
            0 <= i < records.len() ==> {
                &&& path[i] < self.module_table.modules@.len()
                &&& self.metas@[path[i] as int].is_included
                &&& self.module_table.modules@[path[i] as int] matches Module::Normal(module) && {
                    &&& 0 <= records[i] < module.import_records@.len()
                    &&& module.import_records@[records[i]].kind == ImportKind::Import
                        || module.import_records@[records[i]].kind == ImportKind::Require
                    &&& module.import_records@[records[i]].resolved_module == Some(path[i + 1])
                }
                &&& self.module_table.modules@[path[i + 1] as int] is Normal
                &&& self.metas@[path[i + 1] as int].is_included
                &&& self.metas@[path[i + 1] as int].wrap_kind != WrapKind::Unwrapped
            }
    }

    /// A call is an edge of the graph of calls.
    proof fn lemma_call_edge(self, a: ModuleIdx, b: ModuleIdx)
        ensures
            self.call_graph().edge()(a, b) <==> self.runnable(a) && exists|k: int|
                0 <= k < self.records(a).len() && self.call_target(#[trigger] self.records(a)[k])
                    == Some(b),
    {
        link::lemma_picked_from(self.records(a), self.call_pick(), 0);
        let picked = link::picked_from(self.records(a), self.call_pick(), 0);
        assert(self.call_graph().edge()(a, b) == self.calls(a).contains(b));
        if self.runnable(a) {
            assert(picked.contains(b) <==> exists|k: int|
                0 <= k < self.records(a).len() && (self.call_pick())(
                    #[trigger] self.records(a)[k],
                ) == Some(b));
        }
    }

    proof fn lemma_call_path_reaches(self, path: Seq<ModuleIdx>, records: Seq<int>)
        requires
            self.wf(),
            self.call_path(path, records),
        ensures
            reach::reaches(self.call_graph().edge(), path[0], path.last()),
    {
        let edge = self.call_graph().edge();
        assert forall|i: int, j: int| 0 <= i && j == i + 1 && j < path.len() implies edge(
            #[trigger] path[i],
            #[trigger] path[j],
        ) by {
            assert(0 <= records[i] < self.records(path[i]).len());
            assert(self.tables().module_wf(path[i]));
            assert(path[j] < self.module_count());
            assert(self.call_target(self.records(path[i])[records[i]]) == Some(path[j]));
            self.lemma_call_edge(path[i], path[j]);
        }
        assert(reach::is_path(edge, path));
    }

    proof fn lemma_call_reaches_path(self, a: ModuleIdx, b: ModuleIdx) -> (found: (
        Seq<ModuleIdx>,
        Seq<int>,
    ))
        requires
            self.wf(),
            reach::reaches(self.call_graph().edge(), a, b),
        ensures
            self.call_path(found.0, found.1),
            found.0[0] == a,
            found.0.last() == b,
    {
        let edge = self.call_graph().edge();
        let path = choose|path: Seq<ModuleIdx>|
            #[trigger] reach::is_path(edge, path) && path[0] == a && path.last() == b;
        let records = Seq::new(
            (path.len() - 1) as nat,
            |i: int|
                choose|k: int|
                    0 <= k < self.records(path[i]).len() && self.call_target(
                        #[trigger] self.records(path[i])[k],
                    ) == Some(path[i + 1]),
        );
        assert forall|i: int| #![trigger records[i]] 0 <= i < records.len() implies {
            &&& path[i] < self.module_table.modules@.len()
            &&& self.metas@[path[i] as int].is_included
            &&& self.module_table.modules@[path[i] as int] matches Module::Normal(module) && {
                &&& 0 <= records[i] < module.import_records@.len()
                &&& module.import_records@[records[i]].kind == ImportKind::Import
                    || module.import_records@[records[i]].kind == ImportKind::Require
                &&& module.import_records@[records[i]].resolved_module == Some(path[i + 1])
            }
            &&& self.module_table.modules@[path[i + 1] as int] is Normal
            &&& self.metas@[path[i + 1] as int].is_included
            &&& self.metas@[path[i + 1] as int].wrap_kind != WrapKind::Unwrapped
        } by {
            assert(edge(path[i], path[i + 1]));
            self.lemma_call_edge(path[i], path[i + 1]);
            let k = choose|k: int|
                0 <= k < self.records(path[i]).len() && self.call_target(
                    #[trigger] self.records(path[i])[k],
                ) == Some(path[i + 1]);
            assert(self.call_target(self.records(path[i])[records[i]]) == Some(path[i + 1]));
        }
        (path, records)
    }
}

/// Each chunk of the path lists the next one among its imports.
pub open spec fn chunk_path(chunk_imports: Seq<Seq<ChunkIdx>>, path: Seq<ChunkIdx>) -> bool {
    &&& path.len() > 0
    &&& forall|i: int|
        #![trigger path[i]]
        0 <= i < path.len() - 1 ==> path[i] < chunk_imports.len() && chunk_imports[path[i] as int].contains(
            path[i + 1],
        )
}

proof fn lemma_chunk_path_reaches(chunk_imports: Seq<Seq<ChunkIdx>>, path: Seq<ChunkIdx>)
    requires
        chunk_path(chunk_imports, path),
    ensures
        reach::reaches(actual_order::import_graph(chunk_imports).edge(), path[0], path.last()),
{
    let edge = actual_order::import_graph(chunk_imports).edge();
    assert forall|i: int, j: int| 0 <= i && j == i + 1 && j < path.len() implies edge(
        #[trigger] path[i],
        #[trigger] path[j],
    ) by {}
    assert(reach::is_path(edge, path));
}

proof fn lemma_chunk_reaches_path(
    chunk_imports: Seq<Seq<ChunkIdx>>,
    a: ChunkIdx,
    b: ChunkIdx,
) -> (path: Seq<ChunkIdx>)
    requires
        reach::reaches(actual_order::import_graph(chunk_imports).edge(), a, b),
    ensures
        chunk_path(chunk_imports, path),
        path[0] == a,
        path.last() == b,
{
    let edge = actual_order::import_graph(chunk_imports).edge();
    let path = choose|path: Seq<ChunkIdx>|
        #[trigger] reach::is_path(edge, path) && path[0] == a && path.last() == b;
    assert forall|i: int| #![trigger path[i]] 0 <= i < path.len() - 1 implies path[i]
        < chunk_imports.len() && chunk_imports[path[i] as int].contains(path[i + 1]) by {
        assert(edge(path[i], path[i + 1]));
    }
    path
}

impl ChunkGraph {
    /// Listed imports are those of the chunk, each once, and none stands behind one that is executed
    /// later.
    pub proof fn law_listed_imports(
        self,
        import_edges: Seq<FxHashSet<ChunkIdx>>,
        chunk_imports: Seq<Seq<ChunkIdx>>,
        c: int,
    )
        requires
            self.lists_imports(import_edges, chunk_imports),
            0 <= c < import_edges.len(),
        ensures
            chunk_imports.len() == import_edges.len(),
            forall|d: ChunkIdx| #[trigger]
                chunk_imports[c].contains(d) <==> import_edges[c]@.contains(d),
            forall|i: int, j: int|
                0 <= i < j < chunk_imports[c].len() ==> #[trigger] chunk_imports[c][i]
                    != #[trigger] chunk_imports[c][j] && self.chunk_table@[chunk_imports[c][i] as int].exec_order
                    <= self.chunk_table@[chunk_imports[c][j] as int].exec_order,
    {
        assert forall|d: ChunkIdx| #[trigger]
            chunk_imports[c].contains(d) <==> import_edges[c]@.contains(d) by {
            assert(chunk_imports[c].to_set().contains(d) <==> chunk_imports[c].contains(d));
        }
        assert(self.by_exec_order(chunk_imports[c]));
    }
}

/// What the order of a run is made from.
pub struct Run {
    pub link: LinkStageOutput,
    pub chunk_graph: ChunkGraph,
    pub chunk_imports: Seq<Seq<ChunkIdx>>,
    pub root: ModuleIdx,
    pub root_chunk: ChunkIdx,
}

impl Run {
    pub open spec fn wf(self) -> bool {
        &&& self.link.wf()
        &&& self.chunk_graph.wf(self.link.module_count())
        &&& self.chunk_imports.len() == self.chunk_graph.chunk_table@.len()
        &&& actual_order::chunk_imports_wf(self.chunk_imports)
        &&& self.root < self.link.module_table.modules@.len()
        &&& self.root_chunk < self.chunk_imports.len()
    }

    /// The order in which modules are evaluated.
    pub open spec fn order(self) -> Seq<ModuleIdx> {
        self.chunk_graph.actual_order(self.link, self.chunk_imports, self.root, self.root_chunk)
    }

    /// The module that led to each interop module.
    pub open spec fn hosts(self) -> Map<ModuleIdx, ModuleIdx> {
        self.chunk_graph.trigger_hosts(self.link, self.chunk_imports, self.root, self.root_chunk)
    }

    spec fn evaluated(self) -> Seq<ModuleIdx> {
        self.chunk_graph.evaluated(self.link, self.chunk_imports, self.root, self.root_chunk)
    }

    spec fn chunks(self) -> Seq<ChunkIdx> {
        actual_order::import_graph(self.chunk_imports).walk(
            seq![self.root_chunk],
            Set::empty(),
        ).order
    }

    spec fn called(self) -> Seq<ModuleIdx> {
        if self.link.unwrapped(self.root) {
            Seq::empty()
        } else {
            seq![self.root]
        }
    }

    /// One module is evaluated before the other.
    pub open spec fn runs_before(self, x: ModuleIdx, y: ModuleIdx) -> bool {
        exists|i: int, j: int|
            #![trigger self.order()[i], self.order()[j]]
            0 <= i < j < self.order().len() && self.order()[i] == x && self.order()[j] == y
    }

    proof fn lemma_chunks(self)
        requires
            self.wf(),
        ensures
            actual_order::import_graph(self.chunk_imports).wf(),
            actual_order::import_graph(self.chunk_imports).holds_all(seq![self.root_chunk]),
            self.chunks().no_duplicates(),
            forall|c: ChunkIdx| #[trigger]
                self.chunks().contains(c) <==> reach::reaches(
                    actual_order::import_graph(self.chunk_imports).edge(),
                    self.root_chunk,
                    c,
                ),
            forall|i: int|
                0 <= i < self.chunks().len() ==> (#[trigger] self.chunks()[i])
                    < self.chunk_imports.len(),
    {
        let graph = actual_order::import_graph(self.chunk_imports);
        let start = seq![self.root_chunk];
        assert(self.chunk_graph.chunk_table@.len() == self.chunk_graph.chunk_table.len());
        actual_order::lemma_import_graph_wf(self.chunk_imports);
        assert(graph.holds_all(start));
        graph.lemma_walk_basics(start, Set::empty());
        graph.lemma_walk_visits_reachable(start);
        let walk = graph.walk(start, Set::empty());
        assert forall|c: ChunkIdx| #[trigger] self.chunks().contains(c) <==> reach::reaches(
            graph.edge(),
            self.root_chunk,
            c,
        ) by {
            assert(walk.order.to_set().contains(c) <==> walk.order.contains(c));
            if walk.visited.contains(c) {
                let i = choose|i: int|
                    0 <= i < start.len() && reach::reaches(graph.edge(), #[trigger] start[i], c);
                assert(start[i] == self.root_chunk);
            }
            if reach::reaches(graph.edge(), self.root_chunk, c) {
                assert(reach::reaches(graph.edge(), start[0], c));
            }
        }
        assert forall|i: int| 0 <= i < self.chunks().len() implies (#[trigger] self.chunks()[i])
            < self.chunk_imports.len() by {
            assert(walk.order.to_set().contains(self.chunks()[i]));
            assert(graph.nodes.contains(self.chunks()[i]));
        }
    }

    proof fn lemma_eager_members(self, chunks: Seq<ChunkIdx>)
        ensures
            forall|m: ModuleIdx| #[trigger]
                self.chunk_graph.eager_modules(self.link, chunks).contains(m)
                    <==> self.link.unwrapped(m) && exists|i: int|
                    0 <= i < chunks.len()
                        && self.chunk_graph.chunk_table@[#[trigger] chunks[i] as int].modules@.contains(
                    m,
                ),
        decreases chunks.len(),
    {
        let all = self.chunk_graph.eager_modules(self.link, chunks);
        if chunks.len() > 0 {
            let front = chunks.drop_last();
            let before = self.chunk_graph.eager_modules(self.link, front);
            let last = self.chunk_graph.eager_in(self.link, chunks.last());
            let modules = self.chunk_graph.chunk_table@[chunks.last() as int].modules@;
            self.lemma_eager_members(front);
            seqs::lemma_filter_members(modules, |m: ModuleIdx| self.link.unwrapped(m));
            assert forall|m: ModuleIdx| #[trigger]
                all.contains(m) <==> self.link.unwrapped(m) && exists|i: int|
                    0 <= i < chunks.len()
                        && self.chunk_graph.chunk_table@[#[trigger] chunks[i] as int].modules@.contains(
                    m,
                ) by {
                seqs::lemma_contains_either(before, last, m);
                if before.contains(m) {
                    let i = choose|i: int|
                        0 <= i < front.len()
                            && self.chunk_graph.chunk_table@[#[trigger] front[i] as int].modules@.contains(
                        m,
                    );
                    assert(chunks[i] == front[i]);
                }
                if last.contains(m) {
                    assert(chunks[chunks.len() - 1] == chunks.last());
                }
                if self.link.unwrapped(m) && exists|i: int|
                    0 <= i < chunks.len()
                        && self.chunk_graph.chunk_table@[#[trigger] chunks[i] as int].modules@.contains(
                    m,
                ) {
                    let i = choose|i: int|
                        0 <= i < chunks.len()
                            && self.chunk_graph.chunk_table@[#[trigger] chunks[i] as int].modules@.contains(
                        m,
                    );
                    if i < front.len() {
                        assert(front[i] == chunks[i]);
                    }
                }
            }
        }
    }

    proof fn lemma_evaluated_held(self)
        requires
            self.wf(),
        ensures
            self.link.call_graph().wf(),
            self.link.call_graph().holds_all(self.evaluated()),
            forall|m: ModuleIdx| #[trigger]
                self.evaluated().contains(m) <==> self.link.runnable(m) && (
                self.chunk_graph.eager_modules(self.link, self.chunks()).contains(m) || (m
                    == self.root && !self.link.unwrapped(self.root))),
    {
        let eager = self.chunk_graph.eager_modules(self.link, self.chunks());
        let runnable = |m: ModuleIdx| self.link.runnable(m);
        self.link.lemma_call_graph_wf();
        seqs::lemma_filter_members(eager + self.called(), runnable);
        assert(self.evaluated() == (eager + self.called()).filter(runnable));
        assert forall|m: ModuleIdx| #[trigger]
            self.evaluated().contains(m) <==> self.link.runnable(m) && (eager.contains(m) || (m
                == self.root && !self.link.unwrapped(self.root))) by {
            seqs::lemma_contains_either(eager, self.called(), m);
            if m == self.root && !self.link.unwrapped(self.root) {
                assert(self.called()[0] == m);
            }
        }
        let list = self.evaluated();
        assert forall|i: int| 0 <= i < list.len() implies self.link.call_graph().nodes.contains(
            #[trigger] list[i],
        ) by {
            assert(list.contains(list[i]));
        }
    }

    /// A kept, bundled module without an interop wrapper that stands in a chunk which imports lead to
    /// from the chunk of the entry is evaluated.
    pub proof fn law_hosted_modules_run(self, path: Seq<ChunkIdx>, k: int)
        requires
            self.wf(),
            chunk_path(self.chunk_imports, path),
            path[0] == self.root_chunk,
            path.last() < self.chunk_graph.chunk_table@.len(),
            0 <= k < self.chunk_graph.chunk_table@[path.last() as int].modules@.len(),
            ({
                let m = self.chunk_graph.chunk_table@[path.last() as int].modules@[k];
                &&& self.link.module_table.modules@[m as int] is Normal
                &&& self.link.metas@[m as int].is_included
                &&& self.link.metas@[m as int].wrap_kind == WrapKind::Unwrapped
            }),
        ensures
            self.order().contains(self.chunk_graph.chunk_table@[path.last() as int].modules@[k]),
    {
        let m = self.chunk_graph.chunk_table@[path.last() as int].modules@[k];
        self.lemma_hosted_is_evaluated(path, k);
        self.lemma_evaluated_runs(m);
    }

    proof fn lemma_hosted_is_evaluated(self, path: Seq<ChunkIdx>, k: int)
        requires
            self.wf(),
            chunk_path(self.chunk_imports, path),
            path[0] == self.root_chunk,
            path.last() < self.chunk_graph.chunk_table@.len(),
            0 <= k < self.chunk_graph.chunk_table@[path.last() as int].modules@.len(),
            self.link.runnable(self.chunk_graph.chunk_table@[path.last() as int].modules@[k]),
            self.link.unwrapped(self.chunk_graph.chunk_table@[path.last() as int].modules@[k]),
        ensures
            self.evaluated().contains(self.chunk_graph.chunk_table@[path.last() as int].modules@[k]),
            self.chunks().contains(path.last()),
    {
        let c = path.last();
        let m = self.chunk_graph.chunk_table@[c as int].modules@[k];
        lemma_chunk_path_reaches(self.chunk_imports, path);
        self.lemma_chunks();
        self.lemma_eager_members(self.chunks());
        self.lemma_evaluated_held();
        assert(self.chunks().contains(c));
        let i = self.chunks().index_of(c);
        assert(self.chunk_graph.chunk_table@[c as int].modules@.contains(m));
        assert(self.chunk_graph.chunk_table@[self.chunks()[i] as int].modules@.contains(m));
    }

    proof fn lemma_evaluated_runs(self, m: ModuleIdx)
        requires
            self.wf(),
            self.evaluated().contains(m),
        ensures
            self.order().contains(m),
    {
        let graph = self.link.call_graph();
        let list = self.evaluated();
        self.lemma_evaluated_held();
        graph.lemma_walk_visits_reachable(list);
        let i = list.index_of(m);
        reach::lemma_reaches_self(graph.edge(), m);
        assert(reach::reaches(graph.edge(), list[i], m));
        assert(graph.walk(list, Set::empty()).visited.contains(m));
        assert(self.order().to_set().contains(m));
    }

    /// A kept, bundled entry that interop wraps, in either way, is evaluated.
    pub proof fn law_wrapped_entries_run(self)
        requires
            self.wf(),
            self.link.module_table.modules@[self.root as int] is Normal,
            self.link.metas@[self.root as int].is_included,
            self.link.metas@[self.root as int].wrap_kind != WrapKind::Unwrapped,
        ensures
            self.order().contains(self.root),
    {
        self.lemma_evaluated_held();
        self.lemma_evaluated_runs(self.root);
    }

    /// Whatever an evaluated module imports or requires runs if it is bundled and kept, and if
    /// interop wraps it, in either way. It runs before the module, unless calls lead back from there.
    /// Unless it is the entry, which is called by itself, a module is put down as having led to it:
    /// one that was evaluated too, and that is the entry or has no interop wrapper.
    pub proof fn law_called_modules_run(self, m: ModuleIdx, record: int, importee: ModuleIdx)
        requires
            self.wf(),
            self.order().contains(m),
            self.link.module_table.modules@[m as int] matches Module::Normal(module) && {
                &&& 0 <= record < module.import_records@.len()
                &&& module.import_records@[record].kind == ImportKind::Import
                    || module.import_records@[record].kind == ImportKind::Require
                &&& module.import_records@[record].resolved_module == Some(importee)
            },
            self.link.module_table.modules@[importee as int] is Normal,
            self.link.metas@[importee as int].is_included,
            self.link.metas@[importee as int].wrap_kind != WrapKind::Unwrapped,
        ensures
            self.order().contains(importee),
            self.runs_before(importee, m) || exists|path: Seq<ModuleIdx>, records: Seq<int>| #[trigger]
                self.link.call_path(path, records) && path[0] == importee && path.last() == m,
            importee != self.root ==> {
                &&& self.hosts().contains_key(importee)
                &&& self.hosts()[importee] != importee
                &&& self.order().contains(self.hosts()[importee])
                &&& self.hosts()[importee] == self.root || self.link.metas@[self.hosts()[importee] as int].wrap_kind
                    == WrapKind::Unwrapped
            },
    {
        self.chunk_graph.law_actual_order_repeats_nothing(
            self.link,
            self.chunk_imports,
            self.root,
            self.root_chunk,
        );
        assert(self.link.tables().module_wf(m));
        assert(importee < self.link.module_count());
        assert(self.link.call_target(self.link.records(m)[record]) == Some(importee));
        self.link.lemma_call_edge(m, importee);
        self.lemma_called_runs(m, importee);
        if reach::reaches(self.link.call_graph().edge(), importee, m) {
            let (path, records) = self.link.lemma_call_reaches_path(importee, m);
            assert(self.link.call_path(path, records));
        }
        if importee != self.root {
            self.lemma_has_host(importee);
        }
    }

    /// Whatever calls lead to from a module that is evaluated is evaluated too.
    pub proof fn law_calls_are_followed(self, path: Seq<ModuleIdx>, records: Seq<int>)
        requires
            self.wf(),
            self.link.call_path(path, records),
            self.order().contains(path[0]),
        ensures
            self.order().contains(path.last()),
    {
        let graph = self.link.call_graph();
        let list = self.evaluated();
        self.lemma_evaluated_held();
        self.link.lemma_call_path_reaches(path, records);
        graph.lemma_walk_visits_reachable(list);
        assert(self.order().to_set().contains(path[0]));
        let i = choose|i: int|
            0 <= i < list.len() && reach::reaches(graph.edge(), #[trigger] list[i], path[0]);
        reach::lemma_reaches_trans(graph.edge(), list[i], path[0], path.last());
        assert(graph.walk(list, Set::empty()).visited.contains(path.last()));
        assert(self.order().to_set().contains(path.last()));
    }

    proof fn lemma_called_runs(self, m: ModuleIdx, importee: ModuleIdx)
        requires
            self.wf(),
            self.order().contains(m),
            self.link.call_graph().edge()(m, importee),
        ensures
            self.order().contains(importee),
            self.runs_before(importee, m) || reach::reaches(
                self.link.call_graph().edge(),
                importee,
                m,
            ),
    {
        let graph = self.link.call_graph();
        let list = self.evaluated();
        let none: Set<ModuleIdx> = Set::empty();
        let order = self.order();
        self.lemma_evaluated_held();
        graph.lemma_walk_visits_reachable(list);
        assert(order.to_set().contains(m));
        let i = choose|i: int|
            0 <= i < list.len() && reach::reaches(graph.edge(), #[trigger] list[i], m);
        reach::lemma_reaches_step(graph.edge(), list[i], m, importee);
        assert(graph.walk(list, none).visited.contains(importee));
        assert(order.to_set().contains(importee));
        let j = order.index_of(m);
        graph.lemma_successor_finishes_first(list, none, j, importee);
        if !reach::reaches(graph.edge(), importee, m) {
            let k = choose|k: int| 0 <= k < j && #[trigger] order[k] == importee;
            assert(self.order()[k] == importee && self.order()[j] == m);
        }
    }

    /// Of two imports or `require`s of a module that is evaluated, the wrapper of the earlier one is
    /// run first, if calls do not lead back from there, if neither it nor an earlier one leads to the
    /// other one, and if nothing else calls that.
    pub proof fn law_calls_run_in_written_order(
        self,
        m: ModuleIdx,
        earlier: int,
        later: int,
        x: ModuleIdx,
        y: ModuleIdx,
    )
        requires
            self.wf(),
            self.order().contains(m),
            self.link.module_table.modules@[m as int] matches Module::Normal(module) && {
                &&& 0 <= earlier < later < module.import_records@.len()
                &&& module.import_records@[earlier].kind == ImportKind::Import
                    || module.import_records@[earlier].kind == ImportKind::Require
                &&& module.import_records@[earlier].resolved_module == Some(x)
                &&& module.import_records@[later].kind == ImportKind::Import
                    || module.import_records@[later].kind == ImportKind::Require
                &&& module.import_records@[later].resolved_module == Some(y)
                &&& forall|path: Seq<ModuleIdx>, records: Seq<int>, k: int|
                    #![trigger self.link.call_path(path, records), module.import_records@[k]]
                    0 <= k <= earlier && self.link.call_path(path, records)
                        && module.import_records@[k].resolved_module == Some(path[0])
                        ==> path.last() != y
            },
            self.link.module_table.modules@[x as int] is Normal,
            self.link.metas@[x as int].is_included,
            self.link.metas@[x as int].wrap_kind != WrapKind::Unwrapped,
            self.link.module_table.modules@[y as int] is Normal,
            self.link.metas@[y as int].is_included,
            self.link.metas@[y as int].wrap_kind != WrapKind::Unwrapped,
            y != m,
            y != self.root,
            forall|path: Seq<ModuleIdx>, records: Seq<int>|
                !(#[trigger] self.link.call_path(path, records) && path[0] == x && path.last()
                    == m),
            forall|z: ModuleIdx, k: int|
                #![trigger self.link.records(z)[k]]
                self.link.is_normal(z) && 0 <= k < self.link.records(z).len()
                    && self.link.records(z)[k].resolved_module == Some(y) ==> z == m,
        ensures
            self.runs_before(x, y),
    {
        let graph = self.link.call_graph();
        let list = self.evaluated();
        let records = self.link.records(m);
        let pick = self.link.call_pick();
        self.chunk_graph.law_actual_order_repeats_nothing(
            self.link,
            self.chunk_imports,
            self.root,
            self.root_chunk,
        );
        self.lemma_evaluated_held();
        self.lemma_eager_members(self.chunks());
        assert(self.link.tables().module_wf(m));
        assert(x < self.link.module_count() && y < self.link.module_count());
        let first = link::lemma_picked_splits(records, pick, 0, earlier + 1);
        let rest = link::picked_from(records, pick, earlier + 1);
        link::lemma_picked_from(records, pick, earlier + 1);
        assert((graph.succ)(m) == first + rest);
        assert(pick(records[earlier]) == Some(x));
        assert(pick(records[later]) == Some(y));
        assert(first.contains(x) && rest.contains(y));
        if reach::reaches(graph.edge(), x, m) {
            let (path, steps) = self.link.lemma_call_reaches_path(x, m);
            assert(self.link.call_path(path, steps));
        }
        assert forall|i: int| 0 <= i < first.len() implies !reach::reaches(
            graph.edge(),
            #[trigger] first[i],
            y,
        ) by {
            if reach::reaches(graph.edge(), first[i], y) {
                assert(first.contains(first[i]));
                let k = choose|k: int|
                    0 <= k < earlier + 1 && pick(#[trigger] records[k]) == Some(first[i]);
                let (path, steps) = self.link.lemma_call_reaches_path(first[i], y);
                assert(self.link.call_path(path, steps));
                let module = self.link.module_table.modules@[m as int]->Normal_0;
                assert(module.import_records@[k].resolved_module == Some(path[0]));
            }
        }
        assert forall|p: ModuleIdx| #[trigger] graph.edge()(p, y) implies p == m by {
            self.link.lemma_call_edge(p, y);
            let k = choose|k: int|
                0 <= k < self.link.records(p).len() && self.link.call_target(
                    #[trigger] self.link.records(p)[k],
                ) == Some(y);
            assert(self.link.records(p)[k].resolved_module == Some(y));
        }
        graph.lemma_successors_finish_in_order(list, m, first, rest, x, y);
        let order = graph.walk(list, Set::empty()).order;
        let (i, j) = choose|i: int, j: int|
            #![trigger order[i], order[j]]
            0 <= i < j < order.len() && order[i] == x && order[j] == y;
        assert(self.order()[i] == x && self.order()[j] == y);
    }

    proof fn lemma_has_host(self, m: ModuleIdx)
        requires
            self.wf(),
            self.order().contains(m),
            m != self.root,
            !self.link.unwrapped(m),
        ensures
            self.hosts().contains_key(m),
            self.hosts()[m] != m,
            self.order().contains(self.hosts()[m]),
            self.hosts()[m] == self.root || self.link.unwrapped(self.hosts()[m]),
    {
        let graph = self.link.call_graph();
        let list = self.evaluated();
        let none: Set<ModuleIdx> = Set::empty();
        self.lemma_evaluated_held();
        graph.lemma_walk_visits_reachable(list);
        assert(self.order().to_set().contains(m));
        let i = lemma_first_leads(self.link, list, m);
        assert(list.contains(list[i]));
        self.lemma_eager_members(self.chunks());
        assert(list[i] == self.root || self.link.unwrapped(list[i]));
        self.link.law_hosts_lead_first(list, none, Map::empty(), i, m);
        self.lemma_evaluated_runs(list[i]);
    }

    /// A module is put down as having led to another only where calls lead from the one to the
    /// other. The one is the entry or has no interop wrapper, and was evaluated.
    pub proof fn law_hosts_lead_there(self, m: ModuleIdx) -> (found: (Seq<ModuleIdx>, Seq<int>))
        requires
            self.wf(),
            self.hosts().contains_key(m),
        ensures
            self.hosts()[m] != m,
            self.order().contains(self.hosts()[m]),
            self.order().contains(m),
            self.hosts()[m] == self.root || self.link.metas@[self.hosts()[m] as int].wrap_kind
                == WrapKind::Unwrapped,
            self.link.call_path(found.0, found.1),
            found.0[0] == self.hosts()[m],
            found.0.last() == m,
    {
        let graph = self.link.call_graph();
        let list = self.evaluated();
        let none: Set<ModuleIdx> = Set::empty();
        self.lemma_evaluated_held();
        self.link.law_hosts_are_needed(list, none, Map::empty(), m);
        let i = choose|i: int| #[trigger]
            self.link.first_leads_to(list, none, i, m) && list[i] != m;
        self.link.law_hosts_lead_first(list, none, Map::empty(), i, m);
        assert(list.contains(list[i]));
        self.lemma_eager_members(self.chunks());
        self.lemma_evaluated_runs(list[i]);
        let front = list.take(i);
        let one = seq![list[i]];
        assert(list.take(i + 1) =~= front + one);
        assert(graph.holds_all(front));
        assert(graph.holds_all(one));
        graph.lemma_walk_append(front, one, none);
        graph.lemma_walk_basics(front, none);
        let before = graph.walk(front, none).visited;
        graph.lemma_walk_basics(one, before);
        graph.lemma_walk_reaches(one, before);
        let walk = graph.walk(one, before);
        assert(walk.order.to_set().contains(m));
        assert(walk.order.contains(m));
        let k = choose|k: int| 0 <= k < one.len() && reach::reaches(graph.edge(), #[trigger] one[k], m);
        assert(one[k] == list[i]);
        graph.lemma_walk_visits_reachable(list);
        assert(reach::reaches(graph.edge(), list[i], m));
        assert(self.order().to_set().contains(m));
        self.link.lemma_call_reaches_path(list[i], m)
    }

    /// Nothing else runs: calls lead to every evaluated module, of none or more steps, from a kept,
    /// bundled module that is the wrapped entry, or that has no interop wrapper and stands in a chunk
    /// that imports lead to.
    pub proof fn law_nothing_else_runs(self, m: ModuleIdx) -> (found: (
        Seq<ModuleIdx>,
        Seq<int>,
        Seq<ChunkIdx>,
        int,
    ))
        requires
            self.wf(),
            self.order().contains(m),
        ensures
            self.link.call_path(found.0, found.1),
            found.0.last() == m,
            found.0[0] < self.link.module_table.modules@.len(),
            self.link.module_table.modules@[found.0[0] as int] is Normal,
            self.link.metas@[found.0[0] as int].is_included,
            if self.link.metas@[found.0[0] as int].wrap_kind == WrapKind::Unwrapped {
                &&& chunk_path(self.chunk_imports, found.2)
                &&& found.2[0] == self.root_chunk
                &&& found.2.last() < self.chunk_graph.chunk_table@.len()
                &&& 0 <= found.3 < self.chunk_graph.chunk_table@[found.2.last() as int].modules@.len()
                &&& self.chunk_graph.chunk_table@[found.2.last() as int].modules@[found.3]
                    == found.0[0]
            } else {
                found.0[0] == self.root
            },
    {
        let graph = self.link.call_graph();
        let list = self.evaluated();
        self.lemma_evaluated_held();
        graph.lemma_walk_visits_reachable(list);
        assert(self.order().to_set().contains(m));
        let i = choose|i: int|
            0 <= i < list.len() && reach::reaches(graph.edge(), #[trigger] list[i], m);
        let start = list[i];
        assert(list.contains(start));
        let (path, records) = self.link.lemma_call_reaches_path(start, m);
        self.lemma_eager_members(self.chunks());
        if self.link.unwrapped(start) {
            self.lemma_chunks();
            let q = choose|q: int|
                0 <= q < self.chunks().len()
                    && self.chunk_graph.chunk_table@[#[trigger] self.chunks()[q] as int].modules@.contains(
                start,
            );
            let c = self.chunks()[q];
            assert(self.chunk_graph.eager_modules(self.link, self.chunks()).contains(start));
            assert(self.chunks().contains(c));
            assert(c < self.chunk_imports.len());
            let modules = self.chunk_graph.chunk_table@[c as int].modules@;
            assert(modules.contains(start));
            let k = modules.index_of(start);
            assert(modules[k] == start);
            let way = lemma_chunk_reaches_path(self.chunk_imports, self.root_chunk, c);
            (path, records, way, k)
        } else {
            (path, records, seq![self.root_chunk], 0)
        }
    }

    /// What stands earlier in the list of modules that run by themselves runs before a module that
    /// only stands later and that nothing calls.
    proof fn lemma_listed_first(
        self,
        first: Seq<ModuleIdx>,
        rest: Seq<ModuleIdx>,
        x: ModuleIdx,
        y: ModuleIdx,
    )
        requires
            self.wf(),
            self.chunk_graph.eager_modules(self.link, self.chunks()) + self.called() == first + rest,
            first.contains(x),
            !first.contains(y),
            rest.contains(y),
            self.link.runnable(x),
            self.link.runnable(y),
            self.link.unwrapped(y),
        ensures
            self.runs_before(x, y),
    {
        let graph = self.link.call_graph();
        let runnable = |m: ModuleIdx| self.link.runnable(m);
        let none: Set<ModuleIdx> = Set::empty();
        let one = first.filter(runnable);
        let two = rest.filter(runnable);
        self.lemma_evaluated_held();
        Seq::filter_distributes_over_add(first, rest, runnable);
        assert(self.evaluated() == one + two);
        seqs::lemma_filter_members(first, runnable);
        seqs::lemma_filter_members(rest, runnable);
        assert(graph.holds_all(one)) by {
            assert forall|i: int| 0 <= i < one.len() implies graph.nodes.contains(
                #[trigger] one[i],
            ) by {
                assert(one.contains(one[i]));
            }
        }
        assert(graph.holds_all(two)) by {
            assert forall|i: int| 0 <= i < two.len() implies graph.nodes.contains(
                #[trigger] two[i],
            ) by {
                assert(two.contains(two[i]));
            }
        }
        assert(one.contains(x) && two.contains(y) && !one.contains(y));
        graph.lemma_walk_reaches(one, none);
        graph.lemma_walk_basics(one, none);
        assert(graph.walk(one, none).visited.contains(one[one.index_of(x)]));
        let walk = graph.walk(one, none);
        if walk.visited.contains(y) {
            assert(walk.order.to_set().contains(y));
            let i = choose|i: int|
                0 <= i < one.len() && reach::reaches(graph.edge(), #[trigger] one[i], y);
            assert(one.contains(one[i]));
            let (path, records) = self.link.lemma_call_reaches_path(one[i], y);
            let last = records.len() - 1;
            assert(records.len() > 0);
            assert(0 <= records[last]);
            assert(path[last + 1] == y);
        }
        graph.lemma_walk_reaches(one + two, none);
        let j = two.index_of(y);
        assert((one + two)[one.len() + j] == y);
        graph.lemma_first_part_finishes_first(one, two, none, x, y);
        let order = graph.walk(one + two, none).order;
        let (a, b) = choose|a: int, b: int|
            #![trigger order[a], order[b]]
            0 <= a < b < order.len() && order[a] == x && order[b] == y;
        assert(self.order()[a] == x && self.order()[b] == y);
    }

    /// In a chunk, modules without an interop wrapper run as they stand, if the later one stands
    /// nowhere else.
    pub proof fn law_modules_run_as_they_stand(self, path: Seq<ChunkIdx>, i: int, j: int)
        requires
            self.wf(),
            chunk_path(self.chunk_imports, path),
            path[0] == self.root_chunk,
            path.last() < self.chunk_graph.chunk_table@.len(),
            0 <= i < j < self.chunk_graph.chunk_table@[path.last() as int].modules@.len(),
            ({
                let modules = self.chunk_graph.chunk_table@[path.last() as int].modules@;
                &&& self.link.module_table.modules@[modules[i] as int] is Normal
                &&& self.link.metas@[modules[i] as int].is_included
                &&& self.link.metas@[modules[i] as int].wrap_kind == WrapKind::Unwrapped
                &&& self.link.module_table.modules@[modules[j] as int] is Normal
                &&& self.link.metas@[modules[j] as int].is_included
                &&& self.link.metas@[modules[j] as int].wrap_kind == WrapKind::Unwrapped
                &&& self.stands_once(path.last(), j)
            }),
        ensures
            self.runs_before(
                self.chunk_graph.chunk_table@[path.last() as int].modules@[i],
                self.chunk_graph.chunk_table@[path.last() as int].modules@[j],
            ),
    {
        let c = path.last();
        let modules = self.chunk_graph.chunk_table@[c as int].modules@;
        let x = modules[i];
        let y = modules[j];
        let unwrapped = |m: ModuleIdx| self.link.unwrapped(m);
        self.lemma_hosted_is_evaluated(path, i);
        self.lemma_chunks();
        let q = self.chunks().index_of(c);
        let (before, after) = self.lemma_split_at(q);
        let front = modules.take(i + 1);
        let back = modules.skip(i + 1);
        assert(modules =~= front + back);
        Seq::filter_distributes_over_add(front, back, unwrapped);
        let first = before + front.filter(unwrapped);
        let rest = back.filter(unwrapped) + (after + self.called());
        assert(self.chunk_graph.eager_in(self.link, c) == front.filter(unwrapped) + back.filter(
            unwrapped,
        ));
        assert(self.chunk_graph.eager_modules(self.link, self.chunks()) + self.called() =~= first
            + rest);
        seqs::lemma_filter_members(front, unwrapped);
        seqs::lemma_filter_members(back, unwrapped);
        assert(front[i] == x);
        assert(front.filter(unwrapped).contains(x));
        seqs::lemma_contains_either(before, front.filter(unwrapped), x);
        assert(back[j - i - 1] == y);
        assert(back.filter(unwrapped).contains(y));
        seqs::lemma_contains_either(back.filter(unwrapped), after + self.called(), y);
        seqs::lemma_contains_either(before, front.filter(unwrapped), y);
        if front.filter(unwrapped).contains(y) {
            let k = front.index_of(y);
            assert(modules[k] == y);
        }
        self.lemma_not_before(q, j);
        self.lemma_listed_first(first, rest, x, y);
    }

    /// The module stands in one chunk only, and only once.
    pub open spec fn stands_once(self, c: ChunkIdx, j: int) -> bool {
        forall|d: int, k: int|
            0 <= d < self.chunk_graph.chunk_table@.len() && 0 <= k
                < self.chunk_graph.chunk_table@[d].modules@.len()
                && #[trigger] self.chunk_graph.chunk_table@[d].modules@[k]
                == self.chunk_graph.chunk_table@[c as int].modules@[j] ==> d == c && k == j
    }

    proof fn lemma_split_at(self, q: int) -> (parts: (Seq<ModuleIdx>, Seq<ModuleIdx>))
        requires
            0 <= q < self.chunks().len(),
        ensures
            parts.0 == self.chunk_graph.eager_modules(self.link, self.chunks().take(q)),
            self.chunk_graph.eager_modules(self.link, self.chunks()) == parts.0
                + self.chunk_graph.eager_in(self.link, self.chunks()[q]) + parts.1,
    {
        let chunks = self.chunks();
        let front = chunks.take(q + 1);
        let back = chunks.skip(q + 1);
        assert(chunks =~= front + back);
        self.chunk_graph.lemma_eager_append(self.link, front, back);
        assert(front.drop_last() =~= chunks.take(q));
        (
            self.chunk_graph.eager_modules(self.link, chunks.take(q)),
            self.chunk_graph.eager_modules(self.link, back),
        )
    }

    proof fn lemma_not_before(self, q: int, j: int)
        requires
            self.wf(),
            0 <= q < self.chunks().len(),
            0 <= j < self.chunk_graph.chunk_table@[self.chunks()[q] as int].modules@.len(),
            self.stands_once(self.chunks()[q], j),
        ensures
            !self.chunk_graph.eager_modules(self.link, self.chunks().take(q)).contains(
                self.chunk_graph.chunk_table@[self.chunks()[q] as int].modules@[j],
            ),
    {
        let y = self.chunk_graph.chunk_table@[self.chunks()[q] as int].modules@[j];
        let front = self.chunks().take(q);
        self.lemma_chunks();
        self.lemma_eager_members(front);
        if self.chunk_graph.eager_modules(self.link, front).contains(y) {
            let p = choose|p: int|
                0 <= p < front.len()
                    && self.chunk_graph.chunk_table@[#[trigger] front[p] as int].modules@.contains(y);
            let k = self.chunk_graph.chunk_table@[front[p] as int].modules@.index_of(y);
            assert(front[p] == self.chunks()[p]);
            assert(self.chunk_graph.chunk_table@[front[p] as int].modules@[k] == y);
            assert(front[p] == self.chunks()[q]);
        }
    }

    /// What stands in a chunk runs before what stands in a chunk that comes later.
    proof fn lemma_chunk_order(self, p: int, q: int, i: int, j: int)
        requires
            self.wf(),
            0 <= p < q < self.chunks().len(),
            0 <= i < self.chunk_graph.chunk_table@[self.chunks()[p] as int].modules@.len(),
            0 <= j < self.chunk_graph.chunk_table@[self.chunks()[q] as int].modules@.len(),
            self.stands_once(self.chunks()[q], j),
            ({
                let x = self.chunk_graph.chunk_table@[self.chunks()[p] as int].modules@[i];
                let y = self.chunk_graph.chunk_table@[self.chunks()[q] as int].modules@[j];
                &&& self.link.runnable(x)
                &&& self.link.unwrapped(x)
                &&& self.link.runnable(y)
                &&& self.link.unwrapped(y)
            }),
        ensures
            self.runs_before(
                self.chunk_graph.chunk_table@[self.chunks()[p] as int].modules@[i],
                self.chunk_graph.chunk_table@[self.chunks()[q] as int].modules@[j],
            ),
    {
        let x = self.chunk_graph.chunk_table@[self.chunks()[p] as int].modules@[i];
        let y = self.chunk_graph.chunk_table@[self.chunks()[q] as int].modules@[j];
        let unwrapped = |m: ModuleIdx| self.link.unwrapped(m);
        let (before, after) = self.lemma_split_at(q);
        let here = self.chunk_graph.eager_in(self.link, self.chunks()[q]);
        let rest = here + (after + self.called());
        assert(self.chunk_graph.eager_modules(self.link, self.chunks()) + self.called() =~= before
            + rest);
        let front = self.chunks().take(q);
        self.lemma_eager_members(front);
        assert(front[p] == self.chunks()[p]);
        assert(self.chunk_graph.chunk_table@[front[p] as int].modules@.contains(x));
        self.lemma_not_before(q, j);
        seqs::lemma_filter_members(
            self.chunk_graph.chunk_table@[self.chunks()[q] as int].modules@,
            unwrapped,
        );
        assert(self.chunk_graph.chunk_table@[self.chunks()[q] as int].modules@.contains(y));
        assert(here.contains(y));
        seqs::lemma_contains_either(here, after + self.called(), y);
        self.lemma_listed_first(before, rest, x, y);
    }

    /// What stands in an imported chunk runs before what stands in the importing one, unless imports
    /// lead back from there.
    pub proof fn law_imported_chunks_run_first(
        self,
        path: Seq<ChunkIdx>,
        d: ChunkIdx,
        i: int,
        j: int,
    )
        requires
            self.wf(),
            chunk_path(self.chunk_imports, path),
            path[0] == self.root_chunk,
            path.last() < self.chunk_imports.len(),
            self.chunk_imports[path.last() as int].contains(d),
            forall|back: Seq<ChunkIdx>|
                !(#[trigger] chunk_path(self.chunk_imports, back) && back[0] == d && back.last()
                    == path.last()),
            0 <= i < self.chunk_graph.chunk_table@[d as int].modules@.len(),
            0 <= j < self.chunk_graph.chunk_table@[path.last() as int].modules@.len(),
            self.stands_once(path.last(), j),
            ({
                let x = self.chunk_graph.chunk_table@[d as int].modules@[i];
                let y = self.chunk_graph.chunk_table@[path.last() as int].modules@[j];
                &&& self.link.module_table.modules@[x as int] is Normal
                &&& self.link.metas@[x as int].is_included
                &&& self.link.metas@[x as int].wrap_kind == WrapKind::Unwrapped
                &&& self.link.module_table.modules@[y as int] is Normal
                &&& self.link.metas@[y as int].is_included
                &&& self.link.metas@[y as int].wrap_kind == WrapKind::Unwrapped
            }),
        ensures
            self.runs_before(
                self.chunk_graph.chunk_table@[d as int].modules@[i],
                self.chunk_graph.chunk_table@[path.last() as int].modules@[j],
            ),
    {
        let graph = actual_order::import_graph(self.chunk_imports);
        let c = path.last();
        let none: Set<ChunkIdx> = Set::empty();
        self.lemma_chunks();
        lemma_chunk_path_reaches(self.chunk_imports, path);
        assert(self.chunks().contains(c));
        let q = self.chunks().index_of(c);
        assert(graph.edge()(c, d));
        assert(self.chunk_imports[c as int][self.chunk_imports[c as int].index_of(d)] == d);
        assert(d < self.chunk_imports.len());
        graph.lemma_successor_finishes_first(seq![self.root_chunk], none, q, d);
        if reach::reaches(graph.edge(), d, c) {
            let back = lemma_chunk_reaches_path(self.chunk_imports, d, c);
            assert(chunk_path(self.chunk_imports, back));
        }
        let p = choose|p: int| 0 <= p < q && #[trigger] self.chunks()[p] == d;
        self.lemma_chunk_order(p, q, i, j);
    }

    /// Of two imports of the chunk of the entry, what stands in the one that is listed earlier runs
    /// before what stands in the other, unless the ones up to it lead to the other.
    pub proof fn law_imports_run_as_listed(
        self,
        earlier: int,
        later: int,
        i: int,
        j: int,
    )
        requires
            self.wf(),
            0 <= earlier < later < self.chunk_imports[self.root_chunk as int].len(),
            ({
                let listed = self.chunk_imports[self.root_chunk as int];
                let x = listed[earlier];
                let y = listed[later];
                &&& x != self.root_chunk
                &&& y != self.root_chunk
                &&& forall|k: int, path: Seq<ChunkIdx>|
                    #![trigger listed[k], chunk_path(self.chunk_imports, path)]
                    0 <= k <= earlier && chunk_path(self.chunk_imports, path) && path[0]
                        == listed[k] ==> path.last() != y
                &&& 0 <= i < self.chunk_graph.chunk_table@[x as int].modules@.len()
                &&& 0 <= j < self.chunk_graph.chunk_table@[y as int].modules@.len()
                &&& self.stands_once(y, j)
                &&& self.link.module_table.modules@[self.chunk_graph.chunk_table@[x as int].modules@[i] as int] is Normal
                &&& self.link.metas@[self.chunk_graph.chunk_table@[x as int].modules@[i] as int].is_included
                &&& self.link.metas@[self.chunk_graph.chunk_table@[x as int].modules@[i] as int].wrap_kind
                    == WrapKind::Unwrapped
                &&& self.link.module_table.modules@[self.chunk_graph.chunk_table@[y as int].modules@[j] as int] is Normal
                &&& self.link.metas@[self.chunk_graph.chunk_table@[y as int].modules@[j] as int].is_included
                &&& self.link.metas@[self.chunk_graph.chunk_table@[y as int].modules@[j] as int].wrap_kind
                    == WrapKind::Unwrapped
            }),
        ensures
            self.runs_before(
                self.chunk_graph.chunk_table@[self.chunk_imports[self.root_chunk as int][earlier] as int].modules@[i],
                self.chunk_graph.chunk_table@[self.chunk_imports[self.root_chunk as int][later] as int].modules@[j],
            ),
    {
        let graph = actual_order::import_graph(self.chunk_imports);
        let c = self.root_chunk;
        let listed = self.chunk_imports[c as int];
        let x = listed[earlier];
        let y = listed[later];
        let none: Set<ChunkIdx> = Set::empty();
        let seen = none.insert(c);
        let first = listed.take(earlier + 1);
        let rest = listed.skip(earlier + 1);
        self.lemma_chunks();
        assert(listed =~= first + rest);
        assert((graph.succ)(c) == listed);
        assert(graph.holds_all(listed)) by {
            assert forall|k: int| 0 <= k < listed.len() implies graph.nodes.contains(
                #[trigger] listed[k],
            ) by {
                assert(graph.nodes.contains(c));
                assert(graph.nodes.contains((graph.succ)(c)[k]));
            }
        }
        assert(graph.holds_all(first));
        assert(graph.holds_all(rest));
        graph.lemma_walk_reaches(first, seen);
        graph.lemma_walk_basics(first, seen);
        let one = graph.walk(first, seen);
        assert(first[earlier] == x);
        assert(one.visited.contains(x));
        if one.visited.contains(y) {
            assert(one.order.to_set().contains(y));
            let k = choose|k: int|
                0 <= k < first.len() && reach::reaches(graph.edge(), #[trigger] first[k], y);
            let path = lemma_chunk_reaches_path(self.chunk_imports, first[k], y);
            assert(listed[k] == first[k]);
            assert(chunk_path(self.chunk_imports, path));
        }
        graph.lemma_walk_reaches(listed, seen);
        assert(graph.walk(listed, seen).visited.contains(listed[later]));
        graph.lemma_first_part_finishes_first(first, rest, seen, x, y);
        let below = graph.walk(first + rest, seen);
        let start = seq![c];
        graph.lemma_walk_step(start, none);
        graph.lemma_walk_basics(listed, seen);
        assert(start.drop_first() =~= Seq::empty());
        let (p, q) = choose|p: int, q: int|
            #![trigger below.order[p], below.order[q]]
            0 <= p < q < below.order.len() && below.order[p] == x && below.order[q] == y;
        assert(self.chunks()[p] == x && self.chunks()[q] == y);
        self.lemma_chunk_order(p, q, i, j);
    }
}

/// What evaluating a list leads to, some element of it leads to first.
proof fn lemma_first_leads(link: LinkStageOutput, list: Seq<ModuleIdx>, m: ModuleIdx) -> (i: int)
    requires
        link.wf(),
        link.call_graph().holds_all(list),
        link.call_graph().walk(list, Set::empty()).visited.contains(m),
    ensures
        link.first_leads_to(list, Set::empty(), i, m),
    decreases list.len(),
{
    let graph = link.call_graph();
    link.lemma_call_graph_wf();
    graph.lemma_walk_step(list, Set::empty());
    let front = list.drop_last();
    assert(graph.holds_all(front));
    if graph.walk(front, Set::empty()).visited.contains(m) {
        let i = lemma_first_leads(link, front, m);
        assert(front.take(i) =~= list.take(i));
        assert(front.take(i + 1) =~= list.take(i + 1));
        i
    } else {
        assert(list.take(list.len() - 1) =~= front);
        assert(list.take(list.len() as int) =~= list);
        list.len() - 1
    }
}

} // verus!
