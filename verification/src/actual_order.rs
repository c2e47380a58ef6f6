//! The order in which the emitted chunks would evaluate their modules.

use rustc_hash::{FxHashMap, FxHashSet};
use vstd::prelude::*;

use crate::chunk_cycles;
use crate::chunks::{Chunk, ChunkGraph, ChunkIdx};
use crate::dfs::Digraph;
use crate::fx;
use crate::indices;
use crate::link;
use crate::link::{ImportKind, ImportRecord, LinkStageOutput, ModuleIdx, WrapKind};
use crate::seqs;
use crate::stage::GenerateStage;
use crate::visit;
use crate::visit::VisitState;

verus! {

impl LinkStageOutput {
    /// `m` has a body that is emitted.
    pub open spec fn runnable(self, m: ModuleIdx) -> bool {
        self.is_normal(m) && self.included(m)
    }

    /// The emitted interop module whose wrapper an import or a `require` calls.
    pub open spec fn call_target(self, record: ImportRecord) -> Option<ModuleIdx> {
        match record.resolved_module {
            Some(importee) if (record.kind == ImportKind::Import || record.kind
                == ImportKind::Require) && !self.unwrapped(importee) && self.runnable(importee) => {
                Some(importee)
            },
            _ => None,
        }
    }

    pub open spec fn call_pick(self) -> spec_fn(ImportRecord) -> Option<ModuleIdx> {
        |record: ImportRecord| self.call_target(record)
    }

    /// The interop modules whose wrappers `m` calls, in the order of its import records.
    pub open spec fn calls(self, m: ModuleIdx) -> Seq<ModuleIdx> {
        if self.runnable(m) {
            link::picked_from(self.records(m), self.call_pick(), 0)
        } else {
            Seq::empty()
        }
    }

    /// The modules and the wrappers that they call.
    pub open spec fn call_graph(self) -> Digraph<ModuleIdx> {
        Digraph {
            nodes: indices::below(self.module_count()),
            succ: |m: ModuleIdx| self.calls(m),
        }
    }

    pub open spec fn only_runnable(self, list: Seq<ModuleIdx>) -> Seq<ModuleIdx> {
        list.filter(|m: ModuleIdx| self.runnable(m))
    }

    /// The modules of `order` with the module whose evaluation led to them, except that module
    /// itself.
    pub open spec fn hosted_by(host: ModuleIdx, order: Seq<ModuleIdx>) -> Map<
        ModuleIdx,
        ModuleIdx,
    > {
        Map::new(|m: ModuleIdx| order.contains(m) && m != host, |m: ModuleIdx| host)
    }

    /// What `hosts` becomes when the modules of `list` are evaluated in turn: each module that is
    /// evaluated on the way is put down to the module of `list` that led to it.
    pub open spec fn hosts_after(
        self,
        list: Seq<ModuleIdx>,
        seen: Set<ModuleIdx>,
        hosts: Map<ModuleIdx, ModuleIdx>,
    ) -> Map<ModuleIdx, ModuleIdx>
        decreases list.len(),
    {
        if list.len() == 0 {
            hosts
        } else {
            let walk = self.call_graph().walk(seq![list[0]], seen);
            self.hosts_after(
                list.drop_first(),
                walk.visited,
                hosts.union_prefer_right(Self::hosted_by(list[0], walk.order)),
            )
        }
    }

    pub proof fn lemma_call_graph_wf(self)
        requires
            self.wf(),
        ensures
            self.call_graph().wf(),
    {
        let graph = self.call_graph();
        indices::lemma_below_finite(self.module_count());
        assert forall|m: ModuleIdx, i: int|
            graph.nodes.contains(m) && 0 <= i < (graph.succ)(m).len() implies graph.nodes.contains(
            #[trigger] (graph.succ)(m)[i],
        ) by {
            link::lemma_picked_from(self.records(m), self.call_pick(), 0);
            assert(self.calls(m).contains((graph.succ)(m)[i]));
        }
    }

    /// Hosts are in the module table.
    proof fn lemma_hosts_in_table(
        self,
        list: Seq<ModuleIdx>,
        seen: Set<ModuleIdx>,
        hosts: Map<ModuleIdx, ModuleIdx>,
    )
        requires
            self.call_graph().holds_all(list),
            forall|m: ModuleIdx| #[trigger]
                hosts.contains_key(m) ==> hosts[m] < self.module_count(),
        ensures
            ({
                let after = self.hosts_after(list, seen, hosts);
                forall|m: ModuleIdx| #[trigger]
                    after.contains_key(m) ==> after[m] < self.module_count()
            }),
        decreases list.len(),
    {
        if list.len() > 0 {
            let walk = self.call_graph().walk(seq![list[0]], seen);
            assert(self.call_graph().nodes.contains(list[0]));
            let next = hosts.union_prefer_right(Self::hosted_by(list[0], walk.order));
            self.lemma_hosts_in_table(list.drop_first(), walk.visited, next);
            assert(self.hosts_after(list, seen, hosts) == self.hosts_after(
                list.drop_first(),
                walk.visited,
                next,
            ));
        }
    }

    /// Evaluating two lists one after the other.
    proof fn lemma_hosts_append(
        self,
        a: Seq<ModuleIdx>,
        b: Seq<ModuleIdx>,
        seen: Set<ModuleIdx>,
        hosts: Map<ModuleIdx, ModuleIdx>,
    )
        requires
            self.wf(),
            self.call_graph().holds_all(a),
            self.call_graph().holds_all(b),
            seen.subset_of(self.call_graph().nodes),
        ensures
            self.hosts_after(a + b, seen, hosts) == self.hosts_after(
                b,
                self.call_graph().walk(a, seen).visited,
                self.hosts_after(a, seen, hosts),
            ),
        decreases a.len(),
    {
        let graph = self.call_graph();
        self.lemma_call_graph_wf();
        if a.len() == 0 {
            assert(a + b =~= b);
            graph.lemma_walk_step(a, seen);
        } else {
            let first = seq![a[0]];
            let rest = a.drop_first();
            assert(a =~= first + rest);
            assert((a + b).drop_first() =~= rest + b);
            assert((a + b)[0] == a[0]);
            assert(graph.holds_all(first));
            assert(graph.holds_all(rest));
            let walk = graph.walk(first, seen);
            graph.lemma_walk_basics(first, seen);
            graph.lemma_walk_append(first, rest, seen);
            self.lemma_hosts_append(
                rest,
                b,
                walk.visited,
                hosts.union_prefer_right(Self::hosted_by(a[0], walk.order)),
            );
        }
    }
}

/// The lists as mathematical sequences.
pub open spec fn lists(chunk_imports: Seq<Vec<ChunkIdx>>) -> Seq<Seq<ChunkIdx>> {
    chunk_imports.map_values(|imports: Vec<ChunkIdx>| imports@)
}

/// The chunks and their imports, in the listed order.
pub open spec fn import_graph(chunk_imports: Seq<Seq<ChunkIdx>>) -> Digraph<ChunkIdx> {
    Digraph {
        nodes: indices::below(chunk_imports.len()),
        succ: |c: ChunkIdx|
            if c < chunk_imports.len() {
                chunk_imports[c as int]
            } else {
                Seq::empty()
            },
    }
}

impl ChunkGraph {
    /// `chunk_imports` lists the imports of each chunk once, earlier chunks first.
    pub open spec fn lists_imports(
        self,
        import_edges: Seq<FxHashSet<ChunkIdx>>,
        chunk_imports: Seq<Seq<ChunkIdx>>,
    ) -> bool {
        &&& chunk_imports.len() == import_edges.len()
        &&& forall|c: int|
            0 <= c < chunk_imports.len() ==> {
                &&& (#[trigger] chunk_imports[c]).no_duplicates()
                &&& chunk_imports[c].to_set() == import_edges[c]@
                &&& self.by_exec_order(chunk_imports[c])
            }
    }

    /// No chunk comes behind one that is executed later.
    pub open spec fn by_exec_order(self, chunks: Seq<ChunkIdx>) -> bool {
        forall|i: int, j: int|
            0 <= i <= j < chunks.len() ==> self.chunk_table@[#[trigger] chunks[i] as int].exec_order
                <= self.chunk_table@[#[trigger] chunks[j] as int].exec_order
    }

    /// The modules of chunk `c` that run when the chunk does.
    pub open spec fn eager_in(self, link: LinkStageOutput, c: ChunkIdx) -> Seq<ModuleIdx> {
        self.chunk_table@[c as int].modules@.filter(|m: ModuleIdx| link.unwrapped(m))
    }

    /// The modules that run when the chunks do, in order.
    pub open spec fn eager_modules(self, link: LinkStageOutput, chunks: Seq<ChunkIdx>) -> Seq<
        ModuleIdx,
    >
        decreases chunks.len(),
    {
        if chunks.len() == 0 {
            Seq::empty()
        } else {
            self.eager_modules(link, chunks.drop_last()) + self.eager_in(link, chunks.last())
        }
    }

    /// The modules that running `root_chunk` evaluates by themselves: imported chunks first, then
    /// the entry module if it has to be called.
    pub open spec fn evaluated(
        self,
        link: LinkStageOutput,
        chunk_imports: Seq<Seq<ChunkIdx>>,
        root: ModuleIdx,
        root_chunk: ChunkIdx,
    ) -> Seq<ModuleIdx> {
        let chunks = import_graph(chunk_imports).walk(seq![root_chunk], Set::empty()).order;
        let called: Seq<ModuleIdx> = if link.unwrapped(root) {
            Seq::empty()
        } else {
            seq![root]
        };
        link.only_runnable(self.eager_modules(link, chunks) + called)
    }

    /// The order in which running `root_chunk` evaluates modules, interop modules where their
    /// wrappers are first called.
    pub open spec fn actual_order(
        self,
        link: LinkStageOutput,
        chunk_imports: Seq<Seq<ChunkIdx>>,
        root: ModuleIdx,
        root_chunk: ChunkIdx,
    ) -> Seq<ModuleIdx> {
        link.call_graph().walk(
            self.evaluated(link, chunk_imports, root, root_chunk),
            Set::empty(),
        ).order
    }

    /// For each interop module that running `root_chunk` evaluates, the module that led to it.
    pub open spec fn trigger_hosts(
        self,
        link: LinkStageOutput,
        chunk_imports: Seq<Seq<ChunkIdx>>,
        root: ModuleIdx,
        root_chunk: ChunkIdx,
    ) -> Map<ModuleIdx, ModuleIdx> {
        link.hosts_after(
            self.evaluated(link, chunk_imports, root, root_chunk),
            Set::empty(),
            Map::empty(),
        )
    }

    pub proof fn lemma_eager_append(self, link: LinkStageOutput, a: Seq<ChunkIdx>, b: Seq<ChunkIdx>)
        ensures
            self.eager_modules(link, a + b) == self.eager_modules(link, a) + self.eager_modules(
                link,
                b,
            ),
        decreases b.len(),
    {
        if b.len() == 0 {
            assert(a + b =~= a);
            assert(self.eager_modules(link, a) + Seq::<ModuleIdx>::empty() =~= self.eager_modules(
                link,
                a,
            ));
        } else {
            assert((a + b).drop_last() =~= a + b.drop_last());
            self.lemma_eager_append(link, a, b.drop_last());
            assert((self.eager_modules(link, a) + self.eager_modules(link, b.drop_last()))
                + self.eager_in(link, b.last()) =~= self.eager_modules(link, a) + (
            self.eager_modules(link, b.drop_last()) + self.eager_in(link, b.last())));
        }
    }
}

/// `slice::sort_unstable_by_key` with the execution order of each chunk as its key: the same
/// chunks, none behind one that is executed later. Chunks with the same key come in any order.
#[verifier::external_body]
fn sort_by_exec_order(chunks: &mut Vec<ChunkIdx>, chunk_table: &Vec<Chunk>)
    requires
        forall|k: int|
            0 <= k < old(chunks)@.len() ==> (#[trigger] old(chunks)@[k]) < chunk_table@.len(),
    ensures
        final(chunks)@.to_multiset() == old(chunks)@.to_multiset(),
        forall|i: int, j: int|
            0 <= i <= j < final(chunks)@.len()
                ==> chunk_table@[#[trigger] final(chunks)@[i] as int].exec_order
                <= chunk_table@[#[trigger] final(chunks)@[j] as int].exec_order,
{
    chunks.sort_unstable_by_key(|chunk| chunk_table[*chunk].exec_order)
}

/// Lists the imports of each chunk, earlier chunks first.
pub fn sorted_chunk_imports(
    chunk_graph: &ChunkGraph,
    import_edges: &Vec<FxHashSet<ChunkIdx>>,
) -> (chunk_imports: Vec<Vec<ChunkIdx>>)
    requires
        import_edges@.len() == chunk_graph.chunk_table@.len(),
        chunk_cycles::imports_wf(import_edges@),
    ensures
        chunk_graph.lists_imports(import_edges@, lists(chunk_imports@)),
{
    let mut chunk_imports: Vec<Vec<ChunkIdx>> = Vec::new();
    let mut c: usize = 0;
    while c < import_edges.len()
        invariant
            import_edges@.len() == chunk_graph.chunk_table@.len(),
            chunk_cycles::imports_wf(import_edges@),
            c <= import_edges@.len(),
            chunk_imports@.len() == c,
            forall|d: int|
                0 <= d < c ==> {
                    &&& (#[trigger] chunk_imports@[d])@.no_duplicates()
                    &&& chunk_imports@[d]@.to_set() == import_edges@[d]@
                    &&& chunk_graph.by_exec_order(chunk_imports@[d]@)
                },
        decreases import_edges.len() - c,
    {
        let mut imports = fx::set_items(&import_edges[c]);
        let ghost listed = imports@;
        assert forall|k: int| 0 <= k < listed.len() implies (#[trigger] listed[k])
            < chunk_graph.chunk_table@.len() by {
            assert(listed.to_set().contains(listed[k]));
            assert(chunk_cycles::imports(import_edges@)(c, listed[k]));
        }
        sort_by_exec_order(&mut imports, &chunk_graph.chunk_table);
        proof {
            seqs::lemma_permutation(listed, imports@);
        }
        chunk_imports.push(imports);
        c = c + 1;
    }
    chunk_imports
}

impl LinkStageOutput {
    /// The module itself, if it has a body that is emitted.
    pub open spec fn started(self, m: ModuleIdx) -> Seq<ModuleIdx> {
        if self.runnable(m) {
            seq![m]
        } else {
            Seq::empty()
        }
    }

    proof fn lemma_only_runnable(self, list: Seq<ModuleIdx>)
        ensures
            self.call_graph().holds_all(self.only_runnable(list)),
    {
        let kept = self.only_runnable(list);
        seqs::lemma_filter_members(list, |m: ModuleIdx| self.runnable(m));
        assert forall|i: int| 0 <= i < kept.len() implies self.call_graph().nodes.contains(
            #[trigger] kept[i],
        ) by {
            assert(kept.contains(kept[i]));
        }
    }

    proof fn lemma_only_runnable_append(self, a: Seq<ModuleIdx>, b: Seq<ModuleIdx>)
        ensures
            self.only_runnable(a + b) == self.only_runnable(a) + self.only_runnable(b),
    {
        Seq::filter_distributes_over_add(a, b, |m: ModuleIdx| self.runnable(m));
    }

    proof fn lemma_only_runnable_one(self, m: ModuleIdx)
        ensures
            self.only_runnable(seq![m]) == self.started(m),
    {
        reveal(Seq::filter);
        assert(seq![m].drop_last() =~= Seq::<ModuleIdx>::empty());
        let none: Seq<ModuleIdx> = Seq::empty();
        assert(self.only_runnable(none) =~= none);
        assert(none.push(m) =~= seq![m]);
        assert(self.only_runnable(seq![m]) =~= self.started(m));
    }
}

/// How far the evaluation of the chunks behind an entry has come.
#[derive(Debug)]
pub struct ActualOrderTraversal {
    pub chunk_states: Vec<VisitState>,
    pub module_states: Vec<VisitState>,
    pub order: Vec<ModuleIdx>,
    pub trigger_hosts: FxHashMap<ModuleIdx, ModuleIdx>,
}

impl ActualOrderTraversal {
    pub open spec fn seen(self) -> Set<ModuleIdx> {
        visit::visited(self.module_states@)
    }

    /// `after` is what this becomes when the modules of `list` are evaluated, all because of
    /// `host`.
    pub open spec fn executes(
        self,
        after: Self,
        link: LinkStageOutput,
        list: Seq<ModuleIdx>,
        host: ModuleIdx,
    ) -> bool {
        let walk = link.call_graph().walk(list, self.seen());
        &&& after.order@ == self.order@ + walk.order
        &&& after.module_states@ == visit::finished(self.module_states@, walk.visited)
        &&& after.trigger_hosts@ == self.trigger_hosts@.union_prefer_right(
            LinkStageOutput::hosted_by(host, walk.order),
        )
    }

    /// `after` is what this becomes when the modules of `list` are evaluated in turn.
    pub open spec fn evaluates(
        self,
        after: Self,
        link: LinkStageOutput,
        list: Seq<ModuleIdx>,
    ) -> bool {
        let walk = link.call_graph().walk(list, self.seen());
        &&& after.order@ == self.order@ + walk.order
        &&& after.module_states@ == visit::finished(self.module_states@, walk.visited)
        &&& after.trigger_hosts@ == link.hosts_after(list, self.seen(), self.trigger_hosts@)
    }

    proof fn lemma_evaluates_nothing(self, link: LinkStageOutput)
        requires
            link.wf(),
            self.module_states@.len() == link.module_count(),
        ensures
            self.evaluates(self, link, Seq::empty()),
    {
        link.lemma_call_graph_wf();
        assert(self.seen().subset_of(link.call_graph().nodes));
        link.call_graph().lemma_walk_step(Seq::<ModuleIdx>::empty(), self.seen());
        assert(self.order@ + Seq::<ModuleIdx>::empty() =~= self.order@);
        assert(visit::finished(self.module_states@, self.seen()) =~= self.module_states@);
    }

    proof fn lemma_evaluates_one(self, after: Self, link: LinkStageOutput, m: ModuleIdx)
        requires
            link.wf(),
            self.module_states@.len() == link.module_count(),
            self.executes(after, link, link.started(m), m),
        ensures
            self.evaluates(after, link, link.started(m)),
    {
        let list = link.started(m);
        link.lemma_call_graph_wf();
        assert(self.seen().subset_of(link.call_graph().nodes));
        link.call_graph().lemma_walk_step(Seq::<ModuleIdx>::empty(), self.seen());
        if link.runnable(m) {
            let walk = link.call_graph().walk(list, self.seen());
            assert(list.drop_first() =~= Seq::<ModuleIdx>::empty());
            let hosts = self.trigger_hosts@.union_prefer_right(
                LinkStageOutput::hosted_by(m, walk.order),
            );
            assert(link.hosts_after(Seq::<ModuleIdx>::empty(), walk.visited, hosts) == hosts);
        } else {
            assert(after.trigger_hosts@ =~= self.trigger_hosts@);
        }
    }

    proof fn lemma_evaluates_append(
        self,
        middle: Self,
        after: Self,
        link: LinkStageOutput,
        a: Seq<ModuleIdx>,
        b: Seq<ModuleIdx>,
    )
        requires
            link.wf(),
            self.module_states@.len() == link.module_count(),
            link.call_graph().holds_all(a),
            link.call_graph().holds_all(b),
            self.evaluates(middle, link, a),
            middle.evaluates(after, link, b),
        ensures
            self.evaluates(after, link, a + b),
            middle.module_states@.len() == link.module_count(),
            after.module_states@.len() == link.module_count(),
    {
        let graph = link.call_graph();
        link.lemma_call_graph_wf();
        assert(self.seen().subset_of(graph.nodes));
        let first = graph.walk(a, self.seen());
        graph.lemma_walk_basics(a, self.seen());
        visit::lemma_finished(self.module_states@, first.visited);
        let second = graph.walk(b, first.visited);
        graph.lemma_walk_basics(b, first.visited);
        visit::lemma_finished_twice(self.module_states@, first.visited, second.visited);
        graph.lemma_walk_append(a, b, self.seen());
        link.lemma_hosts_append(a, b, self.seen(), self.trigger_hosts@);
        assert(self.order@ + (first.order + second.order) =~= (self.order@ + first.order)
            + second.order);
    }
}

impl<'a> GenerateStage<'a> {
    /// Evaluates a module on behalf of `host`: first the interop modules whose wrappers it calls,
    /// then the module itself. Nothing happens if the module was evaluated before, or has no body
    /// that is emitted.
    #[verifier::rlimit(40)]
    pub fn execute_actual_module(
        &self,
        module_idx: ModuleIdx,
        host: ModuleIdx,
        traversal: &mut ActualOrderTraversal,
    )
        requires
            self.link_output.wf(),
            module_idx < self.link_output.module_count(),
            old(traversal).module_states@.len() == self.link_output.module_count(),
        ensures
            old(traversal).executes(
                *final(traversal),
                *self.link_output,
                self.link_output.started(module_idx),
                host,
            ),
            final(traversal).chunk_states@ == old(traversal).chunk_states@,
        decreases self.link_output.module_count() - old(traversal).seen().len(),
    {
        let link = self.link_output;
        let ghost graph = link.call_graph();
        let ghost before = *traversal;
        let ghost walk = graph.walk(link.started(module_idx), before.seen());
        let ghost none: Seq<ModuleIdx> = Seq::empty();
        proof {
            link.lemma_call_graph_wf();
            assert(before.seen().subset_of(graph.nodes));
            indices::lemma_below_bounds_len(link.module_count(), before.seen());
            assert(graph.holds_all(link.started(module_idx)));
            graph.lemma_walk_step(link.started(module_idx), before.seen());
            graph.lemma_walk_step(none, before.seen());
            assert(seq![module_idx].drop_first() =~= none);
            assert(before.order@ + none =~= before.order@);
            assert(visit::finished(before.module_states@, before.seen())
                =~= before.module_states@);
            assert(before.trigger_hosts@.union_prefer_right(LinkStageOutput::hosted_by(host, none))
                =~= before.trigger_hosts@);
        }
        if traversal.module_states[module_idx] != VisitState::Unvisited {
            return;
        }
        let module = match link.module_table.modules[module_idx].as_normal() {
            Some(module) => module,
            None => return,
        };
        if !link.metas[module_idx].is_included {
            return;
        }
        assert(link.tables().module_wf(module_idx));
        traversal.module_states.set(module_idx, VisitState::Visiting);
        let ghost marked = traversal.module_states@;
        let ghost below = graph.walk(link.calls(module_idx), visit::visited(marked));
        let ghost mut got: Seq<ModuleIdx> = Seq::empty();
        proof {
            assert(visit::visited(marked) =~= before.seen().insert(module_idx));
            indices::lemma_below_bounds_len(link.module_count(), visit::visited(marked));
            assert(visit::finished(marked, visit::visited(marked)) =~= marked);
            assert(got + below.order =~= below.order);
            assert(link.calls(module_idx) == (graph.succ)(module_idx));
        }
        let mut k: usize = 0;
        while k < module.import_records.len()
            invariant
                link == self.link_output,
                link.wf(),
                graph == link.call_graph(),
                graph.wf(),
                link.runnable(module_idx),
                link.tables().module_wf(module_idx),
                *module == link.normal(module_idx),
                before == *old(traversal),
                before.module_states@.len() == link.module_count(),
                marked == before.module_states@.update(module_idx as int, VisitState::Visiting),
                before.module_states@[module_idx as int] == VisitState::Unvisited,
                visit::visited(marked) == before.seen().insert(module_idx),
                before.seen().subset_of(graph.nodes),
                before.seen().finite(),
                visit::visited(marked).subset_of(traversal.seen()),
                below == graph.walk(link.calls(module_idx), visit::visited(marked)),
                k <= module.import_records@.len(),
                traversal.module_states@.len() == link.module_count(),
                traversal.module_states@ == visit::finished(marked, traversal.seen()),
                traversal.order@ == before.order@ + got,
                traversal.trigger_hosts@ == before.trigger_hosts@.union_prefer_right(
                    LinkStageOutput::hosted_by(host, got),
                ),
                traversal.chunk_states@ == before.chunk_states@,
                ({
                    let rest = graph.walk(
                        link::picked_from(module.import_records@, link.call_pick(), k as int),
                        traversal.seen(),
                    );
                    &&& below.visited == rest.visited
                    &&& below.order == got + rest.order
                }),
            decreases module.import_records.len() - k,
        {
            let record = &module.import_records[k];
            let ghost middle = *traversal;
            let ghost pending = link::picked_from(
                module.import_records@,
                link.call_pick(),
                k as int,
            );
            let ghost later = link::picked_from(module.import_records@, link.call_pick(), k + 1);
            proof {
                assert(middle.seen().subset_of(graph.nodes));
                link.lemma_picks_hold(module_idx, k + 1);
            }
            if record.kind == ImportKind::Import || record.kind == ImportKind::Require {
                if let Some(importee_idx) = record.resolved_module {
                    if link.metas[importee_idx].wrap_kind != WrapKind::Unwrapped {
                        proof {
                            indices::lemma_below_bounds_len(link.module_count(), middle.seen());
                            indices::lemma_below_bounds_len(
                                link.module_count(),
                                visit::visited(marked),
                            );
                            vstd::set_lib::lemma_len_subset(
                                visit::visited(marked),
                                middle.seen(),
                            );
                            assert(!before.seen().contains(module_idx));
                            assert(middle.seen().len() > before.seen().len());
                        }
                        self.execute_actual_module(importee_idx, host, traversal);
                        proof {
                            let list = link.started(importee_idx);
                            let step = graph.walk(list, middle.seen());
                            assert(graph.holds_all(list));
                            assert(pending =~= list + later);
                            graph.lemma_walk_append(list, later, middle.seen());
                            graph.lemma_walk_basics(list, middle.seen());
                            visit::lemma_finished(middle.module_states@, step.visited);
                            visit::lemma_finished_twice(marked, middle.seen(), step.visited);
                            let rest = graph.walk(later, step.visited);
                            assert(got + (step.order + rest.order) =~= (got + step.order)
                                + rest.order);
                            assert(before.order@ + (got + step.order) =~= (before.order@ + got)
                                + step.order);
                            lemma_hosted_append(before.trigger_hosts@, host, got, step.order);
                            got = got + step.order;
                        }
                    }
                }
            }
            k = k + 1;
        }
        proof {
            graph.lemma_walk_step(none, traversal.seen());
            assert(got + none =~= got);
            assert(below.visited == traversal.seen());
            assert(below.order == got);
            graph.lemma_walk_step(none, below.visited);
            assert(got.push(module_idx) + none =~= got.push(module_idx));
            assert(walk.order == got.push(module_idx));
            assert(walk.visited == below.visited);
            lemma_hosted_append(before.trigger_hosts@, host, got, seq![module_idx]);
            assert(got + seq![module_idx] =~= got.push(module_idx));
        }
        traversal.module_states.set(module_idx, VisitState::Done);
        assert(traversal.module_states@ =~= visit::finished(before.module_states@, walk.visited));
        if module_idx != host {
            fx::map_insert(&mut traversal.trigger_hosts, module_idx, host);
        }
        assert(traversal.trigger_hosts@ =~= before.trigger_hosts@.union_prefer_right(
            LinkStageOutput::hosted_by(host, walk.order),
        ));
        traversal.order.push(module_idx);
        assert(traversal.order@ =~= before.order@ + walk.order);
    }
}

/// Every listed import leads to a chunk.
pub open spec fn chunk_imports_wf(chunk_imports: Seq<Seq<ChunkIdx>>) -> bool {
    forall|c: int, k: int|
        0 <= c < chunk_imports.len() && 0 <= k < chunk_imports[c].len() ==> (
        #[trigger] chunk_imports[c][k]) < chunk_imports.len()
}

pub proof fn lemma_import_graph_wf(chunk_imports: Seq<Seq<ChunkIdx>>)
    requires
        chunk_imports.len() <= usize::MAX,
        chunk_imports_wf(chunk_imports),
    ensures
        import_graph(chunk_imports).wf(),
{
    indices::lemma_below_finite(chunk_imports.len());
    let graph = import_graph(chunk_imports);
    assert forall|c: ChunkIdx, k: int|
        graph.nodes.contains(c) && 0 <= k < (graph.succ)(c).len() implies graph.nodes.contains(
        #[trigger] (graph.succ)(c)[k],
    ) by {
        assert(chunk_imports[c as int][k] < chunk_imports.len());
    }
}

impl<'a> GenerateStage<'a> {
    /// Runs a chunk: first the chunks that it imports, then the modules in it that no interop
    /// wrapper holds back. Nothing happens if the chunk ran before.
    #[verifier::rlimit(40)]
    pub fn visit_actual_chunk(
        &self,
        chunk_idx: ChunkIdx,
        chunk_graph: &ChunkGraph,
        chunk_imports: &Vec<Vec<ChunkIdx>>,
        traversal: &mut ActualOrderTraversal,
    )
        requires
            self.link_output.wf(),
            chunk_graph.wf(self.link_output.module_count()),
            chunk_imports@.len() == chunk_graph.chunk_table@.len(),
            chunk_imports_wf(lists(chunk_imports@)),
            chunk_idx < chunk_imports@.len(),
            old(traversal).chunk_states@.len() == chunk_imports@.len(),
            old(traversal).module_states@.len() == self.link_output.module_count(),
        ensures
            ({
                let chunks = import_graph(lists(chunk_imports@)).walk(
                    seq![chunk_idx],
                    visit::visited(old(traversal).chunk_states@),
                );
                &&& final(traversal).chunk_states@ == visit::finished(
                    old(traversal).chunk_states@,
                    chunks.visited,
                )
                &&& old(traversal).evaluates(
                    *final(traversal),
                    *self.link_output,
                    self.link_output.only_runnable(
                        chunk_graph.eager_modules(*self.link_output, chunks.order),
                    ),
                )
            }),
        decreases chunk_imports@.len() - visit::visited(old(traversal).chunk_states@).len(),
    {
        let link = self.link_output;
        let ghost imports = lists(chunk_imports@);
        let ghost graph = import_graph(imports);
        let ghost before = *traversal;
        let ghost ran = visit::visited(before.chunk_states@);
        let ghost chunks = graph.walk(seq![chunk_idx], ran);
        let ghost none: Seq<ChunkIdx> = Seq::empty();
        proof {
            assert(imports.len() == chunk_imports.len());
            lemma_import_graph_wf(imports);
            assert(ran.subset_of(graph.nodes));
            indices::lemma_below_bounds_len(imports.len(), ran);
            assert(graph.holds_all(seq![chunk_idx]));
            graph.lemma_walk_step(seq![chunk_idx], ran);
            graph.lemma_walk_step(none, ran);
            assert(seq![chunk_idx].drop_first() =~= none);
            assert(link.only_runnable(chunk_graph.eager_modules(*link, none)) =~= Seq::<
                ModuleIdx,
            >::empty()) by {
                reveal(Seq::filter);
            }
            before.lemma_evaluates_nothing(*link);
            assert(visit::finished(before.chunk_states@, ran) =~= before.chunk_states@);
        }
        if traversal.chunk_states[chunk_idx] != VisitState::Unvisited {
            return;
        }
        traversal.chunk_states.set(chunk_idx, VisitState::Visiting);
        let ghost marked = traversal.chunk_states@;
        let ghost below = graph.walk(imports[chunk_idx as int], visit::visited(marked));
        let ghost mut got: Seq<ChunkIdx> = Seq::empty();
        let importees: &Vec<ChunkIdx> = &chunk_imports[chunk_idx];
        proof {
            assert(importees@ == imports[chunk_idx as int]);
            assert(visit::visited(marked) =~= ran.insert(chunk_idx));
            indices::lemma_below_bounds_len(imports.len(), visit::visited(marked));
            assert(visit::finished(marked, visit::visited(marked)) =~= marked);
            assert((graph.succ)(chunk_idx) == importees@);
            assert(importees@.skip(0) =~= importees@);
            assert(got + below.order =~= below.order);
            assert(before.evaluates(*traversal, *link, Seq::empty()));
        }
        let mut k: usize = 0;
        while k < importees.len()
            invariant
                link == self.link_output,
                link.wf(),
                chunk_graph.wf(link.module_count()),
                chunk_imports@.len() == chunk_graph.chunk_table@.len(),
                imports == lists(chunk_imports@),
                imports.len() == chunk_imports@.len(),
                chunk_imports_wf(imports),
                graph == import_graph(imports),
                graph.wf(),
                chunk_idx < imports.len(),
                importees@ == imports[chunk_idx as int],
                imports.len() <= usize::MAX,
                before == *old(traversal),
                ran == visit::visited(before.chunk_states@),
                ran.subset_of(graph.nodes),
                ran.finite(),
                before.chunk_states@.len() == imports.len(),
                before.module_states@.len() == link.module_count(),
                before.chunk_states@[chunk_idx as int] == VisitState::Unvisited,
                marked == before.chunk_states@.update(chunk_idx as int, VisitState::Visiting),
                visit::visited(marked) == ran.insert(chunk_idx),
                visit::visited(marked).subset_of(visit::visited(traversal.chunk_states@)),
                below == graph.walk(importees@, visit::visited(marked)),
                k <= importees@.len(),
                traversal.chunk_states@.len() == imports.len(),
                traversal.chunk_states@ == visit::finished(
                    marked,
                    visit::visited(traversal.chunk_states@),
                ),
                traversal.module_states@.len() == link.module_count(),
                before.evaluates(
                    *traversal,
                    *link,
                    link.only_runnable(chunk_graph.eager_modules(*link, got)),
                ),
                ({
                    let rest = graph.walk(
                        importees@.skip(k as int),
                        visit::visited(traversal.chunk_states@),
                    );
                    &&& below.visited == rest.visited
                    &&& below.order == got + rest.order
                }),
            decreases importees.len() - k,
        {
            let importee_chunk = importees[k];
            let ghost middle = *traversal;
            let ghost reached = visit::visited(middle.chunk_states@);
            proof {
                assert(imports[chunk_idx as int][k as int] < imports.len());
                assert(reached.subset_of(graph.nodes));
                indices::lemma_below_bounds_len(imports.len(), reached);
                indices::lemma_below_bounds_len(imports.len(), visit::visited(marked));
                vstd::set_lib::lemma_len_subset(visit::visited(marked), reached);
                assert(!ran.contains(chunk_idx));
                assert(reached.len() > ran.len());
            }
            self.visit_actual_chunk(importee_chunk, chunk_graph, chunk_imports, traversal);
            proof {
                let list = seq![importee_chunk];
                let later = importees@.skip(k + 1);
                let step = graph.walk(list, reached);
                assert(graph.holds_all(list));
                assert forall|i: int| 0 <= i < later.len() implies graph.nodes.contains(
                    #[trigger] later[i],
                ) by {
                    assert(imports[chunk_idx as int][k + 1 + i] < imports.len());
                }
                assert(importees@.skip(k as int) =~= list + later);
                graph.lemma_walk_append(list, later, reached);
                graph.lemma_walk_basics(list, reached);
                visit::lemma_finished(middle.chunk_states@, step.visited);
                visit::lemma_finished_twice(marked, reached, step.visited);
                let rest = graph.walk(later, step.visited);
                assert(got + (step.order + rest.order) =~= (got + step.order) + rest.order);
                let first = chunk_graph.eager_modules(*link, got);
                let second = chunk_graph.eager_modules(*link, step.order);
                chunk_graph.lemma_eager_append(*link, got, step.order);
                link.lemma_only_runnable_append(first, second);
                link.lemma_only_runnable(first);
                link.lemma_only_runnable(second);
                before.lemma_evaluates_append(
                    middle,
                    *traversal,
                    *link,
                    link.only_runnable(first),
                    link.only_runnable(second),
                );
                got = got + step.order;
            }
            k = k + 1;
        }
        let ghost reached = visit::visited(traversal.chunk_states@);
        proof {
            assert(importees@.skip(k as int) =~= none);
            graph.lemma_walk_step(none, reached);
            assert(got + none =~= got);
            assert(below.visited == reached);
            graph.lemma_walk_step(none, below.visited);
            assert(got.push(chunk_idx) + none =~= got.push(chunk_idx));
            assert(chunks.order == got.push(chunk_idx));
            assert(chunks.visited == reached);
        }
        let ghost first = chunk_graph.eager_modules(*link, got);
        let modules: &Vec<ModuleIdx> = &chunk_graph.chunk_table[chunk_idx].modules;
        let ghost unwrapped = |m: ModuleIdx| link.unwrapped(m);
        let ghost chunk_states = traversal.chunk_states@;
        let mut j: usize = 0;
        proof {
            assert(modules@.take(0).filter(unwrapped) =~= Seq::<ModuleIdx>::empty()) by {
                reveal(Seq::filter);
            }
            assert(first + Seq::<ModuleIdx>::empty() =~= first);
        }
        while j < modules.len()
            invariant
                link == self.link_output,
                link.wf(),
                chunk_graph.wf(link.module_count()),
                chunk_idx < chunk_graph.chunk_table@.len(),
                modules@ == chunk_graph.chunk_table@[chunk_idx as int].modules@,
                unwrapped == (|m: ModuleIdx| link.unwrapped(m)),
                j <= modules@.len(),
                before.module_states@.len() == link.module_count(),
                traversal.module_states@.len() == link.module_count(),
                traversal.chunk_states@ == chunk_states,
                before.evaluates(
                    *traversal,
                    *link,
                    link.only_runnable(first + modules@.take(j as int).filter(unwrapped)),
                ),
            decreases modules.len() - j,
        {
            let module_idx = modules[j];
            let ghost middle = *traversal;
            let ghost list = first + modules@.take(j as int).filter(unwrapped);
            proof {
                assert(chunk_graph.chunk_table@[chunk_idx as int].modules@[j as int]
                    < link.module_count());
                assert(modules@.take(j + 1) =~= modules@.take(j as int).push(module_idx));
                assert(modules@.take(j + 1).drop_last() =~= modules@.take(j as int));
            }
            if link.metas[module_idx].wrap_kind == WrapKind::Unwrapped {
                self.execute_actual_module(module_idx, module_idx, traversal);
                proof {
                    middle.lemma_evaluates_one(*traversal, *link, module_idx);
                    link.lemma_only_runnable(list);
                    link.lemma_only_runnable_one(module_idx);
                    link.lemma_only_runnable(seq![module_idx]);
                    link.lemma_only_runnable_append(list, seq![module_idx]);
                    before.lemma_evaluates_append(
                        middle,
                        *traversal,
                        *link,
                        link.only_runnable(list),
                        link.started(module_idx),
                    );
                    assert(first + modules@.take(j + 1).filter(unwrapped) =~= list
                        + seq![module_idx]) by {
                        reveal(Seq::filter);
                    }
                }
            } else {
                assert(modules@.take(j + 1).filter(unwrapped) =~= modules@.take(j as int).filter(
                    unwrapped,
                )) by {
                    reveal(Seq::filter);
                }
            }
            j = j + 1;
        }
        proof {
            assert(modules@.take(j as int) =~= modules@);
            assert(got.push(chunk_idx).drop_last() =~= got);
            assert(chunk_graph.eager_modules(*link, chunks.order) == first + modules@.filter(
                unwrapped,
            ));
        }
        traversal.chunk_states.set(chunk_idx, VisitState::Done);
        assert(traversal.chunk_states@ =~= visit::finished(before.chunk_states@, chunks.visited));
    }

    /// The order in which running the chunk of an entry evaluates modules, and for each interop
    /// module that it evaluates the module that led to it.
    pub fn actual_order_for_root(
        &self,
        root: ModuleIdx,
        root_chunk: ChunkIdx,
        chunk_graph: &ChunkGraph,
        chunk_imports: &Vec<Vec<ChunkIdx>>,
    ) -> (order_and_hosts: (Vec<ModuleIdx>, FxHashMap<ModuleIdx, ModuleIdx>))
        requires
            self.link_output.wf(),
            chunk_graph.wf(self.link_output.module_count()),
            chunk_imports@.len() == chunk_graph.chunk_table@.len(),
            chunk_imports_wf(lists(chunk_imports@)),
            root < self.link_output.module_count(),
            root_chunk < chunk_imports@.len(),
        ensures
            order_and_hosts.0@ == chunk_graph.actual_order(
                *self.link_output,
                lists(chunk_imports@),
                root,
                root_chunk,
            ),
            order_and_hosts.1@ == chunk_graph.trigger_hosts(
                *self.link_output,
                lists(chunk_imports@),
                root,
                root_chunk,
            ),
            forall|i: int|
                0 <= i < order_and_hosts.0@.len() ==> (#[trigger] order_and_hosts.0@[i])
                    < self.link_output.module_count(),
            forall|m: ModuleIdx| #[trigger]
                order_and_hosts.1@.contains_key(m) ==> order_and_hosts.1@[m]
                    < self.link_output.module_count(),
    {
        let link = self.link_output;
        let mut traversal = ActualOrderTraversal {
            chunk_states: visit::unvisited_states(chunk_graph.chunk_table.len()),
            module_states: visit::unvisited_states(link.module_table.modules.len()),
            order: Vec::new(),
            trigger_hosts: FxHashMap::default(),
        };
        let ghost start = traversal;
        let ghost chunks = import_graph(lists(chunk_imports@)).walk(
            seq![root_chunk],
            Set::empty(),
        ).order;
        let ghost eager = chunk_graph.eager_modules(*link, chunks);
        let ghost none: Seq<ModuleIdx> = Seq::empty();
        self.visit_actual_chunk(root_chunk, chunk_graph, chunk_imports, &mut traversal);
        proof {
            link.lemma_only_runnable(eager);
        }
        if link.metas[root].wrap_kind != WrapKind::Unwrapped {
            let ghost middle = traversal;
            self.execute_actual_module(root, root, &mut traversal);
            proof {
                middle.lemma_evaluates_one(traversal, *link, root);
                link.lemma_only_runnable_one(root);
                link.lemma_only_runnable(seq![root]);
                link.lemma_only_runnable_append(eager, seq![root]);
                start.lemma_evaluates_append(
                    middle,
                    traversal,
                    *link,
                    link.only_runnable(eager),
                    link.started(root),
                );
            }
        } else {
            assert(eager + none =~= eager);
        }
        proof {
            let evaluated = chunk_graph.evaluated(*link, lists(chunk_imports@), root, root_chunk);
            assert(start.evaluates(traversal, *link, evaluated));
            let walk = link.call_graph().walk(evaluated, Set::empty());
            assert(traversal.order@ =~= walk.order);
            link.lemma_call_graph_wf();
            link.lemma_only_runnable(
                eager + if link.unwrapped(root) {
                    none
                } else {
                    seq![root]
                },
            );
            link.call_graph().lemma_walk_basics(evaluated, Set::empty());
            link.lemma_hosts_in_table(evaluated, Set::empty(), Map::empty());
            assert forall|i: int| 0 <= i < walk.order.len() implies (#[trigger] walk.order[i])
                < link.module_count() by {
                assert(walk.order.to_set().contains(walk.order[i]));
                assert(walk.visited.contains(walk.order[i]));
            }
        }
        (traversal.order, traversal.trigger_hosts)
    }
}

impl LinkStageOutput {
    proof fn lemma_picks_hold(self, m: ModuleIdx, from: int)
        requires
            0 <= from,
        ensures
            self.call_graph().holds_all(
                link::picked_from(self.records(m), self.call_pick(), from),
            ),
    {
        let list = link::picked_from(self.records(m), self.call_pick(), from);
        link::lemma_picked_from(self.records(m), self.call_pick(), from);
        assert forall|i: int| 0 <= i < list.len() implies self.call_graph().nodes.contains(
            #[trigger] list[i],
        ) by {
            assert(list.contains(list[i]));
        }
    }
}

proof fn lemma_hosted_append(
    hosts: Map<ModuleIdx, ModuleIdx>,
    host: ModuleIdx,
    a: Seq<ModuleIdx>,
    b: Seq<ModuleIdx>,
)
    ensures
        hosts.union_prefer_right(LinkStageOutput::hosted_by(host, a)).union_prefer_right(
            LinkStageOutput::hosted_by(host, b),
        ) == hosts.union_prefer_right(LinkStageOutput::hosted_by(host, a + b)),
{
    assert forall|m: ModuleIdx| #[trigger]
        (a + b).contains(m) <==> a.contains(m) || b.contains(m) by {
        vstd::seq_lib::lemma_seq_concat_contains_all_elements(a, b, m);
    }
    assert(hosts.union_prefer_right(LinkStageOutput::hosted_by(host, a)).union_prefer_right(
        LinkStageOutput::hosted_by(host, b),
    ) =~= hosts.union_prefer_right(LinkStageOutput::hosted_by(host, a + b)));
}

} // verus!
