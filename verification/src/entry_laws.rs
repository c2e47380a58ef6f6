//! What the outcome of the analysis holds for each entry, read off the link tables and the imports
//! between chunks.

use rustc_hash::FxHashSet;
use vstd::prelude::*;

use crate::analysis::OnDemand;
use crate::chunk_cycles;
use crate::chunks::ChunkIdx;
use crate::link::{LinkStageOutput, ModuleIdx};
use crate::plan::OrderAnalysis;
use crate::reach;
use crate::seqs;
use crate::wrap_plan;

verus! {

/// The first chunk imports the second.
pub open spec fn imports_chunk(
    import_edges: Seq<FxHashSet<ChunkIdx>>,
    c: ChunkIdx,
    d: ChunkIdx,
) -> bool {
    c < import_edges.len() && import_edges[c as int]@.contains(d)
}

/// Each chunk of the path imports the next one.
pub open spec fn imported_path(import_edges: Seq<FxHashSet<ChunkIdx>>, path: Seq<ChunkIdx>) -> bool {
    &&& path.len() > 0
    &&& forall|i: int, j: int|
        0 <= i && j == i + 1 && j < path.len() ==> imports_chunk(
            import_edges,
            #[trigger] path[i],
            #[trigger] path[j],
        )
}

/// Imports lead from the first chunk of the path to its chunk at `turn`, and from there back to it.
pub open spec fn lasso(
    import_edges: Seq<FxHashSet<ChunkIdx>>,
    path: Seq<ChunkIdx>,
    turn: int,
) -> bool {
    &&& imported_path(import_edges, path)
    &&& 0 <= turn < path.len() - 1
    &&& path.last() == path[turn]
}

pub proof fn lemma_imported_path(import_edges: Seq<FxHashSet<ChunkIdx>>, path: Seq<ChunkIdx>)
    requires
        imported_path(import_edges, path),
    ensures
        reach::is_path(chunk_cycles::imports(import_edges), path),
{
    let edge = chunk_cycles::imports(import_edges);
    assert forall|i: int, j: int| 0 <= i && j == i + 1 && j < path.len() implies edge(
        #[trigger] path[i],
        #[trigger] path[j],
    ) by {}
}

/// Each part of a path is a path.
pub proof fn lemma_path_part<N>(edge: spec_fn(N, N) -> bool, path: Seq<N>, from: int, to: int)
    requires
        reach::is_path(edge, path),
        0 <= from <= to < path.len(),
    ensures
        reach::reaches(edge, path[from], path[to]),
{
    let part = path.subrange(from, to + 1);
    assert forall|i: int, j: int| 0 <= i && j == i + 1 && j < part.len() implies edge(
        #[trigger] part[i],
        #[trigger] part[j],
    ) by {
        assert(part[i] == path[from + i] && part[j] == path[from + j]);
    }
    assert(reach::is_path(edge, part));
    assert(part[0] == path[from] && part.last() == path[to]);
}

/// A path that comes back to where it was runs through a cycle.
pub proof fn lemma_path_turns<N>(edge: spec_fn(N, N) -> bool, path: Seq<N>, turn: int)
    requires
        reach::is_path(edge, path),
        0 <= turn < path.len() - 1,
        path.last() == path[turn],
    ensures
        reach::on_cycle(edge, path[turn]),
        reach::reaches(edge, path[0], path[turn]),
{
    lemma_path_part(edge, path, 0, turn);
    lemma_path_part(edge, path, turn + 1, path.len() - 1);
    assert(edge(path[turn], path[turn + 1]));
}

/// A cycle that can be reached is at the end of a path.
pub proof fn lemma_cycle_has_lasso(
    import_edges: Seq<FxHashSet<ChunkIdx>>,
    c: ChunkIdx,
    d: ChunkIdx,
) -> (found: (Seq<ChunkIdx>, int))
    requires
        reach::reaches(chunk_cycles::imports(import_edges), c, d),
        reach::on_cycle(chunk_cycles::imports(import_edges), d),
    ensures
        lasso(import_edges, found.0, found.1),
        found.0[0] == c,
        found.0[found.1] == d,
{
    let edge = chunk_cycles::imports(import_edges);
    let way = choose|path: Seq<ChunkIdx>|
        #[trigger] reach::is_path(edge, path) && path[0] == c && path.last() == d;
    let b = choose|b: ChunkIdx| edge(d, b) && #[trigger] reach::reaches(edge, b, d);
    let back = choose|path: Seq<ChunkIdx>|
        #[trigger] reach::is_path(edge, path) && path[0] == b && path.last() == d;
    let path = way + back;
    assert forall|i: int, j: int| 0 <= i && j == i + 1 && j < path.len() implies imports_chunk(
        import_edges,
        #[trigger] path[i],
        #[trigger] path[j],
    ) by {
        if i < way.len() - 1 {
            assert(edge(way[i], way[i + 1]));
        } else if i == way.len() - 1 {
            assert(edge(way.last(), back[0]));
        } else {
            let k = i - way.len();
            assert(path[i] == back[k] && path[i + 1] == back[k + 1]);
            assert(edge(back[k], back[k + 1]));
        }
    }
    assert(imported_path(import_edges, path));
    assert(path.last() == back.last());
    assert(path[way.len() - 1] == way.last());
    (path, way.len() - 1)
}

/// Chunks on a cycle that reach each other are on one circle of imports.
pub proof fn lemma_mates_have_lasso(
    import_edges: Seq<FxHashSet<ChunkIdx>>,
    c: ChunkIdx,
    d: ChunkIdx,
) -> (found: (Seq<ChunkIdx>, int))
    requires
        reach::on_cycle(chunk_cycles::imports(import_edges), c),
        reach::strongly_connected(chunk_cycles::imports(import_edges), c, d),
    ensures
        lasso(import_edges, found.0, 0),
        found.0[0] == c,
        0 <= found.1 < found.0.len(),
        found.0[found.1] == d,
{
    let edge = chunk_cycles::imports(import_edges);
    if c == d {
        let (path, turn) = lemma_cycle_has_lasso(import_edges, c, c);
        let circle = path.subrange(turn, path.len() as int);
        assert forall|i: int, j: int| 0 <= i && j == i + 1 && j < circle.len() implies imports_chunk(
            import_edges,
            #[trigger] circle[i],
            #[trigger] circle[j],
        ) by {
            assert(circle[i] == path[turn + i] && circle[j] == path[turn + j]);
        }
        assert(imported_path(import_edges, circle));
        assert(circle.last() == path.last());
        assert(circle[0] == path[turn]);
        (circle, 0)
    } else {
        let there = choose|path: Seq<ChunkIdx>|
            #[trigger] reach::is_path(edge, path) && path[0] == c && path.last() == d;
        let back = choose|path: Seq<ChunkIdx>|
            #[trigger] reach::is_path(edge, path) && path[0] == d && path.last() == c;
        let path = there + back.drop_first();
        let i = there.len() - 1;
        assert forall|k: int, l: int| 0 <= k && l == k + 1 && l < path.len() implies imports_chunk(
            import_edges,
            #[trigger] path[k],
            #[trigger] path[l],
        ) by {
            if k < i {
                assert(edge(there[k], there[k + 1]));
            } else {
                let b = k - i;
                assert(path[k] == back[b] && path[k + 1] == back[b + 1]);
                assert(edge(back[b], back[b + 1]));
            }
        }
        assert(imported_path(import_edges, path));
        assert(path[i] == d);
        assert(path.last() == back.last());
        assert(path[0] == there[0]);
        (path, i)
    }
}

impl OnDemand {
    /// The entry is kept and has a chunk of its own.
    pub open spec fn runs_alone(self, root: ModuleIdx) -> bool {
        &&& self.link.entries@.contains(root)
        &&& root < self.link.module_table.modules@.len()
        &&& self.link.metas@[root as int].is_included
        &&& self.chunk_graph.entry_module_to_entry_chunk@.contains_key(root)
    }

    proof fn lemma_runs_alone(self, root: ModuleIdx)
        requires
            self.link.wf(),
        ensures
            self.runs_alone(root) <==> self.entries().contains(root),
    {
        seqs::lemma_filter_members(self.link.entries@, |m: ModuleIdx| self.is_analysed(m));
    }

    proof fn lemma_last(self, analysis: OrderAnalysis) -> (last: nat)
        requires
            self.concludes(analysis),
        ensures
            analysis.plan@ == self.plan_after(last),
            self.settled(last),
            self.rules().closed(analysis.plan@),
            self.first_risk().subset_of(self.risk_after(last)),
            forall|x: ModuleIdx|
                self.risk_after(last).contains(x) && self.link.wrap_eligible(x)
                    ==> #[trigger] analysis.plan@.contains(x),
    {
        let last = (analysis.trace->0.rounds@.len() - 1) as nat;
        let risk = self.risk_after(last);
        self.law_rounds_only_add(0, last);
        self.rules().law_plan_is_closed(risk);
        assert forall|x: ModuleIdx| risk.contains(x) && self.link.wrap_eligible(x) implies
            #[trigger] analysis.plan@.contains(x) by {
            assert(risk.contains(x) && self.link.wrap_eligible(x));
        }
        last
    }

    /// Each entry that was kept and has a chunk of its own is looked at, whatever it is itself: what
    /// running its chunk would evaluate at another moment than the source does is planned.
    pub proof fn law_every_kept_entry_is_covered(self, analysis: OrderAnalysis, root: ModuleIdx)
        requires
            self.link.wf(),
            self.concludes(analysis),
            self.link.entries@.contains(root),
            root < self.link.module_table.modules@.len(),
            self.link.metas@[root as int].is_included,
            self.chunk_graph.entry_module_to_entry_chunk@.contains_key(root),
        ensures
            ({
                let chunk = self.chunk_graph.entry_module_to_entry_chunk@[root];
                self.link.at_risk(
                    self.link.expected_order(root),
                    self.chunk_graph.actual_order(self.link, self.chunk_imports, root, chunk),
                    self.chunk_graph.trigger_hosts(self.link, self.chunk_imports, root, chunk),
                ).subset_of(analysis.plan@)
            }),
    {
        self.lemma_runs_alone(root);
        self.law_plan_covers_every_entry(analysis, root);
    }

    /// A sensitive module that the source evaluates only after another one when the entry runs, and
    /// that the chunks evaluate before it, is planned if it can be wrapped. If not, the module that
    /// leads to it is, if that one can be.
    pub proof fn law_early_modules_are_planned(
        self,
        analysis: OrderAnalysis,
        root: ModuleIdx,
        a: int,
        b: int,
    )
        requires
            self.link.wf(),
            self.concludes(analysis),
            self.link.entries@.contains(root),
            root < self.link.module_table.modules@.len(),
            self.link.metas@[root as int].is_included,
            self.chunk_graph.entry_module_to_entry_chunk@.contains_key(root),
            ({
                let chunk = self.chunk_graph.entry_module_to_entry_chunk@[root];
                let expected = self.link.expected_order(root);
                let actual = self.chunk_graph.actual_order(
                    self.link,
                    self.chunk_imports,
                    root,
                    chunk,
                );
                &&& actual.len() <= usize::MAX
                &&& 0 <= a < expected.len()
                &&& 0 <= b < actual.len()
                &&& self.link.order_sensitive(expected[a])
                &&& self.link.order_sensitive(actual[b])
                &&& expected.contains(actual[b])
                &&& actual.contains(expected[a])
                &&& forall|k: int| 0 <= k <= a ==> expected[k] != actual[b]
                &&& forall|k: int| 0 <= k <= b ==> actual[k] != expected[a]
            }),
        ensures
            ({
                let chunk = self.chunk_graph.entry_module_to_entry_chunk@[root];
                let early = self.chunk_graph.actual_order(
                    self.link,
                    self.chunk_imports,
                    root,
                    chunk,
                )[b];
                let hosts = self.chunk_graph.trigger_hosts(
                    self.link,
                    self.chunk_imports,
                    root,
                    chunk,
                );
                &&& self.link.wrap_eligible(early) ==> analysis.plan@.contains(early)
                &&& !self.link.wrap_eligible(early) && hosts.contains_key(early)
                    && self.link.wrap_eligible(hosts[early]) ==> analysis.plan@.contains(
                    hosts[early],
                )
            }),
    {
        let chunk = self.chunk_graph.entry_module_to_entry_chunk@[root];
        self.law_every_kept_entry_is_covered(analysis, root);
        self.link.law_early_modules_are_at_risk(
            self.link.expected_order(root),
            self.chunk_graph.actual_order(self.link, self.chunk_imports, root, chunk),
            self.chunk_graph.trigger_hosts(self.link, self.chunk_imports, root, chunk),
            a,
            b,
        );
    }

    /// Where imports lead from the chunk of an entry into a circle, all that the entry expects is
    /// planned, as far as it can be wrapped.
    pub proof fn law_entries_into_cycles_are_planned(
        self,
        analysis: OrderAnalysis,
        root: ModuleIdx,
        path: Seq<ChunkIdx>,
        turn: int,
        x: ModuleIdx,
    )
        requires
            self.link.wf(),
            self.concludes(analysis),
            self.link.entries@.contains(root),
            root < self.link.module_table.modules@.len(),
            self.link.metas@[root as int].is_included,
            self.chunk_graph.entry_module_to_entry_chunk@.contains_key(root),
            lasso(self.import_edges, path, turn),
            path[0] == self.chunk_graph.entry_module_to_entry_chunk@[root],
            self.link.expected_order(root).contains(x),
            self.link.wrap_eligible(x),
        ensures
            analysis.plan@.contains(x),
    {
        lemma_imported_path(self.import_edges, path);
        lemma_path_turns(self.edge(), path, turn);
        assert(reach::on_cycle(self.edge(), path[turn]));
        assert(self.reaches_cycle(self.entry_chunk(root)));
        self.lemma_runs_alone(root);
        self.law_plan_covers_every_entry(analysis, root);
    }

    /// Where the imports between chunks go in a circle once the plan is carried out, all modules in
    /// the chunks of the circle are planned, as far as they can be wrapped.
    pub proof fn law_final_cycles_are_planned(
        self,
        analysis: OrderAnalysis,
        path: Seq<ChunkIdx>,
        x: ModuleIdx,
    )
        requires
            self.concludes(analysis),
            path.len() > 1,
            path.last() == path[0],
            forall|i: int|
                #![trigger path[i]]
                0 <= i < path.len() - 1 ==> self.link.lowered_edge(
                    self.chunk_graph,
                    analysis.plan@,
                    self.import_edges,
                )(path[i], path[i + 1]),
            path[0] < self.chunk_graph.chunk_table@.len(),
            self.chunk_graph.chunk_table@[path[0] as int].modules@.contains(x),
            self.link.wrap_eligible(x),
        ensures
            analysis.plan@.contains(x),
    {
        let last = self.lemma_last(analysis);
        let edge = self.lowered(self.risk_after(last));
        assert forall|i: int, j: int| 0 <= i && j == i + 1 && j < path.len() implies edge(
            #[trigger] path[i],
            #[trigger] path[j],
        ) by {}
        assert(reach::is_path(edge, path));
        lemma_path_turns(edge, path, 0);
        assert(self.chunk_graph.hosts(path[0], x));
        self.law_cycles_hold_nothing_eager(last, path[0], x);
    }

    /// A module that can be wrapped, and that static imports lead to from an entry, is planned once
    /// evaluating it needs a planned module.
    pub proof fn law_whatever_needs_the_plan_is_planned(
        self,
        analysis: OrderAnalysis,
        root: ModuleIdx,
        path: Seq<ModuleIdx>,
        records: Seq<int>,
        x: ModuleIdx,
    )
        requires
            self.link.wf(),
            self.concludes(analysis),
            self.link.entries@.contains(root),
            root < self.link.module_table.modules@.len(),
            self.link.metas@[root as int].is_included,
            self.chunk_graph.entry_module_to_entry_chunk@.contains_key(root),
            self.link.import_path(path, records),
            path[0] == root,
            path.last() == x,
            self.link.wrap_eligible(x),
            self.link.imports_member(x, analysis.plan@) || self.link.reads_member(x, analysis.plan@),
        ensures
            analysis.plan@.contains(x),
    {
        let last = self.lemma_last(analysis);
        let rules = self.rules();
        self.lemma_runs_alone(root);
        let k = self.entries().index_of(root);
        assert(rules.roots[k].0 == root);
        self.link.lemma_import_path_reaches(path, records);
        assert(self.link.source_reaches(rules.roots[k].0, x));
        assert(rules.import_forces(analysis.plan@, x));
        assert(rules.forces(analysis.plan@, x));
    }

    /// Once an entry expects a planned module whose moment matters, every other one whose moment
    /// matters and that the entry does not expect earlier is planned too, if it can be wrapped.
    pub proof fn law_what_entries_expect_later_is_planned(
        self,
        analysis: OrderAnalysis,
        root: ModuleIdx,
        i: int,
        x: ModuleIdx,
    )
        requires
            self.link.wf(),
            self.concludes(analysis),
            self.link.entries@.contains(root),
            root < self.link.module_table.modules@.len(),
            self.link.metas@[root as int].is_included,
            self.chunk_graph.entry_module_to_entry_chunk@.contains_key(root),
            0 <= i < self.link.expected_order(root).len(),
            analysis.plan@.contains(self.link.expected_order(root)[i]),
            self.link.order_sensitive(self.link.expected_order(root)[i]),
            self.link.expected_order(root).contains(x),
            forall|k: int| 0 <= k < i ==> self.link.expected_order(root)[k] != x,
            self.link.order_sensitive(x),
            self.link.wrap_eligible(x),
        ensures
            analysis.plan@.contains(x),
    {
        let last = self.lemma_last(analysis);
        let rules = self.rules();
        let order = self.link.expected_order(root);
        let plan = analysis.plan@;
        self.lemma_runs_alone(root);
        let e = self.entries().index_of(root);
        assert(rules.roots[e].1 == order);
        if order[i] != x {
            assert forall|k: int| 0 <= k <= i implies order[k] != x by {}
            seqs::lemma_first_occurrences(
                order,
                |m: ModuleIdx| self.link.order_sensitive(m),
                i,
                x,
            );
            let kept = self.link.sensitive_order(order);
            let (p, q) = choose|p: int, q: int|
                #![trigger kept[p], kept[q]]
                0 <= p < q < kept.len() && kept[p] == order[i] && kept[q] == x;
            assert(plan.contains(kept[p]) && kept[q] == x);
            assert(wrap_plan::behind_planned(
                self.link.sensitive_order(rules.roots[e].1),
                plan,
                x,
            ));
            assert(rules.suffix_forces(plan, x));
            assert(rules.forces(plan, x));
        }
    }

    /// Where imports between chunks go in a circle, and a module in one chunk of it is planned, each
    /// module in another chunk of it whose moment matters is planned too, if it can be wrapped.
    pub proof fn law_first_cycles_are_planned_together(
        self,
        analysis: OrderAnalysis,
        path: Seq<ChunkIdx>,
        i: int,
        p: ModuleIdx,
        x: ModuleIdx,
    )
        requires
            self.concludes(analysis),
            lasso(self.import_edges, path, 0),
            0 <= i < path.len(),
            analysis.plan@.contains(p),
            self.chunk_graph.module_to_chunk@[p as int] == Some(path[0]),
            path[i] < self.chunk_graph.chunk_table@.len(),
            self.chunk_graph.chunk_table@[path[i] as int].modules@.contains(x),
            self.link.order_sensitive(x),
            self.link.wrap_eligible(x),
        ensures
            analysis.plan@.contains(x),
    {
        let last = self.lemma_last(analysis);
        let rules = self.rules();
        let plan = analysis.plan@;
        let c = path[0];
        let d = path[i];
        lemma_imported_path(self.import_edges, path);
        lemma_path_turns(self.edge(), path, 0);
        lemma_path_part(self.edge(), path, 0, i);
        lemma_path_part(self.edge(), path, i, path.len() - 1);
        assert((rules.same_cycle)(c, d));
        assert(self.chunk_graph.hosts(d, x));
        assert(self.chunk_graph.joined(rules.same_cycle, p, d));
        assert(self.chunk_graph.shares_cycle(rules.same_cycle, plan, x));
        assert(rules.cycle_forces(plan, x));
        assert(rules.forces(plan, x));
    }

    /// Nothing more is planned than these reasons ask for: a set of modules that holds what each
    /// entry puts at risk, what entries that lead into a circle expect, what stands in a circle of
    /// chunks under any plan within the set, what entries expect behind its members, what shares a
    /// circle with them, and what needs them behind an entry, always of what can be wrapped, holds
    /// the plan.
    pub proof fn law_nothing_is_planned_without_reason(
        self,
        analysis: OrderAnalysis,
        set: Set<ModuleIdx>,
    )
        requires
            self.link.wf(),
            self.concludes(analysis),
            forall|root: ModuleIdx, x: ModuleIdx|
                #![trigger self.runs_alone(root), set.contains(x)]
                self.runs_alone(root) && self.link.at_risk(
                    self.link.expected_order(root),
                    self.chunk_graph.actual_order(
                        self.link,
                        self.chunk_imports,
                        root,
                        self.chunk_graph.entry_module_to_entry_chunk@[root],
                    ),
                    self.chunk_graph.trigger_hosts(
                        self.link,
                        self.chunk_imports,
                        root,
                        self.chunk_graph.entry_module_to_entry_chunk@[root],
                    ),
                ).contains(x) ==> set.contains(x),
            forall|root: ModuleIdx, path: Seq<ChunkIdx>, turn: int, x: ModuleIdx|
                #![trigger self.runs_alone(root), lasso(self.import_edges, path, turn), set.contains(x)]
                {
                    &&& self.runs_alone(root)
                    &&& lasso(self.import_edges, path, turn)
                    &&& path[0] == self.chunk_graph.entry_module_to_entry_chunk@[root]
                    &&& self.link.expected_order(root).contains(x)
                    &&& self.link.wrap_eligible(x)
                } ==> set.contains(x),
            forall|plan: Set<ModuleIdx>, c: ChunkIdx, x: ModuleIdx|
                #![trigger plan.subset_of(set), self.chunk_graph.hosts(c, x)]
                {
                    &&& plan.subset_of(set)
                    &&& reach::on_cycle(
                        self.link.lowered_edge(self.chunk_graph, plan, self.import_edges),
                        c,
                    )
                    &&& self.chunk_graph.hosts(c, x)
                    &&& self.link.wrap_eligible(x)
                } ==> set.contains(x),
            forall|root: ModuleIdx, i: int, x: ModuleIdx|
                #![trigger self.link.expected_order(root)[i], self.link.wrap_eligible(x)]
                {
                    &&& self.runs_alone(root)
                    &&& 0 <= i < self.link.expected_order(root).len()
                    &&& set.contains(self.link.expected_order(root)[i])
                    &&& self.link.order_sensitive(self.link.expected_order(root)[i])
                    &&& self.link.expected_order(root).contains(x)
                    &&& forall|k: int| 0 <= k < i ==> self.link.expected_order(root)[k] != x
                    &&& self.link.order_sensitive(x)
                    &&& self.link.wrap_eligible(x)
                } ==> set.contains(x),
            forall|path: Seq<ChunkIdx>, i: int, p: ModuleIdx, x: ModuleIdx|
                #![trigger lasso(self.import_edges, path, 0), self.chunk_graph.hosts(path[i], x), set.contains(p)]
                {
                    &&& lasso(self.import_edges, path, 0)
                    &&& 0 <= i < path.len()
                    &&& set.contains(p)
                    &&& self.chunk_graph.module_to_chunk@[p as int] == Some(path[0])
                    &&& self.chunk_graph.hosts(path[i], x)
                    &&& self.link.order_sensitive(x)
                    &&& self.link.wrap_eligible(x)
                } ==> set.contains(x),
            forall|root: ModuleIdx, x: ModuleIdx|
                #![trigger self.link.source_reaches(root, x)]
                {
                    &&& self.runs_alone(root)
                    &&& self.link.source_reaches(root, x)
                    &&& self.link.wrap_eligible(x)
                    &&& self.link.imports_member(x, set) || self.link.reads_member(x, set)
                } ==> set.contains(x),
        ensures
            analysis.plan@.subset_of(set),
    {
        let rules = self.rules();
        assert forall|x: ModuleIdx| #[trigger] rules.forces(set, x) implies set.contains(x) by {
            if rules.suffix_forces(set, x) {
                self.lemma_suffix_step(set, x);
            } else if rules.cycle_forces(set, x) {
                self.lemma_mates_step(set, x);
            } else {
                let k = choose|k: int|
                    0 <= k < rules.roots.len() && self.link.source_reaches(
                        (#[trigger] rules.roots[k]).0,
                        x,
                    );
                let root = self.entries()[k];
                assert(self.entries().contains(root));
                self.lemma_runs_alone(root);
                assert(self.link.source_reaches(root, x));
            }
        }
        assert(rules.closed(set));
        assert forall|x: ModuleIdx| self.first_risk().contains(x) implies #[trigger] set.contains(
            x,
        ) by {
            let k = choose|k: int|
                0 <= k < self.entries().len() && self.endangers(#[trigger] self.entries()[k], x);
            let root = self.entries()[k];
            assert(self.entries().contains(root));
            self.lemma_runs_alone(root);
            assert(self.runs_alone(root));
            if self.reaches_cycle(self.entry_chunk(root)) && self.link.expected_order(
                root,
            ).contains(x) && self.link.wrap_eligible(x) {
                let d = choose|d: ChunkIdx| #[trigger]
                    reach::on_cycle(self.edge(), d) && reach::reaches(
                        self.edge(),
                        self.entry_chunk(root),
                        d,
                    );
                let (path, turn) = lemma_cycle_has_lasso(
                    self.import_edges,
                    self.entry_chunk(root),
                    d,
                );
                assert(lasso(self.import_edges, path, turn));
            }
        }
        let last = self.lemma_last(analysis);
        self.lemma_rounds_stay(set, last);
    }

    proof fn lemma_rounds_stay(self, set: Set<ModuleIdx>, rounds: nat)
        requires
            self.rules().closed(set),
            self.first_risk().subset_of(set),
            forall|plan: Set<ModuleIdx>, c: ChunkIdx, x: ModuleIdx|
                #![trigger plan.subset_of(set), self.chunk_graph.hosts(c, x)]
                {
                    &&& plan.subset_of(set)
                    &&& reach::on_cycle(
                        self.link.lowered_edge(self.chunk_graph, plan, self.import_edges),
                        c,
                    )
                    &&& self.chunk_graph.hosts(c, x)
                    &&& self.link.wrap_eligible(x)
                } ==> set.contains(x),
        ensures
            self.risk_after(rounds).subset_of(set),
            self.plan_after(rounds).subset_of(set),
        decreases rounds,
    {
        if rounds > 0 {
            let before = (rounds - 1) as nat;
            self.lemma_rounds_stay(set, before);
            let plan = self.plan_after(before);
            assert forall|x: ModuleIdx| self.emergent(self.risk_after(before)).contains(x) implies
                #[trigger] set.contains(x) by {
                let edge = self.lowered(self.risk_after(before));
                let c = choose|c: ChunkIdx|
                    reach::on_cycle(edge, c) && #[trigger] self.chunk_graph.hosts(c, x);
                assert(plan.subset_of(set) && self.chunk_graph.hosts(c, x));
            }
        }
        assert(self.rules().covers(set, self.risk_after(rounds)));
        self.rules().lemma_plan_is_least(self.risk_after(rounds), set);
    }

    proof fn lemma_mates_step(self, set: Set<ModuleIdx>, x: ModuleIdx)
        requires
            self.rules().cycle_forces(set, x),
            self.link.wrap_eligible(x),
            forall|path: Seq<ChunkIdx>, i: int, p: ModuleIdx, x: ModuleIdx|
                #![trigger lasso(self.import_edges, path, 0), self.chunk_graph.hosts(path[i], x), set.contains(p)]
                {
                    &&& lasso(self.import_edges, path, 0)
                    &&& 0 <= i < path.len()
                    &&& set.contains(p)
                    &&& self.chunk_graph.module_to_chunk@[p as int] == Some(path[0])
                    &&& self.chunk_graph.hosts(path[i], x)
                    &&& self.link.order_sensitive(x)
                    &&& self.link.wrap_eligible(x)
                } ==> set.contains(x),
        ensures
            set.contains(x),
    {
        let rules = self.rules();
        let (p, d) = choose|p: ModuleIdx, d: ChunkIdx|
            #![trigger set.contains(p), self.chunk_graph.hosts(d, x)]
            set.contains(p) && self.chunk_graph.hosts(d, x) && self.chunk_graph.joined(
                rules.same_cycle,
                p,
                d,
            );
        let c = self.chunk_graph.chunk_of(p)->0;
        let (path, i) = lemma_mates_have_lasso(self.import_edges, c, d);
        assert(lasso(self.import_edges, path, 0));
        assert(self.chunk_graph.hosts(path[i], x));
    }

    proof fn lemma_suffix_step(self, set: Set<ModuleIdx>, x: ModuleIdx)
        requires
            self.link.wf(),
            self.rules().suffix_forces(set, x),
            self.link.wrap_eligible(x),
            forall|root: ModuleIdx, i: int, x: ModuleIdx|
                #![trigger self.link.expected_order(root)[i], self.link.wrap_eligible(x)]
                {
                    &&& self.runs_alone(root)
                    &&& 0 <= i < self.link.expected_order(root).len()
                    &&& set.contains(self.link.expected_order(root)[i])
                    &&& self.link.order_sensitive(self.link.expected_order(root)[i])
                    &&& self.link.expected_order(root).contains(x)
                    &&& forall|k: int| 0 <= k < i ==> self.link.expected_order(root)[k] != x
                    &&& self.link.order_sensitive(x)
                    &&& self.link.wrap_eligible(x)
                } ==> set.contains(x),
        ensures
            set.contains(x),
    {
        let rules = self.rules();
        let e = choose|k: int|
            0 <= k < rules.roots.len() && wrap_plan::behind_planned(
                self.link.sensitive_order((#[trigger] rules.roots[k]).1),
                set,
                x,
            );
        let root = self.entries()[e];
        let order = self.link.expected_order(root);
        assert(self.entries().contains(root));
        self.lemma_runs_alone(root);
        assert(rules.roots[e].1 == order);
        let kept = self.link.sensitive_order(order);
        let (i, j) = choose|i: int, j: int|
            #![trigger kept[i], kept[j]]
            0 <= i <= j < kept.len() && set.contains(kept[i]) && kept[j] == x;
        self.link.lemma_sensitive_order(order);
        assert(kept.contains(kept[i]) && kept.contains(kept[j]));
        if i < j {
            let a = seqs::lemma_occurs_first(
                order,
                |m: ModuleIdx| self.link.order_sensitive(m),
                i,
                j,
            );
            assert(self.link.expected_order(root)[a] == kept[i]);
        }
    }
}

impl LinkStageOutput {
    /// Where everything is wrapped, each module that can be wrapped and that static imports lead to
    /// from a kept, bundled entry is planned.
    pub proof fn law_wrap_all_plans_what_entries_lead_to(
        self,
        k: int,
        path: Seq<ModuleIdx>,
        records: Seq<int>,
        x: ModuleIdx,
    )
        requires
            self.wf(),
            0 <= k < self.entries@.len(),
            self.entries@[k] < self.module_table.modules@.len(),
            self.metas@[self.entries@[k] as int].is_included,
            self.module_table.modules@[self.entries@[k] as int] is Normal,
            self.import_path(path, records),
            path[0] == self.entries@[k],
            path.last() == x,
            self.wrap_eligible(x),
        ensures
            self.wrap_all_plan().contains(x),
    {
        self.lemma_import_path_reaches(path, records);
        assert(self.source_reaches(self.entries@[k], x));
        assert(self.behind_entry(x));
    }

    /// Nothing else is.
    pub proof fn law_wrap_all_plans_nothing_else(self, x: ModuleIdx) -> (found: (
        int,
        Seq<ModuleIdx>,
        Seq<int>,
    ))
        requires
            self.wf(),
            self.wrap_all_plan().contains(x),
        ensures
            self.wrap_eligible(x),
            0 <= found.0 < self.entries@.len(),
            self.metas@[self.entries@[found.0] as int].is_included,
            self.module_table.modules@[self.entries@[found.0] as int] is Normal,
            self.import_path(found.1, found.2),
            found.1[0] == self.entries@[found.0],
            found.1.last() == x,
    {
        let k = choose|k: int|
            #![trigger self.entries@[k]]
            0 <= k < self.entries@.len() && self.included(self.entries@[k]) && self.is_normal(
                self.entries@[k],
            ) && self.source_reaches(self.entries@[k], x);
        let (path, records) = self.lemma_source_reaches_path(self.entries@[k], x);
        (k, path, records)
    }
}

} // verus!
