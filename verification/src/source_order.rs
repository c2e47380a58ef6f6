//! The order in which the source asks for its modules to be evaluated.

use vstd::prelude::*;

use crate::dfs::Walk;
use crate::indices;
use crate::link;
use crate::link::{ImportKind, LinkStageOutput, ModuleIdx};
use crate::reach;
use crate::seqs;
use crate::stage::GenerateStage;
use crate::visit;
use crate::visit::VisitState;

verus! {

impl LinkStageOutput {
    /// The module itself, if it is bundled.
    pub open spec fn bundled_root(self, root: ModuleIdx) -> Seq<ModuleIdx> {
        if self.is_normal(root) {
            seq![root]
        } else {
            Seq::empty()
        }
    }

    pub open spec fn only_included(self, order: Seq<ModuleIdx>) -> Seq<ModuleIdx> {
        order.filter(|m: ModuleIdx| self.included(m))
    }

    /// The order in which the source evaluates the kept modules behind `root`: imports first, in
    /// the order in which they are written, each module once.
    pub open spec fn expected_order(self, root: ModuleIdx) -> Seq<ModuleIdx> {
        self.only_included(self.source_graph().walk(self.bundled_root(root), Set::empty()).order)
    }

    pub proof fn lemma_source_graph_wf(self)
        requires
            self.wf(),
        ensures
            self.source_graph().wf(),
    {
        let graph = self.source_graph();
        indices::lemma_below_finite(self.module_count());
        assert forall|m: ModuleIdx, i: int|
            graph.nodes.contains(m) && 0 <= i < (graph.succ)(m).len() implies graph.nodes.contains(
            #[trigger] (graph.succ)(m)[i],
        ) by {
            link::lemma_picked_from(self.records(m), self.source_pick(), 0);
            assert(self.source_imports(m).contains((graph.succ)(m)[i]));
        }
    }

    /// The expected order of an entry holds the kept modules that its static imports lead to, and
    /// nothing if the entry is not bundled.
    pub proof fn law_expected_order_members(self, root: ModuleIdx)
        requires
            self.wf(),
            root < self.module_count(),
        ensures
            forall|m: ModuleIdx| #[trigger]
                self.expected_order(root).contains(m) <==> self.included(m) && self.is_normal(root)
                    && self.source_reaches(root, m),
    {
        let graph = self.source_graph();
        let start = self.bundled_root(root);
        let walk = graph.walk(start, Set::empty());
        self.lemma_source_graph_wf();
        assert(graph.holds_all(start));
        graph.lemma_walk_visits_reachable(start);
        seqs::lemma_filter_members(walk.order, |m: ModuleIdx| self.included(m));
        assert forall|m: ModuleIdx| #[trigger]
            self.expected_order(root).contains(m) <==> self.included(m) && self.is_normal(root)
                && self.source_reaches(root, m) by {
            assert(walk.order.to_set().contains(m) <==> walk.order.contains(m));
            if walk.visited.contains(m) {
                let i = choose|i: int|
                    0 <= i < start.len() && reach::reaches(graph.edge(), #[trigger] start[i], m);
                assert(start[i] == root);
            }
            if self.is_normal(root) && self.source_reaches(root, m) {
                assert(reach::reaches(graph.edge(), start[0], m));
            }
        }
    }

    /// No module is expected twice.
    pub proof fn law_expected_order_repeats_nothing(self, root: ModuleIdx)
        requires
            self.wf(),
            root < self.module_count(),
        ensures
            self.expected_order(root).no_duplicates(),
    {
        let start = self.bundled_root(root);
        self.lemma_source_graph_wf();
        assert(self.source_graph().holds_all(start));
        self.source_graph().lemma_walk_basics(start, Set::empty());
        seqs::lemma_filter_no_duplicates(
            self.source_graph().walk(start, Set::empty()).order,
            |m: ModuleIdx| self.included(m),
        );
    }

    /// A kept module that another one imports statically is expected before it, unless the two
    /// import each other in a circle.
    pub proof fn law_imports_are_expected_first(
        self,
        root: ModuleIdx,
        importer: ModuleIdx,
        importee: ModuleIdx,
    )
        requires
            self.wf(),
            root < self.module_count(),
            self.expected_order(root).contains(importer),
            self.source_graph().edge()(importer, importee),
            self.included(importee),
            !self.source_reaches(importee, importer),
        ensures
            exists|i: int, j: int|
                #![trigger self.expected_order(root)[i], self.expected_order(root)[j]]
                0 <= i < j < self.expected_order(root).len() && self.expected_order(root)[i]
                    == importee && self.expected_order(root)[j] == importer,
    {
        let graph = self.source_graph();
        let start = self.bundled_root(root);
        let order = graph.walk(start, Set::empty()).order;
        let kept = |m: ModuleIdx| self.included(m);
        self.lemma_source_graph_wf();
        assert(graph.holds_all(start));
        seqs::lemma_filter_members(order, kept);
        assert(order.contains(importer));
        let j = order.index_of(importer);
        graph.lemma_successor_finishes_first(start, Set::empty(), j, importee);
        let i = choose|i: int| 0 <= i < j && #[trigger] order[i] == importee;
        seqs::lemma_filter_keeps_order(order, kept, i, j);
    }

    /// What is left of a traversal whose open modules are `frames`, each with the position of its
    /// next import record, innermost last.
    spec fn unwind(self, frames: Seq<(ModuleIdx, usize)>, seen: Set<ModuleIdx>) -> Walk<ModuleIdx>
        decreases frames.len(),
    {
        if frames.len() == 0 {
            Walk { visited: seen, order: Seq::empty() }
        } else {
            let (m, next) = frames.last();
            let below = self.source_graph().walk(
                link::picked_from(self.records(m), self.source_pick(), next as int),
                seen,
            );
            let rest = self.unwind(frames.drop_last(), below.visited);
            Walk { visited: rest.visited, order: below.order.push(m) + rest.order }
        }
    }

    /// The import records that the open modules still have to look at.
    spec fn open_records(self, frames: Seq<(ModuleIdx, usize)>) -> nat
        decreases frames.len(),
    {
        if frames.len() == 0 {
            0
        } else {
            let (m, next) = frames.last();
            self.open_records(frames.drop_last()) + 1 + if next < self.records(m).len() {
                (self.records(m).len() - next) as nat
            } else {
                0
            }
        }
    }

    /// What the next step of a traversal does to what is left of it.
    proof fn lemma_unwind_step(self, frames: Seq<(ModuleIdx, usize)>, seen: Set<ModuleIdx>)
        requires
            self.wf(),
            frames.len() > 0,
            self.is_normal(frames.last().0),
            seen.subset_of(self.source_graph().nodes),
        ensures
            ({
                let (m, next) = frames.last();
                let outer = frames.drop_last();
                let advanced = outer.push((m, (next + 1) as usize));
                if next >= self.records(m).len() {
                    self.unwind(frames, seen) == (Walk {
                        visited: self.unwind(outer, seen).visited,
                        order: seq![m] + self.unwind(outer, seen).order,
                    })
                } else {
                    match self.source_target(self.records(m)[next as int]) {
                        Some(importee) if !seen.contains(importee) => self.unwind(frames, seen)
                            == self.unwind(advanced.push((importee, 0)), seen.insert(importee)),
                        _ => self.unwind(frames, seen) == self.unwind(advanced, seen),
                    }
                }
            }),
    {
        let graph = self.source_graph();
        self.lemma_source_graph_wf();
        let (m, next) = frames.last();
        let outer = frames.drop_last();
        let pending = link::picked_from(self.records(m), self.source_pick(), next as int);
        assert(self.records(m).len() == self.normal(m).import_records.len());
        assert forall|i: int| 0 <= i < pending.len() implies graph.nodes.contains(
            #[trigger] pending[i],
        ) by {
            link::lemma_picked_from(self.records(m), self.source_pick(), next as int);
            assert(pending.contains(pending[i]));
        }
        graph.lemma_walk_step(pending, seen);
        if next >= self.records(m).len() {
            let rest = self.unwind(outer, seen);
            assert(Seq::<ModuleIdx>::empty().push(m) =~= seq![m]);
        } else {
            let advanced = outer.push((m, (next + 1) as usize));
            assert(advanced.drop_last() =~= outer);
            match self.source_target(self.records(m)[next as int]) {
                Some(importee) => {
                    let later = link::picked_from(
                        self.records(m),
                        self.source_pick(),
                        next as int + 1,
                    );
                    assert(pending =~= seq![importee] + later);
                    assert(pending.drop_first() =~= later);
                    if !seen.contains(importee) {
                        let deeper = advanced.push((importee, 0));
                        assert(deeper.drop_last() =~= advanced);
                        assert(self.source_imports(importee) == (graph.succ)(importee));
                        let below = graph.walk((graph.succ)(importee), seen.insert(importee));
                        let after = graph.walk(later, below.visited);
                        let rest = self.unwind(outer, after.visited);
                        let mid = self.unwind(advanced, below.visited);
                        assert(mid.order == after.order.push(m) + rest.order);
                        assert(self.unwind(deeper, seen.insert(importee)).order
                            == below.order.push(importee) + mid.order);
                        assert((below.order.push(importee) + after.order).push(m) + rest.order
                            =~= below.order.push(importee) + (after.order.push(m) + rest.order));
                    }
                },
                None => {},
            }
        }
    }
}

impl<'a> GenerateStage<'a> {
    /// The kept modules behind `root` that no traversal has come to yet, in the order in which the
    /// source evaluates them. `states` remembers what the traversals have come to.
    #[verifier::rlimit(40)]
    pub fn expected_order_for_root_with_states(
        &self,
        root: ModuleIdx,
        states: &mut Vec<VisitState>,
    ) -> (order: Vec<ModuleIdx>)
        requires
            self.link_output.wf(),
            root < self.link_output.module_count(),
            old(states)@.len() == self.link_output.module_count(),
        ensures
            ({
                let walk = self.link_output.source_graph().walk(
                    self.link_output.bundled_root(root),
                    visit::visited(old(states)@),
                );
                &&& order@ == self.link_output.only_included(walk.order)
                &&& final(states)@ == visit::finished(old(states)@, walk.visited)
            }),
    {
        let link = self.link_output;
        let ghost graph = link.source_graph();
        let ghost before = states@;
        let ghost walk = graph.walk(link.bundled_root(root), visit::visited(before));
        let mut order: Vec<ModuleIdx> = Vec::new();
        proof {
            link.lemma_source_graph_wf();
            assert(visit::visited(before).subset_of(graph.nodes));
            assert(graph.holds_all(link.bundled_root(root)));
            graph.lemma_walk_step(link.bundled_root(root), visit::visited(before));
            graph.lemma_walk_step(Seq::<ModuleIdx>::empty(), visit::visited(before));
            assert(seq![root].drop_first() =~= Seq::<ModuleIdx>::empty());
            reveal(Seq::filter);
        }
        if !link.module_table.modules[root].is_normal() || states[root] != VisitState::Unvisited {
            assert(walk.order =~= Seq::<ModuleIdx>::empty());
            assert(states@ =~= visit::finished(before, walk.visited));
            return order;
        }
        states.set(root, VisitState::Visiting);
        let mut stack: Vec<(ModuleIdx, usize)> = Vec::new();
        stack.push((root, 0));
        let ghost mut done: Seq<ModuleIdx> = Seq::empty();
        proof {
            let below = graph.walk((graph.succ)(root), visit::visited(before).insert(root));
            assert(visit::visited(states@) =~= visit::visited(before).insert(root));
            assert(stack@.drop_last() =~= Seq::<(ModuleIdx, usize)>::empty());
            assert(graph.holds_all((graph.succ)(root)));
            graph.lemma_walk_basics((graph.succ)(root), visit::visited(before).insert(root));
            graph.lemma_walk_step(Seq::<ModuleIdx>::empty(), below.visited);
            assert(link.unwind(stack@.drop_last(), below.visited).order =~= Seq::<
                ModuleIdx,
            >::empty());
            assert(walk.order =~= done + link.unwind(stack@, visit::visited(states@)).order);
            assert(stack@[0].0 == root);
        }
        while stack.len() > 0
            invariant
                link == self.link_output,
                link.wf(),
                graph == link.source_graph(),
                before.len() == link.module_count(),
                states@.len() == before.len(),
                forall|f: int| 0 <= f < stack@.len() ==> link.is_normal((#[trigger] stack@[f]).0),
                forall|f: int|
                    0 <= f < stack@.len() ==> before[(#[trigger] stack@[f]).0 as int]
                        == VisitState::Unvisited && states@[stack@[f].0 as int]
                        != VisitState::Unvisited,
                walk.visited == link.unwind(stack@, visit::visited(states@)).visited,
                walk.order == done + link.unwind(stack@, visit::visited(states@)).order,
                order@ == link.only_included(done),
                forall|i: int|
                    0 <= i < before.len() && before[i] != VisitState::Unvisited ==> #[trigger]
                        states@[i] == before[i],
                forall|i: int|
                    0 <= i < before.len() && before[i] == VisitState::Unvisited ==> (
                    #[trigger] states@[i] == VisitState::Visiting ==> exists|f: int|
                        0 <= f < stack@.len() && (#[trigger] stack@[f]).0 == i),
            decreases
                    link.module_count() - visit::visited(states@).len(),
                    link.open_records(stack@),
        {
            let top: usize = stack.len() - 1;
            let (module_idx, next_import_idx) = stack[top];
            let ghost frames = stack@;
            let ghost seen = visit::visited(states@);
            proof {
                assert(frames[top as int].0 == module_idx);
                assert(seen.subset_of(graph.nodes));
                indices::lemma_below_bounds_len(link.module_count(), seen);
                link.lemma_unwind_step(frames, seen);
                assert(link.tables().module_wf(module_idx));
            }
            let module = match link.module_table.modules[module_idx].as_normal() {
                Some(module) => module,
                None => return order,
            };
            if next_import_idx < module.import_records.len() {
                let record = &module.import_records[next_import_idx];
                stack.set(top, (module_idx, next_import_idx + 1));
                let ghost advanced = stack@;
                proof {
                    assert(advanced =~= frames.drop_last().push(
                        (module_idx, (next_import_idx + 1) as usize),
                    ));
                    assert(advanced.drop_last() =~= frames.drop_last());
                    assert forall|f: int| 0 <= f < frames.len() implies (#[trigger] advanced[f]).0
                        == frames[f].0 by {}
                    assert forall|i: int|
                        0 <= i < before.len() && before[i] == VisitState::Unvisited
                            && #[trigger] states@[i] == VisitState::Visiting implies exists|f: int|
                        0 <= f < stack@.len() && (#[trigger] stack@[f]).0 == i by {
                        let f = choose|f: int|
                            0 <= f < frames.len() && (#[trigger] frames[f]).0 == i;
                        assert(stack@[f].0 == i);
                    }
                }
                if record.kind == ImportKind::Import {
                    if let Some(importee_idx) = record.resolved_module {
                        if link.module_table.modules[importee_idx].is_normal()
                            && states[importee_idx] == VisitState::Unvisited {
                            states.set(importee_idx, VisitState::Visiting);
                            stack.push((importee_idx, 0));
                            proof {
                                assert(visit::visited(states@) =~= seen.insert(importee_idx));
                                assert(stack@ =~= advanced.push((importee_idx, 0)));
                                assert(visit::visited(states@).subset_of(graph.nodes));
                                indices::lemma_below_bounds_len(
                                    link.module_count(),
                                    visit::visited(states@),
                                );
                                assert forall|i: int|
                                    0 <= i < before.len() && before[i] == VisitState::Unvisited
                                        && #[trigger] states@[i]
                                        == VisitState::Visiting implies exists|f: int|
                                    0 <= f < stack@.len() && (#[trigger] stack@[f]).0 == i by {
                                    if i == importee_idx {
                                        assert(stack@[advanced.len() as int].0 == i);
                                    } else {
                                        let f = choose|f: int|
                                            0 <= f < frames.len() && (#[trigger] frames[f]).0 == i;
                                        assert(stack@[f].0 == i);
                                    }
                                }
                            }
                        }
                    }
                }
            } else {
                stack.pop();
                states.set(module_idx, VisitState::Done);
                if link.metas[module_idx].is_included {
                    order.push(module_idx);
                }
                proof {
                    assert(stack@ =~= frames.drop_last());
                    assert(visit::visited(states@) =~= seen);
                    assert forall|i: int|
                        0 <= i < before.len() && before[i] == VisitState::Unvisited
                            && #[trigger] states@[i] == VisitState::Visiting implies exists|f: int|
                        0 <= f < stack@.len() && (#[trigger] stack@[f]).0 == i by {
                        let f = choose|f: int|
                            0 <= f < frames.len() && (#[trigger] frames[f]).0 == i;
                        assert(stack@[f].0 == i);
                    }
                    let left = link.unwind(stack@, seen);
                    assert(done.push(module_idx) + left.order =~= done + (seq![module_idx]
                        + left.order));
                    assert(done.push(module_idx).drop_last() =~= done);
                    assert(link.only_included(done.push(module_idx)) =~= order@) by {
                        reveal(Seq::filter);
                    }
                    done = done.push(module_idx);
                }
            }
        }
        proof {
            assert(states@ =~= visit::finished(before, walk.visited));
            assert(walk.order =~= done);
        }
        order
    }

    /// The kept modules behind `root`, in the order in which the source evaluates them.
    pub fn expected_order_for_root(&self, root: ModuleIdx) -> (order: Vec<ModuleIdx>)
        requires
            self.link_output.wf(),
            root < self.link_output.module_count(),
        ensures
            order@ == self.link_output.expected_order(root),
    {
        let mut states = visit::unvisited_states(self.link_output.module_table.modules.len());
        self.expected_order_for_root_with_states(root, &mut states)
    }
}

} // verus!
