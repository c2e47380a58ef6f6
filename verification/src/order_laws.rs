//! What holds of the evaluation order of every program.

use rustc_hash::FxHashSet;
use vstd::prelude::*;

use crate::actual_order;
use crate::at_risk;
use crate::chunk_cycles;
use crate::chunks::{ChunkGraph, ChunkIdx};
use crate::link;
use crate::link::{LinkStageOutput, ModuleIdx};
use crate::reach;
use crate::seqs;

verus! {

impl LinkStageOutput {
    /// Evaluating the modules of `list` in turn first leads to `m` at position `i`.
    pub open spec fn first_leads_to(
        self,
        list: Seq<ModuleIdx>,
        seen: Set<ModuleIdx>,
        i: int,
        m: ModuleIdx,
    ) -> bool {
        &&& 0 <= i < list.len()
        &&& !self.call_graph().walk(list.take(i), seen).visited.contains(m)
        &&& self.call_graph().walk(list.take(i + 1), seen).visited.contains(m)
    }

    /// A module that is evaluated because of another one is put down to the module of `list` that
    /// leads to it first.
    pub proof fn law_hosts_lead_first(
        self,
        list: Seq<ModuleIdx>,
        seen: Set<ModuleIdx>,
        hosts: Map<ModuleIdx, ModuleIdx>,
        i: int,
        m: ModuleIdx,
    )
        requires
            self.wf(),
            self.call_graph().holds_all(list),
            seen.subset_of(self.call_graph().nodes),
            self.first_leads_to(list, seen, i, m),
            list[i] != m,
        ensures
            self.hosts_after(list, seen, hosts).contains_key(m),
            self.hosts_after(list, seen, hosts)[m] == list[i],
        decreases list.len(),
    {
        let graph = self.call_graph();
        let first = seq![list[0]];
        let rest = list.drop_first();
        let walk = graph.walk(first, seen);
        let next = hosts.union_prefer_right(Self::hosted_by(list[0], walk.order));
        self.lemma_call_graph_wf();
        assert(graph.holds_all(first));
        assert(graph.holds_all(rest));
        graph.lemma_walk_basics(first, seen);
        if i == 0 {
            assert(list.take(0) =~= Seq::<ModuleIdx>::empty());
            assert(list.take(1) =~= first);
            graph.lemma_walk_step(list.take(0), seen);
            assert(walk.order.to_set().contains(m));
            assert(walk.order.contains(m));
            assert(next.contains_key(m) && next[m] == list[0]);
            self.lemma_visited_keep_hosts(rest, walk.visited, next, m);
        } else {
            assert(list.take(i) =~= first + rest.take(i - 1));
            assert(list.take(i + 1) =~= first + rest.take(i));
            assert(graph.holds_all(rest.take(i - 1)));
            assert(graph.holds_all(rest.take(i)));
            graph.lemma_walk_append(first, rest.take(i - 1), seen);
            graph.lemma_walk_append(first, rest.take(i), seen);
            assert(rest[i - 1] == list[i]);
            self.law_hosts_lead_first(rest, walk.visited, next, i - 1, m);
        }
    }

    /// Only a module that is evaluated because of another one gets a host.
    pub proof fn law_hosts_are_needed(
        self,
        list: Seq<ModuleIdx>,
        seen: Set<ModuleIdx>,
        hosts: Map<ModuleIdx, ModuleIdx>,
        m: ModuleIdx,
    )
        requires
            self.wf(),
            self.call_graph().holds_all(list),
            seen.subset_of(self.call_graph().nodes),
            self.hosts_after(list, seen, hosts).contains_key(m),
            !hosts.contains_key(m),
        ensures
            exists|i: int| #[trigger] self.first_leads_to(list, seen, i, m) && list[i] != m,
        decreases list.len(),
    {
        let graph = self.call_graph();
        assert(list.len() > 0);
        let first = seq![list[0]];
        let rest = list.drop_first();
        let walk = graph.walk(first, seen);
        let next = hosts.union_prefer_right(Self::hosted_by(list[0], walk.order));
        self.lemma_call_graph_wf();
        assert(graph.holds_all(first));
        assert(graph.holds_all(rest));
        graph.lemma_walk_basics(first, seen);
        if next.contains_key(m) {
            assert(walk.order.contains(m) && m != list[0]);
            assert(list.take(0) =~= Seq::<ModuleIdx>::empty());
            assert(list.take(1) =~= first);
            graph.lemma_walk_step(list.take(0), seen);
            let k = walk.order.index_of(m);
            assert(!seen.contains(walk.order[k]));
            assert(walk.order.to_set().contains(m));
            assert(self.first_leads_to(list, seen, 0, m));
        } else {
            self.law_hosts_are_needed(rest, walk.visited, next, m);
            let j = choose|j: int| #[trigger]
                self.first_leads_to(rest, walk.visited, j, m) && rest[j] != m;
            assert(list.take(j + 1) =~= first + rest.take(j));
            assert(list.take(j + 2) =~= first + rest.take(j + 1));
            assert(graph.holds_all(rest.take(j)));
            assert(graph.holds_all(rest.take(j + 1)));
            graph.lemma_walk_append(first, rest.take(j), seen);
            graph.lemma_walk_append(first, rest.take(j + 1), seen);
            assert(self.first_leads_to(list, seen, j + 1, m));
            assert(list[j + 1] == rest[j]);
        }
    }

    /// A module that was evaluated before gets no other host.
    proof fn lemma_visited_keep_hosts(
        self,
        list: Seq<ModuleIdx>,
        seen: Set<ModuleIdx>,
        hosts: Map<ModuleIdx, ModuleIdx>,
        m: ModuleIdx,
    )
        requires
            self.wf(),
            self.call_graph().holds_all(list),
            seen.subset_of(self.call_graph().nodes),
            seen.contains(m),
            hosts.contains_key(m),
        ensures
            self.hosts_after(list, seen, hosts).contains_key(m),
            self.hosts_after(list, seen, hosts)[m] == hosts[m],
        decreases list.len(),
    {
        if list.len() > 0 {
            let graph = self.call_graph();
            let first = seq![list[0]];
            let walk = graph.walk(first, seen);
            let next = hosts.union_prefer_right(Self::hosted_by(list[0], walk.order));
            self.lemma_call_graph_wf();
            assert(graph.holds_all(first));
            assert(graph.holds_all(list.drop_first()));
            graph.lemma_walk_basics(first, seen);
            if walk.order.contains(m) {
                let k = walk.order.index_of(m);
                assert(!seen.contains(walk.order[k]));
            }
            self.lemma_visited_keep_hosts(list.drop_first(), walk.visited, next, m);
        }
    }

    /// Where the sensitive modules are evaluated in the expected order, nothing is at risk.
    pub proof fn law_expected_order_is_safe(
        self,
        expected: Seq<ModuleIdx>,
        actual: Seq<ModuleIdx>,
        hosts: Map<ModuleIdx, ModuleIdx>,
    )
        requires
            actual.len() <= usize::MAX,
            self.sensitive_order(actual) == self.sensitive_order(expected),
        ensures
            self.at_risk(expected, actual, hosts) == Set::<ModuleIdx>::empty(),
    {
        let order = self.sensitive_order(expected);
        self.lemma_sensitive_order(expected);
        self.lemma_sensitive_order_is_short(actual);
        assert forall|m: ModuleIdx| !#[trigger] self.misplaced(expected, actual, m) by {
            law_stable_positions_are_never_premature(order, at_risk::positions_in(order), m);
        }
        assert(self.at_risk(expected, actual, hosts) =~= Set::<ModuleIdx>::empty());
    }

    proof fn lemma_sensitive_order_is_short(self, order: Seq<ModuleIdx>)
        ensures
            self.sensitive_order(order).len() <= order.len(),
    {
        let sensitive = |m: ModuleIdx| self.order_sensitive(m);
        order.lemma_filter_len(sensitive);
        seqs::lemma_distinct_is_short(order.filter(sensitive));
    }

    /// An eligible sensitive module that is evaluated before one that it is expected behind is put
    /// at risk.
    pub proof fn law_reordering_is_noticed(
        self,
        expected: Seq<ModuleIdx>,
        actual: Seq<ModuleIdx>,
        hosts: Map<ModuleIdx, ModuleIdx>,
        i: int,
        j: int,
    )
        requires
            actual.len() <= usize::MAX,
            0 <= i < j < self.sensitive_order(expected).len(),
            self.sensitive_order(actual).contains(self.sensitive_order(expected)[i]),
            self.sensitive_order(actual).contains(self.sensitive_order(expected)[j]),
            self.sensitive_order(actual).index_of(self.sensitive_order(expected)[j])
                < self.sensitive_order(actual).index_of(self.sensitive_order(expected)[i]),
            self.wrap_eligible(self.sensitive_order(expected)[j]),
        ensures
            self.at_risk(expected, actual, hosts).contains(self.sensitive_order(expected)[j]),
    {
        let wanted = self.sensitive_order(expected);
        let found = self.sensitive_order(actual);
        let positions = at_risk::positions_in(found);
        self.lemma_sensitive_order_is_short(actual);
        let early = wanted[j];
        let late = wanted[i];
        assert(positions[early] < positions[late]);
        assert(at_risk::premature(wanted, positions, early));
        assert(self.misplaced(expected, actual, early));
        assert(self.lever(hosts, early) == Some(early));
    }

    /// A sensitive module that only one of the two orders evaluates is put at risk, or the module
    /// that leads to it.
    pub proof fn law_missing_modules_are_noticed(
        self,
        expected: Seq<ModuleIdx>,
        actual: Seq<ModuleIdx>,
        hosts: Map<ModuleIdx, ModuleIdx>,
        m: ModuleIdx,
    )
        requires
            self.order_sensitive(m),
            expected.contains(m) != actual.contains(m),
            self.lever(hosts, m) is Some,
        ensures
            self.at_risk(expected, actual, hosts).contains(self.lever(hosts, m)->0),
    {
        self.lemma_sensitive_order(expected);
        self.lemma_sensitive_order(actual);
        assert(self.misplaced(expected, actual, m));
    }

    /// A sensitive module that the source evaluates only after another one, and that the chunks
    /// evaluate before it, is put at risk. If it cannot be delayed, the module that leads to it is.
    pub proof fn law_early_modules_are_at_risk(
        self,
        expected: Seq<ModuleIdx>,
        actual: Seq<ModuleIdx>,
        hosts: Map<ModuleIdx, ModuleIdx>,
        a: int,
        b: int,
    )
        requires
            actual.len() <= usize::MAX,
            0 <= a < expected.len(),
            0 <= b < actual.len(),
            self.order_sensitive(expected[a]),
            self.order_sensitive(actual[b]),
            expected.contains(actual[b]),
            actual.contains(expected[a]),
            forall|k: int| 0 <= k <= a ==> expected[k] != actual[b],
            forall|k: int| 0 <= k <= b ==> actual[k] != expected[a],
        ensures
            self.wrap_eligible(actual[b]) ==> self.at_risk(expected, actual, hosts).contains(
                actual[b],
            ),
            !self.wrap_eligible(actual[b]) && hosts.contains_key(actual[b]) && self.wrap_eligible(
                hosts[actual[b]],
            ) ==> self.at_risk(expected, actual, hosts).contains(hosts[actual[b]]),
    {
        let sensitive = |m: ModuleIdx| self.order_sensitive(m);
        let wanted = self.sensitive_order(expected);
        let found = self.sensitive_order(actual);
        let positions = at_risk::positions_in(found);
        let early = actual[b];
        let late = expected[a];
        self.lemma_sensitive_order(actual);
        self.lemma_sensitive_order_is_short(actual);
        seqs::lemma_first_occurrences(expected, sensitive, a, early);
        seqs::lemma_first_occurrences(actual, sensitive, b, late);
        let (i, j) = choose|i: int, j: int|
            #![trigger wanted[i], wanted[j]]
            0 <= i < j < wanted.len() && wanted[i] == late && wanted[j] == early;
        let (p, q) = choose|p: int, q: int|
            #![trigger found[p], found[q]]
            0 <= p < q < found.len() && found[p] == early && found[q] == late;
        assert(found.contains(early) && found.contains(late));
        assert(found.index_of(early) == p && found.index_of(late) == q);
        assert(positions[early] < positions[late]);
        assert(at_risk::premature(wanted, positions, early));
        assert(self.misplaced(expected, actual, early));
    }

    /// A sensitive module that one order evaluates and the other does not is put at risk. If it
    /// cannot be delayed, the module that leads to it is.
    pub proof fn law_modules_of_one_order_are_at_risk(
        self,
        expected: Seq<ModuleIdx>,
        actual: Seq<ModuleIdx>,
        hosts: Map<ModuleIdx, ModuleIdx>,
        m: ModuleIdx,
    )
        requires
            self.order_sensitive(m),
            expected.contains(m) != actual.contains(m),
        ensures
            self.wrap_eligible(m) ==> self.at_risk(expected, actual, hosts).contains(m),
            !self.wrap_eligible(m) && hosts.contains_key(m) && self.wrap_eligible(hosts[m])
                ==> self.at_risk(expected, actual, hosts).contains(hosts[m]),
    {
        self.lemma_sensitive_order(expected);
        self.lemma_sensitive_order(actual);
        assert(self.misplaced(expected, actual, m));
    }

    /// Nothing else is put at risk. A module at risk can be delayed, and it is a sensitive module
    /// that comes too early or in one order only, or it leads to such a module, which cannot be
    /// delayed.
    pub proof fn law_nothing_else_is_at_risk(
        self,
        expected: Seq<ModuleIdx>,
        actual: Seq<ModuleIdx>,
        hosts: Map<ModuleIdx, ModuleIdx>,
        x: ModuleIdx,
    ) -> (found: (ModuleIdx, int, int))
        requires
            actual.len() <= usize::MAX,
            self.at_risk(expected, actual, hosts).contains(x),
        ensures
            self.wrap_eligible(x),
            x == found.0 || (!self.wrap_eligible(found.0) && hosts.contains_key(found.0)
                && hosts[found.0] == x),
            self.order_sensitive(found.0),
            expected.contains(found.0) == actual.contains(found.0) ==> {
                &&& 0 <= found.1 < expected.len()
                &&& 0 <= found.2 < actual.len()
                &&& actual[found.2] == found.0
                &&& self.order_sensitive(expected[found.1])
                &&& expected.contains(found.0)
                &&& actual.contains(expected[found.1])
                &&& forall|k: int| 0 <= k <= found.1 ==> expected[k] != found.0
                &&& forall|k: int| 0 <= k <= found.2 ==> actual[k] != expected[found.1]
            },
    {
        let sensitive = |m: ModuleIdx| self.order_sensitive(m);
        let wanted = self.sensitive_order(expected);
        let found = self.sensitive_order(actual);
        let positions = at_risk::positions_in(found);
        let m = choose|m: ModuleIdx| #[trigger]
            self.misplaced(expected, actual, m) && self.lever(hosts, m) == Some(x);
        self.lemma_sensitive_order(expected);
        self.lemma_sensitive_order(actual);
        self.lemma_sensitive_order_is_short(actual);
        if at_risk::premature(wanted, positions, m) {
            let (i, j) = choose|i: int, j: int|
                #![trigger wanted[i], wanted[j]]
                {
                    &&& 0 <= i < j < wanted.len()
                    &&& wanted[j] == m
                    &&& positions.contains_key(wanted[i])
                    &&& positions.contains_key(m)
                    &&& positions[m] < positions[wanted[i]]
                };
            let late = wanted[i];
            assert(wanted.contains(late) && wanted.contains(m));
            assert(found.contains(late) && found.contains(m));
            let p = found.index_of(m);
            let q = found.index_of(late);
            let a = seqs::lemma_occurs_first(expected, sensitive, i, j);
            let b = seqs::lemma_occurs_first(actual, sensitive, p, q);
            (m, a, b)
        } else {
            (m, 0, 0)
        }
    }

    /// Only eligible modules are put at risk.
    pub proof fn law_only_eligible_modules_are_at_risk(
        self,
        expected: Seq<ModuleIdx>,
        actual: Seq<ModuleIdx>,
        hosts: Map<ModuleIdx, ModuleIdx>,
        x: ModuleIdx,
    )
        requires
            self.at_risk(expected, actual, hosts).contains(x),
        ensures
            self.wrap_eligible(x),
    {
    }
}

/// Where positions grow along the expected order, no module is premature.
pub proof fn law_stable_positions_are_never_premature(
    expected: Seq<ModuleIdx>,
    positions: Map<ModuleIdx, usize>,
    m: ModuleIdx,
)
    requires
        forall|i: int, j: int|
            #![trigger expected[i], expected[j]]
            0 <= i < j < expected.len() && positions.contains_key(expected[i])
                && positions.contains_key(expected[j]) ==> positions[expected[i]]
                <= positions[expected[j]],
    ensures
        !at_risk::premature(expected, positions, m),
{
}

impl ChunkGraph {
    /// No module is evaluated twice, and only modules with a body are.
    pub proof fn law_actual_order_repeats_nothing(
        self,
        link: LinkStageOutput,
        chunk_imports: Seq<Seq<ChunkIdx>>,
        root: ModuleIdx,
        root_chunk: ChunkIdx,
    )
        requires
            link.wf(),
        ensures
            self.actual_order(link, chunk_imports, root, root_chunk).no_duplicates(),
            forall|m: ModuleIdx| #[trigger]
                self.actual_order(link, chunk_imports, root, root_chunk).contains(m)
                    ==> link.runnable(m),
    {
        let graph = link.call_graph();
        let list = self.evaluated(link, chunk_imports, root, root_chunk);
        let order = self.actual_order(link, chunk_imports, root, root_chunk);
        link.lemma_call_graph_wf();
        self.lemma_evaluated_is_runnable(link, chunk_imports, root, root_chunk);
        assert(graph.holds_all(list)) by {
            assert forall|i: int| 0 <= i < list.len() implies graph.nodes.contains(
                #[trigger] list[i],
            ) by {
                assert(list.contains(list[i]));
            }
        }
        graph.lemma_walk_basics(list, Set::empty());
        graph.lemma_walk_reaches(list, Set::empty());
        let runnable = Set::new(|m: ModuleIdx| link.runnable(m));
        assert(reach::closed_under(graph.edge(), runnable)) by {
            assert forall|a: ModuleIdx, b: ModuleIdx| #[trigger]
                runnable.contains(a) && #[trigger] graph.edge()(a, b) implies runnable.contains(
                b,
            ) by {
                link::lemma_picked_from(link.records(a), link.call_pick(), 0);
                assert(link.calls(a).contains(b));
            }
        }
        assert forall|m: ModuleIdx| #[trigger] order.contains(m) implies link.runnable(m) by {
            let i = choose|i: int|
                0 <= i < list.len() && reach::reaches(graph.edge(), #[trigger] list[i], m);
            assert(list.contains(list[i]));
            assert(runnable.contains(list[i]));
            reach::lemma_closed_contains_reachable(graph.edge(), runnable, list[i], m);
        }
    }

    proof fn lemma_evaluated_is_runnable(
        self,
        link: LinkStageOutput,
        chunk_imports: Seq<Seq<ChunkIdx>>,
        root: ModuleIdx,
        root_chunk: ChunkIdx,
    )
        ensures
            forall|m: ModuleIdx| #[trigger]
                self.evaluated(link, chunk_imports, root, root_chunk).contains(m) ==> link.runnable(
                    m,
                ),
    {
        let chunks = actual_order::import_graph(chunk_imports).walk(
            seq![root_chunk],
            Set::empty(),
        ).order;
        let called: Seq<ModuleIdx> = if link.unwrapped(root) {
            Seq::empty()
        } else {
            seq![root]
        };
        seqs::lemma_filter_members(
            self.eager_modules(link, chunks) + called,
            |m: ModuleIdx| link.runnable(m),
        );
    }

    /// No two chunks have the same place in the execution order.
    pub open spec fn executes_one_at_a_time(self) -> bool {
        forall|c: int, d: int|
            #![trigger self.chunk_table@[c], self.chunk_table@[d]]
            0 <= c < self.chunk_table@.len() && 0 <= d < self.chunk_table@.len()
                && self.chunk_table@[c].exec_order == self.chunk_table@[d].exec_order ==> c == d
    }

    /// Where no two chunks are executed at the same moment, the imports of a chunk can be listed in
    /// one way only.
    pub proof fn law_import_order_is_unique(
        self,
        import_edges: Seq<FxHashSet<ChunkIdx>>,
        first: Seq<Seq<ChunkIdx>>,
        second: Seq<Seq<ChunkIdx>>,
    )
        requires
            self.lists_imports(import_edges, first),
            self.lists_imports(import_edges, second),
            import_edges.len() == self.chunk_table@.len(),
            chunk_cycles::imports_wf(import_edges),
            self.executes_one_at_a_time(),
        ensures
            first == second,
    {
        assert(self.chunk_table@.len() == self.chunk_table.len());
        assert forall|c: int| 0 <= c < first.len() implies first[c] == second[c] by {
            assert(second[c].no_duplicates());
            assert forall|k: int| 0 <= k < first[c].len() implies (#[trigger] first[c][k])
                < self.chunk_table@.len() by {
                assert(first[c].to_set().contains(first[c][k]));
                assert(chunk_cycles::imports(import_edges)(c as usize, first[c][k]));
            }
            self.lemma_sorted_is_unique(first[c], second[c]);
        }
        assert(first =~= second);
    }

    proof fn lemma_sorted_is_unique(self, a: Seq<ChunkIdx>, b: Seq<ChunkIdx>)
        requires
            a.no_duplicates(),
            b.no_duplicates(),
            a.to_set() == b.to_set(),
            self.by_exec_order(a),
            self.by_exec_order(b),
            forall|k: int| 0 <= k < a.len() ==> (#[trigger] a[k]) < self.chunk_table@.len(),
            self.executes_one_at_a_time(),
        ensures
            a == b,
        decreases a.len(),
    {
        if a.len() == 0 {
            if b.len() > 0 {
                assert(b.to_set().contains(b[0]));
                assert(a.contains(b[0]));
            }
            assert(a =~= b);
        } else {
            assert(a.to_set().contains(a[0]));
            assert(b.contains(a[0]));
            assert(b.to_set().contains(b[0]));
            assert(a.contains(b[0]));
            let i = a.index_of(b[0]);
            let j = b.index_of(a[0]);
            assert(a[0] < self.chunk_table@.len() && a[i] < self.chunk_table@.len());
            assert(self.chunk_table@[a[0] as int].exec_order
                <= self.chunk_table@[a[i] as int].exec_order);
            assert(self.chunk_table@[b[0] as int].exec_order
                <= self.chunk_table@[b[j] as int].exec_order);
            assert(a[0] == b[0]);
            let rest_a = a.drop_first();
            let rest_b = b.drop_first();
            assert forall|x: ChunkIdx| #[trigger] rest_a.contains(x) <==> a.contains(x) && x
                != a[0] by {
                lemma_rest_members(a, x);
            }
            assert forall|x: ChunkIdx| #[trigger] rest_b.contains(x) <==> b.contains(x) && x
                != b[0] by {
                lemma_rest_members(b, x);
            }
            assert forall|x: ChunkIdx| rest_a.contains(x) <==> #[trigger] rest_b.contains(x) by {
                assert(a.to_set().contains(x) <==> a.contains(x));
                assert(b.to_set().contains(x) <==> b.contains(x));
            }
            assert(rest_a.to_set() =~= rest_b.to_set());
            assert(self.by_exec_order(rest_a)) by {
                assert forall|k: int, l: int|
                    0 <= k <= l
                        < rest_a.len() implies self.chunk_table@[#[trigger] rest_a[k] as int].exec_order
                    <= self.chunk_table@[#[trigger] rest_a[l] as int].exec_order by {
                    assert(rest_a[k] == a[k + 1] && rest_a[l] == a[l + 1]);
                }
            }
            assert(self.by_exec_order(rest_b)) by {
                assert forall|k: int, l: int|
                    0 <= k <= l
                        < rest_b.len() implies self.chunk_table@[#[trigger] rest_b[k] as int].exec_order
                    <= self.chunk_table@[#[trigger] rest_b[l] as int].exec_order by {
                    assert(rest_b[k] == b[k + 1] && rest_b[l] == b[l + 1]);
                }
            }
            self.lemma_sorted_is_unique(rest_a, rest_b);
            assert(a =~= seq![a[0]] + rest_a);
            assert(b =~= seq![b[0]] + rest_b);
        }
    }
}

proof fn lemma_rest_members(s: Seq<ChunkIdx>, x: ChunkIdx)
    requires
        s.len() > 0,
        s.no_duplicates(),
    ensures
        s.drop_first().contains(x) <==> s.contains(x) && x != s[0],
{
    let rest = s.drop_first();
    if rest.contains(x) {
        let i = rest.index_of(x);
        assert(s[i + 1] == x);
    }
    if s.contains(x) && x != s[0] {
        let i = s.index_of(x);
        assert(rest[i - 1] == x);
    }
}

} // verus!
