//! Depth-first post-order over a graph whose successors are listed in order.

use vstd::prelude::*;

use crate::reach;

verus! {

/// A finite directed graph. `succ` lists the successors of a node in the order in which they are
/// visited.
#[verifier::reject_recursive_types(N)]
pub struct Digraph<N> {
    pub nodes: Set<N>,
    pub succ: spec_fn(N) -> Seq<N>,
}

/// Outcome of a depth-first walk: every node visited so far, and the nodes that this walk finished,
/// in the order in which it finished them.
#[verifier::reject_recursive_types(N)]
#[verifier::ext_equal]
pub struct Walk<N> {
    pub visited: Set<N>,
    pub order: Seq<N>,
}

impl<N> Digraph<N> {
    pub open spec fn edge(self) -> spec_fn(N, N) -> bool {
        |a: N, b: N| (self.succ)(a).contains(b)
    }

    pub open spec fn wf(self) -> bool {
        &&& self.nodes.finite()
        &&& forall|n: N, i: int|
            self.nodes.contains(n) && 0 <= i < (self.succ)(n).len() ==> self.nodes.contains(
                #[trigger] (self.succ)(n)[i],
            )
    }

    pub open spec fn holds_all(self, list: Seq<N>) -> bool {
        forall|i: int| 0 <= i < list.len() ==> self.nodes.contains(#[trigger] list[i])
    }

    /// Visits the nodes of `list` in turn, at most `depth` levels deep. A node that was visited
    /// before is skipped. Any other node is marked, then its successors are walked, then the node
    /// itself is finished.
    pub open spec fn walk_bounded(self, list: Seq<N>, visited: Set<N>, depth: nat) -> Walk<N>
        decreases depth, list.len(),
    {
        if list.len() == 0 {
            Walk { visited, order: Seq::empty() }
        } else if visited.contains(list[0]) {
            self.walk_bounded(list.drop_first(), visited, depth)
        } else if depth == 0 {
            Walk { visited, order: Seq::empty() }
        } else {
            let below = self.walk_bounded(
                (self.succ)(list[0]),
                visited.insert(list[0]),
                (depth - 1) as nat,
            );
            let after = self.walk_bounded(list.drop_first(), below.visited, depth);
            Walk { visited: after.visited, order: below.order.push(list[0]) + after.order }
        }
    }

    /// The depth-first walk over `list`. Each level visits a node that no outer level visited, so
    /// the number of nodes bounds the depth.
    pub open spec fn walk(self, list: Seq<N>, visited: Set<N>) -> Walk<N> {
        self.walk_bounded(list, visited, self.nodes.len())
    }

    proof fn lemma_bounded_basics(self, list: Seq<N>, visited: Set<N>, depth: nat)
        requires
            self.wf(),
            self.holds_all(list),
            visited.subset_of(self.nodes),
        ensures
            ({
                let w = self.walk_bounded(list, visited, depth);
                &&& visited.subset_of(w.visited)
                &&& w.visited.subset_of(self.nodes)
                &&& w.visited =~= visited + w.order.to_set()
                &&& w.order.no_duplicates()
                &&& forall|i: int|
                    0 <= i < w.order.len() ==> !visited.contains(#[trigger] w.order[i])
            }),
        decreases depth, list.len(),
    {
        if list.len() == 0 {
        } else if visited.contains(list[0]) {
            assert(self.holds_all(list.drop_first()));
            self.lemma_bounded_basics(list.drop_first(), visited, depth);
        } else if depth == 0 {
        } else {
            let head = list[0];
            assert(self.nodes.contains(head));
            let rest = list.drop_first();
            assert(self.holds_all(rest));
            assert(self.holds_all((self.succ)(head)));
            let marked = visited.insert(head);
            self.lemma_bounded_basics((self.succ)(head), marked, (depth - 1) as nat);
            let below = self.walk_bounded((self.succ)(head), marked, (depth - 1) as nat);
            self.lemma_bounded_basics(rest, below.visited, depth);
            let after = self.walk_bounded(rest, below.visited, depth);
            let w = self.walk_bounded(list, visited, depth);
            let left = below.order.push(head);
            assert(w.order == left + after.order);
            assert forall|i: int| 0 <= i < w.order.len() implies !visited.contains(
                #[trigger] w.order[i],
            ) by {
                if i < below.order.len() {
                    assert(w.order[i] == below.order[i]);
                } else if i == below.order.len() {
                    assert(w.order[i] == head);
                } else {
                    assert(w.order[i] == after.order[i - left.len()]);
                }
            }
            assert(w.order.no_duplicates()) by {
                assert forall|i: int, j: int|
                    0 <= i < w.order.len() && 0 <= j < w.order.len() && i != j implies w.order[i]
                    != w.order[j] by {
                    lemma_split_no_duplicates(below.order, head, after.order, below.visited, i, j);
                }
            }
            assert(w.visited =~= visited + w.order.to_set()) by {
                assert forall|x: N| #[trigger] w.visited.contains(x) implies visited.contains(x)
                    || w.order.contains(x) by {
                    if below.order.contains(x) {
                        let i = below.order.index_of(x);
                        assert(w.order[i] == x);
                    } else if x == head {
                        assert(w.order[below.order.len() as int] == x);
                    } else if after.order.contains(x) {
                        let i = after.order.index_of(x);
                        assert(w.order[left.len() + i] == x);
                    } else {
                        assert(after.order.to_set().contains(x) == after.order.contains(x));
                        assert(below.order.to_set().contains(x) == below.order.contains(x));
                    }
                }
                assert forall|x: N| #[trigger] w.order.contains(x) implies w.visited.contains(
                    x,
                ) by {
                    let i = w.order.index_of(x);
                    if i < below.order.len() {
                        assert(below.order[i] == x);
                        assert(below.order.to_set().contains(x));
                    } else if i > below.order.len() {
                        assert(after.order[i - left.len()] == x);
                        assert(after.order.to_set().contains(x));
                    }
                }
            }
        }
    }

    proof fn lemma_depth_is_enough(self, list: Seq<N>, visited: Set<N>, d1: nat, d2: nat)
        requires
            self.wf(),
            self.holds_all(list),
            visited.subset_of(self.nodes),
            d1 + visited.len() >= self.nodes.len(),
            d2 + visited.len() >= self.nodes.len(),
        ensures
            self.walk_bounded(list, visited, d1) == self.walk_bounded(list, visited, d2),
        decreases d1, list.len(),
    {
        if list.len() == 0 {
        } else {
            let head = list[0];
            let rest = list.drop_first();
            assert(self.holds_all(rest));
            assert(self.nodes.contains(head));
            vstd::set_lib::lemma_set_subset_finite(self.nodes, visited);
            if visited.contains(head) {
                self.lemma_depth_is_enough(rest, visited, d1, d2);
            } else {
                let marked = visited.insert(head);
                vstd::set_lib::lemma_len_subset(marked, self.nodes);
                assert(self.holds_all((self.succ)(head)));
                self.lemma_depth_is_enough(
                    (self.succ)(head),
                    marked,
                    (d1 - 1) as nat,
                    (d2 - 1) as nat,
                );
                self.lemma_bounded_basics((self.succ)(head), marked, (d1 - 1) as nat);
                let below = self.walk_bounded((self.succ)(head), marked, (d1 - 1) as nat);
                vstd::set_lib::lemma_set_subset_finite(self.nodes, below.visited);
                vstd::set_lib::lemma_len_subset(visited, below.visited);
                self.lemma_depth_is_enough(rest, below.visited, d1, d2);
            }
        }
    }

    /// What a walk adds to the visited nodes is exactly what it finishes, each node once.
    pub proof fn lemma_walk_basics(self, list: Seq<N>, visited: Set<N>)
        requires
            self.wf(),
            self.holds_all(list),
            visited.subset_of(self.nodes),
        ensures
            visited.subset_of(self.walk(list, visited).visited),
            self.walk(list, visited).visited.subset_of(self.nodes),
            self.walk(list, visited).visited == visited + self.walk(list, visited).order.to_set(),
            self.walk(list, visited).order.no_duplicates(),
            forall|i: int|
                0 <= i < self.walk(list, visited).order.len() ==> !visited.contains(
                    #[trigger] self.walk(list, visited).order[i],
                ),
    {
        self.lemma_bounded_basics(list, visited, self.nodes.len());
    }

    /// One step of a walk.
    pub proof fn lemma_walk_step(self, list: Seq<N>, visited: Set<N>)
        requires
            self.wf(),
            self.holds_all(list),
            visited.subset_of(self.nodes),
        ensures
            list.len() == 0 ==> self.walk(list, visited) == (Walk {
                visited,
                order: Seq::<N>::empty(),
            }),
            list.len() > 0 && visited.contains(list[0]) ==> self.walk(list, visited) == self.walk(
                list.drop_first(),
                visited,
            ),
            list.len() > 0 && !visited.contains(list[0]) ==> ({
                let below = self.walk((self.succ)(list[0]), visited.insert(list[0]));
                let after = self.walk(list.drop_first(), below.visited);
                self.walk(list, visited) == (Walk {
                    visited: after.visited,
                    order: below.order.push(list[0]) + after.order,
                })
            }),
    {
        if list.len() > 0 && !visited.contains(list[0]) {
            let head = list[0];
            assert(self.nodes.contains(head));
            let n = self.nodes.len();
            let marked = visited.insert(head);
            vstd::set_lib::lemma_set_subset_finite(self.nodes, marked);
            vstd::set_lib::lemma_set_subset_finite(self.nodes, visited);
            vstd::set_lib::lemma_len_subset(marked, self.nodes);
            assert(self.holds_all((self.succ)(head)));
            self.lemma_depth_is_enough((self.succ)(head), marked, (n - 1) as nat, n);
        }
    }

    /// Walking two lists one after the other is walking their concatenation.
    pub proof fn lemma_walk_append(self, a: Seq<N>, b: Seq<N>, visited: Set<N>)
        requires
            self.wf(),
            self.holds_all(a),
            self.holds_all(b),
            visited.subset_of(self.nodes),
        ensures
            ({
                let first = self.walk(a, visited);
                let second = self.walk(b, first.visited);
                self.walk(a + b, visited) == (Walk {
                    visited: second.visited,
                    order: first.order + second.order,
                })
            }),
        decreases a.len(),
    {
        assert(self.holds_all(a + b));
        self.lemma_walk_step(a, visited);
        self.lemma_walk_step(a + b, visited);
        if a.len() == 0 {
            assert(a + b =~= b);
            let second = self.walk(b, visited);
            assert(Seq::<N>::empty() + second.order =~= second.order);
        } else {
            let rest = a.drop_first();
            assert(self.holds_all(rest));
            assert((a + b).drop_first() =~= rest + b);
            if visited.contains(a[0]) {
                self.lemma_walk_append(rest, b, visited);
            } else {
                assert(self.nodes.contains(a[0]));
                assert(self.holds_all((self.succ)(a[0])));
                let below = self.walk((self.succ)(a[0]), visited.insert(a[0]));
                self.lemma_walk_basics((self.succ)(a[0]), visited.insert(a[0]));
                self.lemma_walk_append(rest, b, below.visited);
                let after = self.walk(rest, below.visited);
                let second = self.walk(b, after.visited);
                assert(below.order.push(a[0]) + (after.order + second.order) =~= (
                below.order.push(a[0]) + after.order) + second.order);
            }
        }
    }

    /// A walk visits every node of its list, leaves no successor of a finished node unvisited, and
    /// finishes only nodes that its list reaches.
    pub proof fn lemma_walk_reaches(self, list: Seq<N>, visited: Set<N>)
        requires
            self.wf(),
            self.holds_all(list),
            visited.subset_of(self.nodes),
        ensures
            forall|i: int|
                0 <= i < list.len() ==> self.walk(list, visited).visited.contains(
                    #[trigger] list[i],
                ),
            forall|x: N, y: N|
                self.walk(list, visited).order.contains(x) && #[trigger] self.edge()(x, y)
                    ==> self.walk(list, visited).visited.contains(y),
            forall|x: N| #[trigger]
                self.walk(list, visited).order.contains(x) ==> exists|i: int|
                    0 <= i < list.len() && reach::reaches(self.edge(), #[trigger] list[i], x),
        decreases self.nodes.len() - visited.len(), list.len(),
    {
        self.lemma_walk_step(list, visited);
        if list.len() > 0 {
            let head = list[0];
            let rest = list.drop_first();
            let w = self.walk(list, visited);
            assert(self.nodes.contains(head));
            assert(self.holds_all(rest));
            vstd::set_lib::lemma_set_subset_finite(self.nodes, visited);
            vstd::set_lib::lemma_len_subset(visited, self.nodes);
            if visited.contains(head) {
                self.lemma_walk_reaches(rest, visited);
                self.lemma_walk_basics(rest, visited);
                assert forall|i: int| 0 <= i < list.len() implies w.visited.contains(
                    #[trigger] list[i],
                ) by {
                    if i > 0 {
                        assert(list[i] == rest[i - 1]);
                    }
                }
                assert forall|x: N| #[trigger] w.order.contains(x) implies exists|i: int|
                    0 <= i < list.len() && reach::reaches(self.edge(), #[trigger] list[i], x) by {
                    let i = choose|i: int|
                        0 <= i < rest.len() && reach::reaches(self.edge(), #[trigger] rest[i], x);
                    assert(list[i + 1] == rest[i]);
                }
            } else {
                let marked = visited.insert(head);
                let succ = (self.succ)(head);
                assert(self.holds_all(succ));
                vstd::set_lib::lemma_set_subset_finite(self.nodes, marked);
                vstd::set_lib::lemma_len_subset(marked, self.nodes);
                self.lemma_walk_reaches(succ, marked);
                self.lemma_walk_basics(succ, marked);
                let below = self.walk(succ, marked);
                vstd::set_lib::lemma_set_subset_finite(self.nodes, below.visited);
                vstd::set_lib::lemma_len_subset(marked, below.visited);
                vstd::set_lib::lemma_len_subset(below.visited, self.nodes);
                self.lemma_walk_reaches(rest, below.visited);
                self.lemma_walk_basics(rest, below.visited);
                let after = self.walk(rest, below.visited);
                assert forall|i: int| 0 <= i < list.len() implies w.visited.contains(
                    #[trigger] list[i],
                ) by {
                    if i > 0 {
                        assert(list[i] == rest[i - 1]);
                    } else {
                        assert(marked.contains(head));
                    }
                }
                assert forall|x: N, y: N|
                    w.order.contains(x) && #[trigger] self.edge()(x, y) implies w.visited.contains(
                    y,
                ) by {
                    lemma_contains_parts(below.order, head, after.order, x);
                    if x == head {
                        let i = succ.index_of(y);
                        assert(succ[i] == y);
                    }
                }
                assert forall|x: N| #[trigger] w.order.contains(x) implies exists|i: int|
                    0 <= i < list.len() && reach::reaches(self.edge(), #[trigger] list[i], x) by {
                    lemma_contains_parts(below.order, head, after.order, x);
                    if x == head {
                        reach::lemma_reaches_self(self.edge(), head);
                        assert(reach::reaches(self.edge(), list[0], x));
                    } else if below.order.contains(x) {
                        let i = choose|i: int|
                            0 <= i < succ.len() && reach::reaches(
                                self.edge(),
                                #[trigger] succ[i],
                                x,
                            );
                        assert(self.edge()(head, succ[i]));
                        reach::lemma_reaches_edge(self.edge(), head, succ[i]);
                        reach::lemma_reaches_trans(self.edge(), head, succ[i], x);
                        assert(reach::reaches(self.edge(), list[0], x));
                    } else {
                        let i = choose|i: int|
                            0 <= i < rest.len() && reach::reaches(
                                self.edge(),
                                #[trigger] rest[i],
                                x,
                            );
                        assert(list[i + 1] == rest[i]);
                    }
                }
            }
        }
    }

    /// What the first part of a list leads to is finished before what it does not lead to.
    pub proof fn lemma_first_part_finishes_first(
        self,
        first: Seq<N>,
        rest: Seq<N>,
        visited: Set<N>,
        x: N,
        y: N,
    )
        requires
            self.wf(),
            self.holds_all(first),
            self.holds_all(rest),
            visited.subset_of(self.nodes),
            !visited.contains(x),
            self.walk(first, visited).visited.contains(x),
            !self.walk(first, visited).visited.contains(y),
            self.walk(first + rest, visited).visited.contains(y),
        ensures
            exists|i: int, j: int|
                #![trigger self.walk(first + rest, visited).order[i], self.walk(first + rest, visited).order[j]]
                0 <= i < j < self.walk(first + rest, visited).order.len() && self.walk(
                    first + rest,
                    visited,
                ).order[i] == x && self.walk(first + rest, visited).order[j] == y,
    {
        let one = self.walk(first, visited);
        self.lemma_walk_basics(first, visited);
        self.lemma_walk_append(first, rest, visited);
        self.lemma_walk_basics(rest, one.visited);
        let two = self.walk(rest, one.visited);
        let order = self.walk(first + rest, visited).order;
        assert(one.order.to_set().contains(x));
        assert(two.order.to_set().contains(y));
        let i = one.order.index_of(x);
        let j = one.order.len() + two.order.index_of(y);
        assert(order[i] == x && order[j] == y);
    }

    /// A walk visits only what was visited before, what its list names, and what a visited node leads
    /// to.
    proof fn lemma_walk_enters(self, list: Seq<N>, visited: Set<N>)
        requires
            self.wf(),
            self.holds_all(list),
            visited.subset_of(self.nodes),
        ensures
            forall|z: N| #[trigger]
                self.walk(list, visited).visited.contains(z) ==> visited.contains(z)
                    || list.contains(z) || exists|p: N|
                    self.walk(list, visited).visited.contains(p) && #[trigger] self.edge()(p, z),
        decreases self.nodes.len() - visited.len(), list.len(),
    {
        self.lemma_walk_step(list, visited);
        if list.len() > 0 {
            let head = list[0];
            let rest = list.drop_first();
            let w = self.walk(list, visited);
            assert(self.nodes.contains(head));
            assert(self.holds_all(rest));
            assert(list.contains(head));
            assert forall|z: N| #[trigger] rest.contains(z) implies list.contains(z) by {
                assert(list[rest.index_of(z) + 1] == z);
            }
            vstd::set_lib::lemma_set_subset_finite(self.nodes, visited);
            vstd::set_lib::lemma_len_subset(visited, self.nodes);
            if visited.contains(head) {
                self.lemma_walk_enters(rest, visited);
            } else {
                let marked = visited.insert(head);
                let succ = (self.succ)(head);
                assert(self.holds_all(succ));
                vstd::set_lib::lemma_set_subset_finite(self.nodes, marked);
                vstd::set_lib::lemma_len_subset(marked, self.nodes);
                self.lemma_walk_enters(succ, marked);
                self.lemma_walk_basics(succ, marked);
                let below = self.walk(succ, marked);
                vstd::set_lib::lemma_set_subset_finite(self.nodes, below.visited);
                vstd::set_lib::lemma_len_subset(marked, below.visited);
                vstd::set_lib::lemma_len_subset(below.visited, self.nodes);
                self.lemma_walk_enters(rest, below.visited);
                self.lemma_walk_basics(rest, below.visited);
                assert forall|z: N| #[trigger] w.visited.contains(z) implies visited.contains(z)
                    || list.contains(z) || exists|p: N|
                    w.visited.contains(p) && #[trigger] self.edge()(p, z) by {
                    if below.visited.contains(z) && !marked.contains(z) {
                        if succ.contains(z) {
                            assert(w.visited.contains(head) && self.edge()(head, z));
                        } else {
                            let p = choose|p: N|
                                below.visited.contains(p) && #[trigger] self.edge()(p, z);
                            assert(w.visited.contains(p) && self.edge()(p, z));
                        }
                    }
                }
            }
        }
    }

    /// Where a walk finishes a node, it has just walked the successors of the node, with what was
    /// visited before the node was. All of that was finished before, or leads to the node.
    proof fn lemma_walk_inside(self, list: Seq<N>, visited: Set<N>, m: N) -> (found: (Set<N>, int))
        requires
            self.wf(),
            self.holds_all(list),
            visited.subset_of(self.nodes),
            self.walk(list, visited).order.contains(m),
        ensures
            ({
                let order = self.walk(list, visited).order;
                let inner = self.walk((self.succ)(m), found.0.insert(m)).order;
                &&& visited.subset_of(found.0)
                &&& found.0.subset_of(self.nodes)
                &&& self.nodes.contains(m)
                &&& !found.0.contains(m)
                &&& 0 <= found.1
                &&& found.1 + inner.len() < order.len()
                &&& order[found.1 + inner.len()] == m
                &&& order.subrange(found.1, found.1 + inner.len()) == inner
                &&& forall|z: N| #[trigger]
                    found.0.contains(z) ==> visited.contains(z) || order.take(found.1).contains(z)
                        || reach::reaches(self.edge(), z, m)
                &&& forall|z: N| #[trigger]
                    found.0.contains(z) ==> visited.contains(z) || list.contains(z) || exists|p: N|
                        found.0.contains(p) && #[trigger] self.edge()(p, z)
            }),
        decreases self.nodes.len() - visited.len(), list.len(),
    {
        self.lemma_walk_step(list, visited);
        assert(list.len() > 0);
        let head = list[0];
        let rest = list.drop_first();
        let order = self.walk(list, visited).order;
        assert(self.nodes.contains(head));
        assert(self.holds_all(rest));
        assert(list.contains(head));
        assert forall|z: N| #[trigger] rest.contains(z) implies list.contains(z) by {
            assert(list[rest.index_of(z) + 1] == z);
        }
        vstd::set_lib::lemma_set_subset_finite(self.nodes, visited);
        vstd::set_lib::lemma_len_subset(visited, self.nodes);
        if visited.contains(head) {
            self.lemma_walk_inside(rest, visited, m)
        } else {
            let marked = visited.insert(head);
            let succ = (self.succ)(head);
            assert(self.holds_all(succ));
            vstd::set_lib::lemma_set_subset_finite(self.nodes, marked);
            vstd::set_lib::lemma_len_subset(marked, self.nodes);
            self.lemma_walk_basics(succ, marked);
            self.lemma_walk_reaches(succ, marked);
            self.lemma_walk_enters(succ, marked);
            let below = self.walk(succ, marked);
            vstd::set_lib::lemma_set_subset_finite(self.nodes, below.visited);
            vstd::set_lib::lemma_len_subset(marked, below.visited);
            vstd::set_lib::lemma_len_subset(below.visited, self.nodes);
            self.lemma_walk_basics(rest, below.visited);
            let after = self.walk(rest, below.visited);
            let left = below.order.push(head);
            assert(order == left + after.order);
            lemma_contains_parts(below.order, head, after.order, m);
            if m == head {
                assert(order.subrange(0, below.order.len() as int) =~= below.order);
                (visited, 0)
            } else if below.order.contains(m) {
                let (seen, k) = self.lemma_walk_inside(succ, marked, m);
                let inner = self.walk((self.succ)(m), seen.insert(m)).order;
                assert(order.subrange(k, k + inner.len()) =~= below.order.subrange(
                    k,
                    k + inner.len(),
                ));
                assert(order.take(k) =~= below.order.take(k));
                let i = choose|i: int|
                    0 <= i < succ.len() && reach::reaches(self.edge(), #[trigger] succ[i], m);
                assert(self.edge()(head, succ[i]));
                reach::lemma_reaches_edge(self.edge(), head, succ[i]);
                reach::lemma_reaches_trans(self.edge(), head, succ[i], m);
                assert forall|z: N| #[trigger] seen.contains(z) implies visited.contains(z)
                    || list.contains(z) || exists|p: N|
                    seen.contains(p) && #[trigger] self.edge()(p, z) by {
                    if succ.contains(z) {
                        assert(seen.contains(head) && self.edge()(head, z));
                    }
                }
                (seen, k)
            } else {
                let (seen, k) = self.lemma_walk_inside(rest, below.visited, m);
                let inner = self.walk((self.succ)(m), seen.insert(m)).order;
                let shift = left.len() as int;
                assert(order.subrange(shift + k, shift + k + inner.len())
                    =~= after.order.subrange(k, k + inner.len()));
                assert(order[shift + k + inner.len()] == after.order[k + inner.len()]);
                let before = order.take(shift + k);
                assert forall|z: N| #[trigger] seen.contains(z) implies visited.contains(z)
                    || before.contains(z) || reach::reaches(self.edge(), z, m) by {
                    if below.visited.contains(z) && !visited.contains(z) {
                        if z == head {
                            assert(before[below.order.len() as int] == z);
                        } else {
                            assert(below.order.to_set().contains(z));
                            assert(before[below.order.index_of(z)] == z);
                        }
                    } else if after.order.take(k).contains(z) {
                        let i = after.order.take(k).index_of(z);
                        assert(before[shift + i] == z);
                    }
                }
                assert forall|z: N| #[trigger] seen.contains(z) implies visited.contains(z)
                    || list.contains(z) || exists|p: N|
                    seen.contains(p) && #[trigger] self.edge()(p, z) by {
                    if below.visited.contains(z) && !marked.contains(z) {
                        if succ.contains(z) {
                            assert(seen.contains(head) && self.edge()(head, z));
                        } else {
                            let p = choose|p: N|
                                below.visited.contains(p) && #[trigger] self.edge()(p, z);
                            assert(seen.contains(p) && self.edge()(p, z));
                        }
                    }
                }
                (seen, shift + k)
            }
        }
    }

    /// Of two successors of a finished node, the one that is listed first is finished first, if it
    /// does not lead back to the node, if neither it nor one that is listed before it leads to the
    /// other one, and if nothing else leads to that.
    pub proof fn lemma_successors_finish_in_order(
        self,
        list: Seq<N>,
        m: N,
        first: Seq<N>,
        rest: Seq<N>,
        x: N,
        y: N,
    )
        requires
            self.wf(),
            self.holds_all(list),
            self.walk(list, Set::empty()).order.contains(m),
            (self.succ)(m) == first + rest,
            first.contains(x),
            rest.contains(y),
            y != m,
            !reach::reaches(self.edge(), x, m),
            forall|i: int|
                0 <= i < first.len() ==> !reach::reaches(self.edge(), #[trigger] first[i], y),
            !list.contains(y),
            forall|p: N| #[trigger] self.edge()(p, y) ==> p == m,
        ensures
            exists|i: int, j: int|
                #![trigger self.walk(list, Set::empty()).order[i], self.walk(list, Set::empty()).order[j]]
                0 <= i < j < self.walk(list, Set::empty()).order.len() && self.walk(
                    list,
                    Set::empty(),
                ).order[i] == x && self.walk(list, Set::empty()).order[j] == y,
    {
        let none: Set<N> = Set::empty();
        let order = self.walk(list, none).order;
        let (seen, k) = self.lemma_walk_inside(list, none, m);
        let marked = seen.insert(m);
        let succ = first + rest;
        let inner = self.walk(succ, marked);
        assert(self.holds_all(succ)) by {
            assert forall|i: int| 0 <= i < succ.len() implies self.nodes.contains(
                #[trigger] succ[i],
            ) by {
                assert((self.succ)(m)[i] == succ[i]);
            }
        }
        assert(self.holds_all(first)) by {
            assert forall|i: int| 0 <= i < first.len() implies self.nodes.contains(
                #[trigger] first[i],
            ) by {
                assert(succ[i] == first[i]);
            }
        }
        assert(self.holds_all(rest)) by {
            assert forall|i: int| 0 <= i < rest.len() implies self.nodes.contains(
                #[trigger] rest[i],
            ) by {
                assert(succ[first.len() + i] == rest[i]);
            }
        }
        reach::lemma_reaches_self(self.edge(), m);
        assert(x != m);
        assert(!seen.contains(y)) by {
            if seen.contains(y) {
                let p = choose|p: N| seen.contains(p) && #[trigger] self.edge()(p, y);
                assert(p == m);
            }
        }
        self.lemma_walk_basics(succ, marked);
        self.lemma_walk_reaches(succ, marked);
        let place = rest.index_of(y);
        assert(succ[first.len() + place] == y);
        assert(inner.visited.contains(y));
        assert(inner.order.to_set().contains(y));
        assert forall|i: int| 0 <= i < inner.order.len() implies order[k + i]
            == #[trigger] inner.order[i] by {
            assert(order.subrange(k, k + inner.order.len())[i] == inner.order[i]);
        }
        if seen.contains(x) {
            let before = order.take(k);
            let i = before.index_of(x);
            let j = inner.order.index_of(y);
            assert(order[i] == x && order[k + j] == y);
        } else {
            self.lemma_walk_reaches(first, marked);
            self.lemma_walk_basics(first, marked);
            let one = self.walk(first, marked);
            assert(one.visited.contains(first[first.index_of(x)]));
            if one.visited.contains(y) {
                assert(one.order.to_set().contains(y));
                let i = choose|i: int|
                    0 <= i < first.len() && reach::reaches(self.edge(), #[trigger] first[i], y);
            }
            self.lemma_first_part_finishes_first(first, rest, marked, x, y);
            let (i, j) = choose|i: int, j: int|
                #![trigger inner.order[i], inner.order[j]]
                0 <= i < j < inner.order.len() && inner.order[i] == x && inner.order[j] == y;
            assert(order[k + i] == x && order[k + j] == y);
        }
    }

    /// A walk that starts with nothing visited visits exactly what its list reaches.
    pub proof fn lemma_walk_visits_reachable(self, list: Seq<N>)
        requires
            self.wf(),
            self.holds_all(list),
        ensures
            forall|x: N| #[trigger]
                self.walk(list, Set::empty()).visited.contains(x) <==> exists|i: int|
                    0 <= i < list.len() && reach::reaches(self.edge(), #[trigger] list[i], x),
            self.walk(list, Set::empty()).visited == self.walk(list, Set::empty()).order.to_set(),
    {
        let w = self.walk(list, Set::empty());
        self.lemma_walk_basics(list, Set::empty());
        self.lemma_walk_reaches(list, Set::empty());
        assert(w.visited =~= w.order.to_set());
        assert(reach::closed_under(self.edge(), w.visited)) by {
            assert forall|a: N, b: N| #[trigger]
                w.visited.contains(a) && #[trigger] self.edge()(a, b) implies w.visited.contains(
                b,
            ) by {
                assert(w.order.contains(a));
            }
        }
        assert forall|x: N| #[trigger] w.visited.contains(x) <==> exists|i: int|
            0 <= i < list.len() && reach::reaches(self.edge(), #[trigger] list[i], x) by {
            if w.visited.contains(x) {
                assert(w.order.contains(x));
            }
            if exists|i: int| 0 <= i < list.len() && reach::reaches(
                self.edge(),
                #[trigger] list[i],
                x,
            ) {
                let i = choose|i: int|
                    0 <= i < list.len() && reach::reaches(self.edge(), #[trigger] list[i], x);
                reach::lemma_closed_contains_reachable(self.edge(), w.visited, list[i], x);
            }
        }
    }

    /// In the order of a walk, a successor of a node was visited before the walk, or is finished
    /// before the node, or leads back to the node.
    pub proof fn lemma_successor_finishes_first(
        self,
        list: Seq<N>,
        visited: Set<N>,
        j: int,
        s: N,
    )
        requires
            self.wf(),
            self.holds_all(list),
            visited.subset_of(self.nodes),
            0 <= j < self.walk(list, visited).order.len(),
            self.edge()(self.walk(list, visited).order[j], s),
        ensures
            ({
                let order = self.walk(list, visited).order;
                ||| visited.contains(s)
                ||| exists|i: int| 0 <= i < j && #[trigger] order[i] == s
                ||| reach::reaches(self.edge(), s, order[j])
            }),
        decreases self.nodes.len() - visited.len(), list.len(),
    {
        self.lemma_walk_step(list, visited);
        let order = self.walk(list, visited).order;
        let head = list[0];
        let rest = list.drop_first();
        assert(self.nodes.contains(head));
        assert(self.holds_all(rest));
        vstd::set_lib::lemma_set_subset_finite(self.nodes, visited);
        vstd::set_lib::lemma_len_subset(visited, self.nodes);
        if visited.contains(head) {
            self.lemma_successor_finishes_first(rest, visited, j, s);
        } else {
            let marked = visited.insert(head);
            let succ = (self.succ)(head);
            assert(self.holds_all(succ));
            vstd::set_lib::lemma_set_subset_finite(self.nodes, marked);
            vstd::set_lib::lemma_len_subset(marked, self.nodes);
            self.lemma_walk_basics(succ, marked);
            self.lemma_walk_reaches(succ, marked);
            let below = self.walk(succ, marked);
            let after = self.walk(rest, below.visited);
            let n = below.order.len() as int;
            if j < n {
                assert(order[j] == below.order[j]);
                self.lemma_successor_finishes_first(succ, marked, j, s);
                if s == head {
                    assert(below.order.contains(order[j]));
                    let i = choose|i: int|
                        0 <= i < succ.len() && reach::reaches(
                            self.edge(),
                            #[trigger] succ[i],
                            order[j],
                        );
                    assert(self.edge()(head, succ[i]));
                    reach::lemma_reaches_edge(self.edge(), head, succ[i]);
                    reach::lemma_reaches_trans(self.edge(), head, succ[i], order[j]);
                } else if !visited.contains(s) && !reach::reaches(self.edge(), s, order[j]) {
                    let i = choose|i: int| 0 <= i < j && #[trigger] below.order[i] == s;
                    assert(order[i] == s);
                }
            } else if j == n {
                assert(order[j] == head);
                let k = succ.index_of(s);
                assert(succ[k] == s);
                assert(below.visited.contains(s));
                if s == head {
                    reach::lemma_reaches_self(self.edge(), s);
                } else if !visited.contains(s) {
                    assert(below.order.contains(s));
                    let i = below.order.index_of(s);
                    assert(order[i] == s);
                }
            } else {
                vstd::set_lib::lemma_set_subset_finite(self.nodes, below.visited);
                vstd::set_lib::lemma_len_subset(marked, below.visited);
                vstd::set_lib::lemma_len_subset(below.visited, self.nodes);
                assert(order[j] == after.order[j - n - 1]);
                self.lemma_successor_finishes_first(rest, below.visited, j - n - 1, s);
                if reach::reaches(self.edge(), s, order[j]) {
                } else if below.visited.contains(s) {
                    if s == head {
                        assert(order[n] == s);
                    } else if !visited.contains(s) {
                        assert(below.order.contains(s));
                        let i = below.order.index_of(s);
                        assert(order[i] == s);
                    }
                } else {
                    let i = choose|i: int| 0 <= i < j - n - 1 && #[trigger] after.order[i] == s;
                    assert(order[n + 1 + i] == s);
                }
            }
        }
    }
}

proof fn lemma_split_no_duplicates<N>(
    below: Seq<N>,
    head: N,
    after: Seq<N>,
    seen: Set<N>,
    i: int,
    j: int,
)
    requires
        below.no_duplicates(),
        after.no_duplicates(),
        !below.contains(head),
        seen.contains(head),
        forall|k: int| 0 <= k < below.len() ==> seen.contains(#[trigger] below[k]),
        forall|k: int| 0 <= k < after.len() ==> !seen.contains(#[trigger] after[k]),
        0 <= i < below.len() + 1 + after.len(),
        0 <= j < below.len() + 1 + after.len(),
        i != j,
    ensures
        (below.push(head) + after)[i] != (below.push(head) + after)[j],
{
    let whole = below.push(head) + after;
    let n = below.len() as int;
    if i < n {
        assert(whole[i] == below[i]);
    } else if i > n {
        assert(whole[i] == after[i - n - 1]);
    }
    if j < n {
        assert(whole[j] == below[j]);
    } else if j > n {
        assert(whole[j] == after[j - n - 1]);
    }
}

proof fn lemma_contains_parts<N>(below: Seq<N>, head: N, after: Seq<N>, x: N)
    ensures
        (below.push(head) + after).contains(x) <==> below.contains(x) || x == head
            || after.contains(x),
{
    let whole = below.push(head) + after;
    let n = below.len() as int;
    if whole.contains(x) {
        let i = whole.index_of(x);
        if i < n {
            assert(below[i] == x);
        } else if i > n {
            assert(after[i - n - 1] == x);
        }
    }
    if below.contains(x) {
        let i = below.index_of(x);
        assert(whole[i] == x);
    }
    if x == head {
        assert(whole[n] == x);
    }
    if after.contains(x) {
        let i = after.index_of(x);
        assert(whole[n + 1 + i] == x);
    }
}

} // verus!
