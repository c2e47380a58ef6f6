//! Reachability along the edges of a directed graph.

use vstd::prelude::*;

verus! {

/// Whether `path` is non-empty and walks along edges.
pub open spec fn is_path<N>(edge: spec_fn(N, N) -> bool, path: Seq<N>) -> bool {
    &&& path.len() > 0
    &&& forall|i: int, j: int|
        0 <= i && j == i + 1 && j < path.len() ==> edge(#[trigger] path[i], #[trigger] path[j])
}

/// Whether some path, possibly of no edge at all, leads from `a` to `b`.
pub open spec fn reaches<N>(edge: spec_fn(N, N) -> bool, a: N, b: N) -> bool {
    exists|path: Seq<N>| #[trigger] is_path(edge, path) && path[0] == a && path.last() == b
}

/// Whether a path of at least one edge leads from `a` back to `a`.
pub open spec fn on_cycle<N>(edge: spec_fn(N, N) -> bool, a: N) -> bool {
    exists|b: N| edge(a, b) && #[trigger] reaches(edge, b, a)
}

/// Whether each of the two reaches the other.
pub open spec fn strongly_connected<N>(edge: spec_fn(N, N) -> bool, a: N, b: N) -> bool {
    reaches(edge, a, b) && reaches(edge, b, a)
}

/// Whether `set` contains the target of every edge that leaves it.
pub open spec fn closed_under<N>(edge: spec_fn(N, N) -> bool, set: Set<N>) -> bool {
    forall|a: N, b: N| #[trigger] set.contains(a) && #[trigger] edge(a, b) ==> set.contains(b)
}

/// Every edge that leaves `seen` leads into `seen` or to something that is still `pending`.
pub open spec fn closed_up_to<N>(
    edge: spec_fn(N, N) -> bool,
    seen: Set<N>,
    pending: Seq<N>,
) -> bool {
    forall|a: N, b: N| #[trigger]
        seen.contains(a) && #[trigger] edge(a, b) ==> seen.contains(b) || pending.contains(b)
}

pub proof fn lemma_reaches_self<N>(edge: spec_fn(N, N) -> bool, a: N)
    ensures
        reaches(edge, a, a),
{
    let path = seq![a];
    assert(is_path(edge, path));
    assert(path[0] == a && path.last() == a);
}

pub proof fn lemma_reaches_step<N>(edge: spec_fn(N, N) -> bool, a: N, b: N, c: N)
    requires
        reaches(edge, a, b),
        edge(b, c),
    ensures
        reaches(edge, a, c),
{
    let path = choose|path: Seq<N>|
        #[trigger] is_path(edge, path) && path[0] == a && path.last() == b;
    let longer = path.push(c);
    assert(is_path(edge, longer));
    assert(longer[0] == a && longer.last() == c);
}

pub proof fn lemma_reaches_edge<N>(edge: spec_fn(N, N) -> bool, a: N, b: N)
    requires
        edge(a, b),
    ensures
        reaches(edge, a, b),
{
    lemma_reaches_self(edge, a);
    lemma_reaches_step(edge, a, a, b);
}

pub proof fn lemma_reaches_trans<N>(edge: spec_fn(N, N) -> bool, a: N, b: N, c: N)
    requires
        reaches(edge, a, b),
        reaches(edge, b, c),
    ensures
        reaches(edge, a, c),
{
    let left = choose|path: Seq<N>|
        #[trigger] is_path(edge, path) && path[0] == a && path.last() == b;
    let right = choose|path: Seq<N>|
        #[trigger] is_path(edge, path) && path[0] == b && path.last() == c;
    let whole = left + right.drop_first();
    assert forall|i: int, j: int| 0 <= i && j == i + 1 && j < whole.len() implies edge(
        #[trigger] whole[i],
        #[trigger] whole[j],
    ) by {
        if j < left.len() {
            assert(whole[i] == left[i] && whole[j] == left[j]);
        } else {
            let k = j - left.len() + 1;
            assert(whole[j] == right[k]);
            assert(whole[i] == right[k - 1]) by {
                if i == left.len() - 1 {
                    assert(k == 1);
                }
            }
        }
    }
    assert(is_path(edge, whole));
    assert(whole[0] == a);
    assert(whole.last() == c) by {
        if right.len() == 1 {
            assert(whole =~= left);
        }
    }
}

/// A path that goes anywhere leaves along a first edge.
pub proof fn lemma_reaches_first_edge<N>(edge: spec_fn(N, N) -> bool, a: N, b: N) -> (c: N)
    requires
        reaches(edge, a, b),
        a != b,
    ensures
        edge(a, c),
        reaches(edge, c, b),
{
    let path = choose|path: Seq<N>|
        #[trigger] is_path(edge, path) && path[0] == a && path.last() == b;
    let rest = path.drop_first();
    assert(is_path(edge, rest)) by {
        assert forall|i: int, j: int| 0 <= i && j == i + 1 && j < rest.len() implies edge(
            #[trigger] rest[i],
            #[trigger] rest[j],
        ) by {
            assert(rest[i] == path[i + 1] && rest[j] == path[j + 1]);
        }
    }
    assert(rest.last() == b);
    assert(edge(path[0], path[1]));
    rest[0]
}

/// A set that is closed under the edges contains whatever its members reach.
pub proof fn lemma_closed_contains_reachable<N>(
    edge: spec_fn(N, N) -> bool,
    set: Set<N>,
    a: N,
    b: N,
)
    requires
        closed_under(edge, set),
        set.contains(a),
        reaches(edge, a, b),
    ensures
        set.contains(b),
{
    let path = choose|path: Seq<N>|
        #[trigger] is_path(edge, path) && path[0] == a && path.last() == b;
    lemma_closed_contains_path(edge, set, path, path.len() - 1);
}

proof fn lemma_closed_contains_path<N>(
    edge: spec_fn(N, N) -> bool,
    set: Set<N>,
    path: Seq<N>,
    i: int,
)
    requires
        closed_under(edge, set),
        is_path(edge, path),
        set.contains(path[0]),
        0 <= i < path.len(),
    ensures
        set.contains(path[i]),
    decreases i,
{
    if i > 0 {
        lemma_closed_contains_path(edge, set, path, i - 1);
        assert(edge(path[i - 1], path[i]));
    }
}

/// More edges never break a path.
pub proof fn lemma_reaches_monotone<N>(
    edge: spec_fn(N, N) -> bool,
    wider: spec_fn(N, N) -> bool,
    a: N,
    b: N,
)
    requires
        forall|x: N, y: N| #[trigger] edge(x, y) ==> wider(x, y),
        reaches(edge, a, b),
    ensures
        reaches(wider, a, b),
{
    let path = choose|path: Seq<N>|
        #[trigger] is_path(edge, path) && path[0] == a && path.last() == b;
    assert(is_path(wider, path)) by {
        assert forall|i: int, j: int| 0 <= i && j == i + 1 && j < path.len() implies wider(
            #[trigger] path[i],
            #[trigger] path[j],
        ) by {
            assert(edge(path[i], path[j]));
        }
    }
}

} // verus!
