//! Marks that a depth-first traversal leaves on nodes.

use vstd::prelude::*;

use crate::indices;

verus! {

/// How far a depth-first traversal has come with a node.
#[derive(Debug, Clone, Copy, PartialEq, Eq, Structural)]
pub enum VisitState {
    Unvisited,
    Visiting,
    Done,
}

/// The nodes that a traversal has come to.
pub open spec fn visited(states: Seq<VisitState>) -> Set<usize> {
    Set::new(|i: usize| i < states.len() && states[i as int] != VisitState::Unvisited)
}

/// The states after a traversal that started from `before` is done with every node in `reached`.
pub open spec fn finished(before: Seq<VisitState>, reached: Set<usize>) -> Seq<VisitState> {
    Seq::new(
        before.len(),
        |i: int|
            if before[i] == VisitState::Unvisited && reached.contains(i as usize) {
                VisitState::Done
            } else {
                before[i]
            },
    )
}

/// `count` nodes that no traversal has come to.
pub fn unvisited_states(count: usize) -> (states: Vec<VisitState>)
    ensures
        states@ == Seq::new(count as nat, |i: int| VisitState::Unvisited),
        visited(states@) == Set::<usize>::empty(),
{
    let mut states: Vec<VisitState> = Vec::new();
    let mut i: usize = 0;
    while i < count
        invariant
            i <= count,
            states@ == Seq::new(i as nat, |k: int| VisitState::Unvisited),
        decreases count - i,
    {
        states.push(VisitState::Unvisited);
        i = i + 1;
    }
    assert(visited(states@) =~= Set::empty());
    states
}

/// After a traversal that ends with `reached` visited, exactly `reached` is visited.
pub proof fn lemma_finished(before: Seq<VisitState>, reached: Set<usize>)
    requires
        before.len() <= usize::MAX,
        visited(before).subset_of(reached),
        reached.subset_of(indices::below(before.len())),
    ensures
        finished(before, reached).len() == before.len(),
        visited(finished(before, reached)) == reached,
{
    assert(visited(finished(before, reached)) =~= reached);
}

/// A traversal that goes on where another stopped.
pub proof fn lemma_finished_twice(
    before: Seq<VisitState>,
    reached: Set<usize>,
    reached_later: Set<usize>,
)
    requires
        reached.subset_of(reached_later),
    ensures
        finished(finished(before, reached), reached_later) == finished(before, reached_later),
{
    assert(finished(finished(before, reached), reached_later) =~= finished(before, reached_later));
}

} // verus!
