//! The set of modules to wrap, and what the analysis hands on.

use rustc_hash::FxHashSet;
use vstd::prelude::*;

use crate::chunks::ChunkIdx;
use crate::fx;
use crate::link::ModuleIdx;

verus! {

/// The modules that are given an order wrapper.
#[derive(Debug)]
pub struct OrderWrapPlan {
    modules: FxHashSet<ModuleIdx>,
}

impl View for OrderWrapPlan {
    type V = Set<ModuleIdx>;

    closed spec fn view(&self) -> Set<ModuleIdx> {
        self.modules@
    }
}

impl Default for OrderWrapPlan {
    /// The plan that wraps nothing.
    fn default() -> (plan: Self)
        ensures
            plan@ == Set::<ModuleIdx>::empty(),
    {
        OrderWrapPlan { modules: FxHashSet::default() }
    }
}

impl OrderWrapPlan {
    /// Adds a module, and says whether it was missing before.
    pub fn insert(&mut self, module_idx: ModuleIdx) -> (added: bool)
        ensures
            final(self)@ == old(self)@.insert(module_idx),
            added == !old(self)@.contains(module_idx),
    {
        fx::set_insert(&mut self.modules, module_idx)
    }

    /// Whether the plan wraps the module.
    pub fn contains(&self, module_idx: &ModuleIdx) -> (found: bool)
        ensures
            found == self@.contains(*module_idx),
    {
        fx::set_contains(&self.modules, *module_idx)
    }

    /// Whether the plan wraps nothing.
    pub fn is_empty(&self) -> (empty: bool)
        ensures
            empty == self@.is_empty(),
    {
        self.modules.is_empty()
    }

    /// The number of modules that the plan wraps.
    pub fn len(&self) -> (len: usize)
        ensures
            len == self@.len(),
    {
        fx::set_len(&self.modules)
    }

    /// The modules that the plan wraps, each once, in no promised order.
    pub fn modules(&self) -> (modules: Vec<ModuleIdx>)
        ensures
            modules@.no_duplicates(),
            modules@.to_set() == self@,
    {
        fx::set_items(&self.modules)
    }
}

/// An entry module and the order in which the source evaluates the kept modules behind it.
#[derive(Debug)]
pub struct RootOrderAnalysis {
    pub root: ModuleIdx,
    pub expected_order: Vec<ModuleIdx>,
}

/// One round of the search for cycles that wrapping itself causes.
#[derive(Debug, Clone, Copy, PartialEq, Eq, Structural)]
pub struct FixpointRound {
    /// The number of cycles of chunks under the plan of this round.
    pub emergent_cycles: usize,
    /// How many modules the round put at risk.
    pub added: usize,
    /// How many modules are at risk after the round.
    pub at_risk: usize,
}

/// How the analysis came to its plan.
#[derive(Debug)]
pub struct FixpointTrace {
    /// The number of modules in the first plan.
    pub one_shot_planned: usize,
    /// The number of cycles of chunks before anything is wrapped.
    pub pre_lowering_cycles: usize,
    pub rounds: Vec<FixpointRound>,
}

/// What the analysis decided.
#[derive(Debug)]
pub struct OrderAnalysis {
    pub plan: OrderWrapPlan,
    /// For each chunk, the chunks that it imports statically before anything is wrapped.
    pub import_edges: Vec<FxHashSet<ChunkIdx>>,
    /// How the plan came about, where it was not simply everything.
    pub trace: Option<FixpointTrace>,
}

} // verus!
