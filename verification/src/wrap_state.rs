//! Which modules carry an `init_*` function, and why.

use rustc_hash::FxHashSet;
use vstd::prelude::*;

use crate::fx;
use crate::link::{
    ImportRecordIdx, LinkingMetadata, ModuleIdx, RuntimeHelper, SymbolRef, WrapKind,
};

verus! {

/// Why a module carries an `init_*` function.
#[derive(Debug, Clone, Copy, PartialEq, Eq, Structural)]
pub enum EsmInitOrigin {
    /// The module was wrapped to keep the execution order.
    ExecutionOrder,
    /// Interop wrapped the module.
    Interop,
}

/// The `init_*` function of a module.
#[derive(Debug, Clone, Copy, PartialEq, Eq, Structural)]
pub struct EsmInitTarget {
    pub wrapper_ref: SymbolRef,
    pub origin: EsmInitOrigin,
}

/// The wrapper that keeps a module's execution order.
#[derive(Debug, Clone, Copy, PartialEq, Eq, Structural)]
pub struct OrderWrapper {
    pub wrapper_ref: SymbolRef,
    pub runtime_helper: RuntimeHelper,
}

/// The order wrappers, and the re-export records that a wrapped ancestor walks through.
#[derive(Debug)]
pub struct OrderWrapState {
    /// The wrapper of each module that has one.
    pub order_wrappers: Vec<Option<OrderWrapper>>,
    pub nested_reexport_records: FxHashSet<(ModuleIdx, ImportRecordIdx)>,
}

/// The wrappers as mathematical values.
#[verifier::ext_equal]
pub struct OrderWraps {
    pub order_wrappers: Seq<Option<OrderWrapper>>,
    pub nested_reexport_records: Set<(ModuleIdx, ImportRecordIdx)>,
}

impl View for OrderWrapState {
    type V = OrderWraps;

    open spec fn view(&self) -> OrderWraps {
        OrderWraps {
            order_wrappers: self.order_wrappers@,
            nested_reexport_records: self.nested_reexport_records@,
        }
    }
}

impl OrderWraps {
    pub open spec fn order_wrapper(self, m: ModuleIdx) -> Option<OrderWrapper> {
        if m < self.order_wrappers.len() {
            self.order_wrappers[m as int]
        } else {
            None
        }
    }

    /// The `init_*` function that module `m` carries: that of its order wrapper, or else that of
    /// its ESM interop wrapper.
    pub open spec fn init_target(self, m: ModuleIdx, meta: LinkingMetadata) -> Option<
        EsmInitTarget,
    > {
        match self.order_wrapper(m) {
            Some(wrapper) => Some(
                EsmInitTarget {
                    wrapper_ref: wrapper.wrapper_ref,
                    origin: EsmInitOrigin::ExecutionOrder,
                },
            ),
            None => if meta.wrap_kind == WrapKind::Esm {
                match meta.wrapper_ref {
                    Some(wrapper_ref) => Some(
                        EsmInitTarget { wrapper_ref, origin: EsmInitOrigin::Interop },
                    ),
                    None => None,
                }
            } else {
                None
            },
        }
    }

    /// `m` was wrapped to keep the execution order.
    pub open spec fn order_wrapped(self, m: ModuleIdx, meta: LinkingMetadata) -> bool {
        self.init_target(m, meta) matches Some(target) && target.origin
            == EsmInitOrigin::ExecutionOrder
    }
}

impl OrderWrapState {
    /// A state in which none of `module_count` modules has an order wrapper.
    pub fn with_module_count(module_count: usize) -> (state: Self)
        ensures
            state@.order_wrappers == Seq::new(module_count as nat, |i: int| None::<OrderWrapper>),
            state@.nested_reexport_records == Set::<(ModuleIdx, ImportRecordIdx)>::empty(),
    {
        let mut order_wrappers: Vec<Option<OrderWrapper>> = Vec::new();
        let mut i: usize = 0;
        while i < module_count
            invariant
                i <= module_count,
                order_wrappers@ == Seq::new(i as nat, |k: int| None::<OrderWrapper>),
            decreases module_count - i,
        {
            order_wrappers.push(None);
            i = i + 1;
        }
        OrderWrapState { order_wrappers, nested_reexport_records: FxHashSet::default() }
    }

    /// Gives the module an order wrapper.
    pub fn insert_order_wrapper(
        &mut self,
        module_idx: ModuleIdx,
        wrapper_ref: SymbolRef,
        runtime_helper: RuntimeHelper,
    )
        requires
            module_idx < old(self)@.order_wrappers.len(),
        ensures
            final(self)@.order_wrappers == old(self)@.order_wrappers.update(
                module_idx as int,
                Some(OrderWrapper { wrapper_ref, runtime_helper }),
            ),
            final(self)@.nested_reexport_records == old(self)@.nested_reexport_records,
    {
        self.order_wrappers[module_idx] = Some(OrderWrapper { wrapper_ref, runtime_helper });
    }

    /// The `init_*` function that the module carries, if it carries one.
    pub fn esm_init_target(&self, module_idx: ModuleIdx, meta: &LinkingMetadata) -> (target: Option<
        EsmInitTarget,
    >)
        ensures
            target == self@.init_target(module_idx, *meta),
    {
        if module_idx < self.order_wrappers.len() {
            if let Some(wrapper) = self.order_wrappers[module_idx] {
                return Some(
                    EsmInitTarget {
                        wrapper_ref: wrapper.wrapper_ref,
                        origin: EsmInitOrigin::ExecutionOrder,
                    },
                );
            }
        }
        if meta.wrap_kind == WrapKind::Esm {
            match meta.wrapper_ref {
                Some(wrapper_ref) => Some(
                    EsmInitTarget { wrapper_ref, origin: EsmInitOrigin::Interop },
                ),
                None => None,
            }
        } else {
            None
        }
    }

    /// Whether a wrapped ancestor walks through the record, so that the module's own statement
    /// emits nothing for it.
    pub fn is_nested_reexport_record(
        &self,
        module_idx: ModuleIdx,
        rec_idx: ImportRecordIdx,
    ) -> (nested: bool)
        ensures
            nested == self@.nested_reexport_records.contains((module_idx, rec_idx)),
    {
        fx::pair_set_contains(&self.nested_reexport_records, (module_idx, rec_idx))
    }
}

} // verus!
