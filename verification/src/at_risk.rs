//! Modules that the emitted chunks would evaluate at another moment than the source.

use rustc_hash::{FxHashMap, FxHashSet};
use vstd::prelude::*;

use crate::fx;
use crate::link::{LinkStageOutput, ModuleIdx};
use crate::seqs;
use crate::stage::GenerateStage;

verus! {

/// `m` runs before a module that is expected to run before it.
pub open spec fn premature(
    expected: Seq<ModuleIdx>,
    positions: Map<ModuleIdx, usize>,
    m: ModuleIdx,
) -> bool {
    exists|i: int, j: int|
        #![trigger expected[i], expected[j]]
        {
            &&& 0 <= i < j < expected.len()
            &&& expected[j] == m
            &&& positions.contains_key(expected[i])
            &&& positions.contains_key(m)
            &&& positions[m] < positions[expected[i]]
        }
}

/// Where each element of `order` stands.
pub open spec fn positions_in(order: Seq<ModuleIdx>) -> Map<ModuleIdx, usize> {
    Map::new(|m: ModuleIdx| order.contains(m), |m: ModuleIdx| order.index_of(m) as usize)
}

impl LinkStageOutput {
    /// The order-sensitive modules of `order`, each where it first occurs.
    pub open spec fn sensitive_order(self, order: Seq<ModuleIdx>) -> Seq<ModuleIdx> {
        seqs::distinct(order.filter(|m: ModuleIdx| self.order_sensitive(m)))
    }

    /// Only one of the two orders evaluates the sensitive module `m`, or `m` comes too early in
    /// the actual one.
    pub open spec fn misplaced(
        self,
        expected: Seq<ModuleIdx>,
        actual: Seq<ModuleIdx>,
        m: ModuleIdx,
    ) -> bool {
        let wanted = self.sensitive_order(expected);
        let found = self.sensitive_order(actual);
        wanted.contains(m) != found.contains(m) || premature(wanted, positions_in(found), m)
    }

    /// The module to delay so that `m` is delayed: `m` itself, or the module that leads to it. An
    /// interop module cannot be delayed itself.
    pub open spec fn lever(self, hosts: Map<ModuleIdx, ModuleIdx>, m: ModuleIdx) -> Option<
        ModuleIdx,
    > {
        if self.wrap_eligible(m) {
            Some(m)
        } else if hosts.contains_key(m) && self.wrap_eligible(hosts[m]) {
            Some(hosts[m])
        } else {
            None
        }
    }

    /// The modules to delay so that every misplaced module is.
    pub open spec fn at_risk(
        self,
        expected: Seq<ModuleIdx>,
        actual: Seq<ModuleIdx>,
        hosts: Map<ModuleIdx, ModuleIdx>,
    ) -> Set<ModuleIdx> {
        Set::new(
            |x: ModuleIdx|
                exists|m: ModuleIdx| #[trigger]
                    self.misplaced(expected, actual, m) && self.lever(hosts, m) == Some(x),
        )
    }

    pub proof fn lemma_sensitive_order(self, order: Seq<ModuleIdx>)
        ensures
            self.sensitive_order(order).no_duplicates(),
            forall|m: ModuleIdx| #[trigger]
                self.sensitive_order(order).contains(m) <==> order.contains(m)
                    && self.order_sensitive(m),
    {
        let sensitive = |m: ModuleIdx| self.order_sensitive(m);
        seqs::lemma_distinct(order.filter(sensitive));
        seqs::lemma_filter_members(order, sensitive);
        assert forall|m: ModuleIdx| #[trigger]
            self.sensitive_order(order).contains(m) <==> order.contains(m) && self.order_sensitive(
                m,
            ) by {
            assert(order.filter(sensitive).contains(m) <==> order.contains(m) && sensitive(m));
        }
    }
}

/// The modules of `expected_sensitive_order` that run before one of their predecessors in it.
/// Modules without a position are passed over.
pub fn premature_sensitive_modules(
    expected_sensitive_order: &[ModuleIdx],
    actual_positions: &FxHashMap<ModuleIdx, usize>,
) -> (premature_modules: FxHashSet<ModuleIdx>)
    ensures
        forall|m: ModuleIdx| #[trigger]
            premature_modules@.contains(m) <==> premature(
                expected_sensitive_order@,
                actual_positions@,
                m,
            ),
{
    let ghost expected = expected_sensitive_order@;
    let ghost positions = actual_positions@;
    let mut premature_modules: FxHashSet<ModuleIdx> = FxHashSet::default();
    let mut latest_predecessor_actual_position: Option<usize> = None;
    let mut k: usize = 0;
    while k < expected_sensitive_order.len()
        invariant
            expected == expected_sensitive_order@,
            positions == actual_positions@,
            k <= expected.len(),
            match latest_predecessor_actual_position {
                Some(latest) => {
                    &&& exists|i: int|
                        0 <= i < k && positions.contains_key(#[trigger] expected[i])
                            && positions[expected[i]] == latest
                    &&& forall|i: int|
                        0 <= i < k && positions.contains_key(#[trigger] expected[i])
                            ==> positions[expected[i]] <= latest
                },
                None => forall|i: int|
                    0 <= i < k ==> !positions.contains_key(#[trigger] expected[i]),
            },
            forall|m: ModuleIdx| #[trigger]
                premature_modules@.contains(m) <==> premature(expected.take(k as int), positions, m),
        decreases expected_sensitive_order.len() - k,
    {
        let module_idx = expected_sensitive_order[k];
        let ghost before = premature_modules@;
        let ghost latest_before = latest_predecessor_actual_position;
        if let Some(actual_position) = fx::map_get(actual_positions, module_idx) {
            match latest_predecessor_actual_position {
                Some(latest) => {
                    if actual_position < latest {
                        fx::set_insert(&mut premature_modules, module_idx);
                    } else {
                        latest_predecessor_actual_position = Some(actual_position);
                    }
                },
                None => {
                    latest_predecessor_actual_position = Some(actual_position);
                },
            }
        }
        proof {
            let shorter = expected.take(k as int);
            let longer = expected.take(k + 1);
            assert forall|i: int| 0 <= i < k implies shorter[i] == expected[i] && longer[i]
                == expected[i] by {}
            assert(longer[k as int] == module_idx);
            assert forall|m: ModuleIdx| #[trigger]
                premature_modules@.contains(m) <==> premature(longer, positions, m) by {
                if premature(shorter, positions, m) {
                    let (i, j) = choose|i: int, j: int|
                        #![trigger shorter[i], shorter[j]]
                        {
                            &&& 0 <= i < j < shorter.len()
                            &&& shorter[j] == m
                            &&& positions.contains_key(shorter[i])
                            &&& positions.contains_key(m)
                            &&& positions[m] < positions[shorter[i]]
                        };
                    assert(longer[i] == shorter[i] && longer[j] == m);
                    assert(premature(longer, positions, m));
                }
                if premature_modules@.contains(m) && !before.contains(m) {
                    assert(m == module_idx);
                    let i = choose|i: int|
                        0 <= i < k && positions.contains_key(#[trigger] expected[i])
                            && positions[expected[i]] == latest_before->0;
                    assert(longer[i] == expected[i]);
                    assert(premature(longer, positions, m));
                }
                if premature(longer, positions, m) && !premature(shorter, positions, m) {
                    let (i, j) = choose|i: int, j: int|
                        #![trigger longer[i], longer[j]]
                        {
                            &&& 0 <= i < j < longer.len()
                            &&& longer[j] == m
                            &&& positions.contains_key(longer[i])
                            &&& positions.contains_key(m)
                            &&& positions[m] < positions[longer[i]]
                        };
                    assert(longer[i] == shorter[i]);
                    if j < k {
                        assert(shorter[j] == m);
                    }
                    assert(j == k);
                    assert(positions.contains_key(expected[i]));
                }
            }
        }
        k = k + 1;
    }
    assert(expected.take(k as int) =~= expected);
    premature_modules
}

impl<'a> GenerateStage<'a> {
    /// The order-sensitive modules of `order`, each where it first occurs.
    pub fn sensitive_order(&self, order: &[ModuleIdx]) -> (sensitive_order: Vec<ModuleIdx>)
        requires
            self.link_output.wf(),
            forall|i: int|
                0 <= i < order@.len() ==> (#[trigger] order@[i]) < self.link_output.module_count(),
        ensures
            sensitive_order@ == self.link_output.sensitive_order(order@),
    {
        let mut seen: FxHashSet<ModuleIdx> = FxHashSet::default();
        let mut sensitive_order: Vec<ModuleIdx> = Vec::new();
        let ghost sensitive = |m: ModuleIdx| self.link_output.order_sensitive(m);
        let mut i: usize = 0;
        proof {
            reveal(Seq::filter);
            assert(order@.take(0).filter(sensitive) =~= Seq::<ModuleIdx>::empty());
        }
        while i < order.len()
            invariant
                self.link_output.wf(),
                forall|j: int|
                    0 <= j < order@.len() ==> (#[trigger] order@[j])
                        < self.link_output.module_count(),
                sensitive == (|m: ModuleIdx| self.link_output.order_sensitive(m)),
                i <= order@.len(),
                sensitive_order@ == seqs::distinct(order@.take(i as int).filter(sensitive)),
                forall|m: ModuleIdx| #[trigger]
                    seen@.contains(m) <==> sensitive_order@.contains(m),
            decreases order.len() - i,
        {
            let module_idx = order[i];
            let ghost before = sensitive_order@;
            proof {
                reveal(Seq::filter);
                assert(order@.take(i + 1).drop_last() =~= order@.take(i as int));
                assert(order@.take(i as int).filter(sensitive).push(module_idx).drop_last()
                    =~= order@.take(i as int).filter(sensitive));
                assert forall|m: ModuleIdx|
                    before.push(module_idx).contains(m) <==> #[trigger] before.contains(m) || m
                        == module_idx by {
                    vstd::seq_lib::lemma_seq_contains_after_push(before, module_idx, m);
                }
            }
            if self.is_order_sensitive(module_idx) {
                if fx::set_insert(&mut seen, module_idx) {
                    sensitive_order.push(module_idx);
                }
            }
            assert forall|m: ModuleIdx| #[trigger]
                seen@.contains(m) <==> sensitive_order@.contains(m) by {
                assert(before.push(module_idx).contains(m) <==> before.contains(m) || m
                    == module_idx);
            }
            i = i + 1;
        }
        assert(order@.take(i as int) =~= order@);
        sensitive_order
    }

    /// Marks the module to delay so that `module_idx` is delayed, if there is one.
    fn flag(
        &self,
        module_idx: ModuleIdx,
        trigger_hosts: &FxHashMap<ModuleIdx, ModuleIdx>,
        at_risk: &mut FxHashSet<ModuleIdx>,
    )
        requires
            self.link_output.wf(),
            module_idx < self.link_output.module_count(),
            forall|m: ModuleIdx| #[trigger]
                trigger_hosts@.contains_key(m) ==> trigger_hosts@[m]
                    < self.link_output.module_count(),
        ensures
            final(at_risk)@ == match self.link_output.lever(trigger_hosts@, module_idx) {
                Some(lever) => old(at_risk)@.insert(lever),
                None => old(at_risk)@,
            },
    {
        if self.is_order_wrap_eligible(module_idx) {
            fx::set_insert(at_risk, module_idx);
        } else if let Some(host) = fx::map_get(trigger_hosts, module_idx) {
            if self.is_order_wrap_eligible(host) {
                fx::set_insert(at_risk, host);
            }
        }
    }

    /// Marks the modules to delay so that all of `modules` are delayed.
    fn flag_all(
        &self,
        modules: &Vec<ModuleIdx>,
        trigger_hosts: &FxHashMap<ModuleIdx, ModuleIdx>,
        at_risk: &mut FxHashSet<ModuleIdx>,
    )
        requires
            self.link_output.wf(),
            forall|i: int|
                0 <= i < modules@.len() ==> (#[trigger] modules@[i])
                    < self.link_output.module_count(),
            forall|m: ModuleIdx| #[trigger]
                trigger_hosts@.contains_key(m) ==> trigger_hosts@[m]
                    < self.link_output.module_count(),
        ensures
            forall|x: ModuleIdx| #[trigger]
                final(at_risk)@.contains(x) <==> old(at_risk)@.contains(x) || exists|i: int|
                    0 <= i < modules@.len() && self.link_output.lever(
                        trigger_hosts@,
                        #[trigger] modules@[i],
                    ) == Some(x),
    {
        let mut k: usize = 0;
        while k < modules.len()
            invariant
                self.link_output.wf(),
                forall|i: int|
                    0 <= i < modules@.len() ==> (#[trigger] modules@[i])
                        < self.link_output.module_count(),
                forall|m: ModuleIdx| #[trigger]
                    trigger_hosts@.contains_key(m) ==> trigger_hosts@[m]
                        < self.link_output.module_count(),
                k <= modules@.len(),
                forall|x: ModuleIdx| #[trigger]
                    at_risk@.contains(x) <==> old(at_risk)@.contains(x) || exists|i: int|
                        0 <= i < k && self.link_output.lever(trigger_hosts@, #[trigger] modules@[i])
                            == Some(x),
            decreases modules.len() - k,
        {
            let ghost before = at_risk@;
            self.flag(modules[k], trigger_hosts, at_risk);
            assert forall|x: ModuleIdx| #[trigger]
                at_risk@.contains(x) <==> old(at_risk)@.contains(x) || exists|i: int|
                    0 <= i < k + 1 && self.link_output.lever(trigger_hosts@, #[trigger] modules@[i])
                        == Some(x) by {
                if at_risk@.contains(x) && !before.contains(x) {
                    assert(self.link_output.lever(trigger_hosts@, modules@[k as int]) == Some(x));
                }
                if before.contains(x) && !old(at_risk)@.contains(x) {
                    let i = choose|i: int|
                        0 <= i < k && self.link_output.lever(trigger_hosts@, #[trigger] modules@[i])
                            == Some(x);
                    assert(i < k + 1);
                }
            }
            k = k + 1;
        }
    }

    /// The modules to delay so that the chunks evaluate every order-sensitive module when the
    /// source does.
    pub fn at_risk_modules(
        &self,
        expected_order: &[ModuleIdx],
        actual_order: &[ModuleIdx],
        trigger_hosts: &FxHashMap<ModuleIdx, ModuleIdx>,
    ) -> (at_risk: FxHashSet<ModuleIdx>)
        requires
            self.link_output.wf(),
            forall|i: int|
                0 <= i < expected_order@.len() ==> (#[trigger] expected_order@[i])
                    < self.link_output.module_count(),
            forall|i: int|
                0 <= i < actual_order@.len() ==> (#[trigger] actual_order@[i])
                    < self.link_output.module_count(),
            forall|m: ModuleIdx| #[trigger]
                trigger_hosts@.contains_key(m) ==> trigger_hosts@[m]
                    < self.link_output.module_count(),
        ensures
            at_risk@ == self.link_output.at_risk(expected_order@, actual_order@, trigger_hosts@),
    {
        let link = self.link_output;
        let expected_sensitive_order = self.sensitive_order(expected_order);
        let actual_sensitive_order = self.sensitive_order(actual_order);
        let ghost wanted = expected_sensitive_order@;
        let ghost found = actual_sensitive_order@;
        let mut expected_sensitive_set: FxHashSet<ModuleIdx> = FxHashSet::default();
        fx::set_extend(&mut expected_sensitive_set, &expected_sensitive_order);
        let mut actual_sensitive_set: FxHashSet<ModuleIdx> = FxHashSet::default();
        fx::set_extend(&mut actual_sensitive_set, &actual_sensitive_order);
        proof {
            link.lemma_sensitive_order(expected_order@);
            link.lemma_sensitive_order(actual_order@);
            assert(expected_sensitive_set@ =~= wanted.to_set());
            assert(actual_sensitive_set@ =~= found.to_set());
        }
        let actual_positions = positions_of(&actual_sensitive_order);
        let mut at_risk: FxHashSet<ModuleIdx> = FxHashSet::default();
        let lopsided = fx::set_symmetric_difference(&expected_sensitive_set, &actual_sensitive_set);
        let early = premature_sensitive_modules(
            expected_sensitive_order.as_slice(),
            &actual_positions,
        );
        let early_modules = fx::set_items(&early);
        proof {
            assert forall|m: ModuleIdx| #[trigger]
                lopsided@.contains(m) <==> wanted.contains(m) != found.contains(m) by {
                assert(lopsided@.to_set().contains(m) <==> lopsided@.contains(m));
            }
            assert forall|m: ModuleIdx| #[trigger]
                early_modules@.contains(m) <==> premature(wanted, positions_in(found), m) by {
                assert(early_modules@.to_set().contains(m) <==> early_modules@.contains(m));
                assert(early@.contains(m) <==> premature(wanted, positions_in(found), m));
            }
            assert forall|i: int| 0 <= i < lopsided@.len() implies (#[trigger] lopsided@[i])
                < link.module_count() by {
                assert(lopsided@.contains(lopsided@[i]));
            }
            assert forall|i: int| 0 <= i < early_modules@.len() implies (
            #[trigger] early_modules@[i]) < link.module_count() by {
                assert(early_modules@.contains(early_modules@[i]));
                assert(positions_in(found).contains_key(early_modules@[i]));
            }
        }
        self.flag_all(&lopsided, trigger_hosts, &mut at_risk);
        let ghost first = at_risk@;
        self.flag_all(&early_modules, trigger_hosts, &mut at_risk);
        proof {
            let all = link.at_risk(expected_order@, actual_order@, trigger_hosts@);
            assert forall|x: ModuleIdx| at_risk@.contains(x) <==> #[trigger] all.contains(x) by {
                if at_risk@.contains(x) {
                    if first.contains(x) {
                        let i = choose|i: int|
                            0 <= i < lopsided@.len() && link.lever(
                                trigger_hosts@,
                                #[trigger] lopsided@[i],
                            ) == Some(x);
                        assert(lopsided@.contains(lopsided@[i]));
                        assert(link.misplaced(expected_order@, actual_order@, lopsided@[i]));
                    } else {
                        let i = choose|i: int|
                            0 <= i < early_modules@.len() && link.lever(
                                trigger_hosts@,
                                #[trigger] early_modules@[i],
                            ) == Some(x);
                        assert(early_modules@.contains(early_modules@[i]));
                        assert(link.misplaced(expected_order@, actual_order@, early_modules@[i]));
                    }
                }
                if all.contains(x) {
                    let m = choose|m: ModuleIdx| #[trigger]
                        link.misplaced(expected_order@, actual_order@, m) && link.lever(
                            trigger_hosts@,
                            m,
                        ) == Some(x);
                    if wanted.contains(m) != found.contains(m) {
                        assert(lopsided@.contains(m));
                        let i = lopsided@.index_of(m);
                        assert(link.lever(trigger_hosts@, lopsided@[i]) == Some(x));
                        assert(first.contains(x));
                    } else {
                        assert(early_modules@.contains(m));
                        let i = early_modules@.index_of(m);
                        assert(link.lever(trigger_hosts@, early_modules@[i]) == Some(x));
                    }
                }
            }
            assert(at_risk@ =~= all);
        }
        at_risk
    }
}

/// Where each element of `order` stands.
fn positions_of(order: &Vec<ModuleIdx>) -> (positions: FxHashMap<ModuleIdx, usize>)
    requires
        order@.no_duplicates(),
    ensures
        positions@ == positions_in(order@),
{
    let mut positions: FxHashMap<ModuleIdx, usize> = FxHashMap::default();
    let mut i: usize = 0;
    while i < order.len()
        invariant
            order@.no_duplicates(),
            i <= order@.len(),
            forall|m: ModuleIdx| #[trigger]
                positions@.contains_key(m) <==> order@.take(i as int).contains(m),
            forall|k: int| 0 <= k < i ==> positions@[#[trigger] order@[k]] == k,
        decreases order.len() - i,
    {
        let module_idx = order[i];
        let ghost before = positions@;
        fx::map_insert(&mut positions, module_idx, i);
        proof {
            assert(order@.take(i + 1) =~= order@.take(i as int).push(module_idx));
            assert forall|m: ModuleIdx| #[trigger]
                positions@.contains_key(m) <==> order@.take(i + 1).contains(m) by {
                vstd::seq_lib::lemma_seq_contains_after_push(order@.take(i as int), module_idx, m);
                assert(before.contains_key(m) <==> order@.take(i as int).contains(m));
            }
        }
        i = i + 1;
    }
    proof {
        assert(order@.take(i as int) =~= order@);
        assert forall|m: ModuleIdx| order@.contains(m) implies #[trigger] positions@[m]
            == order@.index_of(m) by {
            let k = order@.index_of(m);
            assert(positions@[order@[k]] == k);
        }
        assert(positions@ =~= positions_in(order@));
    }
    positions
}

} // verus!
