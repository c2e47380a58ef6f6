//! What only the caller knows of a module, asked when it is first needed.

use rustc_hash::FxHashSet;
use vstd::prelude::*;

use crate::fx;
use crate::indices;
use crate::init_targets;
use crate::init_targets::{InitWorld, WrappedEsmInitTargetContext};
use crate::link::{ImportRecordIdx, LinkTables, ModuleIdx, NormalModule, SymbolRef};
use crate::reach;
use crate::wrap_state::{EsmInitTarget, OrderWraps};

verus! {

/// The program that is asked about, and the closures that answer. `wrapper_is_reachable` says
/// whether the wrapper symbol of a module is within reach, `owns_initialization` whether a module
/// owns, as a forwarder, the initialization of what it forwards.
pub struct Inquiry<F, G> {
    pub tables: LinkTables,
    pub state: OrderWraps,
    pub strict: bool,
    pub wrapper_is_reachable: F,
    pub owns_initialization: G,
}

impl<F: Fn(SymbolRef) -> bool, G: Fn(ModuleIdx) -> bool> Inquiry<F, G> {
    pub open spec fn init_target(self, m: ModuleIdx) -> Option<EsmInitTarget> {
        self.state.init_target(m, self.tables.meta(m))
    }

    /// `answer` says whether the `init_*` function of `m` can be called.
    pub open spec fn answers_callable(self, m: ModuleIdx, answer: bool) -> bool {
        init_targets::answers_callable_for(
            m,
            self.tables.meta(m),
            self.state,
            self.wrapper_is_reachable,
            answer,
        )
    }

    /// `m` is a forwarder if it owns its initialization.
    pub open spec fn may_forward(self, m: ModuleIdx) -> bool {
        &&& self.init_target(m) is None
        &&& self.tables.unwrapped(m)
        &&& self.tables.included(m)
    }

    /// As a forwarder, `m` is left everything.
    pub open spec fn takes_all(self, m: ModuleIdx) -> bool {
        !self.strict || init_targets::hops_all_kept(self.tables, m, self.tables.meta(m))
    }

    /// What the forwarder `f` calls may have to be found out.
    pub open spec fn may_look_into(self, f: ModuleIdx) -> bool {
        &&& self.may_forward(f)
        &&& !self.takes_all(f)
        &&& self.tables.is_normal(f)
        &&& self.owns_initialization.ensures((f,), true)
    }

    /// The symbols that an importer takes from `m` may have to be followed.
    pub open spec fn may_follow(self, m: ModuleIdx) -> bool {
        &&& self.answers_callable(m, false)
        &&& self.may_forward(m) && self.takes_all(m) ==> self.owns_initialization.ensures(
            (m,),
            false,
        )
    }

    pub open spec fn own_hops(self, m: ModuleIdx) -> Seq<ImportRecordIdx> {
        init_targets::hops(self.tables, self.state, m, self.tables.stmts(m).len())
    }

    /// Looking into the forwarder `a` leads to the importee `b`.
    pub open spec fn leads_to(self, a: ModuleIdx, b: ModuleIdx) -> bool {
        self.may_look_into(a) && exists|k: int|
            0 <= k < self.own_hops(a).len() && self.tables.records(a)[#[trigger] self.own_hops(
                a,
            )[k] as int].resolved_module == Some(b)
    }

    pub open spec fn leads(self) -> spec_fn(ModuleIdx, ModuleIdx) -> bool {
        |a: ModuleIdx, b: ModuleIdx| self.leads_to(a, b)
    }

    /// Whether the wrapper of `m` is within reach can be asked.
    pub open spec fn takes_wrapper(self, m: ModuleIdx) -> bool {
        self.init_target(m) matches Some(target) ==> self.wrapper_is_reachable.requires(
            (target.wrapper_ref,),
        )
    }

    /// `m` can be asked about as the importee of a record.
    pub open spec fn takes_importee(self, m: ModuleIdx) -> bool {
        &&& self.takes_wrapper(m)
        &&& self.may_forward(m) ==> self.owns_initialization.requires((m,))
    }

    /// The owners of all symbols that the symbol `key` leads to can be asked about.
    pub open spec fn takes_symbol(self, through_namespaces: bool, key: (ModuleIdx, usize)) -> bool {
        forall|other: (ModuleIdx, usize)| #[trigger]
            reach::reaches(namespace_leads(self.tables, through_namespaces), key, other)
                ==> self.takes_wrapper(other.0)
    }

    pub open spec fn takes_symbols(
        self,
        through_namespaces: bool,
        keys: Seq<(ModuleIdx, usize)>,
    ) -> bool {
        forall|k: int|
            0 <= k < keys.len() ==> self.takes_symbol(through_namespaces, #[trigger] keys[k])
    }

    /// The importee of the record can be asked about, and so can the owners of the symbols that the
    /// importer takes through it.
    pub open spec fn takes_record(
        self,
        importer: NormalModule,
        importer_wrapped: bool,
        rec: ImportRecordIdx,
    ) -> bool {
        importer.import_records@[rec as int].resolved_module matches Some(importee) ==> {
            &&& self.takes_importee(importee)
            &&& self.may_follow(importee) ==> self.takes_symbols(
                importer_wrapped,
                init_targets::resolved_keys(
                    self.tables.symbol_db,
                    init_targets::consumed_symbols(
                        importer,
                        rec,
                        self.tables.meta(importee).resolved_exports@,
                    ),
                ),
            )
        }
    }

    /// The records of the forwarder `f` can be asked about, where they have to be.
    pub open spec fn takes_forwarder(self, f: ModuleIdx) -> bool {
        self.may_look_into(f) ==> forall|k: int|
            0 <= k < self.own_hops(f).len() ==> self.takes_record(
                self.tables.normal(f),
                self.state.order_wrapped(f, self.tables.meta(f)),
                #[trigger] self.own_hops(f)[k],
            )
    }

    /// The closures can be asked about all modules that finding the targets of the record may come
    /// to.
    pub open spec fn takes_walk(
        self,
        importer: NormalModule,
        importer_wrapped: bool,
        rec: ImportRecordIdx,
    ) -> bool {
        &&& self.takes_record(importer, importer_wrapped, rec)
        &&& importer.import_records@[rec as int].resolved_module matches Some(importee)
            ==> forall|f: ModuleIdx| #[trigger]
            reach::reaches(self.leads(), importee, f) ==> self.takes_forwarder(f)
    }

    /// The closures can be asked about all modules that looking into `f` may come to.
    pub open spec fn takes_hops(self, f: ModuleIdx) -> bool {
        forall|k: int|
            0 <= k < self.own_hops(f).len() ==> self.takes_walk(
                self.tables.normal(f),
                self.state.order_wrapped(f, self.tables.meta(f)),
                #[trigger] self.own_hops(f)[k],
            )
    }

    /// What the walk of a record can ask includes what the walks behind its forwarder can.
    pub proof fn lemma_takes_hops(
        self,
        importer: NormalModule,
        importer_wrapped: bool,
        rec: ImportRecordIdx,
        f: ModuleIdx,
    )
        requires
            self.takes_walk(importer, importer_wrapped, rec),
            importer.import_records@[rec as int].resolved_module == Some(f),
            self.may_look_into(f),
        ensures
            self.takes_hops(f),
    {
        reach::lemma_reaches_self(self.leads(), f);
        assert(self.takes_forwarder(f));
        assert forall|k: int| 0 <= k < self.own_hops(f).len() implies self.takes_walk(
            self.tables.normal(f),
            self.state.order_wrapped(f, self.tables.meta(f)),
            #[trigger] self.own_hops(f)[k],
        ) by {
            let hop = self.own_hops(f)[k];
            if self.tables.normal(f).import_records@[hop as int].resolved_module is Some {
                let next = self.tables.normal(f).import_records@[hop as int].resolved_module->0;
                assert(self.leads_to(f, next));
                reach::lemma_reaches_edge(self.leads(), f, next);
                assert forall|other: ModuleIdx| #[trigger]
                    reach::reaches(self.leads(), next, other) implies self.takes_forwarder(other) by {
                    reach::lemma_reaches_trans(self.leads(), f, next, other);
                }
            }
        }
    }

    /// What a namespace object stands for can be asked about if it can itself.
    pub proof fn lemma_takes_exports(self, key: (ModuleIdx, usize))
        requires
            self.takes_symbol(true, key),
            init_targets::dropped_namespace(self.tables, key),
        ensures
            self.takes_symbols(true, export_keys(self.tables, key.0)),
    {
        let leads = namespace_leads(self.tables, true);
        let keys = export_keys(self.tables, key.0);
        assert forall|k: int| 0 <= k < keys.len() implies self.takes_symbol(
            true,
            #[trigger] keys[k],
        ) by {
            assert(keys.contains(keys[k]));
            assert(leads(key, keys[k]));
            reach::lemma_reaches_edge(leads, key, keys[k]);
            assert forall|other: (ModuleIdx, usize)| #[trigger]
                reach::reaches(leads, keys[k], other) implies self.takes_wrapper(other.0) by {
                reach::lemma_reaches_trans(leads, key, keys[k], other);
            }
        }
    }
}

/// Answers about some of the modules: whether the `init_*` function of a module can be called, and
/// whether a module owns its initialization.
pub struct InitAnswers {
    pub callable: Map<ModuleIdx, bool>,
    pub owns: Map<ModuleIdx, bool>,
}

impl InitAnswers {
    /// The answers about all modules hold these.
    pub open spec fn agree(self, callable: Seq<bool>, owns: Seq<bool>, module_count: nat) -> bool {
        &&& callable.len() == module_count
        &&& owns.len() == module_count
        &&& forall|m: ModuleIdx| #[trigger]
            self.callable.contains_key(m) ==> callable[m as int] == self.callable[m]
        &&& forall|m: ModuleIdx| #[trigger]
            self.owns.contains_key(m) ==> owns[m as int] == self.owns[m]
    }
}

impl<F: Fn(SymbolRef) -> bool, G: Fn(ModuleIdx) -> bool> Inquiry<F, G> {
    /// The closures gave these answers about modules of the program.
    pub open spec fn gave(self, answers: InitAnswers) -> bool {
        &&& forall|m: ModuleIdx| #[trigger]
            answers.callable.contains_key(m) ==> m < self.tables.module_count()
                && self.answers_callable(m, answers.callable[m])
        &&& forall|m: ModuleIdx| #[trigger]
            answers.owns.contains_key(m) ==> m < self.tables.module_count()
                && self.owns_initialization.ensures((m,), answers.owns[m])
    }
}

/// The symbols that the exports of module `m` stand for.
pub open spec fn export_keys(tables: LinkTables, m: ModuleIdx) -> Seq<(ModuleIdx, usize)> {
    init_targets::resolved_keys(
        tables.symbol_db,
        init_targets::exported_symbols(tables.meta(m).resolved_exports@),
    )
}

/// The namespace object of a dropped module leads to the exports of the module.
pub open spec fn namespace_leads(tables: LinkTables, through_namespaces: bool) -> spec_fn(
    (ModuleIdx, usize),
    (ModuleIdx, usize),
) -> bool {
    |a: (ModuleIdx, usize), b: (ModuleIdx, usize)|
        through_namespaces && init_targets::dropped_namespace(tables, a) && export_keys(
            tables,
            a.0,
        ).contains(b)
}

/// The answers to one question: the modules for which it was yes, and those for which it was no.
pub struct Answers {
    pub yes: FxHashSet<ModuleIdx>,
    pub no: FxHashSet<ModuleIdx>,
}

impl Answers {
    pub open spec fn wf(self, module_count: nat) -> bool {
        &&& self.yes@.subset_of(indices::below(module_count))
        &&& self.no@.subset_of(indices::below(module_count))
        &&& self.yes@.disjoint(self.no@)
    }

    /// `m` was answered for, and this was the answer.
    pub open spec fn given(self, m: ModuleIdx, answer: bool) -> bool {
        if answer {
            self.yes@.contains(m)
        } else {
            self.no@.contains(m)
        }
    }

    /// `all` holds the given answers.
    pub open spec fn agree(self, all: Seq<bool>) -> bool {
        forall|m: ModuleIdx, answer: bool| #[trigger]
            self.given(m, answer) ==> all[m as int] == answer
    }

    pub open spec fn to_map(self) -> Map<ModuleIdx, bool> {
        Map::new(
            |m: ModuleIdx| self.given(m, true) || self.given(m, false),
            |m: ModuleIdx| self.given(m, true),
        )
    }

    /// All answers of `before` still stand.
    pub open spec fn extend(self, before: Answers) -> bool {
        forall|m: ModuleIdx, answer: bool| #[trigger]
            before.given(m, answer) ==> self.given(m, answer)
    }

    fn new() -> (answers: Self)
        ensures
            forall|m: ModuleIdx, answer: bool| !#[trigger] answers.given(m, answer),
            answers.wf(0),
    {
        Answers { yes: FxHashSet::default(), no: FxHashSet::default() }
    }

    fn find(&self, m: ModuleIdx) -> (found: Option<bool>)
        ensures
            found matches Some(answer) ==> self.given(m, answer),
            found is None ==> !self.given(m, true) && !self.given(m, false),
    {
        if fx::set_contains(&self.yes, m) {
            Some(true)
        } else if fx::set_contains(&self.no, m) {
            Some(false)
        } else {
            None
        }
    }

    fn add(&mut self, m: ModuleIdx, answer: bool, Ghost(module_count): Ghost<nat>)
        requires
            old(self).wf(module_count),
            m < module_count,
            !old(self).given(m, true),
            !old(self).given(m, false),
        ensures
            final(self).wf(module_count),
            forall|k: ModuleIdx, a: bool| #[trigger]
                final(self).given(k, a) <==> old(self).given(k, a) || (k == m && a == answer),
    {
        if answer {
            fx::set_insert(&mut self.yes, m);
        } else {
            fx::set_insert(&mut self.no, m);
        }
    }
}

/// The answers that were given so far. No module is asked about twice.
pub struct InitQuestions<'a, F, G> {
    pub wrapper_is_reachable: &'a F,
    pub owns_initialization: &'a G,
    pub callable: Answers,
    pub owns: Answers,
    pub inquiry: Ghost<Inquiry<F, G>>,
}

impl<'a, F: Fn(SymbolRef) -> bool, G: Fn(ModuleIdx) -> bool> InitQuestions<'a, F, G> {
    /// Every answer is one that a closure gave.
    pub open spec fn wf(self) -> bool {
        let inquiry = self.inquiry@;
        &&& *self.wrapper_is_reachable == inquiry.wrapper_is_reachable
        &&& *self.owns_initialization == inquiry.owns_initialization
        &&& self.callable.wf(inquiry.tables.module_count())
        &&& self.owns.wf(inquiry.tables.module_count())
        &&& forall|m: ModuleIdx, answer: bool| #[trigger]
            self.callable.given(m, answer) ==> inquiry.answers_callable(m, answer)
        &&& forall|m: ModuleIdx, answer: bool| #[trigger]
            self.owns.given(m, answer) ==> inquiry.owns_initialization.ensures((m,), answer)
    }

    /// The questions are about the program that `ctx` belongs to.
    pub open spec fn about(self, ctx: WrappedEsmInitTargetContext<'_>) -> bool {
        &&& self.wf()
        &&& self.inquiry@.tables == ctx.tables()
        &&& self.inquiry@.state == ctx.order_wrap_state@
        &&& self.inquiry@.strict == ctx.strict_execution_order
    }

    /// The world is one in which the given answers hold.
    pub open spec fn fit(self, world: InitWorld) -> bool {
        &&& world.wf()
        &&& world.tables == self.inquiry@.tables
        &&& world.state == self.inquiry@.state
        &&& world.strict == self.inquiry@.strict
        &&& self.callable.agree(world.callable)
        &&& self.owns.agree(world.owns)
    }

    /// The same closures were asked, and the answers of `before` still stand.
    pub open spec fn extend(self, before: Self) -> bool {
        &&& self.inquiry == before.inquiry
        &&& self.callable.extend(before.callable)
        &&& self.owns.extend(before.owns)
    }

    pub fn new(
        ctx: &WrappedEsmInitTargetContext<'_>,
        wrapper_is_reachable: &'a F,
        owns_initialization: &'a G,
    ) -> (questions: Self)
        ensures
            questions.about(*ctx),
            questions.inquiry@ == ctx.inquiry(*wrapper_is_reachable, *owns_initialization),
    {
        InitQuestions {
            wrapper_is_reachable,
            owns_initialization,
            callable: Answers::new(),
            owns: Answers::new(),
            inquiry: Ghost(ctx.inquiry(*wrapper_is_reachable, *owns_initialization)),
        }
    }

    /// Whether the `init_*` function of the module can be called.
    pub fn is_callable(&mut self, ctx: &WrappedEsmInitTargetContext<'_>, m: ModuleIdx) -> (answer:
        bool)
        requires
            old(self).about(*ctx),
            ctx.tables().wf(),
            m < ctx.tables().module_count(),
            old(self).inquiry@.takes_wrapper(m),
        ensures
            final(self).about(*ctx),
            final(self).extend(*old(self)),
            final(self).callable.given(m, answer),
    {
        match self.callable.find(m) {
            Some(answer) => answer,
            None => {
                let answer: bool = init_targets::wrapped_esm_target_is_reachable(
                    m,
                    &ctx.metas[m],
                    ctx.order_wrap_state,
                    self.wrapper_is_reachable,
                );
                self.callable.add(m, answer, Ghost(ctx.tables().module_count()));
                answer
            },
        }
    }

    /// Whether the module owns, as a forwarder, the initialization of what it forwards.
    pub fn owns_initialization(
        &mut self,
        ctx: &WrappedEsmInitTargetContext<'_>,
        m: ModuleIdx,
    ) -> (answer: bool)
        requires
            old(self).about(*ctx),
            m < ctx.tables().module_count(),
            old(self).inquiry@.owns_initialization.requires((m,)),
        ensures
            final(self).about(*ctx),
            final(self).extend(*old(self)),
            final(self).owns.given(m, answer),
    {
        match self.owns.find(m) {
            Some(answer) => answer,
            None => {
                let answer: bool = (self.owns_initialization)(m);
                self.owns.add(m, answer, Ghost(ctx.tables().module_count()));
                answer
            },
        }
    }

    /// A world in which later answers hold is one in which the earlier hold.
    pub proof fn lemma_earlier_fit(self, before: Self)
        requires
            self.extend(before),
        ensures
            forall|world: InitWorld| #[trigger] self.fit(world) ==> before.fit(world),
    {
    }

    /// The answers that were given so far.
    pub open spec fn answers(self) -> InitAnswers {
        InitAnswers { callable: self.callable.to_map(), owns: self.owns.to_map() }
    }

    pub proof fn lemma_answers_given(self)
        requires
            self.wf(),
        ensures
            self.inquiry@.gave(self.answers()),
    {
        let inquiry = self.inquiry@;
        let n = inquiry.tables.module_count();
        let answers = self.answers();
        assert forall|m: ModuleIdx| #[trigger] answers.callable.contains_key(m) implies m < n
            && inquiry.answers_callable(m, answers.callable[m]) by {
            assert(self.callable.given(m, answers.callable[m]));
            assert(indices::below(n).contains(m));
        }
        assert forall|m: ModuleIdx| #[trigger] answers.owns.contains_key(m) implies m < n
            && inquiry.owns_initialization.ensures((m,), answers.owns[m]) by {
            assert(self.owns.given(m, answers.owns[m]));
            assert(indices::below(n).contains(m));
        }
    }

    /// A world that agrees with the answers is one in which they hold.
    pub proof fn lemma_agree_fits(self, world: InitWorld)
        requires
            self.wf(),
            world.wf(),
            world.tables == self.inquiry@.tables,
            world.state == self.inquiry@.state,
            world.strict == self.inquiry@.strict,
            self.answers().agree(world.callable, world.owns, world.tables.module_count()),
        ensures
            self.fit(world),
    {
        assert forall|m: ModuleIdx, answer: bool| #[trigger]
            self.callable.given(m, answer) implies world.callable[m as int] == answer by {
            assert(self.answers().callable.contains_key(m));
        }
        assert forall|m: ModuleIdx, answer: bool| #[trigger]
            self.owns.given(m, answer) implies world.owns[m as int] == answer by {
            assert(self.answers().owns.contains_key(m));
        }
    }

    /// There is always a world in which the given answers hold.
    pub proof fn lemma_some_world(self) -> (world: InitWorld)
        requires
            self.wf(),
            self.inquiry@.tables.wf(),
        ensures
            self.fit(world),
    {
        let n = self.inquiry@.tables.module_count();
        let world = InitWorld {
            tables: self.inquiry@.tables,
            state: self.inquiry@.state,
            strict: self.inquiry@.strict,
            callable: Seq::new(n, |m: int| self.callable.yes@.contains(m as usize)),
            owns: Seq::new(n, |m: int| self.owns.yes@.contains(m as usize)),
        };
        assert forall|m: ModuleIdx, answer: bool| #[trigger]
            self.callable.given(m, answer) implies world.callable[m as int] == answer by {
            assert(indices::below(n).contains(m));
        }
        assert forall|m: ModuleIdx, answer: bool| #[trigger]
            self.owns.given(m, answer) implies world.owns[m as int] == answer by {
            assert(indices::below(n).contains(m));
        }
        world
    }
}

impl<'a> WrappedEsmInitTargetContext<'a> {
    pub open spec fn inquiry<F, G>(self, wrapper_is_reachable: F, owns_initialization: G) -> Inquiry<
        F,
        G,
    > {
        Inquiry {
            tables: self.tables(),
            state: self.order_wrap_state@,
            strict: self.strict_execution_order,
            wrapper_is_reachable,
            owns_initialization,
        }
    }

    /// Closures that answer whatever they are asked about the modules of the program can be asked
    /// about any record.
    pub proof fn lemma_takes_any_walk<F: Fn(SymbolRef) -> bool, G: Fn(ModuleIdx) -> bool>(
        self,
        wrapper_is_reachable: F,
        owns_initialization: G,
        rec: ImportRecordIdx,
    )
        requires
            self.wf(),
            rec < self.importer.import_records@.len(),
            forall|symbol_ref: SymbolRef| #[trigger] wrapper_is_reachable.requires((symbol_ref,)),
            forall|m: ModuleIdx|
                m < self.tables().module_count() ==> #[trigger] owns_initialization.requires((m,)),
        ensures
            self.inquiry(wrapper_is_reachable, owns_initialization).takes_walk(
                *self.importer,
                self.importer_wrapped(),
                rec,
            ),
    {
    }
}

} // verus!
