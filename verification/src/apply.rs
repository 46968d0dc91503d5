//! Applier: executes a resolution plan against a mutable store under safety
//! controls.
//!
//! The state machine per plan is: validate the inputs, then either simulate
//! (dry run) or execute, then commit the outcome report. Actions execute
//! sequentially in plan order. An action whose kind is `manual_review` is
//! always recorded `skipped`; an action whose desired state already holds is
//! recorded `skipped` (which makes re-applying a fully applied plan a no-op);
//! an action whose target cannot be reached (a field of a missing entity) is
//! recorded `failed`, and execution continues with the next action unless
//! `stop_on_failure` is set, in which case the remaining actions are
//! recorded `skipped`.
//!
//! In dry-run mode every action is simulated on a scratch copy and the store
//! is left untouched. With `backup` set (non-dry-run), a snapshot of every
//! entity targeted by the plan is captured before the first mutation; in
//! this in-memory store, capturing cannot fail.

use vstd::prelude::*;
use crate::ir::{
    Entity, EntityModel, clone_entities, clone_entity, clone_field, entities_unique, entity_named,
    entity_wf, field_named, fields_unique, find_entity, find_field, has_entity, has_field,
    lemma_entity_named_is_at, lemma_field_named_is_at,
};
use crate::compare::{changes_carry_wf, ChangeModel, ComparisonModel, ModificationModel};
use crate::resolve::{
    Action, ActionEffect, ActionEffectModel, ActionKind, ActionModel, ResolutionPlan, ResolveConfig,
    action_for_added, action_for_modified, action_for_removed, added_actions, modified_actions,
    removed_actions, sort_by_path,
};

verus! {

/// A mutation-capable, in-memory schema store: the set of entities the
/// engine reconciles. Handles to external stores convert to and from this
/// shape at the boundary.
#[derive(Debug, Clone, PartialEq, Eq)]
pub struct Store {
    /// Entities, unique by name.
    pub entities: Vec<Entity>,
}

/// Mathematical model of a [`Store`].
pub ghost struct StoreModel {
    pub entities: Seq<EntityModel>,
}

impl View for Store {
    type V = StoreModel;

    open spec fn view(&self) -> StoreModel {
        StoreModel { entities: self.entities.deep_view() }
    }
}

/// Well-formedness of a store: entity names unique, each entity well-formed.
pub open spec fn store_wf(s: StoreModel) -> bool {
    &&& entities_unique(s.entities)
    &&& forall|i: int| 0 <= i < s.entities.len() ==> entity_wf(#[trigger] s.entities[i])
}

/// Configuration of one apply run.
#[derive(Debug, Clone, Copy, PartialEq, Eq, Structural)]
pub struct ApplyConfig {
    /// Simulate only; guarantee zero store mutation.
    pub dry_run: bool,
    /// Capture a backup of the targeted entities before mutating.
    pub backup: bool,
    /// After a failed action, record the remaining actions as skipped.
    pub stop_on_failure: bool,
}

impl Default for ApplyConfig {
    /// The default apply: a real, backup-less run with partial-failure
    /// semantics.
    fn default() -> (r: ApplyConfig)
        ensures
            !r.dry_run,
            !r.backup,
            !r.stop_on_failure,
    {
        ApplyConfig { dry_run: false, backup: false, stop_on_failure: false }
    }
}

/// Outcome of one action.
#[derive(Debug, Clone, Copy, PartialEq, Eq, Structural)]
pub enum ActionOutcome {
    Succeeded,
    Failed,
    Skipped,
}

/// Outcome of executing a plan exactly once (or zero times, if dry-run).
#[derive(Debug, Clone, PartialEq, Eq)]
pub struct ApplyResult {
    /// The plan this result reports on.
    pub plan_id: String,
    /// Whether the run was a simulation.
    pub dry_run: bool,
    /// The pre-mutation snapshot of the targeted entities, present iff a
    /// backup was requested on a real run.
    pub backup_ref: Option<Store>,
    /// Per-action outcome, in plan order.
    pub outcomes: Vec<ActionOutcome>,
    /// Number of `Succeeded` outcomes (the projected `would_apply` count on
    /// a dry run).
    pub succeeded_count: usize,
    /// Number of `Failed` outcomes.
    pub failed_count: usize,
    /// Number of `Skipped` outcomes.
    pub skipped_count: usize,
}

/// Whether the desired state of an effect already holds in a store.
pub open spec fn effect_satisfied(s: StoreModel, e: ActionEffectModel) -> bool {
    match e {
        ActionEffectModel::PutEntity { value } => has_entity(s.entities, value.name)
            && entity_named(s.entities, value.name) == value,
        ActionEffectModel::RemoveEntity { name } => !has_entity(s.entities, name),
        ActionEffectModel::PutField { entity, field } => has_entity(s.entities, entity)
            && has_field(entity_named(s.entities, entity).fields, field.name) && field_named(
            entity_named(s.entities, entity).fields,
            field.name,
        ) == field,
        ActionEffectModel::RemoveField { entity, field } => !has_entity(s.entities, entity)
            || !has_field(entity_named(s.entities, entity).fields, field),
        ActionEffectModel::NoEffect => true,
    }
}

/// Whether an effect's target can be reached at all: a field effect needs
/// its entity to exist.
pub open spec fn effect_applicable(s: StoreModel, e: ActionEffectModel) -> bool {
    match e {
        ActionEffectModel::PutField { entity, .. } => has_entity(s.entities, entity),
        _ => true,
    }
}

/// The index of the entity with the given name.
pub open spec fn entity_idx(es: Seq<EntityModel>, name: Seq<char>) -> int {
    choose|i: int| 0 <= i < es.len() && es[i].name == name
}

/// The index of the field with the given name.
pub open spec fn field_idx(fs: Seq<crate::ir::FieldModel>, name: Seq<char>) -> int {
    choose|i: int| 0 <= i < fs.len() && fs[i].name == name
}

/// The store after an effect is enacted (meaningful when the effect is
/// applicable and not yet satisfied).
pub open spec fn apply_effect(s: StoreModel, e: ActionEffectModel) -> StoreModel {
    match e {
        ActionEffectModel::PutEntity { value } => {
            if has_entity(s.entities, value.name) {
                StoreModel { entities: s.entities.update(entity_idx(s.entities, value.name), value) }
            } else {
                StoreModel { entities: s.entities.push(value) }
            }
        },
        ActionEffectModel::RemoveEntity { name } => StoreModel {
            entities: s.entities.remove(entity_idx(s.entities, name)),
        },
        ActionEffectModel::PutField { entity, field } => {
            let i = entity_idx(s.entities, entity);
            let ent = s.entities[i];
            let nf = if has_field(ent.fields, field.name) {
                ent.fields.update(field_idx(ent.fields, field.name), field)
            } else {
                ent.fields.push(field)
            };
            StoreModel { entities: s.entities.update(i, EntityModel { name: ent.name, fields: nf }) }
        },
        ActionEffectModel::RemoveField { entity, field } => {
            let i = entity_idx(s.entities, entity);
            let ent = s.entities[i];
            let nf = ent.fields.remove(field_idx(ent.fields, field));
            StoreModel { entities: s.entities.update(i, EntityModel { name: ent.name, fields: nf }) }
        },
        ActionEffectModel::NoEffect => s,
    }
}

/// One step of the apply state machine: the store after the action and the
/// recorded outcome.
pub open spec fn step(s: StoreModel, a: ActionModel) -> (StoreModel, ActionOutcome) {
    if a.kind == ActionKind::ManualReview {
        (s, ActionOutcome::Skipped)
    } else if effect_satisfied(s, a.effect) {
        (s, ActionOutcome::Skipped)
    } else if !effect_applicable(s, a.effect) {
        (s, ActionOutcome::Failed)
    } else {
        (apply_effect(s, a.effect), ActionOutcome::Succeeded)
    }
}

/// A run of skipped outcomes.
pub open spec fn all_skipped(n: int) -> Seq<ActionOutcome> {
    Seq::new(if n >= 0 {
        n as nat
    } else {
        0
    }, |i: int| ActionOutcome::Skipped)
}

/// The sequential execution of a plan's actions: the final store and the
/// outcome of every action, with `stop_on_failure` turning everything after
/// the first failure into skips.
pub open spec fn run_actions(s: StoreModel, acts: Seq<ActionModel>, stop: bool) -> (
    StoreModel,
    Seq<ActionOutcome>,
)
    decreases acts.len(),
{
    if acts.len() == 0 {
        (s, Seq::empty())
    } else {
        let so = step(s, acts[0]);
        if stop && so.1 == ActionOutcome::Failed {
            (so.0, seq![so.1] + all_skipped(acts.len() - 1))
        } else {
            let rest = run_actions(so.0, acts.skip(1), stop);
            (rest.0, seq![so.1] + rest.1)
        }
    }
}

/// Number of outcomes of one kind.
pub open spec fn count_outcome(os: Seq<ActionOutcome>, o: ActionOutcome) -> int
    decreases os.len(),
{
    if os.len() == 0 {
        0
    } else {
        count_outcome(os.drop_last(), o) + (if os.last() == o {
            1int
        } else {
            0int
        })
    }
}

/// Whether a plan's actions keep a store well-formed: an entity put must
/// carry a well-formed definition.
pub open spec fn plan_wf(acts: Seq<ActionModel>) -> bool {
    forall|k: int| 0 <= k < acts.len() ==> ((#[trigger] acts[k]).effect matches
        ActionEffectModel::PutEntity { value } ==> entity_wf(value))
}

/// The entities of a store that some action of the plan targets, in store
/// order: what a backup captures.
pub open spec fn targeted_entities(s: StoreModel, acts: Seq<ActionModel>) -> Seq<EntityModel>
    decreases s.entities.len() via targeted_entities_decreases
{
    if s.entities.len() == 0 {
        Seq::empty()
    } else {
        targeted_entities(
            StoreModel { entities: s.entities.drop_last() },
            acts,
        ) + (if targets_entity(acts, s.entities.last().name) {
            seq![s.entities.last()]
        } else {
            Seq::empty()
        })
    }
}

#[via_fn]
proof fn targeted_entities_decreases(s: StoreModel, acts: Seq<ActionModel>) {
}

/// Whether some action of the plan targets the named entity.
pub open spec fn targets_entity(acts: Seq<ActionModel>, name: Seq<char>) -> bool {
    exists|k: int| 0 <= k < acts.len() && (#[trigger] acts[k]).target.entity == name
}

/// Whether a field list is free of duplicate names.
fn fields_unique_check(fields: &Vec<Field>) -> (r: bool)
    ensures
        r == fields_unique(fields.deep_view()),
{
    let mut p: usize = 0;
    while p < fields.len()
        invariant
            p <= fields.len(),
            forall|x: int, y: int|
                0 <= x < y < p ==> fields.deep_view()[x].name != fields.deep_view()[y].name,
        decreases fields.len() - p,
    {
        let mut q: usize = 0;
        while q < p
            invariant
                q <= p,
                p < fields.len(),
                forall|y: int| 0 <= y < q ==> fields.deep_view()[y].name
                    != fields.deep_view()[p as int].name,
            decreases p - q,
        {
            if fields[q].name == fields[p].name {
                proof {
                    assert(fields.deep_view()[q as int].name == fields.deep_view()[p as int].name);
                    assert(!fields_unique(fields.deep_view()));
                }
                return false;
            }
            q = q + 1;
        }
        p = p + 1;
    }
    true
}

/// Checks that a plan keeps stores well-formed when applied: true exactly
/// when every entity definition it puts has unique field names.
pub fn plan_wf_check(plan: &ResolutionPlan) -> (r: bool)
    ensures
        r == plan_wf(plan@.actions),
{
    let mut i: usize = 0;
    while i < plan.actions.len()
        invariant
            i <= plan.actions.len(),
            forall|k: int| 0 <= k < i ==> ((#[trigger] plan@.actions[k]).effect matches
                ActionEffectModel::PutEntity { value } ==> entity_wf(value)),
        decreases plan.actions.len() - i,
    {
        let act = &plan.actions[i];
        match &act.effect {
            ActionEffect::PutEntity { value } => {
                if !fields_unique_check(&value.fields) {
                    proof {
                        assert(plan@.actions[i as int].effect matches
                            ActionEffectModel::PutEntity { value: v } && !entity_wf(v));
                        assert(!plan_wf(plan@.actions));
                    }
                    return false;
                }
                proof {
                    assert(entity_wf(plan@.actions[i as int].effect->PutEntity_value));
                }
            },
            _ => {},
        }
        i = i + 1;
    }
    true
}

/// Under unique names, the chosen entity index is the found one.
proof fn lemma_entity_idx_is(es: Seq<EntityModel>, i: int)
    requires
        entities_unique(es),
        0 <= i < es.len(),
    ensures
        entity_idx(es, es[i].name) == i,
{
    let n = es[i].name;
    let j = entity_idx(es, n);
    assert(0 <= j < es.len() && es[j].name == n);
    if i < j {
        assert(es[i].name != es[j].name);
    } else if j < i {
        assert(es[j].name != es[i].name);
    }
}

/// Under unique names, the chosen field index is the found one.
proof fn lemma_field_idx_is(fs: Seq<crate::ir::FieldModel>, i: int)
    requires
        fields_unique(fs),
        0 <= i < fs.len(),
    ensures
        field_idx(fs, fs[i].name) == i,
{
    let n = fs[i].name;
    let j = field_idx(fs, n);
    assert(0 <= j < fs.len() && fs[j].name == n);
    if i < j {
        assert(fs[i].name != fs[j].name);
    } else if j < i {
        assert(fs[j].name != fs[i].name);
    }
}

/// Structural equality of two fields, by content.
fn field_eq(f: &Field, g: &Field) -> (r: bool)
    ensures
        r == (f@ == g@),
{
    let de = match (&f.default, &g.default) {
        (Some(x), Some(y)) => *x == *y,
        (None, None) => true,
        _ => false,
    };
    let pe = match (f.is_primary_key, g.is_primary_key) {
        (Some(x), Some(y)) => x == y,
        (None, None) => true,
        _ => false,
    };
    f.name == g.name && f.declared_type == g.declared_type && f.nullable == g.nullable && de && pe
}

/// Structural equality of two entities, by content.
fn entity_eq(e: &Entity, f: &Entity) -> (r: bool)
    ensures
        r == (e@ == f@),
{
    if !(e.entity_name == f.entity_name) {
        return false;
    }
    if e.fields.len() != f.fields.len() {
        proof {
            assert(e@.fields.len() != f@.fields.len());
        }
        return false;
    }
    let mut i: usize = 0;
    while i < e.fields.len()
        invariant
            i <= e.fields.len(),
            e.fields.len() == f.fields.len(),
            e@.name == f@.name,
            forall|k: int| 0 <= k < i ==> e.fields.deep_view()[k] == f.fields.deep_view()[k],
        decreases e.fields.len() - i,
    {
        if !field_eq(&e.fields[i], &f.fields[i]) {
            proof {
                assert(e@.fields[i as int] != f@.fields[i as int]);
            }
            return false;
        }
        i = i + 1;
    }
    proof {
        assert(e@.fields =~= f@.fields);
    }
    true
}

use crate::ir::Field;

/// Executes one action against the store: skip when the desired state
/// already holds or a human decision is required, fail when the target is
/// unreachable, mutate otherwise.
fn apply_action(store: &mut Store, a: &Action) -> (o: ActionOutcome)
    requires
        store_wf(old(store)@),
        a@.effect matches ActionEffectModel::PutEntity { value } ==> entity_wf(value),
    ensures
        final(store)@ == step(old(store)@, a@).0,
        o == step(old(store)@, a@).1,
        store_wf(final(store)@),
{
    let ghost s0 = store@;
    if matches!(a.kind, ActionKind::ManualReview) {
        return ActionOutcome::Skipped;
    }
    match &a.effect {
        ActionEffect::NoEffect => ActionOutcome::Skipped,
        ActionEffect::PutEntity { value } => {
            match find_entity(&store.entities, &value.entity_name) {
                Some(i) => {
                    proof {
                        lemma_entity_named_is_at(s0.entities, i as int);
                        lemma_entity_idx_is(s0.entities, i as int);
                    }
                    if entity_eq(&store.entities[i], value) {
                        ActionOutcome::Skipped
                    } else {
                        let nv = clone_entity(value);
                        store.entities.set(i, nv);
                        proof {
                            assert(store@.entities =~= s0.entities.update(i as int, value@));
                            assert(store_wf(store@));
                        }
                        ActionOutcome::Succeeded
                    }
                },
                None => {
                    store.entities.push(clone_entity(value));
                    proof {
                        assert(store@.entities =~= s0.entities.push(value@));
                        assert(store_wf(store@));
                    }
                    ActionOutcome::Succeeded
                },
            }
        },
        ActionEffect::RemoveEntity { name } => {
            match find_entity(&store.entities, name) {
                None => ActionOutcome::Skipped,
                Some(i) => {
                    proof {
                        lemma_entity_idx_is(s0.entities, i as int);
                    }
                    store.entities.remove(i);
                    proof {
                        assert(store@.entities =~= s0.entities.remove(i as int));
                        assert(store_wf(store@));
                    }
                    ActionOutcome::Succeeded
                },
            }
        },
        ActionEffect::PutField { entity, field } => {
            match find_entity(&store.entities, entity) {
                None => ActionOutcome::Failed,
                Some(i) => {
                    proof {
                        lemma_entity_named_is_at(s0.entities, i as int);
                        lemma_entity_idx_is(s0.entities, i as int);
                        assert(entity_wf(s0.entities[i as int]));
                    }
                    let mut ent = clone_entity(&store.entities[i]);
                    match find_field(&ent.fields, &field.name) {
                        Some(fi) => {
                            proof {
                                lemma_field_named_is_at(s0.entities[i as int].fields, fi as int);
                                lemma_field_idx_is(s0.entities[i as int].fields, fi as int);
                            }
                            if field_eq(&ent.fields[fi], field) {
                                ActionOutcome::Skipped
                            } else {
                                ent.fields.set(fi, clone_field(field));
                                store.entities.set(i, ent);
                                proof {
                                    assert(store@.entities[i as int].fields =~= s0.entities[
                                        i as int
                                    ].fields.update(fi as int, field@));
                                    assert(store@.entities =~= apply_effect(s0, a@.effect).entities);
                                    assert(store_wf(store@));
                                }
                                ActionOutcome::Succeeded
                            }
                        },
                        None => {
                            ent.fields.push(clone_field(field));
                            store.entities.set(i, ent);
                            proof {
                                assert(store@.entities[i as int].fields =~= s0.entities[
                                    i as int
                                ].fields.push(field@));
                                assert(store@.entities =~= apply_effect(s0, a@.effect).entities);
                                assert(store_wf(store@));
                            }
                            ActionOutcome::Succeeded
                        },
                    }
                },
            }
        },
        ActionEffect::RemoveField { entity, field } => {
            match find_entity(&store.entities, entity) {
                None => ActionOutcome::Skipped,
                Some(i) => {
                    proof {
                        lemma_entity_named_is_at(s0.entities, i as int);
                        lemma_entity_idx_is(s0.entities, i as int);
                        assert(entity_wf(s0.entities[i as int]));
                    }
                    let mut ent = clone_entity(&store.entities[i]);
                    match find_field(&ent.fields, field) {
                        None => ActionOutcome::Skipped,
                        Some(fi) => {
                            proof {
                                lemma_field_named_is_at(s0.entities[i as int].fields, fi as int);
                                lemma_field_idx_is(s0.entities[i as int].fields, fi as int);
                            }
                            ent.fields.remove(fi);
                            store.entities.set(i, ent);
                            proof {
                                assert(store@.entities[i as int].fields =~= s0.entities[
                                    i as int
                                ].fields.remove(fi as int));
                                assert(store@.entities =~= apply_effect(s0, a@.effect).entities);
                                assert(store_wf(store@));
                            }
                            ActionOutcome::Succeeded
                        },
                    }
                },
            }
        },
    }
}

/// Runs every action of a plan in order against the store.
fn run_all(store: &mut Store, actions: &Vec<Action>, stop: bool) -> (out: Vec<ActionOutcome>)
    requires
        store_wf(old(store)@),
        plan_wf(actions.deep_view()),
    ensures
        final(store)@ == run_actions(old(store)@, actions.deep_view(), stop).0,
        out@ == run_actions(old(store)@, actions.deep_view(), stop).1,
        store_wf(final(store)@),
{
    let ghost s0 = store@;
    let ghost acts = actions.deep_view();
    let mut out: Vec<ActionOutcome> = Vec::new();
    let mut halted = false;
    let mut i: usize = 0;
    proof {
        assert(acts.skip(0) =~= acts);
    }
    while i < actions.len()
        invariant
            i <= actions.len(),
            acts == actions.deep_view(),
            acts.len() == actions.len(),
            store_wf(store@),
            plan_wf(acts),
            out.len() == i,
            !halted ==> run_actions(s0, acts, stop).0 == run_actions(store@, acts.skip(i as int), stop).0,
            !halted ==> run_actions(s0, acts, stop).1 =~= out@ + run_actions(
                store@,
                acts.skip(i as int),
                stop,
            ).1,
            halted ==> stop && run_actions(s0, acts, stop).0 == store@,
            halted ==> run_actions(s0, acts, stop).1 =~= out@ + all_skipped(acts.len() - i),
        decreases actions.len() - i,
    {
        if halted {
            out.push(ActionOutcome::Skipped);
            proof {
                assert(all_skipped(acts.len() - i) =~= seq![ActionOutcome::Skipped] + all_skipped(
                    acts.len() - i - 1,
                ));
            }
        } else {
            proof {
                assert(acts.skip(i as int)[0] == acts[i as int]);
                assert(acts.skip(i as int).skip(1) =~= acts.skip(i + 1));
                assert(acts.skip(i as int).len() == acts.len() - i);
            }
            let ghost scur = store@;
            let o = apply_action(store, &actions[i]);
            out.push(o);
            if stop && matches!(o, ActionOutcome::Failed) {
                halted = true;
                proof {
                    assert(run_actions(scur, acts.skip(i as int), stop).0 == step(
                        scur,
                        acts[i as int],
                    ).0);
                    assert(run_actions(scur, acts.skip(i as int), stop).1 =~= seq![o]
                        + all_skipped(acts.len() - i - 1));
                }
            }
        }
        i = i + 1;
    }
    proof {
        if !halted {
            assert(acts.skip(acts.len() as int) =~= Seq::<ActionModel>::empty());
            assert(run_actions(store@, acts.skip(acts.len() as int), stop).1 =~= Seq::<
                ActionOutcome,
            >::empty());
        }
        assert(out@ =~= run_actions(s0, acts, stop).1);
    }
    out
}

/// Copies a store; the copy models identically.
pub fn clone_store(s: &Store) -> (r: Store)
    ensures
        r@ == s@,
{
    Store { entities: clone_entities(&s.entities) }
}

/// Whether some action of the plan targets the named entity.
fn targets_entity_exec(actions: &Vec<Action>, name: &String) -> (r: bool)
    ensures
        r == targets_entity(actions.deep_view(), name@),
{
    let mut k: usize = 0;
    while k < actions.len()
        invariant
            k <= actions.len(),
            forall|x: int| 0 <= x < k ==> (#[trigger] actions.deep_view()[x]).target.entity
                != name@,
        decreases actions.len() - k,
    {
        if actions[k].target.entity == *name {
            proof {
                assert(actions.deep_view()[k as int].target.entity == name@);
            }
            return true;
        }
        k = k + 1;
    }
    false
}

/// Captures the pre-mutation backup: every store entity some action targets.
fn backup_targeted(store: &Store, actions: &Vec<Action>) -> (r: Store)
    ensures
        r@.entities == targeted_entities(store@, actions.deep_view()),
{
    let mut out: Vec<Entity> = Vec::new();
    let mut i: usize = 0;
    while i < store.entities.len()
        invariant
            i <= store.entities.len(),
            out.deep_view() =~= targeted_entities(
                StoreModel { entities: store@.entities.take(i as int) },
                actions.deep_view(),
            ),
        decreases store.entities.len() - i,
    {
        let e = &store.entities[i];
        if targets_entity_exec(actions, &e.entity_name) {
            out.push(clone_entity(e));
        }
        proof {
            assert(store@.entities.take(i + 1).drop_last() =~= store@.entities.take(i as int));
            assert(store@.entities.take(i + 1).last() == store@.entities[i as int]);
        }
        i = i + 1;
    }
    proof {
        assert(store@.entities.take(store.entities.len() as int) =~= store@.entities);
    }
    Store { entities: out }
}

/// Applies a plan to a store.
///
/// On a dry run the store is left exactly as it was and the outcomes are the
/// projection of what a real run would do from this state. On a real run the
/// store ends in the state the action sequence produces; with `backup` set,
/// the result carries a snapshot of every targeted entity taken before the
/// first mutation. The outcome report always covers every action in plan
/// order, with consistent counts and the plan's own identifier.
pub fn apply(plan: &ResolutionPlan, config: &ApplyConfig, store: &mut Store) -> (r: ApplyResult)
    requires
        store_wf(old(store)@),
        plan_wf(plan@.actions),
    ensures
        config.dry_run ==> final(store)@ == old(store)@,
        !config.dry_run ==> final(store)@ == run_actions(
            old(store)@,
            plan@.actions,
            config.stop_on_failure,
        ).0,
        store_wf(final(store)@),
        r.outcomes@ == run_actions(old(store)@, plan@.actions, config.stop_on_failure).1,
        r.plan_id@ == plan@.plan_id,
        r.dry_run == config.dry_run,
        (r.backup_ref is Some) <==> (config.backup && !config.dry_run),
        r.backup_ref matches Some(bk) ==> bk@.entities == targeted_entities(
            old(store)@,
            plan@.actions,
        ),
        r.succeeded_count as int == count_outcome(r.outcomes@, ActionOutcome::Succeeded),
        r.failed_count as int == count_outcome(r.outcomes@, ActionOutcome::Failed),
        r.skipped_count as int == count_outcome(r.outcomes@, ActionOutcome::Skipped),
{
    let backup_ref = if config.backup && !config.dry_run {
        Some(backup_targeted(store, &plan.actions))
    } else {
        None
    };
    let outcomes = if config.dry_run {
        let mut sim = clone_store(store);
        run_all(&mut sim, &plan.actions, config.stop_on_failure)
    } else {
        run_all(store, &plan.actions, config.stop_on_failure)
    };
    let mut succeeded_count: usize = 0;
    let mut failed_count: usize = 0;
    let mut skipped_count: usize = 0;
    let mut i: usize = 0;
    while i < outcomes.len()
        invariant
            i <= outcomes.len(),
            succeeded_count <= i,
            failed_count <= i,
            skipped_count <= i,
            succeeded_count as int == count_outcome(outcomes@.take(i as int), ActionOutcome::Succeeded),
            failed_count as int == count_outcome(outcomes@.take(i as int), ActionOutcome::Failed),
            skipped_count as int == count_outcome(outcomes@.take(i as int), ActionOutcome::Skipped),
        decreases outcomes.len() - i,
    {
        match outcomes[i] {
            ActionOutcome::Succeeded => {
                succeeded_count = succeeded_count + 1;
            },
            ActionOutcome::Failed => {
                failed_count = failed_count + 1;
            },
            ActionOutcome::Skipped => {
                skipped_count = skipped_count + 1;
            },
        }
        proof {
            assert(outcomes@.take(i + 1).drop_last() =~= outcomes@.take(i as int));
            assert(outcomes@.take(i + 1).last() == outcomes@[i as int]);
        }
        i = i + 1;
    }
    proof {
        assert(outcomes@.take(outcomes.len() as int) =~= outcomes@);
    }
    ApplyResult {
        plan_id: plan.plan_id.clone(),
        dry_run: config.dry_run,
        backup_ref,
        outcomes,
        succeeded_count,
        failed_count,
        skipped_count,
    }
}

/// The entity name an effect touches.
pub open spec fn effect_entity_name(e: ActionEffectModel) -> Seq<char> {
    match e {
        ActionEffectModel::PutEntity { value } => value.name,
        ActionEffectModel::RemoveEntity { name } => name,
        ActionEffectModel::PutField { entity, .. } => entity,
        ActionEffectModel::RemoveField { entity, .. } => entity,
        ActionEffectModel::NoEffect => Seq::empty(),
    }
}

/// The field name an effect touches, for field-level effects.
pub open spec fn effect_field_name(e: ActionEffectModel) -> Option<Seq<char>> {
    match e {
        ActionEffectModel::PutField { field, .. } => Some(field.name),
        ActionEffectModel::RemoveField { field, .. } => Some(field),
        _ => None,
    }
}

/// Two effects that cannot disturb each other: one does nothing, or they
/// touch different entities, or both are field-level on different fields.
pub open spec fn effects_independent(e1: ActionEffectModel, e2: ActionEffectModel) -> bool {
    ||| e1 is NoEffect
    ||| e2 is NoEffect
    ||| effect_entity_name(e1) != effect_entity_name(e2)
    ||| (effect_field_name(e1) is Some && effect_field_name(e2) is Some && effect_field_name(e1)
        != effect_field_name(e2))
}

/// A plan whose actions are pairwise independent, as plans built by
/// `propose` from a diff with distinct targets are.
pub open spec fn plan_independent(acts: Seq<ActionModel>) -> bool {
    forall|k: int, l: int| 0 <= k < l < acts.len() ==> effects_independent(
        (#[trigger] acts[k]).effect,
        (#[trigger] acts[l]).effect,
    )
}

/// A step keeps the store well-formed.
proof fn lemma_step_wf(s: StoreModel, a: ActionModel)
    requires
        store_wf(s),
        a.effect matches ActionEffectModel::PutEntity { value } ==> entity_wf(value),
    ensures
        store_wf(step(s, a).0),
{
    let s1 = step(s, a).0;
    if a.kind != ActionKind::ManualReview && !effect_satisfied(s, a.effect) && effect_applicable(
        s,
        a.effect,
    ) {
        match a.effect {
            ActionEffectModel::PutEntity { value } => {
                if has_entity(s.entities, value.name) {
                    let i = entity_idx(s.entities, value.name);
                    assert(0 <= i < s.entities.len() && s.entities[i].name == value.name);
                    assert(store_wf(s1));
                } else {
                    assert(store_wf(s1));
                }
            },
            ActionEffectModel::RemoveEntity { name } => {
                let i = entity_idx(s.entities, name);
                assert(0 <= i < s.entities.len() && s.entities[i].name == name);
                let es = s.entities.remove(i);
                assert forall|p: int, q: int| 0 <= p < q < es.len() implies es[p].name
                    != es[q].name by {
                    assert(es[p] == (if p < i {
                        s.entities[p]
                    } else {
                        s.entities[p + 1]
                    }));
                    assert(es[q] == (if q < i {
                        s.entities[q]
                    } else {
                        s.entities[q + 1]
                    }));
                }
                assert(store_wf(s1));
            },
            ActionEffectModel::PutField { entity, field } => {
                let i = entity_idx(s.entities, entity);
                assert(0 <= i < s.entities.len() && s.entities[i].name == entity);
                let ent = s.entities[i];
                assert(entity_wf(ent));
                if has_field(ent.fields, field.name) {
                    let fi = field_idx(ent.fields, field.name);
                    assert(0 <= fi < ent.fields.len() && ent.fields[fi].name == field.name);
                    assert(entity_wf(s1.entities[i]));
                } else {
                    assert(entity_wf(s1.entities[i]));
                }
                assert(store_wf(s1));
            },
            ActionEffectModel::RemoveField { entity, field } => {
                let i = entity_idx(s.entities, entity);
                assert(0 <= i < s.entities.len() && s.entities[i].name == entity);
                let ent = s.entities[i];
                assert(entity_wf(ent));
                let fi = field_idx(ent.fields, field);
                assert(0 <= fi < ent.fields.len() && ent.fields[fi].name == field);
                let nf = ent.fields.remove(fi);
                assert forall|p: int, q: int| 0 <= p < q < nf.len() implies nf[p].name
                    != nf[q].name by {
                    assert(nf[p] == (if p < fi {
                        ent.fields[p]
                    } else {
                        ent.fields[p + 1]
                    }));
                    assert(nf[q] == (if q < fi {
                        ent.fields[q]
                    } else {
                        ent.fields[q + 1]
                    }));
                }
                assert(entity_wf(s1.entities[i]));
                assert(store_wf(s1));
            },
            ActionEffectModel::NoEffect => {},
        }
    }
}

/// A step that does not fail leaves its own effect satisfied, unless the
/// action only records a decision.
proof fn lemma_step_establishes(s: StoreModel, a: ActionModel)
    requires
        store_wf(s),
        a.effect matches ActionEffectModel::PutEntity { value } ==> entity_wf(value),
        step(s, a).1 != ActionOutcome::Failed,
        a.kind != ActionKind::ManualReview,
    ensures
        effect_satisfied(step(s, a).0, a.effect),
{
    let s1 = step(s, a).0;
    lemma_step_wf(s, a);
    if !effect_satisfied(s, a.effect) {
        assert(effect_applicable(s, a.effect));
        match a.effect {
            ActionEffectModel::PutEntity { value } => {
                if has_entity(s.entities, value.name) {
                    let i = entity_idx(s.entities, value.name);
                    assert(0 <= i < s.entities.len() && s.entities[i].name == value.name);
                    assert(s1.entities[i] == value);
                    lemma_entity_idx_is(s1.entities, i);
                    assert(entity_named(s1.entities, value.name) == value);
                } else {
                    let i = s.entities.len() as int;
                    assert(s1.entities[i] == value);
                    lemma_entity_idx_is(s1.entities, i);
                    assert(entity_named(s1.entities, value.name) == value);
                }
            },
            ActionEffectModel::RemoveEntity { name } => {
                let i = entity_idx(s.entities, name);
                assert(0 <= i < s.entities.len() && s.entities[i].name == name);
                assert forall|k: int| 0 <= k < s1.entities.len() implies s1.entities[k].name
                    != name by {
                    assert(s1.entities[k] == (if k < i {
                        s.entities[k]
                    } else {
                        s.entities[k + 1]
                    }));
                    if k < i {
                        assert(s.entities[k].name != s.entities[i].name);
                    } else {
                        assert(s.entities[i].name != s.entities[k + 1].name);
                    }
                }
            },
            ActionEffectModel::PutField { entity, field } => {
                let i = entity_idx(s.entities, entity);
                assert(0 <= i < s.entities.len() && s.entities[i].name == entity);
                let ent = s.entities[i];
                assert(entity_wf(ent));
                lemma_entity_idx_is(s1.entities, i);
                assert(entity_named(s1.entities, entity) == s1.entities[i]);
                let nf = s1.entities[i].fields;
                if has_field(ent.fields, field.name) {
                    let fi = field_idx(ent.fields, field.name);
                    assert(0 <= fi < ent.fields.len() && ent.fields[fi].name == field.name);
                    assert(nf[fi] == field);
                    assert(entity_wf(s1.entities[i]));
                    lemma_field_idx_is(nf, fi);
                    assert(field_named(nf, field.name) == field);
                } else {
                    let fi = ent.fields.len() as int;
                    assert(nf[fi] == field);
                    assert(entity_wf(s1.entities[i]));
                    lemma_field_idx_is(nf, fi);
                    assert(field_named(nf, field.name) == field);
                }
            },
            ActionEffectModel::RemoveField { entity, field } => {
                let i = entity_idx(s.entities, entity);
                assert(0 <= i < s.entities.len() && s.entities[i].name == entity);
                let ent = s.entities[i];
                assert(entity_wf(ent));
                let fi = field_idx(ent.fields, field);
                assert(0 <= fi < ent.fields.len() && ent.fields[fi].name == field);
                lemma_entity_idx_is(s1.entities, i);
                assert(entity_named(s1.entities, entity) == s1.entities[i]);
                let nf = s1.entities[i].fields;
                assert forall|k: int| 0 <= k < nf.len() implies nf[k].name != field by {
                    assert(nf[k] == (if k < fi {
                        ent.fields[k]
                    } else {
                        ent.fields[k + 1]
                    }));
                    if k < fi {
                        assert(ent.fields[k].name != ent.fields[fi].name);
                    } else {
                        assert(ent.fields[fi].name != ent.fields[k + 1].name);
                    }
                }
            },
            ActionEffectModel::NoEffect => {},
        }
    }
}

/// Looking up an entity the effect does not touch is unchanged by the step.
proof fn lemma_step_lookup_frame(s: StoreModel, a: ActionModel, n: Seq<char>)
    requires
        store_wf(s),
        a.effect matches ActionEffectModel::PutEntity { value } ==> entity_wf(value),
        n != effect_entity_name(a.effect),
    ensures
        has_entity(step(s, a).0.entities, n) == has_entity(s.entities, n),
        has_entity(s.entities, n) ==> entity_named(step(s, a).0.entities, n) == entity_named(
            s.entities,
            n,
        ),
{
    let s1 = step(s, a).0;
    lemma_step_wf(s, a);
    if a.kind != ActionKind::ManualReview && !effect_satisfied(s, a.effect) && effect_applicable(
        s,
        a.effect,
    ) {
        match a.effect {
            ActionEffectModel::RemoveEntity { name } => {
                let i = entity_idx(s.entities, name);
                assert(0 <= i < s.entities.len() && s.entities[i].name == name);
                assert forall|k: int| 0 <= k < s1.entities.len() implies #[trigger] s1.entities[k]
                    == (if k < i {
                    s.entities[k]
                } else {
                    s.entities[k + 1]
                }) by {}
                if has_entity(s.entities, n) {
                    let j = entity_idx(s.entities, n);
                    assert(0 <= j < s.entities.len() && s.entities[j].name == n);
                    assert(j != i);
                    lemma_entity_idx_is(s.entities, j);
                    if j < i {
                        assert(s1.entities[j] == s.entities[j]);
                        lemma_entity_idx_is(s1.entities, j);
                    } else {
                        assert(s1.entities[j - 1] == s.entities[j]);
                        lemma_entity_idx_is(s1.entities, j - 1);
                    }
                }
                if has_entity(s1.entities, n) {
                    let j = entity_idx(s1.entities, n);
                    assert(0 <= j < s1.entities.len() && s1.entities[j].name == n);
                }
            },
            ActionEffectModel::PutEntity { value } => {
                if has_entity(s.entities, value.name) {
                    let i = entity_idx(s.entities, value.name);
                    assert(0 <= i < s.entities.len() && s.entities[i].name == value.name);
                    if has_entity(s.entities, n) {
                        let j = entity_idx(s.entities, n);
                        assert(0 <= j < s.entities.len() && s.entities[j].name == n);
                        assert(j != i);
                        assert(s1.entities[j] == s.entities[j]);
                        lemma_entity_idx_is(s.entities, j);
                        lemma_entity_idx_is(s1.entities, j);
                    }
                    if has_entity(s1.entities, n) {
                        let j = entity_idx(s1.entities, n);
                        assert(0 <= j < s1.entities.len() && s1.entities[j].name == n);
                        assert(j != i);
                        assert(s.entities[j].name == n);
                    }
                } else {
                    if has_entity(s.entities, n) {
                        let j = entity_idx(s.entities, n);
                        assert(s1.entities[j] == s.entities[j]);
                        lemma_entity_idx_is(s.entities, j);
                        lemma_entity_idx_is(s1.entities, j);
                    }
                    if has_entity(s1.entities, n) {
                        let j = entity_idx(s1.entities, n);
                        assert(0 <= j < s1.entities.len() && s1.entities[j].name == n);
                        assert(j < s.entities.len());
                    }
                }
            },
            ActionEffectModel::PutField { entity, .. } => {
                let i = entity_idx(s.entities, entity);
                assert(0 <= i < s.entities.len() && s.entities[i].name == entity);
                if has_entity(s.entities, n) {
                    let j = entity_idx(s.entities, n);
                    assert(0 <= j < s.entities.len() && s.entities[j].name == n);
                    assert(j != i);
                    assert(s1.entities[j] == s.entities[j]);
                    lemma_entity_idx_is(s.entities, j);
                    lemma_entity_idx_is(s1.entities, j);
                }
                if has_entity(s1.entities, n) {
                    let j = entity_idx(s1.entities, n);
                    assert(0 <= j < s1.entities.len() && s1.entities[j].name == n);
                    assert(s.entities[j].name == n);
                }
            },
            ActionEffectModel::RemoveField { entity, .. } => {
                let i = entity_idx(s.entities, entity);
                assert(0 <= i < s.entities.len() && s.entities[i].name == entity);
                if has_entity(s.entities, n) {
                    let j = entity_idx(s.entities, n);
                    assert(0 <= j < s.entities.len() && s.entities[j].name == n);
                    assert(j != i);
                    assert(s1.entities[j] == s.entities[j]);
                    lemma_entity_idx_is(s.entities, j);
                    lemma_entity_idx_is(s1.entities, j);
                }
                if has_entity(s1.entities, n) {
                    let j = entity_idx(s1.entities, n);
                    assert(0 <= j < s1.entities.len() && s1.entities[j].name == n);
                    assert(s.entities[j].name == n);
                }
            },
            ActionEffectModel::NoEffect => {},
        }
    }
}

/// A satisfied effect stays satisfied across a step with an independent
/// effect.
proof fn lemma_step_preserves(s: StoreModel, a: ActionModel, e1: ActionEffectModel)
    requires
        store_wf(s),
        a.effect matches ActionEffectModel::PutEntity { value } ==> entity_wf(value),
        effects_independent(e1, a.effect),
        effect_satisfied(s, e1),
    ensures
        effect_satisfied(step(s, a).0, e1),
{
    let s1 = step(s, a).0;
    lemma_step_wf(s, a);
    if e1 is NoEffect || s1 == s {
        return ;
    }
    if effect_entity_name(e1) != effect_entity_name(a.effect) {
        lemma_step_lookup_frame(s, a, effect_entity_name(e1));
        return ;
    }
    // Same entity; independence then forces both to be field-level with
    // different field names, and the step's effect is a field update, push
    // or removal inside that one entity.
    let n = effect_entity_name(e1);
    let i = entity_idx(s.entities, n);
    assert(has_entity(s.entities, n));
    assert(0 <= i < s.entities.len() && s.entities[i].name == n);
    let ent = s.entities[i];
    assert(entity_wf(ent));
    let f1 = effect_field_name(e1)->Some_0;
    let f2 = effect_field_name(a.effect)->Some_0;
    assert(f1 != f2);
    lemma_entity_idx_is(s.entities, i);
    assert(entity_named(s.entities, n) == ent);
    assert(s1.entities[i].name == n);
    lemma_entity_idx_is(s1.entities, i);
    assert(entity_named(s1.entities, n) == s1.entities[i]);
    let nf = s1.entities[i].fields;
    match a.effect {
        ActionEffectModel::PutField { entity, field } => {
            if has_field(ent.fields, field.name) {
                let fi = field_idx(ent.fields, field.name);
                assert(0 <= fi < ent.fields.len() && ent.fields[fi].name == field.name);
                if has_field(ent.fields, f1) {
                    let fj = field_idx(ent.fields, f1);
                    assert(0 <= fj < ent.fields.len() && ent.fields[fj].name == f1);
                    assert(fj != fi);
                    assert(nf[fj] == ent.fields[fj]);
                    lemma_field_idx_is(ent.fields, fj);
                    assert(entity_wf(s1.entities[i]));
                    lemma_field_idx_is(nf, fj);
                }
                if has_field(nf, f1) {
                    let fj = field_idx(nf, f1);
                    assert(0 <= fj < nf.len() && nf[fj].name == f1);
                    assert(ent.fields[fj].name == f1);
                }
            } else {
                if has_field(ent.fields, f1) {
                    let fj = field_idx(ent.fields, f1);
                    assert(nf[fj] == ent.fields[fj]);
                    lemma_field_idx_is(ent.fields, fj);
                    assert(entity_wf(s1.entities[i]));
                    lemma_field_idx_is(nf, fj);
                }
                if has_field(nf, f1) {
                    let fj = field_idx(nf, f1);
                    assert(0 <= fj < nf.len() && nf[fj].name == f1);
                    assert(fj < ent.fields.len());
                }
            }
        },
        ActionEffectModel::RemoveField { entity, field } => {
            let fi = field_idx(ent.fields, field);
            assert(0 <= fi < ent.fields.len() && ent.fields[fi].name == field);
            assert forall|k: int| 0 <= k < nf.len() implies #[trigger] nf[k] == (if k < fi {
                ent.fields[k]
            } else {
                ent.fields[k + 1]
            }) by {}
            if has_field(ent.fields, f1) {
                let fj = field_idx(ent.fields, f1);
                assert(0 <= fj < ent.fields.len() && ent.fields[fj].name == f1);
                assert(fj != fi);
                lemma_field_idx_is(ent.fields, fj);
                assert(entity_wf(s1.entities[i]));
                if fj < fi {
                    assert(nf[fj] == ent.fields[fj]);
                    lemma_field_idx_is(nf, fj);
                } else {
                    assert(nf[fj - 1] == ent.fields[fj]);
                    lemma_field_idx_is(nf, fj - 1);
                }
            }
            if has_field(nf, f1) {
                let fj = field_idx(nf, f1);
                assert(0 <= fj < nf.len() && nf[fj].name == f1);
            }
        },
        _ => {
            assert(false);
        },
    }
}

/// After a run with no failed action, the desired state of every action
/// that is not a manual-review record holds in the final store.
proof fn lemma_run_establishes(s: StoreModel, acts: Seq<ActionModel>, stop: bool)
    requires
        store_wf(s),
        plan_wf(acts),
        plan_independent(acts),
        forall|k: int| 0 <= k < run_actions(s, acts, stop).1.len() ==> run_actions(
            s,
            acts,
            stop,
        ).1[k] != ActionOutcome::Failed,
    ensures
        store_wf(run_actions(s, acts, stop).0),
        forall|k: int| 0 <= k < acts.len() && (#[trigger] acts[k]).kind != ActionKind::ManualReview
            ==> effect_satisfied(run_actions(s, acts, stop).0, acts[k].effect),
    decreases acts.len(),
{
    if acts.len() == 0 {
        return ;
    }
    let so = step(s, acts[0]);
    assert(run_actions(s, acts, stop).1[0] == so.1);
    assert(so.1 != ActionOutcome::Failed);
    lemma_step_wf(s, acts[0]);
    let rest = acts.skip(1);
    assert(plan_wf(rest) && plan_independent(rest)) by {
        assert(forall|k: int| 0 <= k < rest.len() ==> #[trigger] rest[k] == acts[k + 1]);
    }
    assert(forall|k: int| 0 <= k < run_actions(so.0, rest, stop).1.len() ==> #[trigger] run_actions(
        so.0,
        rest,
        stop,
    ).1[k] != ActionOutcome::Failed) by {
        assert(forall|k: int| 0 <= k < run_actions(so.0, rest, stop).1.len()
            ==> #[trigger] run_actions(so.0, rest, stop).1[k] == run_actions(s, acts, stop).1[k
            + 1]);
    }
    lemma_run_establishes(so.0, rest, stop);
    let sfin = run_actions(s, acts, stop).0;
    assert(sfin == run_actions(so.0, rest, stop).0);
    assert forall|k: int| 0 <= k < acts.len() && (#[trigger] acts[k]).kind
        != ActionKind::ManualReview implies effect_satisfied(sfin, acts[k].effect) by {
        if k == 0 {
            lemma_step_establishes(s, acts[0]);
            lemma_run_preserves(so.0, rest, stop, acts[0].effect);
        } else {
            assert(rest[k - 1] == acts[k]);
        }
    }
}

/// A satisfied effect, independent of every action of a run, stays
/// satisfied through the whole run.
proof fn lemma_run_preserves(s: StoreModel, acts: Seq<ActionModel>, stop: bool, e1: ActionEffectModel)
    requires
        store_wf(s),
        plan_wf(acts),
        effect_satisfied(s, e1),
        forall|k: int| 0 <= k < acts.len() ==> effects_independent(
            e1,
            (#[trigger] acts[k]).effect,
        ),
    ensures
        effect_satisfied(run_actions(s, acts, stop).0, e1),
    decreases acts.len(),
{
    if acts.len() > 0 {
        let so = step(s, acts[0]);
        lemma_step_wf(s, acts[0]);
        lemma_step_preserves(s, acts[0], e1);
        if !(stop && so.1 == ActionOutcome::Failed) {
            let rest = acts.skip(1);
            assert(plan_wf(rest)) by {
                assert(forall|k: int| 0 <= k < rest.len() ==> #[trigger] rest[k] == acts[k + 1]);
            }
            assert(forall|k: int| 0 <= k < rest.len() ==> effects_independent(
                e1,
                (#[trigger] rest[k]).effect,
            )) by {
                assert(forall|k: int| 0 <= k < rest.len() ==> #[trigger] rest[k] == acts[k + 1]);
            }
            lemma_run_preserves(so.0, rest, stop, e1);
        }
    }
}

/// Re-applying a fully applied plan changes nothing: after a run of a
/// pairwise-independent plan in which no action failed, running the same
/// plan again from the resulting store leaves the store as it is and
/// records every action as skipped.
pub proof fn lemma_reapply_is_idempotent(s: StoreModel, acts: Seq<ActionModel>, stop: bool)
    requires
        store_wf(s),
        plan_wf(acts),
        plan_independent(acts),
        forall|k: int| 0 <= k < run_actions(s, acts, stop).1.len() ==> run_actions(
            s,
            acts,
            stop,
        ).1[k] != ActionOutcome::Failed,
    ensures
        run_actions(run_actions(s, acts, stop).0, acts, stop).0 == run_actions(s, acts, stop).0,
        run_actions(run_actions(s, acts, stop).0, acts, stop).1 =~= all_skipped(
            acts.len() as int,
        ),
{
    lemma_run_establishes(s, acts, stop);
    let s1 = run_actions(s, acts, stop).0;
    lemma_rerun_all_satisfied(s1, acts, stop);
}

/// Running actions whose desired states already all hold is a no-op: every
/// action is skipped and the store does not change.
proof fn lemma_rerun_all_satisfied(s: StoreModel, acts: Seq<ActionModel>, stop: bool)
    requires
        store_wf(s),
        forall|k: int| 0 <= k < acts.len() && (#[trigger] acts[k]).kind != ActionKind::ManualReview
            ==> effect_satisfied(s, acts[k].effect),
    ensures
        run_actions(s, acts, stop).0 == s,
        run_actions(s, acts, stop).1 =~= all_skipped(acts.len() as int),
    decreases acts.len(),
{
    if acts.len() > 0 {
        let so = step(s, acts[0]);
        assert(so.0 == s && so.1 == ActionOutcome::Skipped);
        let rest = acts.skip(1);
        assert(forall|k: int| 0 <= k < rest.len() && (#[trigger] rest[k]).kind
            != ActionKind::ManualReview ==> effect_satisfied(s, rest[k].effect)) by {
            assert(forall|k: int| 0 <= k < rest.len() ==> #[trigger] rest[k] == acts[k + 1]);
        }
        lemma_rerun_all_satisfied(s, rest, stop);
        assert(run_actions(s, acts, stop).1 =~= all_skipped(acts.len() as int));
    }
}

proof fn lemma_added_actions_wf(cs: Seq<ChangeModel>, cfg: ResolveConfig, conf: int)
    requires
        changes_carry_wf(cs),
    ensures
        plan_wf(added_actions(cs, cfg, conf)),
    decreases cs.len(),
{
    if cs.len() > 0 {
        assert(changes_carry_wf(cs.drop_last())) by {
            assert(forall|k: int| 0 <= k < cs.drop_last().len() ==> #[trigger] cs.drop_last()[k]
                == cs[k]);
        }
        lemma_added_actions_wf(cs.drop_last(), cfg, conf);
        let whole = added_actions(cs, cfg, conf);
        let prev = added_actions(cs.drop_last(), cfg, conf);
        assert forall|k: int| 0 <= k < whole.len() implies ((#[trigger] whole[k]).effect matches
            ActionEffectModel::PutEntity { value } ==> entity_wf(value)) by {
            if k < prev.len() {
                assert(whole[k] == prev[k]);
            } else {
                assert(whole[k] == action_for_added(cs.last(), cfg, conf));
                assert(cs[cs.len() - 1] == cs.last());
            }
        }
    }
}

proof fn lemma_removed_actions_wf(cs: Seq<ChangeModel>, cfg: ResolveConfig, conf: int)
    requires
        changes_carry_wf(cs),
    ensures
        plan_wf(removed_actions(cs, cfg, conf)),
    decreases cs.len(),
{
    if cs.len() > 0 {
        assert(changes_carry_wf(cs.drop_last())) by {
            assert(forall|k: int| 0 <= k < cs.drop_last().len() ==> #[trigger] cs.drop_last()[k]
                == cs[k]);
        }
        lemma_removed_actions_wf(cs.drop_last(), cfg, conf);
        let whole = removed_actions(cs, cfg, conf);
        let prev = removed_actions(cs.drop_last(), cfg, conf);
        assert forall|k: int| 0 <= k < whole.len() implies ((#[trigger] whole[k]).effect matches
            ActionEffectModel::PutEntity { value } ==> entity_wf(value)) by {
            if k < prev.len() {
                assert(whole[k] == prev[k]);
            } else {
                assert(whole[k] == action_for_removed(cs.last(), cfg, conf));
                assert(cs[cs.len() - 1] == cs.last());
            }
        }
    }
}

proof fn lemma_modified_actions_wf(
    ms: Seq<ModificationModel>,
    cfg: ResolveConfig,
    base: int,
    conf: int,
)
    ensures
        plan_wf(modified_actions(ms, cfg, base, conf)),
    decreases ms.len(),
{
    if ms.len() > 0 {
        lemma_modified_actions_wf(ms.drop_last(), cfg, base, conf);
        let whole = modified_actions(ms, cfg, base, conf);
        let prev = modified_actions(ms.drop_last(), cfg, base, conf);
        assert forall|k: int| 0 <= k < whole.len() implies ((#[trigger] whole[k]).effect matches
            ActionEffectModel::PutEntity { value } ==> entity_wf(value)) by {
            if k < prev.len() {
                assert(whole[k] == prev[k]);
            } else {
                assert(whole[k] == action_for_modified(ms.last(), cfg, base, conf));
            }
        }
    }
}

/// Sorting a plan group neither adds nor loses an ill-formed entity put.
proof fn lemma_sort_preserves_plan_wf(s: Seq<ActionModel>)
    requires
        plan_wf(s),
    ensures
        plan_wf(sort_by_path(s)),
{
    broadcast use vstd::multiset::group_multiset_axioms;

    crate::resolve::lemma_sort_by_path_props(s);
    let sorted = sort_by_path(s);
    sorted.to_multiset_ensures();
    s.to_multiset_ensures();
    assert forall|k: int| 0 <= k < sorted.len() implies ((#[trigger] sorted[k]).effect matches
        ActionEffectModel::PutEntity { value } ==> entity_wf(value)) by {
        let e = sorted[k];
        assert(sorted.contains(e));
        assert(sorted.to_multiset().count(e) > 0);
        assert(s.to_multiset().count(e) > 0);
        assert(s.contains(e));
        let l = choose|l: int| 0 <= l < s.len() && s[l] == e;
        assert(s[l] == e);
    }
}

/// What `propose` emits keeps stores well-formed, whenever the diff's
/// change sets carry only well-formed entity definitions — which
/// [`crate::compare::lemma_compare_changes_wf`] shows of every diff the
/// comparator produces.
pub proof fn lemma_propose_plan_wf(d: ComparisonModel, cfg: ResolveConfig)
    requires
        changes_carry_wf(d.added),
        changes_carry_wf(d.removed),
    ensures
        plan_wf(crate::resolve::propose_model(d, cfg).actions),
{
    let base = crate::resolve::diff_similarity_pm(d);
    let conf = crate::resolve::confidence_of(cfg.strategy, base);
    lemma_added_actions_wf(d.added, cfg, conf);
    lemma_removed_actions_wf(d.removed, cfg, conf);
    lemma_modified_actions_wf(d.modified, cfg, base, conf);
    lemma_sort_preserves_plan_wf(added_actions(d.added, cfg, conf));
    lemma_sort_preserves_plan_wf(removed_actions(d.removed, cfg, conf));
    lemma_sort_preserves_plan_wf(modified_actions(d.modified, cfg, base, conf));
    let g1 = sort_by_path(added_actions(d.added, cfg, conf));
    let g2 = sort_by_path(removed_actions(d.removed, cfg, conf));
    let g3 = sort_by_path(modified_actions(d.modified, cfg, base, conf));
    let whole = crate::resolve::propose_model(d, cfg).actions;
    assert(whole == g1 + g2 + g3);
    assert forall|k: int| 0 <= k < whole.len() implies ((#[trigger] whole[k]).effect matches
        ActionEffectModel::PutEntity { value } ==> entity_wf(value)) by {
        if k < g1.len() {
            assert(whole[k] == g1[k]);
        } else if k < g1.len() + g2.len() {
            assert(whole[k] == g2[k - g1.len()]);
        } else {
            assert(whole[k] == g3[k - g1.len() - g2.len()]);
        }
    }
}

} // verus!
