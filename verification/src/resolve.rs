//! Resolver: turns a diff into an actionable, deterministic plan.
//!
//! `propose` is a pure function of the diff and the configuration. Actions
//! are emitted group by group — all added, then all removed, then all
//! modified — with each group sorted by target path (entity names in UTF-8
//! byte order, an entity path before its field paths, then field names), so
//! two calls with identical inputs produce identical plans.
//!
//! Policy, per change kind:
//! - added items: `accept_b`, unless the preferred source is A, then `drop`;
//! - removed items: `accept_a`, unless the preferred source is B, then `drop`;
//! - modified items: the strategy decides — `conservative` always defers to
//!   `manual_review`; `aggressive` always resolves per the preferred source;
//!   `balanced` resolves per the preferred source when the diff's similarity
//!   is at least one half, and defers otherwise. An entity rename is always
//!   deferred to `manual_review`: it changes identity, not an attribute.
//!
//! Confidence is derived monotonically from the diff's similarity and the
//! strategy's risk tolerance: half of it for `conservative`, as-is for
//! `balanced`, and halfway between it and certainty for `aggressive`.

use vstd::prelude::*;
use vstd::string::StringExecFns;
use crate::ir::{Entity, EntityModel, Field, FieldModel, clone_entity, clone_field};
use crate::compare::{
    Change, ChangeModel, ComparisonModel, ComparisonResult, Modification, ModificationModel,
    TargetPath, TargetPathModel, change_target, lex_lt_bytes, modification_target,
    similarity_pm_of, statistics_ok, str_bytes_eq, str_bytes_lt,
};
use vstd::utf8::encode_utf8;
use vstd::multiset::Multiset;

verus! {

/// Risk tolerance of the resolver.
#[derive(Debug, Clone, Copy, PartialEq, Eq, Structural)]
pub enum ResolveStrategy {
    Conservative,
    Aggressive,
    Balanced,
}

/// Which side wins an automatically resolved conflict.
#[derive(Debug, Clone, Copy, PartialEq, Eq, Structural)]
pub enum PreferSource {
    A,
    B,
    Merge,
}

/// Configuration of one resolution.
#[derive(Debug, Clone, Copy, PartialEq, Eq, Structural)]
pub struct ResolveConfig {
    pub strategy: ResolveStrategy,
    pub prefer_source: PreferSource,
}

impl Default for ResolveConfig {
    /// The default resolution: balanced strategy, merging conflicts.
    fn default() -> (r: ResolveConfig)
        ensures
            r.strategy == ResolveStrategy::Balanced,
            r.prefer_source == PreferSource::Merge,
    {
        ResolveConfig { strategy: ResolveStrategy::Balanced, prefer_source: PreferSource::Merge }
    }
}

/// What an action proposes to do.
#[derive(Debug, Clone, Copy, PartialEq, Eq, Structural)]
pub enum ActionKind {
    AcceptA,
    AcceptB,
    Merge,
    Rename,
    Drop,
    ManualReview,
}

/// The store effect of an action: the desired state it establishes.
#[derive(Debug, Clone, PartialEq, Eq)]
pub enum ActionEffect {
    /// The named entity exists with exactly this definition.
    PutEntity { value: Entity },
    /// No entity of this name exists.
    RemoveEntity { name: String },
    /// The named entity carries a field with exactly this definition.
    PutField { entity: String, field: Field },
    /// The named entity carries no field of this name.
    RemoveField { entity: String, field: String },
    /// Nothing; carried by actions that only record a decision.
    NoEffect,
}

/// Mathematical model of an [`ActionEffect`].
pub ghost enum ActionEffectModel {
    PutEntity { value: EntityModel },
    RemoveEntity { name: Seq<char> },
    PutField { entity: Seq<char>, field: FieldModel },
    RemoveField { entity: Seq<char>, field: Seq<char> },
    NoEffect,
}

impl View for ActionEffect {
    type V = ActionEffectModel;

    open spec fn view(&self) -> ActionEffectModel {
        match self {
            ActionEffect::PutEntity { value } => ActionEffectModel::PutEntity { value: value@ },
            ActionEffect::RemoveEntity { name } => ActionEffectModel::RemoveEntity { name: name@ },
            ActionEffect::PutField { entity, field } => ActionEffectModel::PutField {
                entity: entity@,
                field: field@,
            },
            ActionEffect::RemoveField { entity, field } => ActionEffectModel::RemoveField {
                entity: entity@,
                field: field@,
            },
            ActionEffect::NoEffect => ActionEffectModel::NoEffect,
        }
    }
}

impl DeepView for ActionEffect {
    type V = ActionEffectModel;

    open spec fn deep_view(&self) -> ActionEffectModel {
        self.view()
    }
}

/// One proposed reconciliation action.
#[derive(Debug, Clone, PartialEq, Eq)]
pub struct Action {
    /// The entity or field the action concerns.
    pub target: TargetPath,
    /// What the action proposes.
    pub kind: ActionKind,
    /// Confidence in per mille.
    pub confidence_pm: u32,
    /// The desired store state the action establishes when applied.
    pub effect: ActionEffect,
}

/// Mathematical model of an [`Action`].
pub ghost struct ActionModel {
    pub target: TargetPathModel,
    pub kind: ActionKind,
    pub confidence_pm: u32,
    pub effect: ActionEffectModel,
}

impl View for Action {
    type V = ActionModel;

    open spec fn view(&self) -> ActionModel {
        ActionModel {
            target: self.target@,
            kind: self.kind,
            confidence_pm: self.confidence_pm,
            effect: self.effect@,
        }
    }
}

impl DeepView for Action {
    type V = ActionModel;

    open spec fn deep_view(&self) -> ActionModel {
        self.view()
    }
}

/// An ordered, immutable plan of reconciliation actions.
#[derive(Debug, Clone, PartialEq, Eq)]
pub struct ResolutionPlan {
    /// Identifier correlating apply results to this plan.
    pub plan_id: String,
    /// Actions, in deterministic emission order.
    pub actions: Vec<Action>,
}

/// Mathematical model of a [`ResolutionPlan`].
pub ghost struct PlanModel {
    pub plan_id: Seq<char>,
    pub actions: Seq<ActionModel>,
}

impl View for ResolutionPlan {
    type V = PlanModel;

    open spec fn view(&self) -> PlanModel {
        PlanModel { plan_id: self.plan_id@, actions: self.actions.deep_view() }
    }
}

/// Confidence of every action of a plan, from the diff's similarity and the
/// strategy's risk tolerance; monotone in the similarity.
pub open spec fn confidence_of(strategy: ResolveStrategy, base: int) -> int {
    match strategy {
        ResolveStrategy::Conservative => base / 2,
        ResolveStrategy::Balanced => base,
        ResolveStrategy::Aggressive => (base + 1000) / 2,
    }
}

/// The merge of two conflicting field definitions: keeps the name, takes the
/// second side's type, admits null if either side does, and takes the second
/// side's default and key marker where present, else the first side's.
pub open spec fn merged_field(f: FieldModel, g: FieldModel) -> FieldModel {
    FieldModel {
        name: f.name,
        declared_type: g.declared_type,
        nullable: f.nullable || g.nullable,
        default: if g.default is Some {
            g.default
        } else {
            f.default
        },
        is_primary_key: if g.is_primary_key is Some {
            g.is_primary_key
        } else {
            f.is_primary_key
        },
    }
}

/// The action resolving one added item.
pub open spec fn action_for_added(c: ChangeModel, cfg: ResolveConfig, conf: int) -> ActionModel {
    let kind = if cfg.prefer_source == PreferSource::A {
        ActionKind::Drop
    } else {
        ActionKind::AcceptB
    };
    let effect = if cfg.prefer_source == PreferSource::A {
        match c {
            ChangeModel::Entity { value } => ActionEffectModel::RemoveEntity { name: value.name },
            ChangeModel::Field { entity, value } => ActionEffectModel::RemoveField {
                entity,
                field: value.name,
            },
        }
    } else {
        match c {
            ChangeModel::Entity { value } => ActionEffectModel::PutEntity { value },
            ChangeModel::Field { entity, value } => ActionEffectModel::PutField {
                entity,
                field: value,
            },
        }
    };
    ActionModel { target: change_target(c), kind, confidence_pm: conf as u32, effect }
}

/// The action resolving one removed item.
pub open spec fn action_for_removed(c: ChangeModel, cfg: ResolveConfig, conf: int) -> ActionModel {
    let kind = if cfg.prefer_source == PreferSource::B {
        ActionKind::Drop
    } else {
        ActionKind::AcceptA
    };
    let effect = if cfg.prefer_source == PreferSource::B {
        match c {
            ChangeModel::Entity { value } => ActionEffectModel::RemoveEntity { name: value.name },
            ChangeModel::Field { entity, value } => ActionEffectModel::RemoveField {
                entity,
                field: value.name,
            },
        }
    } else {
        match c {
            ChangeModel::Entity { value } => ActionEffectModel::PutEntity { value },
            ChangeModel::Field { entity, value } => ActionEffectModel::PutField {
                entity,
                field: value,
            },
        }
    };
    ActionModel { target: change_target(c), kind, confidence_pm: conf as u32, effect }
}

/// Whether the strategy resolves modified items automatically at the given
/// similarity.
pub open spec fn auto_resolves(strategy: ResolveStrategy, base: int) -> bool {
    match strategy {
        ResolveStrategy::Conservative => false,
        ResolveStrategy::Aggressive => true,
        ResolveStrategy::Balanced => base >= 500,
    }
}

/// The action resolving one modified item.
pub open spec fn action_for_modified(
    m: ModificationModel,
    cfg: ResolveConfig,
    base: int,
    conf: int,
) -> ActionModel {
    if !auto_resolves(cfg.strategy, base) || m is EntityRenamed {
        ActionModel {
            target: modification_target(m),
            kind: ActionKind::ManualReview,
            confidence_pm: conf as u32,
            effect: ActionEffectModel::NoEffect,
        }
    } else {
        let (entity, old_f, new_f) = match m {
            ModificationModel::FieldChanged { entity, old_field, new_field, .. } => (
                entity,
                old_field,
                new_field,
            ),
            ModificationModel::EntityRenamed { old_name, new_name } => (
                old_name,
                arbitrary(),
                arbitrary(),
            ),
        };
        let (kind, field) = match cfg.prefer_source {
            PreferSource::A => (ActionKind::AcceptA, old_f),
            PreferSource::B => (ActionKind::AcceptB, new_f),
            PreferSource::Merge => (ActionKind::Merge, merged_field(old_f, new_f)),
        };
        ActionModel {
            target: modification_target(m),
            kind,
            confidence_pm: conf as u32,
            effect: ActionEffectModel::PutField { entity, field },
        }
    }
}

/// Actions for the added items, in diff order.
pub open spec fn added_actions(cs: Seq<ChangeModel>, cfg: ResolveConfig, conf: int) -> Seq<
    ActionModel,
>
    decreases cs.len(),
{
    if cs.len() == 0 {
        Seq::empty()
    } else {
        added_actions(cs.drop_last(), cfg, conf) + seq![action_for_added(cs.last(), cfg, conf)]
    }
}

/// Actions for the removed items, in diff order.
pub open spec fn removed_actions(cs: Seq<ChangeModel>, cfg: ResolveConfig, conf: int) -> Seq<
    ActionModel,
>
    decreases cs.len(),
{
    if cs.len() == 0 {
        Seq::empty()
    } else {
        removed_actions(cs.drop_last(), cfg, conf) + seq![action_for_removed(cs.last(), cfg, conf)]
    }
}

/// Actions for the modified items, in diff order.
pub open spec fn modified_actions(
    ms: Seq<ModificationModel>,
    cfg: ResolveConfig,
    base: int,
    conf: int,
) -> Seq<ActionModel>
    decreases ms.len(),
{
    if ms.len() == 0 {
        Seq::empty()
    } else {
        modified_actions(ms.drop_last(), cfg, base, conf) + seq![
            action_for_modified(ms.last(), cfg, base, conf),
        ]
    }
}

/// Total order on target paths: entity names in UTF-8 byte order first, an
/// entity-level path before the field paths of the same entity, then field
/// names in byte order.
pub open spec fn path_le(p1: TargetPathModel, p2: TargetPathModel) -> bool {
    if encode_utf8(p1.entity) != encode_utf8(p2.entity) {
        lex_lt_bytes(encode_utf8(p1.entity), encode_utf8(p2.entity))
    } else {
        match p1.field {
            None => true,
            Some(f1) => match p2.field {
                None => false,
                Some(f2) => encode_utf8(f1) == encode_utf8(f2) || lex_lt_bytes(
                    encode_utf8(f1),
                    encode_utf8(f2),
                ),
            },
        }
    }
}

/// Insertion into a path-sorted action sequence, before the first action
/// whose target is not smaller.
pub open spec fn insert_by_path(a: ActionModel, s: Seq<ActionModel>) -> Seq<ActionModel>
    decreases s.len(),
{
    if s.len() == 0 {
        seq![a]
    } else if path_le(a.target, s[0].target) {
        seq![a] + s
    } else {
        seq![s[0]] + insert_by_path(a, s.skip(1))
    }
}

/// Insertion sort of actions by target path.
pub open spec fn sort_by_path(s: Seq<ActionModel>) -> Seq<ActionModel>
    decreases s.len(),
{
    if s.len() == 0 {
        Seq::empty()
    } else {
        insert_by_path(s.last(), sort_by_path(s.drop_last()))
    }
}

/// Whether adjacent actions are in target-path order.
pub open spec fn sorted_by_path(s: Seq<ActionModel>) -> bool {
    forall|i: int| 0 <= i < s.len() - 1 ==> path_le((#[trigger] s[i]).target, s[i + 1].target)
}

/// Byte order on byte sequences is total.
proof fn lemma_lex_total(x: Seq<u8>, y: Seq<u8>)
    ensures
        x == y || lex_lt_bytes(x, y) || lex_lt_bytes(y, x),
    decreases x.len(),
{
    if x.len() > 0 && y.len() > 0 && x[0] == y[0] {
        lemma_lex_total(x.skip(1), y.skip(1));
        if x.skip(1) == y.skip(1) {
            assert(x.len() == y.len());
            assert(forall|k: int| 1 <= k < x.len() ==> #[trigger] x[k] == x.skip(1)[k - 1]);
            assert(forall|k: int| 1 <= k < y.len() ==> #[trigger] y[k] == y.skip(1)[k - 1]);
            assert(x =~= y);
        }
    }
}

/// The target-path order is total.
proof fn lemma_path_le_total(p: TargetPathModel, q: TargetPathModel)
    ensures
        path_le(p, q) || path_le(q, p),
{
    lemma_lex_total(encode_utf8(p.entity), encode_utf8(q.entity));
    if encode_utf8(p.entity) == encode_utf8(q.entity) {
        match (p.field, q.field) {
            (Some(f1), Some(f2)) => {
                lemma_lex_total(encode_utf8(f1), encode_utf8(f2));
            },
            _ => {},
        }
    }
}

/// Insertion keeps a sorted sequence sorted, with the head unchanged or the
/// new action in front.
#[verifier::spinoff_prover]
#[verifier::rlimit(80)]
proof fn lemma_insert_by_path_sorted(a: ActionModel, s: Seq<ActionModel>)
    requires
        sorted_by_path(s),
    ensures
        sorted_by_path(insert_by_path(a, s)),
        insert_by_path(a, s).len() == s.len() + 1,
        insert_by_path(a, s)[0] == a || (s.len() > 0 && insert_by_path(a, s)[0] == s[0]),
    decreases s.len(),
{
    if s.len() == 0 {
    } else if path_le(a.target, s[0].target) {
        let r = seq![a] + s;
        assert forall|i: int| 0 <= i < r.len() - 1 implies path_le(
            (#[trigger] r[i]).target,
            r[i + 1].target,
        ) by {
            if i > 0 {
                assert(r[i] == s[i - 1] && r[i + 1] == s[i]);
            }
        }
    } else {
        assert(sorted_by_path(s.skip(1))) by {
            assert(forall|i: int| 0 <= i < s.skip(1).len() ==> #[trigger] s.skip(1)[i] == s[i
                + 1]);
        }
        lemma_insert_by_path_sorted(a, s.skip(1));
        lemma_path_le_total(a.target, s[0].target);
        let sub = insert_by_path(a, s.skip(1));
        let r = seq![s[0]] + sub;
        assert forall|i: int| 0 <= i < r.len() - 1 implies path_le(
            (#[trigger] r[i]).target,
            r[i + 1].target,
        ) by {
            if i == 0 {
                assert(r[1] == sub[0]);
                if s.len() > 1 {
                    assert(s.skip(1)[0] == s[1]);
                }
            } else {
                assert(r[i] == sub[i - 1] && r[i + 1] == sub[i]);
            }
        }
    }
}

/// The empty sequence has the empty multiset of contents.
proof fn lemma_empty_to_multiset()
    ensures
        Seq::<ActionModel>::empty().to_multiset() =~= Multiset::<ActionModel>::empty(),
{
    broadcast use vstd::multiset::group_multiset_axioms;

    Seq::<ActionModel>::empty().to_multiset_ensures();
    let m = Seq::<ActionModel>::empty().to_multiset();
    assert forall|x: ActionModel| m.count(x) == 0 by {
        assert(!Seq::<ActionModel>::empty().contains(x));
    }
}

/// A singleton sequence holds exactly its one action.
proof fn lemma_singleton_to_multiset(a: ActionModel)
    ensures
        seq![a].to_multiset() =~= Multiset::<ActionModel>::empty().insert(a),
{
    broadcast use vstd::multiset::group_multiset_axioms;

    lemma_empty_to_multiset();
    Seq::<ActionModel>::empty().to_multiset_ensures();
    assert(seq![a] =~= Seq::<ActionModel>::empty().push(a));
    assert(seq![a].to_multiset() =~= Seq::<ActionModel>::empty().to_multiset().insert(a));
}

/// Insertion adds exactly the new action to the contents.
#[verifier::spinoff_prover]
#[verifier::rlimit(80)]
proof fn lemma_insert_by_path_multiset(a: ActionModel, s: Seq<ActionModel>)
    ensures
        insert_by_path(a, s).to_multiset() =~= s.to_multiset().insert(a),
    decreases s.len(),
{
    broadcast use vstd::multiset::group_multiset_axioms;

    if s.len() == 0 {
        lemma_empty_to_multiset();
        assert(s =~= Seq::<ActionModel>::empty());
        lemma_singleton_to_multiset(a);
    } else if path_le(a.target, s[0].target) {
        vstd::seq_lib::lemma_multiset_commutative(seq![a], s);
        lemma_singleton_to_multiset(a);
    } else {
        lemma_insert_by_path_multiset(a, s.skip(1));
        let sub = insert_by_path(a, s.skip(1));
        vstd::seq_lib::lemma_multiset_commutative(seq![s[0]], sub);
        lemma_singleton_to_multiset(s[0]);
        assert(s =~= seq![s[0]] + s.skip(1));
        vstd::seq_lib::lemma_multiset_commutative(seq![s[0]], s.skip(1));
    }
}

/// The sort yields a path-sorted permutation of its input.
#[verifier::spinoff_prover]
#[verifier::rlimit(80)]
pub proof fn lemma_sort_by_path_props(s: Seq<ActionModel>)
    ensures
        sorted_by_path(sort_by_path(s)),
        sort_by_path(s).to_multiset() =~= s.to_multiset(),
        sort_by_path(s).len() == s.len(),
    decreases s.len(),
{
    broadcast use vstd::multiset::group_multiset_axioms;

    if s.len() == 0 {
        assert(s =~= Seq::<ActionModel>::empty());
        assert(sort_by_path(s) == Seq::<ActionModel>::empty());
    } else {
        lemma_sort_by_path_props(s.drop_last());
        let sd = sort_by_path(s.drop_last());
        lemma_insert_by_path_sorted(s.last(), sd);
        lemma_insert_by_path_multiset(s.last(), sd);
        s.drop_last().to_multiset_ensures();
        assert(s =~= s.drop_last().push(s.last()));
        assert(sort_by_path(s) == insert_by_path(s.last(), sd));
        assert(insert_by_path(s.last(), sd).to_multiset() =~= sd.to_multiset().insert(s.last()));
        assert(s.drop_last().push(s.last()).to_multiset() =~= s.drop_last().to_multiset().insert(
            s.last(),
        ));
        assert(sort_by_path(s).to_multiset() =~= s.to_multiset());
    }
}

/// Where the (first occurring) position for an action lies, the spec
/// insertion places it there.
proof fn lemma_insert_by_path_at(a: ActionModel, s: Seq<ActionModel>, j: int)
    requires
        0 <= j <= s.len(),
        forall|k: int| 0 <= k < j ==> !path_le(a.target, (#[trigger] s[k]).target),
        j < s.len() ==> path_le(a.target, s[j].target),
    ensures
        insert_by_path(a, s) == s.take(j) + seq![a] + s.skip(j),
    decreases j,
{
    if j == 0 {
        if s.len() == 0 {
            assert(insert_by_path(a, s) =~= s.take(0) + seq![a] + s.skip(0));
        } else {
            assert(insert_by_path(a, s) =~= s.take(0) + seq![a] + s.skip(0));
        }
    } else {
        assert(!path_le(a.target, s[0].target));
        assert(forall|k: int| 0 <= k < j - 1 ==> !path_le(
            a.target,
            (#[trigger] s.skip(1)[k]).target,
        )) by {
            assert(forall|k: int| 0 <= k < s.skip(1).len() ==> #[trigger] s.skip(1)[k] == s[k
                + 1]);
        }
        if j - 1 < s.skip(1).len() {
            assert(s.skip(1)[j - 1] == s[j]);
        }
        lemma_insert_by_path_at(a, s.skip(1), j - 1);
        assert(s.skip(1).take(j - 1) =~= s.take(j).skip(1));
        assert(s.skip(1).skip(j - 1) =~= s.skip(j));
        assert(seq![s[0]] + (s.take(j).skip(1) + seq![a] + s.skip(j)) =~= s.take(j) + seq![a]
            + s.skip(j));
    }
}

/// Inserts one action into a path-sorted vector, keeping it sorted.
fn insert_action_sorted(v: &mut Vec<Action>, a: Action)
    ensures
        final(v).deep_view() == insert_by_path(a@, old(v).deep_view()),
{
    let ghost v0 = v.deep_view();
    let mut j: usize = 0;
    let mut place = v.len();
    let mut found = false;
    while j < v.len() && !found
        invariant
            j <= v.len(),
            v.deep_view() == v0,
            found ==> place < v.len() && place == j && path_le(a@.target, v0[place as int].target)
                && forall|k: int| 0 <= k < place ==> !path_le(
                a@.target,
                (#[trigger] v0[k]).target,
            ),
            !found ==> place == v.len() && forall|k: int| 0 <= k < j ==> !path_le(
                a@.target,
                (#[trigger] v0[k]).target,
            ),
        decreases v.len() - j + (if found {
            0int
        } else {
            1int
        }),
    {
        if path_le_exec(&a.target, &v[j].target) {
            place = j;
            found = true;
        } else {
            j = j + 1;
        }
    }
    proof {
        lemma_insert_by_path_at(a@, v0, place as int);
    }
    let ghost before = v.deep_view();
    v.insert(place, a);
    proof {
        assert(v.deep_view() =~= before.take(place as int) + seq![a@] + before.skip(place as int));
    }
}

/// Whether the first target path is not larger than the second.
fn path_le_exec(p1: &TargetPath, p2: &TargetPath) -> (r: bool)
    ensures
        r == path_le(p1@, p2@),
{
    if !str_bytes_eq(&p1.entity, &p2.entity) {
        str_bytes_lt(&p1.entity, &p2.entity)
    } else {
        match &p1.field {
            None => true,
            Some(f1) => match &p2.field {
                None => false,
                Some(f2) => str_bytes_eq(f1, f2) || str_bytes_lt(f1, f2),
            },
        }
    }
}

/// Sorts a group of actions by target path.
fn sort_actions(group: Vec<Action>) -> (out: Vec<Action>)
    ensures
        out.deep_view() == sort_by_path(group.deep_view()),
{
    let ghost orig = group.deep_view();
    let mut rest = group;
    let mut out: Vec<Action> = Vec::new();
    while rest.len() > 0
        invariant
            rest.len() <= orig.len(),
            rest.deep_view() =~= orig.skip(orig.len() - rest.len()),
            out.deep_view() =~= sort_by_path(orig.take(orig.len() - rest.len())),
        decreases rest.len(),
    {
        let ghost i = orig.len() - rest.len();
        let ghost rest_before = rest.deep_view();
        let a = rest.remove(0);
        proof {
            assert(a@ == rest_before[0]);
            assert(rest_before[0] == orig[i as int]);
            assert(rest.deep_view() =~= rest_before.remove(0));
            assert(rest_before.remove(0) =~= rest_before.skip(1));
            assert(rest_before.skip(1) =~= orig.skip(i as int).skip(1));
            assert(orig.skip(i as int).skip(1) =~= orig.skip(i as int + 1));
        }
        insert_action_sorted(&mut out, a);
        proof {
            assert(orig.take(i as int + 1).drop_last() =~= orig.take(i as int));
            assert(orig.take(i as int + 1).last() == orig[i as int]);
        }
    }
    proof {
        assert(orig.skip(0) =~= orig);
        assert(orig.take(orig.len() as int) =~= orig);
    }
    out
}

/// The similarity of a diff, in per mille, from its counts.
pub open spec fn diff_similarity_pm(d: ComparisonModel) -> int {
    similarity_pm_of(
        d.added.len() as int + d.removed.len() as int + d.modified.len() as int,
        d.compared.len() as int,
    )
}

/// The complete plan of a diff under a configuration: what `propose`
/// returns.
pub open spec fn propose_model(d: ComparisonModel, cfg: ResolveConfig) -> PlanModel {
    let base = diff_similarity_pm(d);
    let conf = confidence_of(cfg.strategy, base);
    PlanModel {
        plan_id: "plan:"@ + d.source_a + ":"@ + d.source_b,
        actions: sort_by_path(added_actions(d.added, cfg, conf)) + sort_by_path(
            removed_actions(d.removed, cfg, conf),
        ) + sort_by_path(modified_actions(d.modified, cfg, base, conf)),
    }
}

/// Builds the action for one added change.
fn added_action_exec(c: &Change, cfg: &ResolveConfig, conf: u32) -> (r: Action)
    ensures
        r@ == action_for_added(c.deep_view(), *cfg, conf as int),
{
    let drop_it = matches!(cfg.prefer_source, PreferSource::A);
    match c {
        Change::Entity { value } => Action {
            target: TargetPath { entity: value.entity_name.clone(), field: None },
            kind: if drop_it {
                ActionKind::Drop
            } else {
                ActionKind::AcceptB
            },
            confidence_pm: conf,
            effect: if drop_it {
                ActionEffect::RemoveEntity { name: value.entity_name.clone() }
            } else {
                ActionEffect::PutEntity { value: clone_entity(value) }
            },
        },
        Change::Field { entity, value } => Action {
            target: TargetPath { entity: entity.clone(), field: Some(value.name.clone()) },
            kind: if drop_it {
                ActionKind::Drop
            } else {
                ActionKind::AcceptB
            },
            confidence_pm: conf,
            effect: if drop_it {
                ActionEffect::RemoveField { entity: entity.clone(), field: value.name.clone() }
            } else {
                ActionEffect::PutField { entity: entity.clone(), field: clone_field(value) }
            },
        },
    }
}

/// Builds the action for one removed change.
fn removed_action_exec(c: &Change, cfg: &ResolveConfig, conf: u32) -> (r: Action)
    ensures
        r@ == action_for_removed(c.deep_view(), *cfg, conf as int),
{
    let drop_it = matches!(cfg.prefer_source, PreferSource::B);
    match c {
        Change::Entity { value } => Action {
            target: TargetPath { entity: value.entity_name.clone(), field: None },
            kind: if drop_it {
                ActionKind::Drop
            } else {
                ActionKind::AcceptA
            },
            confidence_pm: conf,
            effect: if drop_it {
                ActionEffect::RemoveEntity { name: value.entity_name.clone() }
            } else {
                ActionEffect::PutEntity { value: clone_entity(value) }
            },
        },
        Change::Field { entity, value } => Action {
            target: TargetPath { entity: entity.clone(), field: Some(value.name.clone()) },
            kind: if drop_it {
                ActionKind::Drop
            } else {
                ActionKind::AcceptA
            },
            confidence_pm: conf,
            effect: if drop_it {
                ActionEffect::RemoveField { entity: entity.clone(), field: value.name.clone() }
            } else {
                ActionEffect::PutField { entity: entity.clone(), field: clone_field(value) }
            },
        },
    }
}

/// Builds the merged definition of a conflicting field.
fn merged_field_exec(f: &Field, g: &Field) -> (r: Field)
    ensures
        r@ == merged_field(f@, g@),
{
    Field {
        name: f.name.clone(),
        declared_type: g.declared_type.clone(),
        nullable: f.nullable || g.nullable,
        default: match &g.default {
            Some(d) => Some(d.clone()),
            None => crate::ir::clone_opt_string(&f.default),
        },
        is_primary_key: match g.is_primary_key {
            Some(b) => Some(b),
            None => f.is_primary_key,
        },
    }
}

/// Builds the action for one modified item.
fn modified_action_exec(m: &Modification, cfg: &ResolveConfig, base: u32, conf: u32) -> (r: Action)
    ensures
        r@ == action_for_modified(m.deep_view(), *cfg, base as int, conf as int),
{
    let auto = match cfg.strategy {
        ResolveStrategy::Conservative => false,
        ResolveStrategy::Aggressive => true,
        ResolveStrategy::Balanced => base >= 500,
    };
    match m {
        Modification::EntityRenamed { old_name, .. } => Action {
            target: TargetPath { entity: old_name.clone(), field: None },
            kind: ActionKind::ManualReview,
            confidence_pm: conf,
            effect: ActionEffect::NoEffect,
        },
        Modification::FieldChanged { entity, old_field, new_field, .. } => {
            let target = TargetPath { entity: entity.clone(), field: Some(old_field.name.clone()) };
            if !auto {
                Action {
                    target,
                    kind: ActionKind::ManualReview,
                    confidence_pm: conf,
                    effect: ActionEffect::NoEffect,
                }
            } else {
                let (kind, field) = match cfg.prefer_source {
                    PreferSource::A => (ActionKind::AcceptA, clone_field(old_field)),
                    PreferSource::B => (ActionKind::AcceptB, clone_field(new_field)),
                    PreferSource::Merge => (ActionKind::Merge, merged_field_exec(old_field, new_field)),
                };
                Action {
                    target,
                    kind,
                    confidence_pm: conf,
                    effect: ActionEffect::PutField { entity: entity.clone(), field },
                }
            }
        },
    }
}

/// Proposes the plan resolving a diff. Deterministic: the result is a pure
/// function of the diff and the configuration; each action group is emitted
/// in target-path order.
#[verifier::rlimit(50)]
pub fn propose(diff: &ComparisonResult, config: &ResolveConfig) -> (r: ResolutionPlan)
    requires
        statistics_ok(diff),
    ensures
        r@ == propose_model(diff@, *config),
{
    let base = diff.statistics.similarity_per_mille();
    let conf32: u32 = match config.strategy {
        ResolveStrategy::Conservative => base / 2,
        ResolveStrategy::Balanced => base,
        ResolveStrategy::Aggressive => (base + 1000) / 2,
    };
    let ghost basei = diff_similarity_pm(diff@);
    let ghost confi = confidence_of(config.strategy, basei);
    proof {
        assert(base as int == basei);
        assert(conf32 as int == confi);
    }
    let mut added_acts: Vec<Action> = Vec::new();
    let mut i: usize = 0;
    while i < diff.changes.added.len()
        invariant
            i <= diff.changes.added.len(),
            added_acts.deep_view() =~= added_actions(
                diff.changes.added.deep_view().take(i as int),
                *config,
                confi,
            ),
            conf32 as int == confi,
        decreases diff.changes.added.len() - i,
    {
        added_acts.push(added_action_exec(&diff.changes.added[i], config, conf32));
        proof {
            assert(diff.changes.added.deep_view().take(i + 1).drop_last() =~= diff.changes.added.deep_view().take(i as int));
            assert(diff.changes.added.deep_view().take(i + 1).last() == diff.changes.added.deep_view()[i as int]);
        }
        i = i + 1;
    }
    proof {
        assert(diff.changes.added.deep_view().take(diff.changes.added.len() as int)
            =~= diff.changes.added.deep_view());
    }
    let mut removed_acts: Vec<Action> = Vec::new();
    let mut j: usize = 0;
    while j < diff.changes.removed.len()
        invariant
            j <= diff.changes.removed.len(),
            removed_acts.deep_view() =~= removed_actions(
                diff.changes.removed.deep_view().take(j as int),
                *config,
                confi,
            ),
            conf32 as int == confi,
        decreases diff.changes.removed.len() - j,
    {
        removed_acts.push(removed_action_exec(&diff.changes.removed[j], config, conf32));
        proof {
            let rdv = diff.changes.removed.deep_view();
            assert(rdv.take(j + 1).drop_last() =~= rdv.take(j as int));
            assert(rdv.take(j + 1).last() == rdv[j as int]);
        }
        j = j + 1;
    }
    proof {
        assert(diff.changes.removed.deep_view().take(diff.changes.removed.len() as int)
            =~= diff.changes.removed.deep_view());
    }
    let mut modified_acts: Vec<Action> = Vec::new();
    let mut k: usize = 0;
    while k < diff.changes.modified.len()
        invariant
            k <= diff.changes.modified.len(),
            modified_acts.deep_view() =~= modified_actions(
                diff.changes.modified.deep_view().take(k as int),
                *config,
                basei,
                confi,
            ),
            base as int == basei,
            conf32 as int == confi,
        decreases diff.changes.modified.len() - k,
    {
        modified_acts.push(modified_action_exec(&diff.changes.modified[k], config, base, conf32));
        proof {
            let mdv = diff.changes.modified.deep_view();
            assert(mdv.take(k + 1).drop_last() =~= mdv.take(k as int));
            assert(mdv.take(k + 1).last() == mdv[k as int]);
        }
        k = k + 1;
    }
    proof {
        assert(diff.changes.modified.deep_view().take(diff.changes.modified.len() as int)
            =~= diff.changes.modified.deep_view());
    }
    let mut actions = sort_actions(added_acts);
    let ghost part1 = actions.deep_view();
    let mut sorted_removed = sort_actions(removed_acts);
    let ghost part2 = sorted_removed.deep_view();
    actions.append(&mut sorted_removed);
    proof {
        assert(actions.deep_view() =~= part1 + part2);
    }
    let ghost part12 = actions.deep_view();
    let mut sorted_modified = sort_actions(modified_acts);
    let ghost part3 = sorted_modified.deep_view();
    actions.append(&mut sorted_modified);
    proof {
        assert(actions.deep_view() =~= part12 + part3);
    }
    let plan_id = String::from_str("plan:").concat(diff.source_a.as_str()).concat(":").concat(
        diff.source_b.as_str(),
    );
    let r = ResolutionPlan { plan_id, actions };
    proof {
        assert(r@.plan_id =~= propose_model(diff@, *config).plan_id);
        assert(r@.actions =~= propose_model(diff@, *config).actions);
    }
    r
}

/// Two proposals from the same diff and configuration are the same plan:
/// `propose` is deterministic.
pub proof fn lemma_propose_deterministic(
    d: ComparisonModel,
    cfg: ResolveConfig,
    p1: PlanModel,
    p2: PlanModel,
)
    requires
        p1 == propose_model(d, cfg),
        p2 == propose_model(d, cfg),
    ensures
        p1 == p2,
{
}

} // verus!
