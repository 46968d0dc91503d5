//! Comparator: turns two schema snapshots into a structured diff with a
//! similarity score.
//!
//! `compare` is deterministic and side-effect-free. Three matching strategies
//! are supported:
//!
//! - structural: entities are matched by name equality;
//! - semantic: entities may be matched across renames, greedily pairing the
//!   highest-scoring remaining pair while its score clears the configured
//!   threshold, ties broken by byte order of the entity names;
//! - hybrid: structural matching first, semantic matching only for the
//!   entities left unmatched.
//!
//! Fields are always matched by name within a matched entity pair. Field
//! names listed in `ignore_fields` contribute neither changes nor items to
//! the similarity denominator.
//!
//! The similarity score is the rational
//! `1 - (|added| + |removed| + |modified|) / total_compared` clamped to
//! `[0, 1]`; it is kept as exact counts (no rounding happens inside the
//! engine) and rendered per mille on request.

use vstd::prelude::*;
use vstd::string::StringExecFns;
use vstd::utf8::encode_utf8;
use crate::ir::{Entity, EntityModel, Field, FieldModel, SchemaIR, SchemaModel, has_entity, has_field, entity_named, field_named, schema_wf, entity_wf, entities_unique, fields_unique, clone_entity, clone_entities, clone_field, find_entity, find_field, lemma_entity_named_is_at, lemma_field_named_is_at};
use vstd::arithmetic::mul::lemma_mul_upper_bound;
use vstd::multiset::Multiset;
use crate::errors::AuddNativeError;

verus! {

/// Matching strategy of the comparator.
#[derive(Debug, Clone, Copy, PartialEq, Eq, Structural)]
pub enum CompareStrategy {
    /// Match entities by name equality.
    ByName,
    /// Match entities by similarity score, across renames.
    Semantic,
    /// Match by name first, then by similarity for the rest.
    Hybrid,
}

/// Configuration of one comparison.
#[derive(Debug, Clone, PartialEq, Eq)]
pub struct CompareConfig {
    /// Matching strategy.
    pub strategy: CompareStrategy,
    /// Acceptance threshold for semantic entity matches, in per mille
    /// (a score of `m / d` clears it when `m * 1000 >= threshold_pm * d`).
    pub threshold_pm: u32,
    /// Field names excluded from every comparison.
    pub ignore_fields: Vec<String>,
}

/// Mathematical model of a [`CompareConfig`].
pub ghost struct CompareConfigModel {
    pub strategy: CompareStrategy,
    pub threshold_pm: u32,
    pub ignore_fields: Seq<Seq<char>>,
}

impl View for CompareConfig {
    type V = CompareConfigModel;

    open spec fn view(&self) -> CompareConfigModel {
        CompareConfigModel {
            strategy: self.strategy,
            threshold_pm: self.threshold_pm,
            ignore_fields: self.ignore_fields.deep_view(),
        }
    }
}

impl Default for CompareConfig {
    /// The default comparison: name matching, threshold `0.8`
    /// (800 per mille), no ignored fields.
    fn default() -> (r: CompareConfig)
        ensures
            r.strategy == CompareStrategy::ByName,
            r.threshold_pm == 800,
            r.ignore_fields.deep_view() == Seq::<Seq<char>>::empty(),
    {
        let r = CompareConfig { strategy: CompareStrategy::ByName, threshold_pm: 800, ignore_fields: Vec::new() };
        proof {
            assert(r.ignore_fields.deep_view() =~= Seq::<Seq<char>>::empty());
        }
        r
    }
}

/// Path to the entity or field a change or an action concerns.
#[derive(Debug, Clone, PartialEq, Eq)]
pub struct TargetPath {
    pub entity: String,
    pub field: Option<String>,
}

/// Mathematical model of a [`TargetPath`].
pub ghost struct TargetPathModel {
    pub entity: Seq<char>,
    pub field: Option<Seq<char>>,
}

impl View for TargetPath {
    type V = TargetPathModel;

    open spec fn view(&self) -> TargetPathModel {
        TargetPathModel { entity: self.entity@, field: self.field.deep_view() }
    }
}

impl DeepView for TargetPath {
    type V = TargetPathModel;

    open spec fn deep_view(&self) -> TargetPathModel {
        self.view()
    }
}

/// Which field attribute a modification touched.
#[derive(Debug, Clone, Copy, PartialEq, Eq, Structural)]
pub enum AttrKind {
    DeclaredType,
    Nullable,
    DefaultValue,
    PrimaryKey,
}

/// The old or new value of one field attribute.
#[derive(Debug, Clone, PartialEq, Eq)]
pub enum AttrValue {
    Text(String),
    Flag(bool),
    OptText(Option<String>),
    OptFlag(Option<bool>),
}

/// Mathematical model of an [`AttrValue`].
pub ghost enum AttrValueModel {
    Text(Seq<char>),
    Flag(bool),
    OptText(Option<Seq<char>>),
    OptFlag(Option<bool>),
}

impl View for AttrValue {
    type V = AttrValueModel;

    open spec fn view(&self) -> AttrValueModel {
        match self {
            AttrValue::Text(s) => AttrValueModel::Text(s@),
            AttrValue::Flag(b) => AttrValueModel::Flag(*b),
            AttrValue::OptText(s) => AttrValueModel::OptText(s.deep_view()),
            AttrValue::OptFlag(b) => AttrValueModel::OptFlag(*b),
        }
    }
}

impl DeepView for AttrValue {
    type V = AttrValueModel;

    open spec fn deep_view(&self) -> AttrValueModel {
        self.view()
    }
}

/// One differing attribute of a modified field: which attribute, and its
/// value on each side.
#[derive(Debug, Clone, PartialEq, Eq)]
pub struct AttrChange {
    pub attr: AttrKind,
    pub old_value: AttrValue,
    pub new_value: AttrValue,
}

/// Mathematical model of an [`AttrChange`].
pub ghost struct AttrChangeModel {
    pub attr: AttrKind,
    pub old_value: AttrValueModel,
    pub new_value: AttrValueModel,
}

impl View for AttrChange {
    type V = AttrChangeModel;

    open spec fn view(&self) -> AttrChangeModel {
        AttrChangeModel { attr: self.attr, old_value: self.old_value@, new_value: self.new_value@ }
    }
}

impl DeepView for AttrChange {
    type V = AttrChangeModel;

    open spec fn deep_view(&self) -> AttrChangeModel {
        self.view()
    }
}

/// One added or removed item, carrying the definition seen on the side that
/// has it.
#[derive(Debug, Clone, PartialEq, Eq)]
pub enum Change {
    /// An entity present on one side only.
    Entity { value: Entity },
    /// A field present on one side only, within a matched entity pair.
    Field { entity: String, value: Field },
}

/// Mathematical model of a [`Change`].
pub ghost enum ChangeModel {
    Entity { value: EntityModel },
    Field { entity: Seq<char>, value: FieldModel },
}

impl View for Change {
    type V = ChangeModel;

    open spec fn view(&self) -> ChangeModel {
        match self {
            Change::Entity { value } => ChangeModel::Entity { value: value@ },
            Change::Field { entity, value } => ChangeModel::Field { entity: entity@, value: value@ },
        }
    }
}

impl DeepView for Change {
    type V = ChangeModel;

    open spec fn deep_view(&self) -> ChangeModel {
        self.view()
    }
}

/// The target path of a change.
pub open spec fn change_target(c: ChangeModel) -> TargetPathModel {
    match c {
        ChangeModel::Entity { value } => TargetPathModel { entity: value.name, field: None },
        ChangeModel::Field { entity, value } => TargetPathModel {
            entity,
            field: Some(value.name),
        },
    }
}

/// One item present on both sides with incompatible attributes.
#[derive(Debug, Clone, PartialEq, Eq)]
pub enum Modification {
    /// A semantic entity match across a rename.
    EntityRenamed { old_name: String, new_name: String },
    /// A field whose attributes differ between the sides; `changes` records
    /// the old and new value of every differing attribute.
    FieldChanged { entity: String, old_field: Field, new_field: Field, changes: Vec<AttrChange> },
}

/// Mathematical model of a [`Modification`].
pub ghost enum ModificationModel {
    EntityRenamed { old_name: Seq<char>, new_name: Seq<char> },
    FieldChanged {
        entity: Seq<char>,
        old_field: FieldModel,
        new_field: FieldModel,
        changes: Seq<AttrChangeModel>,
    },
}

impl View for Modification {
    type V = ModificationModel;

    open spec fn view(&self) -> ModificationModel {
        match self {
            Modification::EntityRenamed { old_name, new_name } => ModificationModel::EntityRenamed {
                old_name: old_name@,
                new_name: new_name@,
            },
            Modification::FieldChanged { entity, old_field, new_field, changes } => ModificationModel::FieldChanged {
                entity: entity@,
                old_field: old_field@,
                new_field: new_field@,
                changes: changes.deep_view(),
            },
        }
    }
}

impl DeepView for Modification {
    type V = ModificationModel;

    open spec fn deep_view(&self) -> ModificationModel {
        self.view()
    }
}

/// The target path of a modification.
pub open spec fn modification_target(m: ModificationModel) -> TargetPathModel {
    match m {
        ModificationModel::EntityRenamed { old_name, .. } => TargetPathModel {
            entity: old_name,
            field: None,
        },
        ModificationModel::FieldChanged { entity, old_field, .. } => TargetPathModel {
            entity,
            field: Some(old_field.name),
        },
    }
}

/// The three change sets of a diff.
#[derive(Debug, Clone, PartialEq, Eq)]
pub struct ChangeSet {
    /// Present in B, absent in A.
    pub added: Vec<Change>,
    /// Present in A, absent in B.
    pub removed: Vec<Change>,
    /// Present in both, with differing attributes.
    pub modified: Vec<Modification>,
}

/// Aggregate counts of a diff. The similarity score is the rational
/// `1 - (added_count + removed_count + modified_count) / total_compared`,
/// clamped to `[0, 1]`, with an empty denominator counting as identity.
#[derive(Debug, Clone, Copy, PartialEq, Eq, Structural)]
pub struct Statistics {
    pub added_count: usize,
    pub removed_count: usize,
    pub modified_count: usize,
    /// Number of distinct compared field paths after ignored fields are
    /// removed (the similarity denominator).
    pub total_compared: usize,
}

/// Immutable snapshot of a diff between two schemas.
#[derive(Debug, Clone, PartialEq, Eq)]
pub struct ComparisonResult {
    /// Label of the first compared source.
    pub source_a: String,
    /// Label of the second compared source.
    pub source_b: String,
    /// The structured changes.
    pub changes: ChangeSet,
    /// Every compared field path (the similarity denominator, listed).
    pub compared: Vec<TargetPath>,
    /// Aggregate counts.
    pub statistics: Statistics,
    /// The configuration that produced this result, kept for audit.
    pub config: CompareConfig,
}

/// Mathematical model of a [`ComparisonResult`].
pub ghost struct ComparisonModel {
    pub source_a: Seq<char>,
    pub source_b: Seq<char>,
    pub added: Seq<ChangeModel>,
    pub removed: Seq<ChangeModel>,
    pub modified: Seq<ModificationModel>,
    pub compared: Seq<TargetPathModel>,
    pub config: CompareConfigModel,
}

impl View for ComparisonResult {
    type V = ComparisonModel;

    open spec fn view(&self) -> ComparisonModel {
        ComparisonModel {
            source_a: self.source_a@,
            source_b: self.source_b@,
            added: self.changes.added.deep_view(),
            removed: self.changes.removed.deep_view(),
            modified: self.changes.modified.deep_view(),
            compared: self.compared.deep_view(),
            config: self.config@,
        }
    }
}

/// Whether the statistics of a result agree with its change sets.
pub open spec fn statistics_ok(r: &ComparisonResult) -> bool {
    &&& r.statistics.added_count == r@.added.len()
    &&& r.statistics.removed_count == r@.removed.len()
    &&& r.statistics.modified_count == r@.modified.len()
    &&& r.statistics.total_compared == r@.compared.len()
}

/// Whether a field name is excluded from comparison.
pub open spec fn ignored(cfg: CompareConfigModel, name: Seq<char>) -> bool {
    cfg.ignore_fields.contains(name)
}

/// The old/new record of every attribute that differs between two matched
/// fields, in a fixed attribute order.
pub open spec fn attr_changes(f: FieldModel, g: FieldModel) -> Seq<AttrChangeModel> {
    (if f.declared_type != g.declared_type {
        seq![
            AttrChangeModel {
                attr: AttrKind::DeclaredType,
                old_value: AttrValueModel::Text(f.declared_type),
                new_value: AttrValueModel::Text(g.declared_type),
            },
        ]
    } else {
        Seq::empty()
    }) + (if f.nullable != g.nullable {
        seq![
            AttrChangeModel {
                attr: AttrKind::Nullable,
                old_value: AttrValueModel::Flag(f.nullable),
                new_value: AttrValueModel::Flag(g.nullable),
            },
        ]
    } else {
        Seq::empty()
    }) + (if f.default != g.default {
        seq![
            AttrChangeModel {
                attr: AttrKind::DefaultValue,
                old_value: AttrValueModel::OptText(f.default),
                new_value: AttrValueModel::OptText(g.default),
            },
        ]
    } else {
        Seq::empty()
    }) + (if f.is_primary_key != g.is_primary_key {
        seq![
            AttrChangeModel {
                attr: AttrKind::PrimaryKey,
                old_value: AttrValueModel::OptFlag(f.is_primary_key),
                new_value: AttrValueModel::OptFlag(g.is_primary_key),
            },
        ]
    } else {
        Seq::empty()
    })
}

/// Fields of `afs` (not ignored) absent from `bfs`, as removed changes under
/// the entity path `entity`, in `afs` order.
pub open spec fn removed_field_changes(
    entity: Seq<char>,
    afs: Seq<FieldModel>,
    bfs: Seq<FieldModel>,
    cfg: CompareConfigModel,
) -> Seq<ChangeModel>
    decreases afs.len(),
{
    if afs.len() == 0 {
        Seq::empty()
    } else {
        removed_field_changes(entity, afs.drop_last(), bfs, cfg) + (if !ignored(
            cfg,
            afs.last().name,
        ) && !has_field(bfs, afs.last().name) {
            seq![ChangeModel::Field { entity, value: afs.last() }]
        } else {
            Seq::empty()
        })
    }
}

/// Fields of `bfs` (not ignored) absent from `afs`, as added changes under
/// the entity path `entity`, in `bfs` order.
pub open spec fn added_field_changes(
    entity: Seq<char>,
    afs: Seq<FieldModel>,
    bfs: Seq<FieldModel>,
    cfg: CompareConfigModel,
) -> Seq<ChangeModel>
    decreases bfs.len(),
{
    if bfs.len() == 0 {
        Seq::empty()
    } else {
        added_field_changes(entity, afs, bfs.drop_last(), cfg) + (if !ignored(
            cfg,
            bfs.last().name,
        ) && !has_field(afs, bfs.last().name) {
            seq![ChangeModel::Field { entity, value: bfs.last() }]
        } else {
            Seq::empty()
        })
    }
}

/// Fields of `afs` (not ignored) matched by name in `bfs` whose attributes
/// differ, as modifications under the entity path `entity`, in `afs` order.
pub open spec fn modified_field_changes(
    entity: Seq<char>,
    afs: Seq<FieldModel>,
    bfs: Seq<FieldModel>,
    cfg: CompareConfigModel,
) -> Seq<ModificationModel>
    decreases afs.len(),
{
    if afs.len() == 0 {
        Seq::empty()
    } else {
        modified_field_changes(entity, afs.drop_last(), bfs, cfg) + (if !ignored(
            cfg,
            afs.last().name,
        ) && has_field(bfs, afs.last().name) && attr_changes(
            afs.last(),
            field_named(bfs, afs.last().name),
        ).len() > 0 {
            seq![
                ModificationModel::FieldChanged {
                    entity,
                    old_field: afs.last(),
                    new_field: field_named(bfs, afs.last().name),
                    changes: attr_changes(afs.last(), field_named(bfs, afs.last().name)),
                },
            ]
        } else {
            Seq::empty()
        })
    }
}

/// The paths of the fields of `fs` that are not ignored, under `entity`.
pub open spec fn field_paths(
    entity: Seq<char>,
    fs: Seq<FieldModel>,
    cfg: CompareConfigModel,
) -> Seq<TargetPathModel>
    decreases fs.len(),
{
    if fs.len() == 0 {
        Seq::empty()
    } else {
        field_paths(entity, fs.drop_last(), cfg) + (if !ignored(cfg, fs.last().name) {
            seq![TargetPathModel { entity, field: Some(fs.last().name) }]
        } else {
            Seq::empty()
        })
    }
}

/// The paths of the fields of `bfs` that are not ignored and not named in
/// `afs`, under `entity`.
pub open spec fn field_paths_only_in(
    entity: Seq<char>,
    bfs: Seq<FieldModel>,
    afs: Seq<FieldModel>,
    cfg: CompareConfigModel,
) -> Seq<TargetPathModel>
    decreases bfs.len(),
{
    if bfs.len() == 0 {
        Seq::empty()
    } else {
        field_paths_only_in(entity, bfs.drop_last(), afs, cfg) + (if !ignored(
            cfg,
            bfs.last().name,
        ) && !has_field(afs, bfs.last().name) {
            seq![TargetPathModel { entity, field: Some(bfs.last().name) }]
        } else {
            Seq::empty()
        })
    }
}

/// The compared field paths of one matched pair: the union, by name, of both
/// sides' non-ignored fields, under the first side's entity path.
pub open spec fn pair_compared_paths(
    entity: Seq<char>,
    afs: Seq<FieldModel>,
    bfs: Seq<FieldModel>,
    cfg: CompareConfigModel,
) -> Seq<TargetPathModel> {
    field_paths(entity, afs, cfg) + field_paths_only_in(entity, bfs, afs, cfg)
}

/// Entity pairs matched by name equality, in first-side order.
pub open spec fn name_pairs(aes: Seq<EntityModel>, bes: Seq<EntityModel>) -> Seq<
    (EntityModel, EntityModel),
>
    decreases aes.len(),
{
    if aes.len() == 0 {
        Seq::empty()
    } else {
        name_pairs(aes.drop_last(), bes) + (if has_entity(bes, aes.last().name) {
            seq![(aes.last(), entity_named(bes, aes.last().name))]
        } else {
            Seq::empty()
        })
    }
}

/// Entities of `aes` with no name match in `bes`, in order.
pub open spec fn name_rest(aes: Seq<EntityModel>, bes: Seq<EntityModel>) -> Seq<EntityModel>
    decreases aes.len(),
{
    if aes.len() == 0 {
        Seq::empty()
    } else {
        name_rest(aes.drop_last(), bes) + (if !has_entity(bes, aes.last().name) {
            seq![aes.last()]
        } else {
            Seq::empty()
        })
    }
}

/// Number of non-ignored fields of `afs` whose name occurs in `bfs` with the
/// same declared type (the overlap part of an entity similarity score).
pub open spec fn overlap_count(
    afs: Seq<FieldModel>,
    bfs: Seq<FieldModel>,
    cfg: CompareConfigModel,
) -> int
    decreases afs.len(),
{
    if afs.len() == 0 {
        0
    } else {
        overlap_count(afs.drop_last(), bfs, cfg) + (if !ignored(cfg, afs.last().name) && has_field(
            bfs,
            afs.last().name,
        ) && field_named(bfs, afs.last().name).declared_type == afs.last().declared_type {
            1int
        } else {
            0int
        })
    }
}

/// Number of non-ignored fields of `fs`.
pub open spec fn not_ignored_count(fs: Seq<FieldModel>, cfg: CompareConfigModel) -> int
    decreases fs.len(),
{
    if fs.len() == 0 {
        0
    } else {
        not_ignored_count(fs.drop_last(), cfg) + (if !ignored(cfg, fs.last().name) {
            1int
        } else {
            0int
        })
    }
}

/// Numerator of the similarity score of an entity pair: the field overlap.
/// Two entities with no comparable fields at all count as identical.
pub open spec fn score_num(a: EntityModel, b: EntityModel, cfg: CompareConfigModel) -> int {
    if not_ignored_count(a.fields, cfg) == 0 && not_ignored_count(b.fields, cfg) == 0 {
        1
    } else {
        overlap_count(a.fields, b.fields, cfg)
    }
}

/// Denominator of the similarity score of an entity pair: the larger side's
/// non-ignored field count, so the score is the overlap coefficient
/// `m / max(|A|, |B|)` in `[0, 1]`.
pub open spec fn score_den(a: EntityModel, b: EntityModel, cfg: CompareConfigModel) -> int {
    let na = not_ignored_count(a.fields, cfg);
    let nb = not_ignored_count(b.fields, cfg);
    if na == 0 && nb == 0 {
        1
    } else if na >= nb {
        na
    } else {
        nb
    }
}

/// Whether an entity pair's score clears the configured threshold.
pub open spec fn score_clears(a: EntityModel, b: EntityModel, cfg: CompareConfigModel) -> bool {
    score_num(a, b, cfg) * 1000 >= (cfg.threshold_pm as int) * score_den(a, b, cfg)
}

/// Byte-lexicographic order on UTF-8 byte sequences, used to break score
/// ties deterministically.
pub open spec fn lex_lt_bytes(x: Seq<u8>, y: Seq<u8>) -> bool
    decreases x.len(),
{
    if y.len() == 0 {
        false
    } else if x.len() == 0 {
        true
    } else if x[0] < y[0] {
        true
    } else if x[0] > y[0] {
        false
    } else {
        lex_lt_bytes(x.skip(1), y.skip(1))
    }
}

/// Whether candidate pair `(a1, b1)` beats incumbent pair `(a2, b2)`:
/// strictly higher score, or an equal score and strictly smaller names in
/// byte order (first side first).
pub open spec fn pair_better(
    a1: EntityModel,
    b1: EntityModel,
    a2: EntityModel,
    b2: EntityModel,
    cfg: CompareConfigModel,
) -> bool {
    let n1 = score_num(a1, b1, cfg);
    let d1 = score_den(a1, b1, cfg);
    let n2 = score_num(a2, b2, cfg);
    let d2 = score_den(a2, b2, cfg);
    ||| n1 * d2 > n2 * d1
    ||| (n1 * d2 == n2 * d1 && lex_lt_bytes(encode_utf8(a1.name), encode_utf8(a2.name)))
    ||| (n1 * d2 == n2 * d1 && encode_utf8(a1.name) == encode_utf8(a2.name) && lex_lt_bytes(
        encode_utf8(b1.name),
        encode_utf8(b2.name),
    ))
}

/// Index of the best partner for `a` among `bv`: a later candidate replaces
/// the incumbent only when strictly better.
pub open spec fn best_in_row(a: EntityModel, bv: Seq<EntityModel>, cfg: CompareConfigModel) -> Option<
    int,
>
    decreases bv.len(),
{
    if bv.len() == 0 {
        None
    } else {
        let j = bv.len() - 1;
        match best_in_row(a, bv.drop_last(), cfg) {
            None => Some(j as int),
            Some(k) => if 0 <= k < bv.len() && pair_better(a, bv[j as int], a, bv[k], cfg) {
                Some(j as int)
            } else {
                Some(k)
            },
        }
    }
}

/// Index pair of the best-scoring pair of `av` and `bv`: a later candidate
/// replaces the incumbent only when strictly better.
pub open spec fn best_pair(
    av: Seq<EntityModel>,
    bv: Seq<EntityModel>,
    cfg: CompareConfigModel,
) -> Option<(int, int)>
    decreases av.len(),
{
    if av.len() == 0 || bv.len() == 0 {
        None
    } else {
        let i = av.len() - 1;
        match (best_pair(av.drop_last(), bv, cfg), best_in_row(av[i as int], bv, cfg)) {
            (None, Some(j)) => Some((i as int, j)),
            (Some(pq), Some(j)) => if 0 <= pq.0 < av.len() && 0 <= pq.1 < bv.len() && 0 <= j
                < bv.len() && pair_better(av[i as int], bv[j], av[pq.0], bv[pq.1], cfg) {
                Some((i as int, j))
            } else {
                Some(pq)
            },
            _ => None,
        }
    }
}

/// The best partner index is in range.
pub proof fn lemma_best_in_row_range(a: EntityModel, bv: Seq<EntityModel>, cfg: CompareConfigModel)
    ensures
        bv.len() == 0 <==> best_in_row(a, bv, cfg) is None,
        best_in_row(a, bv, cfg) matches Some(j) ==> 0 <= j < bv.len(),
    decreases bv.len(),
{
    if bv.len() > 0 {
        lemma_best_in_row_range(a, bv.drop_last(), cfg);
    }
}

/// The best pair indices are in range.
pub proof fn lemma_best_pair_range(av: Seq<EntityModel>, bv: Seq<EntityModel>, cfg: CompareConfigModel)
    ensures
        best_pair(av, bv, cfg) is None <==> (av.len() == 0 || bv.len() == 0),
        best_pair(av, bv, cfg) matches Some(ij) ==> 0 <= ij.0 < av.len() && 0 <= ij.1 < bv.len(),
    decreases av.len(),
{
    if av.len() > 0 && bv.len() > 0 {
        lemma_best_pair_range(av.drop_last(), bv, cfg);
        lemma_best_in_row_range(av[av.len() - 1], bv, cfg);
    }
}

/// Result of an entity-matching phase: the matched pairs, in match order,
/// and the unmatched leftovers of each side, in their original order.
pub ghost struct MatchSplit {
    pub pairs: Seq<(EntityModel, EntityModel)>,
    pub rest_a: Seq<EntityModel>,
    pub rest_b: Seq<EntityModel>,
}

/// Greedy similarity matching: repeatedly match the best remaining pair
/// while its score clears the threshold.
pub open spec fn greedy_match(
    av: Seq<EntityModel>,
    bv: Seq<EntityModel>,
    cfg: CompareConfigModel,
) -> MatchSplit
    decreases av.len(),
{
    match best_pair(av, bv, cfg) {
        Some(ij) => {
            if 0 <= ij.0 < av.len() && 0 <= ij.1 < bv.len() && score_clears(
                av[ij.0],
                bv[ij.1],
                cfg,
            ) {
                let sub = greedy_match(av.remove(ij.0), bv.remove(ij.1), cfg);
                MatchSplit {
                    pairs: seq![(av[ij.0], bv[ij.1])] + sub.pairs,
                    rest_a: sub.rest_a,
                    rest_b: sub.rest_b,
                }
            } else {
                MatchSplit { pairs: Seq::empty(), rest_a: av, rest_b: bv }
            }
        },
        None => MatchSplit { pairs: Seq::empty(), rest_a: av, rest_b: bv },
    }
}

/// The matching phase of one comparison, per strategy.
pub open spec fn match_split(a: SchemaModel, b: SchemaModel, cfg: CompareConfigModel) -> MatchSplit {
    match cfg.strategy {
        CompareStrategy::ByName => MatchSplit {
            pairs: name_pairs(a.entities, b.entities),
            rest_a: name_rest(a.entities, b.entities),
            rest_b: name_rest(b.entities, a.entities),
        },
        CompareStrategy::Semantic => greedy_match(a.entities, b.entities, cfg),
        CompareStrategy::Hybrid => {
            let g = greedy_match(
                name_rest(a.entities, b.entities),
                name_rest(b.entities, a.entities),
                cfg,
            );
            MatchSplit {
                pairs: name_pairs(a.entities, b.entities) + g.pairs,
                rest_a: g.rest_a,
                rest_b: g.rest_b,
            }
        },
    }
}

/// Unmatched entities as entity-level changes, in order.
pub open spec fn entity_changes(es: Seq<EntityModel>) -> Seq<ChangeModel>
    decreases es.len(),
{
    if es.len() == 0 {
        Seq::empty()
    } else {
        entity_changes(es.drop_last()) + seq![ChangeModel::Entity { value: es.last() }]
    }
}

/// Field-level removed changes of every matched pair, in match order.
pub open spec fn pairs_removed(pairs: Seq<(EntityModel, EntityModel)>, cfg: CompareConfigModel) -> Seq<
    ChangeModel,
>
    decreases pairs.len(),
{
    if pairs.len() == 0 {
        Seq::empty()
    } else {
        pairs_removed(pairs.drop_last(), cfg) + removed_field_changes(
            pairs.last().0.name,
            pairs.last().0.fields,
            pairs.last().1.fields,
            cfg,
        )
    }
}

/// Field-level added changes of every matched pair, in match order.
pub open spec fn pairs_added(pairs: Seq<(EntityModel, EntityModel)>, cfg: CompareConfigModel) -> Seq<
    ChangeModel,
>
    decreases pairs.len(),
{
    if pairs.len() == 0 {
        Seq::empty()
    } else {
        pairs_added(pairs.drop_last(), cfg) + added_field_changes(
            pairs.last().1.name,
            pairs.last().0.fields,
            pairs.last().1.fields,
            cfg,
        )
    }
}

/// Modifications of every matched pair (a rename record where the names
/// differ, then per-field attribute changes), in match order.
pub open spec fn pairs_modified(pairs: Seq<(EntityModel, EntityModel)>, cfg: CompareConfigModel) -> Seq<
    ModificationModel,
>
    decreases pairs.len(),
{
    if pairs.len() == 0 {
        Seq::empty()
    } else {
        pairs_modified(pairs.drop_last(), cfg) + (if pairs.last().0.name != pairs.last().1.name {
            seq![
                ModificationModel::EntityRenamed {
                    old_name: pairs.last().0.name,
                    new_name: pairs.last().1.name,
                },
            ]
        } else {
            Seq::empty()
        }) + modified_field_changes(
            pairs.last().0.name,
            pairs.last().0.fields,
            pairs.last().1.fields,
            cfg,
        )
    }
}

/// Compared field paths of every matched pair, in match order.
pub open spec fn pairs_compared(pairs: Seq<(EntityModel, EntityModel)>, cfg: CompareConfigModel) -> Seq<
    TargetPathModel,
>
    decreases pairs.len(),
{
    if pairs.len() == 0 {
        Seq::empty()
    } else {
        pairs_compared(pairs.drop_last(), cfg) + pair_compared_paths(
            pairs.last().0.name,
            pairs.last().0.fields,
            pairs.last().1.fields,
            cfg,
        )
    }
}

/// Compared field paths of unmatched entities, in order.
pub open spec fn rest_compared(es: Seq<EntityModel>, cfg: CompareConfigModel) -> Seq<TargetPathModel>
    decreases es.len(),
{
    if es.len() == 0 {
        Seq::empty()
    } else {
        rest_compared(es.drop_last(), cfg) + field_paths(es.last().name, es.last().fields, cfg)
    }
}

/// The complete diff of two schemas under a configuration: what `compare`
/// returns.
pub open spec fn compare_model(a: SchemaModel, b: SchemaModel, cfg: CompareConfigModel) -> ComparisonModel {
    let ms = match_split(a, b, cfg);
    ComparisonModel {
        source_a: a.source_name,
        source_b: b.source_name,
        added: entity_changes(ms.rest_b) + pairs_added(ms.pairs, cfg),
        removed: entity_changes(ms.rest_a) + pairs_removed(ms.pairs, cfg),
        modified: pairs_modified(ms.pairs, cfg),
        compared: pairs_compared(ms.pairs, cfg) + rest_compared(ms.rest_a, cfg) + rest_compared(
            ms.rest_b,
            cfg,
        ),
        config: cfg,
    }
}

/// Whether the configuration excludes this field name.
fn is_ignored(cfg: &CompareConfig, name: &String) -> (r: bool)
    ensures
        r == ignored(cfg@, name@),
{
    let mut i: usize = 0;
    while i < cfg.ignore_fields.len()
        invariant
            i <= cfg.ignore_fields.len(),
            forall|k: int| 0 <= k < i ==> cfg.ignore_fields.deep_view()[k] != name@,
        decreases cfg.ignore_fields.len() - i,
    {
        if cfg.ignore_fields[i] == *name {
            proof {
                assert(cfg.ignore_fields.deep_view()[i as int] == name@);
            }
            return true;
        }
        i = i + 1;
    }
    false
}

/// Equality of optional strings, by content.
fn opt_string_eq(a: &Option<String>, b: &Option<String>) -> (r: bool)
    ensures
        r == (a.deep_view() == b.deep_view()),
{
    match a {
        Some(x) => match b {
            Some(y) => *x == *y,
            None => false,
        },
        None => b.is_none(),
    }
}

/// Equality of optional booleans.
fn opt_bool_eq(a: &Option<bool>, b: &Option<bool>) -> (r: bool)
    ensures
        r == (a == b),
{
    match a {
        Some(x) => match b {
            Some(y) => *x == *y,
            None => false,
        },
        None => b.is_none(),
    }
}

/// Collects the old/new record of every attribute differing between two
/// matched fields.
fn attr_changes_exec(f: &Field, g: &Field) -> (out: Vec<AttrChange>)
    ensures
        out.deep_view() == attr_changes(f@, g@),
{
    let mut out: Vec<AttrChange> = Vec::new();
    if !(f.declared_type == g.declared_type) {
        out.push(AttrChange {
            attr: AttrKind::DeclaredType,
            old_value: AttrValue::Text(f.declared_type.clone()),
            new_value: AttrValue::Text(g.declared_type.clone()),
        });
    }
    if f.nullable != g.nullable {
        out.push(AttrChange {
            attr: AttrKind::Nullable,
            old_value: AttrValue::Flag(f.nullable),
            new_value: AttrValue::Flag(g.nullable),
        });
    }
    if !opt_string_eq(&f.default, &g.default) {
        out.push(AttrChange {
            attr: AttrKind::DefaultValue,
            old_value: AttrValue::OptText(crate::ir::clone_opt_string(&f.default)),
            new_value: AttrValue::OptText(crate::ir::clone_opt_string(&g.default)),
        });
    }
    if !opt_bool_eq(&f.is_primary_key, &g.is_primary_key) {
        out.push(AttrChange {
            attr: AttrKind::PrimaryKey,
            old_value: AttrValue::OptFlag(f.is_primary_key),
            new_value: AttrValue::OptFlag(g.is_primary_key),
        });
    }
    proof {
        assert(out.deep_view() =~= attr_changes(f@, g@));
    }
    out
}

/// Collects the removed-field changes of one matched entity pair.
fn removed_fields_exec(entity: &String, afs: &Vec<Field>, bfs: &Vec<Field>, cfg: &CompareConfig) -> (out: Vec<
    Change,
>)
    ensures
        out.deep_view() == removed_field_changes(entity@, afs.deep_view(), bfs.deep_view(), cfg@),
{
    let mut out: Vec<Change> = Vec::new();
    let mut i: usize = 0;
    while i < afs.len()
        invariant
            i <= afs.len(),
            out.deep_view() =~= removed_field_changes(
                entity@,
                afs.deep_view().take(i as int),
                bfs.deep_view(),
                cfg@,
            ),
        decreases afs.len() - i,
    {
        let f = &afs[i];
        if !is_ignored(cfg, &f.name) && find_field(bfs, &f.name).is_none() {
            out.push(Change::Field { entity: entity.clone(), value: clone_field(f) });
        }
        proof {
            assert(afs.deep_view().take(i + 1).drop_last() =~= afs.deep_view().take(i as int));
            assert(afs.deep_view().take(i + 1).last() == afs.deep_view()[i as int]);
        }
        i = i + 1;
    }
    proof {
        assert(afs.deep_view().take(afs.len() as int) =~= afs.deep_view());
    }
    out
}

/// Collects the added-field changes of one matched entity pair.
fn added_fields_exec(entity: &String, afs: &Vec<Field>, bfs: &Vec<Field>, cfg: &CompareConfig) -> (out: Vec<
    Change,
>)
    ensures
        out.deep_view() == added_field_changes(entity@, afs.deep_view(), bfs.deep_view(), cfg@),
{
    let mut out: Vec<Change> = Vec::new();
    let mut i: usize = 0;
    while i < bfs.len()
        invariant
            i <= bfs.len(),
            out.deep_view() =~= added_field_changes(
                entity@,
                afs.deep_view(),
                bfs.deep_view().take(i as int),
                cfg@,
            ),
        decreases bfs.len() - i,
    {
        let f = &bfs[i];
        if !is_ignored(cfg, &f.name) && find_field(afs, &f.name).is_none() {
            out.push(Change::Field { entity: entity.clone(), value: clone_field(f) });
        }
        proof {
            assert(bfs.deep_view().take(i + 1).drop_last() =~= bfs.deep_view().take(i as int));
            assert(bfs.deep_view().take(i + 1).last() == bfs.deep_view()[i as int]);
        }
        i = i + 1;
    }
    proof {
        assert(bfs.deep_view().take(bfs.len() as int) =~= bfs.deep_view());
    }
    out
}

/// Collects the modifications of one matched entity pair.
fn modified_fields_exec(
    entity: &String,
    afs: &Vec<Field>,
    bfs: &Vec<Field>,
    cfg: &CompareConfig,
) -> (out: Vec<Modification>)
    requires
        fields_unique(bfs.deep_view()),
    ensures
        out.deep_view() == modified_field_changes(entity@, afs.deep_view(), bfs.deep_view(), cfg@),
{
    let mut out: Vec<Modification> = Vec::new();
    let mut i: usize = 0;
    while i < afs.len()
        invariant
            i <= afs.len(),
            fields_unique(bfs.deep_view()),
            out.deep_view() =~= modified_field_changes(
                entity@,
                afs.deep_view().take(i as int),
                bfs.deep_view(),
                cfg@,
            ),
        decreases afs.len() - i,
    {
        let f = &afs[i];
        if !is_ignored(cfg, &f.name) {
            match find_field(bfs, &f.name) {
                Some(j) => {
                    proof {
                        lemma_field_named_is_at(bfs.deep_view(), j as int);
                    }
                    let g = &bfs[j];
                    let ac = attr_changes_exec(f, g);
                    if ac.len() > 0 {
                        out.push(Modification::FieldChanged {
                            entity: entity.clone(),
                            old_field: clone_field(f),
                            new_field: clone_field(g),
                            changes: ac,
                        });
                    }
                },
                None => {},
            }
        }
        proof {
            assert(afs.deep_view().take(i + 1).drop_last() =~= afs.deep_view().take(i as int));
            assert(afs.deep_view().take(i + 1).last() == afs.deep_view()[i as int]);
        }
        i = i + 1;
    }
    proof {
        assert(afs.deep_view().take(afs.len() as int) =~= afs.deep_view());
    }
    out
}

/// Collects the non-ignored field paths of one side.
fn field_paths_exec(entity: &String, fs: &Vec<Field>, cfg: &CompareConfig) -> (out: Vec<TargetPath>)
    ensures
        out.deep_view() == field_paths(entity@, fs.deep_view(), cfg@),
{
    let mut out: Vec<TargetPath> = Vec::new();
    let mut i: usize = 0;
    while i < fs.len()
        invariant
            i <= fs.len(),
            out.deep_view() =~= field_paths(entity@, fs.deep_view().take(i as int), cfg@),
        decreases fs.len() - i,
    {
        let f = &fs[i];
        if !is_ignored(cfg, &f.name) {
            out.push(TargetPath { entity: entity.clone(), field: Some(f.name.clone()) });
        }
        proof {
            assert(fs.deep_view().take(i + 1).drop_last() =~= fs.deep_view().take(i as int));
            assert(fs.deep_view().take(i + 1).last() == fs.deep_view()[i as int]);
        }
        i = i + 1;
    }
    proof {
        assert(fs.deep_view().take(fs.len() as int) =~= fs.deep_view());
    }
    out
}

/// Collects the non-ignored field paths of the second side absent from the
/// first side.
fn field_paths_only_exec(
    entity: &String,
    bfs: &Vec<Field>,
    afs: &Vec<Field>,
    cfg: &CompareConfig,
) -> (out: Vec<TargetPath>)
    ensures
        out.deep_view() == field_paths_only_in(entity@, bfs.deep_view(), afs.deep_view(), cfg@),
{
    let mut out: Vec<TargetPath> = Vec::new();
    let mut i: usize = 0;
    while i < bfs.len()
        invariant
            i <= bfs.len(),
            out.deep_view() =~= field_paths_only_in(
                entity@,
                bfs.deep_view().take(i as int),
                afs.deep_view(),
                cfg@,
            ),
        decreases bfs.len() - i,
    {
        let f = &bfs[i];
        if !is_ignored(cfg, &f.name) && find_field(afs, &f.name).is_none() {
            out.push(TargetPath { entity: entity.clone(), field: Some(f.name.clone()) });
        }
        proof {
            assert(bfs.deep_view().take(i + 1).drop_last() =~= bfs.deep_view().take(i as int));
            assert(bfs.deep_view().take(i + 1).last() == bfs.deep_view()[i as int]);
        }
        i = i + 1;
    }
    proof {
        assert(bfs.deep_view().take(bfs.len() as int) =~= bfs.deep_view());
    }
    out
}

/// One matched entity pair, first side then second side.
#[derive(Debug, Clone, PartialEq, Eq)]
pub struct EntityPair {
    pub a: Entity,
    pub b: Entity,
}

impl View for EntityPair {
    type V = (EntityModel, EntityModel);

    open spec fn view(&self) -> (EntityModel, EntityModel) {
        (self.a@, self.b@)
    }
}

impl DeepView for EntityPair {
    type V = (EntityModel, EntityModel);

    open spec fn deep_view(&self) -> (EntityModel, EntityModel) {
        self.view()
    }
}

/// Name-equality matching: the pairs and both leftovers.
fn name_split_exec(aes: &Vec<Entity>, bes: &Vec<Entity>) -> (r: (
    Vec<EntityPair>,
    Vec<Entity>,
    Vec<Entity>,
))
    requires
        entities_unique(bes.deep_view()),
    ensures
        r.0.deep_view() == name_pairs(aes.deep_view(), bes.deep_view()),
        r.1.deep_view() == name_rest(aes.deep_view(), bes.deep_view()),
        r.2.deep_view() == name_rest(bes.deep_view(), aes.deep_view()),
{
    let mut pairs: Vec<EntityPair> = Vec::new();
    let mut rest_a: Vec<Entity> = Vec::new();
    let mut i: usize = 0;
    while i < aes.len()
        invariant
            i <= aes.len(),
            entities_unique(bes.deep_view()),
            pairs.deep_view() =~= name_pairs(aes.deep_view().take(i as int), bes.deep_view()),
            rest_a.deep_view() =~= name_rest(aes.deep_view().take(i as int), bes.deep_view()),
        decreases aes.len() - i,
    {
        let e = &aes[i];
        match find_entity(bes, &e.entity_name) {
            Some(j) => {
                proof {
                    lemma_entity_named_is_at(bes.deep_view(), j as int);
                }
                pairs.push(EntityPair { a: clone_entity(e), b: clone_entity(&bes[j]) });
            },
            None => {
                rest_a.push(clone_entity(e));
            },
        }
        proof {
            assert(aes.deep_view().take(i + 1).drop_last() =~= aes.deep_view().take(i as int));
            assert(aes.deep_view().take(i + 1).last() == aes.deep_view()[i as int]);
        }
        i = i + 1;
    }
    let mut rest_b: Vec<Entity> = Vec::new();
    let mut j: usize = 0;
    while j < bes.len()
        invariant
            j <= bes.len(),
            rest_b.deep_view() =~= name_rest(bes.deep_view().take(j as int), aes.deep_view()),
        decreases bes.len() - j,
    {
        let e = &bes[j];
        if find_entity(aes, &e.entity_name).is_none() {
            rest_b.push(clone_entity(e));
        }
        proof {
            assert(bes.deep_view().take(j + 1).drop_last() =~= bes.deep_view().take(j as int));
            assert(bes.deep_view().take(j + 1).last() == bes.deep_view()[j as int]);
        }
        j = j + 1;
    }
    proof {
        assert(aes.deep_view().take(aes.len() as int) =~= aes.deep_view());
        assert(bes.deep_view().take(bes.len() as int) =~= bes.deep_view());
    }
    (pairs, rest_a, rest_b)
}

/// All members of `es` are well-formed entities.
pub open spec fn all_wf(es: Seq<EntityModel>) -> bool {
    forall|k: int| 0 <= k < es.len() ==> entity_wf(#[trigger] es[k])
}

/// All pairs are made of well-formed entities.
pub open spec fn all_pairs_wf(ps: Seq<(EntityModel, EntityModel)>) -> bool {
    forall|k: int| 0 <= k < ps.len() ==> entity_wf((#[trigger] ps[k]).0) && entity_wf(ps[k].1)
}

/// Name matching yields pairs and leftovers of well-formed entities when the
/// inputs are well-formed.
pub proof fn lemma_name_split_wf(aes: Seq<EntityModel>, bes: Seq<EntityModel>)
    requires
        all_wf(aes),
        all_wf(bes),
    ensures
        all_pairs_wf(name_pairs(aes, bes)),
        all_wf(name_rest(aes, bes)),
    decreases aes.len(),
{
    if aes.len() > 0 {
        assert(all_wf(aes.drop_last()));
        lemma_name_split_wf(aes.drop_last(), bes);
        if has_entity(bes, aes.last().name) {
            let l = choose|l: int| 0 <= l < bes.len() && bes[l].name == aes.last().name;
            assert(entity_named(bes, aes.last().name) == bes[l]);
        }
    }
}

/// Greedy matching yields pairs and leftovers of well-formed entities when
/// the inputs are well-formed.
pub proof fn lemma_greedy_wf(av: Seq<EntityModel>, bv: Seq<EntityModel>, cfg: CompareConfigModel)
    requires
        all_wf(av),
        all_wf(bv),
    ensures
        all_pairs_wf(greedy_match(av, bv, cfg).pairs),
        all_wf(greedy_match(av, bv, cfg).rest_a),
        all_wf(greedy_match(av, bv, cfg).rest_b),
    decreases av.len(),
{
    match best_pair(av, bv, cfg) {
        Some(ij) => {
            if 0 <= ij.0 < av.len() && 0 <= ij.1 < bv.len() && score_clears(
                av[ij.0],
                bv[ij.1],
                cfg,
            ) {
                assert(all_wf(av.remove(ij.0)));
                assert(all_wf(bv.remove(ij.1)));
                lemma_greedy_wf(av.remove(ij.0), bv.remove(ij.1), cfg);
            }
        },
        None => {},
    }
}

/// Widening product of two machine words.
fn mul_wide(x: usize, y: usize) -> (r: u128)
    ensures
        r as int == x as int * y as int,
{
    proof {
        lemma_mul_upper_bound(
            x as int,
            0xFFFF_FFFF_FFFF_FFFFu64 as int,
            y as int,
            0xFFFF_FFFF_FFFF_FFFFu64 as int,
        );
    }
    (x as u128) * (y as u128)
}

/// Number of non-ignored fields, counted.
fn not_ignored_count_exec(fs: &Vec<Field>, cfg: &CompareConfig) -> (r: usize)
    ensures
        r as int == not_ignored_count(fs.deep_view(), cfg@),
        r <= fs.len(),
{
    let mut c: usize = 0;
    let mut i: usize = 0;
    while i < fs.len()
        invariant
            i <= fs.len(),
            c <= i,
            c as int == not_ignored_count(fs.deep_view().take(i as int), cfg@),
        decreases fs.len() - i,
    {
        if !is_ignored(cfg, &fs[i].name) {
            c = c + 1;
        }
        proof {
            assert(fs.deep_view().take(i + 1).drop_last() =~= fs.deep_view().take(i as int));
            assert(fs.deep_view().take(i + 1).last() == fs.deep_view()[i as int]);
        }
        i = i + 1;
    }
    proof {
        assert(fs.deep_view().take(fs.len() as int) =~= fs.deep_view());
    }
    c
}

/// Field overlap of an entity pair, counted.
fn overlap_count_exec(afs: &Vec<Field>, bfs: &Vec<Field>, cfg: &CompareConfig) -> (r: usize)
    requires
        fields_unique(bfs.deep_view()),
    ensures
        r as int == overlap_count(afs.deep_view(), bfs.deep_view(), cfg@),
{
    let mut c: usize = 0;
    let mut i: usize = 0;
    while i < afs.len()
        invariant
            i <= afs.len(),
            c <= i,
            fields_unique(bfs.deep_view()),
            c as int == overlap_count(afs.deep_view().take(i as int), bfs.deep_view(), cfg@),
        decreases afs.len() - i,
    {
        let f = &afs[i];
        if !is_ignored(cfg, &f.name) {
            match find_field(bfs, &f.name) {
                Some(j) => {
                    proof {
                        lemma_field_named_is_at(bfs.deep_view(), j as int);
                    }
                    if bfs[j].declared_type == f.declared_type {
                        c = c + 1;
                    }
                },
                None => {},
            }
        }
        proof {
            assert(afs.deep_view().take(i + 1).drop_last() =~= afs.deep_view().take(i as int));
            assert(afs.deep_view().take(i + 1).last() == afs.deep_view()[i as int]);
        }
        i = i + 1;
    }
    proof {
        assert(afs.deep_view().take(afs.len() as int) =~= afs.deep_view());
    }
    c
}

/// The similarity score of an entity pair, as an exact fraction.
fn score_of_exec(ae: &Entity, be: &Entity, cfg: &CompareConfig) -> (r: (usize, usize))
    requires
        entity_wf(be@),
    ensures
        r.0 as int == score_num(ae@, be@, cfg@),
        r.1 as int == score_den(ae@, be@, cfg@),
{
    let na = not_ignored_count_exec(&ae.fields, cfg);
    let nb = not_ignored_count_exec(&be.fields, cfg);
    if na == 0 && nb == 0 {
        (1, 1)
    } else {
        let m = overlap_count_exec(&ae.fields, &be.fields, cfg);
        (m, if na >= nb { na } else { nb })
    }
}

/// Whether a score clears the configured threshold.
fn score_clears_exec(num: usize, den: usize, threshold_pm: u32) -> (r: bool)
    ensures
        r == (num as int * 1000 >= threshold_pm as int * den as int),
{
    proof {
        lemma_mul_upper_bound(num as int, 0xFFFF_FFFF_FFFF_FFFFu64 as int, 1000, 1000);
        lemma_mul_upper_bound(
            threshold_pm as int,
            u32::MAX as int,
            den as int,
            0xFFFF_FFFF_FFFF_FFFFu64 as int,
        );
    }
    (num as u128) * 1000 >= (threshold_pm as u128) * (den as u128)
}

/// Byte-lexicographic strict order on byte slices.
fn bytes_lt(x: &[u8], y: &[u8]) -> (r: bool)
    ensures
        r == lex_lt_bytes(x@, y@),
{
    let mut i: usize = 0;
    proof {
        assert(x@.skip(0) =~= x@);
        assert(y@.skip(0) =~= y@);
    }
    while i < x.len() && i < y.len()
        invariant
            i <= x.len(),
            i <= y.len(),
            lex_lt_bytes(x@, y@) == lex_lt_bytes(x@.skip(i as int), y@.skip(i as int)),
        decreases x.len() - i,
    {
        proof {
            assert(x@.skip(i as int)[0] == x@[i as int]);
            assert(y@.skip(i as int)[0] == y@[i as int]);
        }
        if x[i] < y[i] {
            return true;
        }
        if x[i] > y[i] {
            return false;
        }
        proof {
            assert(x@.skip(i as int).skip(1) =~= x@.skip(i + 1));
            assert(y@.skip(i as int).skip(1) =~= y@.skip(i + 1));
        }
        i = i + 1;
    }
    proof {
        if i >= x.len() {
            assert(x@.skip(i as int).len() == 0);
        }
        if i >= y.len() {
            assert(y@.skip(i as int).len() == 0);
        }
    }
    x.len() < y.len()
}

/// Byte equality of byte slices.
fn bytes_eq(x: &[u8], y: &[u8]) -> (r: bool)
    ensures
        r == (x@ == y@),
{
    if x.len() != y.len() {
        proof {
            assert(x@.len() != y@.len());
        }
        return false;
    }
    let mut i: usize = 0;
    while i < x.len()
        invariant
            i <= x.len(),
            x@.len() == y@.len(),
            forall|k: int| 0 <= k < i ==> x@[k] == y@[k],
        decreases x.len() - i,
    {
        if x[i] != y[i] {
            return false;
        }
        i = i + 1;
    }
    proof {
        assert(x@ =~= y@);
    }
    true
}

/// Byte-lexicographic strict order on strings, over their UTF-8 encodings.
pub(crate) fn str_bytes_lt(a: &String, b: &String) -> (r: bool)
    ensures
        r == lex_lt_bytes(encode_utf8(a@), encode_utf8(b@)),
{
    bytes_lt(a.as_str().as_bytes(), b.as_str().as_bytes())
}

/// Byte equality of strings, over their UTF-8 encodings.
pub(crate) fn str_bytes_eq(a: &String, b: &String) -> (r: bool)
    ensures
        r == (encode_utf8(a@) == encode_utf8(b@)),
{
    bytes_eq(a.as_str().as_bytes(), b.as_str().as_bytes())
}

/// Whether the first pair beats the second.
fn pair_better_exec(a1: &Entity, b1: &Entity, a2: &Entity, b2: &Entity, cfg: &CompareConfig) -> (r: bool)
    requires
        entity_wf(b1@),
        entity_wf(b2@),
    ensures
        r == pair_better(a1@, b1@, a2@, b2@, cfg@),
{
    let s1 = score_of_exec(a1, b1, cfg);
    let s2 = score_of_exec(a2, b2, cfg);
    let left = mul_wide(s1.0, s2.1);
    let right = mul_wide(s2.0, s1.1);
    if left > right {
        true
    } else if left == right {
        if str_bytes_lt(&a1.entity_name, &a2.entity_name) {
            true
        } else if str_bytes_eq(&a1.entity_name, &a2.entity_name) {
            str_bytes_lt(&b1.entity_name, &b2.entity_name)
        } else {
            false
        }
    } else {
        false
    }
}

/// The best partner for one first-side entity.
fn best_in_row_exec(ae: &Entity, bv: &Vec<Entity>, cfg: &CompareConfig) -> (r: Option<usize>)
    requires
        all_wf(bv.deep_view()),
    ensures
        match r {
            Some(j) => j < bv.len() && best_in_row(ae@, bv.deep_view(), cfg@) == Some(j as int),
            None => bv.len() == 0,
        },
{
    let mut best: Option<usize> = None;
    let mut j: usize = 0;
    while j < bv.len()
        invariant
            j <= bv.len(),
            all_wf(bv.deep_view()),
            match best {
                Some(k) => k < j && best_in_row(ae@, bv.deep_view().take(j as int), cfg@) == Some(
                    k as int,
                ),
                None => j == 0,
            },
        decreases bv.len() - j,
    {
        proof {
            assert(bv.deep_view().take(j + 1).drop_last() =~= bv.deep_view().take(j as int));
            assert(bv.deep_view().take(j + 1).last() == bv.deep_view()[j as int]);
        }
        match best {
            None => {
                best = Some(j);
            },
            Some(k) => {
                if pair_better_exec(ae, &bv[j], ae, &bv[k], cfg) {
                    best = Some(j);
                }
            },
        }
        j = j + 1;
    }
    proof {
        assert(bv.deep_view().take(bv.len() as int) =~= bv.deep_view());
    }
    best
}

/// The best remaining pair of the two sides.
fn best_pair_exec(av: &Vec<Entity>, bv: &Vec<Entity>, cfg: &CompareConfig) -> (r: Option<
    (usize, usize),
>)
    requires
        all_wf(bv.deep_view()),
    ensures
        match r {
            Some(ij) => ij.0 < av.len() && ij.1 < bv.len() && best_pair(
                av.deep_view(),
                bv.deep_view(),
                cfg@,
            ) == Some((ij.0 as int, ij.1 as int)),
            None => best_pair(av.deep_view(), bv.deep_view(), cfg@) is None,
        },
{
    if bv.len() == 0 {
        return None;
    }
    let mut best: Option<(usize, usize)> = None;
    let mut i: usize = 0;
    while i < av.len()
        invariant
            i <= av.len(),
            bv.len() > 0,
            all_wf(bv.deep_view()),
            match best {
                Some(pq) => pq.0 < i && pq.1 < bv.len() && best_pair(
                    av.deep_view().take(i as int),
                    bv.deep_view(),
                    cfg@,
                ) == Some((pq.0 as int, pq.1 as int)),
                None => i == 0,
            },
        decreases av.len() - i,
    {
        proof {
            assert(av.deep_view().take(i + 1).drop_last() =~= av.deep_view().take(i as int));
            assert(av.deep_view().take(i + 1).last() == av.deep_view()[i as int]);
        }
        let rowj = best_in_row_exec(&av[i], bv, cfg);
        match rowj {
            Some(j) => {
                match best {
                    None => {
                        best = Some((i, j));
                    },
                    Some(pq) => {
                        proof {
                            assert(entity_wf(bv.deep_view()[j as int]));
                            assert(entity_wf(bv.deep_view()[pq.1 as int]));
                        }
                        if pair_better_exec(&av[i], &bv[j], &av[pq.0], &bv[pq.1], cfg) {
                            best = Some((i, j));
                        } else {
                            best = Some(pq);
                        }
                    },
                }
            },
            None => {},
        }
        i = i + 1;
    }
    proof {
        assert(av.deep_view().take(av.len() as int) =~= av.deep_view());
    }
    best
}

/// Greedy similarity matching over owned working copies.
fn greedy_exec(av: Vec<Entity>, bv: Vec<Entity>, cfg: &CompareConfig) -> (r: (
    Vec<EntityPair>,
    Vec<Entity>,
    Vec<Entity>,
))
    requires
        all_wf(bv.deep_view()),
    ensures
        r.0.deep_view() == greedy_match(av.deep_view(), bv.deep_view(), cfg@).pairs,
        r.1.deep_view() == greedy_match(av.deep_view(), bv.deep_view(), cfg@).rest_a,
        r.2.deep_view() == greedy_match(av.deep_view(), bv.deep_view(), cfg@).rest_b,
{
    let ghost av0 = av.deep_view();
    let ghost bv0 = bv.deep_view();
    let mut ra = av;
    let mut rb = bv;
    let mut pairs: Vec<EntityPair> = Vec::new();
    let mut done = false;
    while !done
        invariant
            all_wf(rb.deep_view()),
            greedy_match(av0, bv0, cfg@).pairs =~= pairs.deep_view() + greedy_match(
                ra.deep_view(),
                rb.deep_view(),
                cfg@,
            ).pairs,
            greedy_match(av0, bv0, cfg@).rest_a == greedy_match(
                ra.deep_view(),
                rb.deep_view(),
                cfg@,
            ).rest_a,
            greedy_match(av0, bv0, cfg@).rest_b == greedy_match(
                ra.deep_view(),
                rb.deep_view(),
                cfg@,
            ).rest_b,
            done ==> greedy_match(ra.deep_view(), rb.deep_view(), cfg@).pairs == Seq::<
                (EntityModel, EntityModel),
            >::empty(),
        decreases 2 * ra.len() + (if done {
            0int
        } else {
            1int
        }),
    {
        match best_pair_exec(&ra, &rb, cfg) {
            None => {
                done = true;
            },
            Some((i, j)) => {
                let s = score_of_exec(&ra[i], &rb[j], cfg);
                if score_clears_exec(s.0, s.1, cfg.threshold_pm) {
                    let ghost ra_before = ra.deep_view();
                    let ghost rb_before = rb.deep_view();
                    let ghost pairs_before = pairs.deep_view();
                    let ae = ra.remove(i);
                    let be = rb.remove(j);
                    pairs.push(EntityPair { a: ae, b: be });
                    proof {
                        assert(ra.deep_view() =~= ra_before.remove(i as int));
                        assert(rb.deep_view() =~= rb_before.remove(j as int));
                        assert(pairs.deep_view() =~= pairs_before.push(
                            (ra_before[i as int], rb_before[j as int]),
                        ));
                        assert(greedy_match(ra_before, rb_before, cfg@).pairs =~= seq![
                            (ra_before[i as int], rb_before[j as int]),
                        ] + greedy_match(ra.deep_view(), rb.deep_view(), cfg@).pairs);
                        assert(pairs_before + (seq![(ra_before[i as int], rb_before[j as int])]
                            + greedy_match(ra.deep_view(), rb.deep_view(), cfg@).pairs) =~= (
                        pairs_before.push((ra_before[i as int], rb_before[j as int]))
                            + greedy_match(ra.deep_view(), rb.deep_view(), cfg@).pairs));
                        assert(all_wf(rb.deep_view()));
                    }
                } else {
                    done = true;
                }
            },
        }
    }
    proof {
        assert(pairs.deep_view() + Seq::<(EntityModel, EntityModel)>::empty() =~= pairs.deep_view());
        assert(greedy_match(ra.deep_view(), rb.deep_view(), cfg@).rest_a == ra.deep_view());
        assert(greedy_match(ra.deep_view(), rb.deep_view(), cfg@).rest_b == rb.deep_view());
    }
    (pairs, ra, rb)
}

/// Copies a comparison configuration; the copy models identically.
pub fn clone_compare_config(cfg: &CompareConfig) -> (r: CompareConfig)
    ensures
        r@ == cfg@,
{
    let mut igs: Vec<String> = Vec::new();
    let mut i: usize = 0;
    while i < cfg.ignore_fields.len()
        invariant
            i <= cfg.ignore_fields.len(),
            igs.len() == i,
            igs.deep_view() =~= cfg.ignore_fields.deep_view().take(i as int),
        decreases cfg.ignore_fields.len() - i,
    {
        let v = cfg.ignore_fields[i].clone();
        igs.push(v);
        proof {
            assert(igs.deep_view() =~= cfg.ignore_fields.deep_view().take(i + 1));
        }
        i = i + 1;
    }
    proof {
        assert(igs.deep_view() =~= cfg.ignore_fields.deep_view());
    }
    CompareConfig { strategy: cfg.strategy, threshold_pm: cfg.threshold_pm, ignore_fields: igs }
}

/// The matching phase, per strategy.
fn match_split_exec(a: &SchemaIR, b: &SchemaIR, cfg: &CompareConfig) -> (r: (
    Vec<EntityPair>,
    Vec<Entity>,
    Vec<Entity>,
))
    requires
        schema_wf(a@),
        schema_wf(b@),
    ensures
        r.0.deep_view() == match_split(a@, b@, cfg@).pairs,
        r.1.deep_view() == match_split(a@, b@, cfg@).rest_a,
        r.2.deep_view() == match_split(a@, b@, cfg@).rest_b,
        all_pairs_wf(r.0.deep_view()),
        all_wf(r.1.deep_view()),
        all_wf(r.2.deep_view()),
{
    proof {
        assert(all_wf(a@.entities));
        assert(all_wf(b@.entities));
    }
    match cfg.strategy {
        CompareStrategy::ByName => {
            let r = name_split_exec(&a.entities, &b.entities);
            proof {
                lemma_name_split_wf(a@.entities, b@.entities);
                lemma_name_split_wf(b@.entities, a@.entities);
            }
            r
        },
        CompareStrategy::Semantic => {
            let r = greedy_exec(clone_entities(&a.entities), clone_entities(&b.entities), cfg);
            proof {
                lemma_greedy_wf(a@.entities, b@.entities, cfg@);
            }
            r
        },
        CompareStrategy::Hybrid => {
            let ns = name_split_exec(&a.entities, &b.entities);
            proof {
                lemma_name_split_wf(a@.entities, b@.entities);
                lemma_name_split_wf(b@.entities, a@.entities);
            }
            let (mut pairs, ra, rb) = ns;
            let g = greedy_exec(ra, rb, cfg);
            proof {
                lemma_greedy_wf(
                    name_rest(a@.entities, b@.entities),
                    name_rest(b@.entities, a@.entities),
                    cfg@,
                );
            }
            let (mut gp, gra, grb) = g;
            pairs.append(&mut gp);
            proof {
                assert(pairs.deep_view() =~= match_split(a@, b@, cfg@).pairs);
            }
            (pairs, gra, grb)
        },
    }
}

/// The similarity score rendered in per mille, rounded down, so that it is
/// `1000` exactly when there are no changes at all.
pub open spec fn similarity_pm_of(diffs: int, total: int) -> int {
    if total <= 0 {
        if diffs == 0 {
            1000
        } else {
            0
        }
    } else if diffs >= total {
        0
    } else {
        (1000 * (total - diffs)) / total
    }
}

/// The rendered similarity lies in `[0, 1000]` and is full exactly when the
/// diff is empty: one change, however many items were compared, already
/// pushes it below one.
pub proof fn lemma_similarity_identity(diffs: int, total: int)
    requires
        0 <= diffs,
        0 <= total,
    ensures
        0 <= similarity_pm_of(diffs, total) <= 1000,
        similarity_pm_of(diffs, total) == 1000 <==> diffs == 0,
{
    if total > 0 && diffs < total {
        vstd::arithmetic::div_mod::lemma_div_multiples_vanish(1000, total);
        assert((total * 1000) / total == 1000);
        if diffs == 0 {
            assert(1000 * (total - diffs) == total * 1000);
        } else {
            vstd::arithmetic::mul::lemma_mul_strict_inequality(total - diffs, total, 1000);
            assert(1000 * (total - diffs) == (total - diffs) * 1000);
            assert(1000 * (total - diffs) < total * 1000);
            vstd::arithmetic::div_mod::lemma_multiply_divide_lt(
                1000 * (total - diffs),
                total,
                1000,
            );
            assert(total * 1000 == 1000 * total);
        }
        vstd::arithmetic::div_mod::lemma_div_is_ordered(
            0,
            1000 * (total - diffs),
            total,
        );
    }
}

impl Statistics {
    /// The similarity score of this diff, in per mille: full exactly when
    /// the change sets are all empty.
    pub fn similarity_per_mille(&self) -> (r: u32)
        ensures
            r as int == similarity_pm_of(
                self.added_count as int + self.removed_count as int + self.modified_count as int,
                self.total_compared as int,
            ),
            r <= 1000,
            r == 1000 <==> self.added_count == 0 && self.removed_count == 0
                && self.modified_count == 0,
    {
        let diffs: u128 = self.added_count as u128 + self.removed_count as u128
            + self.modified_count as u128;
        let total: u128 = self.total_compared as u128;
        proof {
            lemma_similarity_identity(diffs as int, total as int);
        }
        if total == 0 {
            if diffs == 0 {
                1000
            } else {
                0
            }
        } else if diffs >= total {
            0
        } else {
            proof {
                lemma_mul_upper_bound(
                    1000,
                    1000,
                    (total - diffs) as int,
                    0xFFFF_FFFF_FFFF_FFFF_FFFFu128 as int,
                );
            }
            let q = (1000 * (total - diffs)) / total;
            q as u32
        }
    }
}

/// Compares two schema snapshots. Succeeds exactly when the format versions
/// agree; the result is then the complete, deterministic diff model of the
/// two schemas under the given configuration, with consistent statistics.
pub fn compare(a: &SchemaIR, b: &SchemaIR, config: &CompareConfig) -> (r: Result<
    ComparisonResult,
    AuddNativeError,
>)
    requires
        schema_wf(a@),
        schema_wf(b@),
    ensures
        r is Ok <==> a.ir_version == b.ir_version,
        r matches Ok(c) ==> c@ == compare_model(a@, b@, config@) && statistics_ok(&c),
        r matches Err(e) ==> e is InvalidInput,
{
    if a.ir_version != b.ir_version {
        return Result::Err(
            AuddNativeError::InvalidInput(
                String::from_str("schemas have incompatible ir_version values"),
            ),
        );
    }
    let (pairs, rest_a, rest_b) = match_split_exec(a, b, config);
    let ghost msp = match_split(a@, b@, config@);

    let mut removed: Vec<Change> = Vec::new();
    let mut i: usize = 0;
    while i < rest_a.len()
        invariant
            i <= rest_a.len(),
            removed.deep_view() =~= entity_changes(rest_a.deep_view().take(i as int)),
        decreases rest_a.len() - i,
    {
        removed.push(Change::Entity { value: clone_entity(&rest_a[i]) });
        proof {
            assert(rest_a.deep_view().take(i + 1).drop_last() =~= rest_a.deep_view().take(i as int));
            assert(rest_a.deep_view().take(i + 1).last() == rest_a.deep_view()[i as int]);
        }
        i = i + 1;
    }
    proof {
        assert(rest_a.deep_view().take(rest_a.len() as int) =~= rest_a.deep_view());
    }
    let mut p: usize = 0;
    while p < pairs.len()
        invariant
            p <= pairs.len(),
            all_pairs_wf(pairs.deep_view()),
            removed.deep_view() =~= entity_changes(rest_a.deep_view()) + pairs_removed(
                pairs.deep_view().take(p as int),
                config@,
            ),
        decreases pairs.len() - p,
    {
        let pr = &pairs[p];
        let mut v = removed_fields_exec(&pr.a.entity_name, &pr.a.fields, &pr.b.fields, config);
        let ghost before = removed.deep_view();
        let ghost vdv = v.deep_view();
        removed.append(&mut v);
        proof {
            assert(removed.deep_view() =~= before + vdv);
            assert(pairs.deep_view().take(p + 1).drop_last() =~= pairs.deep_view().take(p as int));
            assert(pairs.deep_view().take(p + 1).last() == pairs.deep_view()[p as int]);
        }
        p = p + 1;
    }
    proof {
        assert(pairs.deep_view().take(pairs.len() as int) =~= pairs.deep_view());
    }

    let mut added: Vec<Change> = Vec::new();
    let mut j: usize = 0;
    while j < rest_b.len()
        invariant
            j <= rest_b.len(),
            added.deep_view() =~= entity_changes(rest_b.deep_view().take(j as int)),
        decreases rest_b.len() - j,
    {
        added.push(Change::Entity { value: clone_entity(&rest_b[j]) });
        proof {
            assert(rest_b.deep_view().take(j + 1).drop_last() =~= rest_b.deep_view().take(j as int));
            assert(rest_b.deep_view().take(j + 1).last() == rest_b.deep_view()[j as int]);
        }
        j = j + 1;
    }
    proof {
        assert(rest_b.deep_view().take(rest_b.len() as int) =~= rest_b.deep_view());
    }
    let mut p2: usize = 0;
    while p2 < pairs.len()
        invariant
            p2 <= pairs.len(),
            all_pairs_wf(pairs.deep_view()),
            added.deep_view() =~= entity_changes(rest_b.deep_view()) + pairs_added(
                pairs.deep_view().take(p2 as int),
                config@,
            ),
        decreases pairs.len() - p2,
    {
        let pr = &pairs[p2];
        let mut v = added_fields_exec(&pr.b.entity_name, &pr.a.fields, &pr.b.fields, config);
        let ghost before = added.deep_view();
        let ghost vdv = v.deep_view();
        added.append(&mut v);
        proof {
            assert(added.deep_view() =~= before + vdv);
            assert(pairs.deep_view().take(p2 + 1).drop_last() =~= pairs.deep_view().take(p2 as int));
            assert(pairs.deep_view().take(p2 + 1).last() == pairs.deep_view()[p2 as int]);
        }
        p2 = p2 + 1;
    }
    proof {
        assert(pairs.deep_view().take(pairs.len() as int) =~= pairs.deep_view());
    }

    let mut modified: Vec<Modification> = Vec::new();
    let mut p3: usize = 0;
    while p3 < pairs.len()
        invariant
            p3 <= pairs.len(),
            all_pairs_wf(pairs.deep_view()),
            modified.deep_view() =~= pairs_modified(pairs.deep_view().take(p3 as int), config@),
        decreases pairs.len() - p3,
    {
        let pr = &pairs[p3];
        let ghost before = modified.deep_view();
        if !(pr.a.entity_name == pr.b.entity_name) {
            modified.push(
                Modification::EntityRenamed {
                    old_name: pr.a.entity_name.clone(),
                    new_name: pr.b.entity_name.clone(),
                },
            );
            proof {
                assert(modified.deep_view() =~= before + seq![
                    ModificationModel::EntityRenamed {
                        old_name: pr.a.entity_name@,
                        new_name: pr.b.entity_name@,
                    },
                ]);
            }
        }
        proof {
            assert(entity_wf(pairs.deep_view()[p3 as int].1));
        }
        let mut v = modified_fields_exec(&pr.a.entity_name, &pr.a.fields, &pr.b.fields, config);
        let ghost mid = modified.deep_view();
        let ghost vdv = v.deep_view();
        modified.append(&mut v);
        proof {
            assert(modified.deep_view() =~= mid + vdv);
            assert(pairs.deep_view().take(p3 + 1).drop_last() =~= pairs.deep_view().take(p3 as int));
            assert(pairs.deep_view().take(p3 + 1).last() == pairs.deep_view()[p3 as int]);
        }
        p3 = p3 + 1;
    }
    proof {
        assert(pairs.deep_view().take(pairs.len() as int) =~= pairs.deep_view());
    }

    let mut compared: Vec<TargetPath> = Vec::new();
    let mut p4: usize = 0;
    while p4 < pairs.len()
        invariant
            p4 <= pairs.len(),
            all_pairs_wf(pairs.deep_view()),
            compared.deep_view() =~= pairs_compared(pairs.deep_view().take(p4 as int), config@),
        decreases pairs.len() - p4,
    {
        let pr = &pairs[p4];
        let ghost before = compared.deep_view();
        let mut v1 = field_paths_exec(&pr.a.entity_name, &pr.a.fields, config);
        let ghost v1dv = v1.deep_view();
        compared.append(&mut v1);
        proof {
            assert(compared.deep_view() =~= before + v1dv);
        }
        let ghost mid = compared.deep_view();
        let mut v2 = field_paths_only_exec(&pr.a.entity_name, &pr.b.fields, &pr.a.fields, config);
        let ghost v2dv = v2.deep_view();
        compared.append(&mut v2);
        proof {
            assert(compared.deep_view() =~= mid + v2dv);
            assert(pairs.deep_view().take(p4 + 1).drop_last() =~= pairs.deep_view().take(p4 as int));
            assert(pairs.deep_view().take(p4 + 1).last() == pairs.deep_view()[p4 as int]);
        }
        p4 = p4 + 1;
    }
    proof {
        assert(pairs.deep_view().take(pairs.len() as int) =~= pairs.deep_view());
    }
    let mut r1: usize = 0;
    while r1 < rest_a.len()
        invariant
            r1 <= rest_a.len(),
            compared.deep_view() =~= pairs_compared(pairs.deep_view(), config@) + rest_compared(
                rest_a.deep_view().take(r1 as int),
                config@,
            ),
        decreases rest_a.len() - r1,
    {
        let e = &rest_a[r1];
        let ghost before = compared.deep_view();
        let mut v = field_paths_exec(&e.entity_name, &e.fields, config);
        let ghost vdv = v.deep_view();
        compared.append(&mut v);
        proof {
            assert(compared.deep_view() =~= before + vdv);
            assert(rest_a.deep_view().take(r1 + 1).drop_last() =~= rest_a.deep_view().take(
                r1 as int,
            ));
            assert(rest_a.deep_view().take(r1 + 1).last() == rest_a.deep_view()[r1 as int]);
        }
        r1 = r1 + 1;
    }
    proof {
        assert(rest_a.deep_view().take(rest_a.len() as int) =~= rest_a.deep_view());
    }
    let mut r2: usize = 0;
    while r2 < rest_b.len()
        invariant
            r2 <= rest_b.len(),
            compared.deep_view() =~= pairs_compared(pairs.deep_view(), config@) + rest_compared(
                rest_a.deep_view(),
                config@,
            ) + rest_compared(rest_b.deep_view().take(r2 as int), config@),
        decreases rest_b.len() - r2,
    {
        let e = &rest_b[r2];
        let ghost before = compared.deep_view();
        let mut v = field_paths_exec(&e.entity_name, &e.fields, config);
        let ghost vdv = v.deep_view();
        compared.append(&mut v);
        proof {
            assert(compared.deep_view() =~= before + vdv);
            assert(rest_b.deep_view().take(r2 + 1).drop_last() =~= rest_b.deep_view().take(
                r2 as int,
            ));
            assert(rest_b.deep_view().take(r2 + 1).last() == rest_b.deep_view()[r2 as int]);
        }
        r2 = r2 + 1;
    }
    proof {
        assert(rest_b.deep_view().take(rest_b.len() as int) =~= rest_b.deep_view());
    }

    let statistics = Statistics {
        added_count: added.len(),
        removed_count: removed.len(),
        modified_count: modified.len(),
        total_compared: compared.len(),
    };
    let result = ComparisonResult {
        source_a: a.source_name.clone(),
        source_b: b.source_name.clone(),
        changes: ChangeSet { added, removed, modified },
        compared,
        statistics,
        config: clone_compare_config(config),
    };
    proof {
        assert(result@.added =~= compare_model(a@, b@, config@).added);
        assert(result@.removed =~= compare_model(a@, b@, config@).removed);
        assert(result@.modified =~= compare_model(a@, b@, config@).modified);
        assert(result@.compared =~= compare_model(a@, b@, config@).compared);
    }
    Result::Ok(result)
}

/// A change that is not about an ignored field.
pub open spec fn change_avoids(c: ChangeModel, cfg: CompareConfigModel) -> bool {
    c matches ChangeModel::Field { value, .. } ==> !ignored(cfg, value.name)
}

/// A modification that is not about an ignored field.
pub open spec fn modification_avoids(m: ModificationModel, cfg: CompareConfigModel) -> bool {
    m matches ModificationModel::FieldChanged { old_field, .. } ==> !ignored(cfg, old_field.name)
}

/// A compared path that is not an ignored field's.
pub open spec fn path_avoids(p: TargetPathModel, cfg: CompareConfigModel) -> bool {
    p.field matches Some(f) ==> !ignored(cfg, f)
}

proof fn lemma_removed_fc_avoids(
    entity: Seq<char>,
    afs: Seq<FieldModel>,
    bfs: Seq<FieldModel>,
    cfg: CompareConfigModel,
)
    ensures
        forall|k: int| 0 <= k < removed_field_changes(entity, afs, bfs, cfg).len()
            ==> change_avoids(#[trigger] removed_field_changes(entity, afs, bfs, cfg)[k], cfg),
    decreases afs.len(),
{
    if afs.len() > 0 {
        lemma_removed_fc_avoids(entity, afs.drop_last(), bfs, cfg);
        let whole = removed_field_changes(entity, afs, bfs, cfg);
        let prev = removed_field_changes(entity, afs.drop_last(), bfs, cfg);
        assert forall|k: int| 0 <= k < whole.len() implies change_avoids(whole[k], cfg) by {
            if k < prev.len() {
                assert(whole[k] == prev[k]);
            } else {
                assert(whole[k] == whole[k]);
            }
        }
    }
}

proof fn lemma_added_fc_avoids(
    entity: Seq<char>,
    afs: Seq<FieldModel>,
    bfs: Seq<FieldModel>,
    cfg: CompareConfigModel,
)
    ensures
        forall|k: int| 0 <= k < added_field_changes(entity, afs, bfs, cfg).len() ==> change_avoids(
            #[trigger] added_field_changes(entity, afs, bfs, cfg)[k],
            cfg,
        ),
    decreases bfs.len(),
{
    if bfs.len() > 0 {
        lemma_added_fc_avoids(entity, afs, bfs.drop_last(), cfg);
        let whole = added_field_changes(entity, afs, bfs, cfg);
        let prev = added_field_changes(entity, afs, bfs.drop_last(), cfg);
        assert forall|k: int| 0 <= k < whole.len() implies change_avoids(whole[k], cfg) by {
            if k < prev.len() {
                assert(whole[k] == prev[k]);
            } else {
                assert(whole[k] == whole[k]);
            }
        }
    }
}

proof fn lemma_modified_fc_avoids(
    entity: Seq<char>,
    afs: Seq<FieldModel>,
    bfs: Seq<FieldModel>,
    cfg: CompareConfigModel,
)
    ensures
        forall|k: int| 0 <= k < modified_field_changes(entity, afs, bfs, cfg).len()
            ==> modification_avoids(#[trigger] modified_field_changes(entity, afs, bfs, cfg)[k], cfg),
    decreases afs.len(),
{
    if afs.len() > 0 {
        lemma_modified_fc_avoids(entity, afs.drop_last(), bfs, cfg);
        let whole = modified_field_changes(entity, afs, bfs, cfg);
        let prev = modified_field_changes(entity, afs.drop_last(), bfs, cfg);
        assert forall|k: int| 0 <= k < whole.len() implies modification_avoids(whole[k], cfg) by {
            if k < prev.len() {
                assert(whole[k] == prev[k]);
            } else {
                assert(whole[k] == whole[k]);
            }
        }
    }
}

proof fn lemma_field_paths_avoid(
    entity: Seq<char>,
    fs: Seq<FieldModel>,
    cfg: CompareConfigModel,
)
    ensures
        forall|k: int| 0 <= k < field_paths(entity, fs, cfg).len() ==> path_avoids(
            #[trigger] field_paths(entity, fs, cfg)[k],
            cfg,
        ),
    decreases fs.len(),
{
    if fs.len() > 0 {
        lemma_field_paths_avoid(entity, fs.drop_last(), cfg);
        let whole = field_paths(entity, fs, cfg);
        let prev = field_paths(entity, fs.drop_last(), cfg);
        assert forall|k: int| 0 <= k < whole.len() implies path_avoids(whole[k], cfg) by {
            if k < prev.len() {
                assert(whole[k] == prev[k]);
            } else {
                assert(whole[k] == whole[k]);
            }
        }
    }
}

proof fn lemma_field_paths_only_avoid(
    entity: Seq<char>,
    bfs: Seq<FieldModel>,
    afs: Seq<FieldModel>,
    cfg: CompareConfigModel,
)
    ensures
        forall|k: int| 0 <= k < field_paths_only_in(entity, bfs, afs, cfg).len() ==> path_avoids(
            #[trigger] field_paths_only_in(entity, bfs, afs, cfg)[k],
            cfg,
        ),
    decreases bfs.len(),
{
    if bfs.len() > 0 {
        lemma_field_paths_only_avoid(entity, bfs.drop_last(), afs, cfg);
        let whole = field_paths_only_in(entity, bfs, afs, cfg);
        let prev = field_paths_only_in(entity, bfs.drop_last(), afs, cfg);
        assert forall|k: int| 0 <= k < whole.len() implies path_avoids(whole[k], cfg) by {
            if k < prev.len() {
                assert(whole[k] == prev[k]);
            } else {
                assert(whole[k] == whole[k]);
            }
        }
    }
}

proof fn lemma_pairs_removed_avoid(pairs: Seq<(EntityModel, EntityModel)>, cfg: CompareConfigModel)
    ensures
        forall|k: int| 0 <= k < pairs_removed(pairs, cfg).len() ==> change_avoids(
            #[trigger] pairs_removed(pairs, cfg)[k],
            cfg,
        ),
    decreases pairs.len(),
{
    if pairs.len() > 0 {
        lemma_pairs_removed_avoid(pairs.drop_last(), cfg);
        lemma_removed_fc_avoids(
            pairs.last().0.name,
            pairs.last().0.fields,
            pairs.last().1.fields,
            cfg,
        );
        let whole = pairs_removed(pairs, cfg);
        let prev = pairs_removed(pairs.drop_last(), cfg);
        assert forall|k: int| 0 <= k < whole.len() implies change_avoids(whole[k], cfg) by {
            if k < prev.len() {
                assert(whole[k] == prev[k]);
            } else {
                assert(whole[k] == whole[k]);
            }
        }
    }
}

proof fn lemma_pairs_added_avoid(pairs: Seq<(EntityModel, EntityModel)>, cfg: CompareConfigModel)
    ensures
        forall|k: int| 0 <= k < pairs_added(pairs, cfg).len() ==> change_avoids(
            #[trigger] pairs_added(pairs, cfg)[k],
            cfg,
        ),
    decreases pairs.len(),
{
    if pairs.len() > 0 {
        lemma_pairs_added_avoid(pairs.drop_last(), cfg);
        lemma_added_fc_avoids(
            pairs.last().1.name,
            pairs.last().0.fields,
            pairs.last().1.fields,
            cfg,
        );
        let whole = pairs_added(pairs, cfg);
        let prev = pairs_added(pairs.drop_last(), cfg);
        assert forall|k: int| 0 <= k < whole.len() implies change_avoids(whole[k], cfg) by {
            if k < prev.len() {
                assert(whole[k] == prev[k]);
            } else {
                assert(whole[k] == whole[k]);
            }
        }
    }
}

proof fn lemma_pairs_modified_avoid(pairs: Seq<(EntityModel, EntityModel)>, cfg: CompareConfigModel)
    ensures
        forall|k: int| 0 <= k < pairs_modified(pairs, cfg).len() ==> modification_avoids(
            #[trigger] pairs_modified(pairs, cfg)[k],
            cfg,
        ),
    decreases pairs.len(),
{
    if pairs.len() > 0 {
        lemma_pairs_modified_avoid(pairs.drop_last(), cfg);
        lemma_modified_fc_avoids(
            pairs.last().0.name,
            pairs.last().0.fields,
            pairs.last().1.fields,
            cfg,
        );
        let whole = pairs_modified(pairs, cfg);
        let prev = pairs_modified(pairs.drop_last(), cfg);
        assert forall|k: int| 0 <= k < whole.len() implies modification_avoids(whole[k], cfg) by {
            if k < prev.len() {
                assert(whole[k] == prev[k]);
            } else {
                assert(whole[k] == whole[k]);
            }
        }
    }
}

proof fn lemma_pairs_compared_avoid(pairs: Seq<(EntityModel, EntityModel)>, cfg: CompareConfigModel)
    ensures
        forall|k: int| 0 <= k < pairs_compared(pairs, cfg).len() ==> path_avoids(
            #[trigger] pairs_compared(pairs, cfg)[k],
            cfg,
        ),
    decreases pairs.len(),
{
    if pairs.len() > 0 {
        lemma_pairs_compared_avoid(pairs.drop_last(), cfg);
        lemma_field_paths_avoid(pairs.last().0.name, pairs.last().0.fields, cfg);
        lemma_field_paths_only_avoid(
            pairs.last().0.name,
            pairs.last().1.fields,
            pairs.last().0.fields,
            cfg,
        );
        let whole = pairs_compared(pairs, cfg);
        let prev = pairs_compared(pairs.drop_last(), cfg);
        assert forall|k: int| 0 <= k < whole.len() implies path_avoids(whole[k], cfg) by {
            if k < prev.len() {
                assert(whole[k] == prev[k]);
            } else {
                assert(whole[k] == whole[k]);
            }
        }
    }
}

proof fn lemma_rest_compared_avoid(es: Seq<EntityModel>, cfg: CompareConfigModel)
    ensures
        forall|k: int| 0 <= k < rest_compared(es, cfg).len() ==> path_avoids(
            #[trigger] rest_compared(es, cfg)[k],
            cfg,
        ),
    decreases es.len(),
{
    if es.len() > 0 {
        lemma_rest_compared_avoid(es.drop_last(), cfg);
        lemma_field_paths_avoid(es.last().name, es.last().fields, cfg);
        let whole = rest_compared(es, cfg);
        let prev = rest_compared(es.drop_last(), cfg);
        assert forall|k: int| 0 <= k < whole.len() implies path_avoids(whole[k], cfg) by {
            if k < prev.len() {
                assert(whole[k] == prev[k]);
            } else {
                assert(whole[k] == whole[k]);
            }
        }
    }
}

proof fn lemma_entity_changes_avoid(es: Seq<EntityModel>, cfg: CompareConfigModel)
    ensures
        forall|k: int| 0 <= k < entity_changes(es).len() ==> change_avoids(
            #[trigger] entity_changes(es)[k],
            cfg,
        ),
    decreases es.len(),
{
    if es.len() > 0 {
        lemma_entity_changes_avoid(es.drop_last(), cfg);
        let whole = entity_changes(es);
        let prev = entity_changes(es.drop_last());
        assert forall|k: int| 0 <= k < whole.len() implies change_avoids(whole[k], cfg) by {
            if k < prev.len() {
                assert(whole[k] == prev[k]);
            } else {
                assert(whole[k] == whole[k]);
            }
        }
    }
}

/// An ignored field contributes nothing, in any strategy: no change, no
/// modification and no compared path of a diff concerns a field name listed
/// in `ignore_fields`.
pub proof fn lemma_ignored_fields_excluded(
    a: SchemaModel,
    b: SchemaModel,
    cfg: CompareConfigModel,
)
    ensures
        forall|k: int| 0 <= k < compare_model(a, b, cfg).added.len() ==> change_avoids(
            #[trigger] compare_model(a, b, cfg).added[k],
            cfg,
        ),
        forall|k: int| 0 <= k < compare_model(a, b, cfg).removed.len() ==> change_avoids(
            #[trigger] compare_model(a, b, cfg).removed[k],
            cfg,
        ),
        forall|k: int| 0 <= k < compare_model(a, b, cfg).modified.len() ==> modification_avoids(
            #[trigger] compare_model(a, b, cfg).modified[k],
            cfg,
        ),
        forall|k: int| 0 <= k < compare_model(a, b, cfg).compared.len() ==> path_avoids(
            #[trigger] compare_model(a, b, cfg).compared[k],
            cfg,
        ),
{
    let ms = match_split(a, b, cfg);
    lemma_entity_changes_avoid(ms.rest_a, cfg);
    lemma_entity_changes_avoid(ms.rest_b, cfg);
    lemma_pairs_removed_avoid(ms.pairs, cfg);
    lemma_pairs_added_avoid(ms.pairs, cfg);
    lemma_pairs_modified_avoid(ms.pairs, cfg);
    lemma_pairs_compared_avoid(ms.pairs, cfg);
    lemma_rest_compared_avoid(ms.rest_a, cfg);
    lemma_rest_compared_avoid(ms.rest_b, cfg);
}

proof fn lemma_name_rest_all_matched(aes: Seq<EntityModel>, bes: Seq<EntityModel>)
    requires
        forall|k: int| 0 <= k < aes.len() ==> has_entity(bes, (#[trigger] aes[k]).name),
    ensures
        name_rest(aes, bes) == Seq::<EntityModel>::empty(),
    decreases aes.len(),
{
    if aes.len() > 0 {
        assert(forall|k: int| 0 <= k < aes.drop_last().len() ==> has_entity(
            bes,
            (#[trigger] aes.drop_last()[k]).name,
        ));
        lemma_name_rest_all_matched(aes.drop_last(), bes);
        assert(has_entity(bes, aes[aes.len() - 1].name));
        assert(name_rest(aes, bes) =~= Seq::<EntityModel>::empty());
    }
}

proof fn lemma_name_pairs_self(aes: Seq<EntityModel>, bes: Seq<EntityModel>)
    requires
        entities_unique(bes),
        forall|k: int| 0 <= k < aes.len() ==> exists|l: int|
            0 <= l < bes.len() && #[trigger] aes[k] == bes[l],
    ensures
        forall|k: int| 0 <= k < name_pairs(aes, bes).len() ==> (#[trigger] name_pairs(
            aes,
            bes,
        )[k]).1 == name_pairs(aes, bes)[k].0,
    decreases aes.len(),
{
    if aes.len() > 0 {
        assert(forall|k: int| 0 <= k < aes.drop_last().len() ==> exists|l: int|
            0 <= l < bes.len() && #[trigger] aes.drop_last()[k] == bes[l]);
        lemma_name_pairs_self(aes.drop_last(), bes);
        let e = aes[aes.len() - 1];
        let l = choose|l: int| 0 <= l < bes.len() && e == bes[l];
        assert(has_entity(bes, e.name));
        lemma_entity_named_is_at(bes, l);
        assert(entity_named(bes, e.name) == e);
        let whole = name_pairs(aes, bes);
        let prev = name_pairs(aes.drop_last(), bes);
        assert forall|k: int| 0 <= k < whole.len() implies (#[trigger] whole[k]).1 == whole[k].0 by {
            if k < prev.len() {
                assert(whole[k] == prev[k]);
            } else {
                assert(whole[k] == (e, entity_named(bes, e.name)));
            }
        }
    }
}

proof fn lemma_self_pair_empty(n: Seq<char>, fs: Seq<FieldModel>, cfg: CompareConfigModel)
    requires
        fields_unique(fs),
    ensures
        removed_field_changes(n, fs, fs, cfg) == Seq::<ChangeModel>::empty(),
        added_field_changes(n, fs, fs, cfg) == Seq::<ChangeModel>::empty(),
        modified_field_changes(n, fs, fs, cfg) == Seq::<ModificationModel>::empty(),
{
    lemma_self_removed(n, fs, fs, cfg);
    lemma_self_added(n, fs, fs, cfg);
    lemma_self_modified(n, fs, fs, cfg);
}

proof fn lemma_self_removed(
    n: Seq<char>,
    afs: Seq<FieldModel>,
    fs: Seq<FieldModel>,
    cfg: CompareConfigModel,
)
    requires
        forall|k: int| 0 <= k < afs.len() ==> exists|l: int|
            0 <= l < fs.len() && #[trigger] afs[k] == fs[l],
    ensures
        removed_field_changes(n, afs, fs, cfg) == Seq::<ChangeModel>::empty(),
    decreases afs.len(),
{
    if afs.len() > 0 {
        assert(forall|k: int| 0 <= k < afs.drop_last().len() ==> exists|l: int|
            0 <= l < fs.len() && #[trigger] afs.drop_last()[k] == fs[l]);
        lemma_self_removed(n, afs.drop_last(), fs, cfg);
        let f = afs[afs.len() - 1];
        let l = choose|l: int| 0 <= l < fs.len() && f == fs[l];
        assert(has_field(fs, f.name));
        assert(removed_field_changes(n, afs, fs, cfg) =~= Seq::<ChangeModel>::empty());
    }
}

proof fn lemma_self_added(
    n: Seq<char>,
    fs: Seq<FieldModel>,
    bfs: Seq<FieldModel>,
    cfg: CompareConfigModel,
)
    requires
        forall|k: int| 0 <= k < bfs.len() ==> exists|l: int|
            0 <= l < fs.len() && #[trigger] bfs[k] == fs[l],
    ensures
        added_field_changes(n, fs, bfs, cfg) == Seq::<ChangeModel>::empty(),
    decreases bfs.len(),
{
    if bfs.len() > 0 {
        assert(forall|k: int| 0 <= k < bfs.drop_last().len() ==> exists|l: int|
            0 <= l < fs.len() && #[trigger] bfs.drop_last()[k] == fs[l]);
        lemma_self_added(n, fs, bfs.drop_last(), cfg);
        let f = bfs[bfs.len() - 1];
        let l = choose|l: int| 0 <= l < fs.len() && f == fs[l];
        assert(has_field(fs, f.name));
        assert(added_field_changes(n, fs, bfs, cfg) =~= Seq::<ChangeModel>::empty());
    }
}

proof fn lemma_self_modified(
    n: Seq<char>,
    afs: Seq<FieldModel>,
    fs: Seq<FieldModel>,
    cfg: CompareConfigModel,
)
    requires
        fields_unique(fs),
        forall|k: int| 0 <= k < afs.len() ==> exists|l: int|
            0 <= l < fs.len() && #[trigger] afs[k] == fs[l],
    ensures
        modified_field_changes(n, afs, fs, cfg) == Seq::<ModificationModel>::empty(),
    decreases afs.len(),
{
    if afs.len() > 0 {
        assert(forall|k: int| 0 <= k < afs.drop_last().len() ==> exists|l: int|
            0 <= l < fs.len() && #[trigger] afs.drop_last()[k] == fs[l]);
        lemma_self_modified(n, afs.drop_last(), fs, cfg);
        let f = afs[afs.len() - 1];
        let l = choose|l: int| 0 <= l < fs.len() && f == fs[l];
        if has_field(fs, f.name) {
            lemma_field_named_is_at(fs, l);
            assert(field_named(fs, f.name) == f);
            assert(attr_changes(f, f).len() == 0);
        }
        assert(modified_field_changes(n, afs, fs, cfg) =~= Seq::<ModificationModel>::empty());
    }
}

proof fn lemma_self_pairs_empty(pairs: Seq<(EntityModel, EntityModel)>, cfg: CompareConfigModel)
    requires
        forall|k: int| 0 <= k < pairs.len() ==> (#[trigger] pairs[k]).1 == pairs[k].0,
        forall|k: int| 0 <= k < pairs.len() ==> entity_wf((#[trigger] pairs[k]).0),
    ensures
        pairs_removed(pairs, cfg) == Seq::<ChangeModel>::empty(),
        pairs_added(pairs, cfg) == Seq::<ChangeModel>::empty(),
        pairs_modified(pairs, cfg) == Seq::<ModificationModel>::empty(),
    decreases pairs.len(),
{
    if pairs.len() > 0 {
        lemma_self_pairs_empty(pairs.drop_last(), cfg);
        let pr = pairs[pairs.len() - 1];
        assert(pr.1 == pr.0);
        lemma_self_pair_empty(pr.0.name, pr.0.fields, cfg);
        lemma_self_pair_empty(pr.1.name, pr.0.fields, cfg);
        assert(pairs_removed(pairs, cfg) =~= Seq::<ChangeModel>::empty());
        assert(pairs_added(pairs, cfg) =~= Seq::<ChangeModel>::empty());
        assert(pairs_modified(pairs, cfg) =~= Seq::<ModificationModel>::empty());
    }
}

/// Comparing a schema with itself under name or hybrid matching yields no
/// added, removed or modified change, and the similarity score is exactly
/// one.
pub proof fn lemma_compare_self_identity(s: SchemaModel, cfg: CompareConfigModel)
    requires
        schema_wf(s),
        cfg.strategy == CompareStrategy::ByName || cfg.strategy == CompareStrategy::Hybrid,
    ensures
        compare_model(s, s, cfg).added == Seq::<ChangeModel>::empty(),
        compare_model(s, s, cfg).removed == Seq::<ChangeModel>::empty(),
        compare_model(s, s, cfg).modified == Seq::<ModificationModel>::empty(),
        similarity_pm_of(0, compare_model(s, s, cfg).compared.len() as int) == 1000,
{
    let es = s.entities;
    assert(forall|k: int| 0 <= k < es.len() ==> has_entity(es, (#[trigger] es[k]).name));
    lemma_name_rest_all_matched(es, es);
    assert(forall|k: int| 0 <= k < es.len() ==> exists|l: int|
        0 <= l < es.len() && #[trigger] es[k] == es[l]) by {
        assert(forall|k: int| 0 <= k < es.len() ==> #[trigger] es[k] == es[k]);
    }
    lemma_name_pairs_self(es, es);
    let pairs = name_pairs(es, es);
    assert(forall|k: int| 0 <= k < pairs.len() ==> entity_wf((#[trigger] pairs[k]).0)) by {
        lemma_name_split_wf(es, es);
    }
    lemma_self_pairs_empty(pairs, cfg);
    let ms = match_split(s, s, cfg);
    if cfg.strategy == CompareStrategy::Hybrid {
        assert(name_rest(es, es) == Seq::<EntityModel>::empty());
        assert(best_pair(Seq::<EntityModel>::empty(), Seq::<EntityModel>::empty(), cfg) is None);
        assert(greedy_match(Seq::<EntityModel>::empty(), Seq::<EntityModel>::empty(), cfg).pairs
            =~= Seq::<(EntityModel, EntityModel)>::empty());
        assert(ms.pairs =~= pairs);
        assert(ms.rest_a =~= Seq::<EntityModel>::empty());
        assert(ms.rest_b =~= Seq::<EntityModel>::empty());
        lemma_self_pairs_empty(ms.pairs, cfg);
    }
    assert(entity_changes(ms.rest_a) =~= Seq::<ChangeModel>::empty());
    assert(entity_changes(ms.rest_b) =~= Seq::<ChangeModel>::empty());
    assert(compare_model(s, s, cfg).added =~= Seq::<ChangeModel>::empty());
    assert(compare_model(s, s, cfg).removed =~= Seq::<ChangeModel>::empty());
    assert(compare_model(s, s, cfg).modified =~= Seq::<ModificationModel>::empty());
    lemma_similarity_identity(0, compare_model(s, s, cfg).compared.len() as int);
}

/// Per matched pair, symmetry holds definitionally: the added fields of one
/// direction are exactly the removed fields of the swapped direction.
pub proof fn lemma_field_changes_flip(
    entity: Seq<char>,
    afs: Seq<FieldModel>,
    bfs: Seq<FieldModel>,
    cfg: CompareConfigModel,
)
    ensures
        added_field_changes(entity, afs, bfs, cfg) == removed_field_changes(entity, bfs, afs, cfg),
    decreases bfs.len(),
{
    if bfs.len() > 0 {
        lemma_field_changes_flip(entity, afs, bfs.drop_last(), cfg);
        assert(added_field_changes(entity, afs, bfs, cfg) =~= removed_field_changes(
            entity,
            bfs,
            afs,
            cfg,
        ));
    }
}

/// Dropping the last entity does not disturb lookups of other names.
proof fn lemma_named_drop_last(es: Seq<EntityModel>, n: Seq<char>)
    requires
        entities_unique(es),
        es.len() > 0,
        n != es.last().name,
    ensures
        has_entity(es.drop_last(), n) == has_entity(es, n),
        has_entity(es, n) ==> entity_named(es.drop_last(), n) == entity_named(es, n),
{
    if has_entity(es, n) {
        let j = choose|j: int| 0 <= j < es.len() && es[j].name == n;
        assert(j < es.len() - 1);
        assert(es.drop_last()[j] == es[j]);
        assert(has_entity(es.drop_last(), n));
        lemma_entity_named_is_at(es, j);
        assert(entities_unique(es.drop_last()));
        lemma_entity_named_is_at(es.drop_last(), j);
    }
    if has_entity(es.drop_last(), n) {
        let j = choose|j: int| 0 <= j < es.drop_last().len() && es.drop_last()[j].name == n;
        assert(es[j].name == n);
    }
}

/// The field-level changes one matched name contributes, oriented as the
/// removed changes of comparing the second side to the first.
spec fn matched_changes(
    n: Seq<char>,
    b_fields: Seq<FieldModel>,
    a_fields: Seq<FieldModel>,
    cfg: CompareConfigModel,
) -> Multiset<ChangeModel> {
    removed_field_changes(n, b_fields, a_fields, cfg).to_multiset()
}

/// Matched contributions enumerated in first-side order.
spec fn row_a(
    iter: Seq<EntityModel>,
    bes: Seq<EntityModel>,
    cfg: CompareConfigModel,
) -> Multiset<ChangeModel>
    decreases iter.len(),
{
    if iter.len() == 0 {
        Multiset::empty()
    } else {
        row_a(iter.drop_last(), bes, cfg).add(
            if has_entity(bes, iter.last().name) {
                matched_changes(
                    iter.last().name,
                    entity_named(bes, iter.last().name).fields,
                    iter.last().fields,
                    cfg,
                )
            } else {
                Multiset::empty()
            },
        )
    }
}

/// Matched contributions enumerated in second-side order.
spec fn row_b(
    iter: Seq<EntityModel>,
    aes: Seq<EntityModel>,
    cfg: CompareConfigModel,
) -> Multiset<ChangeModel>
    decreases iter.len(),
{
    if iter.len() == 0 {
        Multiset::empty()
    } else {
        row_b(iter.drop_last(), aes, cfg).add(
            if has_entity(aes, iter.last().name) {
                matched_changes(
                    iter.last().name,
                    iter.last().fields,
                    entity_named(aes, iter.last().name).fields,
                    cfg,
                )
            } else {
                Multiset::empty()
            },
        )
    }
}

proof fn lemma_pairs_added_row(aes: Seq<EntityModel>, bes: Seq<EntityModel>, cfg: CompareConfigModel)
    requires
        entities_unique(bes),
    ensures
        pairs_added(name_pairs(aes, bes), cfg).to_multiset() =~= row_a(aes, bes, cfg),
    decreases aes.len(),
{
    broadcast use vstd::multiset::group_multiset_axioms;
    broadcast use vstd::seq_lib::group_to_multiset_ensures;

    vstd::seq_lib::lemma_multiset_commutative(
        pairs_added(name_pairs(aes, bes), cfg),
        Seq::<ChangeModel>::empty(),
    );
    if aes.len() > 0 {
        lemma_pairs_added_row(aes.drop_last(), bes, cfg);
        let n = aes.last().name;
        if has_entity(bes, n) {
            let j = choose|j: int| 0 <= j < bes.len() && bes[j].name == n;
            lemma_entity_named_is_at(bes, j);
            let bmatch = entity_named(bes, n);
            assert(bmatch.name == n);
            assert(name_pairs(aes, bes) =~= name_pairs(aes.drop_last(), bes) + seq![
                (aes.last(), bmatch),
            ]);
            let ps = name_pairs(aes, bes);
            assert(ps.drop_last() =~= name_pairs(aes.drop_last(), bes));
            assert(ps.last() == (aes.last(), bmatch));
            lemma_field_changes_flip(n, aes.last().fields, bmatch.fields, cfg);
            assert(pairs_added(ps, cfg) == pairs_added(ps.drop_last(), cfg) + removed_field_changes(
                n,
                bmatch.fields,
                aes.last().fields,
                cfg,
            ));
            vstd::seq_lib::lemma_multiset_commutative(
                pairs_added(ps.drop_last(), cfg),
                removed_field_changes(n, bmatch.fields, aes.last().fields, cfg),
            );
        } else {
            assert(name_pairs(aes, bes) =~= name_pairs(aes.drop_last(), bes));
            assert(row_a(aes, bes, cfg) =~= row_a(aes.drop_last(), bes, cfg));
        }
    }
}

proof fn lemma_pairs_removed_row(bes: Seq<EntityModel>, aes: Seq<EntityModel>, cfg: CompareConfigModel)
    requires
        entities_unique(aes),
    ensures
        pairs_removed(name_pairs(bes, aes), cfg).to_multiset() =~= row_b(bes, aes, cfg),
    decreases bes.len(),
{
    broadcast use vstd::multiset::group_multiset_axioms;
    broadcast use vstd::seq_lib::group_to_multiset_ensures;

    vstd::seq_lib::lemma_multiset_commutative(
        pairs_removed(name_pairs(bes, aes), cfg),
        Seq::<ChangeModel>::empty(),
    );
    if bes.len() > 0 {
        lemma_pairs_removed_row(bes.drop_last(), aes, cfg);
        let n = bes.last().name;
        if has_entity(aes, n) {
            let j = choose|j: int| 0 <= j < aes.len() && aes[j].name == n;
            lemma_entity_named_is_at(aes, j);
            let amatch = entity_named(aes, n);
            let ps = name_pairs(bes, aes);
            assert(ps.drop_last() =~= name_pairs(bes.drop_last(), aes));
            assert(ps.last() == (bes.last(), amatch));
            assert(pairs_removed(ps, cfg) == pairs_removed(ps.drop_last(), cfg)
                + removed_field_changes(n, bes.last().fields, amatch.fields, cfg));
            vstd::seq_lib::lemma_multiset_commutative(
                pairs_removed(ps.drop_last(), cfg),
                removed_field_changes(n, bes.last().fields, amatch.fields, cfg),
            );
        } else {
            assert(name_pairs(bes, aes) =~= name_pairs(bes.drop_last(), aes));
            assert(row_b(bes, aes, cfg) =~= row_b(bes.drop_last(), aes, cfg));
        }
    }
}

proof fn lemma_row_b_drop_a(
    bes: Seq<EntityModel>,
    aes: Seq<EntityModel>,
    cfg: CompareConfigModel,
)
    requires
        entities_unique(aes),
        entities_unique(bes),
        aes.len() > 0,
    ensures
        row_b(bes, aes, cfg) =~= row_b(bes, aes.drop_last(), cfg).add(
            if has_entity(bes, aes.last().name) {
                matched_changes(
                    aes.last().name,
                    entity_named(bes, aes.last().name).fields,
                    aes.last().fields,
                    cfg,
                )
            } else {
                Multiset::empty()
            },
        ),
    decreases bes.len(),
{
    broadcast use vstd::multiset::group_multiset_axioms;

    let nstar = aes.last().name;
    if bes.len() == 0 {
        assert(!has_entity(bes, nstar));
    } else {
        assert(entities_unique(bes.drop_last()));
        lemma_row_b_drop_a(bes.drop_last(), aes, cfg);
        let be = bes.last();
        if be.name == nstar {
            // The unique second-side match of the dropped entity.
            assert(!has_entity(bes.drop_last(), nstar)) by {
                if has_entity(bes.drop_last(), nstar) {
                    let j = choose|j: int| 0 <= j < bes.drop_last().len() && bes.drop_last()[j].name
                        == nstar;
                    assert(bes[j].name == bes[bes.len() - 1].name);
                }
            }
            lemma_entity_named_is_at(bes, bes.len() - 1);
            assert(entity_named(bes, nstar) == be);
            lemma_entity_named_is_at(aes, aes.len() - 1);
            assert(entity_named(aes, nstar) == aes.last());
            assert(!has_entity(aes.drop_last(), nstar)) by {
                if has_entity(aes.drop_last(), nstar) {
                    let j = choose|j: int| 0 <= j < aes.drop_last().len() && aes.drop_last()[j].name
                        == nstar;
                    assert(aes[j].name == aes[aes.len() - 1].name);
                }
            }
            assert(has_entity(aes, be.name));
        } else {
            lemma_named_drop_last(aes, be.name);
            assert(has_entity(bes, nstar) == has_entity(bes.drop_last(), nstar)) by {
                if has_entity(bes, nstar) {
                    let j = choose|j: int| 0 <= j < bes.len() && bes[j].name == nstar;
                    assert(j < bes.len() - 1);
                    assert(bes.drop_last()[j] == bes[j]);
                }
                if has_entity(bes.drop_last(), nstar) {
                    let j = choose|j: int| 0 <= j < bes.drop_last().len() && bes.drop_last()[j].name
                        == nstar;
                    assert(bes[j].name == nstar);
                }
            }
            if has_entity(bes, nstar) {
                lemma_named_drop_last(bes, nstar);
            }
        }
    }
}

proof fn lemma_rows_agree(aes: Seq<EntityModel>, bes: Seq<EntityModel>, cfg: CompareConfigModel)
    requires
        entities_unique(aes),
        entities_unique(bes),
    ensures
        row_a(aes, bes, cfg) =~= row_b(bes, aes, cfg),
    decreases aes.len(),
{
    broadcast use vstd::multiset::group_multiset_axioms;

    if aes.len() == 0 {
        assert forall|k: int| 0 <= k < bes.len() implies !has_entity(
            aes,
            (#[trigger] bes[k]).name,
        ) by {}
        lemma_row_b_empty(bes, aes, cfg);
    } else {
        assert(entities_unique(aes.drop_last()));
        lemma_rows_agree(aes.drop_last(), bes, cfg);
        lemma_row_b_drop_a(bes, aes, cfg);
        if has_entity(bes, aes.last().name) {
            let j = choose|j: int| 0 <= j < bes.len() && bes[j].name == aes.last().name;
            lemma_entity_named_is_at(bes, j);
        }
    }
}

proof fn lemma_row_b_empty(bes: Seq<EntityModel>, aes: Seq<EntityModel>, cfg: CompareConfigModel)
    requires
        forall|k: int| 0 <= k < bes.len() ==> !has_entity(aes, (#[trigger] bes[k]).name),
    ensures
        row_b(bes, aes, cfg) =~= Multiset::empty(),
    decreases bes.len(),
{
    broadcast use vstd::multiset::group_multiset_axioms;

    if bes.len() > 0 {
        assert(forall|k: int| 0 <= k < bes.drop_last().len() ==> !has_entity(
            aes,
            (#[trigger] bes.drop_last()[k]).name,
        ));
        lemma_row_b_empty(bes.drop_last(), aes, cfg);
        assert(!has_entity(aes, bes.last().name));
    }
}

/// The presence facts every added change carries: an added entity is in the
/// second schema and not the first; an added field sits in a matched entity
/// and is in the second side's definition only.
pub open spec fn added_change_ok(a: SchemaModel, b: SchemaModel, c: ChangeModel) -> bool {
    match c {
        ChangeModel::Entity { value } => !has_entity(a.entities, value.name) && has_entity(
            b.entities,
            value.name,
        ),
        ChangeModel::Field { entity, value } => has_entity(a.entities, entity) && has_entity(
            b.entities,
            entity,
        ) && !has_field(entity_named(a.entities, entity).fields, value.name) && has_field(
            entity_named(b.entities, entity).fields,
            value.name,
        ),
    }
}

/// The presence facts every modification carries under name matching: a
/// field of a matched entity, present on both sides.
pub open spec fn modification_ok(a: SchemaModel, b: SchemaModel, m: ModificationModel) -> bool {
    m matches ModificationModel::FieldChanged { entity, old_field, .. } && has_entity(
        a.entities,
        entity,
    ) && has_entity(b.entities, entity) && has_field(
        entity_named(a.entities, entity).fields,
        old_field.name,
    ) && has_field(entity_named(b.entities, entity).fields, old_field.name)
}

proof fn lemma_added_fc_facts(
    entity: Seq<char>,
    afs: Seq<FieldModel>,
    bfs: Seq<FieldModel>,
    cfg: CompareConfigModel,
)
    ensures
        forall|k: int| 0 <= k < added_field_changes(entity, afs, bfs, cfg).len()
            ==> (#[trigger] added_field_changes(entity, afs, bfs, cfg)[k] matches
            ChangeModel::Field { entity: e, value } && e == entity && !has_field(afs, value.name)
            && has_field(bfs, value.name)),
    decreases bfs.len(),
{
    if bfs.len() > 0 {
        lemma_added_fc_facts(entity, afs, bfs.drop_last(), cfg);
        let whole = added_field_changes(entity, afs, bfs, cfg);
        let prev = added_field_changes(entity, afs, bfs.drop_last(), cfg);
        assert forall|k: int| 0 <= k < whole.len() implies (#[trigger] whole[k] matches
            ChangeModel::Field { entity: e, value } && e == entity && !has_field(afs, value.name)
            && has_field(bfs, value.name)) by {
            if k < prev.len() {
                assert(whole[k] == prev[k]);
                match prev[k] {
                    ChangeModel::Field { entity: e, value } => {
                        assert(has_field(bfs.drop_last(), value.name));
                        let j = choose|j: int| 0 <= j < bfs.drop_last().len() && bfs.drop_last()[
                            j
                        ].name == value.name;
                        assert(bfs[j].name == value.name);
                    },
                    _ => {},
                }
            } else {
                assert(whole[k] == ChangeModel::Field { entity, value: bfs.last() });
            }
        }
    }
}

proof fn lemma_removed_fc_facts(
    entity: Seq<char>,
    afs: Seq<FieldModel>,
    bfs: Seq<FieldModel>,
    cfg: CompareConfigModel,
)
    ensures
        forall|k: int| 0 <= k < removed_field_changes(entity, afs, bfs, cfg).len()
            ==> (#[trigger] removed_field_changes(entity, afs, bfs, cfg)[k] matches
            ChangeModel::Field { entity: e, value } && e == entity && has_field(afs, value.name)
            && !has_field(bfs, value.name)),
    decreases afs.len(),
{
    if afs.len() > 0 {
        lemma_removed_fc_facts(entity, afs.drop_last(), bfs, cfg);
        let whole = removed_field_changes(entity, afs, bfs, cfg);
        let prev = removed_field_changes(entity, afs.drop_last(), bfs, cfg);
        assert forall|k: int| 0 <= k < whole.len() implies (#[trigger] whole[k] matches
            ChangeModel::Field { entity: e, value } && e == entity && has_field(afs, value.name)
            && !has_field(bfs, value.name)) by {
            if k < prev.len() {
                assert(whole[k] == prev[k]);
                match prev[k] {
                    ChangeModel::Field { entity: e, value } => {
                        assert(has_field(afs.drop_last(), value.name));
                        let j = choose|j: int| 0 <= j < afs.drop_last().len() && afs.drop_last()[
                            j
                        ].name == value.name;
                        assert(afs[j].name == value.name);
                    },
                    _ => {},
                }
            } else {
                assert(whole[k] == ChangeModel::Field { entity, value: afs.last() });
            }
        }
    }
}

proof fn lemma_modified_fc_facts(
    entity: Seq<char>,
    afs: Seq<FieldModel>,
    bfs: Seq<FieldModel>,
    cfg: CompareConfigModel,
)
    ensures
        forall|k: int| 0 <= k < modified_field_changes(entity, afs, bfs, cfg).len()
            ==> (#[trigger] modified_field_changes(entity, afs, bfs, cfg)[k] matches
            ModificationModel::FieldChanged { entity: e, old_field, .. } && e == entity
            && has_field(afs, old_field.name) && has_field(bfs, old_field.name)),
    decreases afs.len(),
{
    if afs.len() > 0 {
        lemma_modified_fc_facts(entity, afs.drop_last(), bfs, cfg);
        let whole = modified_field_changes(entity, afs, bfs, cfg);
        let prev = modified_field_changes(entity, afs.drop_last(), bfs, cfg);
        assert forall|k: int| 0 <= k < whole.len() implies (#[trigger] whole[k] matches
            ModificationModel::FieldChanged { entity: e, old_field, .. } && e == entity
            && has_field(afs, old_field.name) && has_field(bfs, old_field.name)) by {
            if k < prev.len() {
                assert(whole[k] == prev[k]);
                match prev[k] {
                    ModificationModel::FieldChanged { entity: e, old_field, .. } => {
                        assert(has_field(afs.drop_last(), old_field.name));
                        let j = choose|j: int| 0 <= j < afs.drop_last().len() && afs.drop_last()[
                            j
                        ].name == old_field.name;
                        assert(afs[j].name == old_field.name);
                    },
                    _ => {},
                }
            } else {
                assert(whole[k] matches ModificationModel::FieldChanged { entity: e, .. }
                    && e == entity);
            }
        }
    }
}

proof fn lemma_added_prefix_ok(a: SchemaModel, b: SchemaModel, cfg: CompareConfigModel, n: int)
    requires
        schema_wf(a),
        schema_wf(b),
        0 <= n <= a.entities.len(),
    ensures
        forall|k: int| 0 <= k < pairs_added(name_pairs(a.entities.take(n), b.entities), cfg).len()
            ==> added_change_ok(
            a,
            b,
            #[trigger] pairs_added(name_pairs(a.entities.take(n), b.entities), cfg)[k],
        ),
    decreases n,
{
    if n > 0 {
        lemma_added_prefix_ok(a, b, cfg, n - 1);
        let aes = a.entities;
        let bes = b.entities;
        assert(aes.take(n).drop_last() =~= aes.take(n - 1));
        assert(aes.take(n).last() == aes[n - 1]);
        let e = aes[n - 1];
        let whole = pairs_added(name_pairs(aes.take(n), bes), cfg);
        let prev = pairs_added(name_pairs(aes.take(n - 1), bes), cfg);
        if has_entity(bes, e.name) {
            let j = choose|j: int| 0 <= j < bes.len() && bes[j].name == e.name;
            lemma_entity_named_is_at(bes, j);
            lemma_entity_named_is_at(aes, n - 1);
            let bn = entity_named(bes, e.name);
            lemma_added_fc_facts(bn.name, e.fields, bn.fields, cfg);
            assert(name_pairs(aes.take(n), bes) =~= name_pairs(aes.take(n - 1), bes) + seq![
                (e, bn),
            ]);
            assert(name_pairs(aes.take(n), bes).drop_last() =~= name_pairs(aes.take(n - 1), bes));
            assert(whole =~= prev + added_field_changes(bn.name, e.fields, bn.fields, cfg));
            assert forall|k: int| 0 <= k < whole.len() implies added_change_ok(
                a,
                b,
                #[trigger] whole[k],
            ) by {
                if k < prev.len() {
                    assert(whole[k] == prev[k]);
                } else {
                    assert(whole[k] == added_field_changes(bn.name, e.fields, bn.fields, cfg)[k
                        - prev.len()]);
                }
            }
        } else {
            assert(name_pairs(aes.take(n), bes) =~= name_pairs(aes.take(n - 1), bes));
            assert(whole =~= prev);
        }
    }
}

proof fn lemma_removed_prefix_ok(a: SchemaModel, b: SchemaModel, cfg: CompareConfigModel, n: int)
    requires
        schema_wf(a),
        schema_wf(b),
        0 <= n <= a.entities.len(),
    ensures
        forall|k: int| 0 <= k < pairs_removed(name_pairs(a.entities.take(n), b.entities), cfg).len()
            ==> added_change_ok(
            b,
            a,
            #[trigger] pairs_removed(name_pairs(a.entities.take(n), b.entities), cfg)[k],
        ),
    decreases n,
{
    if n > 0 {
        lemma_removed_prefix_ok(a, b, cfg, n - 1);
        let aes = a.entities;
        let bes = b.entities;
        assert(aes.take(n).drop_last() =~= aes.take(n - 1));
        assert(aes.take(n).last() == aes[n - 1]);
        let e = aes[n - 1];
        let whole = pairs_removed(name_pairs(aes.take(n), bes), cfg);
        let prev = pairs_removed(name_pairs(aes.take(n - 1), bes), cfg);
        if has_entity(bes, e.name) {
            let j = choose|j: int| 0 <= j < bes.len() && bes[j].name == e.name;
            lemma_entity_named_is_at(bes, j);
            lemma_entity_named_is_at(aes, n - 1);
            let bn = entity_named(bes, e.name);
            lemma_removed_fc_facts(e.name, e.fields, bn.fields, cfg);
            assert(name_pairs(aes.take(n), bes) =~= name_pairs(aes.take(n - 1), bes) + seq![
                (e, bn),
            ]);
            assert(name_pairs(aes.take(n), bes).drop_last() =~= name_pairs(aes.take(n - 1), bes));
            assert(whole =~= prev + removed_field_changes(e.name, e.fields, bn.fields, cfg));
            assert forall|k: int| 0 <= k < whole.len() implies added_change_ok(
                b,
                a,
                #[trigger] whole[k],
            ) by {
                if k < prev.len() {
                    assert(whole[k] == prev[k]);
                } else {
                    assert(whole[k] == removed_field_changes(e.name, e.fields, bn.fields, cfg)[k
                        - prev.len()]);
                }
            }
        } else {
            assert(name_pairs(aes.take(n), bes) =~= name_pairs(aes.take(n - 1), bes));
            assert(whole =~= prev);
        }
    }
}

proof fn lemma_modified_prefix_ok(a: SchemaModel, b: SchemaModel, cfg: CompareConfigModel, n: int)
    requires
        schema_wf(a),
        schema_wf(b),
        0 <= n <= a.entities.len(),
    ensures
        forall|k: int| 0 <= k < pairs_modified(
            name_pairs(a.entities.take(n), b.entities),
            cfg,
        ).len() ==> modification_ok(
            a,
            b,
            #[trigger] pairs_modified(name_pairs(a.entities.take(n), b.entities), cfg)[k],
        ),
    decreases n,
{
    if n > 0 {
        lemma_modified_prefix_ok(a, b, cfg, n - 1);
        let aes = a.entities;
        let bes = b.entities;
        assert(aes.take(n).drop_last() =~= aes.take(n - 1));
        assert(aes.take(n).last() == aes[n - 1]);
        let e = aes[n - 1];
        let whole = pairs_modified(name_pairs(aes.take(n), bes), cfg);
        let prev = pairs_modified(name_pairs(aes.take(n - 1), bes), cfg);
        if has_entity(bes, e.name) {
            let j = choose|j: int| 0 <= j < bes.len() && bes[j].name == e.name;
            lemma_entity_named_is_at(bes, j);
            lemma_entity_named_is_at(aes, n - 1);
            let bn = entity_named(bes, e.name);
            assert(bn.name == e.name);
            lemma_modified_fc_facts(e.name, e.fields, bn.fields, cfg);
            assert(name_pairs(aes.take(n), bes) =~= name_pairs(aes.take(n - 1), bes) + seq![
                (e, bn),
            ]);
            assert(name_pairs(aes.take(n), bes).drop_last() =~= name_pairs(aes.take(n - 1), bes));
            assert(whole =~= prev + modified_field_changes(e.name, e.fields, bn.fields, cfg));
            assert forall|k: int| 0 <= k < whole.len() implies modification_ok(
                a,
                b,
                #[trigger] whole[k],
            ) by {
                if k < prev.len() {
                    assert(whole[k] == prev[k]);
                } else {
                    assert(whole[k] == modified_field_changes(e.name, e.fields, bn.fields, cfg)[k
                        - prev.len()]);
                }
            }
        } else {
            assert(name_pairs(aes.take(n), bes) =~= name_pairs(aes.take(n - 1), bes));
            assert(whole =~= prev);
        }
    }
}

proof fn lemma_entity_changes_facts(xs: Seq<EntityModel>, ys: Seq<EntityModel>, full: Seq<EntityModel>, n: int)
    requires
        0 <= n <= full.len(),
        xs =~= full.take(n),
    ensures
        forall|k: int| 0 <= k < entity_changes(name_rest(xs, ys)).len()
            ==> (#[trigger] entity_changes(name_rest(xs, ys))[k] matches ChangeModel::Entity {
            value,
        } && has_entity(full, value.name) && !has_entity(ys, value.name)),
    decreases n,
{
    if n > 0 {
        lemma_entity_changes_facts(full.take(n - 1), ys, full, n - 1);
        assert(xs.drop_last() =~= full.take(n - 1));
        assert(xs.last() == full[n - 1]);
        let whole = entity_changes(name_rest(xs, ys));
        let prev = entity_changes(name_rest(full.take(n - 1), ys));
        assert(name_rest(xs, ys).drop_last() =~= name_rest(full.take(n - 1), ys) || name_rest(
            xs,
            ys,
        ) =~= name_rest(full.take(n - 1), ys));
        if !has_entity(ys, xs.last().name) {
            assert(name_rest(xs, ys) =~= name_rest(full.take(n - 1), ys) + seq![full[n - 1]]);
            assert(name_rest(xs, ys).drop_last() =~= name_rest(full.take(n - 1), ys));
            assert(whole =~= prev + seq![ChangeModel::Entity { value: full[n - 1] }]);
            assert forall|k: int| 0 <= k < whole.len() implies (#[trigger] whole[k] matches
                ChangeModel::Entity { value } && has_entity(full, value.name) && !has_entity(
                ys,
                value.name,
            )) by {
                if k < prev.len() {
                    assert(whole[k] == prev[k]);
                } else {
                    assert(whole[k] == ChangeModel::Entity { value: full[n - 1] });
                }
            }
        } else {
            assert(name_rest(xs, ys) =~= name_rest(full.take(n - 1), ys));
            assert(whole =~= prev);
        }
    }
}

/// Under name matching, the three change sets of a diff are pairwise
/// disjoint by target path: no entity or field is reported both added and
/// removed, added and modified, or removed and modified. (Under semantic
/// cross-rename matching this can fail: the same path may label a field of
/// one matched pair on one side and of another pair on the other side.)
pub proof fn lemma_change_sets_disjoint(a: SchemaModel, b: SchemaModel, cfg: CompareConfigModel)
    requires
        schema_wf(a),
        schema_wf(b),
        cfg.strategy == CompareStrategy::ByName,
    ensures
        forall|i: int, j: int|
            0 <= i < compare_model(a, b, cfg).added.len() && 0 <= j < compare_model(
                a,
                b,
                cfg,
            ).removed.len() ==> change_target(#[trigger] compare_model(a, b, cfg).added[i])
                != change_target(#[trigger] compare_model(a, b, cfg).removed[j]),
        forall|i: int, j: int|
            0 <= i < compare_model(a, b, cfg).added.len() && 0 <= j < compare_model(
                a,
                b,
                cfg,
            ).modified.len() ==> change_target(#[trigger] compare_model(a, b, cfg).added[i])
                != modification_target(#[trigger] compare_model(a, b, cfg).modified[j]),
        forall|i: int, j: int|
            0 <= i < compare_model(a, b, cfg).removed.len() && 0 <= j < compare_model(
                a,
                b,
                cfg,
            ).modified.len() ==> change_target(#[trigger] compare_model(a, b, cfg).removed[i])
                != modification_target(#[trigger] compare_model(a, b, cfg).modified[j]),
{
    let added = compare_model(a, b, cfg).added;
    let removed = compare_model(a, b, cfg).removed;
    let modified = compare_model(a, b, cfg).modified;
    lemma_added_prefix_ok(a, b, cfg, a.entities.len() as int);
    lemma_removed_prefix_ok(a, b, cfg, a.entities.len() as int);
    lemma_modified_prefix_ok(a, b, cfg, a.entities.len() as int);
    assert(a.entities.take(a.entities.len() as int) =~= a.entities);
    lemma_entity_changes_facts(b.entities, a.entities, b.entities, b.entities.len() as int);
    assert(b.entities.take(b.entities.len() as int) =~= b.entities);
    lemma_entity_changes_facts(a.entities, b.entities, a.entities, a.entities.len() as int);
    assert(a.entities.take(a.entities.len() as int) =~= a.entities);
    let pa = pairs_added(name_pairs(a.entities, b.entities), cfg);
    let pr = pairs_removed(name_pairs(a.entities, b.entities), cfg);
    let pm = pairs_modified(name_pairs(a.entities, b.entities), cfg);
    let ea = entity_changes(name_rest(b.entities, a.entities));
    let er = entity_changes(name_rest(a.entities, b.entities));
    assert(added == ea + pa);
    assert(removed == er + pr);
    assert(modified == pm);
    assert forall|i: int| 0 <= i < added.len() implies added_change_ok(
        a,
        b,
        #[trigger] added[i],
    ) by {
        if i < ea.len() {
            assert(added[i] == ea[i]);
        } else {
            assert(added[i] == pa[i - ea.len()]);
        }
    }
    assert forall|i: int| 0 <= i < removed.len() implies added_change_ok(
        b,
        a,
        #[trigger] removed[i],
    ) by {
        if i < er.len() {
            assert(removed[i] == er[i]);
        } else {
            assert(removed[i] == pr[i - er.len()]);
        }
    }
    assert forall|j: int| 0 <= j < modified.len() implies modification_ok(
        a,
        b,
        #[trigger] modified[j],
    ) by {}
    assert forall|i: int, j: int|
        0 <= i < added.len() && 0 <= j < removed.len() implies change_target(#[trigger] added[i])
        != change_target(#[trigger] removed[j]) by {
        if change_target(added[i]) == change_target(removed[j]) {
            match (added[i], removed[j]) {
                (ChangeModel::Entity { value: v1 }, ChangeModel::Entity { value: v2 }) => {
                    assert(v1.name == v2.name);
                    assert(!has_entity(a.entities, v1.name));
                    assert(has_entity(a.entities, v2.name));
                },
                (
                    ChangeModel::Field { entity: e1, value: v1 },
                    ChangeModel::Field { entity: e2, value: v2 },
                ) => {
                    assert(e1 == e2 && v1.name == v2.name);
                    assert(!has_field(entity_named(a.entities, e1).fields, v1.name));
                    assert(has_field(entity_named(a.entities, e2).fields, v2.name));
                },
                _ => {},
            }
        }
    }
    assert forall|i: int, j: int|
        0 <= i < added.len() && 0 <= j < modified.len() implies change_target(#[trigger] added[i])
        != modification_target(#[trigger] modified[j]) by {
        if change_target(added[i]) == modification_target(modified[j]) {
            match (added[i], modified[j]) {
                (
                    ChangeModel::Field { entity: e1, value: v1 },
                    ModificationModel::FieldChanged { entity: e2, old_field, .. },
                ) => {
                    assert(e1 == e2 && v1.name == old_field.name);
                    assert(!has_field(entity_named(a.entities, e1).fields, v1.name));
                    assert(has_field(entity_named(a.entities, e2).fields, old_field.name));
                },
                _ => {},
            }
        }
    }
    assert forall|i: int, j: int|
        0 <= i < removed.len() && 0 <= j < modified.len() implies change_target(
        #[trigger] removed[i],
    ) != modification_target(#[trigger] modified[j]) by {
        if change_target(removed[i]) == modification_target(modified[j]) {
            match (removed[i], modified[j]) {
                (
                    ChangeModel::Field { entity: e1, value: v1 },
                    ModificationModel::FieldChanged { entity: e2, old_field, .. },
                ) => {
                    assert(e1 == e2 && v1.name == old_field.name);
                    assert(!has_field(entity_named(b.entities, e1).fields, v1.name));
                    assert(has_field(entity_named(b.entities, e2).fields, old_field.name));
                },
                _ => {},
            }
        }
    }
}

/// Every entity definition embedded in a change list is well-formed.
pub open spec fn changes_carry_wf(cs: Seq<ChangeModel>) -> bool {
    forall|k: int| 0 <= k < cs.len() ==> ((#[trigger] cs[k]) matches ChangeModel::Entity {
        value,
    } ==> entity_wf(value))
}

proof fn lemma_entity_changes_elements(es: Seq<EntityModel>)
    ensures
        entity_changes(es).len() == es.len(),
        forall|k: int| 0 <= k < es.len() ==> #[trigger] entity_changes(es)[k] == (
        ChangeModel::Entity { value: es[k] }),
    decreases es.len(),
{
    if es.len() > 0 {
        lemma_entity_changes_elements(es.drop_last());
        assert forall|k: int| 0 <= k < es.len() implies #[trigger] entity_changes(es)[k]
            == ChangeModel::Entity { value: es[k] } by {
            if k < es.len() - 1 {
                assert(entity_changes(es)[k] == entity_changes(es.drop_last())[k]);
                assert(es.drop_last()[k] == es[k]);
            }
        }
    }
}

proof fn lemma_pairs_added_field_only(pairs: Seq<(EntityModel, EntityModel)>, cfg: CompareConfigModel)
    ensures
        forall|k: int| 0 <= k < pairs_added(pairs, cfg).len() ==> (#[trigger] pairs_added(
            pairs,
            cfg,
        )[k]) is Field,
    decreases pairs.len(),
{
    if pairs.len() > 0 {
        lemma_pairs_added_field_only(pairs.drop_last(), cfg);
        lemma_added_fc_facts(
            pairs.last().1.name,
            pairs.last().0.fields,
            pairs.last().1.fields,
            cfg,
        );
        let whole = pairs_added(pairs, cfg);
        let prev = pairs_added(pairs.drop_last(), cfg);
        assert forall|k: int| 0 <= k < whole.len() implies (#[trigger] whole[k]) is Field by {
            if k < prev.len() {
                assert(whole[k] == prev[k]);
            } else {
                assert(whole[k] == added_field_changes(
                    pairs.last().1.name,
                    pairs.last().0.fields,
                    pairs.last().1.fields,
                    cfg,
                )[k - prev.len()]);
            }
        }
    }
}

proof fn lemma_pairs_removed_field_only(pairs: Seq<(EntityModel, EntityModel)>, cfg: CompareConfigModel)
    ensures
        forall|k: int| 0 <= k < pairs_removed(pairs, cfg).len() ==> (#[trigger] pairs_removed(
            pairs,
            cfg,
        )[k]) is Field,
    decreases pairs.len(),
{
    if pairs.len() > 0 {
        lemma_pairs_removed_field_only(pairs.drop_last(), cfg);
        lemma_removed_fc_facts(
            pairs.last().0.name,
            pairs.last().0.fields,
            pairs.last().1.fields,
            cfg,
        );
        let whole = pairs_removed(pairs, cfg);
        let prev = pairs_removed(pairs.drop_last(), cfg);
        assert forall|k: int| 0 <= k < whole.len() implies (#[trigger] whole[k]) is Field by {
            if k < prev.len() {
                assert(whole[k] == prev[k]);
            } else {
                assert(whole[k] == removed_field_changes(
                    pairs.last().0.name,
                    pairs.last().0.fields,
                    pairs.last().1.fields,
                    cfg,
                )[k - prev.len()]);
            }
        }
    }
}

/// Every entity definition embedded in a diff's change sets is well-formed,
/// under any strategy: entity-level changes carry entities of the compared
/// schemas, and field-level changes carry no entity at all.
pub proof fn lemma_compare_changes_wf(a: SchemaModel, b: SchemaModel, cfg: CompareConfigModel)
    requires
        schema_wf(a),
        schema_wf(b),
    ensures
        changes_carry_wf(compare_model(a, b, cfg).added),
        changes_carry_wf(compare_model(a, b, cfg).removed),
{
    let ms = match_split(a, b, cfg);
    assert(all_wf(a.entities));
    assert(all_wf(b.entities));
    lemma_name_split_wf(a.entities, b.entities);
    lemma_name_split_wf(b.entities, a.entities);
    match cfg.strategy {
        CompareStrategy::ByName => {},
        CompareStrategy::Semantic => {
            lemma_greedy_wf(a.entities, b.entities, cfg);
        },
        CompareStrategy::Hybrid => {
            lemma_greedy_wf(
                name_rest(a.entities, b.entities),
                name_rest(b.entities, a.entities),
                cfg,
            );
        },
    }
    assert(all_wf(ms.rest_a));
    assert(all_wf(ms.rest_b));
    lemma_entity_changes_elements(ms.rest_a);
    lemma_entity_changes_elements(ms.rest_b);
    lemma_pairs_added_field_only(ms.pairs, cfg);
    lemma_pairs_removed_field_only(ms.pairs, cfg);
    let added = compare_model(a, b, cfg).added;
    let removed = compare_model(a, b, cfg).removed;
    assert forall|k: int| 0 <= k < added.len() implies ((#[trigger] added[k]) matches
        ChangeModel::Entity { value } ==> entity_wf(value)) by {
        if k < entity_changes(ms.rest_b).len() {
            assert(added[k] == entity_changes(ms.rest_b)[k]);
        } else {
            assert(added[k] == pairs_added(ms.pairs, cfg)[k - entity_changes(ms.rest_b).len()]);
        }
    }
    assert forall|k: int| 0 <= k < removed.len() implies ((#[trigger] removed[k]) matches
        ChangeModel::Entity { value } ==> entity_wf(value)) by {
        if k < entity_changes(ms.rest_a).len() {
            assert(removed[k] == entity_changes(ms.rest_a)[k]);
        } else {
            assert(removed[k] == pairs_removed(ms.pairs, cfg)[k - entity_changes(
                ms.rest_a,
            ).len()]);
        }
    }
}

/// Two field lists that agree on everything except ignored names: each
/// non-ignored field of either side occurs, with the same definition, on
/// the other side.
pub open spec fn fields_agree_outside_ignored(
    afs: Seq<FieldModel>,
    bfs: Seq<FieldModel>,
    cfg: CompareConfigModel,
) -> bool {
    &&& forall|i: int| 0 <= i < afs.len() && !ignored(cfg, (#[trigger] afs[i]).name)
        ==> has_field(bfs, afs[i].name) && field_named(bfs, afs[i].name) == afs[i]
    &&& forall|i: int| 0 <= i < bfs.len() && !ignored(cfg, (#[trigger] bfs[i]).name)
        ==> has_field(afs, bfs[i].name) && field_named(afs, bfs[i].name) == bfs[i]
}

/// Two schemas that differ only in ignored fields: same entity names, and
/// every matched pair agrees outside the ignored names.
pub open spec fn schemas_agree_outside_ignored(
    a: SchemaModel,
    b: SchemaModel,
    cfg: CompareConfigModel,
) -> bool {
    &&& forall|i: int| 0 <= i < a.entities.len() ==> has_entity(
        b.entities,
        (#[trigger] a.entities[i]).name,
    )
    &&& forall|i: int| 0 <= i < b.entities.len() ==> has_entity(
        a.entities,
        (#[trigger] b.entities[i]).name,
    )
    &&& forall|i: int| 0 <= i < a.entities.len() ==> fields_agree_outside_ignored(
        (#[trigger] a.entities[i]).fields,
        entity_named(b.entities, a.entities[i].name).fields,
        cfg,
    )
}

proof fn lemma_agree_removed_empty(
    n: Seq<char>,
    afs: Seq<FieldModel>,
    bfs: Seq<FieldModel>,
    cfg: CompareConfigModel,
)
    requires
        forall|i: int| 0 <= i < afs.len() && !ignored(cfg, (#[trigger] afs[i]).name)
            ==> has_field(bfs, afs[i].name),
    ensures
        removed_field_changes(n, afs, bfs, cfg) == Seq::<ChangeModel>::empty(),
    decreases afs.len(),
{
    if afs.len() > 0 {
        assert(forall|i: int| 0 <= i < afs.drop_last().len() ==> #[trigger] afs.drop_last()[i]
            == afs[i]);
        lemma_agree_removed_empty(n, afs.drop_last(), bfs, cfg);
        assert(removed_field_changes(n, afs, bfs, cfg) =~= Seq::<ChangeModel>::empty());
    }
}

proof fn lemma_agree_modified_empty(
    n: Seq<char>,
    afs: Seq<FieldModel>,
    bfs: Seq<FieldModel>,
    cfg: CompareConfigModel,
)
    requires
        forall|i: int| 0 <= i < afs.len() && !ignored(cfg, (#[trigger] afs[i]).name)
            ==> has_field(bfs, afs[i].name) && field_named(bfs, afs[i].name) == afs[i],
    ensures
        modified_field_changes(n, afs, bfs, cfg) == Seq::<ModificationModel>::empty(),
    decreases afs.len(),
{
    if afs.len() > 0 {
        assert(forall|i: int| 0 <= i < afs.drop_last().len() ==> #[trigger] afs.drop_last()[i]
            == afs[i]);
        lemma_agree_modified_empty(n, afs.drop_last(), bfs, cfg);
        let f = afs.last();
        if !ignored(cfg, f.name) {
            assert(field_named(bfs, f.name) == f);
            assert(attr_changes(f, field_named(bfs, f.name)).len() == 0);
        }
        assert(modified_field_changes(n, afs, bfs, cfg) =~= Seq::<ModificationModel>::empty());
    }
}

proof fn lemma_agree_pairs_empty(
    pairs: Seq<(EntityModel, EntityModel)>,
    cfg: CompareConfigModel,
)
    requires
        forall|k: int| 0 <= k < pairs.len() ==> fields_agree_outside_ignored(
            (#[trigger] pairs[k]).0.fields,
            pairs[k].1.fields,
            cfg,
        ),
        forall|k: int| 0 <= k < pairs.len() ==> (#[trigger] pairs[k]).0.name == pairs[k].1.name,
    ensures
        pairs_removed(pairs, cfg) == Seq::<ChangeModel>::empty(),
        pairs_added(pairs, cfg) == Seq::<ChangeModel>::empty(),
        pairs_modified(pairs, cfg) == Seq::<ModificationModel>::empty(),
    decreases pairs.len(),
{
    if pairs.len() > 0 {
        lemma_agree_pairs_empty(pairs.drop_last(), cfg);
        let pr = pairs[pairs.len() - 1];
        lemma_agree_removed_empty(pr.0.name, pr.0.fields, pr.1.fields, cfg);
        lemma_agree_removed_empty(pr.1.name, pr.1.fields, pr.0.fields, cfg);
        lemma_field_changes_flip(pr.1.name, pr.0.fields, pr.1.fields, cfg);
        lemma_agree_modified_empty(pr.0.name, pr.0.fields, pr.1.fields, cfg);
        assert(pairs_removed(pairs, cfg) =~= Seq::<ChangeModel>::empty());
        assert(pairs_added(pairs, cfg) =~= Seq::<ChangeModel>::empty());
        assert(pairs_modified(pairs, cfg) =~= Seq::<ModificationModel>::empty());
    }
}

/// Ignoring is metamorphic: two schemas that differ only in ignored fields
/// compare, under name matching, as an empty diff with full similarity.
pub proof fn lemma_ignored_only_difference_is_identity(
    a: SchemaModel,
    b: SchemaModel,
    cfg: CompareConfigModel,
)
    requires
        schema_wf(a),
        schema_wf(b),
        cfg.strategy == CompareStrategy::ByName,
        schemas_agree_outside_ignored(a, b, cfg),
    ensures
        compare_model(a, b, cfg).added == Seq::<ChangeModel>::empty(),
        compare_model(a, b, cfg).removed == Seq::<ChangeModel>::empty(),
        compare_model(a, b, cfg).modified == Seq::<ModificationModel>::empty(),
        similarity_pm_of(0, compare_model(a, b, cfg).compared.len() as int) == 1000,
{
    let aes = a.entities;
    let bes = b.entities;
    lemma_name_rest_all_matched(aes, bes);
    lemma_name_rest_all_matched(bes, aes);
    let pairs = name_pairs(aes, bes);
    assert forall|k: int| 0 <= k < pairs.len() implies (#[trigger] pairs[k]).0.name
        == pairs[k].1.name && fields_agree_outside_ignored(
        pairs[k].0.fields,
        pairs[k].1.fields,
        cfg,
    ) by {
        lemma_name_pairs_structure(aes, bes, k);
        let l = choose|l: int| 0 <= l < aes.len() && (#[trigger] aes[l]) == pairs[k].0
            && pairs[k].1 == entity_named(bes, aes[l].name) && has_entity(bes, aes[l].name);
        let j = choose|j: int| 0 <= j < bes.len() && bes[j].name == aes[l].name;
        lemma_entity_named_is_at(bes, j);
        assert(entity_named(bes, aes[l].name).name == aes[l].name);
        assert(fields_agree_outside_ignored(
            aes[l].fields,
            entity_named(bes, aes[l].name).fields,
            cfg,
        ));
    }
    lemma_agree_pairs_empty(pairs, cfg);
    assert(entity_changes(name_rest(a.entities, b.entities)) =~= Seq::<ChangeModel>::empty());
    assert(entity_changes(name_rest(b.entities, a.entities)) =~= Seq::<ChangeModel>::empty());
    assert(compare_model(a, b, cfg).added =~= Seq::<ChangeModel>::empty());
    assert(compare_model(a, b, cfg).removed =~= Seq::<ChangeModel>::empty());
    assert(compare_model(a, b, cfg).modified =~= Seq::<ModificationModel>::empty());
    lemma_similarity_identity(0, compare_model(a, b, cfg).compared.len() as int);
}

/// Each pair of the name matching is an original first-side entity next to
/// its second-side namesake.
proof fn lemma_name_pairs_structure(aes: Seq<EntityModel>, bes: Seq<EntityModel>, k: int)
    requires
        0 <= k < name_pairs(aes, bes).len(),
    ensures
        exists|l: int| 0 <= l < aes.len() && (#[trigger] aes[l]) == name_pairs(aes, bes)[k].0
            && name_pairs(aes, bes)[k].1 == entity_named(bes, aes[l].name) && has_entity(
            bes,
            aes[l].name,
        ),
    decreases aes.len(),
{
    if aes.len() > 0 {
        let prev = name_pairs(aes.drop_last(), bes);
        if k < prev.len() {
            lemma_name_pairs_structure(aes.drop_last(), bes, k);
            let l = choose|l: int| 0 <= l < aes.drop_last().len() && (#[trigger] aes.drop_last()[
                l
            ]) == prev[k].0 && prev[k].1 == entity_named(bes, aes.drop_last()[l].name)
                && has_entity(bes, aes.drop_last()[l].name);
            assert(aes[l] == aes.drop_last()[l]);
            assert(name_pairs(aes, bes)[k] == prev[k]);
        } else {
            assert(has_entity(bes, aes.last().name));
            assert(name_pairs(aes, bes)[k] == (
                aes.last(),
                entity_named(bes, aes.last().name),
            ));
            assert(aes[aes.len() - 1] == aes.last());
        }
    }
}

/// Symmetry under name matching: the multiset of changes reported added
/// when comparing `a` to `b` is the multiset reported removed when
/// comparing `b` to `a` — so, in particular, the two change sets name the
/// same target paths. Instantiating with the sides swapped gives the other
/// direction.
pub proof fn lemma_compare_symmetry(a: SchemaModel, b: SchemaModel, cfg: CompareConfigModel)
    requires
        schema_wf(a),
        schema_wf(b),
        cfg.strategy == CompareStrategy::ByName,
    ensures
        compare_model(a, b, cfg).added.to_multiset() =~= compare_model(
            b,
            a,
            cfg,
        ).removed.to_multiset(),
{
    broadcast use vstd::multiset::group_multiset_axioms;

    let added = compare_model(a, b, cfg).added;
    let removed = compare_model(b, a, cfg).removed;
    assert(added == entity_changes(name_rest(b.entities, a.entities)) + pairs_added(
        name_pairs(a.entities, b.entities),
        cfg,
    ));
    assert(removed == entity_changes(name_rest(b.entities, a.entities)) + pairs_removed(
        name_pairs(b.entities, a.entities),
        cfg,
    ));
    vstd::seq_lib::lemma_multiset_commutative(
        entity_changes(name_rest(b.entities, a.entities)),
        pairs_added(name_pairs(a.entities, b.entities), cfg),
    );
    vstd::seq_lib::lemma_multiset_commutative(
        entity_changes(name_rest(b.entities, a.entities)),
        pairs_removed(name_pairs(b.entities, a.entities), cfg),
    );
    lemma_pairs_added_row(a.entities, b.entities, cfg);
    lemma_pairs_removed_row(b.entities, a.entities, cfg);
    lemma_rows_agree(a.entities, b.entities, cfg);
}

} // verus!
