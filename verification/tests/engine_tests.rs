use audd_engine::apply::{apply, ActionOutcome, ApplyConfig, Store};
use audd_engine::compare::{
    compare, AttrKind, AttrValue, Change, CompareConfig, CompareStrategy, Modification,
};
use audd_engine::errors::AuddNativeError;
use audd_engine::ir::{parse_source_type, Entity, Field, SchemaIR, SourceType};
use audd_engine::resolve::{propose, ActionEffect, ActionKind, PreferSource, ResolveConfig, ResolveStrategy};
use audd_engine::validate::{validate, ValidationError};

fn field(name: &str, ty: &str) -> Field {
    Field {
        name: name.to_string(),
        declared_type: ty.to_string(),
        nullable: false,
        default: None,
        is_primary_key: None,
    }
}

fn entity(name: &str, fields: Vec<Field>) -> Entity {
    Entity::new(name.to_string(), fields).unwrap()
}

fn schema(name: &str, entities: Vec<Entity>) -> SchemaIR {
    SchemaIR::new(name.to_string(), SourceType::Memory, 1, entities).unwrap()
}

fn users_a() -> SchemaIR {
    schema("a", vec![entity("users", vec![field("id", "int")])])
}

fn users_b() -> SchemaIR {
    schema(
        "b",
        vec![entity("users", vec![field("id", "int"), field("email", "string")])],
    )
}

#[test]
fn compare_identical_schemas_is_identity() {
    let s = users_b();
    let cfg = CompareConfig::default();
    let r = compare(&s, &s, &cfg).unwrap();
    assert_eq!(r.changes.added.len(), 0);
    assert_eq!(r.changes.removed.len(), 0);
    assert_eq!(r.changes.modified.len(), 0);
    assert_eq!(r.statistics.similarity_per_mille(), 1000);
}

#[test]
fn compare_added_field_scenario() {
    let a = users_a();
    let b = users_b();
    let cfg = CompareConfig::default();
    let r = compare(&a, &b, &cfg).unwrap();
    assert_eq!(r.changes.added.len(), 1);
    match &r.changes.added[0] {
        Change::Field { entity, value } => {
            assert_eq!(entity, "users");
            assert_eq!(value.name, "email");
        }
        other => panic!("expected a field change, got {:?}", other),
    }
    assert_eq!(r.changes.removed.len(), 0);
    assert_eq!(r.changes.modified.len(), 0);
    assert_eq!(r.statistics.total_compared, 2);
    assert_eq!(r.statistics.similarity_per_mille(), 500);
}

#[test]
fn ignored_field_restores_full_similarity() {
    let a = users_a();
    let b = users_b();
    let cfg = CompareConfig {
        strategy: CompareStrategy::ByName,
        threshold_pm: 800,
        ignore_fields: vec!["email".to_string()],
    };
    let r = compare(&a, &b, &cfg).unwrap();
    assert_eq!(r.changes.added.len(), 0);
    assert_eq!(r.changes.removed.len(), 0);
    assert_eq!(r.changes.modified.len(), 0);
    assert_eq!(r.statistics.total_compared, 1);
    assert_eq!(r.statistics.similarity_per_mille(), 1000);
}

#[test]
fn compare_version_mismatch_is_invalid_input() {
    let a = users_a();
    let mut b = users_b();
    b.ir_version = 2;
    let cfg = CompareConfig::default();
    let e = compare(&a, &b, &cfg).unwrap_err();
    assert_eq!(e.code(), "INVALID_INPUT");
}

#[test]
fn compare_symmetry_on_paths() {
    let a = schema(
        "a",
        vec![
            entity("users", vec![field("id", "int"), field("age", "int")]),
            entity("only_a", vec![field("x", "int")]),
        ],
    );
    let b = schema(
        "b",
        vec![
            entity("users", vec![field("id", "int"), field("email", "string")]),
            entity("only_b", vec![field("y", "int")]),
        ],
    );
    let cfg = CompareConfig::default();
    let ab = compare(&a, &b, &cfg).unwrap();
    let ba = compare(&b, &a, &cfg).unwrap();
    let mut ab_added: Vec<String> = ab
        .changes
        .added
        .iter()
        .map(|c| match c {
            Change::Entity { value } => value.entity_name.clone(),
            Change::Field { entity, value } => format!("{}.{}", entity, value.name),
        })
        .collect();
    let mut ba_removed: Vec<String> = ba
        .changes
        .removed
        .iter()
        .map(|c| match c {
            Change::Entity { value } => value.entity_name.clone(),
            Change::Field { entity, value } => format!("{}.{}", entity, value.name),
        })
        .collect();
    ab_added.sort();
    ba_removed.sort();
    assert_eq!(ab_added, ba_removed);
}

#[test]
fn modified_field_records_old_and_new_attribute() {
    let a = schema("a", vec![entity("t", vec![field("v", "int")])]);
    let b = schema("b", vec![entity("t", vec![field("v", "string")])]);
    let cfg = CompareConfig::default();
    let r = compare(&a, &b, &cfg).unwrap();
    assert_eq!(r.changes.modified.len(), 1);
    match &r.changes.modified[0] {
        Modification::FieldChanged { entity, old_field, new_field, changes } => {
            assert_eq!(entity, "t");
            assert_eq!(old_field.declared_type, "int");
            assert_eq!(new_field.declared_type, "string");
            assert_eq!(changes.len(), 1);
            assert_eq!(changes[0].attr, AttrKind::DeclaredType);
            assert_eq!(changes[0].old_value, AttrValue::Text("int".to_string()));
            assert_eq!(changes[0].new_value, AttrValue::Text("string".to_string()));
        }
        other => panic!("expected a field modification, got {:?}", other),
    }
}

#[test]
fn semantic_match_reports_rename() {
    let a = schema(
        "a",
        vec![entity("customers", vec![field("id", "int"), field("name", "string")])],
    );
    let b = schema(
        "b",
        vec![entity("clients", vec![field("id", "int"), field("name", "string")])],
    );
    let cfg = CompareConfig {
        strategy: CompareStrategy::Semantic,
        threshold_pm: 800,
        ignore_fields: vec![],
    };
    let r = compare(&a, &b, &cfg).unwrap();
    assert_eq!(r.changes.added.len(), 0);
    assert_eq!(r.changes.removed.len(), 0);
    assert_eq!(r.changes.modified.len(), 1);
    match &r.changes.modified[0] {
        Modification::EntityRenamed { old_name, new_name } => {
            assert_eq!(old_name, "customers");
            assert_eq!(new_name, "clients");
        }
        other => panic!("expected a rename, got {:?}", other),
    }
}

#[test]
fn hybrid_matches_by_name_first() {
    let a = users_a();
    let b = users_b();
    let cfg = CompareConfig {
        strategy: CompareStrategy::Hybrid,
        threshold_pm: 800,
        ignore_fields: vec![],
    };
    let r = compare(&a, &b, &cfg).unwrap();
    assert_eq!(r.changes.added.len(), 1);
    assert_eq!(r.changes.removed.len(), 0);
}

#[test]
fn proposals_are_byte_identical() {
    let a = users_a();
    let b = users_b();
    let diff = compare(&a, &b, &CompareConfig::default()).unwrap();
    let cfg = ResolveConfig::default();
    let p1 = propose(&diff, &cfg);
    let p2 = propose(&diff, &cfg);
    assert_eq!(p1, p2);
    assert_eq!(p1.plan_id, "plan:a:b");
}

#[test]
fn resolver_policy_added_defaults_to_accept_b() {
    let diff = compare(&users_a(), &users_b(), &CompareConfig::default()).unwrap();
    let plan = propose(&diff, &ResolveConfig::default());
    assert_eq!(plan.actions.len(), 1);
    assert_eq!(plan.actions[0].kind, ActionKind::AcceptB);
    match &plan.actions[0].effect {
        ActionEffect::PutField { entity, field } => {
            assert_eq!(entity, "users");
            assert_eq!(field.name, "email");
        }
        other => panic!("expected a field put, got {:?}", other),
    }
}

#[test]
fn resolver_policy_prefer_a_drops_added() {
    let diff = compare(&users_a(), &users_b(), &CompareConfig::default()).unwrap();
    let cfg = ResolveConfig { strategy: ResolveStrategy::Balanced, prefer_source: PreferSource::A };
    let plan = propose(&diff, &cfg);
    assert_eq!(plan.actions[0].kind, ActionKind::Drop);
}

#[test]
fn resolver_policy_removed_defaults_to_accept_a() {
    let diff = compare(&users_b(), &users_a(), &CompareConfig::default()).unwrap();
    let plan = propose(&diff, &ResolveConfig::default());
    assert_eq!(plan.actions.len(), 1);
    assert_eq!(plan.actions[0].kind, ActionKind::AcceptA);
}

#[test]
fn resolver_conservative_defers_modifications() {
    let a = schema("a", vec![entity("t", vec![field("v", "int")])]);
    let b = schema("b", vec![entity("t", vec![field("v", "string")])]);
    let diff = compare(&a, &b, &CompareConfig::default()).unwrap();
    let cfg = ResolveConfig {
        strategy: ResolveStrategy::Conservative,
        prefer_source: PreferSource::Merge,
    };
    let plan = propose(&diff, &cfg);
    assert_eq!(plan.actions.len(), 1);
    assert_eq!(plan.actions[0].kind, ActionKind::ManualReview);
}

#[test]
fn resolver_aggressive_merges_field_attributes() {
    let mut fa = field("v", "int");
    fa.nullable = true;
    fa.default = Some("0".to_string());
    let fb = field("v", "string");
    let a = schema("a", vec![entity("t", vec![fa])]);
    let b = schema("b", vec![entity("t", vec![fb])]);
    let diff = compare(&a, &b, &CompareConfig::default()).unwrap();
    let cfg = ResolveConfig {
        strategy: ResolveStrategy::Aggressive,
        prefer_source: PreferSource::Merge,
    };
    let plan = propose(&diff, &cfg);
    assert_eq!(plan.actions[0].kind, ActionKind::Merge);
    match &plan.actions[0].effect {
        ActionEffect::PutField { field, .. } => {
            assert_eq!(field.declared_type, "string");
            assert!(field.nullable);
            assert_eq!(field.default, Some("0".to_string()));
        }
        other => panic!("expected a field put, got {:?}", other),
    }
}

#[test]
fn plan_groups_are_sorted_by_target_path() {
    // Entities arrive in reverse name order; the plan's added group must
    // come out sorted by target path.
    let a = schema("a", vec![]);
    let b = schema(
        "b",
        vec![
            entity("zeta", vec![field("z", "int")]),
            entity("alpha", vec![field("a", "int")]),
        ],
    );
    let diff = compare(&a, &b, &CompareConfig::default()).unwrap();
    let plan = propose(&diff, &ResolveConfig::default());
    assert_eq!(plan.actions.len(), 2);
    assert_eq!(plan.actions[0].target.entity, "alpha");
    assert_eq!(plan.actions[1].target.entity, "zeta");
}

#[test]
fn dry_run_leaves_store_unchanged() {
    let diff = compare(&users_a(), &users_b(), &CompareConfig::default()).unwrap();
    let plan = propose(&diff, &ResolveConfig::default());
    let mut store = Store { entities: users_a().entities };
    let snapshot = store.clone();
    let cfg = ApplyConfig { dry_run: true, backup: false, stop_on_failure: false };
    let r = apply(&plan, &cfg, &mut store);
    assert_eq!(store, snapshot);
    assert!(r.dry_run);
    assert!(r.backup_ref.is_none());
    assert_eq!(r.outcomes.len(), 1);
    assert_eq!(r.succeeded_count, 1);
}

#[test]
fn apply_converges_store_and_reapply_skips() {
    let diff = compare(&users_a(), &users_b(), &CompareConfig::default()).unwrap();
    let plan = propose(&diff, &ResolveConfig::default());
    let mut store = Store { entities: users_a().entities };
    let cfg = ApplyConfig::default();
    let r1 = apply(&plan, &cfg, &mut store);
    assert_eq!(r1.outcomes, vec![ActionOutcome::Succeeded]);
    assert_eq!(store.entities[0].fields.len(), 2);
    let snapshot = store.clone();
    let r2 = apply(&plan, &cfg, &mut store);
    assert_eq!(r2.outcomes, vec![ActionOutcome::Skipped]);
    assert_eq!(r2.succeeded_count, 0);
    assert_eq!(r2.skipped_count, 1);
    assert_eq!(store, snapshot);
}

#[test]
fn backup_captures_targeted_entities() {
    let diff = compare(&users_a(), &users_b(), &CompareConfig::default()).unwrap();
    let plan = propose(&diff, &ResolveConfig::default());
    let mut store = Store { entities: users_a().entities };
    let cfg = ApplyConfig { dry_run: false, backup: true, stop_on_failure: false };
    let r = apply(&plan, &cfg, &mut store);
    let backup = r.backup_ref.expect("backup requested");
    assert_eq!(backup.entities.len(), 1);
    assert_eq!(backup.entities[0].entity_name, "users");
    assert_eq!(backup.entities[0].fields.len(), 1);
}

#[test]
fn stop_on_failure_skips_the_rest() {
    let a = schema("a", vec![entity("t", vec![field("v", "int")])]);
    let b = schema(
        "b",
        vec![
            entity("missing", vec![field("w", "int")]),
            entity("t", vec![field("v", "int"), field("u", "int"), field("z", "int")]),
        ],
    );
    let diff = compare(&a, &b, &CompareConfig::default()).unwrap();
    let plan = propose(&diff, &ResolveConfig::default());
    // The plan puts the added entity and the added field; run it against an
    // empty store, where the field's entity is missing, to force a failure.
    let mut store = Store { entities: vec![] };
    let cfg = ApplyConfig { dry_run: false, backup: false, stop_on_failure: true };
    let r = apply(&plan, &cfg, &mut store);
    assert!(r.outcomes.contains(&ActionOutcome::Failed));
    let first_failed = r.outcomes.iter().position(|o| *o == ActionOutcome::Failed).unwrap();
    assert!(first_failed + 1 < r.outcomes.len());
    for o in &r.outcomes[first_failed + 1..] {
        assert_eq!(*o, ActionOutcome::Skipped);
    }
}

#[test]
fn validator_reports_entity_without_fields() {
    let s = SchemaIR::new(
        "s".to_string(),
        SourceType::Memory,
        1,
        vec![Entity::new("empty_one".to_string(), vec![]).unwrap()],
    )
    .unwrap();
    let r = validate(&s);
    assert!(!r.ok);
    assert_eq!(r.errors.len(), 1);
    assert_eq!(
        r.errors[0],
        ValidationError::EntityWithoutFields { entity: "empty_one".to_string() }
    );
}

#[test]
fn validator_reports_no_entities() {
    let s = SchemaIR::new("s".to_string(), SourceType::Memory, 1, vec![]).unwrap();
    let r = validate(&s);
    assert!(!r.ok);
    assert_eq!(r.errors, vec![ValidationError::NoEntities]);
}

#[test]
fn validator_accepts_populated_schema() {
    let r = validate(&users_b());
    assert!(r.ok);
    assert_eq!(r.errors.len(), 0);
}

#[test]
fn schema_construction_rejects_duplicate_entities() {
    let e1 = entity("t", vec![field("a", "int")]);
    let e2 = entity("t", vec![field("b", "int")]);
    let r = SchemaIR::new("s".to_string(), SourceType::File, 1, vec![e1, e2]);
    assert_eq!(r.unwrap_err().code(), "INVALID_INPUT");
}

#[test]
fn entity_construction_rejects_duplicate_fields() {
    let r = Entity::new("t".to_string(), vec![field("a", "int"), field("a", "string")]);
    assert_eq!(r.unwrap_err().code(), "INVALID_INPUT");
}

#[test]
fn source_type_parsing() {
    assert_eq!(parse_source_type(&"file".to_string()).unwrap(), SourceType::File);
    assert_eq!(parse_source_type(&"db".to_string()).unwrap(), SourceType::Db);
    assert_eq!(parse_source_type(&"memory".to_string()).unwrap(), SourceType::Memory);
    let e = parse_source_type(&"carrier-pigeon".to_string()).unwrap_err();
    assert_eq!(e.code(), "UNSUPPORTED_SOURCE");
    assert_eq!(e.message(), "Unsupported source type: carrier-pigeon");
}

#[test]
fn error_codes_are_stable() {
    assert_eq!(AuddNativeError::InvalidInput("x".to_string()).code(), "INVALID_INPUT");
    assert_eq!(AuddNativeError::UnsupportedSource("x".to_string()).code(), "UNSUPPORTED_SOURCE");
    assert_eq!(AuddNativeError::UnsupportedFormat("x".to_string()).code(), "UNSUPPORTED_FORMAT");
    assert_eq!(AuddNativeError::DbConnectionFailed("x".to_string()).code(), "DB_CONNECTION_FAILED");
    assert_eq!(AuddNativeError::IoError("x".to_string()).code(), "IO_ERROR");
    assert_eq!(AuddNativeError::InternalError("x".to_string()).code(), "INTERNAL_ERROR");
    assert_eq!(AuddNativeError::Cancelled.code(), "CANCELLED");
    assert_eq!(AuddNativeError::Timeout.code(), "TIMEOUT");
    assert_eq!(AuddNativeError::JsonError("x".to_string()).code(), "JSON_ERROR");
}

#[test]
fn error_messages_carry_detail() {
    assert_eq!(
        AuddNativeError::InvalidInput("bad doc".to_string()).message(),
        "Invalid input: bad doc"
    );
    assert_eq!(AuddNativeError::Timeout.message(), "Operation timeout");
}

#[test]
fn similarity_rounds_down_below_one() {
    // One modification among three compared fields: similarity is 2/3,
    // rendered as 666 per mille, strictly below full.
    let a = schema(
        "a",
        vec![entity("t", vec![field("v", "int"), field("w", "int"), field("x", "int")])],
    );
    let b = schema(
        "b",
        vec![entity("t", vec![field("v", "int"), field("w", "int"), field("x", "string")])],
    );
    let r = compare(&a, &b, &CompareConfig::default()).unwrap();
    assert_eq!(r.changes.modified.len(), 1);
    assert_eq!(r.statistics.total_compared, 3);
    assert_eq!(r.statistics.similarity_per_mille(), 666);
}

#[test]
fn similarity_full_only_when_diff_empty() {
    // A single change among many compared items must not render as full
    // similarity.
    let mut fields_a = Vec::new();
    let mut fields_b = Vec::new();
    for i in 0..30 {
        fields_a.push(field(&format!("f{}", i), "int"));
        fields_b.push(field(&format!("f{}", i), "int"));
    }
    fields_b.push(field("extra", "int"));
    let a = schema("a", vec![entity("t", fields_a)]);
    let b = schema("b", vec![entity("t", fields_b)]);
    let r = compare(&a, &b, &CompareConfig::default()).unwrap();
    assert_eq!(r.changes.added.len(), 1);
    assert!(r.statistics.similarity_per_mille() < 1000);
}

#[test]
fn similarity_clamps_at_zero() {
    // An added entity with no fields contributes a change but nothing to the
    // denominator: similarity clamps to zero.
    let a = schema("a", vec![]);
    let b = SchemaIR::new(
        "b".to_string(),
        SourceType::Memory,
        1,
        vec![Entity::new("ghost".to_string(), vec![]).unwrap()],
    )
    .unwrap();
    let r = compare(&a, &b, &CompareConfig::default()).unwrap();
    assert_eq!(r.changes.added.len(), 1);
    assert_eq!(r.statistics.total_compared, 0);
    assert_eq!(r.statistics.similarity_per_mille(), 0);
}
