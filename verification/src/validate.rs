//! Validator: non-fatal structural checks on a schema snapshot.
//!
//! `validate` reports, without halting at the first finding: a schema with
//! no entities at all, and every entity with zero fields. Errors are
//! structured values carrying the offending entity's name; the boundary
//! renders them as text. Version parsing happens at the boundary, before a
//! schema value exists, so an unreadable version never reaches this
//! function.

use vstd::prelude::*;
use crate::ir::{SchemaIR, SchemaModel};

verus! {

/// One validation finding.
#[derive(Debug, Clone, PartialEq, Eq)]
pub enum ValidationError {
    /// The schema has no entities.
    NoEntities,
    /// The named entity has no fields.
    EntityWithoutFields { entity: String },
}

/// Mathematical model of a [`ValidationError`].
pub ghost enum ValidationErrorModel {
    NoEntities,
    EntityWithoutFields { entity: Seq<char> },
}

impl View for ValidationError {
    type V = ValidationErrorModel;

    open spec fn view(&self) -> ValidationErrorModel {
        match self {
            ValidationError::NoEntities => ValidationErrorModel::NoEntities,
            ValidationError::EntityWithoutFields { entity } => ValidationErrorModel::EntityWithoutFields {
                entity: entity@,
            },
        }
    }
}

impl DeepView for ValidationError {
    type V = ValidationErrorModel;

    open spec fn deep_view(&self) -> ValidationErrorModel {
        self.view()
    }
}

/// Result of validating one schema.
#[derive(Debug, Clone, PartialEq, Eq)]
pub struct ValidationReport {
    /// True iff no error was found.
    pub ok: bool,
    /// Every finding, accumulated; never cut short at the first error.
    pub errors: Vec<ValidationError>,
}

/// The per-entity findings: one error for each entity without fields, in
/// schema order.
pub open spec fn entity_errors(s: SchemaModel) -> Seq<ValidationErrorModel>
    decreases s.entities.len() via entity_errors_decreases
{
    if s.entities.len() == 0 {
        Seq::empty()
    } else {
        entity_errors(SchemaModel { entities: s.entities.drop_last(), ..s }) + (if s.entities.last().fields.len() == 0 {
            seq![ValidationErrorModel::EntityWithoutFields { entity: s.entities.last().name }]
        } else {
            Seq::empty()
        })
    }
}

#[via_fn]
proof fn entity_errors_decreases(s: SchemaModel) {
}

/// The complete findings of one schema: the no-entities error, if due, then
/// the per-entity errors.
pub open spec fn validate_model(s: SchemaModel) -> Seq<ValidationErrorModel> {
    (if s.entities.len() == 0 {
        seq![ValidationErrorModel::NoEntities]
    } else {
        Seq::empty()
    }) + entity_errors(s)
}

/// Validates a schema snapshot: reports exactly the findings of the model,
/// and is `ok` exactly when there are none.
pub fn validate(schema: &SchemaIR) -> (r: ValidationReport)
    ensures
        r.errors.deep_view() == validate_model(schema@),
        r.ok <==> validate_model(schema@).len() == 0,
{
    let mut errors: Vec<ValidationError> = Vec::new();
    if schema.entities.len() == 0 {
        errors.push(ValidationError::NoEntities);
    }
    let ghost head = errors.deep_view();
    let mut i: usize = 0;
    while i < schema.entities.len()
        invariant
            i <= schema.entities.len(),
            head == (if schema@.entities.len() == 0 {
                seq![ValidationErrorModel::NoEntities]
            } else {
                Seq::<ValidationErrorModel>::empty()
            }),
            errors.deep_view() =~= head + entity_errors(
                SchemaModel { entities: schema@.entities.take(i as int), ..schema@ },
            ),
        decreases schema.entities.len() - i,
    {
        if schema.entities[i].fields.len() == 0 {
            errors.push(
                ValidationError::EntityWithoutFields {
                    entity: schema.entities[i].entity_name.clone(),
                },
            );
        }
        proof {
            assert(schema@.entities.take(i + 1).drop_last() =~= schema@.entities.take(i as int));
            assert(schema@.entities.take(i + 1).last() == schema@.entities[i as int]);
            assert(schema@.entities[i as int].fields.len() == schema.entities[i as int]@.fields.len());
        }
        i = i + 1;
    }
    proof {
        assert(schema@.entities.take(schema.entities.len() as int) =~= schema@.entities);
        assert(errors.deep_view() =~= validate_model(schema@));
    }
    let ok = errors.len() == 0;
    ValidationReport { ok, errors }
}

/// Validator completeness on the two boundary shapes: a schema with exactly
/// one entity that has no fields yields exactly one error, naming that
/// entity; a schema with no entities yields exactly the no-entities error
/// and no per-entity error.
pub proof fn lemma_validator_completeness(s: SchemaModel)
    ensures
        s.entities.len() == 1 && s.entities[0].fields.len() == 0 ==> validate_model(s)
            =~= seq![ValidationErrorModel::EntityWithoutFields { entity: s.entities[0].name }],
        s.entities.len() == 0 ==> validate_model(s) =~= seq![ValidationErrorModel::NoEntities],
{
    if s.entities.len() == 1 && s.entities[0].fields.len() == 0 {
        assert(s.entities.drop_last() =~= Seq::<crate::ir::EntityModel>::empty());
        assert(entity_errors(SchemaModel { entities: s.entities.drop_last(), ..s }) =~= Seq::<
            ValidationErrorModel,
        >::empty());
    }
}

} // verus!
