//! Canonical intermediate representation (IR) of a data-source schema.
//!
//! A [`SchemaIR`] is an immutable snapshot of one source: an identifying
//! label, an origin kind, a format version, and an ordered sequence of
//! entities, each with an ordered sequence of fields. Entity names are unique
//! within a schema and field names are unique within an entity; both are
//! invariants established at construction and relied on by every later stage.

use vstd::prelude::*;
use vstd::string::StringExecFns;

verus! {

/// Enumerated origin kind of a schema snapshot.
#[derive(Debug, Clone, Copy, PartialEq, Eq, Structural)]
pub enum SourceType {
    File,
    Db,
    Memory,
}

/// One attribute of an entity.
#[derive(Debug, Clone, PartialEq, Eq)]
pub struct Field {
    /// Name, unique within the owning entity.
    pub name: String,
    /// Canonical type tag (not the source-native type string).
    pub declared_type: String,
    /// Whether the attribute admits null.
    pub nullable: bool,
    /// Optional default value, kept as its textual form.
    pub default: Option<String>,
    /// Optional primary-key marker.
    pub is_primary_key: Option<bool>,
}

/// Mathematical model of a [`Field`].
pub ghost struct FieldModel {
    pub name: Seq<char>,
    pub declared_type: Seq<char>,
    pub nullable: bool,
    pub default: Option<Seq<char>>,
    pub is_primary_key: Option<bool>,
}

impl View for Field {
    type V = FieldModel;

    open spec fn view(&self) -> FieldModel {
        FieldModel {
            name: self.name@,
            declared_type: self.declared_type@,
            nullable: self.nullable,
            default: self.default.deep_view(),
            is_primary_key: self.is_primary_key,
        }
    }
}

impl DeepView for Field {
    type V = FieldModel;

    open spec fn deep_view(&self) -> FieldModel {
        self.view()
    }
}

/// One logical record type (table, collection, object kind).
#[derive(Debug, Clone, PartialEq, Eq)]
pub struct Entity {
    /// Name, unique within the owning schema.
    pub entity_name: String,
    /// Ordered attributes, unique by name.
    pub fields: Vec<Field>,
}

/// Mathematical model of an [`Entity`].
pub ghost struct EntityModel {
    pub name: Seq<char>,
    pub fields: Seq<FieldModel>,
}

impl View for Entity {
    type V = EntityModel;

    open spec fn view(&self) -> EntityModel {
        EntityModel { name: self.entity_name@, fields: self.fields.deep_view() }
    }
}

impl DeepView for Entity {
    type V = EntityModel;

    open spec fn deep_view(&self) -> EntityModel {
        self.view()
    }
}

/// Canonical snapshot of one data source.
#[derive(Debug, Clone, PartialEq, Eq)]
pub struct SchemaIR {
    /// Opaque identifying label of the source.
    pub source_name: String,
    /// Enumerated origin kind.
    pub source_type: SourceType,
    /// Format version; two snapshots compare only at equal versions.
    pub ir_version: u32,
    /// Ordered entities, unique by name.
    pub entities: Vec<Entity>,
}

/// Mathematical model of a [`SchemaIR`].
pub ghost struct SchemaModel {
    pub source_name: Seq<char>,
    pub source_type: SourceType,
    pub ir_version: u32,
    pub entities: Seq<EntityModel>,
}

impl View for SchemaIR {
    type V = SchemaModel;

    open spec fn view(&self) -> SchemaModel {
        SchemaModel {
            source_name: self.source_name@,
            source_type: self.source_type,
            ir_version: self.ir_version,
            entities: self.entities.deep_view(),
        }
    }
}

impl DeepView for SchemaIR {
    type V = SchemaModel;

    open spec fn deep_view(&self) -> SchemaModel {
        self.view()
    }
}

/// Whether an entity of the given name occurs in `es`.
pub open spec fn has_entity(es: Seq<EntityModel>, name: Seq<char>) -> bool {
    exists|i: int| 0 <= i < es.len() && es[i].name == name
}

/// The entity of the given name (meaningful when names are unique and the
/// name occurs).
pub open spec fn entity_named(es: Seq<EntityModel>, name: Seq<char>) -> EntityModel {
    es[choose|i: int| 0 <= i < es.len() && es[i].name == name]
}

/// Whether a field of the given name occurs in `fs`.
pub open spec fn has_field(fs: Seq<FieldModel>, name: Seq<char>) -> bool {
    exists|i: int| 0 <= i < fs.len() && fs[i].name == name
}

/// The field of the given name (meaningful when names are unique and the
/// name occurs).
pub open spec fn field_named(fs: Seq<FieldModel>, name: Seq<char>) -> FieldModel {
    fs[choose|i: int| 0 <= i < fs.len() && fs[i].name == name]
}

/// No two fields of `fs` share a name.
pub open spec fn fields_unique(fs: Seq<FieldModel>) -> bool {
    forall|i: int, j: int| 0 <= i < j < fs.len() ==> fs[i].name != fs[j].name
}

/// Well-formedness of an entity: fields unique by name.
pub open spec fn entity_wf(e: EntityModel) -> bool {
    fields_unique(e.fields)
}

/// No two entities of `es` share a name.
pub open spec fn entities_unique(es: Seq<EntityModel>) -> bool {
    forall|i: int, j: int| 0 <= i < j < es.len() ==> es[i].name != es[j].name
}

/// Well-formedness of a schema: entities unique by name, each entity
/// well-formed.
pub open spec fn schema_wf(s: SchemaModel) -> bool {
    &&& entities_unique(s.entities)
    &&& forall|i: int| 0 <= i < s.entities.len() ==> entity_wf(#[trigger] s.entities[i])
}

/// Under unique names, the entity found for an occurring name is the one at
/// its (unique) index.
pub proof fn lemma_entity_named_is_at(es: Seq<EntityModel>, i: int)
    requires
        entities_unique(es),
        0 <= i < es.len(),
    ensures
        entity_named(es, es[i].name) == es[i],
{
    let n = es[i].name;
    let j = choose|k: int| 0 <= k < es.len() && es[k].name == n;
    assert(0 <= j < es.len() && es[j].name == n);
    if i < j {
        assert(es[i].name != es[j].name);
    } else if j < i {
        assert(es[j].name != es[i].name);
    }
}

/// Under unique names, the field found for an occurring name is the one at
/// its (unique) index.
pub proof fn lemma_field_named_is_at(fs: Seq<FieldModel>, i: int)
    requires
        fields_unique(fs),
        0 <= i < fs.len(),
    ensures
        field_named(fs, fs[i].name) == fs[i],
{
    let n = fs[i].name;
    let j = choose|k: int| 0 <= k < fs.len() && fs[k].name == n;
    assert(0 <= j < fs.len() && fs[j].name == n);
    if i < j {
        assert(fs[i].name != fs[j].name);
    } else if j < i {
        assert(fs[j].name != fs[i].name);
    }
}

/// Copies an optional string; the copy models identically.
pub fn clone_opt_string(s: &Option<String>) -> (r: Option<String>)
    ensures
        r.deep_view() == s.deep_view(),
{
    match s {
        Some(v) => Some(v.clone()),
        None => None,
    }
}

/// Copies a field; the copy models identically.
pub fn clone_field(f: &Field) -> (r: Field)
    ensures
        r@ == f@,
{
    Field {
        name: f.name.clone(),
        declared_type: f.declared_type.clone(),
        nullable: f.nullable,
        default: clone_opt_string(&f.default),
        is_primary_key: f.is_primary_key,
    }
}

/// Copies a field vector; the copy models identically.
pub fn clone_fields(fs: &Vec<Field>) -> (r: Vec<Field>)
    ensures
        r.deep_view() == fs.deep_view(),
{
    let mut out: Vec<Field> = Vec::new();
    let mut i: usize = 0;
    while i < fs.len()
        invariant
            i <= fs.len(),
            out.len() == i,
            forall|k: int| 0 <= k < i ==> out.deep_view()[k] == fs.deep_view()[k],
        decreases fs.len() - i,
    {
        out.push(clone_field(&fs[i]));
        i = i + 1;
    }
    assert(out.deep_view() =~= fs.deep_view());
    out
}

/// Copies an entity; the copy models identically.
pub fn clone_entity(e: &Entity) -> (r: Entity)
    ensures
        r@ == e@,
{
    Entity { entity_name: e.entity_name.clone(), fields: clone_fields(&e.fields) }
}

/// Copies an entity vector; the copy models identically.
pub fn clone_entities(es: &Vec<Entity>) -> (r: Vec<Entity>)
    ensures
        r.deep_view() == es.deep_view(),
{
    let mut out: Vec<Entity> = Vec::new();
    let mut i: usize = 0;
    while i < es.len()
        invariant
            i <= es.len(),
            out.len() == i,
            forall|k: int| 0 <= k < i ==> out.deep_view()[k] == es.deep_view()[k],
        decreases es.len() - i,
    {
        out.push(clone_entity(&es[i]));
        i = i + 1;
    }
    assert(out.deep_view() =~= es.deep_view());
    out
}

/// Finds the index of the entity with the given name, if any.
pub fn find_entity(es: &Vec<Entity>, name: &String) -> (r: Option<usize>)
    ensures
        match r {
            Some(i) => i < es.len() && es.deep_view()[i as int].name == name@,
            None => !has_entity(es.deep_view(), name@),
        },
{
    let mut i: usize = 0;
    while i < es.len()
        invariant
            i <= es.len(),
            forall|k: int| 0 <= k < i ==> es.deep_view()[k].name != name@,
        decreases es.len() - i,
    {
        if es[i].entity_name == *name {
            return Some(i);
        }
        i = i + 1;
    }
    None
}

/// Finds the index of the field with the given name, if any.
pub fn find_field(fs: &Vec<Field>, name: &String) -> (r: Option<usize>)
    ensures
        match r {
            Some(i) => i < fs.len() && fs.deep_view()[i as int].name == name@,
            None => !has_field(fs.deep_view(), name@),
        },
{
    let mut i: usize = 0;
    while i < fs.len()
        invariant
            i <= fs.len(),
            forall|k: int| 0 <= k < i ==> fs.deep_view()[k].name != name@,
        decreases fs.len() - i,
    {
        if fs[i].name == *name {
            return Some(i);
        }
        i = i + 1;
    }
    None
}

impl Entity {
    /// Builds an entity from its parts. Fails, naming the duplicate, iff two
    /// fields share a name; on success the result models the given parts.
    pub fn new(entity_name: String, fields: Vec<Field>) -> (r: Result<
        Entity,
        crate::errors::AuddNativeError,
    >)
        ensures
            r is Ok <==> fields_unique(fields.deep_view()),
            r matches Ok(e) ==> e@ == (EntityModel {
                name: entity_name@,
                fields: fields.deep_view(),
            }) && entity_wf(e@),
    {
        let mut i: usize = 0;
        while i < fields.len()
            invariant
                i <= fields.len(),
                forall|p: int, q: int|
                    0 <= p < q < i ==> fields.deep_view()[p].name != fields.deep_view()[q].name,
            decreases fields.len() - i,
        {
            let mut j: usize = 0;
            while j < i
                invariant
                    j <= i,
                    i < fields.len(),
                    forall|q: int| 0 <= q < j ==> fields.deep_view()[q].name != fields.deep_view()[i as int].name,
                decreases i - j,
            {
                if fields[j].name == fields[i].name {
                    proof {
                        assert(fields.deep_view()[j as int].name
                            == fields.deep_view()[i as int].name);
                        assert(!fields_unique(fields.deep_view()));
                    }
                    return Result::Err(crate::errors::AuddNativeError::InvalidInput(
                        String::from_str("duplicate field name in entity"),
                    ));
                }
                j = j + 1;
            }
            i = i + 1;
        }
        Result::Ok(Entity { entity_name, fields })
    }
}

impl SchemaIR {
    /// Builds a schema from its parts. Fails iff two entities share a name;
    /// on success the result models the given parts. Each entity is expected
    /// to have been built by [`Entity::new`], which makes it well-formed.
    pub fn new(
        source_name: String,
        source_type: SourceType,
        ir_version: u32,
        entities: Vec<Entity>,
    ) -> (r: Result<SchemaIR, crate::errors::AuddNativeError>)
        requires
            forall|i: int| 0 <= i < entities.deep_view().len() ==> entity_wf(
                #[trigger] entities.deep_view()[i],
            ),
        ensures
            r is Ok <==> entities_unique(entities.deep_view()),
            r matches Ok(s) ==> s@ == (SchemaModel {
                source_name: source_name@,
                source_type,
                ir_version,
                entities: entities.deep_view(),
            }) && schema_wf(s@),
    {
        let mut i: usize = 0;
        while i < entities.len()
            invariant
                i <= entities.len(),
                forall|p: int, q: int|
                    0 <= p < q < i ==> entities.deep_view()[p].name
                        != entities.deep_view()[q].name,
            decreases entities.len() - i,
        {
            let mut j: usize = 0;
            while j < i
                invariant
                    j <= i,
                    i < entities.len(),
                    forall|q: int| 0 <= q < j ==> entities.deep_view()[q].name
                        != entities.deep_view()[i as int].name,
                decreases i - j,
            {
                if entities[j].entity_name == entities[i].entity_name {
                    proof {
                        assert(entities.deep_view()[j as int].name
                            == entities.deep_view()[i as int].name);
                        assert(!entities_unique(entities.deep_view()));
                    }
                    return Result::Err(crate::errors::AuddNativeError::InvalidInput(
                        String::from_str("duplicate entity name in schema"),
                    ));
                }
                j = j + 1;
            }
            i = i + 1;
        }
        Result::Ok(SchemaIR { source_name, source_type, ir_version, entities })
    }
}

/// Parses the textual origin kind used at the boundary.
pub fn parse_source_type(s: &String) -> (r: Result<SourceType, crate::errors::AuddNativeError>)
    ensures
        r matches Ok(t) ==> (t == SourceType::File <==> s@ == "file"@) && (t == SourceType::Db
            <==> s@ == "db"@) && (t == SourceType::Memory <==> s@ == "memory"@),
        r is Err <==> s@ != "file"@ && s@ != "db"@ && s@ != "memory"@,
        r matches Err(e) ==> e matches crate::errors::AuddNativeError::UnsupportedSource(d)
            && d@ == s@,
{
    proof {
        reveal_strlit("file");
        reveal_strlit("db");
        reveal_strlit("memory");
        assert("file"@.len() == 4);
        assert("db"@.len() == 2);
        assert("memory"@.len() == 6);
    }
    if *s == String::from_str("file") {
        Result::Ok(SourceType::File)
    } else if *s == String::from_str("db") {
        Result::Ok(SourceType::Db)
    } else if *s == String::from_str("memory") {
        Result::Ok(SourceType::Memory)
    } else {
        Result::Err(crate::errors::AuddNativeError::UnsupportedSource(s.clone()))
    }
}

} // verus!
