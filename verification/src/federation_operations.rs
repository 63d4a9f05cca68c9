//! The operations that every subgraph offers to a federated gateway: the `_Any` and
//! `_Service` types, the `_Entity` union of its entity types, and the `_entities` and
//! `_service` fields of its query root.
use crate::ast::Directive;
use crate::core_features::{lemma_stepwise_completes, lemma_stepwise_stops, stepwise};
use crate::error::{is_internal_error, FederationError};
use crate::federation_schema::{root_kind_text, FederationSchema};
use crate::federation_spec::FederationSpecDefinitions;
use crate::link::directive_name_in_schema;
use crate::insertion::{field_insertion, root_insertion, type_insertion, type_pre_insertion};
use crate::position::{
    directive_definition, inserted_type_directive, removed_child, root_of, type_field, DirectiveDefinitionPosition, InterfaceTypeDefinitionPosition, ObjectFieldDefinitionPosition,
    ObjectTypeDefinitionPosition, ScalarTypeDefinitionPosition, UnionTypeDefinitionPosition,
    EnumTypeDefinitionPosition, InputObjectTypeDefinitionPosition,
};
use crate::schema::{
    ExtendedType, FieldDefinition, InputValueDefinition, SchemaRootDefinitionKind, SchemaRootDefinitionPosition,
    Type, TypeKind,
};
use vstd::prelude::*;

verus! {

/// A subgraph: its name, its url and its schema.
#[derive(Debug)]
pub struct FederationSubgraph {
    pub name: String,
    pub url: String,
    pub schema: FederationSchema,
}

/// One change to a federation schema.
#[derive(Debug)]
pub enum SchemaOperation {
    /// Make room for the type `name` of the given kind (see [`type_pre_insertion`]).
    PreInsertType(String, TypeKind),
    /// Insert a type (see [`type_insertion`]).
    InsertType(ExtendedType),
    /// Set the root of the given kind to the named type (see [`root_insertion`]).
    InsertRoot(SchemaRootDefinitionKind, String),
    /// Add the field to the object type named first (see [`field_insertion`]).
    InsertObjectField(String, FieldDefinition),
    /// Remove the field named second of the object type named first (see [`removed_child`]).
    RemoveObjectField(String, String),
    /// Apply the directive to the type of the given kind named first (see
    /// [`inserted_type_directive`]).
    InsertTypeDirective(String, TypeKind, Directive),
}

/// Whether `new` is `old` after the operation `op`, `res` the outcome.
#[verifier::opaque]
pub open spec fn operation_effect(
    old: FederationSchema,
    new: FederationSchema,
    op: SchemaOperation,
    res: Result<(), FederationError>,
) -> bool {
    match op {
        SchemaOperation::PreInsertType(n, k) => type_pre_insertion(old, new, n@, k, res),
        SchemaOperation::InsertType(t) => type_insertion(old, new, t, res),
        SchemaOperation::InsertRoot(k, t) => root_insertion(old, new, k, t@, res),
        SchemaOperation::InsertObjectField(t, f) => field_insertion(old, new, t@, f.name@, true, f, res),
        SchemaOperation::RemoveObjectField(t, f) => removed_child(
            old,
            new,
            type_field(old.spec_schema(), t@, f@, true),
            res,
        ),
        SchemaOperation::InsertTypeDirective(t, k, d) => inserted_type_directive(old, new, t@, k, d, res),
    }
}

/// Applies the operation `op` (see [`operation_effect`]).
pub fn apply_operation(schema: &mut FederationSchema, op: SchemaOperation) -> (res: Result<(), FederationError>)
    ensures
        operation_effect(*old(schema), *final(schema), op, res),
{
    reveal(operation_effect);
    match op {
        SchemaOperation::PreInsertType(n, k) => match k {
            TypeKind::Scalar => ScalarTypeDefinitionPosition { name_of_type: n }.pre_insert(schema),
            TypeKind::Object => ObjectTypeDefinitionPosition { name_of_type: n }.pre_insert(schema),
            TypeKind::Interface => InterfaceTypeDefinitionPosition { name_of_type: n }.pre_insert(schema),
            TypeKind::Union => UnionTypeDefinitionPosition { name_of_type: n }.pre_insert(schema),
            TypeKind::Enum => EnumTypeDefinitionPosition { name_of_type: n }.pre_insert(schema),
            TypeKind::InputObject => InputObjectTypeDefinitionPosition { name_of_type: n }.pre_insert(schema),
        },
        SchemaOperation::InsertType(t) => {
            let n = t.name().clone();
            match t.kind() {
                TypeKind::Scalar => ScalarTypeDefinitionPosition { name_of_type: n }.insert(schema, t),
                TypeKind::Object => ObjectTypeDefinitionPosition { name_of_type: n }.insert(schema, t),
                TypeKind::Interface => InterfaceTypeDefinitionPosition { name_of_type: n }.insert(schema, t),
                TypeKind::Union => UnionTypeDefinitionPosition { name_of_type: n }.insert(schema, t),
                TypeKind::Enum => EnumTypeDefinitionPosition { name_of_type: n }.insert(schema, t),
                TypeKind::InputObject => InputObjectTypeDefinitionPosition { name_of_type: n }.insert(schema, t),
            }
        },
        SchemaOperation::InsertRoot(k, t) => SchemaRootDefinitionPosition { root_kind: k }.insert(schema, t),
        SchemaOperation::InsertObjectField(t, f) => {
            let p = ObjectFieldDefinitionPosition { name_of_type: t, field_name: f.name.clone() };
            p.insert(schema, f)
        },
        SchemaOperation::RemoveObjectField(t, f) => ObjectFieldDefinitionPosition { name_of_type: t, field_name: f }.remove(
            schema,
        ),
        SchemaOperation::InsertTypeDirective(n, k, d) => match k {
            TypeKind::Scalar => ScalarTypeDefinitionPosition { name_of_type: n }.insert_directive(schema, d),
            TypeKind::Object => ObjectTypeDefinitionPosition { name_of_type: n }.insert_directive(schema, d),
            TypeKind::Interface => InterfaceTypeDefinitionPosition { name_of_type: n }.insert_directive(schema, d),
            TypeKind::Union => UnionTypeDefinitionPosition { name_of_type: n }.insert_directive(schema, d),
            TypeKind::Enum => EnumTypeDefinitionPosition { name_of_type: n }.insert_directive(schema, d),
            TypeKind::InputObject => InputObjectTypeDefinitionPosition { name_of_type: n }.insert_directive(schema, d),
        },
    }
}

/// The operation `ops[j]`, as a step.
pub open spec fn operation_step(ops: Seq<SchemaOperation>) -> spec_fn(
    FederationSchema,
    FederationSchema,
    int,
    Result<(), FederationError>,
) -> bool {
    |a: FederationSchema, b: FederationSchema, j: int, r: Result<(), FederationError>| operation_effect(a, b, ops[j], r)
}

/// Whether `new` is `old` after the operations `ops` in turn, stopping at the first that
/// fails; `res` the outcome.
pub open spec fn operations_run(
    old: FederationSchema,
    new: FederationSchema,
    ops: Seq<SchemaOperation>,
    res: Result<(), FederationError>,
) -> bool {
    exists|states: Seq<FederationSchema>|
        #![trigger stepwise(states, ops.len() as int, operation_step(ops), res)]
        stepwise(states, ops.len() as int, operation_step(ops), res) && states[0] == old && states.last() == new
}

/// Applies the operations `ops` in turn (see [`operations_run`]).
pub fn apply_operations(schema: &mut FederationSchema, ops: Vec<SchemaOperation>) -> (res: Result<(), FederationError>)
    ensures
        operations_run(*old(schema), *final(schema), ops@, res),
{
    let ghost ov = ops@;
    let count = ops.len();
    assert(ov.len() <= usize::MAX) by {
        assert(ov.len() == count);
    }
    let ghost start = *schema;
    let ghost step = operation_step(ov);
    let ghost mut states: Seq<FederationSchema> = seq![start];
    let mut rest = ops;
    let mut j: usize = 0;
    while rest.len() > 0
        invariant
            j <= ov.len(),
            ov.len() <= usize::MAX,
            ov == ops@,
            rest@ == ov.skip(j as int),
            step == operation_step(ov),
            start == *old(schema),
            states.len() == j + 1,
            states[0] == start,
            states.last() == *schema,
            forall|m: int| #![trigger states[m]] 0 <= m < j ==> step(states[m], states[m + 1], m, Ok(())),
        decreases rest@.len(),
    {
        let op = rest.remove(0);
        let ghost prev = states;
        assert(j < ov.len());
        proof {
            assert(op == ov[j as int]);
        }
        let r = apply_operation(schema, op);
        proof {
            states = states.push(*schema);
            assert(states[j as int] == prev.last());
            assert(states[j + 1] == *schema);
            assert(step(prev.last(), *schema, j as int, r));
            assert forall|m: int| #![trigger states[m]] 0 <= m < j implies step(states[m], states[m + 1], m, Ok(())) by {
                assert(states[m] == prev[m]);
                assert(states[m + 1] == prev[m + 1]);
            }
        }
        match r {
            Ok(u) => {
                proof {
                    assert(r == Ok::<(), FederationError>(()));
                    assert(step(states[j as int], states[j + 1], j as int, Ok(())));
                    assert(rest@ =~= ov.skip(j + 1));
                }
            },
            Err(e) => {
                proof {
                    lemma_stepwise_stops(states, ov.len() as int, step, e);
                    assert(operations_run(start, *schema, ov, Err(e)));
                }
                return Err(e);
            },
        }
        j = j + 1;
    }
    proof {
        assert(j == ov.len());
        lemma_stepwise_completes(states, ov.len() as int, step);
        assert(operations_run(start, *schema, ov, Ok(())));
    }
    Ok(())
}


/// Whether `ds` applies the directive `d`.
pub open spec fn applies(ds: Seq<Directive>, d: Seq<char>) -> bool {
    exists|i: int| 0 <= i < ds.len() && ds[i].name@ == d
}

/// The names of the object types among `ts` that apply the directive `key`, in order.
pub open spec fn keyed_object_types(ts: Seq<ExtendedType>, key: Seq<char>) -> Seq<Seq<char>>
    decreases ts.len(),
{
    if ts.len() == 0 {
        Seq::empty()
    } else {
        let rest = keyed_object_types(ts.drop_last(), key);
        if ts.last() is Object && applies(ts.last().spec_directives(), key) {
            rest.push(ts.last().spec_name())
        } else {
            rest
        }
    }
}

/// Whether `f` is the field `name: ty` without arguments or applications.
pub open spec fn plain_field(f: FieldDefinition, name: Seq<char>, ty: crate::schema::TypeView) -> bool {
    f.name@ == name && f.arguments@.len() == 0 && f.ty@ == ty && f.directives@.len() == 0
}

/// Whether `ops` make room for and insert the scalar type `_Any`, then the object type
/// `_Service { sdl: String }`.
pub open spec fn service_operations(ops: Seq<SchemaOperation>) -> bool {
    &&& ops.len() == 4
    &&& ops[0] matches SchemaOperation::PreInsertType(n, k) && n@ == "_Any"@ && k == TypeKind::Scalar
    &&& ops[1] matches SchemaOperation::InsertType(t) && t matches ExtendedType::Scalar { name, directives }
        && name@ == "_Any"@ && directives@.len() == 0
    &&& ops[2] matches SchemaOperation::PreInsertType(n, k) && n@ == "_Service"@ && k == TypeKind::Object
    &&& ops[3] matches SchemaOperation::InsertType(t) && t matches ExtendedType::Object {
        name,
        implements_interfaces,
        directives,
        fields,
    } && name@ == "_Service"@ && implements_interfaces@.len() == 0 && directives@.len() == 0 && fields@.len() == 1
        && plain_field(fields@[0], "sdl"@, crate::schema::TypeView::Named("String"@))
}

/// Whether `ops` make room for and insert the union type `_Entity` of the members `members`
/// (none where `members` is empty).
pub open spec fn entity_operations(ops: Seq<SchemaOperation>, members: Seq<Seq<char>>) -> bool {
    if members.len() == 0 {
        ops.len() == 0
    } else {
        &&& ops.len() == 2
        &&& ops[0] matches SchemaOperation::PreInsertType(n, k) && n@ == "_Entity"@ && k == TypeKind::Union
        &&& ops[1] matches SchemaOperation::InsertType(t) && t matches ExtendedType::Union { name, directives, members: m }
            && name@ == "_Entity"@ && directives@.len() == 0 && crate::schema::strings_view(m@) == members
    }
}

/// Whether `ops` make room for and insert an empty object type `Query` and make it the
/// query root, where the schema has no query root (none otherwise).
pub open spec fn query_operations(ops: Seq<SchemaOperation>, has_query: bool) -> bool {
    if has_query {
        ops.len() == 0
    } else {
        &&& ops.len() == 3
        &&& ops[0] matches SchemaOperation::PreInsertType(n, k) && n@ == "Query"@ && k == TypeKind::Object
        &&& ops[1] matches SchemaOperation::InsertType(t) && t matches ExtendedType::Object {
            name,
            implements_interfaces,
            directives,
            fields,
        } && name@ == "Query"@ && implements_interfaces@.len() == 0 && directives@.len() == 0 && fields@.len() == 0
        &&& ops[2] matches SchemaOperation::InsertRoot(k, t) && k == SchemaRootDefinitionKind::Query && t@ == "Query"@
    }
}

/// Whether `ops` give the query root type `q` its field `_entities(representations: [_Any!]!):
/// [_Entity]!` where there are entities (else remove that field), then its field `_service:
/// _Service!`.
pub open spec fn root_field_operations(ops: Seq<SchemaOperation>, q: Seq<char>, entities: bool) -> bool {
    &&& ops.len() == 2
    &&& if entities {
        ops[0] matches SchemaOperation::InsertObjectField(t, f) && t@ == q && f.name@ == "_entities"@
            && f.directives@.len() == 0 && f.ty@ == crate::schema::TypeView::NonNullList(
            Box::new(crate::schema::TypeView::Named("_Entity"@)),
        ) && f.arguments@.len() == 1 && f.arguments@[0].name@ == "representations"@ && f.arguments@[0].ty@
            == crate::schema::TypeView::NonNullList(Box::new(crate::schema::TypeView::NonNullNamed("_Any"@)))
            && f.arguments@[0].default_value is None && f.arguments@[0].directives@.len() == 0
    } else {
        ops[0] matches SchemaOperation::RemoveObjectField(t, f) && t@ == q && f@ == "_entities"@
    }
    &&& ops[1] matches SchemaOperation::InsertObjectField(t, f) && t@ == q && plain_field(
        f,
        "_service"@,
        crate::schema::TypeView::NonNullNamed("_Service"@),
    )
}

/// Whether `new` is `old` after adding the federation operations to it, `res` the outcome,
/// where the key directive is named `key` in it: first the `_Any` and `_Service` types (see
/// [`service_operations`]); then, where object types apply the key directive, the `_Entity`
/// union of them (see [`entity_operations`]); then, where there is no query root, an empty
/// `Query` type as the query root (see [`query_operations`]); then the fields `_entities`
/// (removed where there are no entities) and `_service` of the query root type (see
/// [`root_field_operations`]). Each group stops at the first operation that fails, with its
/// error.
pub open spec fn federation_operations_added(
    old: FederationSchema,
    new: FederationSchema,
    key: Seq<char>,
    res: Result<(), FederationError>,
) -> bool {
    exists|ops: Seq<SchemaOperation>, s1: FederationSchema, r1: Result<(), FederationError>|
        #![trigger operations_run(old, s1, ops, r1)]
        service_operations(ops) && operations_run(old, s1, ops, r1) && match r1 {
            Err(e) => res == Err::<(), FederationError>(e) && new == s1,
            Ok(()) => entities_added(s1, new, keyed_object_types(s1.spec_schema().types@, key), res),
        }
}

/// The steps of [`federation_operations_added`] from the `_Entity` union on.
pub open spec fn entities_added(
    s1: FederationSchema,
    new: FederationSchema,
    members: Seq<Seq<char>>,
    res: Result<(), FederationError>,
) -> bool {
    exists|ops: Seq<SchemaOperation>, s2: FederationSchema, r2: Result<(), FederationError>|
        #![trigger operations_run(s1, s2, ops, r2)]
        entity_operations(ops, members) && operations_run(s1, s2, ops, r2) && match r2 {
            Err(e) => res == Err::<(), FederationError>(e) && new == s2,
            Ok(()) => query_added(s2, new, members.len() > 0, res),
        }
}

/// The message for a schema without a query root.
pub open spec fn no_query_root_message() -> Seq<char> {
    "Schema definition has no root "@ + root_kind_text(SchemaRootDefinitionKind::Query) + " type"@
}

/// The steps of [`federation_operations_added`] from the query root on.
pub open spec fn query_added(
    s2: FederationSchema,
    new: FederationSchema,
    entities: bool,
    res: Result<(), FederationError>,
) -> bool {
    exists|ops: Seq<SchemaOperation>, s3: FederationSchema, r3: Result<(), FederationError>|
        #![trigger operations_run(s2, s3, ops, r3)]
        query_operations(ops, root_of(s2.spec_schema(), SchemaRootDefinitionKind::Query) is Some) && operations_run(
            s2,
            s3,
            ops,
            r3,
        ) && match r3 {
            Err(e) => res == Err::<(), FederationError>(e) && new == s3,
            Ok(()) => match root_of(s3.spec_schema(), SchemaRootDefinitionKind::Query) {
                None => res matches Err(e) && is_internal_error(e, no_query_root_message()) && new == s3,
                Some(q) => root_fields_added(s3, new, q@, entities, res),
            },
        }
}

/// The last step of [`federation_operations_added`].
pub open spec fn root_fields_added(
    s3: FederationSchema,
    new: FederationSchema,
    q: Seq<char>,
    entities: bool,
    res: Result<(), FederationError>,
) -> bool {
    exists|ops: Seq<SchemaOperation>|
        #![trigger operations_run(s3, new, ops, res)]
        root_field_operations(ops, q, entities) && operations_run(s3, new, ops, res)
}

fn keyed_object_types_of(schema: &crate::schema::Schema, key: &String) -> (res: Vec<String>)
    ensures
        crate::schema::strings_view(res@) == keyed_object_types(schema.types@, key@),
{
    let ts = &schema.types;
    let mut out: Vec<String> = Vec::new();
    let mut i: usize = 0;
    proof {
        assert(ts@.take(0) =~= Seq::<ExtendedType>::empty());
        assert(crate::schema::strings_view(out@) =~= Seq::<Seq<char>>::empty());
    }
    while i < ts.len()
        invariant
            i <= ts@.len(),
            crate::schema::strings_view(out@) == keyed_object_types(ts@.take(i as int), key@),
        decreases ts@.len() - i,
    {
        proof {
            assert(ts@.take(i + 1).drop_last() =~= ts@.take(i as int));
            assert(ts@.take(i + 1).last() == ts@[i as int]);
        }
        let t = &ts[i];
        let keyed = match t {
            ExtendedType::Object { directives, .. } => {
                let mut found = false;
                let mut j: usize = 0;
                while j < directives.len()
                    invariant
                        j <= directives@.len(),
                        found <==> exists|m: int| 0 <= m < j && directives@[m].name@ == key@,
                    decreases directives@.len() - j,
                {
                    if directives[j].name == *key {
                        found = true;
                    }
                    j = j + 1;
                }
                found
            },
            _ => false,
        };
        proof {
            assert(keyed == (*t is Object && applies(t.spec_directives(), key@)));
        }
        if keyed {
            let ghost before = out@;
            out.push(t.name().clone());
            proof {
                assert(crate::schema::strings_view(out@) =~= crate::schema::strings_view(before).push(t.spec_name()));
            }
        }
        i = i + 1;
    }
    proof {
        assert(ts@.take(ts@.len() as int) =~= ts@);
    }
    out
}

fn empty_field(name: &str, ty: Type) -> (res: FieldDefinition)
    ensures
        res.name@ == name@,
        res.arguments@.len() == 0,
        res.ty == ty,
        res.directives@.len() == 0,
{
    FieldDefinition { name: String::from_str(name), arguments: Vec::new(), ty, directives: Vec::new() }
}

/// Adds to the schema of `subgraph` the types and fields that federation asks of every
/// subgraph, the key directive being named `key_directive_name` in it (see
/// [`federation_operations_added`]).
#[verifier::rlimit(40)]
pub fn add_federation_operations_with_key(subgraph: &mut FederationSubgraph, key_directive_name: &String) -> (res: Result<(), FederationError>)
    ensures
        federation_operations_added(old(subgraph).schema, final(subgraph).schema, key_directive_name@, res),
        final(subgraph).name == old(subgraph).name,
        final(subgraph).url == old(subgraph).url,
{
    proof {
        reveal_strlit("_Any");
        reveal_strlit("_Service");
        reveal_strlit("sdl");
        reveal_strlit("String");
        reveal_strlit("_Entity");
        reveal_strlit("Query");
        reveal_strlit("_entities");
        reveal_strlit("representations");
        reveal_strlit("_service");
    }
    let schema = &mut subgraph.schema;
    let ghost s0 = *schema;
    let service = ExtendedType::Object {
        name: String::from_str("_Service"),
        implements_interfaces: Vec::new(),
        directives: Vec::new(),
        fields: vec![empty_field("sdl", Type::Named(String::from_str("String")))],
    };
    let ops1 = vec![
        SchemaOperation::PreInsertType(String::from_str("_Any"), TypeKind::Scalar),
        SchemaOperation::InsertType(ExtendedType::Scalar { name: String::from_str("_Any"), directives: Vec::new() }),
        SchemaOperation::PreInsertType(String::from_str("_Service"), TypeKind::Object),
        SchemaOperation::InsertType(service),
    ];
    let ghost o1 = ops1@;
    assert(service_operations(o1));
    let r1 = apply_operations(schema, ops1);
    let ghost s1 = *schema;
    match r1 {
        Ok(()) => {},
        Err(e) => {
            assert(operations_run(s0, s1, o1, r1));
            return Err(e);
        },
    }
    let members = keyed_object_types_of(schema.schema(), key_directive_name);
    let entities = members.len() > 0;
    let ghost mv = crate::schema::strings_view(members@);
    let ops2 = if entities {
        vec![
            SchemaOperation::PreInsertType(String::from_str("_Entity"), TypeKind::Union),
            SchemaOperation::InsertType(
                ExtendedType::Union { name: String::from_str("_Entity"), directives: Vec::new(), members },
            ),
        ]
    } else {
        Vec::new()
    };
    let ghost o2 = ops2@;
    assert(entity_operations(o2, mv));
    let r2 = apply_operations(schema, ops2);
    let ghost s2 = *schema;
    match r2 {
        Ok(()) => {},
        Err(e) => {
            assert(operations_run(s1, s2, o2, r2));
            assert(entities_added(s1, s2, mv, Err(e)));
            assert(operations_run(s0, s1, o1, r1));
            return Err(e);
        },
    }
    let query_root = SchemaRootDefinitionPosition { root_kind: SchemaRootDefinitionKind::Query };
    let has_query = query_root.try_get(schema.schema()).is_some();
    let ops3 = if has_query {
        Vec::new()
    } else {
        vec![
            SchemaOperation::PreInsertType(String::from_str("Query"), TypeKind::Object),
            SchemaOperation::InsertType(
                ExtendedType::Object {
                    name: String::from_str("Query"),
                    implements_interfaces: Vec::new(),
                    directives: Vec::new(),
                    fields: Vec::new(),
                },
            ),
            SchemaOperation::InsertRoot(SchemaRootDefinitionKind::Query, String::from_str("Query")),
        ]
    };
    let ghost o3 = ops3@;
    assert(query_operations(o3, has_query));
    let r3 = apply_operations(schema, ops3);
    let ghost s3 = *schema;
    match r3 {
        Ok(()) => {},
        Err(e) => {
            assert(operations_run(s2, s3, o3, r3));
            assert(query_added(s2, s3, entities, Err(e)));
            assert(operations_run(s1, s2, o2, r2));
            assert(entities_added(s1, s3, mv, Err(e)));
            assert(operations_run(s0, s1, o1, r1));
            return Err(e);
        },
    }
    let q = match query_root.get(schema.schema()) {
        Ok(q) => q.clone(),
        Err(e) => {
            assert(operations_run(s2, s3, o3, r3));
            assert(query_added(s2, s3, entities, Err(e)));
            assert(operations_run(s1, s2, o2, r2));
            assert(entities_added(s1, s3, mv, Err(e)));
            assert(operations_run(s0, s1, o1, r1));
            return Err(e);
        },
    };
    let first = if entities {
        let representations = InputValueDefinition {
            name: String::from_str("representations"),
            ty: Type::NonNullList(Box::new(Type::NonNullNamed(String::from_str("_Any")))),
            default_value: None,
            directives: Vec::new(),
        };
        SchemaOperation::InsertObjectField(
            q.clone(),
            FieldDefinition {
                name: String::from_str("_entities"),
                arguments: vec![representations],
                ty: Type::NonNullList(Box::new(Type::Named(String::from_str("_Entity")))),
                directives: Vec::new(),
            },
        )
    } else {
        SchemaOperation::RemoveObjectField(q.clone(), String::from_str("_entities"))
    };
    let ops4 = vec![
        first,
        SchemaOperation::InsertObjectField(q, empty_field("_service", Type::NonNullNamed(String::from_str("_Service")))),
    ];
    let ghost o4 = ops4@;
    proof {
        reveal_with_fuel(crate::schema::type_view, 3);
    }
    assert(root_field_operations(o4, root_of(s3.spec_schema(), SchemaRootDefinitionKind::Query)->Some_0@, entities));
    let r4 = apply_operations(schema, ops4);
    proof {
        assert(operations_run(s3, *schema, o4, r4));
        assert(root_fields_added(s3, *schema, root_of(s3.spec_schema(), SchemaRootDefinitionKind::Query)->Some_0@, entities, r4));
        assert(operations_run(s2, s3, o3, r3));
        assert(query_added(s2, *schema, entities, r4));
        assert(operations_run(s1, s2, o2, r2));
        assert(entities_added(s1, *schema, mv, r4));
        assert(operations_run(s0, s1, o1, r1));
    }
    r4
}
/// Adds to the schema of `subgraph` the types and fields that federation asks of every
/// subgraph (see [`federation_operations_added`]), the entities being the object types that
/// apply the key directive of the federation specification `federation`, under the name its
/// link gives it. The schema must define that directive: where it does not, the error of
/// looking its definition up comes back and nothing changes.
pub fn add_federation_operations(subgraph: &mut FederationSubgraph, federation: &FederationSpecDefinitions) -> (res: Result<(), FederationError>)
    ensures
        ({
            let key = directive_name_in_schema(federation.link, "key"@);
            match directive_definition(old(subgraph).schema.spec_schema(), key) {
                Err(m) => res matches Err(e) && is_internal_error(e, m) && *final(subgraph) == *old(subgraph),
                Ok(_) => federation_operations_added(old(subgraph).schema, final(subgraph).schema, key, res)
                    && final(subgraph).name == old(subgraph).name && final(subgraph).url == old(subgraph).url,
            }
        }),
{
    let key = federation.namespaced_type_name("key", true);
    let position = DirectiveDefinitionPosition { directive_name: key };
    match position.get(subgraph.schema.schema()) {
        Err(e) => Err(e),
        Ok(_) => add_federation_operations_with_key(subgraph, &position.directive_name),
    }
}

} // verus!
