use apollo_federation::ast::Directive;
use apollo_federation::error::{FederationError, SingleFederationError};
use apollo_federation::federation_schema::{collect_checks, FederationSchema, Location, Referencers};
use apollo_federation::schema::{
    DirectiveDefinition, EnumValueDefinition, ExtendedType, FieldDefinition, InputValueDefinition, Schema,
    SchemaDefinition, SchemaRootDefinitionKind, Type, TypeKind,
};

fn s(text: &str) -> String {
    text.to_string()
}

fn applied(name: &str) -> Directive {
    Directive { name: s(name), arguments: vec![] }
}

fn input(name: &str, ty: &str, directives: Vec<Directive>) -> InputValueDefinition {
    InputValueDefinition { name: s(name), ty: Type::Named(s(ty)), default_value: None, directives }
}

fn field(name: &str, ty: &str, arguments: Vec<InputValueDefinition>, directives: Vec<Directive>) -> FieldDefinition {
    FieldDefinition { name: s(name), arguments, ty: Type::List(Box::new(Type::NonNullNamed(s(ty)))), directives }
}

fn object(name: &str, implements: Vec<&str>, directives: Vec<Directive>, fields: Vec<FieldDefinition>) -> ExtendedType {
    ExtendedType::Object {
        name: s(name),
        implements_interfaces: implements.into_iter().map(s).collect(),
        directives,
        fields,
    }
}

fn definition(name: &str, arguments: Vec<InputValueDefinition>) -> DirectiveDefinition {
    DirectiveDefinition { name: s(name), arguments, repeatable: false, locations: vec![s("FIELD_DEFINITION")] }
}

fn scalar(name: &str) -> ExtendedType {
    ExtendedType::Scalar { name: s(name), directives: vec![] }
}

/// type Query implements Node @key { node(id: ID @tag): Node @tag  color: Color }
/// interface Node { id: ID }
/// union Result = Query
/// enum Color { RED @tag }
/// input Filter { color: Color @tag }
/// directive @key  directive @tag(on: Filter)
fn example_schema() -> Schema {
    Schema {
        schema_definition: SchemaDefinition {
            directives: vec![applied("key")],
            query: Some(s("Query")),
            mutation: None,
            subscription: None,
        },
        types: vec![
            scalar("ID"),
            object(
                "Query",
                vec!["Node"],
                vec![applied("key")],
                vec![
                    field("node", "Node", vec![input("id", "ID", vec![applied("tag")])], vec![applied("tag")]),
                    field("color", "Color", vec![], vec![]),
                ],
            ),
            ExtendedType::Interface {
                name: s("Node"),
                implements_interfaces: vec![],
                directives: vec![],
                fields: vec![field("id", "ID", vec![], vec![])],
            },
            ExtendedType::Union { name: s("Result"), directives: vec![], members: vec![s("Query")] },
            ExtendedType::Enum {
                name: s("Color"),
                directives: vec![],
                values: vec![EnumValueDefinition { value: s("RED"), directives: vec![applied("tag")] }],
            },
            ExtendedType::InputObject {
                name: s("Filter"),
                directives: vec![],
                input_fields: vec![input("color", "Color", vec![applied("tag")])],
            },
        ],
        directive_definitions: vec![definition("key", vec![]), definition("tag", vec![input("on", "Filter", vec![])])],
    }
}

fn type_referencers<'a>(r: &'a Referencers, name: &str) -> (TypeKind, Vec<String>) {
    let entry = r.types.iter().find(|t| t.name == name).unwrap();
    (entry.kind, entry.referencers.iter().map(|l| l.to_text()).collect())
}

fn directive_referencers<'a>(r: &'a Referencers, name: &str) -> Vec<&'a Location> {
    r.directives.iter().find(|d| d.name == name).unwrap().referencers.iter().collect()
}

fn internal_message(result: Result<FederationSchema, FederationError>) -> String {
    match result {
        Err(FederationError::SingleFederationError(SingleFederationError::Internal { message })) => message,
        Err(other) => panic!("expected an internal error, got {:?}", other),
        Ok(_) => panic!("the schema was accepted"),
    }
}

#[test]
fn referencers_of_types() {
    let schema = FederationSchema::new(example_schema(), None).unwrap();
    let r = schema.referencers();
    assert_eq!(r.types.len(), 6);
    assert_eq!(type_referencers(r, "ID"), (TypeKind::Scalar, vec![s("Query.node(id:)"), s("Node.id")]));
    assert_eq!(type_referencers(r, "Query"), (TypeKind::Object, vec![s("query"), s("Result")]));
    assert_eq!(type_referencers(r, "Node"), (TypeKind::Interface, vec![s("Query"), s("Query.node")]));
    assert_eq!(type_referencers(r, "Color"), (TypeKind::Enum, vec![s("Query.color"), s("Filter.color")]));
    assert_eq!(type_referencers(r, "Filter"), (TypeKind::InputObject, vec![s("@tag(on:)")]));
    assert_eq!(type_referencers(r, "Result"), (TypeKind::Union, vec![]));
    assert_eq!(schema.schema().types.len(), 6);
    assert!(schema.metadata().is_none());
}

#[test]
fn referencers_of_directives() {
    let schema = FederationSchema::new(example_schema(), None).unwrap();
    let r = schema.referencers();
    let key = directive_referencers(r, "key");
    assert_eq!(key, vec![&Location::SchemaDefinition, &Location::ObjectType(s("Query"))]);
    let tag = directive_referencers(r, "tag");
    assert_eq!(
        tag,
        vec![
            &Location::ObjectField(s("Query"), s("node")),
            &Location::ObjectFieldArgument(s("Query"), s("node"), s("id")),
            &Location::EnumValue(s("Color"), s("RED")),
            &Location::InputObjectField(s("Filter"), s("color")),
        ]
    );
}

#[test]
fn a_location_is_recorded_once() {
    let mut schema = example_schema();
    schema.schema_definition.directives.push(applied("key"));
    let schema = FederationSchema::new(schema, None).unwrap();
    assert_eq!(directive_referencers(schema.referencers(), "key").len(), 2);
}

#[test]
fn checks_come_in_schema_order() {
    let checks = collect_checks(&example_schema());
    // The schema definition's `@key` and root, then the types, then the argument of `@tag`.
    assert_eq!(checks.len(), 2 + 15 + 1);
}

#[test]
fn undefined_directive_is_an_error() {
    let mut schema = example_schema();
    schema.directive_definitions.remove(1);
    assert_eq!(
        internal_message(FederationSchema::new(schema, None)),
        "Object field \"Query.node\"'s directive application \"@tag\" does not refer to an existing directive."
    );
    let mut schema = example_schema();
    schema.directive_definitions.remove(0);
    assert_eq!(
        internal_message(FederationSchema::new(schema, None)),
        "Schema definition's directive application \"@key\" does not refer to an existing directive."
    );
}

#[test]
fn type_references_must_fit() {
    let mut schema = example_schema();
    schema.types.remove(0);
    assert_eq!(
        internal_message(FederationSchema::new(schema, None)),
        "Object field argument \"Query.node(id:)\"'s inner type \"ID\" does not refer to an existing input type."
    );
    let mut schema = example_schema();
    schema.types.push(object("Bad", vec![], vec![], vec![field("f", "Filter", vec![], vec![])]));
    assert_eq!(
        internal_message(FederationSchema::new(schema, None)),
        "Object field \"Bad.f\"'s inner type \"Filter\" does not refer to an existing output type."
    );
    let mut schema = example_schema();
    schema.types.push(object("Bad", vec!["Query"], vec![], vec![]));
    assert_eq!(
        internal_message(FederationSchema::new(schema, None)),
        "Object type \"Bad\"'s implements \"Query\" does not refer to an existing interface."
    );
    let mut schema = example_schema();
    schema.types.push(ExtendedType::Union { name: s("U"), directives: vec![], members: vec![s("Node")] });
    assert_eq!(
        internal_message(FederationSchema::new(schema, None)),
        "Union type \"U\"'s member \"Node\" does not refer to an existing object."
    );
    let mut schema = example_schema();
    schema.schema_definition.mutation = Some(s("Color"));
    assert_eq!(
        internal_message(FederationSchema::new(schema, None)),
        "Root mutation type \"Color\" does not refer to an existing object type."
    );
    let mut schema = example_schema();
    schema.directive_definitions.push(definition("d", vec![input("x", "Query", vec![])]));
    assert_eq!(
        internal_message(FederationSchema::new(schema, None)),
        "Directive argument \"@d(x:)\"'s inner type \"Query\" does not refer to an existing input type."
    );
}

#[test]
fn arguments_must_have_distinct_names() {
    let mut schema = example_schema();
    schema.types.push(object(
        "Twice",
        vec![],
        vec![],
        vec![field("f", "ID", vec![input("a", "ID", vec![]), input("b", "ID", vec![]), input("b", "ID", vec![])], vec![])],
    ));
    assert_eq!(
        internal_message(FederationSchema::new(schema, None)),
        "Argument \"b\" is duplicated on schema element"
    );
}

#[test]
fn locations_as_text() {
    assert_eq!(Location::SchemaRoot(SchemaRootDefinitionKind::Subscription).to_text(), "subscription");
    assert_eq!(Location::InterfaceFieldArgument(s("I"), s("f"), s("a")).to_text(), "I.f(a:)");
    assert_eq!(Location::DirectiveArgument(s("d"), s("a")).to_text(), "@d(a:)");
    assert_eq!(Location::EnumValue(s("E"), s("V")).label(), "Enum value");
}
