use apollo_federation::ast::Directive;
use apollo_federation::error::{FederationError, SingleFederationError};
use apollo_federation::federation_schema::{FederationSchema, Location};
use apollo_federation::position::{
    DirectiveArgumentDefinitionPosition, DirectiveDefinitionPosition, EnumTypeDefinitionPosition,
    EnumValueDefinitionPosition, InputObjectFieldDefinitionPosition, InputObjectTypeDefinitionPosition,
    InterfaceFieldArgumentDefinitionPosition, InterfaceFieldDefinitionPosition, InterfaceTypeDefinitionPosition,
    ObjectFieldArgumentDefinitionPosition, ObjectFieldDefinitionPosition, ObjectTypeDefinitionPosition,
    ScalarTypeDefinitionPosition, UnionTypeDefinitionPosition,
};
use apollo_federation::schema::{
    DirectiveDefinition, EnumValueDefinition, ExtendedType, FieldDefinition, InputValueDefinition, Schema,
    SchemaDefinition, SchemaRootDefinitionKind, SchemaRootDefinitionPosition, Type,
};

fn s(text: &str) -> String {
    text.to_string()
}

fn applied(name: &str) -> Directive {
    Directive { name: s(name), arguments: vec![] }
}

fn input(name: &str, ty: &str) -> InputValueDefinition {
    InputValueDefinition { name: s(name), ty: Type::Named(s(ty)), default_value: None, directives: vec![] }
}

fn field(name: &str, ty: &str, arguments: Vec<InputValueDefinition>) -> FieldDefinition {
    FieldDefinition { name: s(name), arguments, ty: Type::Named(s(ty)), directives: vec![] }
}

/// type Query { t(id: ID): T }  interface Node { id(x: ID): ID }  union U = Query  enum E { A }
/// input In { f: ID }  scalar ID  directive @tag(on: ID)
fn schema() -> Schema {
    Schema {
        schema_definition: SchemaDefinition { directives: vec![], query: Some(s("Query")), mutation: None, subscription: None },
        types: vec![
            ExtendedType::Scalar { name: s("ID"), directives: vec![] },
            ExtendedType::Object {
                name: s("Query"),
                implements_interfaces: vec![],
                directives: vec![applied("tag")],
                fields: vec![field("t", "ID", vec![input("id", "ID")])],
            },
            ExtendedType::Interface {
                name: s("Node"),
                implements_interfaces: vec![],
                directives: vec![],
                fields: vec![field("id", "ID", vec![input("x", "ID")])],
            },
            ExtendedType::Union { name: s("U"), directives: vec![], members: vec![s("Query")] },
            ExtendedType::Enum {
                name: s("E"),
                directives: vec![],
                values: vec![EnumValueDefinition { value: s("A"), directives: vec![] }],
            },
            ExtendedType::InputObject { name: s("In"), directives: vec![], input_fields: vec![input("f", "ID")] },
        ],
        directive_definitions: vec![DirectiveDefinition {
            name: s("tag"),
            arguments: vec![input("on", "ID")],
            repeatable: true,
            locations: vec![s("OBJECT")],
        }],
    }
}

fn message(e: FederationError) -> String {
    match e {
        FederationError::SingleFederationError(SingleFederationError::Internal { message }) => message,
        other => panic!("expected an internal error, got {:?}", other),
    }
}

#[test]
fn types_by_kind() {
    let schema = schema();
    assert_eq!(ScalarTypeDefinitionPosition { name_of_type: s("ID") }.get(&schema).unwrap().name(), "ID");
    assert!(ObjectTypeDefinitionPosition { name_of_type: s("Query") }.try_get(&schema).is_some());
    assert!(InterfaceTypeDefinitionPosition { name_of_type: s("Node") }.get(&schema).is_ok());
    assert!(UnionTypeDefinitionPosition { name_of_type: s("U") }.get(&schema).is_ok());
    assert!(EnumTypeDefinitionPosition { name_of_type: s("E") }.get(&schema).is_ok());
    assert!(InputObjectTypeDefinitionPosition { name_of_type: s("In") }.get(&schema).is_ok());
    assert_eq!(
        message(ObjectTypeDefinitionPosition { name_of_type: s("Missing") }.get(&schema).unwrap_err()),
        "Schema has no type \"Missing\""
    );
    assert_eq!(
        message(ObjectTypeDefinitionPosition { name_of_type: s("ID") }.get(&schema).unwrap_err()),
        "Schema type \"ID\" was not an object"
    );
    assert_eq!(
        message(UnionTypeDefinitionPosition { name_of_type: s("E") }.get(&schema).unwrap_err()),
        "Schema type \"E\" was not an union"
    );
    assert!(ScalarTypeDefinitionPosition { name_of_type: s("Query") }.try_get(&schema).is_none());
}

#[test]
fn fields_arguments_and_values() {
    let schema = schema();
    let query = ObjectTypeDefinitionPosition { name_of_type: s("Query") };
    assert_eq!(query.field(s("t")).get(&schema).unwrap().name, "t");
    assert_eq!(
        message(query.field(s("u")).get(&schema).unwrap_err()),
        "Object type \"Query\" has no field \"u\""
    );
    assert_eq!(query.field(s("t")).parent(), query);
    let node_id = InterfaceFieldDefinitionPosition { name_of_type: s("Node"), field_name: s("id") };
    assert!(node_id.try_get(&schema).is_some());
    assert_eq!(
        message(InterfaceFieldDefinitionPosition { name_of_type: s("Query"), field_name: s("t") }.get(&schema).unwrap_err()),
        "Schema type \"Query\" was not an interface"
    );
    let arg = ObjectFieldArgumentDefinitionPosition { name_of_type: s("Query"), field_name: s("t"), argument_name: s("id") };
    assert_eq!(arg.get(&schema).unwrap().name, "id");
    assert_eq!(arg.parent(), query.field(s("t")));
    assert_eq!(
        message(
            ObjectFieldArgumentDefinitionPosition { name_of_type: s("Query"), field_name: s("t"), argument_name: s("z") }
                .get(&schema)
                .unwrap_err()
        ),
        "Object field \"Query.t\" has no argument \"z\""
    );
    let iarg = InterfaceFieldArgumentDefinitionPosition { name_of_type: s("Node"), field_name: s("id"), argument_name: s("y") };
    assert_eq!(message(iarg.get(&schema).unwrap_err()), "Interface field \"Node.id\" has no argument \"y\"");
    assert!(iarg.try_get(&schema).is_none());
    let value = EnumTypeDefinitionPosition { name_of_type: s("E") }.value(s("A"));
    assert_eq!(value.get(&schema).unwrap().value, "A");
    assert_eq!(
        message(EnumValueDefinitionPosition { name_of_type: s("E"), value_name: s("B") }.get(&schema).unwrap_err()),
        "Enum type \"E\" has no value \"B\""
    );
    let input_field = InputObjectTypeDefinitionPosition { name_of_type: s("In") }.field(s("f"));
    assert_eq!(input_field.get(&schema).unwrap().name, "f");
    assert_eq!(
        message(InputObjectFieldDefinitionPosition { name_of_type: s("In"), field_name: s("g") }.get(&schema).unwrap_err()),
        "Input object type \"In\" has no field \"g\""
    );
}

#[test]
fn directives_and_roots() {
    let schema = schema();
    let tag = DirectiveDefinitionPosition { directive_name: s("tag") };
    assert!(tag.get(&schema).unwrap().repeatable);
    assert_eq!(
        message(DirectiveDefinitionPosition { directive_name: s("key") }.get(&schema).unwrap_err()),
        "Schema has no directive \"@key\""
    );
    assert_eq!(tag.argument(s("on")).get(&schema).unwrap().name, "on");
    assert_eq!(
        message(DirectiveArgumentDefinitionPosition { directive_name: s("tag"), argument_name: s("x") }.get(&schema).unwrap_err()),
        "Directive \"@tag\" has no argument \"x\""
    );
    let query = SchemaRootDefinitionPosition { root_kind: SchemaRootDefinitionKind::Query };
    assert_eq!(query.get(&schema).unwrap(), "Query");
    let mutation = SchemaRootDefinitionPosition { root_kind: SchemaRootDefinitionKind::Mutation };
    assert_eq!(message(mutation.get(&schema).unwrap_err()), "Schema definition has no root mutation type");
    assert!(mutation.try_get(&schema).is_none());
}

fn tag_referencers(schema: &FederationSchema) -> Vec<&Location> {
    schema.referencers().directives[0].referencers.iter().collect()
}

#[test]
fn inserting_and_removing_directives_on_types() {
    let mut schema = FederationSchema::new(schema(), None).unwrap();
    assert_eq!(tag_referencers(&schema), vec![&Location::ObjectType(s("Query"))]);
    let e = EnumTypeDefinitionPosition { name_of_type: s("E") };
    e.insert_directive(&mut schema, applied("tag")).unwrap();
    assert_eq!(schema.schema().types[4].directives(), &vec![applied("tag")]);
    assert_eq!(tag_referencers(&schema), vec![&Location::ObjectType(s("Query")), &Location::EnumType(s("E"))]);
    assert_eq!(
        message(e.insert_directive(&mut schema, applied("key")).unwrap_err()),
        "Enum type \"E\"'s directive application \"@key\" does not refer to an existing directive."
    );
    assert_eq!(
        message(ObjectTypeDefinitionPosition { name_of_type: s("E") }.insert_directive(&mut schema, applied("tag")).unwrap_err()),
        "Schema type \"E\" was not an object"
    );
    // Removing the application again gives back the referencers (and the type's applications).
    e.remove_directive_name(&mut schema, &s("tag"));
    assert!(schema.schema().types[4].directives().is_empty());
    assert_eq!(tag_referencers(&schema), vec![&Location::ObjectType(s("Query"))]);
    let query = ObjectTypeDefinitionPosition { name_of_type: s("Query") };
    query.remove_directive_name(&mut schema, &s("tag"));
    assert!(schema.schema().types[1].directives().is_empty());
    assert!(tag_referencers(&schema).is_empty());
    // Positions of missing types leave the schema as it is.
    ScalarTypeDefinitionPosition { name_of_type: s("Nope") }.remove_directive_name(&mut schema, &s("tag"));
    assert_eq!(schema.schema().types.len(), 6);
}

#[test]
fn inserting_and_removing_directives_on_fields_and_values() {
    let mut schema = FederationSchema::new(schema(), None).unwrap();
    let t = ObjectFieldDefinitionPosition { name_of_type: s("Query"), field_name: s("t") };
    t.insert_directive(&mut schema, applied("tag")).unwrap();
    assert_eq!(t.get(schema.schema()).unwrap().directives, vec![applied("tag")]);
    assert_eq!(
        tag_referencers(&schema),
        vec![&Location::ObjectType(s("Query")), &Location::ObjectField(s("Query"), s("t"))]
    );
    assert_eq!(
        message(
            ObjectFieldDefinitionPosition { name_of_type: s("Query"), field_name: s("u") }
                .insert_directive(&mut schema, applied("tag"))
                .unwrap_err()
        ),
        "Object type \"Query\" has no field \"u\""
    );
    let id = InterfaceFieldDefinitionPosition { name_of_type: s("Node"), field_name: s("id") };
    assert_eq!(
        message(id.insert_directive(&mut schema, applied("key")).unwrap_err()),
        "Interface field \"Node.id\"'s directive application \"@key\" does not refer to an existing directive."
    );
    id.insert_directive(&mut schema, applied("tag")).unwrap();
    let f = InputObjectFieldDefinitionPosition { name_of_type: s("In"), field_name: s("f") };
    f.insert_directive(&mut schema, applied("tag")).unwrap();
    let a = EnumValueDefinitionPosition { name_of_type: s("E"), value_name: s("A") };
    a.insert_directive(&mut schema, applied("tag")).unwrap();
    a.insert_directive(&mut schema, applied("tag")).unwrap();
    assert_eq!(a.get(schema.schema()).unwrap().directives.len(), 2);
    assert_eq!(tag_referencers(&schema).len(), 5);
    t.remove_directive_name(&mut schema, &s("tag"));
    id.remove_directive_name(&mut schema, &s("tag"));
    f.remove_directive_name(&mut schema, &s("tag"));
    a.remove_directive_name(&mut schema, &s("tag"));
    assert!(a.get(schema.schema()).unwrap().directives.is_empty());
    assert!(f.get(schema.schema()).unwrap().directives.is_empty());
    assert_eq!(tag_referencers(&schema), vec![&Location::ObjectType(s("Query"))]);
}
