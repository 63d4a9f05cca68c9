use apollo_federation::ast::Directive;
use apollo_federation::error::{FederationError, SingleFederationError};
use apollo_federation::federation_schema::{FederationSchema, Location};
use apollo_federation::position::{
    DirectiveArgumentDefinitionPosition, DirectiveDefinitionPosition, EnumTypeDefinitionPosition,
    EnumValueDefinitionPosition, InputObjectFieldDefinitionPosition, InputObjectTypeDefinitionPosition,
    InterfaceFieldArgumentDefinitionPosition, InterfaceFieldDefinitionPosition, ObjectFieldArgumentDefinitionPosition,
    ObjectFieldDefinitionPosition, ObjectTypeDefinitionPosition, ScalarTypeDefinitionPosition,
    UnionTypeDefinitionPosition,
};
use apollo_federation::schema::{
    DirectiveDefinition, EnumValueDefinition, ExtendedType, FieldDefinition, InputValueDefinition, Schema,
    SchemaDefinition, SchemaRootDefinitionKind, SchemaRootDefinitionPosition, Type,
};

fn s(text: &str) -> String {
    text.to_string()
}

fn applied(name: &str) -> Directive {
    Directive { name: s(name), arguments: vec![] }
}

fn input(name: &str, ty: &str) -> InputValueDefinition {
    InputValueDefinition { name: s(name), ty: Type::Named(s(ty)), default_value: None, directives: vec![] }
}

fn field(name: &str, ty: &str) -> FieldDefinition {
    FieldDefinition { name: s(name), arguments: vec![], ty: Type::Named(s(ty)), directives: vec![] }
}

fn message(e: FederationError) -> String {
    match e {
        FederationError::SingleFederationError(SingleFederationError::Internal { message }) => message,
        other => panic!("expected an internal error, got {:?}", other),
    }
}

/// scalar String  type Query { a: String }  interface Node { id: String }  enum E { A }
/// input In { f: String }  directive @tag(name: String)
fn schema() -> FederationSchema {
    FederationSchema::new(
        Schema {
            schema_definition: SchemaDefinition { directives: vec![], query: None, mutation: None, subscription: None },
            types: vec![
                ExtendedType::Scalar { name: s("String"), directives: vec![] },
                ExtendedType::Object {
                    name: s("Query"),
                    implements_interfaces: vec![],
                    directives: vec![],
                    fields: vec![field("a", "String")],
                },
                ExtendedType::Interface {
                    name: s("Node"),
                    implements_interfaces: vec![],
                    directives: vec![],
                    fields: vec![field("id", "String")],
                },
                ExtendedType::Enum {
                    name: s("E"),
                    directives: vec![],
                    values: vec![EnumValueDefinition { value: s("A"), directives: vec![] }],
                },
                ExtendedType::InputObject { name: s("In"), directives: vec![], input_fields: vec![input("f", "String")] },
            ],
            directive_definitions: vec![DirectiveDefinition {
                name: s("tag"),
                arguments: vec![input("name", "String")],
                repeatable: true,
                locations: vec![s("FIELD_DEFINITION")],
            }],
        },
        None,
    )
    .unwrap()
}

fn type_referencers(schema: &FederationSchema, name: &str) -> Vec<Location> {
    let entry = schema.referencers().types.iter().find(|t| t.name == name).unwrap();
    entry.referencers.iter().map(|l| l.copy()).collect()
}

#[test]
fn inserting_a_field_records_its_references() {
    let mut schema = schema();
    let b = ObjectFieldDefinitionPosition { name_of_type: s("Query"), field_name: s("b") };
    let mut f = field("b", "E");
    f.directives.push(applied("tag"));
    f.arguments.push(input("x", "In"));
    b.insert(&mut schema, f).unwrap();
    assert_eq!(b.get(schema.schema()).unwrap().name, "b");
    assert_eq!(type_referencers(&schema, "E"), vec![Location::ObjectField(s("Query"), s("b"))]);
    assert_eq!(type_referencers(&schema, "In"), vec![Location::ObjectFieldArgument(s("Query"), s("b"), s("x"))]);
    assert_eq!(schema.referencers().directives[0].referencers, vec![Location::ObjectField(s("Query"), s("b"))]);
    // Removing the field again gives back the referencers.
    b.remove(&mut schema).unwrap();
    assert!(type_referencers(&schema, "E").is_empty());
    assert!(type_referencers(&schema, "In").is_empty());
    assert!(schema.referencers().directives[0].referencers.is_empty());
}

#[test]
fn inserting_a_field_checks_its_name_and_its_type() {
    let mut schema = schema();
    let b = ObjectFieldDefinitionPosition { name_of_type: s("Query"), field_name: s("b") };
    assert_eq!(
        message(b.insert(&mut schema, field("c", "String")).unwrap_err()),
        "Object field \"Query.b\" given field named \"c\""
    );
    let a = ObjectFieldDefinitionPosition { name_of_type: s("Query"), field_name: s("a") };
    assert_eq!(message(a.insert(&mut schema, field("a", "String")).unwrap_err()), "Object field \"Query.a\" already exists in schema");
    assert_eq!(
        message(b.insert(&mut schema, field("b", "In")).unwrap_err()),
        "Object field \"Query.b\"'s inner type \"In\" does not refer to an existing output type."
    );
    assert!(b.try_get(schema.schema()).is_none());
    let missing = InterfaceFieldDefinitionPosition { name_of_type: s("Missing"), field_name: s("b") };
    assert_eq!(message(missing.insert(&mut schema, field("b", "String")).unwrap_err()), "Schema has no type \"Missing\"");
}

#[test]
fn inserting_arguments_values_and_input_fields() {
    let mut schema = schema();
    let x = ObjectFieldArgumentDefinitionPosition { name_of_type: s("Query"), field_name: s("a"), argument_name: s("x") };
    x.insert(&mut schema, input("x", "String")).unwrap();
    assert!(x.try_get(schema.schema()).is_some());
    assert_eq!(message(x.insert(&mut schema, input("x", "String")).unwrap_err()), "Object field argument \"Query.a(x:)\" already exists in schema");
    let y = InterfaceFieldArgumentDefinitionPosition { name_of_type: s("Node"), field_name: s("id"), argument_name: s("y") };
    assert_eq!(
        message(y.insert(&mut schema, input("z", "String")).unwrap_err()),
        "Interface field argument \"Node.id(y:)\" given argument named \"z\""
    );
    y.insert(&mut schema, input("y", "E")).unwrap();
    assert_eq!(type_referencers(&schema, "E"), vec![Location::InterfaceFieldArgument(s("Node"), s("id"), s("y"))]);
    let b = EnumValueDefinitionPosition { name_of_type: s("E"), value_name: s("B") };
    b.insert(&mut schema, EnumValueDefinition { value: s("B"), directives: vec![applied("tag")] }).unwrap();
    assert!(b.try_get(schema.schema()).is_some());
    assert_eq!(
        message(
            EnumValueDefinitionPosition { name_of_type: s("E"), value_name: s("C") }
                .insert(&mut schema, EnumValueDefinition { value: s("C"), directives: vec![applied("key")] })
                .unwrap_err()
        ),
        "Enum value \"E.C\"'s directive application \"@key\" does not refer to an existing directive."
    );
    let g = InputObjectFieldDefinitionPosition { name_of_type: s("In"), field_name: s("g") };
    assert_eq!(
        message(g.insert(&mut schema, input("g", "Query")).unwrap_err()),
        "Input object field \"In.g\"'s inner type \"Query\" does not refer to an existing input type."
    );
    g.insert(&mut schema, input("g", "E")).unwrap();
    let on = DirectiveArgumentDefinitionPosition { directive_name: s("tag"), argument_name: s("on") };
    on.insert(&mut schema, input("on", "In")).unwrap();
    assert_eq!(on.get(schema.schema()).unwrap().name, "on");
    assert_eq!(
        message(on.insert(&mut schema, input("on", "In")).unwrap_err()),
        "Directive argument \"@tag(on:)\" already exists in schema"
    );
}

#[test]
fn inserting_types_needs_their_records_first() {
    let mut schema = schema();
    let t = ObjectTypeDefinitionPosition { name_of_type: s("T") };
    let ty = ExtendedType::Object { name: s("T"), implements_interfaces: vec![s("Node")], directives: vec![], fields: vec![field("id", "String")] };
    assert_eq!(message(t.insert(&mut schema, ty).unwrap_err()), "Type \"T\" has not been pre-inserted");
    t.pre_insert(&mut schema).unwrap();
    assert!(type_referencers(&schema, "T").is_empty());
    assert_eq!(message(t.pre_insert(&mut schema).unwrap_err()), "Type \"T\" has already been pre-inserted");
    let ty = ExtendedType::Object { name: s("T"), implements_interfaces: vec![s("Node")], directives: vec![], fields: vec![field("id", "String")] };
    t.insert(&mut schema, ty).unwrap();
    assert!(t.try_get(schema.schema()).is_some());
    assert_eq!(type_referencers(&schema, "Node"), vec![Location::ObjectType(s("T"))]);
    // Types that may shadow are left as they are.
    let string = ScalarTypeDefinitionPosition { name_of_type: s("String") };
    string.pre_insert(&mut schema).unwrap();
    string.insert(&mut schema, ExtendedType::Scalar { name: s("String"), directives: vec![applied("tag")] }).unwrap();
    assert_eq!(schema.schema().types[0], ExtendedType::Scalar { name: s("String"), directives: vec![] });
    let e = EnumTypeDefinitionPosition { name_of_type: s("E") };
    assert_eq!(message(e.pre_insert(&mut schema).unwrap_err()), "Type \"E\" has already been pre-inserted");
    let u = UnionTypeDefinitionPosition { name_of_type: s("U") };
    u.pre_insert(&mut schema).unwrap();
    let bad = ExtendedType::Union { name: s("U"), directives: vec![], members: vec![s("Node")] };
    assert_eq!(
        message(u.insert(&mut schema, bad).unwrap_err()),
        "Union type \"U\"'s member \"Node\" does not refer to an existing object."
    );
    let io = InputObjectTypeDefinitionPosition { name_of_type: s("In2") };
    io.pre_insert(&mut schema).unwrap();
    io.insert(&mut schema, ExtendedType::InputObject { name: s("In2"), directives: vec![], input_fields: vec![input("f", "In")] }).unwrap();
    assert_eq!(type_referencers(&schema, "In"), vec![Location::InputObjectField(s("In2"), s("f"))]);
}

#[test]
fn inserting_directives_and_roots() {
    let mut schema = schema();
    let key = DirectiveDefinitionPosition { directive_name: s("key") };
    let def = DirectiveDefinition { name: s("key"), arguments: vec![input("fields", "String")], repeatable: true, locations: vec![s("OBJECT")] };
    assert_eq!(message(key.insert(&mut schema, def).unwrap_err()), "Directive \"@key\" has not been pre-inserted");
    key.pre_insert(&mut schema).unwrap();
    let def = DirectiveDefinition { name: s("key"), arguments: vec![input("fields", "String")], repeatable: true, locations: vec![s("OBJECT")] };
    key.insert(&mut schema, def).unwrap();
    assert!(key.try_get(schema.schema()).is_some());
    assert!(type_referencers(&schema, "String").contains(&Location::DirectiveArgument(s("key"), s("fields"))));
    assert_eq!(message(key.pre_insert(&mut schema).unwrap_err()), "Directive \"@key\" has already been pre-inserted");
    let skip = DirectiveDefinitionPosition { directive_name: s("skip") };
    skip.pre_insert(&mut schema).unwrap();
    skip.pre_insert(&mut schema).unwrap();
    let root = SchemaRootDefinitionPosition { root_kind: SchemaRootDefinitionKind::Query };
    assert_eq!(
        message(root.insert(&mut schema, s("E")).unwrap_err()),
        "Root query type \"E\" does not refer to an existing object type."
    );
    root.insert(&mut schema, s("Query")).unwrap();
    assert_eq!(root.get(schema.schema()).unwrap(), "Query");
    assert_eq!(type_referencers(&schema, "Query"), vec![Location::SchemaRoot(SchemaRootDefinitionKind::Query)]);
    assert_eq!(message(root.insert(&mut schema, s("Query")).unwrap_err()), "Root query already exists on schema definition");
}

#[test]
fn removing_an_inserted_field_gives_back_the_schema_and_its_referencers() {
    let mut schema = schema();
    let before_schema = format!("{:?}", schema.schema());
    let before_referencers = format!("{:?}", schema.referencers());
    let b = ObjectFieldDefinitionPosition { name_of_type: s("Query"), field_name: s("b") };
    let mut f = field("b", "E");
    f.directives.push(applied("tag"));
    f.directives.push(applied("tag"));
    f.arguments.push(input("x", "In"));
    f.arguments.push(input("y", "E"));
    b.insert(&mut schema, f).unwrap();
    assert_ne!(format!("{:?}", schema.referencers()), before_referencers);
    b.remove(&mut schema).unwrap();
    assert_eq!(format!("{:?}", schema.schema()), before_schema);
    assert_eq!(format!("{:?}", schema.referencers()), before_referencers);
    // Removing it once more changes nothing.
    b.remove(&mut schema).unwrap();
    assert_eq!(format!("{:?}", schema.schema()), before_schema);
    assert_eq!(format!("{:?}", schema.referencers()), before_referencers);
}
