use apollo_federation::ast::Directive;
use apollo_federation::core_features::remove_core_feature_elements;
use apollo_federation::error::{FederationError, SingleFederationError};
use apollo_federation::federation_schema::{FederationSchema, Location};
use apollo_federation::link::{Identity, Link, LinksMetadata, Url, Version};
use apollo_federation::position::{
    DirectiveArgumentDefinitionPosition, DirectiveDefinitionPosition, EnumTypeDefinitionPosition,
    InterfaceTypeDefinitionPosition, ObjectFieldArgumentDefinitionPosition, ObjectTypeDefinitionPosition,
    ScalarTypeDefinitionPosition, UnionTypeDefinitionPosition,
};
use apollo_federation::schema::{
    DirectiveDefinition, EnumValueDefinition, ExtendedType, FieldDefinition, InputValueDefinition, Schema,
    SchemaDefinition, SchemaDefinitionPosition, SchemaRootDefinitionKind, SchemaRootDefinitionPosition, Type,
};

fn s(text: &str) -> String {
    text.to_string()
}

fn applied(name: &str) -> Directive {
    Directive { name: s(name), arguments: vec![] }
}

fn input(name: &str, ty: &str) -> InputValueDefinition {
    InputValueDefinition { name: s(name), ty: Type::Named(s(ty)), default_value: None, directives: vec![] }
}

fn field(name: &str, ty: &str, arguments: Vec<InputValueDefinition>) -> FieldDefinition {
    FieldDefinition { name: s(name), arguments, ty: Type::Named(s(ty)), directives: vec![] }
}

fn message(e: FederationError) -> String {
    match e {
        FederationError::SingleFederationError(SingleFederationError::Internal { message }) => message,
        other => panic!("expected an internal error, got {:?}", other),
    }
}

/// schema @tag { query: Query }  scalar ID  type Query implements Node @tag { t(id: E @tag): ID }
/// interface Node { id: ID }  union U = Query  enum E { A }  directive @tag(on: ID)
fn schema() -> Schema {
    let mut arg = input("id", "E");
    arg.directives.push(applied("tag"));
    Schema {
        schema_definition: SchemaDefinition {
            directives: vec![applied("tag")],
            query: Some(s("Query")),
            mutation: None,
            subscription: None,
        },
        types: vec![
            ExtendedType::Scalar { name: s("ID"), directives: vec![] },
            ExtendedType::Object {
                name: s("Query"),
                implements_interfaces: vec![s("Node")],
                directives: vec![applied("tag")],
                fields: vec![field("t", "ID", vec![arg])],
            },
            ExtendedType::Interface {
                name: s("Node"),
                implements_interfaces: vec![],
                directives: vec![],
                fields: vec![field("id", "ID", vec![])],
            },
            ExtendedType::Union { name: s("U"), directives: vec![], members: vec![s("Query")] },
            ExtendedType::Enum {
                name: s("E"),
                directives: vec![],
                values: vec![EnumValueDefinition { value: s("A"), directives: vec![] }],
            },
        ],
        directive_definitions: vec![DirectiveDefinition {
            name: s("tag"),
            arguments: vec![input("on", "ID")],
            repeatable: true,
            locations: vec![s("OBJECT")],
        }],
    }
}

fn type_referencers(schema: &FederationSchema, name: &str) -> Vec<Location> {
    let entry = schema.referencers().types.iter().find(|t| t.name == name).unwrap();
    entry.referencers.iter().map(|l| l.copy()).collect()
}

#[test]
fn removing_a_field_argument_forgets_its_references() {
    let mut schema = FederationSchema::new(schema(), None).unwrap();
    let arg = Location::ObjectFieldArgument(s("Query"), s("t"), s("id"));
    assert_eq!(type_referencers(&schema, "E"), vec![arg.copy()]);
    let position = ObjectFieldArgumentDefinitionPosition { name_of_type: s("Query"), field_name: s("t"), argument_name: s("id") };
    position.remove(&mut schema).unwrap();
    assert!(position.try_get(schema.schema()).is_none());
    assert!(type_referencers(&schema, "E").is_empty());
    assert!(!schema.referencers().directives[0].referencers.contains(&arg));
    // A second removal finds nothing and changes nothing.
    position.remove(&mut schema).unwrap();
}

#[test]
fn removing_a_directive_definition_removes_its_applications() {
    let mut schema = FederationSchema::new(schema(), None).unwrap();
    assert_eq!(type_referencers(&schema, "ID").len(), 3);
    let tag = DirectiveDefinitionPosition { directive_name: s("tag") };
    let record = tag.remove(&mut schema).unwrap().unwrap();
    assert_eq!(record.name, "tag");
    assert_eq!(
        record.referencers,
        vec![
            Location::SchemaDefinition,
            Location::ObjectType(s("Query")),
            Location::ObjectFieldArgument(s("Query"), s("t"), s("id")),
        ]
    );
    let result = schema.schema();
    assert!(result.directive_definitions.is_empty());
    assert!(result.schema_definition.directives.is_empty());
    assert!(result.types[1].directives().is_empty());
    let arg = ObjectFieldArgumentDefinitionPosition { name_of_type: s("Query"), field_name: s("t"), argument_name: s("id") };
    assert!(arg.get(result).unwrap().directives.is_empty());
    assert!(schema.referencers().directives.is_empty());
    // The reference of the directive's own argument to ID is forgotten.
    assert!(!type_referencers(&schema, "ID").contains(&Location::DirectiveArgument(s("tag"), s("on"))));
    // A directive that is not defined is nothing to remove.
    assert!(tag.remove(&mut schema).unwrap().is_none());
}

#[test]
fn removing_a_type_removes_the_root_and_the_member_that_reference_it() {
    let mut schema = FederationSchema::new(schema(), None).unwrap();
    let query = ObjectTypeDefinitionPosition { name_of_type: s("Query") };
    let record = query.remove(&mut schema).unwrap().unwrap();
    assert_eq!(record.name, "Query");
    assert_eq!(
        record.referencers,
        vec![Location::SchemaRoot(SchemaRootDefinitionKind::Query), Location::UnionType(s("U"))]
    );
    let result = schema.schema();
    assert_eq!(result.types.len(), 4);
    assert!(query.try_get(result).is_none());
    assert!(result.schema_definition.query.is_none());
    let u = UnionTypeDefinitionPosition { name_of_type: s("U") };
    assert_eq!(u.get(result).unwrap(), &ExtendedType::Union { name: s("U"), directives: vec![], members: vec![] });
    // The references that the type made are forgotten as well.
    assert!(type_referencers(&schema, "Node").is_empty());
    assert!(type_referencers(&schema, "E").is_empty());
    assert!(!schema.referencers().directives[0].referencers.contains(&Location::ObjectType(s("Query"))));
    // Removing a type that is gone, or of another kind, finds nothing.
    assert!(query.remove(&mut schema).unwrap().is_none());
    assert!(ScalarTypeDefinitionPosition { name_of_type: s("Node") }.remove(&mut schema).unwrap().is_none());
}

#[test]
fn removing_a_referenced_type_stops_at_the_first_field_that_uses_it() {
    let mut schema = FederationSchema::new(schema(), None).unwrap();
    let e = EnumTypeDefinitionPosition { name_of_type: s("E") };
    assert_eq!(
        message(e.remove(&mut schema).unwrap_err()),
        "Object field argument \"Query.t(id:)\"'s inner type \"E\" does not refer to an existing input type."
    );
    // The type itself is gone, the argument that used it stays.
    assert!(e.try_get(schema.schema()).is_none());
    let arg = ObjectFieldArgumentDefinitionPosition { name_of_type: s("Query"), field_name: s("t"), argument_name: s("id") };
    assert!(arg.try_get(schema.schema()).is_some());
}

#[test]
fn removing_an_interface_stops_its_implementations() {
    let mut schema = FederationSchema::new(schema(), None).unwrap();
    let node = InterfaceTypeDefinitionPosition { name_of_type: s("Node") };
    let record = node.remove(&mut schema).unwrap().unwrap();
    assert_eq!(record.referencers, vec![Location::ObjectType(s("Query"))]);
    let query = ObjectTypeDefinitionPosition { name_of_type: s("Query") };
    match query.get(schema.schema()).unwrap() {
        ExtendedType::Object { implements_interfaces, .. } => assert!(implements_interfaces.is_empty()),
        other => panic!("expected an object type, got {:?}", other),
    }
}

#[test]
fn removing_roots_members_and_implementations_directly() {
    let mut schema = FederationSchema::new(schema(), None).unwrap();
    let root = SchemaRootDefinitionPosition { root_kind: SchemaRootDefinitionKind::Query };
    root.remove(&mut schema);
    assert!(root.try_get(schema.schema()).is_none());
    assert_eq!(type_referencers(&schema, "Query"), vec![Location::UnionType(s("U"))]);
    UnionTypeDefinitionPosition { name_of_type: s("U") }.remove_member(&mut schema, &s("Query"));
    assert!(type_referencers(&schema, "Query").is_empty());
    ObjectTypeDefinitionPosition { name_of_type: s("Query") }.remove_implements_interface(&mut schema, &s("Node"));
    assert!(type_referencers(&schema, "Node").is_empty());
    // Removing again changes nothing.
    root.remove(&mut schema);
    assert!(root.try_get(schema.schema()).is_none());
}

#[test]
fn removing_directive_arguments_and_argument_applications() {
    let mut schema = FederationSchema::new(schema(), None).unwrap();
    let on = DirectiveArgumentDefinitionPosition { directive_name: s("tag"), argument_name: s("on") };
    on.remove(&mut schema).unwrap();
    assert!(on.try_get(schema.schema()).is_none());
    assert!(!type_referencers(&schema, "ID").contains(&Location::DirectiveArgument(s("tag"), s("on"))));
    let arg = ObjectFieldArgumentDefinitionPosition { name_of_type: s("Query"), field_name: s("t"), argument_name: s("id") };
    arg.remove_directive_name(&mut schema, &s("tag"));
    assert!(arg.get(schema.schema()).unwrap().directives.is_empty());
    SchemaDefinitionPosition.remove_directive_name(&mut schema, &s("tag"));
    assert!(schema.schema().schema_definition.directives.is_empty());
    assert_eq!(schema.referencers().directives[0].referencers, vec![Location::ObjectType(s("Query"))]);
}

fn join_link() -> Link {
    Link {
        url: Url {
            identity: Identity { domain: s("https://specs.apollo.dev"), name: s("join") },
            version: Version { major: 0, minor: 3 },
        },
        spec_alias: None,
        imports: vec![],
        purpose: None,
    }
}

/// A supergraph-like schema whose join link brings in the enum `join__Graph` and the
/// directive `@join__graph`.
fn core_schema() -> Schema {
    let mut graph = EnumValueDefinition { value: s("A"), directives: vec![] };
    graph.directives.push(applied("join__graph"));
    Schema {
        schema_definition: SchemaDefinition { directives: vec![], query: Some(s("Query")), mutation: None, subscription: None },
        types: vec![
            ExtendedType::Scalar { name: s("String"), directives: vec![] },
            ExtendedType::Object {
                name: s("Query"),
                implements_interfaces: vec![],
                directives: vec![],
                fields: vec![field("hello", "String", vec![])],
            },
            ExtendedType::Enum { name: s("join__Graph"), directives: vec![], values: vec![graph] },
        ],
        directive_definitions: vec![DirectiveDefinition {
            name: s("join__graph"),
            arguments: vec![input("name", "String")],
            repeatable: false,
            locations: vec![s("ENUM_VALUE")],
        }],
    }
}

#[test]
fn removing_core_feature_elements_leaves_the_rest() {
    let metadata = LinksMetadata { links: vec![join_link()] };
    let mut schema = FederationSchema::new(core_schema(), Some(metadata)).unwrap();
    remove_core_feature_elements(&mut schema).unwrap();
    let result = schema.schema();
    assert!(result.directive_definitions.is_empty());
    assert_eq!(result.types.len(), 2);
    assert_eq!(result.types[0].name(), "String");
    assert_eq!(result.types[1].name(), "Query");
    assert_eq!(type_referencers(&schema, "String"), vec![Location::ObjectField(s("Query"), s("hello"))]);
}

#[test]
fn a_schema_without_links_keeps_its_elements() {
    let mut schema = FederationSchema::new(core_schema(), None).unwrap();
    remove_core_feature_elements(&mut schema).unwrap();
    assert_eq!(schema.schema().types.len(), 3);
    assert_eq!(schema.schema().directive_definitions.len(), 1);
}

fn inaccessible_link() -> Link {
    Link {
        url: Url {
            identity: Identity { domain: s("https://specs.apollo.dev"), name: s("inaccessible") },
            version: Version { major: 0, minor: 2 },
        },
        spec_alias: None,
        imports: vec![],
        purpose: None,
    }
}

/// type Query { a: String  b: Secret @inaccessible  c(x: String @inaccessible): String }
/// type Secret @inaccessible { s: String }  scalar String  directive @inaccessible
fn inaccessible_schema() -> Schema {
    let mut b = field("b", "Secret", vec![]);
    b.directives.push(applied("inaccessible"));
    let mut x = input("x", "String");
    x.directives.push(applied("inaccessible"));
    Schema {
        schema_definition: SchemaDefinition { directives: vec![], query: Some(s("Query")), mutation: None, subscription: None },
        types: vec![
            ExtendedType::Scalar { name: s("String"), directives: vec![] },
            ExtendedType::Object {
                name: s("Query"),
                implements_interfaces: vec![],
                directives: vec![],
                fields: vec![field("a", "String", vec![]), b, field("c", "String", vec![x])],
            },
            ExtendedType::Object {
                name: s("Secret"),
                implements_interfaces: vec![],
                directives: vec![applied("inaccessible")],
                fields: vec![field("s", "String", vec![])],
            },
        ],
        directive_definitions: vec![DirectiveDefinition {
            name: s("inaccessible"),
            arguments: vec![],
            repeatable: false,
            locations: vec![s("FIELD_DEFINITION"), s("OBJECT"), s("ARGUMENT_DEFINITION")],
        }],
    }
}

#[test]
fn removing_inaccessible_elements_keeps_the_accessible_ones() {
    let metadata = LinksMetadata { links: vec![inaccessible_link()] };
    let mut schema = FederationSchema::new(inaccessible_schema(), Some(metadata)).unwrap();
    apollo_federation::inaccessible_elements::remove_inaccessible_elements(&mut schema).unwrap();
    let result = schema.schema();
    assert_eq!(result.types.len(), 2);
    assert!(ObjectTypeDefinitionPosition { name_of_type: s("Secret") }.try_get(result).is_none());
    let query = ObjectTypeDefinitionPosition { name_of_type: s("Query") };
    match query.get(result).unwrap() {
        ExtendedType::Object { fields, .. } => {
            let names: Vec<&str> = fields.iter().map(|f| f.name.as_str()).collect();
            assert_eq!(names, vec!["a", "c"]);
            assert!(fields[1].arguments.is_empty());
        },
        other => panic!("expected an object type, got {:?}", other),
    }
    // The directive definition itself stays (it is not a core feature element here).
    assert_eq!(result.directive_definitions.len(), 1);
}

#[test]
fn removing_inaccessible_elements_needs_the_inaccessible_link() {
    let mut schema = FederationSchema::new(inaccessible_schema(), None).unwrap();
    assert_eq!(
        message(apollo_federation::inaccessible_elements::remove_inaccessible_elements(&mut schema).unwrap_err()),
        "Subgraph unexpectedly does not use inaccessible spec"
    );
    let mut old_version = inaccessible_link();
    old_version.url.version = Version { major: 0, minor: 3 };
    let mut schema = FederationSchema::new(inaccessible_schema(), Some(LinksMetadata { links: vec![old_version] })).unwrap();
    assert_eq!(
        message(apollo_federation::inaccessible_elements::remove_inaccessible_elements(&mut schema).unwrap_err()),
        "Subgraph unexpectedly does not use a supported inaccessible spec version"
    );
}

#[test]
fn the_api_schema_drops_inaccessible_and_core_feature_elements() {
    let metadata = LinksMetadata { links: vec![inaccessible_link()] };
    let schema = FederationSchema::new(inaccessible_schema(), Some(metadata)).unwrap();
    let api = apollo_federation::api_schema::to_api_schema(schema).unwrap();
    // The inaccessible directive comes from the linked specification: it goes too.
    assert!(api.directive_definitions.is_empty());
    assert_eq!(api.types.len(), 2);
    match &api.types[1] {
        ExtendedType::Object { name, fields, directives, .. } => {
            assert_eq!(name, "Query");
            assert_eq!(fields.len(), 2);
            assert!(directives.is_empty());
            assert!(fields.iter().all(|f| f.directives.is_empty()));
        },
        other => panic!("expected an object type, got {:?}", other),
    }
}

/// type Query { a: String }  enum Color { RED  BLUE @inaccessible }
/// input Filter { x: String  y: String @inaccessible }  input Hidden @inaccessible { z: String }
/// directive @inaccessible  directive @limit(n: String  m: String @inaccessible) on FIELD
#[test]
fn removing_inaccessible_enum_values_input_types_input_fields_and_directive_arguments() {
    let mut blue = EnumValueDefinition { value: s("BLUE"), directives: vec![] };
    blue.directives.push(applied("inaccessible"));
    let mut y = input("y", "String");
    y.directives.push(applied("inaccessible"));
    let mut m = input("m", "String");
    m.directives.push(applied("inaccessible"));
    let schema = Schema {
        schema_definition: SchemaDefinition { directives: vec![], query: Some(s("Query")), mutation: None, subscription: None },
        types: vec![
            ExtendedType::Scalar { name: s("String"), directives: vec![] },
            ExtendedType::Object {
                name: s("Query"),
                implements_interfaces: vec![],
                directives: vec![],
                fields: vec![field("a", "String", vec![])],
            },
            ExtendedType::Enum {
                name: s("Color"),
                directives: vec![],
                values: vec![EnumValueDefinition { value: s("RED"), directives: vec![] }, blue],
            },
            ExtendedType::InputObject { name: s("Filter"), directives: vec![], input_fields: vec![input("x", "String"), y] },
            ExtendedType::InputObject {
                name: s("Hidden"),
                directives: vec![applied("inaccessible")],
                input_fields: vec![input("z", "String")],
            },
        ],
        directive_definitions: vec![
            DirectiveDefinition { name: s("inaccessible"), arguments: vec![], repeatable: false, locations: vec![s("ENUM_VALUE")] },
            DirectiveDefinition {
                name: s("limit"),
                arguments: vec![input("n", "String"), m],
                repeatable: false,
                locations: vec![s("FIELD")],
            },
        ],
    };
    let metadata = LinksMetadata { links: vec![inaccessible_link()] };
    let mut schema = FederationSchema::new(schema, Some(metadata)).unwrap();
    apollo_federation::inaccessible_elements::remove_inaccessible_elements(&mut schema).unwrap();
    let result = schema.schema();
    assert_eq!(result.types.len(), 4);
    match &result.types[2] {
        ExtendedType::Enum { name, values, .. } => {
            assert_eq!(name, "Color");
            let names: Vec<&str> = values.iter().map(|v| v.value.as_str()).collect();
            assert_eq!(names, vec!["RED"]);
        },
        other => panic!("expected an enum type, got {:?}", other),
    }
    match &result.types[3] {
        ExtendedType::InputObject { name, input_fields: fields, .. } => {
            assert_eq!(name, "Filter");
            let names: Vec<&str> = fields.iter().map(|f| f.name.as_str()).collect();
            assert_eq!(names, vec!["x"]);
        },
        other => panic!("expected an input object type, got {:?}", other),
    }
    let limit = &result.directive_definitions[1];
    assert_eq!(limit.name, "limit");
    let names: Vec<&str> = limit.arguments.iter().map(|a| a.name.as_str()).collect();
    assert_eq!(names, vec!["n"]);
}
