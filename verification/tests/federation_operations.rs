use apollo_federation::error::{FederationError, SingleFederationError};
use apollo_federation::federation_spec::FederationSpecDefinitions;
use apollo_federation::link::{Identity, Link, Url, Version};
use apollo_federation::ast::Directive;
use apollo_federation::federation_operations::{add_federation_operations, add_federation_operations_with_key, FederationSubgraph};
use apollo_federation::federation_schema::FederationSchema;
use apollo_federation::position::{ObjectFieldDefinitionPosition, UnionTypeDefinitionPosition};
use apollo_federation::schema::{
    DirectiveDefinition, ExtendedType, FieldDefinition, InputValueDefinition, Schema, SchemaDefinition,
    SchemaRootDefinitionKind, SchemaRootDefinitionPosition, Type,
};

fn s(text: &str) -> String {
    text.to_string()
}

fn subgraph(keyed: bool) -> FederationSubgraph {
    let directives = if keyed { vec![Directive { name: s("federation__key"), arguments: vec![] }] } else { vec![] };
    let schema = Schema {
        schema_definition: SchemaDefinition { directives: vec![], query: None, mutation: None, subscription: None },
        types: vec![
            ExtendedType::Scalar { name: s("String"), directives: vec![] },
            ExtendedType::Object {
                name: s("Product"),
                implements_interfaces: vec![],
                directives,
                fields: vec![FieldDefinition { name: s("upc"), arguments: vec![], ty: Type::Named(s("String")), directives: vec![] }],
            },
        ],
        directive_definitions: vec![DirectiveDefinition {
            name: s("federation__key"),
            arguments: vec![InputValueDefinition {
                name: s("fields"),
                ty: Type::NonNullNamed(s("String")),
                default_value: None,
                directives: vec![],
            }],
            repeatable: true,
            locations: vec![s("OBJECT")],
        }],
    };
    FederationSubgraph { name: s("products"), url: s("http://products"), schema: FederationSchema::new(schema, None).unwrap() }
}

fn type_names(schema: &FederationSchema) -> Vec<String> {
    schema.schema().types.iter().map(|t| t.name().clone()).collect()
}

#[test]
fn entity_types_get_the_entities_field() {
    let mut sg = subgraph(true);
    add_federation_operations_with_key(&mut sg, &s("federation__key")).unwrap();
    let schema = &sg.schema;
    assert_eq!(type_names(schema), vec!["String", "Product", "_Any", "_Service", "_Entity", "Query"]);
    let entity = UnionTypeDefinitionPosition { name_of_type: s("_Entity") };
    assert_eq!(
        entity.get(schema.schema()).unwrap(),
        &ExtendedType::Union { name: s("_Entity"), directives: vec![], members: vec![s("Product")] }
    );
    let root = SchemaRootDefinitionPosition { root_kind: SchemaRootDefinitionKind::Query };
    assert_eq!(root.get(schema.schema()).unwrap(), "Query");
    let entities = ObjectFieldDefinitionPosition { name_of_type: s("Query"), field_name: s("_entities") };
    let field = entities.get(schema.schema()).unwrap();
    assert_eq!(field.ty, Type::NonNullList(Box::new(Type::Named(s("_Entity")))));
    assert_eq!(field.arguments[0].name, "representations");
    assert_eq!(field.arguments[0].ty, Type::NonNullList(Box::new(Type::NonNullNamed(s("_Any")))));
    let service = ObjectFieldDefinitionPosition { name_of_type: s("Query"), field_name: s("_service") };
    assert_eq!(service.get(schema.schema()).unwrap().ty, Type::NonNullNamed(s("_Service")));
    assert_eq!(sg.name, "products");
}

#[test]
fn without_entities_there_is_no_entity_union() {
    let mut sg = subgraph(false);
    add_federation_operations_with_key(&mut sg, &s("federation__key")).unwrap();
    let schema = &sg.schema;
    assert_eq!(type_names(schema), vec!["String", "Product", "_Any", "_Service", "Query"]);
    let entities = ObjectFieldDefinitionPosition { name_of_type: s("Query"), field_name: s("_entities") };
    assert!(entities.try_get(schema.schema()).is_none());
    let service = ObjectFieldDefinitionPosition { name_of_type: s("Query"), field_name: s("_service") };
    assert!(service.try_get(schema.schema()).is_some());
}

#[test]
fn adding_the_operations_twice_fails() {
    let mut sg = subgraph(true);
    add_federation_operations_with_key(&mut sg, &s("federation__key")).unwrap();
    assert!(add_federation_operations_with_key(&mut sg, &s("federation__key")).is_err());
}

/// The definitions of `@link(url: "https://specs.apollo.dev/federation/v2.4")`, which imports
/// nothing: its directives go by `federation__` names.
fn federation_without_imports() -> FederationSpecDefinitions {
    FederationSpecDefinitions::from_link(Link {
        url: Url {
            identity: Identity { domain: s("https://specs.apollo.dev"), name: s("federation") },
            version: Version { major: 2, minor: 4 },
        },
        spec_alias: None,
        imports: vec![],
        purpose: None,
    })
    .unwrap()
}

#[test]
fn the_key_directive_is_named_by_the_federation_link() {
    let federation = federation_without_imports();
    let mut sg = subgraph(true);
    add_federation_operations(&mut sg, &federation).unwrap();
    let entities = ObjectFieldDefinitionPosition { name_of_type: s("Query"), field_name: s("_entities") };
    assert!(entities.get(sg.schema.schema()).is_ok());
}

#[test]
fn a_subgraph_without_the_key_directive_definition_is_refused() {
    let federation = federation_without_imports();
    let mut sg = subgraph(false);
    sg.schema = FederationSchema::new(
        Schema {
            schema_definition: SchemaDefinition { directives: vec![], query: None, mutation: None, subscription: None },
            types: vec![ExtendedType::Scalar { name: s("String"), directives: vec![] }],
            directive_definitions: vec![],
        },
        None,
    )
    .unwrap();
    match add_federation_operations(&mut sg, &federation).unwrap_err() {
        FederationError::SingleFederationError(SingleFederationError::Internal { message }) => {
            assert_eq!(message, "Schema has no directive \"@federation__key\"")
        },
        other => panic!("expected an internal error, got {:?}", other),
    }
    assert_eq!(type_names(&sg.schema), vec!["String"]);
}
