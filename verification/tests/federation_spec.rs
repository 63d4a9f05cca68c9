use apollo_federation::ast::{Argument, Directive, Value};
use apollo_federation::error::SubgraphError;
use apollo_federation::federation_spec::{
    federation_link_identity, join_link_identity, keys, AppliedFederationLink, FederationSpecDefinitions,
    FederationSpecError, Key, LinkSpecDefinitions,
};
use apollo_federation::link::{Identity, Import, Link, Purpose, Url, Version};
use apollo_federation::schema::{
    DirectiveDefinition, EnumValueDefinition, ExtendedType, FieldDefinition, InputValueDefinition, Schema,
    SchemaDefinition, Type,
};
use apollo_federation::subgraph::{Subgraph, Subgraphs};

fn federation_link(major: u32, minor: u32, imports: Vec<Import>) -> Link {
    Link {
        url: Url { identity: federation_link_identity(), version: Version { major, minor } },
        spec_alias: None,
        imports,
        purpose: None,
    }
}

fn import(element: &str, is_directive: bool, alias: Option<&str>) -> Import {
    Import { element: element.to_string(), is_directive, alias: alias.map(|a| a.to_string()) }
}

fn empty_schema() -> Schema {
    Schema {
        schema_definition: SchemaDefinition { directives: vec![], query: None, mutation: None, subscription: None },
        types: vec![],
        directive_definitions: vec![],
    }
}

#[test]
fn handle_unsupported_federation_version() {
    let result = FederationSpecDefinitions::from_link(federation_link(99, 99, vec![]));
    assert!(result.is_err(), "federation version 99 is not yet supported");
}

#[test]
fn tag_directive_cannot_be_renamed() {
    let definitions =
        FederationSpecDefinitions::from_link(federation_link(2, 3, vec![import("tag", false, Some("myTag"))])).unwrap();
    assert!(
        definitions.tag_directive_definition(&Some("myTag".to_owned())).is_err(),
        "we shouldn't be able to rename @tag directive"
    );
}

#[test]
fn inaccessible_directive_cannot_be_renamed() {
    let definitions = FederationSpecDefinitions::from_link(federation_link(
        2,
        3,
        vec![import("inaccessible", false, Some("hidden"))],
    ))
    .unwrap();
    assert!(
        definitions.inaccessible_directive_definition(&Some("hidden".to_owned())).is_err(),
        "we shouldn't be able to rename @inaccessible directive"
    );
}

#[test]
fn unsupported_version_error_names_the_range() {
    match FederationSpecDefinitions::from_link(federation_link(1, 0, vec![])) {
        Err(e) => {
            assert_eq!(
                e,
                FederationSpecError::UnsupportedVersionError {
                    specified: "1.0".to_string(),
                    min: "2.0".to_string(),
                    max: "2.4".to_string(),
                }
            );
            assert_eq!(e.message(), "Specified specification version 1.0 is outside of supported range 2.0-2.4");
        }
        Ok(_) => panic!("federation 1.0 is not supported"),
    }
}

#[test]
fn versions_at_the_ends_of_the_range_are_supported() {
    assert!(FederationSpecDefinitions::from_link(federation_link(2, 0, vec![])).is_ok());
    assert!(FederationSpecDefinitions::from_link(federation_link(2, 4, vec![])).is_ok());
    assert!(FederationSpecDefinitions::from_link(federation_link(2, 5, vec![])).is_err());
}

#[test]
fn names_in_schema_follow_imports() {
    let definitions = FederationSpecDefinitions::from_link(federation_link(
        2,
        3,
        vec![import("key", true, None), import("requires", true, Some("needs")), import("FieldSet", false, None)],
    ))
    .unwrap();
    assert_eq!(definitions.fieldset_scalar_name, "FieldSet");
    assert_eq!(definitions.namespaced_type_name("key", true), "key");
    assert_eq!(definitions.namespaced_type_name("requires", true), "needs");
    assert_eq!(definitions.namespaced_type_name("provides", true), "federation__provides");
    assert_eq!(definitions.namespaced_type_name("federation", true), "federation");
    assert_eq!(definitions.namespaced_type_name("Policy", false), "federation__Policy");
}

#[test]
fn default_definitions() {
    let definitions = FederationSpecDefinitions::default().unwrap();
    assert_eq!(definitions.fieldset_scalar_name, "federation__FieldSet");
    assert_eq!(definitions.link.url.to_text(), "https://specs.apollo.dev/federation/v2.4");
    let link = LinkSpecDefinitions::default();
    assert_eq!(link.import_scalar_name, "Import");
    assert_eq!(link.purpose_enum_name, "link__Purpose");
}

#[test]
fn key_directive_definition() {
    let definitions = FederationSpecDefinitions::default().unwrap();
    let key = definitions.directive_definition("key", &None).unwrap();
    assert_eq!(key.name, "key");
    assert!(key.repeatable);
    assert_eq!(key.locations, vec!["OBJECT".to_string(), "INTERFACE".to_string()]);
    assert_eq!(key.arguments.len(), 2);
    assert_eq!(key.arguments[0].name, "fields");
    assert_eq!(key.arguments[0].ty, Type::NonNullNamed("federation__FieldSet".to_string()));
    assert_eq!(key.arguments[1].default_value, Some(Value::Boolean(true)));
}

#[test]
fn directive_definitions_take_their_alias() {
    let definitions = FederationSpecDefinitions::default().unwrap();
    let shareable = definitions.directive_definition("shareable", &Some("federation__shareable".to_string())).unwrap();
    assert_eq!(shareable.name, "federation__shareable");
    assert_eq!(shareable.locations, vec!["FIELD_DEFINITION".to_string(), "OBJECT".to_string()]);
}

#[test]
fn tag_may_be_imported_under_the_spec_prefix() {
    let definitions = FederationSpecDefinitions::default().unwrap();
    let tag = definitions.tag_directive_definition(&Some("federation__tag".to_string())).unwrap();
    assert_eq!(tag.name, "tag");
    assert_eq!(tag.arguments.len(), 1);
    assert_eq!(tag.locations.len(), 10);
}

#[test]
fn unknown_federation_directive_is_an_error() {
    let definitions = FederationSpecDefinitions::default().unwrap();
    match definitions.directive_definition("unknown", &None) {
        Err(e) => {
            assert_eq!(e, FederationSpecError::UnsupportedFederationDirective("unknown".to_string()));
            assert_eq!(e.message(), "Unsupported federation directive import unknown");
        }
        Ok(_) => panic!("unknown is not a federation directive"),
    }
    let renamed = FederationSpecDefinitions::from_link(federation_link(2, 3, vec![])).unwrap();
    match renamed.directive_definition("tag", &Some("label".to_string())) {
        Err(e) => assert_eq!(e.message(), "tag directive cannot be renamed"),
        Ok(_) => panic!("tag cannot be renamed"),
    }
}

#[test]
fn applied_link_directive_lists_imports() {
    let mut link = federation_link(2, 3, vec![import("key", true, None), import("tag", true, Some("label"))]);
    link.spec_alias = Some("fed".to_string());
    link.purpose = Some(Purpose::EXECUTION);
    let definitions = FederationSpecDefinitions::from_link(link).unwrap();
    let applied = definitions.applied_link_directive();
    let mut text = String::new();
    for a in &applied.arguments {
        text.push_str(&a.name);
        text.push_str(": ");
        apollo_federation::ast::push_value_text(&mut text, &a.value);
        text.push_str("; ");
    }
    assert_eq!(applied.name, "link");
    assert_eq!(
        text,
        "url: \"https://specs.apollo.dev/federation/v2.3\"; import: [\"@key\", {name: \"tag\", as: \"@label\"}]; as: \"fed\"; for: EXECUTION; "
    );
}

#[test]
fn link_definitions() {
    let link = LinkSpecDefinitions::default();
    let definition = link.link_directive_definition();
    assert_eq!(definition.name, "link");
    assert_eq!(definition.arguments.len(), 4);
    assert_eq!(definition.arguments[0].ty, Type::Named("String".to_string()));
    assert_eq!(definition.arguments[2].ty, Type::List(Box::new(Type::Named("Import".to_string()))));
    match link.link_purpose_enum_definition() {
        ExtendedType::Enum { name, values, .. } => {
            assert_eq!(name, "link__Purpose");
            assert_eq!(values.len(), 2);
            assert_eq!(values[0].value, "SECURITY");
        }
        _ => panic!("expected an enum"),
    }
}

#[test]
fn identities() {
    assert_eq!(federation_link_identity().to_text(), "https://specs.apollo.dev/federation");
    assert_eq!(join_link_identity().name, "join");
    assert_eq!(Identity::link_identity().name, "link");
}

#[test]
fn keys_of_a_type() {
    let schema = Schema {
        schema_definition: SchemaDefinition { directives: vec![], query: None, mutation: None, subscription: None },
        types: vec![ExtendedType::Object {
            name: "T".to_string(),
            implements_interfaces: vec![],
            directives: vec![
                apollo_federation::ast::Directive {
                    name: "key".to_string(),
                    arguments: vec![apollo_federation::ast::Argument {
                        name: "fields".to_string(),
                        value: Value::String("id".to_string()),
                    }],
                },
                apollo_federation::ast::Directive { name: "key".to_string(), arguments: vec![] },
                apollo_federation::ast::Directive { name: "shareable".to_string(), arguments: vec![] },
            ],
            fields: vec![],
        }],
        directive_definitions: vec![],
    };
    let found = keys(&schema, "key", "T");
    assert_eq!(found, vec![Key { entity: "T".to_string() }]);
    assert!(keys(&schema, "key", "U").is_empty());
    assert!(found[0].selections().is_none());
}

#[test]
fn subgraphs_have_distinct_names() {
    let mut subgraphs = Subgraphs::new();
    subgraphs.add(Subgraph::new("A", "http://a", empty_schema())).unwrap();
    subgraphs.add(Subgraph::new("B", "http://b", empty_schema())).unwrap();
    match subgraphs.add(Subgraph::new("A", "http://other", empty_schema())) {
        Err(SubgraphError { msg }) => assert_eq!(msg, "A subgraph named A already exists"),
        Ok(()) => panic!("a second subgraph named A was accepted"),
    }
    assert_eq!(subgraphs.get("A").unwrap().url, "http://a");
    assert!(subgraphs.get("C").is_none());
}

#[test]
fn link_definitions_of_a_schema() {
    let fed = federation_link(2, 3, vec![]);
    let link = Link {
        url: Url { identity: Identity::link_identity(), version: Version { major: 1, minor: 0 } },
        spec_alias: None,
        imports: vec![],
        purpose: None,
    };
    let (f, l) = Subgraph::link_definitions(vec![Ok(link), Ok(fed)]).unwrap();
    assert_eq!(f.unwrap().fieldset_scalar_name, "federation__FieldSet");
    assert_eq!(l.unwrap().purpose_enum_name, "link__Purpose");
    match Subgraph::link_definitions(vec![Ok(federation_link(2, 3, vec![])), Ok(federation_link(2, 1, vec![]))]) {
        Err(e) => assert_eq!(
            e.msg,
            "invalid graphql schema - multiple @link imports for the federation specification are not supported"
        ),
        Ok(_) => panic!("two federation links were accepted"),
    }
    match Subgraph::link_definitions(vec![Ok(federation_link(3, 0, vec![]))]) {
        Err(e) => assert_eq!(e.msg, "Specified specification version 3.0 is outside of supported range 2.0-2.4"),
        Ok(_) => panic!("federation 3.0 was accepted"),
    }
}

#[test]
fn expansion_adds_missing_definitions() {
    let mut schema = empty_schema();
    apollo_federation::subgraph::Subgraph::populate_missing_type_definitions(&mut schema, None, None).unwrap();
    assert_eq!(schema.schema_definition.directives.len(), 2);
    let type_names: Vec<&str> = schema.types.iter().map(|t| t.name().as_str()).collect();
    assert_eq!(type_names, vec!["link__Purpose", "Import", "federation__FieldSet"]);
    let directive_names: Vec<&str> = schema.directive_definitions.iter().map(|d| d.name.as_str()).collect();
    assert_eq!(
        directive_names,
        vec![
            "link",
            "federation__composeDirective",
            "key",
            "extends",
            "external",
            "inaccessible",
            "federation__interfaceObject",
            "federation__override",
            "provides",
            "requires",
            "federation__shareable",
            "tag",
        ]
    );
    // A second expansion with the same links adds nothing more than the two `@link`s.
    let before_types = schema.types.len();
    apollo_federation::subgraph::Subgraph::populate_missing_type_definitions(&mut schema, None, None).unwrap();
    assert_eq!(schema.types.len(), before_types);
}

// Subgraph schemas, as apollo-compiler reads them: `extend schema` with its `@link`
// applications, `type Query { t: T }` and `type T @key(fields: "id") { id: ID! x: Int }`.

fn string(s: &str) -> Value {
    Value::String(s.to_string())
}

fn applied(name: &str, arguments: Vec<(&str, Value)>) -> Directive {
    Directive {
        name: name.to_string(),
        arguments: arguments
            .into_iter()
            .map(|(n, value)| Argument { name: n.to_string(), value })
            .collect(),
    }
}

fn field(name: &str, ty: Type, directives: Vec<Directive>) -> FieldDefinition {
    FieldDefinition { name: name.to_string(), arguments: vec![], ty, directives }
}

fn t_types(key_name: &str, query_field_directives: Vec<Directive>) -> Vec<ExtendedType> {
    vec![
        ExtendedType::Object {
            name: "Query".to_string(),
            implements_interfaces: vec![],
            directives: vec![],
            fields: vec![field("t", Type::Named("T".to_string()), query_field_directives)],
        },
        ExtendedType::Object {
            name: "T".to_string(),
            implements_interfaces: vec![],
            directives: vec![applied(key_name, vec![("fields", string("id"))])],
            fields: vec![
                field("id", Type::NonNullNamed("ID".to_string()), vec![]),
                field("x", Type::Named("Int".to_string()), vec![]),
            ],
        },
    ]
}

fn subgraph_schema(links: Vec<Directive>, types: Vec<ExtendedType>, definitions: Vec<DirectiveDefinition>) -> Schema {
    Schema {
        schema_definition: SchemaDefinition {
            directives: links,
            query: Some("Query".to_string()),
            mutation: None,
            subscription: None,
        },
        types,
        directive_definitions: definitions,
    }
}

fn link_identity_link(imports: Vec<Import>) -> Link {
    Link {
        url: Url { identity: Identity::link_identity(), version: Version { major: 1, minor: 0 } },
        spec_alias: None,
        imports,
        purpose: None,
    }
}

fn has_type(schema: &Schema, name: &str) -> bool {
    schema.types.iter().any(|t| t.name() == name)
}

fn has_directive_definition(schema: &Schema, name: &str) -> bool {
    schema.directive_definitions.iter().any(|d| d.name == name)
}

fn input(name: &str, ty: Type) -> InputValueDefinition {
    InputValueDefinition { name: name.to_string(), ty, default_value: None, directives: vec![] }
}

/// `directive @link(url: String, as: String, import: [Import], for: Purpose) repeatable on SCHEMA`
fn user_link_definition(import: &str, purpose: &str) -> DirectiveDefinition {
    DirectiveDefinition {
        name: "link".to_string(),
        arguments: vec![
            input("url", Type::Named("String".to_string())),
            input("as", Type::Named("String".to_string())),
            input("import", Type::List(Box::new(Type::Named(import.to_string())))),
            input("for", Type::Named(purpose.to_string())),
        ],
        repeatable: true,
        locations: vec!["SCHEMA".to_string()],
    }
}

fn user_purpose_enum(name: &str) -> ExtendedType {
    ExtendedType::Enum {
        name: name.to_string(),
        directives: vec![],
        values: vec![
            EnumValueDefinition { value: "SECURITY".to_string(), directives: vec![] },
            EnumValueDefinition { value: "EXECUTION".to_string(), directives: vec![] },
        ],
    }
}

fn user_import_scalar() -> ExtendedType {
    ExtendedType::Scalar { name: "Import".to_string(), directives: vec![] }
}

fn link_application(url: &str, imports: Vec<Value>, alias: Option<&str>) -> Directive {
    let mut arguments = vec![("url", string(url)), ("import", Value::List(imports))];
    if let Some(a) = alias {
        arguments.push(("as", string(a)));
    }
    applied("link", arguments)
}

#[test]
fn can_inspect_a_type_key() {
    let federation = federation_link(2, 3, vec![import("key", true, None)]);
    let mut types = t_types("key", vec![]);
    types.push(user_purpose_enum("link__Purpose"));
    types.push(user_import_scalar());
    let schema = subgraph_schema(
        vec![
            link_application("https://specs.apollo.dev/link/v1.0", vec![string("Import")], None),
            link_application("https://specs.apollo.dev/federation/v2.3", vec![string("@key")], None),
        ],
        types,
        vec![user_link_definition("Import", "link__Purpose")],
    );
    let subgraph = Subgraph::new("S1", "http://s1", schema);
    let keys = keys(&subgraph.schema, &federation.directive_name_in_schema("key"), "T");
    assert_eq!(keys.len(), 1);
    assert_eq!(keys.get(0).unwrap().entity, "T");
}

#[test]
fn can_parse_and_expand() -> Result<(), String> {
    let schema = subgraph_schema(
        vec![link_application("https://specs.apollo.dev/federation/v2.3", vec![string("@key")], None)],
        t_types("key", vec![]),
        vec![],
    );
    let links = vec![Ok(federation_link(2, 3, vec![import("key", true, None)]))];
    let subgraph = Subgraph::parse_and_expand("S1", "http://s1", schema, links).map_err(|e| {
        println!("{}", e.msg);
        String::from("failed to parse and expand the subgraph, see errors above for details")
    })?;
    assert!(has_type(&subgraph.schema, "T"));
    assert!(has_directive_definition(&subgraph.schema, "key"));
    assert!(has_directive_definition(&subgraph.schema, "federation__requires"));
    Ok(())
}

#[test]
fn can_parse_and_expand_with_renames() -> Result<(), String> {
    let schema = subgraph_schema(
        vec![link_application(
            "https://specs.apollo.dev/federation/v2.3",
            vec![
                Value::Object(vec![("name".to_string(), string("@key")), ("as".to_string(), string("@myKey"))]),
                string("@provides"),
            ],
            None,
        )],
        t_types("myKey", vec![applied("provides", vec![("fields", string("x"))])]),
        vec![],
    );
    let links = vec![Ok(federation_link(
        2,
        3,
        vec![import("key", true, Some("myKey")), import("provides", true, None)],
    ))];
    let subgraph = Subgraph::parse_and_expand("S1", "http://s1", schema, links).map_err(|e| {
        println!("{}", e.msg);
        String::from("failed to parse and expand the subgraph, see errors above for details")
    })?;
    assert!(has_directive_definition(&subgraph.schema, "myKey"));
    assert!(has_directive_definition(&subgraph.schema, "provides"));
    Ok(())
}

#[test]
fn can_parse_and_expand_with_namespace() -> Result<(), String> {
    let schema = subgraph_schema(
        vec![link_application("https://specs.apollo.dev/federation/v2.3", vec![string("@key")], Some("fed"))],
        t_types("key", vec![]),
        vec![],
    );
    let mut link = federation_link(2, 3, vec![import("key", true, None)]);
    link.spec_alias = Some("fed".to_string());
    let subgraph = Subgraph::parse_and_expand("S1", "http://s1", schema, vec![Ok(link)]).map_err(|e| {
        println!("{}", e.msg);
        String::from("failed to parse and expand the subgraph, see errors above for details")
    })?;
    assert!(has_directive_definition(&subgraph.schema, "key"));
    assert!(has_directive_definition(&subgraph.schema, "fed__requires"));
    Ok(())
}

#[test]
fn can_parse_and_expand_preserves_user_definitions() -> Result<(), String> {
    let mut types = t_types("key", vec![]);
    types.push(user_purpose_enum("Purpose"));
    types.push(user_import_scalar());
    let schema = subgraph_schema(
        vec![
            link_application("https://specs.apollo.dev/link/v1.0", vec![string("Import"), string("Purpose")], None),
            link_application("https://specs.apollo.dev/federation/v2.3", vec![string("@key")], None),
        ],
        types,
        vec![user_link_definition("Import", "Purpose")],
    );
    let links = vec![
        Ok(link_identity_link(vec![import("Import", false, None), import("Purpose", false, None)])),
        Ok(federation_link(2, 3, vec![import("key", true, None)])),
    ];
    let subgraph = Subgraph::parse_and_expand("S1", "http://s1", schema, links).map_err(|e| {
        println!("{}", e.msg);
        String::from("failed to parse and expand the subgraph, see errors above for details")
    })?;
    assert!(has_directive_definition(&subgraph.schema, "Purpose"));
    Ok(())
}

#[test]
fn can_parse_and_expand_works_with_fed_v1() -> Result<(), String> {
    let schema = subgraph_schema(vec![], t_types("key", vec![]), vec![]);
    let subgraph = Subgraph::parse_and_expand("S1", "http://s1", schema, vec![]).map_err(|e| {
        println!("{}", e.msg);
        String::from("failed to parse and expand the subgraph, see errors above for details")
    })?;
    assert!(has_type(&subgraph.schema, "T"));
    assert!(has_directive_definition(&subgraph.schema, "key"));
    Ok(())
}

#[test]
fn can_parse_and_expand_will_fail_when_importing_same_spec_twice() {
    let schema = subgraph_schema(
        vec![
            link_application("https://specs.apollo.dev/federation/v2.3", vec![string("@key")], None),
            link_application("https://specs.apollo.dev/federation/v2.3", vec![string("@provides")], None),
        ],
        t_types("key", vec![]),
        vec![],
    );
    let links = vec![
        Ok(federation_link(2, 3, vec![import("key", true, None)])),
        Ok(federation_link(2, 3, vec![import("provides", true, None)])),
    ];
    let result = Subgraph::parse_and_expand("S1", "http://s1", schema, links)
        .expect_err("importing same specification twice should fail");
    assert_eq!("invalid graphql schema - multiple @link imports for the federation specification are not supported", result.msg);
}

#[test]
fn a_link_that_cannot_be_read_stops_the_expansion_in_order() {
    let schema = subgraph_schema(vec![], t_types("key", vec![]), vec![]);
    let links = vec![
        Ok(federation_link(2, 3, vec![])),
        Err("Invalid use of @link in schema: missing url".to_string()),
        Ok(federation_link(2, 3, vec![])),
    ];
    let result = Subgraph::parse_and_expand("S1", "http://s1", schema, links).expect_err("an unreadable link");
    assert_eq!(result.msg, "Invalid use of @link in schema: missing url");
    let schema = subgraph_schema(vec![], t_types("key", vec![]), vec![]);
    let links = vec![
        Ok(federation_link(2, 3, vec![])),
        Ok(federation_link(2, 3, vec![])),
        Err("Invalid use of @link in schema: missing url".to_string()),
    ];
    let result = Subgraph::parse_and_expand("S1", "http://s1", schema, links).expect_err("a second federation link");
    assert!(result.msg.starts_with("invalid graphql schema - multiple @link imports"));
}

#[test]
fn expansion_adds_the_purpose_directive_only_where_the_purpose_is_imported() {
    let schema = subgraph_schema(
        vec![
            link_application("https://specs.apollo.dev/link/v1.0", vec![string("Import")], None),
            link_application("https://specs.apollo.dev/federation/v2.3", vec![string("@key")], None),
        ],
        t_types("key", vec![]),
        vec![],
    );
    let links = vec![
        Ok(link_identity_link(vec![import("Import", false, None)])),
        Ok(federation_link(2, 3, vec![import("key", true, None)])),
    ];
    let subgraph = Subgraph::parse_and_expand("S1", "http://s1", schema, links).unwrap();
    assert!(has_type(&subgraph.schema, "link__Purpose"));
    assert!(!has_directive_definition(&subgraph.schema, "link__Purpose"));
    assert!(!has_directive_definition(&subgraph.schema, "Purpose"));
}
