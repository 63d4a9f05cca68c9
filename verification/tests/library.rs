use apollo_federation::api_schema::{
    is_inaccessible_applied, is_join_type, is_semantic_directive_application, propagate_default_input_fields,
    remove_non_semantic_directives, retain_semantic_directives, Supergraph,
};
use apollo_federation::argument::{
    directive_optional_boolean_argument, directive_optional_enum_argument, directive_optional_fieldset_argument,
    directive_optional_string_argument, directive_required_boolean_argument, directive_required_enum_argument,
    directive_required_fieldset_argument, directive_required_string_argument,
};
use apollo_federation::ast::{decimal_string, string_lt, Argument, Directive, Value};
use apollo_federation::conditions::Conditions;
use apollo_federation::error::{FederationError, SingleFederationError};
use apollo_federation::federation_schema::FederationSchema;
use apollo_federation::inaccessible::InaccessibleSpecDefinition;
use apollo_federation::link::{
    Identity, Import, Link, LinksMetadata, Url, Version,
};
use apollo_federation::output::{label_edge, label_node};
use apollo_federation::print_order::{directive_printing_order, print_type_order, type_printing_order};
use apollo_federation::query_planner::{
    ConditionResolution, QueryPlanIncrementalDeliveryConfig, QueryPlannerConfig, QueryPlannerDebugConfig,
};
use apollo_federation::spec_definition::{
    get_inaccessible_spec_definition_from_subgraph, inaccessible_versions, SpecDefinitions,
};
use apollo_federation::satisfiability::{
    is_superset_or_equal, print_human_readable_list, print_subgraph_names, validate_graph_composition,
    ValidationTraversal, VertexVisit,
};
use apollo_federation::schema::{
    is_graphql_reserved_name, DirectiveDefinition, EnumValueDefinition, ExtendedType, FieldDefinition,
    InputValueDefinition, Schema, SchemaDefinition, Type,
};

fn s(text: &str) -> String {
    text.to_string()
}

fn applied(name: &str, arguments: Vec<(&str, Value)>) -> Directive {
    Directive {
        name: s(name),
        arguments: arguments.into_iter().map(|(n, value)| Argument { name: s(n), value }).collect(),
    }
}

fn internal_message(e: &FederationError) -> String {
    match e {
        FederationError::SingleFederationError(SingleFederationError::Internal { message }) => message.clone(),
        other => panic!("expected an internal error, got {:?}", other),
    }
}

fn invalid_graphql_message(e: &FederationError) -> String {
    match e {
        FederationError::SingleFederationError(SingleFederationError::InvalidGraphQL { message }) => {
            message.clone()
        }
        other => panic!("expected an invalid-GraphQL error, got {:?}", other),
    }
}

// Reading directive arguments.

#[test]
fn enum_arguments() {
    let d = applied("join__type", vec![("kind", Value::Enum(s("OBJECT"))), ("other", Value::Int(s("1")))]);
    assert_eq!(directive_optional_enum_argument(&d, "kind").unwrap(), Some(s("OBJECT")));
    assert_eq!(directive_optional_enum_argument(&d, "missing").unwrap(), None);
    assert_eq!(directive_required_enum_argument(&d, "kind").unwrap(), "OBJECT");
    assert_eq!(
        internal_message(&directive_required_enum_argument(&d, "missing").unwrap_err()),
        "Required argument \"missing\" of directive \"@join__type\" was not present."
    );
    assert_eq!(
        internal_message(&directive_optional_enum_argument(&d, "other").unwrap_err()),
        "Argument \"other\" of directive \"@join__type\" must be an enum value."
    );
    let null = applied("d", vec![("kind", Value::Null)]);
    assert_eq!(directive_optional_enum_argument(&null, "kind").unwrap(), None);
    assert!(directive_required_enum_argument(&null, "kind").is_err());
}

#[test]
fn string_and_boolean_arguments() {
    let d = applied(
        "key",
        vec![("fields", Value::String(s("id"))), ("resolvable", Value::Boolean(false)), ("n", Value::Int(s("2")))],
    );
    assert_eq!(directive_optional_string_argument(&d, "fields").unwrap(), Some(s("id")));
    assert_eq!(directive_required_string_argument(&d, "fields").unwrap(), "id");
    assert_eq!(
        internal_message(&directive_required_string_argument(&d, "resolvable").unwrap_err()),
        "Argument \"resolvable\" of directive \"@key\" must be a string."
    );
    assert_eq!(directive_optional_boolean_argument(&d, "resolvable").unwrap(), Some(false));
    assert_eq!(directive_required_boolean_argument(&d, "resolvable").unwrap(), false);
    assert_eq!(directive_optional_boolean_argument(&d, "absent").unwrap(), None);
    assert_eq!(
        internal_message(&directive_required_boolean_argument(&d, "n").unwrap_err()),
        "Argument \"n\" of directive \"@key\" must be a boolean."
    );
    assert_eq!(directive_optional_fieldset_argument(&d, "fields").unwrap(), Some(s("id")));
    assert_eq!(directive_required_fieldset_argument(&d, "fields").unwrap(), "id");
    assert_eq!(
        invalid_graphql_message(&directive_optional_fieldset_argument(&d, "n").unwrap_err()),
        "Invalid value for argument \"n\": must be a string."
    );
}

#[test]
fn the_first_argument_of_a_name_counts() {
    let d = applied("d", vec![("a", Value::String(s("first"))), ("a", Value::String(s("second")))]);
    assert_eq!(directive_required_string_argument(&d, "a").unwrap(), "first");
}

// Conditions.

fn skip_if(v: Value) -> Directive {
    applied("skip", vec![("if", v)])
}

fn include_if(v: Value) -> Directive {
    applied("include", vec![("if", v)])
}

#[test]
fn conditions_from_directives() {
    let c = Conditions::from_directives(&vec![]).unwrap();
    assert!(matches!(c, Conditions::Boolean(true)));
    let c = Conditions::from_directives(&vec![skip_if(Value::Boolean(true))]).unwrap();
    assert!(matches!(c, Conditions::Boolean(false)));
    let c = Conditions::from_directives(&vec![include_if(Value::Boolean(true)), skip_if(Value::Boolean(false))])
        .unwrap();
    assert!(matches!(c, Conditions::Boolean(true)));
    let c = Conditions::from_directives(&vec![skip_if(Value::Variable(s("a"))), include_if(Value::Variable(s("b")))])
        .unwrap();
    match c {
        Conditions::Variables(v) => {
            assert_eq!(v.iter(), vec![(s("a"), true), (s("b"), false)]);
            assert_eq!(v.is_negated("a"), Some(true));
            assert_eq!(v.is_negated("c"), None);
            assert_eq!(v.get("b").unwrap().negated, false);
            assert!(!v.is_empty());
        }
        Conditions::Boolean(_) => panic!("expected variable conditions"),
    }
    // `@skip(if: $a) @include(if: $a)` can never hold.
    let c = Conditions::from_directives(&vec![skip_if(Value::Variable(s("a"))), include_if(Value::Variable(s("a")))])
        .unwrap();
    assert!(matches!(c, Conditions::Boolean(false)));
}

#[test]
fn conditions_errors() {
    let e = Conditions::from_directives(&vec![applied("skip", vec![])]).unwrap_err();
    assert_eq!(internal_message(&e), "missing if argument on @skip");
    let e = Conditions::from_directives(&vec![applied("include", vec![])]).unwrap_err();
    assert_eq!(internal_message(&e), "missing if argument on @include");
    let e = Conditions::from_directives(&vec![skip_if(Value::String(s("x")))]).unwrap_err();
    assert_eq!(internal_message(&e), "expected boolean or variable `if` argument, got \"x\"");
}

#[test]
fn merging_conditions_is_their_conjunction() {
    let a = Conditions::from_directives(&vec![skip_if(Value::Variable(s("a")))]).unwrap();
    let b = Conditions::from_directives(&vec![include_if(Value::Variable(s("b")))]).unwrap();
    match a.merge(b) {
        Conditions::Variables(v) => assert_eq!(v.iter(), vec![(s("a"), true), (s("b"), false)]),
        Conditions::Boolean(_) => panic!("expected variable conditions"),
    }
    let a = Conditions::from_directives(&vec![skip_if(Value::Variable(s("a")))]).unwrap();
    let not_a = Conditions::from_directives(&vec![include_if(Value::Variable(s("a")))]).unwrap();
    assert!(matches!(a.merge(not_a), Conditions::Boolean(false)));
    let a = Conditions::from_directives(&vec![skip_if(Value::Variable(s("a")))]).unwrap();
    assert!(matches!(Conditions::Boolean(false).merge(a), Conditions::Boolean(false)));
    let a = Conditions::from_directives(&vec![skip_if(Value::Variable(s("a")))]).unwrap();
    match Conditions::Boolean(true).merge(a) {
        Conditions::Variables(v) => assert_eq!(v.iter(), vec![(s("a"), true)]),
        Conditions::Boolean(_) => panic!("expected variable conditions"),
    }
}

#[test]
fn updating_conditions_drops_those_already_handled() {
    let handled = Conditions::from_directives(&vec![skip_if(Value::Variable(s("a")))]).unwrap();
    let both = Conditions::from_directives(&vec![skip_if(Value::Variable(s("a"))), include_if(Value::Variable(s("b")))])
        .unwrap();
    match handled.update_with(&both) {
        Conditions::Variables(v) => assert_eq!(v.iter(), vec![(s("b"), false)]),
        Conditions::Boolean(_) => panic!("expected variable conditions"),
    }
    let same = Conditions::from_directives(&vec![skip_if(Value::Variable(s("a")))]).unwrap();
    assert!(matches!(handled.update_with(&same), Conditions::Boolean(true)));
    let opposite = Conditions::from_directives(&vec![include_if(Value::Variable(s("a")))]).unwrap();
    assert!(matches!(handled.update_with(&opposite), Conditions::Boolean(false)));
}

// API schemas.

fn input(name: &str, ty: Type, default_value: Option<Value>, directives: Vec<Directive>) -> InputValueDefinition {
    InputValueDefinition { name: s(name), ty, default_value, directives }
}

fn field(name: &str, arguments: Vec<InputValueDefinition>, ty: &str, directives: Vec<Directive>) -> FieldDefinition {
    FieldDefinition { name: s(name), arguments, ty: Type::Named(s(ty)), directives }
}

fn empty_definition() -> SchemaDefinition {
    SchemaDefinition { directives: vec![], query: Some(s("Query")), mutation: None, subscription: None }
}

#[test]
fn join_types_and_inaccessible() {
    assert!(is_join_type("join__Graph"));
    assert!(is_join_type("link__Import"));
    assert!(!is_join_type("join__Other"));
    assert!(is_inaccessible_applied(&vec![applied("tag", vec![]), applied("inaccessible", vec![])]));
    assert!(!is_inaccessible_applied(&vec![applied("tag", vec![])]));
}

#[test]
fn api_schema_drops_inaccessible_interface_arguments_and_union_members() {
    let supergraph = Supergraph {
        schema: Schema {
            schema_definition: SchemaDefinition { directives: vec![], query: None, mutation: None, subscription: None },
            types: vec![
                ExtendedType::Interface {
                    name: s("I"),
                    implements_interfaces: vec![],
                    directives: vec![],
                    fields: vec![field(
                        "f",
                        vec![
                            input("x", Type::Named(s("Int")), None, vec![applied("inaccessible", vec![])]),
                            input("y", Type::Named(s("Int")), None, vec![]),
                        ],
                        "Int",
                        vec![],
                    )],
                },
                ExtendedType::Object {
                    name: s("M"),
                    implements_interfaces: vec![],
                    directives: vec![applied("inaccessible", vec![])],
                    fields: vec![field("a", vec![], "Int", vec![])],
                },
                ExtendedType::Object {
                    name: s("N"),
                    implements_interfaces: vec![],
                    directives: vec![],
                    fields: vec![field("b", vec![], "Int", vec![])],
                },
                ExtendedType::Union { name: s("U"), directives: vec![], members: vec![s("M"), s("N")] },
            ],
            directive_definitions: vec![],
        },
    };
    let api = supergraph.to_api_schema();
    match &api.types[0] {
        ExtendedType::Interface { fields, .. } => {
            let argument_names: Vec<&str> = fields[0].arguments.iter().map(|a| a.name.as_str()).collect();
            assert_eq!(argument_names, vec!["y"]);
        }
        _ => panic!("I should stay an interface type"),
    }
    assert_eq!(api.types[2], ExtendedType::Union { name: s("U"), directives: vec![], members: vec![s("N")] });
}

#[test]
fn api_schema_drops_federation_elements() {
    let supergraph = Supergraph {
        schema: Schema {
            schema_definition: SchemaDefinition {
                directives: vec![applied("link", vec![("url", Value::String(s("https://specs.apollo.dev/link/v1.0")))])],
                query: Some(s("Query")),
                mutation: None,
                subscription: None,
            },
            types: vec![
                ExtendedType::Enum {
                    name: s("join__Graph"),
                    directives: vec![],
                    values: vec![EnumValueDefinition { value: s("A"), directives: vec![] }],
                },
                ExtendedType::Object {
                    name: s("Query"),
                    implements_interfaces: vec![],
                    directives: vec![applied("join__type", vec![])],
                    fields: vec![
                        field("visible", vec![], "E", vec![applied("join__field", vec![])]),
                        field("hidden", vec![], "Int", vec![applied("inaccessible", vec![])]),
                        field(
                            "withArgs",
                            vec![
                                input("kept", Type::Named(s("Int")), None, vec![]),
                                input("dropped", Type::Named(s("Int")), None, vec![applied("inaccessible", vec![])]),
                            ],
                            "Int",
                            vec![],
                        ),
                    ],
                },
                ExtendedType::Object {
                    name: s("Secret"),
                    implements_interfaces: vec![],
                    directives: vec![applied("inaccessible", vec![])],
                    fields: vec![field("x", vec![], "Int", vec![])],
                },
                ExtendedType::Enum {
                    name: s("E"),
                    directives: vec![],
                    values: vec![
                        EnumValueDefinition { value: s("X"), directives: vec![] },
                        EnumValueDefinition { value: s("Y"), directives: vec![applied("inaccessible", vec![])] },
                    ],
                },
            ],
            directive_definitions: vec![DirectiveDefinition {
                name: s("join__type"),
                arguments: vec![],
                repeatable: true,
                locations: vec![s("OBJECT")],
            }],
        },
    };
    let api = supergraph.to_api_schema();
    assert!(api.schema_definition.directives.is_empty());
    assert_eq!(api.schema_definition.query, Some(s("Query")));
    assert!(api.directive_definitions.is_empty());
    let names: Vec<&str> = api.types.iter().map(|t| t.name().as_str()).collect();
    assert_eq!(names, vec!["Query", "E"]);
    match &api.types[0] {
        ExtendedType::Object { directives, fields, .. } => {
            assert!(directives.is_empty());
            let field_names: Vec<&str> = fields.iter().map(|f| f.name.as_str()).collect();
            assert_eq!(field_names, vec!["visible", "withArgs"]);
            assert!(fields[0].directives.is_empty());
            let argument_names: Vec<&str> = fields[1].arguments.iter().map(|a| a.name.as_str()).collect();
            assert_eq!(argument_names, vec!["kept"]);
        }
        _ => panic!("Query should stay an object type"),
    }
    match &api.types[1] {
        ExtendedType::Enum { values, .. } => {
            let value_names: Vec<&str> = values.iter().map(|v| v.value.as_str()).collect();
            assert_eq!(value_names, vec!["X"]);
        }
        _ => panic!("E should stay an enum type"),
    }
}

#[test]
fn semantic_directive_applications() {
    assert!(is_semantic_directive_application(&applied("specifiedBy", vec![("url", Value::String(s("u")))])));
    assert!(is_semantic_directive_application(&applied("deprecated", vec![])));
    assert!(is_semantic_directive_application(&applied("deprecated", vec![("reason", Value::String(s("r")))])));
    assert!(!is_semantic_directive_application(&applied("deprecated", vec![("reason", Value::Null)])));
    assert!(!is_semantic_directive_application(&applied("key", vec![])));
    let mut directives = vec![applied("key", vec![]), applied("deprecated", vec![]), applied("tag", vec![])];
    retain_semantic_directives(&mut directives);
    assert_eq!(directives, vec![applied("deprecated", vec![])]);
}

#[test]
fn non_semantic_directives_are_removed_everywhere() {
    let mut schema = Schema {
        schema_definition: SchemaDefinition {
            directives: vec![applied("link", vec![])],
            query: Some(s("Query")),
            mutation: None,
            subscription: None,
        },
        types: vec![
            ExtendedType::Object {
                name: s("Query"),
                implements_interfaces: vec![],
                directives: vec![applied("key", vec![])],
                fields: vec![field(
                    "f",
                    vec![input("a", Type::Named(s("Int")), None, vec![applied("tag", vec![]), applied("deprecated", vec![])])],
                    "Int",
                    vec![applied("deprecated", vec![]), applied("external", vec![])],
                )],
            },
            ExtendedType::Scalar { name: s("Date"), directives: vec![applied("specifiedBy", vec![])] },
        ],
        directive_definitions: vec![DirectiveDefinition {
            name: s("d"),
            arguments: vec![input("x", Type::Named(s("Int")), None, vec![applied("tag", vec![])])],
            repeatable: false,
            locations: vec![s("FIELD")],
        }],
    };
    remove_non_semantic_directives(&mut schema);
    assert!(schema.schema_definition.directives.is_empty());
    match &schema.types[0] {
        ExtendedType::Object { directives, fields, .. } => {
            assert!(directives.is_empty());
            assert_eq!(fields[0].directives, vec![applied("deprecated", vec![])]);
            assert_eq!(fields[0].arguments[0].directives, vec![applied("deprecated", vec![])]);
        }
        _ => panic!("Query should stay an object type"),
    }
    assert_eq!(schema.types[1].directives(), &vec![applied("specifiedBy", vec![])]);
    assert!(schema.directive_definitions[0].arguments[0].directives.is_empty());
}

#[test]
fn default_input_fields_are_propagated() {
    // input In { a: Int = 1, b: Int, nested: Nested }  input Nested { c: Int = 3 }
    // type Query { f(arg: In = { b: 2, nested: {} }): Int }
    let mut schema = Schema {
        schema_definition: empty_definition(),
        types: vec![
            ExtendedType::InputObject {
                name: s("In"),
                directives: vec![],
                input_fields: vec![
                    input("a", Type::Named(s("Int")), Some(Value::Int(s("1"))), vec![]),
                    input("b", Type::Named(s("Int")), None, vec![]),
                    input("nested", Type::Named(s("Nested")), None, vec![]),
                ],
            },
            ExtendedType::InputObject {
                name: s("Nested"),
                directives: vec![],
                input_fields: vec![input("c", Type::Named(s("Int")), Some(Value::Int(s("3"))), vec![])],
            },
            ExtendedType::Object {
                name: s("Query"),
                implements_interfaces: vec![],
                directives: vec![],
                fields: vec![field(
                    "f",
                    vec![input(
                        "arg",
                        Type::Named(s("In")),
                        Some(Value::Object(vec![
                            (s("b"), Value::Int(s("2"))),
                            (s("nested"), Value::Object(vec![])),
                        ])),
                        vec![],
                    )],
                    "Int",
                    vec![],
                )],
            },
        ],
        directive_definitions: vec![],
    };
    propagate_default_input_fields(&mut schema);
    match &schema.types[2] {
        ExtendedType::Object { fields, .. } => {
            assert_eq!(
                fields[0].arguments[0].default_value,
                Some(Value::Object(vec![
                    (s("b"), Value::Int(s("2"))),
                    (s("nested"), Value::Object(vec![(s("c"), Value::Int(s("3")))])),
                    (s("a"), Value::Int(s("1"))),
                ]))
            );
        }
        _ => panic!("Query should stay an object type"),
    }
}

// Links.

fn link(name: &str, major: u32, minor: u32, alias: Option<&str>, imports: Vec<Import>) -> Link {
    Link {
        url: Url {
            identity: Identity { domain: s("https://specs.apollo.dev"), name: s(name) },
            version: Version { major, minor },
        },
        spec_alias: alias.map(s),
        imports,
        purpose: None,
    }
}

fn import(element: &str, is_directive: bool, alias: Option<&str>) -> Import {
    Import { element: s(element), is_directive, alias: alias.map(s) }
}

#[test]
fn versions() {
    let v = Version { major: 2, minor: 3 };
    assert!(v.satisfies(&Version { major: 2, minor: 1 }));
    assert!(!v.satisfies(&Version { major: 2, minor: 4 }));
    assert!(!v.satisfies(&Version { major: 1, minor: 0 }));
    assert!(v.satisfies_range(&Version { major: 2, minor: 0 }, &Version { major: 2, minor: 4 }));
    assert!(!Version { major: 2, minor: 5 }.satisfies_range(&Version { major: 2, minor: 0 }, &Version { major: 2, minor: 4 }));
    assert_eq!(v.to_text(), "2.3");
    assert_eq!(decimal_string(0), "0");
    assert_eq!(decimal_string(4294967295), "4294967295");
}

#[test]
fn names_in_schema() {
    let l = link("federation", 2, 3, None, vec![import("key", true, Some("myKey")), import("FieldSet", false, None)]);
    assert_eq!(l.url.to_text(), "https://specs.apollo.dev/federation/v2.3");
    assert_eq!(l.spec_name_in_schema(), "federation");
    assert_eq!(l.directive_name_in_schema("key"), "myKey");
    assert_eq!(l.directive_name_in_schema("requires"), "federation__requires");
    assert_eq!(l.directive_name_in_schema("federation"), "federation");
    assert_eq!(l.type_name_in_schema("FieldSet"), "FieldSet");
    assert_eq!(l.type_name_in_schema("Scope"), "federation__Scope");
    let aliased = link("federation", 2, 3, Some("fed"), vec![]);
    assert_eq!(aliased.spec_name_in_schema(), "fed");
    assert_eq!(aliased.directive_name_in_schema("key"), "fed__key");
    assert_eq!(l.imports[0].imported_name(), "myKey");
    assert_eq!(l.imports[0].imported_display_name(), "@myKey");
    assert_eq!(l.imports[1].imported_display_name(), "FieldSet");
}

#[test]
fn links_metadata_finds_the_source_of_elements() {
    let metadata = LinksMetadata {
        links: vec![
            link("link", 1, 0, None, vec![import("Import", false, None)]),
            link("federation", 2, 3, None, vec![import("key", true, None)]),
        ],
    };
    assert_eq!(metadata.all_links().len(), 2);
    assert_eq!(metadata.for_identity(&Identity::federation_identity()).unwrap().url.version.minor, 3);
    assert!(metadata.for_identity(&Identity::inaccessible_identity()).is_none());
    let key = metadata.source_link_of_directive("key").unwrap();
    assert_eq!(key.link.url.identity.name, "federation");
    assert_eq!(key.import.unwrap().element, "key");
    let requires = metadata.source_link_of_directive("federation__requires").unwrap();
    assert_eq!(requires.link.url.identity.name, "federation");
    assert!(requires.import.is_none());
    assert!(metadata.source_link_of_directive("custom").is_none());
    let import_type = metadata.source_link_of_type("Import").unwrap();
    assert_eq!(import_type.link.url.identity.name, "link");
    assert!(metadata.source_link_of_type("link__Purpose").unwrap().import.is_none());
    assert!(metadata.source_link_of_type("Query").is_none());
}

// The inaccessible specification.

fn federation_schema(links: Option<Vec<Link>>) -> FederationSchema {
    FederationSchema::new(
        Schema {
            schema_definition: SchemaDefinition { directives: vec![], query: None, mutation: None, subscription: None },
            types: vec![ExtendedType::Scalar { name: s("inaccessible__Scope"), directives: vec![] }],
            directive_definitions: vec![DirectiveDefinition {
                name: s("hidden"),
                arguments: vec![],
                repeatable: false,
                locations: vec![s("FIELD_DEFINITION")],
            }],
        },
        links.map(|links| LinksMetadata { links }),
    )
    .unwrap()
}

#[test]
fn inaccessible_specification_in_a_schema() {
    let spec = InaccessibleSpecDefinition::new(Version { major: 0, minor: 2 }, Some(Version { major: 2, minor: 0 }));
    assert_eq!(spec.to_text(), "https://specs.apollo.dev/inaccessible/v0.2");
    let schema = federation_schema(Some(vec![link("inaccessible", 0, 2, None, vec![import("inaccessible", true, Some("hidden"))])]));
    assert!(schema.metadata().is_some());
    assert_eq!(spec.link_in_schema(&schema).unwrap().unwrap().url.version.minor, 2);
    assert!(spec.is_spec_directive_name(&schema, "hidden").unwrap());
    assert!(!spec.is_spec_directive_name(&schema, "key").unwrap());
    assert!(spec.is_spec_type_name(&schema, "inaccessible__Scope").unwrap());
    assert_eq!(spec.directive_name_in_schema(&schema, "inaccessible").unwrap(), Some(s("hidden")));
    assert_eq!(spec.type_name_in_schema(&schema, "Scope").unwrap(), Some(s("inaccessible__Scope")));
    assert_eq!(spec.directive_definition(&schema, "inaccessible").unwrap().unwrap().name, "hidden");
    assert!(spec.type_definition(&schema, "Scope").unwrap().is_some());
    assert_eq!(spec.inaccessible_directive(&schema).unwrap(), applied("hidden", vec![]));

    let unlinked = federation_schema(Some(vec![]));
    assert!(spec.link_in_schema(&unlinked).unwrap().is_none());
    assert_eq!(spec.directive_name_in_schema(&unlinked, "inaccessible").unwrap(), None);

    let not_core = federation_schema(None);
    assert_eq!(
        internal_message(&spec.link_in_schema(&not_core).unwrap_err()),
        "Schema is not a core schema (add @link first)"
    );
}

// Printing orders, labels and names.

#[test]
fn types_print_by_kind_then_name() {
    let types = vec![
        ExtendedType::Scalar { name: s("Date"), directives: vec![] },
        ExtendedType::Object { name: s("Query"), implements_interfaces: vec![], directives: vec![], fields: vec![] },
        ExtendedType::Enum { name: s("Color"), directives: vec![], values: vec![] },
        ExtendedType::Object { name: s("Book"), implements_interfaces: vec![], directives: vec![], fields: vec![] },
        ExtendedType::Union { name: s("Item"), directives: vec![], members: vec![] },
        ExtendedType::Interface { name: s("Node"), implements_interfaces: vec![], directives: vec![], fields: vec![] },
        ExtendedType::InputObject { name: s("Filter"), directives: vec![], input_fields: vec![] },
    ];
    assert_eq!(print_type_order(&types[2]), 1);
    assert_eq!(print_type_order(&types[0]), 6);
    assert_eq!(type_printing_order(&types), vec![2, 5, 4, 3, 1, 6, 0]);
    let defs = vec![
        DirectiveDefinition { name: s("tag"), arguments: vec![], repeatable: true, locations: vec![] },
        DirectiveDefinition { name: s("key"), arguments: vec![], repeatable: true, locations: vec![] },
        DirectiveDefinition { name: s("Key"), arguments: vec![], repeatable: true, locations: vec![] },
    ];
    assert_eq!(directive_printing_order(&defs), vec![2, 1, 0]);
    assert!(string_lt(&s("Key"), &s("key")));
    assert!(string_lt(&s("ke"), &s("key")));
    assert!(!string_lt(&s("key"), &s("key")));
}

#[test]
fn graphviz_labels() {
    assert_eq!(label_edge(""), "");
    assert_eq!(label_edge("a.b"), "label=\"a.b\"");
    assert_eq!(label_node("Query(S1)"), "label=\"Query(S1)\"");
}

#[test]
fn reserved_names() {
    assert!(is_graphql_reserved_name("__typename"));
    assert!(!is_graphql_reserved_name("_x"));
    assert!(!is_graphql_reserved_name(""));
}

// Satisfiability.

fn visit(subgraphs: Vec<&str>, conditions: Vec<(&str, bool)>) -> VertexVisit {
    VertexVisit {
        subgraphs: subgraphs.into_iter().map(s).collect(),
        override_conditions: conditions.into_iter().map(|(l, c)| (s(l), c)).collect(),
    }
}

#[test]
fn vertex_visits() {
    let big = visit(vec!["A", "B"], vec![("l1", true), ("l2", false)]);
    let small = visit(vec!["B"], vec![("l2", false)]);
    assert!(is_superset_or_equal(&big, &small));
    assert!(!is_superset_or_equal(&small, &big));
    assert!(is_superset_or_equal(&small, &small));
    let other_value = visit(vec!["B"], vec![("l2", true)]);
    assert!(!is_superset_or_equal(&big, &other_value));
}

#[test]
fn human_readable_lists() {
    assert_eq!(print_subgraph_names(&[s("A"), s("B"), s("C")]), "subgraphs \"A\", \"B\", \"C\"");
    assert_eq!(print_subgraph_names(&[s("A")]), "subgraph \"A\"");
    let prefix = Some(s("subgraph"));
    let plural = Some(s("subgraphs"));
    assert_eq!(print_human_readable_list(vec![s("a")], None, prefix.clone(), plural.clone(), None, None), "subgraph a");
    assert_eq!(
        print_human_readable_list(vec![s("a"), s("b"), s("c")], None, prefix.clone(), plural.clone(), Some(s(" and ")), None),
        "subgraphs a, b and c"
    );
    assert_eq!(
        print_human_readable_list(vec![s("aaaa"), s("bbbb"), s("cccc")], None, None, None, None, Some(9)),
        "aaaa, bbbb, ..."
    );
    assert_eq!(print_human_readable_list(vec![s("aaaa"), s("bbbb")], None, None, None, None, Some(2)), "aaaa, ...");
    assert_eq!(print_human_readable_list(vec![], Some(s("none")), None, None, None, None), "none");
    assert_eq!(print_subgraph_names(&[]), "");
    assert_eq!(print_human_readable_list(vec![s("x")], None, None, None, None, None), "x");
    assert_eq!(print_human_readable_list(vec![s("x"), s("y")], None, None, None, None, None), "x, y");
}

#[test]
fn satisfiability_validation_reports_its_absence() {
    let mut traversal = ValidationTraversal::new(0);
    let (errors, hints) = traversal.validate().unwrap_err();
    assert_eq!(errors.len(), 1);
    assert!(hints.is_empty());
    let (errors, _) = validate_graph_composition(0).unwrap_err();
    assert_eq!(errors.len(), 1);
}

// Query planner configuration.

#[test]
fn query_planner_defaults() {
    let config = QueryPlannerConfig::default();
    assert!(config.reuse_query_fragments);
    assert!(!config.subgraph_graphql_validation);
    assert!(!config.incremental_delivery.enable_defer);
    assert_eq!(config.debug.max_evaluated_plans, 10000);
    assert_eq!(config.debug.paths_limit, None);
    assert!(!QueryPlanIncrementalDeliveryConfig::default().enable_defer);
    assert!(!QueryPlannerDebugConfig::default().bypass_planner_for_single_subgraph);
    let none = ConditionResolution::no_conditions();
    assert!(none.satisfied);
    assert_eq!(none.cost, 0);
    let unsatisfied = ConditionResolution::unsatisfied_conditions();
    assert!(!unsatisfied.satisfied);
    assert_eq!(unsatisfied.cost, -1);
}

// Known versions of a specification.

#[test]
fn spec_definitions_keep_versions_in_order() {
    let mut definitions = SpecDefinitions::new(Identity::inaccessible_identity());
    definitions.add(InaccessibleSpecDefinition::new(Version { major: 0, minor: 2 }, None)).unwrap();
    definitions.add(InaccessibleSpecDefinition::new(Version { major: 0, minor: 1 }, None)).unwrap();
    definitions
        .add(InaccessibleSpecDefinition::new(Version { major: 0, minor: 2 }, Some(Version { major: 2, minor: 0 })))
        .unwrap();
    assert_eq!(definitions.versions(), vec![Version { major: 0, minor: 1 }, Version { major: 0, minor: 2 }]);
    // The version already known stays as it was.
    assert_eq!(definitions.find(&Version { major: 0, minor: 2 }).unwrap().minimum_federation_version, None);
    assert!(definitions.find(&Version { major: 0, minor: 3 }).is_none());
    let other = InaccessibleSpecDefinition {
        url: Url { identity: Identity::federation_identity(), version: Version { major: 2, minor: 0 } },
        minimum_federation_version: None,
    };
    assert_eq!(
        internal_message(&definitions.add(other).unwrap_err()),
        "Cannot add definition for https://specs.apollo.dev/federation/v2.0 to the versions of definitions for https://specs.apollo.dev/inaccessible"
    );
    let known = inaccessible_versions();
    assert_eq!(known.versions(), vec![Version { major: 0, minor: 1 }, Version { major: 0, minor: 2 }]);
}

#[test]
fn inaccessible_spec_definition_of_a_subgraph() {
    let schema = federation_schema(Some(vec![link("inaccessible", 0, 2, None, vec![])]));
    let definition = get_inaccessible_spec_definition_from_subgraph(&schema).unwrap();
    assert_eq!(definition.minimum_federation_version, Some(Version { major: 2, minor: 0 }));
    let schema = federation_schema(Some(vec![link("inaccessible", 0, 3, None, vec![])]));
    assert_eq!(
        internal_message(&get_inaccessible_spec_definition_from_subgraph(&schema).unwrap_err()),
        "Subgraph unexpectedly does not use a supported inaccessible spec version"
    );
    let schema = federation_schema(Some(vec![]));
    assert_eq!(
        internal_message(&get_inaccessible_spec_definition_from_subgraph(&schema).unwrap_err()),
        "Subgraph unexpectedly does not use inaccessible spec"
    );
}
