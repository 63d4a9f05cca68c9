use apollo_federation::error::{FederationError, SingleFederationError};
use apollo_federation::federation_schema::FederationSchema;
use apollo_federation::schema::{Schema, SchemaDefinition, Type};
use apollo_federation::ast::{Argument, Directive, Value};
use apollo_federation::federation_operations::FederationSubgraph;
use apollo_federation::federation_spec::FederationSpecDefinitions;
use apollo_federation::link::{Identity, Link, Url, Version};
use apollo_federation::schema::{DirectiveDefinition, ExtendedType, FieldDefinition, InputValueDefinition, SchemaRootDefinitionKind};
use apollo_federation::join_arguments::ImplementsDirectiveArguments;
use apollo_federation::subgraph_extraction::{
    add_subgraph_field, decode_parsed_type, decode_type, type_from_parts_exec, FederationSubgraphs,
    FieldDirectiveArguments, TypeDirectiveArguments, TypeInfo,
};

fn s(text: &str) -> String {
    text.to_string()
}

fn invalid_graphql(e: FederationError) -> String {
    match e {
        FederationError::SingleFederationError(SingleFederationError::InvalidGraphQL { message }) => message,
        other => panic!("expected an invalid GraphQL error, got {:?}", other),
    }
}

#[test]
fn decoding_named_and_non_null_types() {
    assert_eq!(decode_type("Int").unwrap(), Type::Named(s("Int")));
    assert_eq!(decode_type("ID!").unwrap(), Type::NonNullNamed(s("ID")));
}

#[test]
fn decoding_list_types() {
    assert_eq!(
        decode_type("[String!]!").unwrap(),
        Type::NonNullList(Box::new(Type::NonNullNamed(s("String"))))
    );
    assert_eq!(
        decode_type("[[T]!]").unwrap(),
        Type::List(Box::new(Type::NonNullList(Box::new(Type::Named(s("T"))))))
    );
}

#[test]
fn decoding_refuses_text_that_ends_the_field() {
    assert_eq!(invalid_graphql(decode_type("Int } type X {").unwrap_err()), "Cannot parse type \"Int } type X {\"");
    assert_eq!(invalid_graphql(decode_type("a: Int").unwrap_err()), "Cannot parse type \"a: Int\"");
}

#[test]
fn decoding_refuses_text_that_is_no_type() {
    assert_eq!(invalid_graphql(decode_type("").unwrap_err()), "Cannot parse type \"\"");
}

#[test]
fn building_types_from_their_parts() {
    assert_eq!(
        type_from_parts_exec(&vec![false, true], true, s("A")),
        Type::List(Box::new(Type::NonNullList(Box::new(Type::NonNullNamed(s("A"))))))
    );
    assert_eq!(decode_parsed_type("A", Some((vec![], false, s("A")))).unwrap(), Type::Named(s("A")));
    assert_eq!(invalid_graphql(decode_parsed_type("?", None).unwrap_err()), "Cannot parse type \"?\"");
}

fn subgraph(name: &str) -> FederationSubgraph {
    let schema = Schema {
        schema_definition: SchemaDefinition { directives: vec![], query: None, mutation: None, subscription: None },
        types: vec![],
        directive_definitions: vec![],
    };
    FederationSubgraph { name: s(name), url: format!("http://{name}"), schema: FederationSchema::new(schema, None).unwrap() }
}

#[test]
fn subgraphs_are_found_by_name_and_names_are_not_reused() {
    let mut subgraphs = FederationSubgraphs::new();
    assert!(subgraphs.get("a").is_none());
    subgraphs.add(subgraph("a")).unwrap();
    subgraphs.add(subgraph("b")).unwrap();
    assert_eq!(subgraphs.get("b").unwrap().url, "http://b");
    match subgraphs.add(subgraph("a")).unwrap_err() {
        FederationError::SingleFederationError(SingleFederationError::InvalidFederationSupergraph { message }) => {
            assert_eq!(message, "A subgraph named \"a\" already exists")
        },
        other => panic!("expected an invalid supergraph error, got {:?}", other),
    }
    assert_eq!(subgraphs.get("a").unwrap().url, "http://a");
    assert!(subgraphs.get("c").is_none());
}

fn federation_without_imports() -> FederationSpecDefinitions {
    apollo_federation::federation_spec::FederationSpecDefinitions::from_link(Link {
        url: Url {
            identity: Identity { domain: s("https://specs.apollo.dev"), name: s("federation") },
            version: Version { major: 2, minor: 4 },
        },
        spec_alias: None,
        imports: vec![],
        purpose: None,
    })
    .unwrap()
}

/// A subgraph whose schema defines the key and interface object directives under their
/// `federation__` names.
fn federated_subgraph(name: &str) -> FederationSubgraph {
    let fields = InputValueDefinition { name: s("fields"), ty: Type::NonNullNamed(s("String")), default_value: None, directives: vec![] };
    let resolvable = InputValueDefinition { name: s("resolvable"), ty: Type::Named(s("Boolean")), default_value: None, directives: vec![] };
    let schema = Schema {
        schema_definition: SchemaDefinition { directives: vec![], query: None, mutation: None, subscription: None },
        types: vec![
            ExtendedType::Scalar { name: s("String"), directives: vec![] },
            ExtendedType::Scalar { name: s("Boolean"), directives: vec![] },
        ],
        directive_definitions: vec![
            DirectiveDefinition { name: s("federation__key"), arguments: vec![fields, resolvable], repeatable: true, locations: vec![s("OBJECT")] },
            DirectiveDefinition { name: s("federation__interfaceObject"), arguments: vec![], repeatable: false, locations: vec![s("OBJECT")] },
        ],
    };
    FederationSubgraph { name: s(name), url: format!("http://{name}"), schema: FederationSchema::new(schema, None).unwrap() }
}

fn join_type(graph: &str, key: Option<&str>, is_interface_object: bool) -> TypeDirectiveArguments {
    TypeDirectiveArguments { graph: s(graph), key: key.map(s), extension: false, resolvable: true, is_interface_object }
}

fn extraction_setup() -> (FederationSubgraphs, Vec<(String, String)>, Vec<(String, FederationSpecDefinitions)>) {
    let mut subgraphs = FederationSubgraphs::new();
    subgraphs.add(federated_subgraph("a")).unwrap();
    subgraphs.add(federated_subgraph("b")).unwrap();
    let graphs = vec![(s("A"), s("a")), (s("B"), s("b"))];
    let feds = vec![(s("A"), federation_without_imports()), (s("B"), federation_without_imports())];
    (subgraphs, graphs, feds)
}

fn object(name: &str) -> ExtendedType {
    ExtendedType::Object { name: s(name), implements_interfaces: vec![], directives: vec![], fields: vec![] }
}

#[test]
fn an_empty_type_goes_to_each_subgraph_of_its_join_types_and_further_keys_are_applied() {
    let (mut subgraphs, graphs, feds) = extraction_setup();
    let apps = vec![join_type("A", Some("id"), false), join_type("B", None, false), join_type("A", Some("upc"), false)];
    let info = subgraphs.add_empty_type(&s("Product"), &object("Product"), &apps, &graphs, &feds).unwrap();
    assert_eq!(info.name, "Product");
    assert_eq!(info.subgraph_info, vec![(s("A"), false), (s("B"), false)]);
    let a = &subgraphs.get("a").unwrap().schema;
    match a.schema().get_type("Product").unwrap() {
        ExtendedType::Object { directives, fields, .. } => {
            assert!(fields.is_empty());
            // The first application adds the type; only the later one adds its key.
            assert_eq!(
                directives,
                &vec![Directive {
                    name: s("federation__key"),
                    arguments: vec![
                        Argument { name: s("fields"), value: Value::String(s("upc")) },
                        Argument { name: s("resolvable"), value: Value::Boolean(true) },
                    ],
                }]
            );
        },
        other => panic!("expected an object type, got {:?}", other),
    }
    match subgraphs.get("b").unwrap().schema.schema().get_type("Product").unwrap() {
        ExtendedType::Object { directives, .. } => assert!(directives.is_empty()),
        other => panic!("expected an object type, got {:?}", other),
    }
}

#[test]
fn root_named_types_become_roots_and_interface_objects_become_objects() {
    let (mut subgraphs, graphs, feds) = extraction_setup();
    subgraphs.add_empty_type(&s("Query"), &object("Query"), &vec![join_type("A", None, false)], &graphs, &feds).unwrap();
    let a = subgraphs.get("a").unwrap().schema.schema();
    assert_eq!(a.schema_definition.query, Some(s("Query")));
    let iface = ExtendedType::Interface { name: s("Node"), implements_interfaces: vec![], directives: vec![], fields: vec![] };
    let info = subgraphs
        .add_empty_type(&s("Node"), &iface, &vec![join_type("A", None, true), join_type("B", None, false)], &graphs, &feds)
        .unwrap();
    assert_eq!(info.subgraph_info, vec![(s("A"), true), (s("B"), false)]);
    match subgraphs.get("a").unwrap().schema.schema().get_type("Node").unwrap() {
        ExtendedType::Object { directives, .. } => {
            assert_eq!(directives, &vec![Directive { name: s("federation__interfaceObject"), arguments: vec![] }])
        },
        other => panic!("expected an object type, got {:?}", other),
    }
    match subgraphs.get("b").unwrap().schema.schema().get_type("Node").unwrap() {
        ExtendedType::Interface { .. } => {},
        other => panic!("expected an interface type, got {:?}", other),
    }
    let _ = SchemaRootDefinitionKind::Query;
}

fn internal(e: FederationError) -> String {
    match e {
        FederationError::SingleFederationError(SingleFederationError::Internal { message }) => message,
        other => panic!("expected an internal error, got {:?}", other),
    }
}

#[test]
fn empty_types_need_join_types_known_graphs_and_no_scalars() {
    let (mut subgraphs, graphs, feds) = extraction_setup();
    match subgraphs.add_empty_type(&s("T"), &object("T"), &vec![], &graphs, &feds) {
        Err(FederationError::SingleFederationError(SingleFederationError::InvalidFederationSupergraph { message })) => {
            assert_eq!(message, "Missing @join__type on \"T\"")
        },
        _ => panic!("expected an invalid supergraph error"),
    }
    let e = subgraphs.add_empty_type(&s("T"), &object("T"), &vec![join_type("C", None, false)], &graphs, &feds);
    assert_eq!(
        internal(e.err().unwrap()),
        "Invalid graph enum_value \"C\": does not match an enum value defined in the @join__Graph enum"
    );
    let scalar = ExtendedType::Scalar { name: s("S"), directives: vec![] };
    let e = subgraphs.add_empty_type(&s("S"), &scalar, &vec![join_type("A", None, false)], &graphs, &feds);
    assert_eq!(internal(e.err().unwrap()), "\"add_empty_type()\" shouldn't be called for scalars");
}

fn directive_def(name: &str, args: Vec<InputValueDefinition>) -> DirectiveDefinition {
    DirectiveDefinition { name: s(name), arguments: args, repeatable: false, locations: vec![s("FIELD_DEFINITION")] }
}

fn string_input(name: &str) -> InputValueDefinition {
    InputValueDefinition { name: s(name), ty: Type::Named(s("String")), default_value: None, directives: vec![] }
}

/// A subgraph with an empty object type `T`, an empty interface `I`, an enum `E`, and the
/// federation field directives.
fn subgraph_for_fields() -> FederationSubgraph {
    let schema = Schema {
        schema_definition: SchemaDefinition { directives: vec![], query: None, mutation: None, subscription: None },
        types: vec![
            ExtendedType::Scalar { name: s("String"), directives: vec![] },
            ExtendedType::Scalar { name: s("Int"), directives: vec![] },
            object("T"),
            ExtendedType::Interface { name: s("I"), implements_interfaces: vec![], directives: vec![], fields: vec![] },
            ExtendedType::Enum { name: s("E"), directives: vec![], values: vec![] },
        ],
        directive_definitions: vec![
            directive_def("federation__requires", vec![string_input("fields")]),
            directive_def("federation__provides", vec![string_input("fields")]),
            directive_def("federation__external", vec![string_input("reason")]),
            directive_def("federation__override", vec![string_input("from")]),
            directive_def("federation__shareable", vec![]),
        ],
    };
    FederationSubgraph { name: s("a"), url: s("http://a"), schema: FederationSchema::new(schema, None).unwrap() }
}

fn supergraph_field(name: &str, ty: Type) -> FieldDefinition {
    let mut arg = string_input("x");
    arg.directives.push(Directive { name: s("join__field"), arguments: vec![] });
    FieldDefinition { name: s(name), arguments: vec![arg], ty, directives: vec![Directive { name: s("join__field"), arguments: vec![] }] }
}

fn field_of<'a>(sg: &'a FederationSubgraph, t: &str, f: &str) -> &'a FieldDefinition {
    match sg.schema.schema().get_type(t).unwrap() {
        ExtendedType::Object { fields, .. } | ExtendedType::Interface { fields, .. } => fields.iter().find(|x| x.name == f).unwrap(),
        other => panic!("expected a composite type, got {:?}", other),
    }
}

#[test]
fn a_subgraph_field_takes_its_join_field_arguments() {
    let mut sg = subgraph_for_fields();
    let fed = federation_without_imports();
    let app = FieldDirectiveArguments {
        graph: Some(s("A")),
        requires_: Some(s("id")),
        provides: None,
        type_: Some(s("[Int!]")),
        external: Some(false),
        override_: Some(s("b")),
        user_overridden: None,
    };
    add_subgraph_field(&s("f"), &supergraph_field("f", Type::Named(s("String"))), &s("T"), &mut sg, &fed, true, Some(&app)).unwrap();
    let f = field_of(&sg, "T", "f");
    assert_eq!(f.ty, Type::List(Box::new(Type::NonNullNamed(s("Int")))));
    assert_eq!(f.arguments.len(), 1);
    assert!(f.arguments[0].directives.is_empty());
    assert_eq!(
        f.directives,
        vec![
            Directive { name: s("federation__requires"), arguments: vec![Argument { name: s("fields"), value: Value::String(s("id")) }] },
            Directive { name: s("federation__override"), arguments: vec![Argument { name: s("from"), value: Value::String(s("b")) }] },
            Directive { name: s("federation__shareable"), arguments: vec![] },
        ]
    );
}

#[test]
fn external_and_overridden_fields_are_not_shareable() {
    let mut sg = subgraph_for_fields();
    let fed = federation_without_imports();
    let app = FieldDirectiveArguments {
        graph: Some(s("A")),
        requires_: None,
        provides: Some(s("p")),
        type_: None,
        external: Some(true),
        override_: None,
        user_overridden: Some(true),
    };
    add_subgraph_field(&s("g"), &supergraph_field("g", Type::Named(s("Int"))), &s("I"), &mut sg, &fed, true, Some(&app)).unwrap();
    let f = field_of(&sg, "I", "g");
    assert_eq!(f.ty, Type::Named(s("Int")));
    assert_eq!(
        f.directives,
        vec![
            Directive { name: s("federation__provides"), arguments: vec![Argument { name: s("fields"), value: Value::String(s("p")) }] },
            Directive { name: s("federation__external"), arguments: vec![] },
            Directive { name: s("federation__external"), arguments: vec![Argument { name: s("reason"), value: Value::String(s("[overridden]")) }] },
        ]
    );
    // Without a join field application, the field keeps its type and is shareable where asked.
    add_subgraph_field(&s("h"), &supergraph_field("h", Type::Named(s("Int"))), &s("T"), &mut sg, &fed, false, None).unwrap();
    assert!(field_of(&sg, "T", "h").directives.is_empty());
}

#[test]
fn subgraph_fields_need_a_decodable_type_and_a_composite_type() {
    let mut sg = subgraph_for_fields();
    let fed = federation_without_imports();
    let app = FieldDirectiveArguments { graph: None, requires_: None, provides: None, type_: Some(s("a: b")), external: None, override_: None, user_overridden: None };
    match add_subgraph_field(&s("f"), &supergraph_field("f", Type::Named(s("Int"))), &s("T"), &mut sg, &fed, false, Some(&app)).unwrap_err() {
        FederationError::SingleFederationError(SingleFederationError::InvalidGraphQL { message }) => {
            assert_eq!(message, "Cannot parse type \"a: b\"")
        },
        other => panic!("expected an invalid GraphQL error, got {:?}", other),
    }
    assert_eq!(
        internal(add_subgraph_field(&s("f"), &supergraph_field("f", Type::Named(s("Int"))), &s("U"), &mut sg, &fed, false, None).unwrap_err()),
        "Missing type \"U\" from subgraph despite it being in type_info"
    );
    assert_eq!(
        internal(add_subgraph_field(&s("f"), &supergraph_field("f", Type::Named(s("Int"))), &s("E"), &mut sg, &fed, false, None).unwrap_err()),
        "\"add_subgraph_field()\" encountered non-object/interface type in subgraph"
    );
}

fn field_setup() -> (FederationSubgraphs, Vec<(String, String)>, Vec<(String, FederationSpecDefinitions)>) {
    let mut subgraphs = FederationSubgraphs::new();
    subgraphs.add(subgraph_for_fields()).unwrap();
    let mut b = subgraph_for_fields();
    b.name = s("b");
    subgraphs.add(b).unwrap();
    let graphs = vec![(s("A"), s("a")), (s("B"), s("b"))];
    let feds = vec![(s("A"), federation_without_imports()), (s("B"), federation_without_imports())];
    (subgraphs, graphs, feds)
}

fn join_field(graph: Option<&str>) -> FieldDirectiveArguments {
    FieldDirectiveArguments {
        graph: graph.map(s),
        requires_: None,
        provides: None,
        type_: None,
        external: None,
        override_: None,
        user_overridden: None,
    }
}

fn shareable_names(sg: &FederationSubgraph, f: &str) -> Vec<String> {
    field_of(sg, "T", f).directives.iter().map(|d| d.name.clone()).collect()
}

#[test]
fn a_field_without_join_field_goes_to_every_subgraph_of_its_type() {
    let (mut subgraphs, graphs, feds) = field_setup();
    let info = TypeInfo { name: s("T"), subgraph_info: vec![(s("A"), false), (s("B"), false)] };
    let field = supergraph_field("f", Type::Named(s("Int")));
    subgraphs.extract_field(&s("T"), &field, &vec![], &info, &graphs, &feds).unwrap();
    assert_eq!(shareable_names(subgraphs.get("a").unwrap(), "f"), vec![s("federation__shareable")]);
    assert_eq!(shareable_names(subgraphs.get("b").unwrap(), "f"), vec![s("federation__shareable")]);
    // In one subgraph only, a field is not shareable.
    let single = TypeInfo { name: s("T"), subgraph_info: vec![(s("A"), false)] };
    let g = supergraph_field("g", Type::Named(s("Int")));
    subgraphs.extract_field(&s("T"), &g, &vec![], &single, &graphs, &feds).unwrap();
    assert!(shareable_names(subgraphs.get("a").unwrap(), "g").is_empty());
}

#[test]
fn a_field_with_join_fields_goes_to_their_graphs() {
    let (mut subgraphs, graphs, feds) = field_setup();
    let info = TypeInfo { name: s("T"), subgraph_info: vec![(s("A"), false), (s("B"), false)] };
    let field = supergraph_field("f", Type::Named(s("Int")));
    // An application without a graph adds the field nowhere, but counts for shareability.
    subgraphs.extract_field(&s("T"), &field, &vec![join_field(Some("A")), join_field(None)], &info, &graphs, &feds).unwrap();
    assert_eq!(shareable_names(subgraphs.get("a").unwrap(), "f"), vec![s("federation__shareable")]);
    match subgraphs.get("b").unwrap().schema.schema().get_type("T").unwrap() {
        ExtendedType::Object { fields, .. } => assert!(fields.is_empty()),
        other => panic!("expected an object type, got {:?}", other),
    }
    let mut external = join_field(Some("B"));
    external.external = Some(true);
    let g = supergraph_field("g", Type::Named(s("Int")));
    subgraphs.extract_field(&s("T"), &g, &vec![join_field(Some("A")), external], &info, &graphs, &feds).unwrap();
    assert!(shareable_names(subgraphs.get("a").unwrap(), "g").is_empty());
    assert_eq!(shareable_names(subgraphs.get("b").unwrap(), "g"), vec![s("federation__external")]);
}

#[test]
fn a_join_field_needs_the_type_in_its_graph() {
    let (mut subgraphs, graphs, feds) = field_setup();
    let info = TypeInfo { name: s("T"), subgraph_info: vec![(s("A"), false)] };
    let field = supergraph_field("f", Type::Named(s("Int")));
    match subgraphs.extract_field(&s("T"), &field, &vec![join_field(Some("B"))], &info, &graphs, &feds).unwrap_err() {
        FederationError::SingleFederationError(SingleFederationError::InvalidFederationSupergraph { message }) => {
            assert_eq!(message, "@join__field cannot exist on T.f for subgraph B without type-level @join__type")
        },
        other => panic!("expected an invalid supergraph error, got {:?}", other),
    }
}

fn join_type_application(graph: &str) -> Directive {
    Directive { name: s("join__type"), arguments: vec![Argument { name: s("graph"), value: Value::Enum(s(graph)) }] }
}

fn supergraph() -> Schema {
    Schema {
        schema_definition: SchemaDefinition { directives: vec![], query: Some(s("Query")), mutation: None, subscription: None },
        types: vec![
            ExtendedType::Scalar { name: s("Id"), directives: vec![join_type_application("A")] },
            ExtendedType::Object {
                name: s("Query"),
                implements_interfaces: vec![],
                directives: vec![join_type_application("A"), join_type_application("B")],
                fields: vec![],
            },
            object("T"),
        ],
        directive_definitions: vec![],
    }
}

#[test]
fn all_supergraph_types_go_to_the_subgraphs_of_their_join_types() {
    let (mut subgraphs, graphs, feds) = extraction_setup();
    let infos = subgraphs
        .add_all_empty_subgraph_types(&supergraph(), &s("join__type"), &vec![s("Id"), s("Query")], &graphs, &feds)
        .unwrap();
    assert_eq!(infos.object_types.len(), 1);
    assert_eq!(infos.object_types[0].name, "Query");
    assert_eq!(infos.object_types[0].subgraph_info, vec![(s("A"), false), (s("B"), false)]);
    assert!(infos.interface_types.is_empty() && infos.union_types.is_empty());
    let a = subgraphs.get("a").unwrap().schema.schema();
    assert!(matches!(a.get_type("Id"), Some(ExtendedType::Scalar { .. })));
    assert_eq!(a.schema_definition.query, Some(s("Query")));
    let b = subgraphs.get("b").unwrap().schema.schema();
    assert!(b.get_type("Id").is_none());
    assert_eq!(b.schema_definition.query, Some(s("Query")));
}

#[test]
fn supergraph_types_must_exist_and_have_join_types() {
    let (mut subgraphs, graphs, feds) = extraction_setup();
    let e = subgraphs.add_all_empty_subgraph_types(&supergraph(), &s("join__type"), &vec![s("Nope")], &graphs, &feds);
    assert_eq!(internal(e.err().unwrap()), "Type \"Nope\" missing from schema");
    match subgraphs.add_all_empty_subgraph_types(&supergraph(), &s("join__type"), &vec![s("T")], &graphs, &feds) {
        Err(FederationError::SingleFederationError(SingleFederationError::InvalidFederationSupergraph { message })) => {
            assert_eq!(message, "Missing @join__type on \"T\"")
        },
        _ => panic!("expected an invalid supergraph error"),
    }
}

fn implements(graph: &str, iface: &str) -> ImplementsDirectiveArguments {
    ImplementsDirectiveArguments { graph: s(graph), interface: s(iface) }
}

fn implemented(sg: &FederationSubgraph, t: &str) -> Vec<String> {
    match sg.schema.schema().get_type(t).unwrap() {
        ExtendedType::Object { implements_interfaces, .. } | ExtendedType::Interface { implements_interfaces, .. } => {
            implements_interfaces.clone()
        },
        other => panic!("expected a composite type, got {:?}", other),
    }
}

fn supergraph_error(e: FederationError) -> String {
    match e {
        FederationError::SingleFederationError(SingleFederationError::InvalidFederationSupergraph { message }) => message,
        other => panic!("expected an invalid supergraph error, got {:?}", other),
    }
}

#[test]
fn object_content_adds_implemented_interfaces_then_fields() {
    let (mut subgraphs, graphs, feds) = field_setup();
    let info = TypeInfo { name: s("T"), subgraph_info: vec![(s("A"), false), (s("B"), false)] };
    let fields = vec![
        (supergraph_field("f", Type::Named(s("Int"))), vec![]),
        (supergraph_field("g", Type::Named(s("Int"))), vec![join_field(Some("B"))]),
    ];
    subgraphs
        .extract_object_content(&s("T"), &vec![implements("A", "I")], &fields, &info, &graphs, &feds)
        .unwrap();
    let a = subgraphs.get("a").unwrap();
    let b = subgraphs.get("b").unwrap();
    assert_eq!(implemented(a, "T"), vec![s("I")]);
    assert!(implemented(b, "T").is_empty());
    assert_eq!(shareable_names(a, "f"), vec![s("federation__shareable")]);
    assert_eq!(shareable_names(b, "f"), vec![s("federation__shareable")]);
    assert!(shareable_names(b, "g").is_empty());
    match a.schema.schema().get_type("T").unwrap() {
        ExtendedType::Object { fields, .. } => assert_eq!(fields.len(), 1),
        other => panic!("expected an object type, got {:?}", other),
    }
}

#[test]
fn object_content_needs_the_type_in_the_graph_of_each_implements() {
    let (mut subgraphs, graphs, feds) = field_setup();
    let info = TypeInfo { name: s("T"), subgraph_info: vec![(s("A"), false)] };
    let fields = vec![(supergraph_field("f", Type::Named(s("Int"))), vec![])];
    let e = subgraphs.extract_object_content(&s("T"), &vec![implements("B", "I")], &fields, &info, &graphs, &feds).unwrap_err();
    assert_eq!(supergraph_error(e), "@join__implements cannot exist on \"T\" for subgraph \"B\" without type-level @join__type");
    // Nothing was extracted: the failing step comes before the fields.
    match subgraphs.get("a").unwrap().schema.schema().get_type("T").unwrap() {
        ExtendedType::Object { fields, .. } => assert!(fields.is_empty()),
        other => panic!("expected an object type, got {:?}", other),
    }
}

#[test]
fn interface_content_fields_are_never_shareable() {
    let (mut subgraphs, graphs, feds) = field_setup();
    let info = TypeInfo { name: s("I"), subgraph_info: vec![(s("A"), false), (s("B"), false)] };
    let fields = vec![(supergraph_field("f", Type::Named(s("Int"))), vec![])];
    subgraphs.extract_interface_content(&s("I"), &vec![], &fields, &info, &graphs, &feds).unwrap();
    let f = field_of(subgraphs.get("a").unwrap(), "I", "f");
    assert!(f.directives.is_empty());
    assert!(field_of(subgraphs.get("b").unwrap(), "I", "f").directives.is_empty());
}

#[test]
fn interface_objects_implement_interfaces_as_objects() {
    let (mut subgraphs, graphs, feds) = field_setup();
    // In graph A, the interface `T` of the supergraph is an interface object.
    let info = TypeInfo { name: s("T"), subgraph_info: vec![(s("A"), true), (s("B"), false)] };
    subgraphs.extract_interface_content(&s("T"), &vec![implements("A", "I")], &vec![], &info, &graphs, &feds).unwrap();
    assert_eq!(implemented(subgraphs.get("a").unwrap(), "T"), vec![s("I")]);
    // Where the graph does not mark it so, an object there is unexpected.
    assert_eq!(
        internal(subgraphs.extract_interface_content(&s("T"), &vec![implements("B", "I")], &vec![], &info, &graphs, &feds).unwrap_err()),
        "\"extract_interface_type_content()\" encountered an unexpected interface object type in subgraph"
    );
    assert_eq!(
        supergraph_error(
            subgraphs.extract_interface_content(&s("T"), &vec![implements("C", "I")], &vec![], &info, &graphs, &feds).unwrap_err()
        ),
        "@join__implements cannot exist on T for subgraph C without type-level @join__type"
    );
    let enum_info = TypeInfo { name: s("E"), subgraph_info: vec![(s("A"), false)] };
    assert_eq!(
        internal(subgraphs.extract_interface_content(&s("E"), &vec![implements("A", "I")], &vec![], &enum_info, &graphs, &feds).unwrap_err()),
        "\"extract_interface_type_content()\" encountered non-object/interface type in subgraph"
    );
}

fn enum_arg(name: &str, value: &str) -> Argument {
    Argument { name: s(name), value: Value::Enum(s(value)) }
}

fn content_supergraph() -> Schema {
    let implements_app = Directive {
        name: s("join__implements"),
        arguments: vec![enum_arg("graph", "A"), Argument { name: s("interface"), value: Value::String(s("I")) }],
    };
    let field_in_b = Directive { name: s("join__field"), arguments: vec![enum_arg("graph", "B")] };
    let mut f = supergraph_field("f", Type::Named(s("Int")));
    f.directives = vec![field_in_b];
    let mut g = supergraph_field("g", Type::Named(s("Int")));
    g.directives = vec![];
    Schema {
        schema_definition: SchemaDefinition { directives: vec![], query: None, mutation: None, subscription: None },
        types: vec![ExtendedType::Object {
            name: s("T"),
            implements_interfaces: vec![s("I")],
            directives: vec![join_type_application("A"), implements_app],
            fields: vec![f, g],
        }],
        directive_definitions: vec![],
    }
}

fn field_names(sg: &FederationSubgraph, t: &str) -> Vec<String> {
    match sg.schema.schema().get_type(t).unwrap() {
        ExtendedType::Object { fields, .. } | ExtendedType::Interface { fields, .. } => fields.iter().map(|f| f.name.clone()).collect(),
        other => panic!("expected a composite type, got {:?}", other),
    }
}

#[test]
fn supergraph_object_content_follows_its_join_applications() {
    let (mut subgraphs, graphs, feds) = field_setup();
    let infos = vec![TypeInfo { name: s("T"), subgraph_info: vec![(s("A"), false), (s("B"), false)] }];
    subgraphs
        .extract_object_type_content(&content_supergraph(), &infos, &s("join__implements"), &s("join__field"), &graphs, &feds)
        .unwrap();
    let a = subgraphs.get("a").unwrap();
    let b = subgraphs.get("b").unwrap();
    assert_eq!(implemented(a, "T"), vec![s("I")]);
    assert!(implemented(b, "T").is_empty());
    assert_eq!(field_names(a, "T"), vec![s("g")]);
    assert_eq!(field_names(b, "T"), vec![s("f"), s("g")]);
    // `g` has no join field and is in both graphs of its type; `f` is in one only.
    assert_eq!(shareable_names(b, "g"), vec![s("federation__shareable")]);
    assert!(shareable_names(b, "f").is_empty());
}

#[test]
fn supergraph_content_needs_types_of_the_right_kind() {
    let (mut subgraphs, graphs, feds) = field_setup();
    let missing = vec![TypeInfo { name: s("Nope"), subgraph_info: vec![(s("A"), false)] }];
    let e = subgraphs
        .extract_object_type_content(&content_supergraph(), &missing, &s("join__implements"), &s("join__field"), &graphs, &feds)
        .unwrap_err();
    assert_eq!(internal(e), "Schema has no type \"Nope\"");
    let object = vec![TypeInfo { name: s("T"), subgraph_info: vec![(s("A"), false)] }];
    let e = subgraphs
        .extract_interface_type_content(&content_supergraph(), &object, &s("join__implements"), &s("join__field"), &graphs, &feds)
        .unwrap_err();
    assert_eq!(internal(e), "Schema type \"T\" was not an interface");
}
