use apollo_federation::ast::{push_value_text, Argument, Directive, Value};
use apollo_federation::executable::{
    Field, Fragment, FragmentSpread, InlineFragment, Operation, OperationType, Selection,
    SelectionSet, VariableDefinition,
};
use apollo_federation::operation::{normalize_operation, SelectionIdGenerator};
use apollo_federation::schema::{
    ExtendedType, FieldDefinition, Schema, SchemaDefinition, Type,
};

// ---------------------------------------------------------------------------------------
// Building schemas and operations
// ---------------------------------------------------------------------------------------

fn field_def(name: &str, ty: Type) -> FieldDefinition {
    FieldDefinition { name: name.to_string(), arguments: vec![], ty, directives: vec![] }
}

fn named(n: &str) -> Type {
    Type::Named(n.to_string())
}

fn non_null(n: &str) -> Type {
    Type::NonNullNamed(n.to_string())
}

fn object(name: &str, fields: Vec<FieldDefinition>) -> ExtendedType {
    ExtendedType::Object {
        name: name.to_string(),
        implements_interfaces: vec![],
        directives: vec![],
        fields,
    }
}

fn object_with_directives(name: &str, directives: Vec<Directive>, fields: Vec<FieldDefinition>) -> ExtendedType {
    ExtendedType::Object {
        name: name.to_string(),
        implements_interfaces: vec![],
        directives,
        fields,
    }
}

/// A schema with the given types after the built-in scalars.
fn schema(mut types: Vec<ExtendedType>) -> Schema {
    let mut all: Vec<ExtendedType> = ["Int", "Float", "String", "Boolean", "ID"]
        .iter()
        .map(|n| ExtendedType::Scalar { name: n.to_string(), directives: vec![] })
        .collect();
    all.append(&mut types);
    let types = all;
    Schema {
        schema_definition: SchemaDefinition {
            directives: vec![],
            query: Some("Query".to_string()),
            mutation: None,
            subscription: None,
        },
        types,
        directive_definitions: vec![],
    }
}

fn selection_set(ty: &str, selections: Vec<Selection>) -> SelectionSet {
    SelectionSet { ty: ty.to_string(), selections }
}

fn leaf(name: &str, ty: &str) -> Selection {
    Selection::Field(Field {
        alias: None,
        name: name.to_string(),
        arguments: vec![],
        directives: vec![],
        selection_set: selection_set(ty, vec![]),
    })
}

fn composite(name: &str, ty: &str, directives: Vec<Directive>, selections: Vec<Selection>) -> Selection {
    Selection::Field(Field {
        alias: None,
        name: name.to_string(),
        arguments: vec![],
        directives,
        selection_set: selection_set(ty, selections),
    })
}

fn spread(name: &str) -> Selection {
    Selection::FragmentSpread(FragmentSpread { fragment_name: name.to_string(), directives: vec![] })
}

fn inline(on: &str, directives: Vec<Directive>, selections: Vec<Selection>) -> Selection {
    Selection::InlineFragment(InlineFragment {
        type_condition: Some(on.to_string()),
        directives,
        selection_set: selection_set(on, selections),
    })
}

fn fragment(name: &str, on: &str, selections: Vec<Selection>) -> Fragment {
    Fragment { name: name.to_string(), directives: vec![], selection_set: selection_set(on, selections) }
}

fn directive(name: &str, arguments: Vec<(&str, Value)>) -> Directive {
    Directive {
        name: name.to_string(),
        arguments: arguments
            .into_iter()
            .map(|(n, v)| Argument { name: n.to_string(), value: v })
            .collect(),
    }
}

fn variable(name: &str) -> Value {
    Value::Variable(name.to_string())
}

fn skip(var: &str) -> Directive {
    directive("skip", vec![("if", variable(var))])
}

fn boolean_variable(name: &str) -> VariableDefinition {
    VariableDefinition { name: name.to_string(), ty: non_null("Boolean"), default_value: None, directives: vec![] }
}

fn query(name: &str, variables: Vec<VariableDefinition>, selections: Vec<Selection>) -> Operation {
    Operation {
        operation_type: OperationType::Query,
        name: Some(name.to_string()),
        variables,
        directives: vec![],
        selection_set: selection_set("Query", selections),
    }
}

/// The schema `type Query { t: T } type T { v1: Int v2: String }`.
fn t_schema() -> Schema {
    schema(vec![
        object("Query", vec![field_def("t", named("T"))]),
        object("T", vec![field_def("v1", named("Int")), field_def("v2", named("String"))]),
    ])
}

// ---------------------------------------------------------------------------------------
// Printing operations as GraphQL
// ---------------------------------------------------------------------------------------

fn print_type(out: &mut String, t: &Type) {
    match t {
        Type::Named(n) => out.push_str(n),
        Type::NonNullNamed(n) => {
            out.push_str(n);
            out.push('!');
        }
        Type::List(b) => {
            out.push('[');
            print_type(out, b);
            out.push(']');
        }
        Type::NonNullList(b) => {
            out.push('[');
            print_type(out, b);
            out.push_str("]!");
        }
    }
}

fn print_arguments(out: &mut String, arguments: &[Argument]) {
    if arguments.is_empty() {
        return;
    }
    out.push('(');
    for (i, a) in arguments.iter().enumerate() {
        if i > 0 {
            out.push_str(", ");
        }
        out.push_str(&a.name);
        out.push_str(": ");
        push_value_text(out, &a.value);
    }
    out.push(')');
}

fn print_directives(out: &mut String, directives: &[Directive]) {
    for d in directives {
        out.push_str(" @");
        out.push_str(&d.name);
        print_arguments(out, &d.arguments);
    }
}

fn print_selections(out: &mut String, selections: &[Selection], indent: usize) {
    for s in selections {
        out.push_str(&" ".repeat(indent));
        match s {
            Selection::Field(f) => {
                if let Some(a) = &f.alias {
                    out.push_str(a);
                    out.push_str(": ");
                }
                out.push_str(&f.name);
                print_arguments(out, &f.arguments);
                print_directives(out, &f.directives);
                if !f.selection_set.selections.is_empty() {
                    out.push_str(" {\n");
                    print_selections(out, &f.selection_set.selections, indent + 2);
                    out.push_str(&" ".repeat(indent));
                    out.push('}');
                }
            }
            Selection::FragmentSpread(fs) => {
                out.push_str("...");
                out.push_str(&fs.fragment_name);
                print_directives(out, &fs.directives);
            }
            Selection::InlineFragment(i) => {
                out.push_str("...");
                if let Some(tc) = &i.type_condition {
                    out.push_str(" on ");
                    out.push_str(tc);
                }
                print_directives(out, &i.directives);
                out.push_str(" {\n");
                print_selections(out, &i.selection_set.selections, indent + 2);
                out.push_str(&" ".repeat(indent));
                out.push('}');
            }
        }
        out.push('\n');
    }
}

fn print_operation(op: &Operation) -> String {
    let mut out = String::new();
    out.push_str(match op.operation_type {
        OperationType::Query => "query",
        OperationType::Mutation => "mutation",
        OperationType::Subscription => "subscription",
    });
    if let Some(n) = &op.name {
        out.push(' ');
        out.push_str(n);
    }
    if !op.variables.is_empty() {
        out.push('(');
        for (i, v) in op.variables.iter().enumerate() {
            if i > 0 {
                out.push_str(", ");
            }
            out.push('$');
            out.push_str(&v.name);
            out.push_str(": ");
            print_type(&mut out, &v.ty);
            if let Some(d) = &v.default_value {
                out.push_str(" = ");
                push_value_text(&mut out, d);
            }
        }
        out.push(')');
    }
    print_directives(&mut out, &op.directives);
    out.push_str(" {\n");
    print_selections(&mut out, &op.selection_set.selections, 2);
    out.push('}');
    out
}

/// Normalizes the operation, flattens it back into an executable operation and prints it.
fn normalize_and_print(
    op: &Operation,
    fragments: &Vec<Fragment>,
    schema: &Schema,
    interface_objects: &Vec<String>,
) -> String {
    let mut ids = SelectionIdGenerator::new();
    let normalized = normalize_operation(op, fragments, schema, interface_objects, &mut ids).unwrap();
    let flattened = normalized.to_operation(schema).unwrap();
    print_operation(&flattened)
}

// ---------------------------------------------------------------------------------------
// Tests
// ---------------------------------------------------------------------------------------

#[test]
fn expands_named_fragments() {
    let schema = schema(vec![
        object("Query", vec![field_def("foo", named("Foo"))]),
        object(
            "Foo",
            vec![field_def("id", non_null("ID")), field_def("bar", non_null("String")), field_def("baz", named("Int"))],
        ),
    ]);
    let op = query(
        "NamedFragmentQuery",
        vec![],
        vec![composite("foo", "Foo", vec![], vec![leaf("id", "ID"), spread("Bar")])],
    );
    let fragments = vec![fragment("Bar", "Foo", vec![leaf("bar", "String"), leaf("baz", "Int")])];
    let expected = r#"query NamedFragmentQuery {
  foo {
    id
    bar
    baz
  }
}"#;
    assert_eq!(expected, normalize_and_print(&op, &fragments, &schema, &vec![]));
}

#[test]
fn expands_and_deduplicates_fragments() {
    let schema = schema(vec![
        object("Query", vec![field_def("foo", named("Foo"))]),
        object(
            "Foo",
            vec![field_def("id", non_null("ID")), field_def("bar", non_null("String")), field_def("baz", named("String"))],
        ),
    ]);
    let op = query(
        "NestedFragmentQuery",
        vec![],
        vec![composite("foo", "Foo", vec![], vec![spread("FirstFragment"), spread("SecondFragment")])],
    );
    let fragments = vec![
        fragment("FirstFragment", "Foo", vec![leaf("id", "ID"), leaf("bar", "String"), leaf("baz", "String")]),
        fragment("SecondFragment", "Foo", vec![leaf("id", "ID"), leaf("bar", "String")]),
    ];
    let expected = r#"query NestedFragmentQuery {
  foo {
    id
    bar
    baz
  }
}"#;
    assert_eq!(expected, normalize_and_print(&op, &fragments, &schema, &vec![]));
}

#[test]
fn can_remove_introspection_selections() {
    let schema = schema(vec![object("Query", vec![field_def("foo", named("String"))])]);
    let op = query(
        "TestIntrospectionQuery",
        vec![],
        vec![composite(
            "__schema",
            "__Schema",
            vec![],
            vec![composite("types", "__Type", vec![], vec![leaf("name", "String")])],
        )],
    );
    let mut ids = SelectionIdGenerator::new();
    let normalized = normalize_operation(&op, &vec![], &schema, &vec![], &mut ids).unwrap();
    assert!(normalized.selection_set.selections.is_empty());
}

#[test]
fn merge_same_fields_without_directives() {
    let op = query(
        "Test",
        vec![],
        vec![
            composite("t", "T", vec![], vec![leaf("v1", "Int")]),
            composite("t", "T", vec![], vec![leaf("v2", "String")]),
        ],
    );
    let expected = r#"query Test {
  t {
    v1
    v2
  }
}"#;
    assert_eq!(expected, normalize_and_print(&op, &vec![], &t_schema(), &vec![]));
}

#[test]
fn merge_same_fields_with_same_directive() {
    let op = query(
        "Test",
        vec![boolean_variable("skipIf")],
        vec![
            composite("t", "T", vec![skip("skipIf")], vec![leaf("v1", "Int")]),
            composite("t", "T", vec![skip("skipIf")], vec![leaf("v2", "String")]),
        ],
    );
    let expected = r#"query Test($skipIf: Boolean!) {
  t @skip(if: $skipIf) {
    v1
    v2
  }
}"#;
    assert_eq!(expected, normalize_and_print(&op, &vec![], &t_schema(), &vec![]));
}

#[test]
fn merge_same_fields_with_same_directive_but_different_arg_order() {
    let first = directive("customSkip", vec![("if", variable("skipIf")), ("label", Value::String("foo".to_string()))]);
    let second = directive("customSkip", vec![("label", Value::String("foo".to_string())), ("if", variable("skipIf"))]);
    let op = query(
        "Test",
        vec![boolean_variable("skipIf")],
        vec![
            composite("t", "T", vec![first], vec![leaf("v1", "Int")]),
            composite("t", "T", vec![second], vec![leaf("v2", "String")]),
        ],
    );
    let expected = r#"query Test($skipIf: Boolean!) {
  t @customSkip(if: $skipIf, label: "foo") {
    v1
    v2
  }
}"#;
    assert_eq!(expected, normalize_and_print(&op, &vec![], &t_schema(), &vec![]));
}

#[test]
fn do_not_merge_when_only_one_field_specifies_directive() {
    let op = query(
        "Test",
        vec![boolean_variable("skipIf")],
        vec![
            composite("t", "T", vec![], vec![leaf("v1", "Int")]),
            composite("t", "T", vec![skip("skipIf")], vec![leaf("v2", "String")]),
        ],
    );
    let expected = r#"query Test($skipIf: Boolean!) {
  t {
    v1
  }
  t @skip(if: $skipIf) {
    v2
  }
}"#;
    assert_eq!(expected, normalize_and_print(&op, &vec![], &t_schema(), &vec![]));
}

#[test]
fn do_not_merge_when_fields_have_different_directives() {
    let op = query(
        "Test",
        vec![boolean_variable("skip1"), boolean_variable("skip2")],
        vec![
            composite("t", "T", vec![skip("skip1")], vec![leaf("v1", "Int")]),
            composite("t", "T", vec![skip("skip2")], vec![leaf("v2", "String")]),
        ],
    );
    let expected = r#"query Test($skip1: Boolean!, $skip2: Boolean!) {
  t @skip(if: $skip1) {
    v1
  }
  t @skip(if: $skip2) {
    v2
  }
}"#;
    assert_eq!(expected, normalize_and_print(&op, &vec![], &t_schema(), &vec![]));
}

#[test]
fn merge_same_fragment_without_directives() {
    let op = query(
        "Test",
        vec![],
        vec![composite(
            "t",
            "T",
            vec![],
            vec![inline("T", vec![], vec![leaf("v1", "Int")]), inline("T", vec![], vec![leaf("v2", "String")])],
        )],
    );
    let expected = r#"query Test {
  t {
    v1
    v2
  }
}"#;
    assert_eq!(expected, normalize_and_print(&op, &vec![], &t_schema(), &vec![]));
}

#[test]
fn merge_same_fragments_with_same_directives() {
    let op = query(
        "Test",
        vec![boolean_variable("skipIf")],
        vec![composite(
            "t",
            "T",
            vec![],
            vec![
                inline("T", vec![skip("skipIf")], vec![leaf("v1", "Int")]),
                inline("T", vec![skip("skipIf")], vec![leaf("v2", "String")]),
            ],
        )],
    );
    let expected = r#"query Test($skipIf: Boolean!) {
  t {
    ... on T @skip(if: $skipIf) {
      v1
      v2
    }
  }
}"#;
    assert_eq!(expected, normalize_and_print(&op, &vec![], &t_schema(), &vec![]));
}

#[test]
fn merge_same_fragments_with_same_directive_but_different_arg_order() {
    let first = directive("customSkip", vec![("if", variable("skipIf")), ("label", Value::String("foo".to_string()))]);
    let second = directive("customSkip", vec![("label", Value::String("foo".to_string())), ("if", variable("skipIf"))]);
    let op = query(
        "Test",
        vec![boolean_variable("skipIf")],
        vec![composite(
            "t",
            "T",
            vec![],
            vec![inline("T", vec![first], vec![leaf("v1", "Int")]), inline("T", vec![second], vec![leaf("v2", "String")])],
        )],
    );
    let expected = r#"query Test($skipIf: Boolean!) {
  t {
    ... on T @customSkip(if: $skipIf, label: "foo") {
      v1
      v2
    }
  }
}"#;
    assert_eq!(expected, normalize_and_print(&op, &vec![], &t_schema(), &vec![]));
}

#[test]
fn do_not_merge_when_only_one_fragment_specifies_directive() {
    let op = query(
        "Test",
        vec![boolean_variable("skipIf")],
        vec![composite(
            "t",
            "T",
            vec![],
            vec![
                inline("T", vec![], vec![leaf("v1", "Int")]),
                inline("T", vec![skip("skipIf")], vec![leaf("v2", "String")]),
            ],
        )],
    );
    let expected = r#"query Test($skipIf: Boolean!) {
  t {
    v1
    ... on T @skip(if: $skipIf) {
      v2
    }
  }
}"#;
    assert_eq!(expected, normalize_and_print(&op, &vec![], &t_schema(), &vec![]));
}

#[test]
fn do_not_merge_when_fragments_have_different_directives() {
    let op = query(
        "Test",
        vec![boolean_variable("skip1"), boolean_variable("skip2")],
        vec![composite(
            "t",
            "T",
            vec![],
            vec![
                inline("T", vec![skip("skip1")], vec![leaf("v1", "Int")]),
                inline("T", vec![skip("skip2")], vec![leaf("v2", "String")]),
            ],
        )],
    );
    let expected = r#"query Test($skip1: Boolean!, $skip2: Boolean!) {
  t {
    ... on T @skip(if: $skip1) {
      v1
    }
    ... on T @skip(if: $skip2) {
      v2
    }
  }
}"#;
    assert_eq!(expected, normalize_and_print(&op, &vec![], &t_schema(), &vec![]));
}

fn foo_schema(foo_directives: Vec<Directive>) -> Schema {
    schema(vec![
        object("Query", vec![field_def("foo", named("Foo"))]),
        object_with_directives(
            "Foo",
            foo_directives,
            vec![field_def("v1", non_null("ID")), field_def("v2", named("String"))],
        ),
    ])
}

fn typename_query(selections: Vec<Selection>) -> Operation {
    query("TestQuery", vec![], vec![composite("foo", "Foo", vec![], selections)])
}

#[test]
fn removes_sibling_typename() {
    let op = typename_query(vec![leaf("__typename", "String"), leaf("v1", "ID"), leaf("v2", "String")]);
    let expected = r#"query TestQuery {
  foo {
    v1
    v2
  }
}"#;
    assert_eq!(expected, normalize_and_print(&op, &vec![], &foo_schema(vec![]), &vec![]));
}

#[test]
fn keeps_typename_if_no_other_selection() {
    let op = typename_query(vec![leaf("__typename", "String")]);
    let expected = r#"query TestQuery {
  foo {
    __typename
  }
}"#;
    assert_eq!(expected, normalize_and_print(&op, &vec![], &foo_schema(vec![]), &vec![]));
}

#[test]
fn keeps_typename_for_interface_object() {
    let schema = foo_schema(vec![
        directive("interfaceObject", vec![]),
        directive("key", vec![("fields", Value::String("id".to_string()))]),
    ]);
    let op = typename_query(vec![leaf("__typename", "String"), leaf("v1", "ID"), leaf("v2", "String")]);
    let expected = r#"query TestQuery {
  foo {
    __typename
    v1
    v2
  }
}"#;
    assert_eq!(expected, normalize_and_print(&op, &vec![], &schema, &vec!["Foo".to_string()]));
}

// ---------------------------------------------------------------------------------------
// Further behaviour of normalization
// ---------------------------------------------------------------------------------------

#[test]
fn sibling_typename_is_recorded_on_the_first_other_field() {
    let op = typename_query(vec![leaf("__typename", "String"), leaf("v1", "ID")]);
    let schema = foo_schema(vec![]);
    let mut ids = SelectionIdGenerator::new();
    let normalized = normalize_operation(&op, &vec![], &schema, &vec![], &mut ids).unwrap();
    let (_, foo) = &normalized.selection_set.selections[0];
    match foo {
        apollo_federation::operation::NormalizedSelection::Field(f) => {
            let inner = f.selection_set.as_ref().unwrap();
            assert_eq!(inner.selections.len(), 1);
            match &inner.selections[0].1 {
                apollo_federation::operation::NormalizedSelection::Field(v1) => {
                    assert_eq!(v1.field.field_position.field_name, "v1");
                    assert_eq!(v1.sibling_typename.as_deref(), Some("__typename"));
                }
                _ => panic!("expected a field"),
            }
        }
        _ => panic!("expected a field"),
    }
}

#[test]
fn unknown_field_is_an_error() {
    let op = query("Test", vec![], vec![leaf("missing", "Int")]);
    let mut ids = SelectionIdGenerator::new();
    assert!(normalize_operation(&op, &vec![], &t_schema(), &vec![], &mut ids).is_err());
}

#[test]
fn unknown_fragment_is_an_error() {
    let op = query("Test", vec![], vec![composite("t", "T", vec![], vec![spread("Missing")])]);
    let mut ids = SelectionIdGenerator::new();
    assert!(normalize_operation(&op, &vec![], &t_schema(), &vec![], &mut ids).is_err());
}

#[test]
fn cyclic_fragments_are_an_error() {
    let op = query("Test", vec![], vec![composite("t", "T", vec![], vec![spread("A")])]);
    let fragments = vec![fragment("A", "T", vec![spread("B")]), fragment("B", "T", vec![spread("A")])];
    let mut ids = SelectionIdGenerator::new();
    assert!(normalize_operation(&op, &fragments, &t_schema(), &vec![], &mut ids).is_err());
}

#[test]
fn fragments_are_normalized_alongside_the_operation() {
    let schema = foo_schema(vec![]);
    let op = typename_query(vec![spread("F")]);
    let fragments = vec![fragment("F", "Foo", vec![leaf("v1", "ID"), leaf("v1", "ID")])];
    let mut ids = SelectionIdGenerator::new();
    let normalized = normalize_operation(&op, &fragments, &schema, &vec![], &mut ids).unwrap();
    assert_eq!(normalized.fragments.len(), 1);
    assert_eq!(normalized.fragments[0].name, "F");
    assert_eq!(normalized.fragments[0].selection_set.selections.len(), 1);
}

#[test]
fn selection_ids_count_up_from_one() {
    let mut ids = SelectionIdGenerator::new();
    let a = apollo_federation::operation::SelectionId::new(&mut ids);
    let b = apollo_federation::operation::SelectionId::new(&mut ids);
    assert_ne!(a, b);
    assert_eq!(a, a.copy());
}
