use apollo_federation::ast::{Argument, Directive, Value};
use apollo_federation::error::{FederationError, SingleFederationError};
use apollo_federation::join_arguments::{field_directive_arguments, type_directive_arguments};

fn s(text: &str) -> String {
    text.to_string()
}

fn arg(name: &str, value: Value) -> Argument {
    Argument { name: s(name), value }
}

fn message(e: FederationError) -> String {
    match e {
        FederationError::SingleFederationError(SingleFederationError::Internal { message }) => message,
        FederationError::SingleFederationError(SingleFederationError::InvalidGraphQL { message }) => message,
        other => panic!("unexpected error {:?}", other),
    }
}

#[test]
fn join_type_arguments_take_their_defaults() {
    let d = Directive { name: s("join__type"), arguments: vec![arg("graph", Value::Enum(s("A")))] };
    let a = type_directive_arguments(&d).unwrap();
    assert_eq!(a.graph, "A");
    assert_eq!(a.key, None);
    assert!(!a.extension && a.resolvable && !a.is_interface_object);
    let d = Directive {
        name: s("join__type"),
        arguments: vec![
            arg("graph", Value::Enum(s("B"))),
            arg("key", Value::String(s("id"))),
            arg("resolvable", Value::Boolean(false)),
            arg("isInterfaceObject", Value::Boolean(true)),
        ],
    };
    let a = type_directive_arguments(&d).unwrap();
    assert_eq!(a.key, Some(s("id")));
    assert!(!a.resolvable && a.is_interface_object);
}

#[test]
fn join_type_needs_its_graph() {
    let d = Directive { name: s("join__type"), arguments: vec![arg("key", Value::String(s("id")))] };
    assert_eq!(
        message(type_directive_arguments(&d).err().unwrap()),
        "Required argument \"graph\" of directive \"@join__type\" was not present."
    );
    let d = Directive { name: s("join__type"), arguments: vec![arg("graph", Value::Enum(s("A"))), arg("key", Value::Int(s("1")))] };
    assert_eq!(message(type_directive_arguments(&d).err().unwrap()), "Invalid value for argument \"key\": must be a string.");
}

#[test]
fn join_field_arguments_are_all_optional() {
    let a = field_directive_arguments(&Directive { name: s("join__field"), arguments: vec![] }).unwrap();
    assert!(a.graph.is_none() && a.requires_.is_none() && a.type_.is_none() && a.external.is_none());
    let d = Directive {
        name: s("join__field"),
        arguments: vec![
            arg("graph", Value::Enum(s("A"))),
            arg("type", Value::String(s("Int!"))),
            arg("external", Value::Boolean(true)),
            arg("override", Value::String(s("b"))),
        ],
    };
    let a = field_directive_arguments(&d).unwrap();
    assert_eq!(a.graph, Some(s("A")));
    assert_eq!(a.type_, Some(s("Int!")));
    assert_eq!(a.external, Some(true));
    assert_eq!(a.override_, Some(s("b")));
    let d = Directive { name: s("join__field"), arguments: vec![arg("external", Value::String(s("yes")))] };
    assert_eq!(
        message(field_directive_arguments(&d).err().unwrap()),
        "Argument \"external\" of directive \"@join__field\" must be a boolean."
    );
}
