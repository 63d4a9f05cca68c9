//! Reading the arguments of directive applications.
use crate::ast::{concat_strs, concat_views, first_argument_index, Directive, Value, ValueView};
use crate::error::{
    is_internal_error, is_invalid_graphql_error, FederationError, SingleFederationError,
};
use vstd::prelude::*;

verus! {

/// The message of the error for an argument of the wrong kind.
pub open spec fn wrong_kind_message(name: Seq<char>, directive: Seq<char>, kind: Seq<char>) -> Seq<
    char,
> {
    "Argument \""@ + name + "\" of directive \"@"@ + directive + "\" must be "@ + kind + "."@
}

/// The message of the error for a missing required argument.
pub open spec fn missing_message(name: Seq<char>, directive: Seq<char>) -> Seq<char> {
    "Required argument \""@ + name + "\" of directive \"@"@ + directive + "\" was not present."@
}

/// The message of the error for a field set argument that is not a string.
pub open spec fn fieldset_message(name: Seq<char>) -> Seq<char> {
    "Invalid value for argument \""@ + name + "\": must be a string."@
}

/// The value of the argument `name` of `application`, if the application gives it.
pub open spec fn argument_value(application: Directive, name: Seq<char>) -> Option<ValueView> {
    match first_argument_index(application.arguments@, name) {
        Some(i) => Some(application.arguments@[i].value@),
        None => None,
    }
}

fn wrong_kind_error(name: &str, directive: &String, kind: &str) -> (res: FederationError)
    ensures
        is_internal_error(res, wrong_kind_message(name@, directive@, kind@)),
{
    let message = concat_strs(
        &["Argument \"", name, "\" of directive \"@", directive.as_str(), "\" must be ", kind, "."],
    );
    proof {
        reveal_with_fuel(concat_views, 8);
    }
    assert(message@ =~= wrong_kind_message(name@, directive@, kind@));
    FederationError::internal(message)
}

fn missing_error(name: &str, directive: &String) -> (res: FederationError)
    ensures
        is_internal_error(res, missing_message(name@, directive@)),
{
    let message = concat_strs(
        &["Required argument \"", name, "\" of directive \"@", directive.as_str(), "\" was not present."],
    );
    proof {
        reveal_with_fuel(concat_views, 6);
    }
    assert(message@ =~= missing_message(name@, directive@));
    FederationError::internal(message)
}

/// The enum value of the argument `name`, `None` where it is absent or `null`; an internal
/// error where it is of another kind.
pub fn directive_optional_enum_argument(application: &Directive, name: &str) -> (res: Result<
    Option<String>,
    FederationError,
>)
    ensures
        match argument_value(*application, name@) {
            None | Some(ValueView::Null) => res == Ok::<Option<String>, FederationError>(None),
            Some(ValueView::Enum(e)) => res matches Ok(Some(s)) && s@ == e,
            Some(_) => res matches Err(err) && is_internal_error(
                err,
                wrong_kind_message(name@, application.name@, "an enum value"@),
            ),
        },
{
    match application.argument_by_name(name) {
        Some(value) => match value {
            Value::Enum(e) => Ok(Some(e.clone())),
            Value::Null => Ok(None),
            _ => Err(wrong_kind_error(name, &application.name, "an enum value")),
        },
        None => Ok(None),
    }
}

/// The enum value of the argument `name`; an internal error where it is absent, `null` or of
/// another kind.
pub fn directive_required_enum_argument(application: &Directive, name: &str) -> (res: Result<
    String,
    FederationError,
>)
    ensures
        match argument_value(*application, name@) {
            None | Some(ValueView::Null) => res matches Err(err) && is_internal_error(
                err,
                missing_message(name@, application.name@),
            ),
            Some(ValueView::Enum(e)) => res matches Ok(s) && s@ == e,
            Some(_) => res matches Err(err) && is_internal_error(
                err,
                wrong_kind_message(name@, application.name@, "an enum value"@),
            ),
        },
{
    match directive_optional_enum_argument(application, name) {
        Ok(Some(e)) => Ok(e),
        Ok(None) => Err(missing_error(name, &application.name)),
        Err(e) => Err(e),
    }
}

/// The string value of the argument `name`, `None` where it is absent or `null`; an internal
/// error where it is of another kind.
pub fn directive_optional_string_argument(application: &Directive, name: &str) -> (res: Result<
    Option<String>,
    FederationError,
>)
    ensures
        match argument_value(*application, name@) {
            None | Some(ValueView::Null) => res == Ok::<Option<String>, FederationError>(None),
            Some(ValueView::String(e)) => res matches Ok(Some(s)) && s@ == e,
            Some(_) => res matches Err(err) && is_internal_error(
                err,
                wrong_kind_message(name@, application.name@, "a string"@),
            ),
        },
{
    match application.argument_by_name(name) {
        Some(value) => match value {
            Value::String(e) => Ok(Some(e.clone())),
            Value::Null => Ok(None),
            _ => Err(wrong_kind_error(name, &application.name, "a string")),
        },
        None => Ok(None),
    }
}

/// The string value of the argument `name`; an internal error where it is absent, `null` or
/// of another kind.
pub fn directive_required_string_argument(application: &Directive, name: &str) -> (res: Result<
    String,
    FederationError,
>)
    ensures
        match argument_value(*application, name@) {
            None | Some(ValueView::Null) => res matches Err(err) && is_internal_error(
                err,
                missing_message(name@, application.name@),
            ),
            Some(ValueView::String(e)) => res matches Ok(s) && s@ == e,
            Some(_) => res matches Err(err) && is_internal_error(
                err,
                wrong_kind_message(name@, application.name@, "a string"@),
            ),
        },
{
    match directive_optional_string_argument(application, name) {
        Ok(Some(e)) => Ok(e),
        Ok(None) => Err(missing_error(name, &application.name)),
        Err(e) => Err(e),
    }
}

/// The field set (a string) of the argument `name`, `None` where it is absent or `null`; an
/// invalid-GraphQL error where it is of another kind.
pub fn directive_optional_fieldset_argument(application: &Directive, name: &str) -> (res: Result<
    Option<String>,
    FederationError,
>)
    ensures
        match argument_value(*application, name@) {
            None | Some(ValueView::Null) => res == Ok::<Option<String>, FederationError>(None),
            Some(ValueView::String(e)) => res matches Ok(Some(s)) && s@ == e,
            Some(_) => res matches Err(err) && is_invalid_graphql_error(
                err,
                fieldset_message(name@),
            ),
        },
{
    match application.argument_by_name(name) {
        Some(value) => match value {
            Value::String(e) => Ok(Some(e.clone())),
            Value::Null => Ok(None),
            _ => {
                let message = concat_strs(
                    &["Invalid value for argument \"", name, "\": must be a string."],
                );
                proof {
                    reveal_with_fuel(concat_views, 4);
                }
                assert(message@ =~= fieldset_message(name@));
                Err(
                    FederationError::SingleFederationError(
                        SingleFederationError::InvalidGraphQL { message },
                    ),
                )
            },
        },
        None => Ok(None),
    }
}

/// The field set (a string) of the argument `name`; an error where it is absent, `null` or of
/// another kind.
pub fn directive_required_fieldset_argument(application: &Directive, name: &str) -> (res: Result<
    String,
    FederationError,
>)
    ensures
        match argument_value(*application, name@) {
            None | Some(ValueView::Null) => res matches Err(err) && is_internal_error(
                err,
                missing_message(name@, application.name@),
            ),
            Some(ValueView::String(e)) => res matches Ok(s) && s@ == e,
            Some(_) => res matches Err(err) && is_invalid_graphql_error(
                err,
                fieldset_message(name@),
            ),
        },
{
    match directive_optional_fieldset_argument(application, name) {
        Ok(Some(e)) => Ok(e),
        Ok(None) => Err(missing_error(name, &application.name)),
        Err(e) => Err(e),
    }
}

/// The boolean value of the argument `name`, `None` where it is absent or `null`; an internal
/// error where it is of another kind.
pub fn directive_optional_boolean_argument(application: &Directive, name: &str) -> (res: Result<
    Option<bool>,
    FederationError,
>)
    ensures
        match argument_value(*application, name@) {
            None | Some(ValueView::Null) => res == Ok::<Option<bool>, FederationError>(None),
            Some(ValueView::Boolean(b)) => res == Ok::<Option<bool>, FederationError>(Some(b)),
            Some(_) => res matches Err(err) && is_internal_error(
                err,
                wrong_kind_message(name@, application.name@, "a boolean"@),
            ),
        },
{
    match application.argument_by_name(name) {
        Some(value) => match value {
            Value::Boolean(b) => Ok(Some(*b)),
            Value::Null => Ok(None),
            _ => Err(wrong_kind_error(name, &application.name, "a boolean")),
        },
        None => Ok(None),
    }
}

/// The boolean value of the argument `name`; an internal error where it is absent, `null` or
/// of another kind.
pub fn directive_required_boolean_argument(application: &Directive, name: &str) -> (res: Result<
    bool,
    FederationError,
>)
    ensures
        match argument_value(*application, name@) {
            None | Some(ValueView::Null) => res matches Err(err) && is_internal_error(
                err,
                missing_message(name@, application.name@),
            ),
            Some(ValueView::Boolean(b)) => res == Ok::<bool, FederationError>(b),
            Some(_) => res matches Err(err) && is_internal_error(
                err,
                wrong_kind_message(name@, application.name@, "a boolean"@),
            ),
        },
{
    match directive_optional_boolean_argument(application, name) {
        Ok(Some(b)) => Ok(b),
        Ok(None) => Err(missing_error(name, &application.name)),
        Err(e) => Err(e),
    }
}

} // verus!
