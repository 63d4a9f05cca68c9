//! The arguments of the join specification's directives in a supergraph: `@join__type` and
//! `@join__field`, read from their applications.
use crate::argument::{
    argument_value, directive_optional_boolean_argument, directive_optional_enum_argument,
    directive_optional_fieldset_argument, directive_optional_string_argument,
    directive_required_enum_argument, directive_required_string_argument, fieldset_message, missing_message,
    wrong_kind_message,
};
use crate::ast::{Directive, ValueView};
use crate::error::{is_internal_error, is_invalid_graphql_error, FederationError};
use crate::subgraph_extraction::{opt_view, FieldDirectiveArguments, TypeDirectiveArguments};
use vstd::prelude::*;

verus! {

/// The kinds of values that join arguments take.
pub enum ArgumentKind {
    Enum,
    FieldSet,
    Text,
    Boolean,
}

/// Whether `v` is a value of the kind `k`.
pub open spec fn of_kind(v: ValueView, k: ArgumentKind) -> bool {
    match k {
        ArgumentKind::Enum => v is Enum,
        ArgumentKind::FieldSet => v is String,
        ArgumentKind::Text => v is String,
        ArgumentKind::Boolean => v is Boolean,
    }
}

/// The error (whether internal, and its message) of the argument `name` of `app` given with a
/// value of another kind than `k`.
pub open spec fn kind_error(app: Directive, name: Seq<char>, k: ArgumentKind) -> (bool, Seq<char>) {
    match k {
        ArgumentKind::Enum => (true, wrong_kind_message(name, app.name@, "an enum value"@)),
        ArgumentKind::FieldSet => (false, fieldset_message(name)),
        ArgumentKind::Text => (true, wrong_kind_message(name, app.name@, "a string"@)),
        ArgumentKind::Boolean => (true, wrong_kind_message(name, app.name@, "a boolean"@)),
    }
}

/// What reading the optional argument `name` of kind `k` of `app` gives: its value (`None`
/// where absent or `null`), or the error of a value of another kind.
pub open spec fn optional_read(app: Directive, name: Seq<char>, k: ArgumentKind) -> Result<Option<ValueView>, (bool, Seq<char>)> {
    match argument_value(app, name) {
        None => Ok(None),
        Some(ValueView::Null) => Ok(None),
        Some(v) => if of_kind(v, k) {
            Ok(Some(v))
        } else {
            Err(kind_error(app, name, k))
        },
    }
}

/// Whether `e` is the error `(internal, message)`.
pub open spec fn is_error(e: FederationError, err: (bool, Seq<char>)) -> bool {
    if err.0 {
        is_internal_error(e, err.1)
    } else {
        is_invalid_graphql_error(e, err.1)
    }
}

/// The text of a string or enum value.
pub open spec fn text_of(v: Option<ValueView>) -> Option<Seq<char>> {
    match v {
        Some(ValueView::String(s)) => Some(s),
        Some(ValueView::Enum(s)) => Some(s),
        _ => None,
    }
}

/// The truth of a boolean value.
pub open spec fn truth_of(v: Option<ValueView>) -> Option<bool> {
    match v {
        Some(ValueView::Boolean(b)) => Some(b),
        _ => None,
    }
}

/// The first error among the reads `rs`, in order.
pub open spec fn first_error(rs: Seq<Result<Option<ValueView>, (bool, Seq<char>)>>) -> Option<(bool, Seq<char>)>
    decreases rs.len(),
{
    if rs.len() == 0 {
        None
    } else {
        match rs[0] {
            Err(e) => Some(e),
            Ok(_) => first_error(rs.drop_first()),
        }
    }
}

/// The reads of the arguments of a `@join__field` application: `graph`, `requires`,
/// `provides`, `type`, `external`, `override` and `usedOverridden`, in that order.
pub open spec fn field_reads(app: Directive) -> Seq<Result<Option<ValueView>, (bool, Seq<char>)>> {
    seq![
        optional_read(app, "graph"@, ArgumentKind::Enum),
        optional_read(app, "requires"@, ArgumentKind::FieldSet),
        optional_read(app, "provides"@, ArgumentKind::FieldSet),
        optional_read(app, "type"@, ArgumentKind::Text),
        optional_read(app, "external"@, ArgumentKind::Boolean),
        optional_read(app, "override"@, ArgumentKind::Text),
        optional_read(app, "usedOverridden"@, ArgumentKind::Boolean),
    ]
}

/// The value read of an argument, where the read succeeded.
pub open spec fn read_value(r: Result<Option<ValueView>, (bool, Seq<char>)>) -> Option<ValueView> {
    match r {
        Ok(v) => v,
        Err(_) => None,
    }
}

/// Reads the arguments of a `@join__field` application: each optional, the first of the
/// wrong kind an error (see [`field_reads`]).
pub fn field_directive_arguments(application: &Directive) -> (res: Result<FieldDirectiveArguments, FederationError>)
    ensures
        match first_error(field_reads(*application)) {
            Some(err) => res matches Err(e) && is_error(e, err),
            None => res matches Ok(a) && {
                let rs = field_reads(*application);
                &&& opt_view(a.graph) == text_of(read_value(rs[0]))
                &&& opt_view(a.requires_) == text_of(read_value(rs[1]))
                &&& opt_view(a.provides) == text_of(read_value(rs[2]))
                &&& opt_view(a.type_) == text_of(read_value(rs[3]))
                &&& a.external == truth_of(read_value(rs[4]))
                &&& opt_view(a.override_) == text_of(read_value(rs[5]))
                &&& a.user_overridden == truth_of(read_value(rs[6]))
            },
        },
{
    proof {
        reveal_strlit("graph");
        reveal_strlit("requires");
        reveal_strlit("provides");
        reveal_strlit("type");
        reveal_strlit("external");
        reveal_strlit("override");
        reveal_strlit("usedOverridden");
        reveal_with_fuel(first_error, 8);
    }
    let graph = directive_optional_enum_argument(application, "graph")?;
    let requires_ = directive_optional_fieldset_argument(application, "requires")?;
    let provides = directive_optional_fieldset_argument(application, "provides")?;
    let type_ = directive_optional_string_argument(application, "type")?;
    let external = directive_optional_boolean_argument(application, "external")?;
    let override_ = directive_optional_string_argument(application, "override")?;
    let user_overridden = directive_optional_boolean_argument(application, "usedOverridden")?;
    Ok(FieldDirectiveArguments { graph, requires_, provides, type_, external, override_, user_overridden })
}

/// The reads of the arguments of a `@join__type` application: `graph` (required), `key`,
/// `extension`, `resolvable` and `isInterfaceObject`, in that order.
pub open spec fn type_reads(app: Directive) -> Seq<Result<Option<ValueView>, (bool, Seq<char>)>> {
    seq![
        match optional_read(app, "graph"@, ArgumentKind::Enum) {
            Ok(None) => Err((true, missing_message("graph"@, app.name@))),
            r => r,
        },
        optional_read(app, "key"@, ArgumentKind::FieldSet),
        optional_read(app, "extension"@, ArgumentKind::Boolean),
        optional_read(app, "resolvable"@, ArgumentKind::Boolean),
        optional_read(app, "isInterfaceObject"@, ArgumentKind::Boolean),
    ]
}

/// Reads the arguments of a `@join__type` application (see [`type_reads`]): `graph` is
/// required; `extension` defaults to false, `resolvable` to true and `isInterfaceObject` to
/// false.
pub fn type_directive_arguments(application: &Directive) -> (res: Result<TypeDirectiveArguments, FederationError>)
    ensures
        match first_error(type_reads(*application)) {
            Some(err) => res matches Err(e) && is_error(e, err),
            None => res matches Ok(a) && {
                let rs = type_reads(*application);
                &&& Some(a.graph@) == text_of(read_value(rs[0]))
                &&& opt_view(a.key) == text_of(read_value(rs[1]))
                &&& a.extension == match truth_of(read_value(rs[2])) { Some(b) => b, None => false }
                &&& a.resolvable == match truth_of(read_value(rs[3])) { Some(b) => b, None => true }
                &&& a.is_interface_object == match truth_of(read_value(rs[4])) { Some(b) => b, None => false }
            },
        },
{
    proof {
        reveal_strlit("graph");
        reveal_strlit("key");
        reveal_strlit("extension");
        reveal_strlit("resolvable");
        reveal_strlit("isInterfaceObject");
        reveal_with_fuel(first_error, 6);
    }
    let graph = directive_required_enum_argument(application, "graph")?;
    let key = directive_optional_fieldset_argument(application, "key")?;
    let extension = match directive_optional_boolean_argument(application, "extension")? {
        Some(b) => b,
        None => false,
    };
    let resolvable = match directive_optional_boolean_argument(application, "resolvable")? {
        Some(b) => b,
        None => true,
    };
    let is_interface_object = match directive_optional_boolean_argument(application, "isInterfaceObject")? {
        Some(b) => b,
        None => false,
    };
    Ok(TypeDirectiveArguments { graph, key, extension, resolvable, is_interface_object })
}

/// The mathematical form of the arguments of a `@join__type` application.
pub open spec fn type_arguments_view(a: TypeDirectiveArguments) -> (Seq<char>, Option<Seq<char>>, bool, bool, bool) {
    (a.graph@, opt_view(a.key), a.extension, a.resolvable, a.is_interface_object)
}

/// What reading a `@join__type` application gives (see [`type_directive_arguments`]).
pub open spec fn type_arguments_read(app: Directive) -> Result<(Seq<char>, Option<Seq<char>>, bool, bool, bool), (bool, Seq<char>)> {
    let rs = type_reads(app);
    match first_error(rs) {
        Some(err) => Err(err),
        None => Ok((
            text_of(read_value(rs[0]))->Some_0,
            text_of(read_value(rs[1])),
            match truth_of(read_value(rs[2])) { Some(b) => b, None => false },
            match truth_of(read_value(rs[3])) { Some(b) => b, None => true },
            match truth_of(read_value(rs[4])) { Some(b) => b, None => false },
        )),
    }
}

/// What reading the applications of the directive `name` among `ds` gives: the arguments of
/// each, in order, or the error of the first that cannot be read.
pub open spec fn type_applications_read(ds: Seq<Directive>, name: Seq<char>) -> Result<Seq<(Seq<char>, Option<Seq<char>>, bool, bool, bool)>, (bool, Seq<char>)>
    decreases ds.len(),
{
    if ds.len() == 0 {
        Ok(Seq::empty())
    } else {
        match type_applications_read(ds.drop_last(), name) {
            Err(e) => Err(e),
            Ok(prev) => if ds.last().name@ == name {
                match type_arguments_read(ds.last()) {
                    Err(e) => Err(e),
                    Ok(a) => Ok(prev.push(a)),
                }
            } else {
                Ok(prev)
            },
        }
    }
}

/// Reads the applications of the directive `name` among `ds` (see [`type_applications_read`]).
pub fn type_applications(ds: &Vec<Directive>, name: &String) -> (res: Result<Vec<TypeDirectiveArguments>, FederationError>)
    ensures
        match type_applications_read(ds@, name@) {
            Err(err) => res matches Err(e) && is_error(e, err),
            Ok(v) => res matches Ok(apps) && apps@.map_values(|a: TypeDirectiveArguments| type_arguments_view(a)) == v,
        },
{
    let mut out: Vec<TypeDirectiveArguments> = Vec::new();
    let mut i: usize = 0;
    assert(ds@.take(0) =~= Seq::<Directive>::empty());
    while i < ds.len()
        invariant
            i <= ds@.len(),
            type_applications_read(ds@.take(i as int), name@) matches Ok(v) && out@.map_values(|a: TypeDirectiveArguments| type_arguments_view(a)) == v,
        decreases ds@.len() - i,
    {
        assert(ds@.take(i + 1).drop_last() =~= ds@.take(i as int));
        assert(ds@.take(i + 1).last() == ds@[i as int]);
        if ds[i].name == *name {
            match type_directive_arguments(&ds[i]) {
                Ok(a) => {
                    let ghost before = out@;
                    out.push(a);
                    proof {
                        assert(out@.map_values(|a: TypeDirectiveArguments| type_arguments_view(a)) =~= before.map_values(
                            |a: TypeDirectiveArguments| type_arguments_view(a),
                        ).push(type_arguments_view(a)));
                    }
                },
                Err(e) => {
                    proof {
                        lemma_read_error_stays(ds@, name@, i as int + 1);
                    }
                    return Err(e);
                },
            }
        }
        i = i + 1;
    }
    assert(ds@.take(i as int) =~= ds@);
    Ok(out)
}

/// Once reading a prefix fails, reading all fails with the same error.
proof fn lemma_read_error_stays(ds: Seq<Directive>, name: Seq<char>, j: int)
    requires
        0 <= j <= ds.len(),
        type_applications_read(ds.take(j), name) is Err,
    ensures
        type_applications_read(ds, name) == type_applications_read(ds.take(j), name),
    decreases ds.len() - j,
{
    if j == ds.len() {
        assert(ds.take(j) =~= ds);
    } else {
        assert(ds.take(j + 1).drop_last() =~= ds.take(j));
        lemma_read_error_stays(ds, name, j + 1);
    }
}

/// The arguments of a `@join__implements` application: the graph and the interface.
pub struct ImplementsDirectiveArguments {
    pub graph: String,
    pub interface: String,
}

/// A read that a required argument be there.
pub open spec fn required(app: Directive, name: Seq<char>, r: Result<Option<ValueView>, (bool, Seq<char>)>) -> Result<Option<ValueView>, (bool, Seq<char>)> {
    match r {
        Ok(None) => Err((true, missing_message(name, app.name@))),
        other => other,
    }
}

/// What reading a `@join__implements` application gives: its graph and interface, or the
/// error of the first of them missing or of the wrong kind.
pub open spec fn implements_arguments_read(app: Directive) -> Result<(Seq<char>, Seq<char>), (bool, Seq<char>)> {
    let rs = seq![
        required(app, "graph"@, optional_read(app, "graph"@, ArgumentKind::Enum)),
        required(app, "interface"@, optional_read(app, "interface"@, ArgumentKind::Text)),
    ];
    match first_error(rs) {
        Some(err) => Err(err),
        None => Ok((text_of(read_value(rs[0]))->Some_0, text_of(read_value(rs[1]))->Some_0)),
    }
}

/// Reads a `@join__implements` application (see [`implements_arguments_read`]).
pub fn implements_directive_arguments(application: &Directive) -> (res: Result<ImplementsDirectiveArguments, FederationError>)
    ensures
        match implements_arguments_read(*application) {
            Err(err) => res matches Err(e) && is_error(e, err),
            Ok(v) => res matches Ok(a) && (a.graph@, a.interface@) == v,
        },
{
    proof {
        reveal_strlit("graph");
        reveal_strlit("interface");
        reveal_with_fuel(first_error, 3);
    }
    let graph = directive_required_enum_argument(application, "graph")?;
    let interface = directive_required_string_argument(application, "interface")?;
    Ok(ImplementsDirectiveArguments { graph, interface })
}

/// What reading the applications of the directive `name` among `ds` as `@join__implements`
/// gives: the arguments of each, in order, or the error of the first that cannot be read.
pub open spec fn implements_applications_read(ds: Seq<Directive>, name: Seq<char>) -> Result<Seq<(Seq<char>, Seq<char>)>, (bool, Seq<char>)>
    decreases ds.len(),
{
    if ds.len() == 0 {
        Ok(Seq::empty())
    } else {
        match implements_applications_read(ds.drop_last(), name) {
            Err(e) => Err(e),
            Ok(prev) => if ds.last().name@ == name {
                match implements_arguments_read(ds.last()) {
                    Err(e) => Err(e),
                    Ok(a) => Ok(prev.push(a)),
                }
            } else {
                Ok(prev)
            },
        }
    }
}

pub open spec fn implements_view(a: ImplementsDirectiveArguments) -> (Seq<char>, Seq<char>) {
    (a.graph@, a.interface@)
}

proof fn lemma_implements_error_stays(ds: Seq<Directive>, name: Seq<char>, j: int)
    requires
        0 <= j <= ds.len(),
        implements_applications_read(ds.take(j), name) is Err,
    ensures
        implements_applications_read(ds, name) == implements_applications_read(ds.take(j), name),
    decreases ds.len() - j,
{
    if j == ds.len() {
        assert(ds.take(j) =~= ds);
    } else {
        assert(ds.take(j + 1).drop_last() =~= ds.take(j));
        lemma_implements_error_stays(ds, name, j + 1);
    }
}

/// Reads the `@join__implements` applications among `ds` (see
/// [`implements_applications_read`]).
pub fn implements_applications(ds: &Vec<Directive>, name: &String) -> (res: Result<Vec<ImplementsDirectiveArguments>, FederationError>)
    ensures
        match implements_applications_read(ds@, name@) {
            Err(err) => res matches Err(e) && is_error(e, err),
            Ok(v) => res matches Ok(apps) && apps@.map_values(|a: ImplementsDirectiveArguments| implements_view(a)) == v,
        },
{
    let mut out: Vec<ImplementsDirectiveArguments> = Vec::new();
    let mut i: usize = 0;
    assert(ds@.take(0) =~= Seq::<Directive>::empty());
    while i < ds.len()
        invariant
            i <= ds@.len(),
            implements_applications_read(ds@.take(i as int), name@) matches Ok(v) && out@.map_values(|a: ImplementsDirectiveArguments| implements_view(a)) == v,
        decreases ds@.len() - i,
    {
        assert(ds@.take(i + 1).drop_last() =~= ds@.take(i as int));
        assert(ds@.take(i + 1).last() == ds@[i as int]);
        if ds[i].name == *name {
            match implements_directive_arguments(&ds[i]) {
                Ok(a) => {
                    let ghost before = out@;
                    out.push(a);
                    proof {
                        assert(out@.map_values(|a: ImplementsDirectiveArguments| implements_view(a)) =~= before.map_values(
                            |a: ImplementsDirectiveArguments| implements_view(a),
                        ).push(implements_view(a)));
                    }
                },
                Err(e) => {
                    proof {
                        lemma_implements_error_stays(ds@, name@, i as int + 1);
                    }
                    return Err(e);
                },
            }
        }
        i = i + 1;
    }
    assert(ds@.take(i as int) =~= ds@);
    Ok(out)
}

/// The mathematical form of the arguments of a `@join__field` application.
pub open spec fn field_arguments_view(a: FieldDirectiveArguments) -> (Option<Seq<char>>, Option<Seq<char>>, Option<Seq<char>>, Option<Seq<char>>, Option<bool>, Option<Seq<char>>, Option<bool>) {
    (opt_view(a.graph), opt_view(a.requires_), opt_view(a.provides), opt_view(a.type_), a.external, opt_view(a.override_), a.user_overridden)
}

/// What reading a `@join__field` application gives (see [`field_directive_arguments`]).
pub open spec fn field_arguments_read(app: Directive) -> Result<(Option<Seq<char>>, Option<Seq<char>>, Option<Seq<char>>, Option<Seq<char>>, Option<bool>, Option<Seq<char>>, Option<bool>), (bool, Seq<char>)> {
    let rs = field_reads(app);
    match first_error(rs) {
        Some(err) => Err(err),
        None => Ok((
            text_of(read_value(rs[0])),
            text_of(read_value(rs[1])),
            text_of(read_value(rs[2])),
            text_of(read_value(rs[3])),
            truth_of(read_value(rs[4])),
            text_of(read_value(rs[5])),
            truth_of(read_value(rs[6])),
        )),
    }
}

/// What reading the applications of the directive `name` among `ds` as `@join__field` gives.
pub open spec fn field_applications_read(ds: Seq<Directive>, name: Seq<char>) -> Result<Seq<(Option<Seq<char>>, Option<Seq<char>>, Option<Seq<char>>, Option<Seq<char>>, Option<bool>, Option<Seq<char>>, Option<bool>)>, (bool, Seq<char>)>
    decreases ds.len(),
{
    if ds.len() == 0 {
        Ok(Seq::empty())
    } else {
        match field_applications_read(ds.drop_last(), name) {
            Err(e) => Err(e),
            Ok(prev) => if ds.last().name@ == name {
                match field_arguments_read(ds.last()) {
                    Err(e) => Err(e),
                    Ok(a) => Ok(prev.push(a)),
                }
            } else {
                Ok(prev)
            },
        }
    }
}

proof fn lemma_field_error_stays(ds: Seq<Directive>, name: Seq<char>, j: int)
    requires
        0 <= j <= ds.len(),
        field_applications_read(ds.take(j), name) is Err,
    ensures
        field_applications_read(ds, name) == field_applications_read(ds.take(j), name),
    decreases ds.len() - j,
{
    if j == ds.len() {
        assert(ds.take(j) =~= ds);
    } else {
        assert(ds.take(j + 1).drop_last() =~= ds.take(j));
        lemma_field_error_stays(ds, name, j + 1);
    }
}

/// Reads the `@join__field` applications among `ds` (see [`field_applications_read`]).
pub fn field_applications(ds: &Vec<Directive>, name: &String) -> (res: Result<Vec<FieldDirectiveArguments>, FederationError>)
    ensures
        match field_applications_read(ds@, name@) {
            Err(err) => res matches Err(e) && is_error(e, err),
            Ok(v) => res matches Ok(apps) && apps@.map_values(|a: FieldDirectiveArguments| field_arguments_view(a)) == v,
        },
{
    let mut out: Vec<FieldDirectiveArguments> = Vec::new();
    let mut i: usize = 0;
    assert(ds@.take(0) =~= Seq::<Directive>::empty());
    while i < ds.len()
        invariant
            i <= ds@.len(),
            field_applications_read(ds@.take(i as int), name@) matches Ok(v) && out@.map_values(|a: FieldDirectiveArguments| field_arguments_view(a)) == v,
        decreases ds@.len() - i,
    {
        assert(ds@.take(i + 1).drop_last() =~= ds@.take(i as int));
        assert(ds@.take(i + 1).last() == ds@[i as int]);
        if ds[i].name == *name {
            match field_directive_arguments(&ds[i]) {
                Ok(a) => {
                    let ghost before = out@;
                    out.push(a);
                    proof {
                        assert(out@.map_values(|a: FieldDirectiveArguments| field_arguments_view(a)) =~= before.map_values(
                            |a: FieldDirectiveArguments| field_arguments_view(a),
                        ).push(field_arguments_view(a)));
                    }
                },
                Err(e) => {
                    proof {
                        lemma_field_error_stays(ds@, name@, i as int + 1);
                    }
                    return Err(e);
                },
            }
        }
        i = i + 1;
    }
    assert(ds@.take(i as int) =~= ds@);
    Ok(out)
}

} // verus!
