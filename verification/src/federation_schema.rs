//! Schemas with the index of what references each type and directive (their referencers),
//! and the positions of schema elements.
use crate::ast::{concat_strs, concat_views, str_eq, Directive};
use crate::error::{is_internal_error, FederationError};
use crate::link::{LinksMetadata, OptionLinksMetadata};
use crate::schema::{
    inner_named_type, strings_view, DirectiveDefinition, EnumValueDefinition, ExtendedType, FieldDefinition,
    InputValueDefinition, Schema, SchemaDefinition, SchemaRootDefinitionKind, TypeKind,
};
use vstd::prelude::*;

verus! {

/// The name of a root operation kind, as written in a schema definition.
pub open spec fn root_kind_text(k: SchemaRootDefinitionKind) -> Seq<char> {
    match k {
        SchemaRootDefinitionKind::Query => "query"@,
        SchemaRootDefinitionKind::Mutation => "mutation"@,
        SchemaRootDefinitionKind::Subscription => "subscription"@,
    }
}

impl SchemaRootDefinitionKind {
    /// The name of the root operation kind: `query`, `mutation` or `subscription`.
    pub fn to_text(&self) -> (res: String)
        ensures
            res@ == root_kind_text(*self),
    {
        match self {
            SchemaRootDefinitionKind::Query => String::from_str("query"),
            SchemaRootDefinitionKind::Mutation => String::from_str("mutation"),
            SchemaRootDefinitionKind::Subscription => String::from_str("subscription"),
        }
    }
}

/// The position of a schema element that can reference a type or apply a directive.
#[derive(Debug, PartialEq, Eq)]
pub enum Location {
    SchemaDefinition,
    SchemaRoot(SchemaRootDefinitionKind),
    ScalarType(String),
    ObjectType(String),
    ObjectField(String, String),
    ObjectFieldArgument(String, String, String),
    InterfaceType(String),
    InterfaceField(String, String),
    InterfaceFieldArgument(String, String, String),
    UnionType(String),
    EnumType(String),
    EnumValue(String, String),
    InputObjectType(String),
    InputObjectField(String, String),
    DirectiveArgument(String, String),
}

/// The mathematical form of a [`Location`].
pub enum LocationView {
    SchemaDefinition,
    SchemaRoot(SchemaRootDefinitionKind),
    ScalarType(Seq<char>),
    ObjectType(Seq<char>),
    ObjectField(Seq<char>, Seq<char>),
    ObjectFieldArgument(Seq<char>, Seq<char>, Seq<char>),
    InterfaceType(Seq<char>),
    InterfaceField(Seq<char>, Seq<char>),
    InterfaceFieldArgument(Seq<char>, Seq<char>, Seq<char>),
    UnionType(Seq<char>),
    EnumType(Seq<char>),
    EnumValue(Seq<char>, Seq<char>),
    InputObjectType(Seq<char>),
    InputObjectField(Seq<char>, Seq<char>),
    DirectiveArgument(Seq<char>, Seq<char>),
}

impl View for Location {
    type V = LocationView;

    open spec fn view(&self) -> LocationView {
        match self {
            Location::SchemaDefinition => LocationView::SchemaDefinition,
            Location::SchemaRoot(k) => LocationView::SchemaRoot(*k),
            Location::ScalarType(t) => LocationView::ScalarType(t@),
            Location::ObjectType(t) => LocationView::ObjectType(t@),
            Location::ObjectField(t, f) => LocationView::ObjectField(t@, f@),
            Location::ObjectFieldArgument(t, f, a) => LocationView::ObjectFieldArgument(t@, f@, a@),
            Location::InterfaceType(t) => LocationView::InterfaceType(t@),
            Location::InterfaceField(t, f) => LocationView::InterfaceField(t@, f@),
            Location::InterfaceFieldArgument(t, f, a) => LocationView::InterfaceFieldArgument(
                t@,
                f@,
                a@,
            ),
            Location::UnionType(t) => LocationView::UnionType(t@),
            Location::EnumType(t) => LocationView::EnumType(t@),
            Location::EnumValue(t, v) => LocationView::EnumValue(t@, v@),
            Location::InputObjectType(t) => LocationView::InputObjectType(t@),
            Location::InputObjectField(t, f) => LocationView::InputObjectField(t@, f@),
            Location::DirectiveArgument(d, a) => LocationView::DirectiveArgument(d@, a@),
        }
    }
}

/// How a location is written in messages: a type by its name, a field or an enum value as
/// `Type.name`, an argument as `Type.field(name:)` or `@directive(name:)`, a root by its
/// operation kind.
pub open spec fn location_text(l: LocationView) -> Seq<char> {
    match l {
        LocationView::SchemaDefinition => Seq::empty(),
        LocationView::SchemaRoot(k) => root_kind_text(k),
        LocationView::ScalarType(t) => t,
        LocationView::ObjectType(t) => t,
        LocationView::ObjectField(t, f) => t + "."@ + f,
        LocationView::ObjectFieldArgument(t, f, a) => t + "."@ + f + "("@ + a + ":)"@,
        LocationView::InterfaceType(t) => t,
        LocationView::InterfaceField(t, f) => t + "."@ + f,
        LocationView::InterfaceFieldArgument(t, f, a) => t + "."@ + f + "("@ + a + ":)"@,
        LocationView::UnionType(t) => t,
        LocationView::EnumType(t) => t,
        LocationView::EnumValue(t, v) => t + "."@ + v,
        LocationView::InputObjectType(t) => t,
        LocationView::InputObjectField(t, f) => t + "."@ + f,
        LocationView::DirectiveArgument(d, a) => "@"@ + d + "("@ + a + ":)"@,
    }
}

/// How the kind of a location is named in messages, such as `Object field argument`.
pub open spec fn location_label(l: LocationView) -> Seq<char> {
    match l {
        LocationView::SchemaDefinition => "Schema definition"@,
        LocationView::SchemaRoot(_) => "Root"@,
        LocationView::ScalarType(_) => "Scalar type"@,
        LocationView::ObjectType(_) => "Object type"@,
        LocationView::ObjectField(_, _) => "Object field"@,
        LocationView::ObjectFieldArgument(_, _, _) => "Object field argument"@,
        LocationView::InterfaceType(_) => "Interface type"@,
        LocationView::InterfaceField(_, _) => "Interface field"@,
        LocationView::InterfaceFieldArgument(_, _, _) => "Interface field argument"@,
        LocationView::UnionType(_) => "Union type"@,
        LocationView::EnumType(_) => "Enum type"@,
        LocationView::EnumValue(_, _) => "Enum value"@,
        LocationView::InputObjectType(_) => "Input object type"@,
        LocationView::InputObjectField(_, _) => "Input object field"@,
        LocationView::DirectiveArgument(_, _) => "Directive argument"@,
    }
}

impl Location {
    /// A copy of the location.
    pub fn copy(&self) -> (res: Location)
        ensures
            res@ == self@,
    {
        match self {
            Location::SchemaDefinition => Location::SchemaDefinition,
            Location::SchemaRoot(k) => Location::SchemaRoot(*k),
            Location::ScalarType(t) => Location::ScalarType(t.clone()),
            Location::ObjectType(t) => Location::ObjectType(t.clone()),
            Location::ObjectField(t, f) => Location::ObjectField(t.clone(), f.clone()),
            Location::ObjectFieldArgument(t, f, a) => Location::ObjectFieldArgument(
                t.clone(),
                f.clone(),
                a.clone(),
            ),
            Location::InterfaceType(t) => Location::InterfaceType(t.clone()),
            Location::InterfaceField(t, f) => Location::InterfaceField(t.clone(), f.clone()),
            Location::InterfaceFieldArgument(t, f, a) => Location::InterfaceFieldArgument(
                t.clone(),
                f.clone(),
                a.clone(),
            ),
            Location::UnionType(t) => Location::UnionType(t.clone()),
            Location::EnumType(t) => Location::EnumType(t.clone()),
            Location::EnumValue(t, v) => Location::EnumValue(t.clone(), v.clone()),
            Location::InputObjectType(t) => Location::InputObjectType(t.clone()),
            Location::InputObjectField(t, f) => Location::InputObjectField(t.clone(), f.clone()),
            Location::DirectiveArgument(d, a) => Location::DirectiveArgument(d.clone(), a.clone()),
        }
    }

    /// The location as written in messages (see [`location_text`]).
    pub fn to_text(&self) -> (res: String)
        ensures
            res@ == location_text(self@),
    {
        proof {
            reveal_with_fuel(concat_views, 7);
        }
        match self {
            Location::SchemaDefinition => String::new(),
            Location::SchemaRoot(k) => k.to_text(),
            Location::ScalarType(t) => t.clone(),
            Location::ObjectType(t) => t.clone(),
            Location::ObjectField(t, f) => {
                let r = concat_strs(&[t.as_str(), ".", f.as_str()]);
                assert(r@ =~= location_text(self@));
                r
            },
            Location::ObjectFieldArgument(t, f, a) => {
                let r = concat_strs(&[t.as_str(), ".", f.as_str(), "(", a.as_str(), ":)"]);
                assert(r@ =~= location_text(self@));
                r
            },
            Location::InterfaceType(t) => t.clone(),
            Location::InterfaceField(t, f) => {
                let r = concat_strs(&[t.as_str(), ".", f.as_str()]);
                assert(r@ =~= location_text(self@));
                r
            },
            Location::InterfaceFieldArgument(t, f, a) => {
                let r = concat_strs(&[t.as_str(), ".", f.as_str(), "(", a.as_str(), ":)"]);
                assert(r@ =~= location_text(self@));
                r
            },
            Location::UnionType(t) => t.clone(),
            Location::EnumType(t) => t.clone(),
            Location::EnumValue(t, v) => {
                let r = concat_strs(&[t.as_str(), ".", v.as_str()]);
                assert(r@ =~= location_text(self@));
                r
            },
            Location::InputObjectType(t) => t.clone(),
            Location::InputObjectField(t, f) => {
                let r = concat_strs(&[t.as_str(), ".", f.as_str()]);
                assert(r@ =~= location_text(self@));
                r
            },
            Location::DirectiveArgument(d, a) => {
                let r = concat_strs(&["@", d.as_str(), "(", a.as_str(), ":)"]);
                assert(r@ =~= location_text(self@));
                r
            },
        }
    }

    /// How the kind of the location is named in messages (see [`location_label`]).
    pub fn label(&self) -> (res: &'static str)
        ensures
            res@ == location_label(self@),
    {
        proof {
            reveal_strlit("Schema definition");
            reveal_strlit("Root");
            reveal_strlit("Scalar type");
            reveal_strlit("Object type");
            reveal_strlit("Object field");
            reveal_strlit("Object field argument");
            reveal_strlit("Interface type");
            reveal_strlit("Interface field");
            reveal_strlit("Interface field argument");
            reveal_strlit("Union type");
            reveal_strlit("Enum type");
            reveal_strlit("Enum value");
            reveal_strlit("Input object type");
            reveal_strlit("Input object field");
            reveal_strlit("Directive argument");
        }
        match self {
            Location::SchemaDefinition => "Schema definition",
            Location::SchemaRoot(_) => "Root",
            Location::ScalarType(_) => "Scalar type",
            Location::ObjectType(_) => "Object type",
            Location::ObjectField(_, _) => "Object field",
            Location::ObjectFieldArgument(_, _, _) => "Object field argument",
            Location::InterfaceType(_) => "Interface type",
            Location::InterfaceField(_, _) => "Interface field",
            Location::InterfaceFieldArgument(_, _, _) => "Interface field argument",
            Location::UnionType(_) => "Union type",
            Location::EnumType(_) => "Enum type",
            Location::EnumValue(_, _) => "Enum value",
            Location::InputObjectType(_) => "Input object type",
            Location::InputObjectField(_, _) => "Input object field",
            Location::DirectiveArgument(_, _) => "Directive argument",
        }
    }
}


/// How a type is referenced: as the output type of a field, as the input type of an argument
/// or input field, as an implemented interface, as a union member, or as a root type.
#[derive(Debug, Clone, Copy, PartialEq, Eq, Structural)]
pub enum TypeUse {
    Output,
    Input,
    Implements,
    Member,
    Root,
}

/// What a location references: a directive (by an application) or a type.
#[derive(Debug, PartialEq, Eq)]
pub enum Target {
    Directive(String),
    Type(String, TypeUse),
}

/// The mathematical form of a [`Target`].
pub enum TargetView {
    Directive(Seq<char>),
    Type(Seq<char>, TypeUse),
}

impl View for Target {
    type V = TargetView;

    open spec fn view(&self) -> TargetView {
        match self {
            Target::Directive(d) => TargetView::Directive(d@),
            Target::Type(t, u) => TargetView::Type(t@, *u),
        }
    }
}

/// One thing to check of a schema before indexing it: a reference from a location, or that
/// the arguments of a field have distinct names.
#[derive(Debug, PartialEq, Eq)]
pub enum Check {
    Reference(Location, Target),
    DistinctArguments(Vec<String>),
}

/// The mathematical form of a [`Check`].
pub enum CheckView {
    Reference(LocationView, TargetView),
    DistinctArguments(Seq<Seq<char>>),
}

impl View for Check {
    type V = CheckView;

    open spec fn view(&self) -> CheckView {
        match self {
            Check::Reference(l, t) => CheckView::Reference(l@, t@),
            Check::DistinctArguments(names) => CheckView::DistinctArguments(strings_view(names@)),
        }
    }
}

pub open spec fn checks_view(cs: Seq<Check>) -> Seq<CheckView> {
    cs.map_values(|c: Check| c@)
}

/// The element that holds arguments: a field of an object or interface type, or a directive
/// definition.
pub enum ArgumentOwner {
    ObjectField(Seq<char>, Seq<char>),
    InterfaceField(Seq<char>, Seq<char>),
    Directive(Seq<char>),
}

/// The location of the argument `a` of `owner`.
pub open spec fn argument_location(owner: ArgumentOwner, a: Seq<char>) -> LocationView {
    match owner {
        ArgumentOwner::ObjectField(t, f) => LocationView::ObjectFieldArgument(t, f, a),
        ArgumentOwner::InterfaceField(t, f) => LocationView::InterfaceFieldArgument(t, f, a),
        ArgumentOwner::Directive(d) => LocationView::DirectiveArgument(d, a),
    }
}

/// The location of the field `f` of the object type (`object`) or interface type `t`.
pub open spec fn field_location(object: bool, t: Seq<char>, f: Seq<char>) -> LocationView {
    if object {
        LocationView::ObjectField(t, f)
    } else {
        LocationView::InterfaceField(t, f)
    }
}

/// The arguments owner that the field `f` of `t` is.
pub open spec fn field_owner(object: bool, t: Seq<char>, f: Seq<char>) -> ArgumentOwner {
    if object {
        ArgumentOwner::ObjectField(t, f)
    } else {
        ArgumentOwner::InterfaceField(t, f)
    }
}

/// A reference from `loc` to the directive of each application of `ds`, in order.
pub open spec fn directive_checks(loc: LocationView, ds: Seq<Directive>) -> Seq<CheckView>
    decreases ds.len(),
{
    if ds.len() == 0 {
        Seq::empty()
    } else {
        directive_checks(loc, ds.drop_last()).push(
            CheckView::Reference(loc, TargetView::Directive(ds.last().name@)),
        )
    }
}

/// A reference from `loc` to each type named in `names`, used as `u`.
pub open spec fn type_name_checks(loc: LocationView, names: Seq<String>, u: TypeUse) -> Seq<CheckView>
    decreases names.len(),
{
    if names.len() == 0 {
        Seq::empty()
    } else {
        type_name_checks(loc, names.drop_last(), u).push(
            CheckView::Reference(loc, TargetView::Type(names.last()@, u)),
        )
    }
}

/// The checks of an argument or input field at `loc`: its directive applications, then its
/// input type.
pub open spec fn input_value_checks(loc: LocationView, v: InputValueDefinition) -> Seq<CheckView> {
    directive_checks(loc, v.directives@).push(
        CheckView::Reference(loc, TargetView::Type(inner_named_type(v.ty@), TypeUse::Input)),
    )
}

/// The checks of the arguments `args` of `owner`, in order.
pub open spec fn arguments_checks(owner: ArgumentOwner, args: Seq<InputValueDefinition>) -> Seq<CheckView>
    decreases args.len(),
{
    if args.len() == 0 {
        Seq::empty()
    } else {
        arguments_checks(owner, args.drop_last()) + input_value_checks(
            argument_location(owner, args.last().name@),
            args.last(),
        )
    }
}

/// The names of a list of arguments.
pub open spec fn argument_names(args: Seq<InputValueDefinition>) -> Seq<Seq<char>> {
    args.map_values(|a: InputValueDefinition| a.name@)
}

/// The checks of the field `f` of `t`: its directive applications, its output type, that its
/// arguments have distinct names, then its arguments.
pub open spec fn field_checks(object: bool, t: Seq<char>, f: FieldDefinition) -> Seq<CheckView> {
    let loc = field_location(object, t, f.name@);
    directive_checks(loc, f.directives@).push(
        CheckView::Reference(loc, TargetView::Type(inner_named_type(f.ty@), TypeUse::Output)),
    ).push(CheckView::DistinctArguments(argument_names(f.arguments@))) + arguments_checks(
        field_owner(object, t, f.name@),
        f.arguments@,
    )
}

/// The checks of the fields `fs` of `t`, in order.
pub open spec fn fields_checks(object: bool, t: Seq<char>, fs: Seq<FieldDefinition>) -> Seq<CheckView>
    decreases fs.len(),
{
    if fs.len() == 0 {
        Seq::empty()
    } else {
        fields_checks(object, t, fs.drop_last()) + field_checks(object, t, fs.last())
    }
}

/// The checks of the values `vs` of the enum type `t`: the directive applications of each.
pub open spec fn values_checks(t: Seq<char>, vs: Seq<EnumValueDefinition>) -> Seq<CheckView>
    decreases vs.len(),
{
    if vs.len() == 0 {
        Seq::empty()
    } else {
        values_checks(t, vs.drop_last()) + directive_checks(
            LocationView::EnumValue(t, vs.last().value@),
            vs.last().directives@,
        )
    }
}

/// The checks of the input fields `fs` of the input object type `t`, in order.
pub open spec fn input_fields_checks(t: Seq<char>, fs: Seq<InputValueDefinition>) -> Seq<CheckView>
    decreases fs.len(),
{
    if fs.len() == 0 {
        Seq::empty()
    } else {
        input_fields_checks(t, fs.drop_last()) + input_value_checks(
            LocationView::InputObjectField(t, fs.last().name@),
            fs.last(),
        )
    }
}

/// The checks of a type definition: its directive applications, then what it holds
/// (implemented interfaces and fields, members, values or input fields).
pub open spec fn type_checks(t: ExtendedType) -> Seq<CheckView> {
    match t {
        ExtendedType::Scalar { name, directives } => directive_checks(
            LocationView::ScalarType(name@),
            directives@,
        ),
        ExtendedType::Object { name, implements_interfaces, directives, fields } => directive_checks(
            LocationView::ObjectType(name@),
            directives@,
        ) + type_name_checks(LocationView::ObjectType(name@), implements_interfaces@, TypeUse::Implements)
            + fields_checks(true, name@, fields@),
        ExtendedType::Interface { name, implements_interfaces, directives, fields } => directive_checks(
            LocationView::InterfaceType(name@),
            directives@,
        ) + type_name_checks(
            LocationView::InterfaceType(name@),
            implements_interfaces@,
            TypeUse::Implements,
        ) + fields_checks(false, name@, fields@),
        ExtendedType::Union { name, directives, members } => directive_checks(
            LocationView::UnionType(name@),
            directives@,
        ) + type_name_checks(LocationView::UnionType(name@), members@, TypeUse::Member),
        ExtendedType::Enum { name, directives, values } => directive_checks(
            LocationView::EnumType(name@),
            directives@,
        ) + values_checks(name@, values@),
        ExtendedType::InputObject { name, directives, input_fields } => directive_checks(
            LocationView::InputObjectType(name@),
            directives@,
        ) + input_fields_checks(name@, input_fields@),
    }
}

/// The checks of the type definitions `ts`, in order.
pub open spec fn types_checks(ts: Seq<ExtendedType>) -> Seq<CheckView>
    decreases ts.len(),
{
    if ts.len() == 0 {
        Seq::empty()
    } else {
        types_checks(ts.drop_last()) + type_checks(ts.last())
    }
}

/// The reference of the root `k` of a schema definition, where it has one.
pub open spec fn root_checks(k: SchemaRootDefinitionKind, root: Option<String>) -> Seq<CheckView> {
    match root {
        Some(t) => seq![
            CheckView::Reference(LocationView::SchemaRoot(k), TargetView::Type(t@, TypeUse::Root)),
        ],
        None => Seq::empty(),
    }
}

/// The checks of a schema definition: its directive applications, then its query, mutation
/// and subscription root types.
pub open spec fn schema_definition_checks(sd: SchemaDefinition) -> Seq<CheckView> {
    directive_checks(LocationView::SchemaDefinition, sd.directives@) + root_checks(
        SchemaRootDefinitionKind::Query,
        sd.query,
    ) + root_checks(SchemaRootDefinitionKind::Mutation, sd.mutation) + root_checks(
        SchemaRootDefinitionKind::Subscription,
        sd.subscription,
    )
}

/// The checks of the directive definitions `defs`: the arguments of each, in order.
pub open spec fn directive_definitions_checks(defs: Seq<DirectiveDefinition>) -> Seq<CheckView>
    decreases defs.len(),
{
    if defs.len() == 0 {
        Seq::empty()
    } else {
        directive_definitions_checks(defs.drop_last()) + arguments_checks(
            ArgumentOwner::Directive(defs.last().name@),
            defs.last().arguments@,
        )
    }
}

/// Everything to check of a schema before indexing it, in the order in which it is checked:
/// its schema definition, its types, then its directive definitions.
pub open spec fn schema_checks(s: Schema) -> Seq<CheckView> {
    schema_definition_checks(s.schema_definition) + types_checks(s.types@)
        + directive_definitions_checks(s.directive_definitions@)
}

proof fn lemma_checks_view_push(cs: Seq<Check>, c: Check)
    ensures
        checks_view(cs.push(c)) == checks_view(cs).push(c@),
{
    assert(checks_view(cs.push(c)) =~= checks_view(cs).push(c@));
}

pub(crate) fn push_directive_checks(out: &mut Vec<Check>, loc: &Location, ds: &Vec<Directive>)
    ensures
        checks_view(final(out)@) == checks_view(old(out)@) + directive_checks(loc@, ds@),
{
    let ghost start = checks_view(out@);
    let mut i: usize = 0;
    proof {
        assert(directive_checks(loc@, ds@.take(0)) =~= Seq::<CheckView>::empty());
        assert(start + Seq::<CheckView>::empty() =~= start);
    }
    while i < ds.len()
        invariant
            i <= ds@.len(),
            checks_view(out@) == start + directive_checks(loc@, ds@.take(i as int)),
        decreases ds@.len() - i,
    {
        let c = Check::Reference(loc.copy(), Target::Directive(ds[i].name.clone()));
        proof {
            lemma_checks_view_push(out@, c);
            assert(ds@.take(i + 1).drop_last() =~= ds@.take(i as int));
        }
        out.push(c);
        i = i + 1;
    }
    proof {
        assert(ds@.take(ds@.len() as int) =~= ds@);
    }
}

fn push_type_name_checks(out: &mut Vec<Check>, loc: &Location, names: &Vec<String>, u: TypeUse)
    ensures
        checks_view(final(out)@) == checks_view(old(out)@) + type_name_checks(loc@, names@, u),
{
    let ghost start = checks_view(out@);
    let mut i: usize = 0;
    proof {
        assert(type_name_checks(loc@, names@.take(0), u) =~= Seq::<CheckView>::empty());
        assert(start + Seq::<CheckView>::empty() =~= start);
    }
    while i < names.len()
        invariant
            i <= names@.len(),
            checks_view(out@) == start + type_name_checks(loc@, names@.take(i as int), u),
        decreases names@.len() - i,
    {
        let c = Check::Reference(loc.copy(), Target::Type(names[i].clone(), u));
        proof {
            lemma_checks_view_push(out@, c);
            assert(names@.take(i + 1).drop_last() =~= names@.take(i as int));
        }
        out.push(c);
        i = i + 1;
    }
    proof {
        assert(names@.take(names@.len() as int) =~= names@);
    }
}

pub(crate) fn push_input_value_checks(out: &mut Vec<Check>, loc: &Location, v: &InputValueDefinition)
    ensures
        checks_view(final(out)@) == checks_view(old(out)@) + input_value_checks(loc@, *v),
{
    let ghost start = checks_view(out@);
    push_directive_checks(out, loc, &v.directives);
    let c = Check::Reference(loc.copy(), Target::Type(v.ty.inner_named_type().clone(), TypeUse::Input));
    proof {
        lemma_checks_view_push(out@, c);
    }
    out.push(c);
    proof {
        assert(checks_view(out@) =~= start + input_value_checks(loc@, *v));
    }
}

/// The holder of arguments, as positions.
pub enum Owner {
    ObjectField(String, String),
    InterfaceField(String, String),
    Directive(String),
}

impl View for Owner {
    type V = ArgumentOwner;

    open spec fn view(&self) -> ArgumentOwner {
        match self {
            Owner::ObjectField(t, f) => ArgumentOwner::ObjectField(t@, f@),
            Owner::InterfaceField(t, f) => ArgumentOwner::InterfaceField(t@, f@),
            Owner::Directive(d) => ArgumentOwner::Directive(d@),
        }
    }
}

fn owner_argument_location(owner: &Owner, a: &String) -> (res: Location)
    ensures
        res@ == argument_location(owner@, a@),
{
    match owner {
        Owner::ObjectField(t, f) => Location::ObjectFieldArgument(t.clone(), f.clone(), a.clone()),
        Owner::InterfaceField(t, f) => Location::InterfaceFieldArgument(t.clone(), f.clone(), a.clone()),
        Owner::Directive(d) => Location::DirectiveArgument(d.clone(), a.clone()),
    }
}

pub(crate) fn push_arguments_checks(out: &mut Vec<Check>, owner: &Owner, args: &Vec<InputValueDefinition>)
    ensures
        checks_view(final(out)@) == checks_view(old(out)@) + arguments_checks(owner@, args@),
{
    let ghost start = checks_view(out@);
    let mut i: usize = 0;
    proof {
        assert(arguments_checks(owner@, args@.take(0)) =~= Seq::<CheckView>::empty());
        assert(start + Seq::<CheckView>::empty() =~= start);
    }
    while i < args.len()
        invariant
            i <= args@.len(),
            checks_view(out@) == start + arguments_checks(owner@, args@.take(i as int)),
        decreases args@.len() - i,
    {
        let loc = owner_argument_location(owner, &args[i].name);
        let ghost before = checks_view(out@);
        push_input_value_checks(out, &loc, &args[i]);
        proof {
            assert(args@.take(i + 1).drop_last() =~= args@.take(i as int));
            assert(args@.take(i + 1).last() == args@[i as int]);
            assert(checks_view(out@) =~= start + arguments_checks(owner@, args@.take(i + 1)));
        }
        i = i + 1;
    }
    proof {
        assert(args@.take(args@.len() as int) =~= args@);
    }
}

fn argument_name_list(args: &Vec<InputValueDefinition>) -> (res: Vec<String>)
    ensures
        strings_view(res@) == argument_names(args@),
{
    let mut names: Vec<String> = Vec::new();
    let mut i: usize = 0;
    while i < args.len()
        invariant
            i <= args@.len(),
            names@.len() == i,
            strings_view(names@) == argument_names(args@.take(i as int)),
        decreases args@.len() - i,
    {
        let ghost before = names@;
        names.push(args[i].name.clone());
        proof {
            assert forall|k: int| 0 <= k < i + 1 implies #[trigger] strings_view(names@)[k]
                == argument_names(args@.take(i + 1))[k] by {
                if k < i {
                    assert(names@[k] == before[k]);
                    assert(strings_view(before)[k] == argument_names(args@.take(i as int))[k]);
                    assert(args@.take(i + 1)[k] == args@.take(i as int)[k]);
                }
            }
            assert(strings_view(names@) =~= argument_names(args@.take(i + 1)));
        }
        i = i + 1;
    }
    proof {
        assert(args@.take(args@.len() as int) =~= args@);
    }
    names
}

pub(crate) fn push_field_checks(out: &mut Vec<Check>, object: bool, t: &String, f: &FieldDefinition)
    ensures
        checks_view(final(out)@) == checks_view(old(out)@) + field_checks(object, t@, *f),
{
    let ghost start = checks_view(out@);
    let loc = if object {
        Location::ObjectField(t.clone(), f.name.clone())
    } else {
        Location::InterfaceField(t.clone(), f.name.clone())
    };
    push_directive_checks(out, &loc, &f.directives);
    let c = Check::Reference(loc.copy(), Target::Type(f.ty.inner_named_type().clone(), TypeUse::Output));
    proof {
        lemma_checks_view_push(out@, c);
    }
    out.push(c);
    let d = Check::DistinctArguments(argument_name_list(&f.arguments));
    proof {
        lemma_checks_view_push(out@, d);
    }
    out.push(d);
    let ghost mid = checks_view(out@);
    let owner = if object {
        Owner::ObjectField(t.clone(), f.name.clone())
    } else {
        Owner::InterfaceField(t.clone(), f.name.clone())
    };
    push_arguments_checks(out, &owner, &f.arguments);
    proof {
        assert(checks_view(out@) =~= start + field_checks(object, t@, *f));
    }
}

fn push_fields_checks(out: &mut Vec<Check>, object: bool, t: &String, fs: &Vec<FieldDefinition>)
    ensures
        checks_view(final(out)@) == checks_view(old(out)@) + fields_checks(object, t@, fs@),
{
    let ghost start = checks_view(out@);
    let mut i: usize = 0;
    proof {
        assert(fields_checks(object, t@, fs@.take(0)) =~= Seq::<CheckView>::empty());
        assert(start + Seq::<CheckView>::empty() =~= start);
    }
    while i < fs.len()
        invariant
            i <= fs@.len(),
            checks_view(out@) == start + fields_checks(object, t@, fs@.take(i as int)),
        decreases fs@.len() - i,
    {
        push_field_checks(out, object, t, &fs[i]);
        proof {
            assert(fs@.take(i + 1).drop_last() =~= fs@.take(i as int));
            assert(fs@.take(i + 1).last() == fs@[i as int]);
            assert(checks_view(out@) =~= start + fields_checks(object, t@, fs@.take(i + 1)));
        }
        i = i + 1;
    }
    proof {
        assert(fs@.take(fs@.len() as int) =~= fs@);
    }
}

fn push_values_checks(out: &mut Vec<Check>, t: &String, vs: &Vec<EnumValueDefinition>)
    ensures
        checks_view(final(out)@) == checks_view(old(out)@) + values_checks(t@, vs@),
{
    let ghost start = checks_view(out@);
    let mut i: usize = 0;
    proof {
        assert(values_checks(t@, vs@.take(0)) =~= Seq::<CheckView>::empty());
        assert(start + Seq::<CheckView>::empty() =~= start);
    }
    while i < vs.len()
        invariant
            i <= vs@.len(),
            checks_view(out@) == start + values_checks(t@, vs@.take(i as int)),
        decreases vs@.len() - i,
    {
        let loc = Location::EnumValue(t.clone(), vs[i].value.clone());
        push_directive_checks(out, &loc, &vs[i].directives);
        proof {
            assert(vs@.take(i + 1).drop_last() =~= vs@.take(i as int));
            assert(vs@.take(i + 1).last() == vs@[i as int]);
            assert(checks_view(out@) =~= start + values_checks(t@, vs@.take(i + 1)));
        }
        i = i + 1;
    }
    proof {
        assert(vs@.take(vs@.len() as int) =~= vs@);
    }
}

fn push_input_fields_checks(out: &mut Vec<Check>, t: &String, fs: &Vec<InputValueDefinition>)
    ensures
        checks_view(final(out)@) == checks_view(old(out)@) + input_fields_checks(t@, fs@),
{
    let ghost start = checks_view(out@);
    let mut i: usize = 0;
    proof {
        assert(input_fields_checks(t@, fs@.take(0)) =~= Seq::<CheckView>::empty());
        assert(start + Seq::<CheckView>::empty() =~= start);
    }
    while i < fs.len()
        invariant
            i <= fs@.len(),
            checks_view(out@) == start + input_fields_checks(t@, fs@.take(i as int)),
        decreases fs@.len() - i,
    {
        let loc = Location::InputObjectField(t.clone(), fs[i].name.clone());
        push_input_value_checks(out, &loc, &fs[i]);
        proof {
            assert(fs@.take(i + 1).drop_last() =~= fs@.take(i as int));
            assert(fs@.take(i + 1).last() == fs@[i as int]);
            assert(checks_view(out@) =~= start + input_fields_checks(t@, fs@.take(i + 1)));
        }
        i = i + 1;
    }
    proof {
        assert(fs@.take(fs@.len() as int) =~= fs@);
    }
}

pub(crate) fn push_type_checks(out: &mut Vec<Check>, t: &ExtendedType)
    ensures
        checks_view(final(out)@) == checks_view(old(out)@) + type_checks(*t),
{
    let ghost start = checks_view(out@);
    match t {
        ExtendedType::Scalar { name, directives } => {
            push_directive_checks(out, &Location::ScalarType(name.clone()), directives);
        },
        ExtendedType::Object { name, implements_interfaces, directives, fields } => {
            let loc = Location::ObjectType(name.clone());
            push_directive_checks(out, &loc, directives);
            push_type_name_checks(out, &loc, implements_interfaces, TypeUse::Implements);
            push_fields_checks(out, true, name, fields);
            proof {
                assert(checks_view(out@) =~= start + type_checks(*t));
            }
        },
        ExtendedType::Interface { name, implements_interfaces, directives, fields } => {
            let loc = Location::InterfaceType(name.clone());
            push_directive_checks(out, &loc, directives);
            push_type_name_checks(out, &loc, implements_interfaces, TypeUse::Implements);
            push_fields_checks(out, false, name, fields);
            proof {
                assert(checks_view(out@) =~= start + type_checks(*t));
            }
        },
        ExtendedType::Union { name, directives, members } => {
            let loc = Location::UnionType(name.clone());
            push_directive_checks(out, &loc, directives);
            push_type_name_checks(out, &loc, members, TypeUse::Member);
            proof {
                assert(checks_view(out@) =~= start + type_checks(*t));
            }
        },
        ExtendedType::Enum { name, directives, values } => {
            push_directive_checks(out, &Location::EnumType(name.clone()), directives);
            push_values_checks(out, name, values);
            proof {
                assert(checks_view(out@) =~= start + type_checks(*t));
            }
        },
        ExtendedType::InputObject { name, directives, input_fields } => {
            push_directive_checks(out, &Location::InputObjectType(name.clone()), directives);
            push_input_fields_checks(out, name, input_fields);
            proof {
                assert(checks_view(out@) =~= start + type_checks(*t));
            }
        },
    }
}

pub(crate) fn push_root_checks(out: &mut Vec<Check>, k: SchemaRootDefinitionKind, root: &Option<String>)
    ensures
        checks_view(final(out)@) == checks_view(old(out)@) + root_checks(k, *root),
{
    match root {
        Some(t) => {
            let c = Check::Reference(Location::SchemaRoot(k), Target::Type(t.clone(), TypeUse::Root));
            proof {
                lemma_checks_view_push(out@, c);
            }
            let ghost before = checks_view(out@);
            out.push(c);
            proof {
                assert(checks_view(out@) =~= before + root_checks(k, *root));
            }
        },
        None => {
            proof {
                assert(checks_view(out@) =~= checks_view(out@) + root_checks(k, *root));
            }
        },
    }
}

/// Everything to check of `schema` before indexing it (see [`schema_checks`]).
pub fn collect_checks(schema: &Schema) -> (res: Vec<Check>)
    ensures
        checks_view(res@) == schema_checks(*schema),
{
    let mut out: Vec<Check> = Vec::new();
    proof {
        assert(checks_view(out@) =~= Seq::<CheckView>::empty());
    }
    let sd = &schema.schema_definition;
    push_directive_checks(&mut out, &Location::SchemaDefinition, &sd.directives);
    push_root_checks(&mut out, SchemaRootDefinitionKind::Query, &sd.query);
    push_root_checks(&mut out, SchemaRootDefinitionKind::Mutation, &sd.mutation);
    push_root_checks(&mut out, SchemaRootDefinitionKind::Subscription, &sd.subscription);
    let ghost after_definition = checks_view(out@);
    proof {
        assert(after_definition =~= schema_definition_checks(*sd));
    }
    let ts = &schema.types;
    let mut i: usize = 0;
    proof {
        assert(types_checks(ts@.take(0)) =~= Seq::<CheckView>::empty());
        assert(after_definition + Seq::<CheckView>::empty() =~= after_definition);
    }
    while i < ts.len()
        invariant
            i <= ts@.len(),
            *ts == schema.types,
            checks_view(out@) == after_definition + types_checks(ts@.take(i as int)),
        decreases ts@.len() - i,
    {
        push_type_checks(&mut out, &ts[i]);
        proof {
            assert(ts@.take(i + 1).drop_last() =~= ts@.take(i as int));
            assert(ts@.take(i + 1).last() == ts@[i as int]);
            assert(checks_view(out@) =~= after_definition + types_checks(ts@.take(i + 1)));
        }
        i = i + 1;
    }
    proof {
        assert(ts@.take(ts@.len() as int) =~= ts@);
    }
    let ghost after_types = checks_view(out@);
    let defs = &schema.directive_definitions;
    let mut j: usize = 0;
    proof {
        assert(directive_definitions_checks(defs@.take(0)) =~= Seq::<CheckView>::empty());
        assert(after_types + Seq::<CheckView>::empty() =~= after_types);
    }
    while j < defs.len()
        invariant
            j <= defs@.len(),
            *defs == schema.directive_definitions,
            checks_view(out@) == after_types + directive_definitions_checks(defs@.take(j as int)),
        decreases defs@.len() - j,
    {
        let owner = Owner::Directive(defs[j].name.clone());
        push_arguments_checks(&mut out, &owner, &defs[j].arguments);
        proof {
            assert(defs@.take(j + 1).drop_last() =~= defs@.take(j as int));
            assert(defs@.take(j + 1).last() == defs@[j as int]);
            assert(checks_view(out@) =~= after_types + directive_definitions_checks(defs@.take(j + 1)));
        }
        j = j + 1;
    }
    proof {
        assert(defs@.take(defs@.len() as int) =~= defs@);
        assert(checks_view(out@) =~= schema_checks(*schema));
    }
    out
}

/// The locations that reference a type, in the order in which they were found, each once.
#[derive(Debug)]
pub struct TypeReferencers {
    pub name: String,
    pub kind: TypeKind,
    pub referencers: Vec<Location>,
}

/// The locations that apply a directive, in the order in which they were found, each once.
#[derive(Debug)]
pub struct DirectiveReferencers {
    pub name: String,
    pub referencers: Vec<Location>,
}

/// The referencers of each type and directive of a schema.
#[derive(Debug)]
pub struct Referencers {
    pub types: Vec<TypeReferencers>,
    pub directives: Vec<DirectiveReferencers>,
}

/// The mathematical form of [`Referencers`]: for each type its name, kind and referencing
/// locations; for each directive its name and applying locations.
#[verifier::ext_equal]
pub struct ReferencersView {
    pub types: Seq<(Seq<char>, TypeKind, Seq<LocationView>)>,
    pub directives: Seq<(Seq<char>, Seq<LocationView>)>,
}

pub open spec fn locations_view(ls: Seq<Location>) -> Seq<LocationView> {
    ls.map_values(|l: Location| l@)
}

pub open spec fn type_referencers_view(t: TypeReferencers) -> (Seq<char>, TypeKind, Seq<LocationView>) {
    (t.name@, t.kind, locations_view(t.referencers@))
}

pub open spec fn directive_referencers_view(d: DirectiveReferencers) -> (Seq<char>, Seq<LocationView>) {
    (d.name@, locations_view(d.referencers@))
}

impl View for Referencers {
    type V = ReferencersView;

    open spec fn view(&self) -> ReferencersView {
        ReferencersView {
            types: self.types@.map_values(|t: TypeReferencers| type_referencers_view(t)),
            directives: self.directives@.map_values(
                |d: DirectiveReferencers| directive_referencers_view(d),
            ),
        }
    }
}

/// The referencers of a schema before any reference is recorded: an empty entry for each
/// type and each directive definition, in order.
pub open spec fn initial_referencers(s: Schema) -> ReferencersView {
    ReferencersView {
        types: s.types@.map_values(
            |t: ExtendedType| (t.spec_name(), t.spec_kind(), Seq::<LocationView>::empty()),
        ),
        directives: s.directive_definitions@.map_values(
            |d: DirectiveDefinition| (d.name@, Seq::<LocationView>::empty()),
        ),
    }
}

/// `ls` with `l` recorded: appended where it is not there yet.
pub open spec fn with_location(ls: Seq<LocationView>, l: LocationView) -> Seq<LocationView> {
    if ls.contains(l) {
        ls
    } else {
        ls.push(l)
    }
}

/// The index of the first directive entry named `name`.
pub open spec fn directive_entry(ds: Seq<(Seq<char>, Seq<LocationView>)>, name: Seq<char>) -> Option<int>
    decreases ds.len(),
{
    if ds.len() == 0 {
        None
    } else if ds[0].0 == name {
        Some(0)
    } else {
        match directive_entry(ds.drop_first(), name) {
            Some(i) => Some(i + 1),
            None => None,
        }
    }
}

/// The index of the first type entry named `name`.
pub open spec fn type_entry(ts: Seq<(Seq<char>, TypeKind, Seq<LocationView>)>, name: Seq<char>) -> Option<int>
    decreases ts.len(),
{
    if ts.len() == 0 {
        None
    } else if ts[0].0 == name {
        Some(0)
    } else {
        match type_entry(ts.drop_first(), name) {
            Some(i) => Some(i + 1),
            None => None,
        }
    }
}

/// Whether a type of kind `k` may be used as `u`: output types are all but input objects,
/// input types are scalars, enums and input objects, implemented types are interfaces, and
/// union members and root types are objects.
pub open spec fn use_allows(u: TypeUse, k: TypeKind) -> bool {
    match u {
        TypeUse::Output => k != TypeKind::InputObject,
        TypeUse::Input => k == TypeKind::Scalar || k == TypeKind::Enum || k == TypeKind::InputObject,
        TypeUse::Implements => k == TypeKind::Interface,
        TypeUse::Member => k == TypeKind::Object,
        TypeUse::Root => k == TypeKind::Object,
    }
}

/// The message of the error for a directive application of `d` at `loc` where `d` is not
/// defined.
pub open spec fn directive_message(loc: LocationView, d: Seq<char>) -> Seq<char> {
    match loc {
        LocationView::SchemaDefinition => "Schema definition's directive application \"@"@ + d
            + "\" does not refer to an existing directive."@,
        _ => location_label(loc) + " \""@ + location_text(loc) + "\"'s directive application \"@"@
            + d + "\" does not refer to an existing directive."@,
    }
}

/// The message of the error for a reference from `loc` to `t`, used as `u`, where no type of
/// a fitting kind is named `t`.
pub open spec fn type_message(loc: LocationView, t: Seq<char>, u: TypeUse) -> Seq<char> {
    match u {
        TypeUse::Output => location_label(loc) + " \""@ + location_text(loc) + "\"'s inner type \""@
            + t + "\" does not refer to an existing output type."@,
        TypeUse::Input => location_label(loc) + " \""@ + location_text(loc) + "\"'s inner type \""@
            + t + "\" does not refer to an existing input type."@,
        TypeUse::Implements => location_label(loc) + " \""@ + location_text(loc)
            + "\"'s implements \""@ + t + "\" does not refer to an existing interface."@,
        TypeUse::Member => location_label(loc) + " \""@ + location_text(loc) + "\"'s member \""@ + t
            + "\" does not refer to an existing object."@,
        TypeUse::Root => "Root "@ + location_text(loc) + " type \""@ + t
            + "\" does not refer to an existing object type."@,
    }
}

/// The message of the error for arguments that share the name `n`.
pub open spec fn duplicate_argument_message(n: Seq<char>) -> Seq<char> {
    "Argument \""@ + n + "\" is duplicated on schema element"@
}

/// The first name, from position `i` on, that occurs more than once in `names`.
pub open spec fn first_duplicate_from(names: Seq<Seq<char>>, i: int) -> Option<Seq<char>>
    decreases names.len() - i,
{
    if i < 0 || i >= names.len() {
        None
    } else if exists|j: int| 0 <= j < names.len() && j != i && names[j] == names[i] {
        Some(names[i])
    } else {
        first_duplicate_from(names, i + 1)
    }
}

/// The referencers after one check: the location recorded under the directive or type it
/// references, or the message of why it cannot be.
pub open spec fn step(r: ReferencersView, c: CheckView) -> Result<ReferencersView, Seq<char>> {
    match c {
        CheckView::Reference(loc, TargetView::Directive(d)) => match directive_entry(r.directives, d) {
            Some(j) => Ok(
                ReferencersView {
                    types: r.types,
                    directives: r.directives.update(
                        j,
                        (r.directives[j].0, with_location(r.directives[j].1, loc)),
                    ),
                },
            ),
            None => Err(directive_message(loc, d)),
        },
        CheckView::Reference(loc, TargetView::Type(t, u)) => match type_entry(r.types, t) {
            Some(j) => if use_allows(u, r.types[j].1) {
                Ok(
                    ReferencersView {
                        types: r.types.update(
                            j,
                            (r.types[j].0, r.types[j].1, with_location(r.types[j].2, loc)),
                        ),
                        directives: r.directives,
                    },
                )
            } else {
                Err(type_message(loc, t, u))
            },
            None => Err(type_message(loc, t, u)),
        },
        CheckView::DistinctArguments(names) => match first_duplicate_from(names, 0) {
            Some(n) => Err(duplicate_argument_message(n)),
            None => Ok(r),
        },
    }
}

/// The referencers after the checks `cs`, in order, or the message of the first that fails.
pub open spec fn process(r: ReferencersView, cs: Seq<CheckView>) -> Result<ReferencersView, Seq<char>>
    decreases cs.len(),
{
    if cs.len() == 0 {
        Ok(r)
    } else {
        match process(r, cs.drop_last()) {
            Err(m) => Err(m),
            Ok(r2) => step(r2, cs.last()),
        }
    }
}

/// The referencers of a schema (see [`schema_checks`] and [`step`]), or the message of the
/// first reference that does not hold.
pub open spec fn schema_referencers(s: Schema) -> Result<ReferencersView, Seq<char>> {
    process(initial_referencers(s), schema_checks(s))
}

fn location_eq(a: &Location, b: &Location) -> (res: bool)
    ensures
        res == (a@ == b@),
{
    match (a, b) {
        (Location::SchemaDefinition, Location::SchemaDefinition) => true,
        (Location::SchemaRoot(x), Location::SchemaRoot(y)) => *x == *y,
        (Location::ScalarType(x), Location::ScalarType(y)) => *x == *y,
        (Location::ObjectType(x), Location::ObjectType(y)) => *x == *y,
        (Location::ObjectField(x1, x2), Location::ObjectField(y1, y2)) => *x1 == *y1 && *x2 == *y2,
        (Location::ObjectFieldArgument(x1, x2, x3), Location::ObjectFieldArgument(y1, y2, y3)) => *x1
            == *y1 && *x2 == *y2 && *x3 == *y3,
        (Location::InterfaceType(x), Location::InterfaceType(y)) => *x == *y,
        (Location::InterfaceField(x1, x2), Location::InterfaceField(y1, y2)) => *x1 == *y1 && *x2
            == *y2,
        (
            Location::InterfaceFieldArgument(x1, x2, x3),
            Location::InterfaceFieldArgument(y1, y2, y3),
        ) => *x1 == *y1 && *x2 == *y2 && *x3 == *y3,
        (Location::UnionType(x), Location::UnionType(y)) => *x == *y,
        (Location::EnumType(x), Location::EnumType(y)) => *x == *y,
        (Location::EnumValue(x1, x2), Location::EnumValue(y1, y2)) => *x1 == *y1 && *x2 == *y2,
        (Location::InputObjectType(x), Location::InputObjectType(y)) => *x == *y,
        (Location::InputObjectField(x1, x2), Location::InputObjectField(y1, y2)) => *x1 == *y1 && *x2
            == *y2,
        (Location::DirectiveArgument(x1, x2), Location::DirectiveArgument(y1, y2)) => *x1 == *y1
            && *x2 == *y2,
        _ => false,
    }
}

fn add_location(ls: &mut Vec<Location>, l: &Location)
    ensures
        locations_view(final(ls)@) == with_location(locations_view(old(ls)@), l@),
{
    let mut i: usize = 0;
    while i < ls.len()
        invariant
            i <= ls@.len(),
            forall|j: int| 0 <= j < i ==> ls@[j]@ != l@,
        decreases ls@.len() - i,
    {
        if location_eq(&ls[i], l) {
            proof {
                assert(locations_view(ls@)[i as int] == l@);
            }
            return;
        }
        i = i + 1;
    }
    proof {
        assert(!locations_view(ls@).contains(l@)) by {
            if locations_view(ls@).contains(l@) {
                let j = choose|j: int| 0 <= j < locations_view(ls@).len() && locations_view(ls@)[j] == l@;
                assert(ls@[j]@ == l@);
            }
        }
    }
    let ghost before = ls@;
    ls.push(l.copy());
    proof {
        assert(locations_view(ls@) =~= locations_view(before).push(l@));
    }
}

fn initial_referencers_of(schema: &Schema) -> (res: Referencers)
    ensures
        res@ == initial_referencers(*schema),
{
    let mut types: Vec<TypeReferencers> = Vec::new();
    let mut i: usize = 0;
    while i < schema.types.len()
        invariant
            i <= schema.types@.len(),
            types@.len() == i,
            forall|j: int| 0 <= j < i ==> type_referencers_view(#[trigger] types@[j]) == (
                schema.types@[j].spec_name(),
                schema.types@[j].spec_kind(),
                Seq::<LocationView>::empty(),
            ),
        decreases schema.types@.len() - i,
    {
        let t = &schema.types[i];
        let entry = TypeReferencers { name: t.name().clone(), kind: t.kind(), referencers: Vec::new() };
        proof {
            assert(locations_view(entry.referencers@) =~= Seq::<LocationView>::empty());
        }
        types.push(entry);
        i = i + 1;
    }
    let mut directives: Vec<DirectiveReferencers> = Vec::new();
    let mut k: usize = 0;
    while k < schema.directive_definitions.len()
        invariant
            k <= schema.directive_definitions@.len(),
            directives@.len() == k,
            forall|j: int| 0 <= j < k ==> directive_referencers_view(#[trigger] directives@[j]) == (
                schema.directive_definitions@[j].name@,
                Seq::<LocationView>::empty(),
            ),
        decreases schema.directive_definitions@.len() - k,
    {
        let entry = DirectiveReferencers {
            name: schema.directive_definitions[k].name.clone(),
            referencers: Vec::new(),
        };
        proof {
            assert(locations_view(entry.referencers@) =~= Seq::<LocationView>::empty());
        }
        directives.push(entry);
        k = k + 1;
    }
    let res = Referencers { types, directives };
    proof {
        assert(res@.types =~= initial_referencers(*schema).types);
        assert(res@.directives =~= initial_referencers(*schema).directives);
    }
    res
}

pub proof fn lemma_directive_entry(ds: Seq<(Seq<char>, Seq<LocationView>)>, name: Seq<char>)
    ensures
        match directive_entry(ds, name) {
            Some(i) => 0 <= i < ds.len() && ds[i].0 == name && forall|j: int| 0 <= j < i ==> ds[j].0 != name,
            None => forall|j: int| 0 <= j < ds.len() ==> ds[j].0 != name,
        },
    decreases ds.len(),
{
    if ds.len() > 0 {
        lemma_directive_entry(ds.drop_first(), name);
        assert forall|j: int| 0 < j < ds.len() implies ds[j] == ds.drop_first()[j - 1] by {}
    }
}

pub(crate) proof fn lemma_type_entry(ts: Seq<(Seq<char>, TypeKind, Seq<LocationView>)>, name: Seq<char>)
    ensures
        match type_entry(ts, name) {
            Some(i) => 0 <= i < ts.len() && ts[i].0 == name && forall|j: int| 0 <= j < i ==> ts[j].0 != name,
            None => forall|j: int| 0 <= j < ts.len() ==> ts[j].0 != name,
        },
    decreases ts.len(),
{
    if ts.len() > 0 {
        lemma_type_entry(ts.drop_first(), name);
        assert forall|j: int| 0 < j < ts.len() implies ts[j] == ts.drop_first()[j - 1] by {}
    }
}

proof fn lemma_directive_entry_first(ds: Seq<(Seq<char>, Seq<LocationView>)>, name: Seq<char>, i: int)
    requires
        0 <= i < ds.len(),
        ds[i].0 == name,
        forall|j: int| 0 <= j < i ==> ds[j].0 != name,
    ensures
        directive_entry(ds, name) == Some(i),
    decreases ds.len(),
{
    if i > 0 {
        assert forall|j: int| 0 <= j < i - 1 implies ds.drop_first()[j].0 != name by {
            assert(ds.drop_first()[j] == ds[j + 1]);
        }
        lemma_directive_entry_first(ds.drop_first(), name, i - 1);
    }
}

proof fn lemma_type_entry_first(ts: Seq<(Seq<char>, TypeKind, Seq<LocationView>)>, name: Seq<char>, i: int)
    requires
        0 <= i < ts.len(),
        ts[i].0 == name,
        forall|j: int| 0 <= j < i ==> ts[j].0 != name,
    ensures
        type_entry(ts, name) == Some(i),
    decreases ts.len(),
{
    if i > 0 {
        assert forall|j: int| 0 <= j < i - 1 implies ts.drop_first()[j].0 != name by {
            assert(ts.drop_first()[j] == ts[j + 1]);
        }
        lemma_type_entry_first(ts.drop_first(), name, i - 1);
    }
}

fn find_directive_entry(r: &Referencers, name: &String) -> (res: Option<usize>)
    ensures
        match res {
            Some(k) => directive_entry(r@.directives, name@) == Some(k as int) && k < r.directives@.len(),
            None => directive_entry(r@.directives, name@) is None,
        },
{
    let ghost dv = r@.directives;
    let ds = &r.directives;
    let mut i: usize = 0;
    while i < ds.len()
        invariant
            i <= ds@.len(),
            *ds == r.directives,
            dv == r@.directives,
            dv.len() == ds@.len(),
            forall|j: int| 0 <= j < i ==> dv[j].0 != name@,
        decreases ds@.len() - i,
    {
        assert(dv[i as int] == directive_referencers_view(ds@[i as int]));
        if ds[i].name == *name {
            proof {
                lemma_directive_entry_first(dv, name@, i as int);
            }
            return Some(i);
        }
        i = i + 1;
    }
    proof {
        lemma_directive_entry(dv, name@);
        if directive_entry(dv, name@) is Some {
            let k = directive_entry(dv, name@)->0;
            assert(dv[k].0 == name@);
        }
    }
    None
}

fn find_type_entry(r: &Referencers, name: &String) -> (res: Option<usize>)
    ensures
        match res {
            Some(k) => type_entry(r@.types, name@) == Some(k as int) && k < r.types@.len(),
            None => type_entry(r@.types, name@) is None,
        },
{
    let ghost tv = r@.types;
    let ts = &r.types;
    let mut i: usize = 0;
    while i < ts.len()
        invariant
            i <= ts@.len(),
            *ts == r.types,
            tv == r@.types,
            tv.len() == ts@.len(),
            forall|j: int| 0 <= j < i ==> tv[j].0 != name@,
        decreases ts@.len() - i,
    {
        assert(tv[i as int] == type_referencers_view(ts@[i as int]));
        if ts[i].name == *name {
            proof {
                lemma_type_entry_first(tv, name@, i as int);
            }
            return Some(i);
        }
        i = i + 1;
    }
    proof {
        lemma_type_entry(tv, name@);
        if type_entry(tv, name@) is Some {
            let k = type_entry(tv, name@)->0;
            assert(tv[k].0 == name@);
        }
    }
    None
}

fn first_duplicate(names: &Vec<String>) -> (res: Option<String>)
    ensures
        match first_duplicate_from(strings_view(names@), 0) {
            Some(n) => res matches Some(r) && r@ == n,
            None => res is None,
        },
{
    let ghost sv = strings_view(names@);
    let mut i: usize = 0;
    while i < names.len()
        invariant
            i <= names@.len(),
            sv == strings_view(names@),
            first_duplicate_from(sv, 0) == first_duplicate_from(sv, i as int),
        decreases names@.len() - i,
    {
        let mut j: usize = 0;
        let mut found = false;
        while j < names.len()
            invariant
                i < names@.len(),
                j <= names@.len(),
                sv == strings_view(names@),
                found == exists|k: int| 0 <= k < j && k != i && sv[k] == sv[i as int],
            decreases names@.len() - j,
        {
            if j != i && names[j] == names[i] {
                found = true;
                proof {
                    assert(sv[j as int] == sv[i as int]);
                }
            }
            proof {
                if !found {
                    assert forall|k: int| 0 <= k < j + 1 && k != i implies sv[k] != sv[i as int] by {
                        if k == j {
                            assert(sv[k] == names@[k]@);
                        }
                    }
                }
            }
            j = j + 1;
        }
        if found {
            return Some(names[i].clone());
        }
        i = i + 1;
    }
    None
}

fn directive_error(loc: &Location, d: &String) -> (res: FederationError)
    ensures
        is_internal_error(res, directive_message(loc@, d@)),
{
    proof {
        reveal_with_fuel(concat_views, 7);
    }
    let message = match loc {
        Location::SchemaDefinition => {
            let m = concat_strs(
                &[
                    "Schema definition's directive application \"@",
                    d.as_str(),
                    "\" does not refer to an existing directive.",
                ],
            );
            assert(m@ =~= directive_message(loc@, d@));
            m
        },
        _ => {
            let text = loc.to_text();
            let m = concat_strs(
                &[
                    loc.label(),
                    " \"",
                    text.as_str(),
                    "\"'s directive application \"@",
                    d.as_str(),
                    "\" does not refer to an existing directive.",
                ],
            );
            assert(m@ =~= directive_message(loc@, d@));
            m
        },
    };
    FederationError::internal(message)
}

fn type_error(loc: &Location, t: &String, u: TypeUse) -> (res: FederationError)
    ensures
        is_internal_error(res, type_message(loc@, t@, u)),
{
    proof {
        reveal_with_fuel(concat_views, 7);
    }
    let text = loc.to_text();
    let message = match u {
        TypeUse::Output => {
            let m = concat_strs(
                &[
                    loc.label(),
                    " \"",
                    text.as_str(),
                    "\"'s inner type \"",
                    t.as_str(),
                    "\" does not refer to an existing output type.",
                ],
            );
            assert(m@ =~= type_message(loc@, t@, u));
            m
        },
        TypeUse::Input => {
            let m = concat_strs(
                &[
                    loc.label(),
                    " \"",
                    text.as_str(),
                    "\"'s inner type \"",
                    t.as_str(),
                    "\" does not refer to an existing input type.",
                ],
            );
            assert(m@ =~= type_message(loc@, t@, u));
            m
        },
        TypeUse::Implements => {
            let m = concat_strs(
                &[
                    loc.label(),
                    " \"",
                    text.as_str(),
                    "\"'s implements \"",
                    t.as_str(),
                    "\" does not refer to an existing interface.",
                ],
            );
            assert(m@ =~= type_message(loc@, t@, u));
            m
        },
        TypeUse::Member => {
            let m = concat_strs(
                &[
                    loc.label(),
                    " \"",
                    text.as_str(),
                    "\"'s member \"",
                    t.as_str(),
                    "\" does not refer to an existing object.",
                ],
            );
            assert(m@ =~= type_message(loc@, t@, u));
            m
        },
        TypeUse::Root => {
            let m = concat_strs(
                &[
                    "Root ",
                    text.as_str(),
                    " type \"",
                    t.as_str(),
                    "\" does not refer to an existing object type.",
                ],
            );
            assert(m@ =~= type_message(loc@, t@, u));
            m
        },
    };
    FederationError::internal(message)
}

fn duplicate_argument_error(n: &String) -> (res: FederationError)
    ensures
        is_internal_error(res, duplicate_argument_message(n@)),
{
    proof {
        reveal_with_fuel(concat_views, 4);
    }
    let m = concat_strs(&["Argument \"", n.as_str(), "\" is duplicated on schema element"]);
    assert(m@ =~= duplicate_argument_message(n@));
    FederationError::internal(m)
}

fn allows(u: TypeUse, k: TypeKind) -> (res: bool)
    ensures
        res == use_allows(u, k),
{
    match u {
        TypeUse::Output => k != TypeKind::InputObject,
        TypeUse::Input => k == TypeKind::Scalar || k == TypeKind::Enum || k == TypeKind::InputObject,
        TypeUse::Implements => k == TypeKind::Interface,
        TypeUse::Member => k == TypeKind::Object,
        TypeUse::Root => k == TypeKind::Object,
    }
}

fn record_directive_reference(r: &mut Referencers, j: usize, loc: &Location)
    requires
        j < old(r)@.directives.len(),
    ensures
        final(r)@ == (ReferencersView {
            types: old(r)@.types,
            directives: old(r)@.directives.update(
                j as int,
                (old(r)@.directives[j as int].0, with_location(old(r)@.directives[j as int].1, loc@)),
            ),
        }),
{
    let ghost old_r = r@;
    let ghost old_ds = r.directives@;
    let mut entry = r.directives.remove(j);
    proof {
        assert(directive_referencers_view(entry) == old_r.directives[j as int]);
    }
    add_location(&mut entry.referencers, loc);
    let ghost new_entry = entry;
    r.directives.insert(j, entry);
    proof {
        assert(r.directives@ =~= old_ds.update(j as int, new_entry));
        assert(r@.directives =~= old_r.directives.update(
            j as int,
            (old_r.directives[j as int].0, with_location(old_r.directives[j as int].1, loc@)),
        ));
        assert(r@.types =~= old_r.types);
    }
}

fn record_type_reference(r: &mut Referencers, j: usize, loc: &Location)
    requires
        j < old(r)@.types.len(),
    ensures
        final(r)@ == (ReferencersView {
            types: old(r)@.types.update(
                j as int,
                (
                    old(r)@.types[j as int].0,
                    old(r)@.types[j as int].1,
                    with_location(old(r)@.types[j as int].2, loc@),
                ),
            ),
            directives: old(r)@.directives,
        }),
{
    let ghost old_r = r@;
    let ghost old_ts = r.types@;
    let mut entry = r.types.remove(j);
    proof {
        assert(type_referencers_view(entry) == old_r.types[j as int]);
    }
    add_location(&mut entry.referencers, loc);
    let ghost new_entry = entry;
    r.types.insert(j, entry);
    proof {
        assert(r.types@ =~= old_ts.update(j as int, new_entry));
        assert(r@.types =~= old_r.types.update(
            j as int,
            (old_r.types[j as int].0, old_r.types[j as int].1, with_location(old_r.types[j as int].2, loc@)),
        ));
        assert(r@.directives =~= old_r.directives);
    }
}

/// Records the location of `c` under what it references (see [`step`]).
fn apply_check(r: &mut Referencers, c: &Check) -> (res: Result<(), FederationError>)
    ensures
        match step(old(r)@, c@) {
            Ok(n) => res is Ok && final(r)@ == n,
            Err(m) => res matches Err(e) && is_internal_error(e, m) && final(r)@ == old(r)@,
        },
{
    match c {
        Check::Reference(loc, Target::Directive(d)) => {
            match find_directive_entry(r, d) {
                Some(j) => {
                    proof {
                        lemma_directive_entry(r@.directives, d@);
                    }
                    assert(c@ == CheckView::Reference(loc@, TargetView::Directive(d@)));
                    assert(directive_entry(old(r)@.directives, d@) == Some(j as int));
                    record_directive_reference(r, j, loc);
                    assert(r@ =~= step(old(r)@, c@)->Ok_0);
                    Ok(())
                },
                None => Err(directive_error(loc, d)),
            }
        },
        Check::Reference(loc, Target::Type(t, u)) => {
            match find_type_entry(r, t) {
                Some(j) => {
                    proof {
                        lemma_type_entry(r@.types, t@);
                    }
                    let k = r.types[j].kind;
                    assert(r@.types[j as int].1 == k);
                    if allows(*u, k) {
                        record_type_reference(r, j, loc);
                        assert(r@ =~= step(old(r)@, c@)->Ok_0);
                        Ok(())
                    } else {
                        Err(type_error(loc, t, *u))
                    }
                },
                None => Err(type_error(loc, t, *u)),
            }
        },
        Check::DistinctArguments(names) => match first_duplicate(names) {
            Some(n) => Err(duplicate_argument_error(&n)),
            None => Ok(()),
        },
    }
}

/// The referencers of `schema`, or the error of the first reference that does not hold (see
/// [`schema_referencers`]).
pub fn build_referencers(schema: &Schema) -> (res: Result<Referencers, FederationError>)
    ensures
        match schema_referencers(*schema) {
            Ok(v) => res matches Ok(r) && r@ == v,
            Err(m) => res matches Err(e) && is_internal_error(e, m),
        },
{
    let checks = collect_checks(schema);
    let ghost cv = checks_view(checks@);
    let mut r = initial_referencers_of(schema);
    let ghost r0 = r@;
    let mut i: usize = 0;
    proof {
        assert(cv.take(0) =~= Seq::<CheckView>::empty());
    }
    while i < checks.len()
        invariant
            i <= checks@.len(),
            cv == checks_view(checks@),
            cv == schema_checks(*schema),
            r0 == initial_referencers(*schema),
            process(r0, cv.take(i as int)) == Ok::<ReferencersView, Seq<char>>(r@),
        decreases checks@.len() - i,
    {
        proof {
            assert(cv.take(i + 1).drop_last() =~= cv.take(i as int));
            assert(cv.take(i + 1).last() == checks@[i as int]@);
        }
        match apply_check(&mut r, &checks[i]) {
            Ok(()) => {},
            Err(e) => {
                proof {
                    lemma_process_error(r0, cv, i + 1);
                    assert(cv.take(cv.len() as int) =~= cv);
                }
                return Err(e);
            },
        }
        i = i + 1;
    }
    proof {
        assert(cv.take(cv.len() as int) =~= cv);
    }
    Ok(r)
}

proof fn lemma_process_error(r: ReferencersView, cs: Seq<CheckView>, i: int)
    requires
        0 <= i <= cs.len(),
        process(r, cs.take(i)) is Err,
    ensures
        process(r, cs) == process(r, cs.take(i)),
    decreases cs.len() - i,
{
    if i < cs.len() {
        assert(cs.take(i + 1).drop_last() =~= cs.take(i));
        lemma_process_error(r, cs, i + 1);
    } else {
        assert(cs.take(i) =~= cs);
    }
}

/// A schema together with the links it declares (where it is a core schema) and the index of
/// what references each of its types and directives.
#[derive(Debug)]
pub struct FederationSchema {
    pub schema: Schema,
    pub metadata: OptionLinksMetadata,
    referencers: Referencers,
}

impl FederationSchema {
    /// The index of the references of the schema.
    pub closed spec fn spec_referencers(&self) -> ReferencersView {
        self.referencers@
    }

    /// The schema.
    pub closed spec fn spec_schema(&self) -> Schema {
        self.schema
    }

    /// The links of the schema, where it is a core schema.
    pub closed spec fn spec_metadata(&self) -> Option<LinksMetadata> {
        self.metadata.0
    }

    /// The schema with its links and referencers; the error of the first reference of the
    /// schema that does not hold (see [`schema_referencers`]).
    pub fn new(schema: Schema, metadata: Option<LinksMetadata>) -> (res: Result<FederationSchema, FederationError>)
        ensures
            match schema_referencers(schema) {
                Ok(v) => res matches Ok(s) && s.spec_schema() == schema && s.spec_metadata() == metadata
                    && s.spec_referencers() == v,
                Err(m) => res matches Err(e) && is_internal_error(e, m),
            },
    {
        match build_referencers(&schema) {
            Ok(referencers) => Ok(FederationSchema { schema, metadata: OptionLinksMetadata(metadata), referencers }),
            Err(e) => Err(e),
        }
    }

    /// The schema.
    pub fn schema(&self) -> (res: &Schema)
        ensures
            *res == self.spec_schema(),
    {
        &self.schema
    }

    /// The links of the schema, where it is a core schema.
    pub fn metadata(&self) -> (res: &Option<LinksMetadata>)
        ensures
            *res == self.spec_metadata(),
    {
        &self.metadata.0
    }

    /// The index of the references of the schema.
    pub fn referencers(&self) -> (res: &Referencers)
        ensures
            res@ == self.spec_referencers(),
    {
        &self.referencers
    }
}

/// Whether `c` is a reference from `l` to the directive `d`.
pub open spec fn references_directive(c: CheckView, l: LocationView, d: Seq<char>) -> bool {
    c == CheckView::Reference(l, TargetView::Directive(d))
}

/// Whether `c` is a reference from `l` to the type `t` (however it is used).
pub open spec fn references_type(c: CheckView, l: LocationView, t: Seq<char>) -> bool {
    exists|u: TypeUse| c == CheckView::Reference(l, TargetView::Type(t, u))
}

/// What [`process`] keeps and records: the names and kinds of the entries, and, for each entry
/// that comes first under its name, the locations it starts with and those of the references
/// to its name among the first `n` checks; each recorded once.
pub open spec fn process_records(r0: ReferencersView, r: ReferencersView, cs: Seq<CheckView>, n: int) -> bool {
    &&& r.directives.len() == r0.directives.len()
    &&& r.types.len() == r0.types.len()
    &&& forall|j: int| 0 <= j < r.directives.len() ==> (#[trigger] r.directives[j]).0 == r0.directives[j].0
    &&& forall|j: int|
        0 <= j < r.types.len() ==> (#[trigger] r.types[j]).0 == r0.types[j].0 && r.types[j].1
            == r0.types[j].1
    &&& forall|j: int, l: LocationView|
        0 <= j < r.directives.len() && directive_entry(r0.directives, r0.directives[j].0) == Some(j)
            ==> (#[trigger] r.directives[j].1.contains(l) <==> (r0.directives[j].1.contains(l) || exists|k: int|
            0 <= k < n && #[trigger] references_directive(cs[k], l, r0.directives[j].0)))
    &&& forall|j: int, l: LocationView|
        0 <= j < r.types.len() && type_entry(r0.types, r0.types[j].0) == Some(j) ==> (
        #[trigger] r.types[j].2.contains(l) <==> (r0.types[j].2.contains(l) || exists|k: int|
            0 <= k < n && #[trigger] references_type(cs[k], l, r0.types[j].0)))
    &&& forall|j: int|
        0 <= j < r.directives.len() && directive_entry(r0.directives, r0.directives[j].0) != Some(j)
            ==> (#[trigger] r.directives[j]).1 == r0.directives[j].1
    &&& forall|j: int|
        0 <= j < r.types.len() && type_entry(r0.types, r0.types[j].0) != Some(j) ==> (
        #[trigger] r.types[j]).2 == r0.types[j].2
    &&& (forall|j: int| 0 <= j < r0.directives.len() ==> (#[trigger] r0.directives[j]).1.no_duplicates())
        ==> forall|j: int| 0 <= j < r.directives.len() ==> (#[trigger] r.directives[j]).1.no_duplicates()
    &&& (forall|j: int| 0 <= j < r0.types.len() ==> (#[trigger] r0.types[j]).2.no_duplicates())
        ==> forall|j: int| 0 <= j < r.types.len() ==> (#[trigger] r.types[j]).2.no_duplicates()
}

proof fn lemma_with_location(ls: Seq<LocationView>, l: LocationView)
    ensures
        forall|x: LocationView| #[trigger] with_location(ls, l).contains(x) <==> (ls.contains(x) || x == l),
        ls.no_duplicates() ==> with_location(ls, l).no_duplicates(),
{
    if !ls.contains(l) {
        assert forall|x: LocationView| #[trigger] ls.push(l).contains(x) <==> (ls.contains(x) || x == l) by {
            if ls.push(l).contains(x) {
                let i = choose|i: int| 0 <= i < ls.push(l).len() && ls.push(l)[i] == x;
                if i < ls.len() {
                    assert(ls[i] == x);
                }
            }
            if ls.contains(x) {
                let i = choose|i: int| 0 <= i < ls.len() && ls[i] == x;
                assert(ls.push(l)[i] == x);
            }
            if x == l {
                assert(ls.push(l)[ls.len() as int] == x);
            }
        }
        if ls.no_duplicates() {
            assert forall|i: int, k: int|
                0 <= i < ls.push(l).len() && 0 <= k < ls.push(l).len() && i != k implies ls.push(l)[i]
                != ls.push(l)[k] by {
                if i == ls.len() {
                    assert(ls[k] != l);
                } else if k == ls.len() {
                    assert(ls[i] != l);
                }
            }
        }
    }
}

pub(crate) proof fn lemma_type_entry_names(a: Seq<(Seq<char>, TypeKind, Seq<LocationView>)>, b: Seq<(Seq<char>, TypeKind, Seq<LocationView>)>, x: Seq<char>)
    requires
        a.len() == b.len(),
        forall|j: int| 0 <= j < a.len() ==> (#[trigger] a[j]).0 == b[j].0,
    ensures
        type_entry(a, x) == type_entry(b, x),
    decreases a.len(),
{
    if a.len() > 0 {
        assert forall|j: int| 0 <= j < a.drop_first().len() implies (#[trigger] a.drop_first()[j]).0
            == b.drop_first()[j].0 by {
            assert(a.drop_first()[j] == a[j + 1]);
            assert(b.drop_first()[j] == b[j + 1]);
        }
        assert(a[0].0 == b[0].0);
        lemma_type_entry_names(a.drop_first(), b.drop_first(), x);
    }
}

pub proof fn lemma_directive_entry_same_names(a: Seq<(Seq<char>, Seq<LocationView>)>, b: Seq<(Seq<char>, Seq<LocationView>)>, x: Seq<char>)
    requires
        a.len() == b.len(),
        forall|j: int| 0 <= j < a.len() ==> (#[trigger] a[j]).0 == b[j].0,
    ensures
        directive_entry(a, x) == directive_entry(b, x),
    decreases a.len(),
{
    if a.len() > 0 {
        assert forall|j: int| 0 <= j < a.drop_first().len() implies (#[trigger] a.drop_first()[j]).0
            == b.drop_first()[j].0 by {
            assert(a.drop_first()[j] == a[j + 1]);
            assert(b.drop_first()[j] == b[j + 1]);
        }
        assert(a[0].0 == b[0].0);
        lemma_directive_entry_same_names(a.drop_first(), b.drop_first(), x);
    }
}

proof fn lemma_process_records(r0: ReferencersView, cs: Seq<CheckView>, n: int)
    requires
        0 <= n <= cs.len(),
        process(r0, cs.take(n)) is Ok,
    ensures
        process_records(r0, process(r0, cs.take(n))->Ok_0, cs, n),
    decreases n,
{
    if n == 0 {
        assert(cs.take(0) =~= Seq::<CheckView>::empty());
    } else {
        assert(cs.take(n).drop_last() =~= cs.take(n - 1));
        assert(cs.take(n).last() == cs[n - 1]);
        let prev = process(r0, cs.take(n - 1));
        if prev is Err {
            assert(false);
        }
        lemma_process_records(r0, cs, n - 1);
        let p = prev->Ok_0;
        let r = process(r0, cs.take(n))->Ok_0;
        assert(step(p, cs[n - 1]) == Ok::<ReferencersView, Seq<char>>(r));
        match cs[n - 1] {
            CheckView::Reference(loc, TargetView::Directive(d)) => {
                lemma_directive_entry(p.directives, d);
                lemma_directive_entry_same_names(p.directives, r0.directives, d);
                let jd = directive_entry(p.directives, d)->0;
                lemma_with_location(p.directives[jd].1, loc);
                assert forall|j: int, l: LocationView|
                    0 <= j < r.directives.len() && directive_entry(r0.directives, r0.directives[j].0)
                        == Some(j) implies (#[trigger] r.directives[j].1.contains(l) <==> (
                    r0.directives[j].1.contains(l) || exists|k: int|
                        0 <= k < n && #[trigger] references_directive(cs[k], l, r0.directives[j].0))) by {
                    lemma_directive_entry(r0.directives, r0.directives[j].0);
                    if j == jd {
                        if r.directives[j].1.contains(l) && !p.directives[j].1.contains(l) {
                            assert(references_directive(cs[n - 1], l, r0.directives[j].0));
                        }
                        if exists|k: int| 0 <= k < n && #[trigger] references_directive(cs[k], l, r0.directives[j].0) {
                            let k = choose|k: int| 0 <= k < n && #[trigger] references_directive(cs[k], l, r0.directives[j].0);
                            if k < n - 1 {
                                assert(p.directives[j].1.contains(l));
                            }
                        }
                    } else {
                        assert(r.directives[j] == p.directives[j]);
                        if exists|k: int| 0 <= k < n && #[trigger] references_directive(cs[k], l, r0.directives[j].0) {
                            let k = choose|k: int| 0 <= k < n && #[trigger] references_directive(cs[k], l, r0.directives[j].0);
                            if k == n - 1 {
                                assert(p.directives[jd].0 == d);
                                assert(r0.directives[j].0 == d);
                                assert(false);
                            }
                        }
                    }
                }
                assert(r.types == p.types);
            },
            CheckView::Reference(loc, TargetView::Type(t, u)) => {
                lemma_type_entry(p.types, t);
                lemma_type_entry_names(p.types, r0.types, t);
                let jt = type_entry(p.types, t)->0;
                lemma_with_location(p.types[jt].2, loc);
                assert forall|j: int, l: LocationView|
                    0 <= j < r.types.len() && type_entry(r0.types, r0.types[j].0) == Some(j) implies (
                    #[trigger] r.types[j].2.contains(l) <==> (r0.types[j].2.contains(l) || exists|k: int|
                        0 <= k < n && #[trigger] references_type(cs[k], l, r0.types[j].0))) by {
                    lemma_type_entry(r0.types, r0.types[j].0);
                    if j == jt {
                        if r.types[j].2.contains(l) && !p.types[j].2.contains(l) {
                            assert(references_type(cs[n - 1], l, r0.types[j].0));
                        }
                        if exists|k: int| 0 <= k < n && #[trigger] references_type(cs[k], l, r0.types[j].0) {
                            let k = choose|k: int| 0 <= k < n && #[trigger] references_type(cs[k], l, r0.types[j].0);
                            if k < n - 1 {
                                assert(p.types[j].2.contains(l));
                            }
                        }
                    } else {
                        assert(r.types[j] == p.types[j]);
                        if exists|k: int| 0 <= k < n && #[trigger] references_type(cs[k], l, r0.types[j].0) {
                            let k = choose|k: int| 0 <= k < n && #[trigger] references_type(cs[k], l, r0.types[j].0);
                            if k == n - 1 {
                                assert(p.types[jt].0 == t);
                                assert(r0.types[j].0 == t);
                                assert(false);
                            }
                        }
                    }
                }
                assert(r.directives == p.directives);
            },
            CheckView::DistinctArguments(names) => {
                assert(r == p);
            },
        }
    }
}

/// Whether no two type definitions of `s` share a name, and no two directive definitions do.
pub open spec fn distinct_names(s: Schema) -> bool {
    &&& forall|i: int, j: int|
        0 <= i < s.types@.len() && 0 <= j < s.types@.len() && i != j ==> (#[trigger] s.types@[i]).spec_name()
            != (#[trigger] s.types@[j]).spec_name()
    &&& forall|i: int, j: int|
        0 <= i < s.directive_definitions@.len() && 0 <= j < s.directive_definitions@.len() && i != j
            ==> (#[trigger] s.directive_definitions@[i]).name@ != (#[trigger] s.directive_definitions@[j]).name@
}

/// The referencers of a schema (whose types and directive definitions have distinct names)
/// are exactly its references: a location is recorded under a directive if and only if it
/// applies that directive, under a type if and only if it references that type, and each
/// only once.
pub proof fn law_referencers_are_the_references(s: Schema)
    requires
        schema_referencers(s) is Ok,
        distinct_names(s),
    ensures
        ({
            let r = schema_referencers(s)->Ok_0;
            let cs = schema_checks(s);
            let defs = s.directive_definitions@;
            let ts = s.types@;
            &&& r.directives.len() == defs.len()
            &&& r.types.len() == ts.len()
            &&& forall|j: int| 0 <= j < defs.len() ==> (#[trigger] r.directives[j]).0 == defs[j].name@
            &&& forall|j: int|
                0 <= j < ts.len() ==> (#[trigger] r.types[j]).0 == ts[j].spec_name() && r.types[j].1
                    == ts[j].spec_kind()
            &&& forall|j: int, l: LocationView|
                0 <= j < defs.len() ==> (#[trigger] r.directives[j].1.contains(l) <==> exists|k: int|
                    0 <= k < cs.len() && #[trigger] references_directive(cs[k], l, defs[j].name@))
            &&& forall|j: int, l: LocationView|
                0 <= j < ts.len() ==> (#[trigger] r.types[j].2.contains(l) <==> exists|k: int|
                    0 <= k < cs.len() && #[trigger] references_type(cs[k], l, ts[j].spec_name()))
            &&& forall|j: int| 0 <= j < defs.len() ==> (#[trigger] r.directives[j]).1.no_duplicates()
            &&& forall|j: int| 0 <= j < ts.len() ==> (#[trigger] r.types[j]).2.no_duplicates()
        }),
{
    let r0 = initial_referencers(s);
    let cs = schema_checks(s);
    assert(cs.take(cs.len() as int) =~= cs);
    lemma_process_records(r0, cs, cs.len() as int);
    let r = schema_referencers(s)->Ok_0;
    let defs = s.directive_definitions@;
    let ts = s.types@;
    assert forall|j: int| 0 <= j < defs.len() implies directive_entry(r0.directives, r0.directives[j].0)
        == Some(j) by {
        assert forall|k: int| 0 <= k < j implies r0.directives[k].0 != r0.directives[j].0 by {
            assert(r0.directives[k].0 == defs[k].name@);
            assert(r0.directives[j].0 == defs[j].name@);
        }
        lemma_directive_entry_first(r0.directives, r0.directives[j].0, j);
    }
    assert forall|j: int| 0 <= j < ts.len() implies type_entry(r0.types, r0.types[j].0) == Some(j) by {
        assert forall|k: int| 0 <= k < j implies r0.types[k].0 != r0.types[j].0 by {
            assert(r0.types[k].0 == ts[k].spec_name());
            assert(r0.types[j].0 == ts[j].spec_name());
        }
        lemma_type_entry_first(r0.types, r0.types[j].0, j);
    }
    assert forall|j: int| 0 <= j < r0.directives.len() implies (#[trigger] r0.directives[j]).1.no_duplicates() by {
        assert(r0.directives[j].1 =~= Seq::<LocationView>::empty());
    }
    assert forall|j: int| 0 <= j < r0.types.len() implies (#[trigger] r0.types[j]).2.no_duplicates() by {
        assert(r0.types[j].2 =~= Seq::<LocationView>::empty());
    }
    assert forall|j: int, l: LocationView| 0 <= j < defs.len() implies (#[trigger] r.directives[j].1.contains(l)
        <==> exists|k: int| 0 <= k < cs.len() && #[trigger] references_directive(cs[k], l, defs[j].name@)) by {
        assert(directive_entry(r0.directives, r0.directives[j].0) == Some(j));
        assert(!r0.directives[j].1.contains(l));
        assert(r0.directives[j].0 == defs[j].name@);
    }
    assert forall|j: int, l: LocationView| 0 <= j < ts.len() implies (#[trigger] r.types[j].2.contains(l)
        <==> exists|k: int| 0 <= k < cs.len() && #[trigger] references_type(cs[k], l, ts[j].spec_name())) by {
        assert(type_entry(r0.types, r0.types[j].0) == Some(j));
        assert(!r0.types[j].2.contains(l));
        assert(r0.types[j].0 == ts[j].spec_name());
    }
}

/// Whether `b` is the type definition `a` with the directive applications `ds`.
pub open spec fn with_type_directives(a: ExtendedType, b: ExtendedType, ds: Seq<Directive>) -> bool {
    &&& b.spec_directives() == ds
    &&& match (a, b) {
        (ExtendedType::Scalar { name: n1, .. }, ExtendedType::Scalar { name: n2, .. }) => n1 == n2,
        (
            ExtendedType::Object { name: n1, implements_interfaces: i1, fields: f1, .. },
            ExtendedType::Object { name: n2, implements_interfaces: i2, fields: f2, .. },
        ) => n1 == n2 && i1 == i2 && f1 == f2,
        (
            ExtendedType::Interface { name: n1, implements_interfaces: i1, fields: f1, .. },
            ExtendedType::Interface { name: n2, implements_interfaces: i2, fields: f2, .. },
        ) => n1 == n2 && i1 == i2 && f1 == f2,
        (
            ExtendedType::Union { name: n1, members: m1, .. },
            ExtendedType::Union { name: n2, members: m2, .. },
        ) => n1 == n2 && m1 == m2,
        (
            ExtendedType::Enum { name: n1, values: v1, .. },
            ExtendedType::Enum { name: n2, values: v2, .. },
        ) => n1 == n2 && v1 == v2,
        (
            ExtendedType::InputObject { name: n1, input_fields: f1, .. },
            ExtendedType::InputObject { name: n2, input_fields: f2, .. },
        ) => n1 == n2 && f1 == f2,
        _ => false,
    }
}

/// Whether `new` is `old` with the directive applications of its type `i` set to `ds`, all
/// else of the schema and its links unchanged.
pub open spec fn type_directives_set(old: FederationSchema, new: FederationSchema, i: int, ds: Seq<Directive>) -> bool {
    let os = old.spec_schema();
    let ns = new.spec_schema();
    &&& ns.schema_definition == os.schema_definition
    &&& ns.directive_definitions == os.directive_definitions
    &&& ns.types@.len() == os.types@.len()
    &&& forall|k: int| 0 <= k < os.types@.len() && k != i ==> ns.types@[k] == os.types@[k]
    &&& with_type_directives(os.types@[i], ns.types@[i], ds)
    &&& new.spec_metadata() == old.spec_metadata()
}

/// `ls` without `l`, the others in order.
pub open spec fn without_location(ls: Seq<LocationView>, l: LocationView) -> Seq<LocationView>
    decreases ls.len(),
{
    if ls.len() == 0 {
        ls
    } else if ls.last() == l {
        without_location(ls.drop_last(), l)
    } else {
        without_location(ls.drop_last(), l).push(ls.last())
    }
}

/// The referencers with `l` recorded under the directive entry `j`.
pub open spec fn with_application(r: ReferencersView, j: int, l: LocationView) -> ReferencersView {
    ReferencersView {
        types: r.types,
        directives: r.directives.update(j, (r.directives[j].0, with_location(r.directives[j].1, l))),
    }
}

/// The referencers with `l` no longer recorded under the directive named `d`.
pub open spec fn without_application(r: ReferencersView, d: Seq<char>, l: LocationView) -> ReferencersView {
    match directive_entry(r.directives, d) {
        Some(j) => ReferencersView {
            types: r.types,
            directives: r.directives.update(j, (r.directives[j].0, without_location(r.directives[j].1, l))),
        },
        None => r,
    }
}

/// The applications among `ds` of directives other than `name`, in order.
pub open spec fn other_applications(ds: Seq<Directive>, name: Seq<char>) -> Seq<Directive>
    decreases ds.len(),
{
    if ds.len() == 0 {
        ds
    } else if ds.last().name@ == name {
        other_applications(ds.drop_last(), name)
    } else {
        other_applications(ds.drop_last(), name).push(ds.last())
    }
}

fn remove_location(ls: &mut Vec<Location>, l: &Location)
    ensures
        locations_view(final(ls)@) == without_location(locations_view(old(ls)@), l@),
{
    let ghost lv = locations_view(ls@);
    let mut out: Vec<Location> = Vec::new();
    let mut i: usize = 0;
    proof {
        assert(lv.take(0) =~= Seq::<LocationView>::empty());
        assert(locations_view(out@) =~= Seq::<LocationView>::empty());
    }
    while i < ls.len()
        invariant
            i <= ls@.len(),
            lv == locations_view(ls@),
            locations_view(out@) == without_location(lv.take(i as int), l@),
        decreases ls@.len() - i,
    {
        proof {
            assert(lv.take(i + 1).drop_last() =~= lv.take(i as int));
            assert(lv.take(i + 1).last() == ls@[i as int]@);
        }
        if !location_eq(&ls[i], l) {
            let ghost before = out@;
            out.push(ls[i].copy());
            proof {
                assert(locations_view(out@) =~= locations_view(before).push(ls@[i as int]@));
            }
        }
        i = i + 1;
    }
    proof {
        assert(lv.take(lv.len() as int) =~= lv);
    }
    *ls = out;
}

fn remove_applications(ds: &mut Vec<Directive>, name: &String)
    ensures
        final(ds)@ == other_applications(old(ds)@, name@),
{
    let ghost dv = ds@;
    let mut rest: Vec<Directive> = Vec::new();
    std::mem::swap(ds, &mut rest);
    let ghost mut k: int = 0;
    proof {
        assert(dv.take(0) =~= Seq::<Directive>::empty());
        assert(ds@ =~= other_applications(dv.take(0), name@));
        assert(dv.skip(0) =~= dv);
    }
    while rest.len() > 0
        invariant
            0 <= k <= dv.len(),
            rest@ == dv.skip(k),
            ds@ == other_applications(dv.take(k), name@),
        decreases rest@.len(),
    {
        let d = rest.remove(0);
        proof {
            assert(d == dv[k]);
            assert(dv.take(k + 1).drop_last() =~= dv.take(k));
            assert(dv.take(k + 1).last() == dv[k]);
            assert(rest@ =~= dv.skip(k + 1));
        }
        if d.name != *name {
            ds.push(d);
        }
        proof {
            k = k + 1;
        }
    }
    proof {
        assert(dv.take(dv.len() as int) =~= dv);
    }
}

fn push_type_directive(t: &mut ExtendedType, d: Directive)
    ensures
        with_type_directives(*old(t), *final(t), old(t).spec_directives().push(d)),
{
    match t {
        ExtendedType::Scalar { directives, .. } => directives.push(d),
        ExtendedType::Object { directives, .. } => directives.push(d),
        ExtendedType::Interface { directives, .. } => directives.push(d),
        ExtendedType::Union { directives, .. } => directives.push(d),
        ExtendedType::Enum { directives, .. } => directives.push(d),
        ExtendedType::InputObject { directives, .. } => directives.push(d),
    }
}

fn remove_type_applications(t: &mut ExtendedType, name: &String)
    ensures
        with_type_directives(*old(t), *final(t), other_applications(old(t).spec_directives(), name@)),
{
    match t {
        ExtendedType::Scalar { directives, .. } => remove_applications(directives, name),
        ExtendedType::Object { directives, .. } => remove_applications(directives, name),
        ExtendedType::Interface { directives, .. } => remove_applications(directives, name),
        ExtendedType::Union { directives, .. } => remove_applications(directives, name),
        ExtendedType::Enum { directives, .. } => remove_applications(directives, name),
        ExtendedType::InputObject { directives, .. } => remove_applications(directives, name),
    }
}

fn remove_application_location(r: &mut Referencers, name: &String, loc: &Location)
    ensures
        final(r)@ == without_application(old(r)@, name@, loc@),
{
    match find_directive_entry(r, name) {
        Some(j) => {
            let ghost old_r = r@;
            let ghost old_ds = r.directives@;
            let mut entry = r.directives.remove(j);
            proof {
                assert(directive_referencers_view(entry) == old_r.directives[j as int]);
            }
            remove_location(&mut entry.referencers, loc);
            let ghost new_entry = entry;
            r.directives.insert(j, entry);
            proof {
                assert(r.directives@ =~= old_ds.update(j as int, new_entry));
                assert(r@.directives =~= old_r.directives.update(
                    j as int,
                    (old_r.directives[j as int].0, without_location(old_r.directives[j as int].1, loc@)),
                ));
                assert(r@.types =~= old_r.types);
                assert(r@ =~= without_application(old_r, name@, loc@));
            }
        },
        None => {},
    }
}

impl FederationSchema {
    /// Applies `directive` to the type `i` of the schema, which stands at `loc`, and records
    /// the application; an internal error where the directive is not defined.
    pub(crate) fn insert_type_directive(&mut self, i: usize, loc: &Location, directive: Directive) -> (res: Result<(), FederationError>)
        requires
            i < old(self).spec_schema().types@.len(),
        ensures
            match directive_entry(old(self).spec_referencers().directives, directive.name@) {
                Some(j) => res is Ok && type_directives_set(
                    *old(self),
                    *final(self),
                    i as int,
                    old(self).spec_schema().types@[i as int].spec_directives().push(directive),
                ) && final(self).spec_referencers() == with_application(
                    old(self).spec_referencers(),
                    j,
                    loc@,
                ),
                None => res matches Err(e) && is_internal_error(e, directive_message(loc@, directive.name@))
                    && *final(self) == *old(self),
            },
    {
        match find_directive_entry(&self.referencers, &directive.name) {
            Some(j) => {
                proof {
                    lemma_directive_entry(self.referencers@.directives, directive.name@);
                }
                record_directive_reference(&mut self.referencers, j, loc);
                let ghost old_types = self.schema.types@;
                let mut t = self.schema.types.remove(i);
                push_type_directive(&mut t, directive);
                self.schema.types.insert(i, t);
                proof {
                    assert(self.schema.types@ =~= old_types.update(i as int, t));
                }
                Ok(())
            },
            None => Err(directive_error(loc, &directive.name)),
        }
    }

    /// Removes the applications of the directive `name` from the type `i` of the schema,
    /// which stands at `loc`, and forgets them.
    pub(crate) fn remove_type_directive_name(&mut self, i: usize, loc: &Location, name: &String)
        requires
            i < old(self).spec_schema().types@.len(),
        ensures
            type_directives_set(
                *old(self),
                *final(self),
                i as int,
                other_applications(old(self).spec_schema().types@[i as int].spec_directives(), name@),
            ),
            final(self).spec_referencers() == without_application(old(self).spec_referencers(), name@, loc@),
    {
        remove_application_location(&mut self.referencers, name, loc);
        let ghost old_types = self.schema.types@;
        let mut t = self.schema.types.remove(i);
        remove_type_applications(&mut t, name);
        self.schema.types.insert(i, t);
        proof {
            assert(self.schema.types@ =~= old_types.update(i as int, t));
        }
    }
}

/// Whether the field `b` is the field `a` with the directive applications `ds`.
pub open spec fn with_field_directives(a: FieldDefinition, b: FieldDefinition, ds: Seq<Directive>) -> bool {
    b.name == a.name && b.arguments == a.arguments && b.ty == a.ty && b.directives@ == ds
}

/// Whether the argument or input field `b` is `a` with the directive applications `ds`.
pub open spec fn with_input_value_directives(a: InputValueDefinition, b: InputValueDefinition, ds: Seq<Directive>) -> bool {
    b.name == a.name && b.ty == a.ty && b.default_value == a.default_value && b.directives@ == ds
}

/// Whether the enum value `b` is `a` with the directive applications `ds`.
pub open spec fn with_value_directives(a: EnumValueDefinition, b: EnumValueDefinition, ds: Seq<Directive>) -> bool {
    b.value == a.value && b.directives@ == ds
}

/// Whether `b` holds the same elements as `a` but for the element `j`, for which `same`
/// holds.
pub open spec fn same_but<T>(a: Seq<T>, b: Seq<T>, j: int, same: spec_fn(T, T) -> bool) -> bool {
    &&& b.len() == a.len()
    &&& 0 <= j < a.len()
    &&& forall|k: int| 0 <= k < a.len() && k != j ==> b[k] == a[k]
    &&& same(a[j], b[j])
}

/// Whether the type `b` is the type `a` with the directive applications of its child `j`
/// (a field, an input field or an enum value) set to `ds`.
pub open spec fn with_child_directives(a: ExtendedType, b: ExtendedType, j: int, ds: Seq<Directive>) -> bool {
    match (a, b) {
        (
            ExtendedType::Object { name: n1, implements_interfaces: i1, directives: d1, fields: f1 },
            ExtendedType::Object { name: n2, implements_interfaces: i2, directives: d2, fields: f2 },
        ) => n1 == n2 && i1 == i2 && d1 == d2 && same_but(
            f1@,
            f2@,
            j,
            |x: FieldDefinition, y: FieldDefinition| with_field_directives(x, y, ds),
        ),
        (
            ExtendedType::Interface { name: n1, implements_interfaces: i1, directives: d1, fields: f1 },
            ExtendedType::Interface { name: n2, implements_interfaces: i2, directives: d2, fields: f2 },
        ) => n1 == n2 && i1 == i2 && d1 == d2 && same_but(
            f1@,
            f2@,
            j,
            |x: FieldDefinition, y: FieldDefinition| with_field_directives(x, y, ds),
        ),
        (
            ExtendedType::InputObject { name: n1, directives: d1, input_fields: f1 },
            ExtendedType::InputObject { name: n2, directives: d2, input_fields: f2 },
        ) => n1 == n2 && d1 == d2 && same_but(
            f1@,
            f2@,
            j,
            |x: InputValueDefinition, y: InputValueDefinition| with_input_value_directives(x, y, ds),
        ),
        (
            ExtendedType::Enum { name: n1, directives: d1, values: v1 },
            ExtendedType::Enum { name: n2, directives: d2, values: v2 },
        ) => n1 == n2 && d1 == d2 && same_but(
            v1@,
            v2@,
            j,
            |x: EnumValueDefinition, y: EnumValueDefinition| with_value_directives(x, y, ds),
        ),
        _ => false,
    }
}

/// The directive applications of the child `j` of a type (a field, an input field or an enum
/// value).
pub open spec fn child_directives(t: ExtendedType, j: int) -> Seq<Directive> {
    match t {
        ExtendedType::Object { fields, .. } => fields@[j].directives@,
        ExtendedType::Interface { fields, .. } => fields@[j].directives@,
        ExtendedType::InputObject { input_fields, .. } => input_fields@[j].directives@,
        ExtendedType::Enum { values, .. } => values@[j].directives@,
        _ => Seq::empty(),
    }
}

/// The number of children of a type (fields, input fields or enum values).
pub open spec fn child_count(t: ExtendedType) -> int {
    match t {
        ExtendedType::Object { fields, .. } => fields@.len() as int,
        ExtendedType::Interface { fields, .. } => fields@.len() as int,
        ExtendedType::InputObject { input_fields, .. } => input_fields@.len() as int,
        ExtendedType::Enum { values, .. } => values@.len() as int,
        _ => 0,
    }
}

/// Whether `new` is `old` with the directive applications of the child `j` of its type `i`
/// set to `ds`, all else of the schema and its links unchanged.
pub open spec fn child_directives_set(old: FederationSchema, new: FederationSchema, i: int, j: int, ds: Seq<Directive>) -> bool {
    let os = old.spec_schema();
    let ns = new.spec_schema();
    &&& ns.schema_definition == os.schema_definition
    &&& ns.directive_definitions == os.directive_definitions
    &&& ns.types@.len() == os.types@.len()
    &&& forall|k: int| 0 <= k < os.types@.len() && k != i ==> ns.types@[k] == os.types@[k]
    &&& with_child_directives(os.types@[i], ns.types@[i], j, ds)
    &&& new.spec_metadata() == old.spec_metadata()
}

/// Changes the applications of the child `j` of `t` by pushing `d` (where `push`) or
/// removing those of the directive `name`.
fn change_child_directives(t: &mut ExtendedType, j: usize, push: bool, d: Directive, name: &String)
    requires
        j < child_count(*old(t)),
    ensures
        with_child_directives(
            *old(t),
            *final(t),
            j as int,
            if push {
                child_directives(*old(t), j as int).push(d)
            } else {
                other_applications(child_directives(*old(t), j as int), name@)
            },
        ),
{
    match t {
        ExtendedType::Object { fields, .. } => {
            let ghost old_fields = fields@;
            let mut f = fields.remove(j);
            if push {
                f.directives.push(d);
            } else {
                remove_applications(&mut f.directives, name);
            }
            fields.insert(j, f);
            proof {
                assert(fields@ =~= old_fields.update(j as int, f));
            }
        },
        ExtendedType::Interface { fields, .. } => {
            let ghost old_fields = fields@;
            let mut f = fields.remove(j);
            if push {
                f.directives.push(d);
            } else {
                remove_applications(&mut f.directives, name);
            }
            fields.insert(j, f);
            proof {
                assert(fields@ =~= old_fields.update(j as int, f));
            }
        },
        ExtendedType::InputObject { input_fields, .. } => {
            let ghost old_fields = input_fields@;
            let mut f = input_fields.remove(j);
            if push {
                f.directives.push(d);
            } else {
                remove_applications(&mut f.directives, name);
            }
            input_fields.insert(j, f);
            proof {
                assert(input_fields@ =~= old_fields.update(j as int, f));
            }
        },
        ExtendedType::Enum { values, .. } => {
            let ghost old_values = values@;
            let mut v = values.remove(j);
            if push {
                v.directives.push(d);
            } else {
                remove_applications(&mut v.directives, name);
            }
            values.insert(j, v);
            proof {
                assert(values@ =~= old_values.update(j as int, v));
            }
        },
        _ => {},
    }
}

impl FederationSchema {
    /// Applies `directive` to the child `j` of the type `i` of the schema, which stands at
    /// `loc`, and records the application; an internal error where the directive is not
    /// defined.
    pub(crate) fn insert_child_directive(&mut self, i: usize, j: usize, loc: &Location, directive: Directive) -> (res: Result<(), FederationError>)
        requires
            i < old(self).spec_schema().types@.len(),
            j < child_count(old(self).spec_schema().types@[i as int]),
        ensures
            match directive_entry(old(self).spec_referencers().directives, directive.name@) {
                Some(k) => res is Ok && child_directives_set(
                    *old(self),
                    *final(self),
                    i as int,
                    j as int,
                    child_directives(old(self).spec_schema().types@[i as int], j as int).push(directive),
                ) && final(self).spec_referencers() == with_application(
                    old(self).spec_referencers(),
                    k,
                    loc@,
                ),
                None => res matches Err(e) && is_internal_error(e, directive_message(loc@, directive.name@))
                    && *final(self) == *old(self),
            },
    {
        match find_directive_entry(&self.referencers, &directive.name) {
            Some(k) => {
                proof {
                    lemma_directive_entry(self.referencers@.directives, directive.name@);
                }
                record_directive_reference(&mut self.referencers, k, loc);
                let ghost old_types = self.schema.types@;
                let mut t = self.schema.types.remove(i);
                let unused = String::new();
                change_child_directives(&mut t, j, true, directive, &unused);
                self.schema.types.insert(i, t);
                proof {
                    assert(self.schema.types@ =~= old_types.update(i as int, t));
                }
                Ok(())
            },
            None => Err(directive_error(loc, &directive.name)),
        }
    }

    /// Removes the applications of the directive `name` from the child `j` of the type `i`
    /// of the schema, which stands at `loc`, and forgets them.
    pub(crate) fn remove_child_directive_name(&mut self, i: usize, j: usize, loc: &Location, name: &String)
        requires
            i < old(self).spec_schema().types@.len(),
            j < child_count(old(self).spec_schema().types@[i as int]),
        ensures
            child_directives_set(
                *old(self),
                *final(self),
                i as int,
                j as int,
                other_applications(child_directives(old(self).spec_schema().types@[i as int], j as int), name@),
            ),
            final(self).spec_referencers() == without_application(old(self).spec_referencers(), name@, loc@),
    {
        remove_application_location(&mut self.referencers, name, loc);
        let ghost old_types = self.schema.types@;
        let mut t = self.schema.types.remove(i);
        change_child_directives(&mut t, j, false, Directive { name: String::new(), arguments: Vec::new() }, name);
        self.schema.types.insert(i, t);
        proof {
            assert(self.schema.types@ =~= old_types.update(i as int, t));
        }
    }
}

/// The referencers with `l` no longer recorded under the type named `t`.
pub open spec fn without_type_reference(r: ReferencersView, t: Seq<char>, l: LocationView) -> ReferencersView {
    match type_entry(r.types, t) {
        Some(j) => ReferencersView {
            types: r.types.update(j, (r.types[j].0, r.types[j].1, without_location(r.types[j].2, l))),
            directives: r.directives,
        },
        None => r,
    }
}

/// The kind of the first type of `s` named `t`, if any.
pub open spec fn kind_of_type(s: Schema, t: Seq<char>) -> Option<TypeKind> {
    match crate::schema::type_index(s.types@, t) {
        Some(i) => Some(s.types@[i].spec_kind()),
        None => None,
    }
}

/// Whether forgetting a reference that uses a type as `u` never fails: an implemented
/// interface, a union member or a root type.
pub open spec fn forgets_quietly(u: TypeUse) -> bool {
    u == TypeUse::Implements || u == TypeUse::Member || u == TypeUse::Root
}

/// The referencers after forgetting the reference of one check of an element that goes away:
/// an application, an implemented interface, a union member or a root type is forgotten; the
/// type of a field, an argument or an input field is forgotten where the schema has a type of
/// that name of a fitting kind, and is an error otherwise.
pub open spec fn forget_step(s: Schema, r: ReferencersView, c: CheckView) -> Result<ReferencersView, Seq<char>> {
    match c {
        CheckView::Reference(l, TargetView::Directive(d)) => Ok(without_application(r, d, l)),
        CheckView::Reference(l, TargetView::Type(t, u)) => if forgets_quietly(u) {
            Ok(without_type_reference(r, t, l))
        } else {
            match kind_of_type(s, t) {
            Some(k) => if use_allows(u, k) {
                Ok(without_type_reference(r, t, l))
            } else {
                Err(type_message(l, t, u))
            },
            None => Err(type_message(l, t, u)),
            }
        },
        CheckView::DistinctArguments(_) => Ok(r),
    }
}

/// The referencers after forgetting the checks `cs` in order, and the message of the first
/// that fails, if one does (those after it are not forgotten).
pub open spec fn forget(s: Schema, r: ReferencersView, cs: Seq<CheckView>) -> (ReferencersView, Option<Seq<char>>)
    decreases cs.len(),
{
    if cs.len() == 0 {
        (r, None)
    } else {
        let (p, e) = forget(s, r, cs.drop_last());
        if e is Some {
            (p, e)
        } else {
            match forget_step(s, p, cs.last()) {
                Ok(n) => (n, None),
                Err(m) => (p, Some(m)),
            }
        }
    }
}

fn kind_of_type_exec(schema: &Schema, t: &String) -> (res: Option<TypeKind>)
    ensures
        res == kind_of_type(*schema, t@),
{
    proof {
        crate::schema::lemma_type_index(schema.types@, t@);
    }
    match schema.get_type(t.as_str()) {
        Some(ty) => Some(ty.kind()),
        None => None,
    }
}

fn remove_type_reference_location(r: &mut Referencers, t: &String, loc: &Location)
    ensures
        final(r)@ == without_type_reference(old(r)@, t@, loc@),
{
    match find_type_entry(r, t) {
        Some(j) => {
            let ghost old_r = r@;
            let ghost old_ts = r.types@;
            let mut entry = r.types.remove(j);
            proof {
                assert(type_referencers_view(entry) == old_r.types[j as int]);
            }
            remove_location(&mut entry.referencers, loc);
            let ghost new_entry = entry;
            r.types.insert(j, entry);
            proof {
                assert(r.types@ =~= old_ts.update(j as int, new_entry));
                assert(r@.types =~= old_r.types.update(
                    j as int,
                    (old_r.types[j as int].0, old_r.types[j as int].1, without_location(old_r.types[j as int].2, loc@)),
                ));
                assert(r@.directives =~= old_r.directives);
                assert(r@ =~= without_type_reference(old_r, t@, loc@));
            }
        },
        None => {},
    }
}

/// Forgets the references of the checks `checks` of an element of `schema` that goes away
/// (see [`forget`]).
fn forget_checks(r: &mut Referencers, schema: &Schema, checks: &Vec<Check>) -> (res: Result<(), FederationError>)
    ensures
        final(r)@ == forget(*schema, old(r)@, checks_view(checks@)).0,
        match forget(*schema, old(r)@, checks_view(checks@)).1 {
            Some(m) => res matches Err(err) && is_internal_error(err, m),
            None => res is Ok,
        },
{
    let ghost cv = checks_view(checks@);
    let ghost r0 = r@;
    let mut i: usize = 0;
    proof {
        assert(cv.take(0) =~= Seq::<CheckView>::empty());
    }
    while i < checks.len()
        invariant
            i <= checks@.len(),
            cv == checks_view(checks@),
            r0 == old(r)@,
            forget(*schema, r0, cv.take(i as int)) == (r@, None::<Seq<char>>),
        decreases checks@.len() - i,
    {
        proof {
            assert(cv.take(i + 1).drop_last() =~= cv.take(i as int));
            assert(cv.take(i + 1).last() == checks@[i as int]@);
        }
        match &checks[i] {
            Check::Reference(loc, Target::Directive(d)) => {
                remove_application_location(r, d, loc);
            },
            Check::Reference(loc, Target::Type(t, u)) => if *u == TypeUse::Implements || *u == TypeUse::Member
                || *u == TypeUse::Root {
                remove_type_reference_location(r, t, loc);
            } else {
                match kind_of_type_exec(schema, t) {
                    Some(k) => {
                        if allows(*u, k) {
                            remove_type_reference_location(r, t, loc);
                        } else {
                            proof {
                                assert(forget_step(*schema, r@, checks@[i as int]@) is Err);
                                assert(forget(*schema, r0, cv.take(i + 1)) == (r@, Some(type_message(loc@, t@, *u))));
                                lemma_forget_error(*schema, r0, cv, i + 1);
                            }
                            return Err(type_error(loc, t, *u));
                        }
                    },
                    None => {
                        proof {
                            assert(forget_step(*schema, r@, checks@[i as int]@) is Err);
                            assert(forget(*schema, r0, cv.take(i + 1)) == (r@, Some(type_message(loc@, t@, *u))));
                            lemma_forget_error(*schema, r0, cv, i + 1);
                        }
                        return Err(type_error(loc, t, *u));
                    },
                }
            },
            Check::DistinctArguments(_) => {},
        }
        i = i + 1;
    }
    proof {
        assert(cv.take(cv.len() as int) =~= cv);
    }
    Ok(())
}

proof fn lemma_forget_error(s: Schema, r: ReferencersView, cs: Seq<CheckView>, i: int)
    requires
        0 <= i <= cs.len(),
        forget(s, r, cs.take(i)).1 is Some,
    ensures
        forget(s, r, cs) == forget(s, r, cs.take(i)),
    decreases cs.len() - i,
{
    if i < cs.len() {
        assert(cs.take(i + 1).drop_last() =~= cs.take(i));
        lemma_forget_error(s, r, cs, i + 1);
    } else {
        assert(cs.take(i) =~= cs);
    }
}

/// The checks of the child `j` of a type: those of a field, an input field or an enum value.
pub open spec fn child_checks(t: ExtendedType, j: int) -> Seq<CheckView> {
    match t {
        ExtendedType::Object { name, fields, .. } => field_checks(true, name@, fields@[j]),
        ExtendedType::Interface { name, fields, .. } => field_checks(false, name@, fields@[j]),
        ExtendedType::InputObject { name, input_fields, .. } => input_value_checks(
            LocationView::InputObjectField(name@, input_fields@[j].name@),
            input_fields@[j],
        ),
        ExtendedType::Enum { name, values, .. } => directive_checks(
            LocationView::EnumValue(name@, values@[j].value@),
            values@[j].directives@,
        ),
        _ => Seq::empty(),
    }
}

/// `s` without its element `j`, the last element taking its place.
pub open spec fn swap_removed<T>(s: Seq<T>, j: int) -> Seq<T> {
    s.update(j, s.last()).drop_last()
}

/// Whether the type `b` is the type `a` without its child `j` (the last child taking its
/// place).
pub open spec fn without_child(a: ExtendedType, b: ExtendedType, j: int) -> bool {
    match (a, b) {
        (
            ExtendedType::Object { name: n1, implements_interfaces: i1, directives: d1, fields: f1 },
            ExtendedType::Object { name: n2, implements_interfaces: i2, directives: d2, fields: f2 },
        ) => n1 == n2 && i1 == i2 && d1 == d2 && f2@ == swap_removed(f1@, j),
        (
            ExtendedType::Interface { name: n1, implements_interfaces: i1, directives: d1, fields: f1 },
            ExtendedType::Interface { name: n2, implements_interfaces: i2, directives: d2, fields: f2 },
        ) => n1 == n2 && i1 == i2 && d1 == d2 && f2@ == swap_removed(f1@, j),
        (
            ExtendedType::InputObject { name: n1, directives: d1, input_fields: f1 },
            ExtendedType::InputObject { name: n2, directives: d2, input_fields: f2 },
        ) => n1 == n2 && d1 == d2 && f2@ == swap_removed(f1@, j),
        (
            ExtendedType::Enum { name: n1, directives: d1, values: v1 },
            ExtendedType::Enum { name: n2, directives: d2, values: v2 },
        ) => n1 == n2 && d1 == d2 && v2@ == swap_removed(v1@, j),
        _ => false,
    }
}

/// Whether `new` is `old` after removing the child `j` of its type `i`, `res` the outcome:
/// the references of the child forgotten (see [`forget`]), then the child removed; or, where
/// forgetting fails, the schema unchanged and the error.
pub open spec fn child_removal(old: FederationSchema, new: FederationSchema, i: int, j: int, res: Result<(), FederationError>) -> bool {
    let os = old.spec_schema();
    let ns = new.spec_schema();
    let f = forget(os, old.spec_referencers(), child_checks(os.types@[i], j));
    &&& new.spec_referencers() == f.0
    &&& new.spec_metadata() == old.spec_metadata()
    &&& match f.1 {
        Some(m) => res matches Err(e) && is_internal_error(e, m) && ns == os,
        None => {
            &&& res is Ok
            &&& ns.schema_definition == os.schema_definition
            &&& ns.directive_definitions == os.directive_definitions
            &&& ns.types@.len() == os.types@.len()
            &&& forall|k: int| 0 <= k < os.types@.len() && k != i ==> ns.types@[k] == os.types@[k]
            &&& without_child(os.types@[i], ns.types@[i], j)
        },
    }
}

fn swap_remove_child(t: &mut ExtendedType, j: usize)
    requires
        j < child_count(*old(t)),
    ensures
        without_child(*old(t), *final(t), j as int),
{
    match t {
        ExtendedType::Object { fields, .. } => {
            fields.swap_remove(j);
        },
        ExtendedType::Interface { fields, .. } => {
            fields.swap_remove(j);
        },
        ExtendedType::InputObject { input_fields, .. } => {
            input_fields.swap_remove(j);
        },
        ExtendedType::Enum { values, .. } => {
            values.swap_remove(j);
        },
        _ => {},
    }
}

impl FederationSchema {
    /// Removes the child `j` of the type `i` (a field, an input field or an enum value),
    /// forgetting its references first (see [`child_removal`]).
    pub(crate) fn remove_child(&mut self, i: usize, j: usize) -> (res: Result<(), FederationError>)
        requires
            i < old(self).spec_schema().types@.len(),
            j < child_count(old(self).spec_schema().types@[i as int]),
        ensures
            child_removal(*old(self), *final(self), i as int, j as int, res),
    {
        let mut checks: Vec<Check> = Vec::new();
        proof {
            assert(checks_view(checks@) =~= Seq::<CheckView>::empty());
        }
        match &self.schema.types[i] {
            ExtendedType::Object { name, fields, .. } => {
                push_field_checks(&mut checks, true, name, &fields[j]);
            },
            ExtendedType::Interface { name, fields, .. } => {
                push_field_checks(&mut checks, false, name, &fields[j]);
            },
            ExtendedType::InputObject { name, input_fields, .. } => {
                let loc = Location::InputObjectField(name.clone(), input_fields[j].name.clone());
                push_input_value_checks(&mut checks, &loc, &input_fields[j]);
            },
            ExtendedType::Enum { name, values, .. } => {
                let loc = Location::EnumValue(name.clone(), values[j].value.clone());
                push_directive_checks(&mut checks, &loc, &values[j].directives);
            },
            _ => {},
        }
        proof {
            assert(checks_view(checks@) =~= child_checks(self.schema.types@[i as int], j as int));
        }
        match forget_checks(&mut self.referencers, &self.schema, &checks) {
            Ok(()) => {},
            Err(e) => {
                return Err(e);
            },
        }
        let ghost old_types = self.schema.types@;
        let mut t = self.schema.types.remove(i);
        swap_remove_child(&mut t, j);
        self.schema.types.insert(i, t);
        proof {
            assert(self.schema.types@ =~= old_types.update(i as int, t));
        }
        Ok(())
    }
}

/// The arguments `args` but those named `name`, in order.
pub open spec fn arguments_without(args: Seq<InputValueDefinition>, name: Seq<char>) -> Seq<InputValueDefinition>
    decreases args.len(),
{
    if args.len() == 0 {
        args
    } else if args.last().name@ == name {
        arguments_without(args.drop_last(), name)
    } else {
        arguments_without(args.drop_last(), name).push(args.last())
    }
}

/// The names `ns` but `name`, in order.
pub open spec fn names_without(ns: Seq<String>, name: Seq<char>) -> Seq<String>
    decreases ns.len(),
{
    if ns.len() == 0 {
        ns
    } else if ns.last()@ == name {
        names_without(ns.drop_last(), name)
    } else {
        names_without(ns.drop_last(), name).push(ns.last())
    }
}

fn retain_arguments(args: &mut Vec<InputValueDefinition>, name: &String)
    ensures
        final(args)@ == arguments_without(old(args)@, name@),
{
    let ghost av = args@;
    let mut rest: Vec<InputValueDefinition> = Vec::new();
    std::mem::swap(args, &mut rest);
    let ghost mut k: int = 0;
    proof {
        assert(av.take(0) =~= Seq::<InputValueDefinition>::empty());
        assert(args@ =~= arguments_without(av.take(0), name@));
        assert(av.skip(0) =~= av);
    }
    while rest.len() > 0
        invariant
            0 <= k <= av.len(),
            rest@ == av.skip(k),
            args@ == arguments_without(av.take(k), name@),
        decreases rest@.len(),
    {
        let a = rest.remove(0);
        proof {
            assert(a == av[k]);
            assert(av.take(k + 1).drop_last() =~= av.take(k));
            assert(av.take(k + 1).last() == av[k]);
            assert(rest@ =~= av.skip(k + 1));
        }
        if a.name != *name {
            args.push(a);
        }
        proof {
            k = k + 1;
        }
    }
    proof {
        assert(av.take(av.len() as int) =~= av);
    }
}

fn retain_names(ns: &mut Vec<String>, name: &String)
    ensures
        final(ns)@ == names_without(old(ns)@, name@),
{
    let ghost nv = ns@;
    let mut rest: Vec<String> = Vec::new();
    std::mem::swap(ns, &mut rest);
    let ghost mut k: int = 0;
    proof {
        assert(nv.take(0) =~= Seq::<String>::empty());
        assert(ns@ =~= names_without(nv.take(0), name@));
        assert(nv.skip(0) =~= nv);
    }
    while rest.len() > 0
        invariant
            0 <= k <= nv.len(),
            rest@ == nv.skip(k),
            ns@ == names_without(nv.take(k), name@),
        decreases rest@.len(),
    {
        let a = rest.remove(0);
        proof {
            assert(a == nv[k]);
            assert(nv.take(k + 1).drop_last() =~= nv.take(k));
            assert(nv.take(k + 1).last() == nv[k]);
            assert(rest@ =~= nv.skip(k + 1));
        }
        if a != *name {
            ns.push(a);
        }
        proof {
            k = k + 1;
        }
    }
    proof {
        assert(nv.take(nv.len() as int) =~= nv);
    }
}

/// Whether the type `b` is the type `a` with the arguments of its field `j` kept but those
/// named `name`.
pub open spec fn without_field_argument(a: ExtendedType, b: ExtendedType, j: int, name: Seq<char>) -> bool {
    match (a, b) {
        (
            ExtendedType::Object { name: n1, implements_interfaces: i1, directives: d1, fields: f1 },
            ExtendedType::Object { name: n2, implements_interfaces: i2, directives: d2, fields: f2 },
        ) => n1 == n2 && i1 == i2 && d1 == d2 && same_but(
            f1@,
            f2@,
            j,
            |x: FieldDefinition, y: FieldDefinition| y.name == x.name && y.ty == x.ty && y.directives == x.directives
                && y.arguments@ == arguments_without(x.arguments@, name),
        ),
        (
            ExtendedType::Interface { name: n1, implements_interfaces: i1, directives: d1, fields: f1 },
            ExtendedType::Interface { name: n2, implements_interfaces: i2, directives: d2, fields: f2 },
        ) => n1 == n2 && i1 == i2 && d1 == d2 && same_but(
            f1@,
            f2@,
            j,
            |x: FieldDefinition, y: FieldDefinition| y.name == x.name && y.ty == x.ty && y.directives == x.directives
                && y.arguments@ == arguments_without(x.arguments@, name),
        ),
        _ => false,
    }
}

/// The argument `k` of the field `j` of a type (none for types without fields).
pub open spec fn field_argument_at(t: ExtendedType, j: int, k: int) -> InputValueDefinition {
    crate::schema::declared_fields(t)[j].arguments@[k]
}

/// Whether `new` is `old` after removing the argument `k` of the field `j` of its type `i`
/// (an object or interface type): the argument's references forgotten, then the field's
/// arguments of that name removed; or, where forgetting fails, the schema unchanged and the
/// error.
pub open spec fn field_argument_removal(
    old: FederationSchema,
    new: FederationSchema,
    i: int,
    j: int,
    k: int,
    loc: LocationView,
    res: Result<(), FederationError>,
) -> bool {
    let os = old.spec_schema();
    let ns = new.spec_schema();
    let a = field_argument_at(os.types@[i], j, k);
    let f = forget(os, old.spec_referencers(), input_value_checks(loc, a));
    &&& new.spec_referencers() == f.0
    &&& new.spec_metadata() == old.spec_metadata()
    &&& match f.1 {
        Some(m) => res matches Err(e) && is_internal_error(e, m) && ns == os,
        None => {
            &&& res is Ok
            &&& ns.schema_definition == os.schema_definition
            &&& ns.directive_definitions == os.directive_definitions
            &&& ns.types@.len() == os.types@.len()
            &&& forall|m: int| 0 <= m < os.types@.len() && m != i ==> ns.types@[m] == os.types@[m]
            &&& without_field_argument(os.types@[i], ns.types@[i], j, a.name@)
        },
    }
}

fn retain_field_arguments(t: &mut ExtendedType, j: usize, name: &String)
    requires
        j < child_count(*old(t)),
        *old(t) is Object || *old(t) is Interface,
    ensures
        without_field_argument(*old(t), *final(t), j as int, name@),
{
    match t {
        ExtendedType::Object { fields, .. } => {
            let ghost old_fields = fields@;
            let mut f = fields.remove(j);
            retain_arguments(&mut f.arguments, name);
            fields.insert(j, f);
            proof {
                assert(fields@ =~= old_fields.update(j as int, f));
            }
        },
        ExtendedType::Interface { fields, .. } => {
            let ghost old_fields = fields@;
            let mut f = fields.remove(j);
            retain_arguments(&mut f.arguments, name);
            fields.insert(j, f);
            proof {
                assert(fields@ =~= old_fields.update(j as int, f));
            }
        },
        _ => {},
    }
}

impl FederationSchema {
    /// Removes the argument `k` of the field `j` of the type `i`, which stands at `loc`
    /// (see [`field_argument_removal`]).
    pub(crate) fn remove_field_argument(&mut self, i: usize, j: usize, k: usize, loc: &Location) -> (res: Result<(), FederationError>)
        requires
            i < old(self).spec_schema().types@.len(),
            old(self).spec_schema().types@[i as int] is Object || old(self).spec_schema().types@[i as int] is Interface,
            j < child_count(old(self).spec_schema().types@[i as int]),
            k < crate::schema::declared_fields(old(self).spec_schema().types@[i as int])[j as int].arguments@.len(),
        ensures
            field_argument_removal(*old(self), *final(self), i as int, j as int, k as int, loc@, res),
    {
        let mut checks: Vec<Check> = Vec::new();
        proof {
            assert(checks_view(checks@) =~= Seq::<CheckView>::empty());
        }
        let name = match &self.schema.types[i] {
            ExtendedType::Object { fields, .. } => {
                push_input_value_checks(&mut checks, loc, &fields[j].arguments[k]);
                fields[j].arguments[k].name.clone()
            },
            ExtendedType::Interface { fields, .. } => {
                push_input_value_checks(&mut checks, loc, &fields[j].arguments[k]);
                fields[j].arguments[k].name.clone()
            },
            _ => {
                return Err(FederationError::internal(String::new()));
            },
        };
        match forget_checks(&mut self.referencers, &self.schema, &checks) {
            Ok(()) => {},
            Err(e) => {
                return Err(e);
            },
        }
        let ghost old_types = self.schema.types@;
        let mut t = self.schema.types.remove(i);
        retain_field_arguments(&mut t, j, &name);
        self.schema.types.insert(i, t);
        proof {
            assert(self.schema.types@ =~= old_types.update(i as int, t));
        }
        Ok(())
    }
}


/// Whether the type `b` is the type `a` with the directive applications of the argument `k`
/// of its field `j` set to `ds`.
pub open spec fn with_field_argument_directives(a: ExtendedType, b: ExtendedType, j: int, k: int, ds: Seq<Directive>) -> bool {
    match (a, b) {
        (
            ExtendedType::Object { name: n1, implements_interfaces: i1, directives: d1, fields: f1 },
            ExtendedType::Object { name: n2, implements_interfaces: i2, directives: d2, fields: f2 },
        ) => n1 == n2 && i1 == i2 && d1 == d2 && same_but(
            f1@,
            f2@,
            j,
            |x: FieldDefinition, y: FieldDefinition| y.name == x.name && y.ty == x.ty && y.directives == x.directives
                && same_but(
                x.arguments@,
                y.arguments@,
                k,
                |p: InputValueDefinition, q: InputValueDefinition| with_input_value_directives(p, q, ds),
            ),
        ),
        (
            ExtendedType::Interface { name: n1, implements_interfaces: i1, directives: d1, fields: f1 },
            ExtendedType::Interface { name: n2, implements_interfaces: i2, directives: d2, fields: f2 },
        ) => n1 == n2 && i1 == i2 && d1 == d2 && same_but(
            f1@,
            f2@,
            j,
            |x: FieldDefinition, y: FieldDefinition| y.name == x.name && y.ty == x.ty && y.directives == x.directives
                && same_but(
                x.arguments@,
                y.arguments@,
                k,
                |p: InputValueDefinition, q: InputValueDefinition| with_input_value_directives(p, q, ds),
            ),
        ),
        _ => false,
    }
}

/// Whether `new` is `old` with the directive applications of the argument `k` of the field
/// `j` of its type `i` set to `ds`, all else of the schema and its links unchanged.
pub open spec fn field_argument_directives_set(
    old: FederationSchema,
    new: FederationSchema,
    i: int,
    j: int,
    k: int,
    ds: Seq<Directive>,
) -> bool {
    let os = old.spec_schema();
    let ns = new.spec_schema();
    &&& ns.schema_definition == os.schema_definition
    &&& ns.directive_definitions == os.directive_definitions
    &&& ns.types@.len() == os.types@.len()
    &&& forall|m: int| 0 <= m < os.types@.len() && m != i ==> ns.types@[m] == os.types@[m]
    &&& with_field_argument_directives(os.types@[i], ns.types@[i], j, k, ds)
    &&& new.spec_metadata() == old.spec_metadata()
}

/// Whether the directive definition `b` is `a` with the directive applications of its
/// argument `k` set to `ds`.
pub open spec fn with_directive_argument_directives(a: DirectiveDefinition, b: DirectiveDefinition, k: int, ds: Seq<Directive>) -> bool {
    &&& b.name == a.name
    &&& b.repeatable == a.repeatable
    &&& b.locations == a.locations
    &&& same_but(
        a.arguments@,
        b.arguments@,
        k,
        |p: InputValueDefinition, q: InputValueDefinition| with_input_value_directives(p, q, ds),
    )
}

/// Whether `new` is `old` with the directive applications of the argument `k` of its
/// directive definition `i` set to `ds`, all else of the schema and its links unchanged.
pub open spec fn directive_argument_directives_set(
    old: FederationSchema,
    new: FederationSchema,
    i: int,
    k: int,
    ds: Seq<Directive>,
) -> bool {
    let os = old.spec_schema();
    let ns = new.spec_schema();
    &&& ns.schema_definition == os.schema_definition
    &&& ns.types == os.types
    &&& ns.directive_definitions@.len() == os.directive_definitions@.len()
    &&& forall|m: int| 0 <= m < os.directive_definitions@.len() && m != i ==> ns.directive_definitions@[m] == os.directive_definitions@[m]
    &&& with_directive_argument_directives(os.directive_definitions@[i], ns.directive_definitions@[i], k, ds)
    &&& new.spec_metadata() == old.spec_metadata()
}

/// Whether `new` is `old` with the directive applications of its schema definition set to
/// `ds`, all else of the schema and its links unchanged.
pub open spec fn schema_definition_directives_set(old: FederationSchema, new: FederationSchema, ds: Seq<Directive>) -> bool {
    let os = old.spec_schema();
    let ns = new.spec_schema();
    &&& ns.schema_definition.directives@ == ds
    &&& ns.schema_definition.query == os.schema_definition.query
    &&& ns.schema_definition.mutation == os.schema_definition.mutation
    &&& ns.schema_definition.subscription == os.schema_definition.subscription
    &&& ns.types == os.types
    &&& ns.directive_definitions == os.directive_definitions
    &&& new.spec_metadata() == old.spec_metadata()
}

fn strip_field_argument(t: &mut ExtendedType, j: usize, k: usize, name: &String)
    requires
        *old(t) is Object || *old(t) is Interface,
        j < child_count(*old(t)),
        k < crate::schema::declared_fields(*old(t))[j as int].arguments@.len(),
    ensures
        with_field_argument_directives(
            *old(t),
            *final(t),
            j as int,
            k as int,
            other_applications(crate::schema::declared_fields(*old(t))[j as int].arguments@[k as int].directives@, name@),
        ),
{
    match t {
        ExtendedType::Object { fields, .. } => {
            let ghost old_fields = fields@;
            let mut f = fields.remove(j);
            let ghost old_args = f.arguments@;
            let mut a = f.arguments.remove(k);
            remove_applications(&mut a.directives, name);
            f.arguments.insert(k, a);
            proof {
                assert(f.arguments@ =~= old_args.update(k as int, a));
            }
            fields.insert(j, f);
            proof {
                assert(fields@ =~= old_fields.update(j as int, f));
            }
        },
        ExtendedType::Interface { fields, .. } => {
            let ghost old_fields = fields@;
            let mut f = fields.remove(j);
            let ghost old_args = f.arguments@;
            let mut a = f.arguments.remove(k);
            remove_applications(&mut a.directives, name);
            f.arguments.insert(k, a);
            proof {
                assert(f.arguments@ =~= old_args.update(k as int, a));
            }
            fields.insert(j, f);
            proof {
                assert(fields@ =~= old_fields.update(j as int, f));
            }
        },
        _ => {},
    }
}

impl FederationSchema {
    /// Removes the applications of the directive `name` on the argument `k` of the field `j`
    /// of the type `i`, which stands at `loc`, and their record.
    pub(crate) fn remove_field_argument_directive_name(&mut self, i: usize, j: usize, k: usize, loc: &Location, name: &String)
        requires
            i < old(self).spec_schema().types@.len(),
            old(self).spec_schema().types@[i as int] is Object || old(self).spec_schema().types@[i as int] is Interface,
            j < child_count(old(self).spec_schema().types@[i as int]),
            k < crate::schema::declared_fields(old(self).spec_schema().types@[i as int])[j as int].arguments@.len(),
        ensures
            field_argument_directives_set(
                *old(self),
                *final(self),
                i as int,
                j as int,
                k as int,
                other_applications(
                    crate::schema::declared_fields(old(self).spec_schema().types@[i as int])[j as int].arguments@[k as int].directives@,
                    name@,
                ),
            ),
            final(self).spec_referencers() == without_application(old(self).spec_referencers(), name@, loc@),
    {
        remove_application_location(&mut self.referencers, name, loc);
        let ghost old_types = self.schema.types@;
        let mut t = self.schema.types.remove(i);
        strip_field_argument(&mut t, j, k, name);
        self.schema.types.insert(i, t);
        proof {
            assert(self.schema.types@ =~= old_types.update(i as int, t));
        }
    }

    /// Removes the applications of the directive `name` on the argument `k` of the directive
    /// definition `i`, which stands at `loc`, and their record.
    pub(crate) fn remove_directive_argument_directive_name(&mut self, i: usize, k: usize, loc: &Location, name: &String)
        requires
            i < old(self).spec_schema().directive_definitions@.len(),
            k < old(self).spec_schema().directive_definitions@[i as int].arguments@.len(),
        ensures
            directive_argument_directives_set(
                *old(self),
                *final(self),
                i as int,
                k as int,
                other_applications(old(self).spec_schema().directive_definitions@[i as int].arguments@[k as int].directives@, name@),
            ),
            final(self).spec_referencers() == without_application(old(self).spec_referencers(), name@, loc@),
    {
        remove_application_location(&mut self.referencers, name, loc);
        let ghost old_defs = self.schema.directive_definitions@;
        let mut def = self.schema.directive_definitions.remove(i);
        let ghost old_args = def.arguments@;
        let mut a = def.arguments.remove(k);
        remove_applications(&mut a.directives, name);
        def.arguments.insert(k, a);
        proof {
            assert(def.arguments@ =~= old_args.update(k as int, a));
        }
        self.schema.directive_definitions.insert(i, def);
        proof {
            assert(self.schema.directive_definitions@ =~= old_defs.update(i as int, def));
        }
    }

    /// Removes the applications of the directive `name` on the schema definition, and their
    /// record.
    pub(crate) fn remove_schema_definition_directive_name(&mut self, name: &String)
        ensures
            schema_definition_directives_set(
                *old(self),
                *final(self),
                other_applications(old(self).spec_schema().schema_definition.directives@, name@),
            ),
            final(self).spec_referencers() == without_application(
                old(self).spec_referencers(),
                name@,
                LocationView::SchemaDefinition,
            ),
    {
        remove_application_location(&mut self.referencers, name, &Location::SchemaDefinition);
        remove_applications(&mut self.schema.schema_definition.directives, name);
    }
}

/// The message of a directive definition whose record is missing.
pub open spec fn missing_directive_record_message(d: Seq<char>) -> Seq<char> {
    "Schema missing referencers for directive \"@"@ + d + "\""@
}

/// Whether `new` is `old` after taking out its directive definition `i` and the record of its
/// applications, `res` the outcome: the references of the definition's arguments forgotten
/// (see [`forget`]); then the definition removed, the last one taking its place; then the
/// first record of the directive removed, the last record taking its place, and handed back.
/// Where forgetting fails, the schema is unchanged and the error comes back; where there is
/// no record, the definition is removed and an internal error comes back.
pub open spec fn directive_definition_detached(
    old: FederationSchema,
    new: FederationSchema,
    i: int,
    res: Result<DirectiveReferencers, FederationError>,
) -> bool {
    let os = old.spec_schema();
    let ns = new.spec_schema();
    let def = os.directive_definitions@[i];
    let f = forget(os, old.spec_referencers(), arguments_checks(ArgumentOwner::Directive(def.name@), def.arguments@));
    &&& new.spec_metadata() == old.spec_metadata()
    &&& match f.1 {
        Some(m) => res matches Err(e) && is_internal_error(e, m) && ns == os && new.spec_referencers() == f.0,
        None => {
            &&& ns.schema_definition == os.schema_definition
            &&& ns.types == os.types
            &&& ns.directive_definitions@ == swap_removed(os.directive_definitions@, i)
            &&& match directive_entry(f.0.directives, def.name@) {
                Some(j) => res matches Ok(dr) && directive_referencers_view(dr) == f.0.directives[j]
                    && new.spec_referencers() == (ReferencersView {
                    types: f.0.types,
                    directives: swap_removed(f.0.directives, j),
                }),
                None => res matches Err(e) && is_internal_error(e, missing_directive_record_message(def.name@))
                    && new.spec_referencers() == f.0,
            }
        },
    }
}

impl FederationSchema {
    /// Takes out the directive definition `i` and the record of its applications (see
    /// [`directive_definition_detached`]).
    pub(crate) fn detach_directive_definition(&mut self, i: usize) -> (res: Result<DirectiveReferencers, FederationError>)
        requires
            i < old(self).spec_schema().directive_definitions@.len(),
        ensures
            directive_definition_detached(*old(self), *final(self), i as int, res),
    {
        let mut checks: Vec<Check> = Vec::new();
        proof {
            assert(checks_view(checks@) =~= Seq::<CheckView>::empty());
        }
        let name = self.schema.directive_definitions[i].name.clone();
        let owner = Owner::Directive(name.clone());
        push_arguments_checks(&mut checks, &owner, &self.schema.directive_definitions[i].arguments);
        proof {
            assert(checks_view(checks@) =~= arguments_checks(
                ArgumentOwner::Directive(name@),
                self.schema.directive_definitions@[i as int].arguments@,
            ));
        }
        match forget_checks(&mut self.referencers, &self.schema, &checks) {
            Ok(()) => {},
            Err(e) => {
                return Err(e);
            },
        }
        self.schema.directive_definitions.swap_remove(i);
        match find_directive_entry(&self.referencers, &name) {
            Some(j) => {
                let ghost before = self.referencers@;
                let entry = self.referencers.directives.swap_remove(j);
                proof {
                    assert(self.referencers@.directives =~= swap_removed(before.directives, j as int));
                    assert(self.referencers@.types =~= before.types);
                }
                Ok(entry)
            },
            None => {
                proof {
                    reveal_with_fuel(concat_views, 4);
                }
                let m = concat_strs(&["Schema missing referencers for directive \"@", name.as_str(), "\""]);
                assert(m@ =~= missing_directive_record_message(name@));
                Err(FederationError::internal(m))
            },
        }
    }
}

/// The message of a type whose record is missing.
pub open spec fn missing_type_record_message(t: Seq<char>) -> Seq<char> {
    "Schema missing referencers for type \""@ + t + "\""@
}

/// Whether `new` is `old` after taking out its type `i` and the record of its references,
/// `res` the outcome: the references of the type forgotten (see [`forget`]); then the type
/// removed, the last one taking its place; then the first record of a type of that name,
/// where it is of the type's kind, removed (the last record taking its place) and handed
/// back. Where forgetting fails, the schema is unchanged and the error comes back; where there
/// is no such record, the type is removed and an internal error comes back.
pub open spec fn type_detached(
    old: FederationSchema,
    new: FederationSchema,
    i: int,
    res: Result<TypeReferencers, FederationError>,
) -> bool {
    let os = old.spec_schema();
    let ns = new.spec_schema();
    let t = os.types@[i];
    let f = forget(os, old.spec_referencers(), type_checks(t));
    &&& new.spec_metadata() == old.spec_metadata()
    &&& match f.1 {
        Some(m) => res matches Err(e) && is_internal_error(e, m) && ns == os && new.spec_referencers() == f.0,
        None => {
            &&& ns.schema_definition == os.schema_definition
            &&& ns.directive_definitions == os.directive_definitions
            &&& ns.types@ == swap_removed(os.types@, i)
            &&& match type_entry(f.0.types, t.spec_name()) {
                Some(j) => if f.0.types[j].1 == t.spec_kind() {
                    res matches Ok(tr) && type_referencers_view(tr) == f.0.types[j]
                        && new.spec_referencers() == (ReferencersView {
                        types: swap_removed(f.0.types, j),
                        directives: f.0.directives,
                    })
                } else {
                    res matches Err(e) && is_internal_error(e, missing_type_record_message(t.spec_name()))
                        && new.spec_referencers() == f.0
                },
                None => res matches Err(e) && is_internal_error(e, missing_type_record_message(t.spec_name()))
                    && new.spec_referencers() == f.0,
            }
        },
    }
}

impl FederationSchema {
    /// Takes out the type `i` and the record of its references (see [`type_detached`]).
    pub(crate) fn detach_type(&mut self, i: usize) -> (res: Result<TypeReferencers, FederationError>)
        requires
            i < old(self).spec_schema().types@.len(),
        ensures
            type_detached(*old(self), *final(self), i as int, res),
    {
        let mut checks: Vec<Check> = Vec::new();
        proof {
            assert(checks_view(checks@) =~= Seq::<CheckView>::empty());
        }
        push_type_checks(&mut checks, &self.schema.types[i]);
        proof {
            assert(checks_view(checks@) =~= type_checks(self.schema.types@[i as int]));
        }
        let name = self.schema.types[i].name().clone();
        let kind = self.schema.types[i].kind();
        match forget_checks(&mut self.referencers, &self.schema, &checks) {
            Ok(()) => {},
            Err(e) => {
                return Err(e);
            },
        }
        self.schema.types.swap_remove(i);
        let found = match find_type_entry(&self.referencers, &name) {
            Some(j) => if self.referencers.types[j].kind == kind {
                Some(j)
            } else {
                None
            },
            None => None,
        };
        match found {
            Some(j) => {
                let ghost before = self.referencers@;
                let entry = self.referencers.types.swap_remove(j);
                proof {
                    assert(self.referencers@.types =~= swap_removed(before.types, j as int));
                    assert(self.referencers@.directives =~= before.directives);
                }
                Ok(entry)
            },
            None => {
                proof {
                    reveal_with_fuel(concat_views, 4);
                }
                let m = concat_strs(&["Schema missing referencers for type \"", name.as_str(), "\""]);
                assert(m@ =~= missing_type_record_message(name@));
                Err(FederationError::internal(m))
            },
        }
    }
}

/// The root type of kind `k` of a schema definition, if it has one.
pub open spec fn root_type_of(sd: SchemaDefinition, k: SchemaRootDefinitionKind) -> Option<String> {
    match k {
        SchemaRootDefinitionKind::Query => sd.query,
        SchemaRootDefinitionKind::Mutation => sd.mutation,
        SchemaRootDefinitionKind::Subscription => sd.subscription,
    }
}

/// Whether `new` is `old` without its root of kind `k` and without the record of its
/// reference to the root type; `old` unchanged where there is no such root.
pub open spec fn root_removed(old: FederationSchema, new: FederationSchema, k: SchemaRootDefinitionKind) -> bool {
    let os = old.spec_schema();
    let ns = new.spec_schema();
    match root_type_of(os.schema_definition, k) {
        None => new == old,
        Some(t) => {
            &&& root_type_of(ns.schema_definition, k) is None
            &&& forall|o: SchemaRootDefinitionKind| o != k ==> root_type_of(ns.schema_definition, o) == root_type_of(
                os.schema_definition,
                o,
            )
            &&& ns.schema_definition.directives == os.schema_definition.directives
            &&& ns.types == os.types
            &&& ns.directive_definitions == os.directive_definitions
            &&& new.spec_metadata() == old.spec_metadata()
            &&& new.spec_referencers() == without_type_reference(
                old.spec_referencers(),
                t@,
                LocationView::SchemaRoot(k),
            )
        },
    }
}

impl FederationSchema {
    /// Removes the root of kind `k` and the record of its reference (see [`root_removed`]).
    pub(crate) fn remove_root(&mut self, k: SchemaRootDefinitionKind)
        ensures
            root_removed(*old(self), *final(self), k),
    {
        let loc = Location::SchemaRoot(k);
        match k {
            SchemaRootDefinitionKind::Query => {
                match self.schema.schema_definition.query.take() {
                    Some(t) => remove_type_reference_location(&mut self.referencers, &t, &loc),
                    None => {},
                }
            },
            SchemaRootDefinitionKind::Mutation => {
                match self.schema.schema_definition.mutation.take() {
                    Some(t) => remove_type_reference_location(&mut self.referencers, &t, &loc),
                    None => {},
                }
            },
            SchemaRootDefinitionKind::Subscription => {
                match self.schema.schema_definition.subscription.take() {
                    Some(t) => remove_type_reference_location(&mut self.referencers, &t, &loc),
                    None => {},
                }
            },
        }
    }
}

/// Whether the type `b` is the type `a` (an object, interface or union type) with its
/// implemented interfaces, or its members, set to `names`.
pub open spec fn with_type_names(a: ExtendedType, b: ExtendedType, names: Seq<String>) -> bool {
    match (a, b) {
        (
            ExtendedType::Object { name: n1, implements_interfaces: _, directives: d1, fields: f1 },
            ExtendedType::Object { name: n2, implements_interfaces: i2, directives: d2, fields: f2 },
        ) => n1 == n2 && d1 == d2 && f1 == f2 && i2@ == names,
        (
            ExtendedType::Interface { name: n1, implements_interfaces: _, directives: d1, fields: f1 },
            ExtendedType::Interface { name: n2, implements_interfaces: i2, directives: d2, fields: f2 },
        ) => n1 == n2 && d1 == d2 && f1 == f2 && i2@ == names,
        (
            ExtendedType::Union { name: n1, directives: d1, members: _ },
            ExtendedType::Union { name: n2, directives: d2, members: m2 },
        ) => n1 == n2 && d1 == d2 && m2@ == names,
        _ => false,
    }
}

/// The interfaces that an object or interface type implements, or the members of a union
/// type.
pub open spec fn type_names(t: ExtendedType) -> Seq<String> {
    match t {
        ExtendedType::Object { implements_interfaces, .. } => implements_interfaces@,
        ExtendedType::Interface { implements_interfaces, .. } => implements_interfaces@,
        ExtendedType::Union { members, .. } => members@,
        _ => Seq::empty(),
    }
}

/// Whether `new` is `old` with the type `name` no longer implemented by, or a member of, its
/// type `i` (which stands at `loc`), and without the record of that reference.
pub open spec fn type_name_removed(old: FederationSchema, new: FederationSchema, i: int, loc: LocationView, name: Seq<char>) -> bool {
    let os = old.spec_schema();
    let ns = new.spec_schema();
    &&& ns.schema_definition == os.schema_definition
    &&& ns.directive_definitions == os.directive_definitions
    &&& ns.types@.len() == os.types@.len()
    &&& forall|m: int| 0 <= m < os.types@.len() && m != i ==> ns.types@[m] == os.types@[m]
    &&& with_type_names(os.types@[i], ns.types@[i], names_without(type_names(os.types@[i]), name))
    &&& new.spec_metadata() == old.spec_metadata()
    &&& new.spec_referencers() == without_type_reference(old.spec_referencers(), name, loc)
}

impl FederationSchema {
    /// Removes `name` from the interfaces implemented by, or the members of, the type `i`,
    /// which stands at `loc`, and the record of that reference (see [`type_name_removed`]).
    pub(crate) fn remove_type_name(&mut self, i: usize, loc: &Location, name: &String)
        requires
            i < old(self).spec_schema().types@.len(),
            old(self).spec_schema().types@[i as int] is Object || old(self).spec_schema().types@[i as int] is Interface
                || old(self).spec_schema().types@[i as int] is Union,
        ensures
            type_name_removed(*old(self), *final(self), i as int, loc@, name@),
    {
        remove_type_reference_location(&mut self.referencers, name, loc);
        let ghost old_types = self.schema.types@;
        let mut t = self.schema.types.remove(i);
        match &mut t {
            ExtendedType::Object { implements_interfaces, .. } => retain_names(implements_interfaces, name),
            ExtendedType::Interface { implements_interfaces, .. } => retain_names(implements_interfaces, name),
            ExtendedType::Union { members, .. } => retain_names(members, name),
            _ => {},
        }
        self.schema.types.insert(i, t);
        proof {
            assert(self.schema.types@ =~= old_types.update(i as int, t));
        }
    }
}

/// Whether `new` is `old` after removing the argument `k` of its directive definition `i`,
/// which stands at `loc`: the argument's references forgotten, then the definition's
/// arguments of that name removed; or, where forgetting fails, the schema unchanged and the
/// error.
pub open spec fn directive_argument_removal(
    old: FederationSchema,
    new: FederationSchema,
    i: int,
    k: int,
    loc: LocationView,
    res: Result<(), FederationError>,
) -> bool {
    let os = old.spec_schema();
    let ns = new.spec_schema();
    let a = os.directive_definitions@[i].arguments@[k];
    let f = forget(os, old.spec_referencers(), input_value_checks(loc, a));
    &&& new.spec_referencers() == f.0
    &&& new.spec_metadata() == old.spec_metadata()
    &&& match f.1 {
        Some(m) => res matches Err(e) && is_internal_error(e, m) && ns == os,
        None => {
            &&& res is Ok
            &&& ns.schema_definition == os.schema_definition
            &&& ns.types == os.types
            &&& ns.directive_definitions@.len() == os.directive_definitions@.len()
            &&& forall|m: int| 0 <= m < os.directive_definitions@.len() && m != i ==> ns.directive_definitions@[m]
                == os.directive_definitions@[m]
            &&& ns.directive_definitions@[i].name == os.directive_definitions@[i].name
            &&& ns.directive_definitions@[i].repeatable == os.directive_definitions@[i].repeatable
            &&& ns.directive_definitions@[i].locations == os.directive_definitions@[i].locations
            &&& ns.directive_definitions@[i].arguments@ == arguments_without(
                os.directive_definitions@[i].arguments@,
                a.name@,
            )
        },
    }
}

impl FederationSchema {
    /// Removes the argument `k` of the directive definition `i`, which stands at `loc` (see
    /// [`directive_argument_removal`]).
    pub(crate) fn remove_directive_argument(&mut self, i: usize, k: usize, loc: &Location) -> (res: Result<(), FederationError>)
        requires
            i < old(self).spec_schema().directive_definitions@.len(),
            k < old(self).spec_schema().directive_definitions@[i as int].arguments@.len(),
        ensures
            directive_argument_removal(*old(self), *final(self), i as int, k as int, loc@, res),
    {
        let mut checks: Vec<Check> = Vec::new();
        proof {
            assert(checks_view(checks@) =~= Seq::<CheckView>::empty());
        }
        push_input_value_checks(&mut checks, loc, &self.schema.directive_definitions[i].arguments[k]);
        let name = self.schema.directive_definitions[i].arguments[k].name.clone();
        match forget_checks(&mut self.referencers, &self.schema, &checks) {
            Ok(()) => {},
            Err(e) => {
                return Err(e);
            },
        }
        let ghost old_defs = self.schema.directive_definitions@;
        let mut def = self.schema.directive_definitions.remove(i);
        retain_arguments(&mut def.arguments, &name);
        self.schema.directive_definitions.insert(i, def);
        proof {
            assert(self.schema.directive_definitions@ =~= old_defs.update(i as int, def));
        }
        Ok(())
    }
}

impl FederationSchema {
    /// The locations that the schema records as applying the directive `name` (those of its
    /// first record of that name), where it has such a record.
    pub fn directive_referencer_locations(&self, name: &String) -> (res: Option<Vec<Location>>)
        ensures
            match directive_entry(self.spec_referencers().directives, name@) {
                Some(j) => res matches Some(v) && locations_view(v@) == self.spec_referencers().directives[j].1,
                None => res is None,
            },
    {
        match find_directive_entry(&self.referencers, name) {
            Some(j) => {
                let ls = &self.referencers.directives[j].referencers;
                let mut out: Vec<Location> = Vec::new();
                let mut k: usize = 0;
                while k < ls.len()
                    invariant
                        k <= ls@.len(),
                        locations_view(out@) =~= locations_view(ls@).take(k as int),
                    decreases ls@.len() - k,
                {
                    let ghost before = out@;
                    out.push(ls[k].copy());
                    proof {
                        assert(locations_view(out@) =~= locations_view(before).push(ls@[k as int]@));
                        assert(locations_view(ls@).take(k + 1) =~= locations_view(ls@).take(k as int).push(ls@[k as int]@));
                    }
                    k = k + 1;
                }
                proof {
                    assert(locations_view(ls@).take(ls@.len() as int) =~= locations_view(ls@));
                }
                Some(out)
            },
            None => None,
        }
    }
}

impl FederationSchema {
    /// The schema, without its links and referencers.
    pub fn into_inner(self) -> (res: Schema)
        ensures
            res == self.spec_schema(),
    {
        self.schema
    }
}

/// The referencers after recording one check of an element that comes into `s`: as in
/// [`step`], except that the type of a field, an argument or an input field is looked up in
/// the schema first (it must be a type of `s` of a fitting kind), then its record (which must
/// be of that kind).
pub open spec fn record_step(s: Schema, r: ReferencersView, c: CheckView) -> Result<ReferencersView, Seq<char>> {
    match c {
        CheckView::Reference(l, TargetView::Type(t, u)) => if forgets_quietly(u) {
            step(r, c)
        } else {
            match kind_of_type(s, t) {
                Some(k) => if use_allows(u, k) {
                    match type_entry(r.types, t) {
                        Some(j) => if r.types[j].1 == k {
                            Ok(
                                ReferencersView {
                                    types: r.types.update(j, (r.types[j].0, r.types[j].1, with_location(r.types[j].2, l))),
                                    directives: r.directives,
                                },
                            )
                        } else {
                            Err(missing_type_record_message(t))
                        },
                        None => Err(missing_type_record_message(t)),
                    }
                } else {
                    Err(type_message(l, t, u))
                },
                None => Err(type_message(l, t, u)),
            }
        },
        _ => step(r, c),
    }
}

/// The referencers after recording the checks `cs` in order (see [`record_step`]), and the
/// message of the first that fails, if one does (those after it are not recorded).
pub open spec fn record(s: Schema, r: ReferencersView, cs: Seq<CheckView>) -> (ReferencersView, Option<Seq<char>>)
    decreases cs.len(),
{
    if cs.len() == 0 {
        (r, None)
    } else {
        let (p, e) = record(s, r, cs.drop_last());
        if e is Some {
            (p, e)
        } else {
            match record_step(s, p, cs.last()) {
                Ok(n) => (n, None),
                Err(m) => (p, Some(m)),
            }
        }
    }
}

proof fn lemma_record_error(s: Schema, r: ReferencersView, cs: Seq<CheckView>, i: int)
    requires
        0 <= i <= cs.len(),
        record(s, r, cs.take(i)).1 is Some,
    ensures
        record(s, r, cs) == record(s, r, cs.take(i)),
    decreases cs.len() - i,
{
    if i < cs.len() {
        assert(cs.take(i + 1).drop_last() =~= cs.take(i));
        lemma_record_error(s, r, cs, i + 1);
    } else {
        assert(cs.take(i) =~= cs);
    }
}

fn missing_type_record_error(t: &String) -> (res: FederationError)
    ensures
        is_internal_error(res, missing_type_record_message(t@)),
{
    proof {
        reveal_with_fuel(concat_views, 4);
    }
    let m = concat_strs(&["Schema missing referencers for type \"", t.as_str(), "\""]);
    assert(m@ =~= missing_type_record_message(t@));
    FederationError::internal(m)
}

/// Records the location of `c` under what it references (see [`record_step`]).
fn record_check(r: &mut Referencers, schema: &Schema, c: &Check) -> (res: Result<(), FederationError>)
    ensures
        match record_step(*schema, old(r)@, c@) {
            Ok(n) => res is Ok && final(r)@ == n,
            Err(m) => res matches Err(e) && is_internal_error(e, m) && final(r)@ == old(r)@,
        },
{
    match c {
        Check::Reference(loc, Target::Type(t, u)) => if *u == TypeUse::Implements || *u == TypeUse::Member
            || *u == TypeUse::Root {
            apply_check(r, c)
        } else {
            match kind_of_type_exec(schema, t) {
                Some(k) => if allows(*u, k) {
                    match find_type_entry(r, t) {
                        Some(j) => {
                            proof {
                                lemma_type_entry(r@.types, t@);
                            }
                            if r.types[j].kind == k {
                                record_type_reference(r, j, loc);
                                assert(r@ =~= record_step(*schema, old(r)@, c@)->Ok_0);
                                Ok(())
                            } else {
                                Err(missing_type_record_error(t))
                            }
                        },
                        None => Err(missing_type_record_error(t)),
                    }
                } else {
                    Err(type_error(loc, t, *u))
                },
                None => Err(type_error(loc, t, *u)),
            }
        },
        _ => apply_check(r, c),
    }
}

/// Records the references of the checks `checks` of an element that comes into `schema`
/// (see [`record`]).
fn record_checks(r: &mut Referencers, schema: &Schema, checks: &Vec<Check>) -> (res: Result<(), FederationError>)
    ensures
        final(r)@ == record(*schema, old(r)@, checks_view(checks@)).0,
        match record(*schema, old(r)@, checks_view(checks@)).1 {
            Some(m) => res matches Err(err) && is_internal_error(err, m),
            None => res is Ok,
        },
{
    let ghost cv = checks_view(checks@);
    let ghost r0 = r@;
    let mut i: usize = 0;
    proof {
        assert(cv.take(0) =~= Seq::<CheckView>::empty());
    }
    while i < checks.len()
        invariant
            i <= checks@.len(),
            cv == checks_view(checks@),
            r0 == old(r)@,
            record(*schema, r0, cv.take(i as int)) == (r@, None::<Seq<char>>),
        decreases checks@.len() - i,
    {
        proof {
            assert(cv.take(i + 1).drop_last() =~= cv.take(i as int));
            assert(cv.take(i + 1).last() == checks@[i as int]@);
        }
        match record_check(r, schema, &checks[i]) {
            Ok(()) => {},
            Err(e) => {
                proof {
                    lemma_record_error(*schema, r0, cv, i + 1);
                }
                return Err(e);
            },
        }
        i = i + 1;
    }
    proof {
        assert(cv.take(cv.len() as int) =~= cv);
    }
    Ok(())
}

/// Whether the type `b` is the object or interface type `a` with the interface `name` added
/// last to those it implements.
pub open spec fn implements_pushed(a: ExtendedType, b: ExtendedType, name: String) -> bool {
    match (a, b) {
        (
            ExtendedType::Object { name: n1, implements_interfaces: i1, directives: d1, fields: f1 },
            ExtendedType::Object { name: n2, implements_interfaces: i2, directives: d2, fields: f2 },
        ) => n1 == n2 && d1 == d2 && f1 == f2 && i2@ == i1@.push(name),
        (
            ExtendedType::Interface { name: n1, implements_interfaces: i1, directives: d1, fields: f1 },
            ExtendedType::Interface { name: n2, implements_interfaces: i2, directives: d2, fields: f2 },
        ) => n1 == n2 && d1 == d2 && f1 == f2 && i2@ == i1@.push(name),
        _ => false,
    }
}

/// Whether `new` differs from `old` at most in its type `i` (its schema definition, directive
/// definitions, other types, links and referencers unchanged).
pub open spec fn only_type_changed(old: FederationSchema, new: FederationSchema, i: int) -> bool {
    let os = old.spec_schema();
    let ns = new.spec_schema();
    &&& ns.schema_definition == os.schema_definition
    &&& ns.directive_definitions == os.directive_definitions
    &&& ns.types@.len() == os.types@.len()
    &&& forall|m: int| 0 <= m < os.types@.len() && m != i ==> ns.types@[m] == os.types@[m]
    &&& new.spec_metadata() == old.spec_metadata()
    &&& new.spec_referencers() == old.spec_referencers()
}

/// Whether the type `b` is the type `a` (an object or interface type) with the field `f`
/// added last.
pub open spec fn field_pushed(a: ExtendedType, b: ExtendedType, f: FieldDefinition) -> bool {
    match (a, b) {
        (
            ExtendedType::Object { name: n1, implements_interfaces: i1, directives: d1, fields: f1 },
            ExtendedType::Object { name: n2, implements_interfaces: i2, directives: d2, fields: f2 },
        ) => n1 == n2 && i1 == i2 && d1 == d2 && f2@ == f1@.push(f),
        (
            ExtendedType::Interface { name: n1, implements_interfaces: i1, directives: d1, fields: f1 },
            ExtendedType::Interface { name: n2, implements_interfaces: i2, directives: d2, fields: f2 },
        ) => n1 == n2 && i1 == i2 && d1 == d2 && f2@ == f1@.push(f),
        _ => false,
    }
}

/// Whether the type `b` is the input object type `a` with the input field `f` added last.
pub open spec fn input_field_pushed(a: ExtendedType, b: ExtendedType, f: InputValueDefinition) -> bool {
    match (a, b) {
        (
            ExtendedType::InputObject { name: n1, directives: d1, input_fields: f1 },
            ExtendedType::InputObject { name: n2, directives: d2, input_fields: f2 },
        ) => n1 == n2 && d1 == d2 && f2@ == f1@.push(f),
        _ => false,
    }
}

/// Whether the type `b` is the enum type `a` with the value `v` added last.
pub open spec fn value_pushed(a: ExtendedType, b: ExtendedType, v: EnumValueDefinition) -> bool {
    match (a, b) {
        (
            ExtendedType::Enum { name: n1, directives: d1, values: v1 },
            ExtendedType::Enum { name: n2, directives: d2, values: v2 },
        ) => n1 == n2 && d1 == d2 && v2@ == v1@.push(v),
        _ => false,
    }
}

/// Whether the type `b` is the type `a` (an object or interface type) with the argument `x`
/// added last to its field `j`.
pub open spec fn field_argument_pushed(a: ExtendedType, b: ExtendedType, j: int, x: InputValueDefinition) -> bool {
    match (a, b) {
        (
            ExtendedType::Object { name: n1, implements_interfaces: i1, directives: d1, fields: f1 },
            ExtendedType::Object { name: n2, implements_interfaces: i2, directives: d2, fields: f2 },
        ) => n1 == n2 && i1 == i2 && d1 == d2 && same_but(
            f1@,
            f2@,
            j,
            |p: FieldDefinition, q: FieldDefinition| q.name == p.name && q.ty == p.ty && q.directives == p.directives
                && q.arguments@ == p.arguments@.push(x),
        ),
        (
            ExtendedType::Interface { name: n1, implements_interfaces: i1, directives: d1, fields: f1 },
            ExtendedType::Interface { name: n2, implements_interfaces: i2, directives: d2, fields: f2 },
        ) => n1 == n2 && i1 == i2 && d1 == d2 && same_but(
            f1@,
            f2@,
            j,
            |p: FieldDefinition, q: FieldDefinition| q.name == p.name && q.ty == p.ty && q.directives == p.directives
                && q.arguments@ == p.arguments@.push(x),
        ),
        _ => false,
    }
}

impl FederationSchema {
    /// Records the references of the checks `checks` of an element that comes into the schema
    /// (see [`record`]); the schema itself is unchanged.
    pub(crate) fn record_references(&mut self, checks: &Vec<Check>) -> (res: Result<(), FederationError>)
        ensures
            final(self).spec_schema() == old(self).spec_schema(),
            final(self).spec_metadata() == old(self).spec_metadata(),
            final(self).spec_referencers() == record(old(self).spec_schema(), old(self).spec_referencers(), checks_view(checks@)).0,
            match record(old(self).spec_schema(), old(self).spec_referencers(), checks_view(checks@)).1 {
                Some(m) => res matches Err(e) && is_internal_error(e, m),
                None => res is Ok,
            },
    {
        record_checks(&mut self.referencers, &self.schema, checks)
    }

    /// Adds the field `f` last to the type `i`, an object or interface type.
    pub(crate) fn push_field(&mut self, i: usize, f: FieldDefinition)
        requires
            i < old(self).spec_schema().types@.len(),
            old(self).spec_schema().types@[i as int] is Object || old(self).spec_schema().types@[i as int] is Interface,
        ensures
            only_type_changed(*old(self), *final(self), i as int),
            field_pushed(old(self).spec_schema().types@[i as int], final(self).spec_schema().types@[i as int], f),
    {
        let ghost old_types = self.schema.types@;
        let mut t = self.schema.types.remove(i);
        match &mut t {
            ExtendedType::Object { fields, .. } => fields.push(f),
            ExtendedType::Interface { fields, .. } => fields.push(f),
            _ => {},
        }
        self.schema.types.insert(i, t);
        proof {
            assert(self.schema.types@ =~= old_types.update(i as int, t));
        }
    }

    /// Adds the interface `name` last to those that the type `i` (an object or interface type)
    /// implements.
    pub(crate) fn push_implements(&mut self, i: usize, name: String)
        requires
            i < old(self).spec_schema().types@.len(),
            old(self).spec_schema().types@[i as int] is Object || old(self).spec_schema().types@[i as int] is Interface,
        ensures
            only_type_changed(*old(self), *final(self), i as int),
            implements_pushed(old(self).spec_schema().types@[i as int], final(self).spec_schema().types@[i as int], name),
    {
        let ghost old_types = self.schema.types@;
        let mut t = self.schema.types.remove(i);
        match &mut t {
            ExtendedType::Object { implements_interfaces, .. } => implements_interfaces.push(name),
            ExtendedType::Interface { implements_interfaces, .. } => implements_interfaces.push(name),
            _ => {},
        }
        self.schema.types.insert(i, t);
        proof {
            assert(self.schema.types@ =~= old_types.update(i as int, t));
        }
    }

    /// Adds the input field `f` last to the type `i`, an input object type.
    pub(crate) fn push_input_field(&mut self, i: usize, f: InputValueDefinition)
        requires
            i < old(self).spec_schema().types@.len(),
            old(self).spec_schema().types@[i as int] is InputObject,
        ensures
            only_type_changed(*old(self), *final(self), i as int),
            input_field_pushed(old(self).spec_schema().types@[i as int], final(self).spec_schema().types@[i as int], f),
    {
        let ghost old_types = self.schema.types@;
        let mut t = self.schema.types.remove(i);
        match &mut t {
            ExtendedType::InputObject { input_fields, .. } => input_fields.push(f),
            _ => {},
        }
        self.schema.types.insert(i, t);
        proof {
            assert(self.schema.types@ =~= old_types.update(i as int, t));
        }
    }

    /// Adds the value `v` last to the type `i`, an enum type.
    pub(crate) fn push_value(&mut self, i: usize, v: EnumValueDefinition)
        requires
            i < old(self).spec_schema().types@.len(),
            old(self).spec_schema().types@[i as int] is Enum,
        ensures
            only_type_changed(*old(self), *final(self), i as int),
            value_pushed(old(self).spec_schema().types@[i as int], final(self).spec_schema().types@[i as int], v),
    {
        let ghost old_types = self.schema.types@;
        let mut t = self.schema.types.remove(i);
        match &mut t {
            ExtendedType::Enum { values, .. } => values.push(v),
            _ => {},
        }
        self.schema.types.insert(i, t);
        proof {
            assert(self.schema.types@ =~= old_types.update(i as int, t));
        }
    }

    /// Adds the argument `x` last to the field `j` of the type `i`, an object or interface
    /// type.
    pub(crate) fn push_field_argument(&mut self, i: usize, j: usize, x: InputValueDefinition)
        requires
            i < old(self).spec_schema().types@.len(),
            old(self).spec_schema().types@[i as int] is Object || old(self).spec_schema().types@[i as int] is Interface,
            j < child_count(old(self).spec_schema().types@[i as int]),
        ensures
            only_type_changed(*old(self), *final(self), i as int),
            field_argument_pushed(old(self).spec_schema().types@[i as int], final(self).spec_schema().types@[i as int], j as int, x),
    {
        let ghost old_types = self.schema.types@;
        let mut t = self.schema.types.remove(i);
        match &mut t {
            ExtendedType::Object { fields, .. } => {
                let ghost old_fields = fields@;
                let mut f = fields.remove(j);
                f.arguments.push(x);
                fields.insert(j, f);
                proof {
                    assert(fields@ =~= old_fields.update(j as int, f));
                }
            },
            ExtendedType::Interface { fields, .. } => {
                let ghost old_fields = fields@;
                let mut f = fields.remove(j);
                f.arguments.push(x);
                fields.insert(j, f);
                proof {
                    assert(fields@ =~= old_fields.update(j as int, f));
                }
            },
            _ => {},
        }
        self.schema.types.insert(i, t);
        proof {
            assert(self.schema.types@ =~= old_types.update(i as int, t));
        }
    }

    /// Adds the argument `x` last to the directive definition `i`.
    pub(crate) fn push_directive_argument(&mut self, i: usize, x: InputValueDefinition)
        requires
            i < old(self).spec_schema().directive_definitions@.len(),
        ensures
            final(self).spec_schema().schema_definition == old(self).spec_schema().schema_definition,
            final(self).spec_schema().types == old(self).spec_schema().types,
            final(self).spec_schema().directive_definitions@ == old(self).spec_schema().directive_definitions@.update(
                i as int,
                final(self).spec_schema().directive_definitions@[i as int],
            ),
            final(self).spec_schema().directive_definitions@[i as int].name == old(self).spec_schema().directive_definitions@[i as int].name,
            final(self).spec_schema().directive_definitions@[i as int].repeatable == old(self).spec_schema().directive_definitions@[i as int].repeatable,
            final(self).spec_schema().directive_definitions@[i as int].locations == old(self).spec_schema().directive_definitions@[i as int].locations,
            final(self).spec_schema().directive_definitions@[i as int].arguments@ == old(self).spec_schema().directive_definitions@[i as int].arguments@.push(x),
            final(self).spec_metadata() == old(self).spec_metadata(),
            final(self).spec_referencers() == old(self).spec_referencers(),
    {
        let ghost old_defs = self.schema.directive_definitions@;
        let mut d = self.schema.directive_definitions.remove(i);
        d.arguments.push(x);
        self.schema.directive_definitions.insert(i, d);
        proof {
            assert(self.schema.directive_definitions@ =~= old_defs.update(i as int, d));
        }
    }

    /// Sets the root of kind `k` to the type `t`.
    pub(crate) fn set_root(&mut self, k: SchemaRootDefinitionKind, t: String)
        ensures
            root_type_of(final(self).spec_schema().schema_definition, k) == Some(t),
            forall|o: SchemaRootDefinitionKind| o != k ==> root_type_of(final(self).spec_schema().schema_definition, o)
                == root_type_of(old(self).spec_schema().schema_definition, o),
            final(self).spec_schema().schema_definition.directives == old(self).spec_schema().schema_definition.directives,
            final(self).spec_schema().types == old(self).spec_schema().types,
            final(self).spec_schema().directive_definitions == old(self).spec_schema().directive_definitions,
            final(self).spec_metadata() == old(self).spec_metadata(),
            final(self).spec_referencers() == old(self).spec_referencers(),
    {
        match k {
            SchemaRootDefinitionKind::Query => self.schema.schema_definition.query = Some(t),
            SchemaRootDefinitionKind::Mutation => self.schema.schema_definition.mutation = Some(t),
            SchemaRootDefinitionKind::Subscription => self.schema.schema_definition.subscription = Some(t),
        }
    }

    /// Adds the type `t` last to the schema.
    pub(crate) fn push_type(&mut self, t: ExtendedType)
        ensures
            final(self).spec_schema().types@ == old(self).spec_schema().types@.push(t),
            final(self).spec_schema().schema_definition == old(self).spec_schema().schema_definition,
            final(self).spec_schema().directive_definitions == old(self).spec_schema().directive_definitions,
            final(self).spec_metadata() == old(self).spec_metadata(),
            final(self).spec_referencers() == old(self).spec_referencers(),
    {
        self.schema.types.push(t);
    }

    /// Adds the directive definition `d` last to the schema.
    pub(crate) fn push_directive_definition(&mut self, d: DirectiveDefinition)
        ensures
            final(self).spec_schema().directive_definitions@ == old(self).spec_schema().directive_definitions@.push(d),
            final(self).spec_schema().schema_definition == old(self).spec_schema().schema_definition,
            final(self).spec_schema().types == old(self).spec_schema().types,
            final(self).spec_metadata() == old(self).spec_metadata(),
            final(self).spec_referencers() == old(self).spec_referencers(),
    {
        self.schema.directive_definitions.push(d);
    }

    /// Adds an empty record for the type `name` of kind `k`, last.
    pub(crate) fn add_type_record(&mut self, name: String, k: TypeKind)
        ensures
            final(self).spec_referencers() == (ReferencersView {
                types: old(self).spec_referencers().types.push((name@, k, Seq::<LocationView>::empty())),
                directives: old(self).spec_referencers().directives,
            }),
            final(self).spec_schema() == old(self).spec_schema(),
            final(self).spec_metadata() == old(self).spec_metadata(),
    {
        let ghost before = self.referencers@;
        let entry = TypeReferencers { name, kind: k, referencers: Vec::new() };
        assert(locations_view(entry.referencers@) =~= Seq::<LocationView>::empty());
        assert(type_referencers_view(entry) == (name@, k, Seq::<LocationView>::empty()));
        self.referencers.types.push(entry);
        proof {
            assert(self.referencers@.types =~= before.types.push((name@, k, Seq::<LocationView>::empty())));
        }
    }

    /// Adds an empty record for the directive `name`, last.
    pub(crate) fn add_directive_record(&mut self, name: String)
        ensures
            final(self).spec_referencers() == (ReferencersView {
                types: old(self).spec_referencers().types,
                directives: old(self).spec_referencers().directives.push((name@, Seq::<LocationView>::empty())),
            }),
            final(self).spec_schema() == old(self).spec_schema(),
            final(self).spec_metadata() == old(self).spec_metadata(),
    {
        let ghost before = self.referencers@;
        let entry = DirectiveReferencers { name, referencers: Vec::new() };
        assert(locations_view(entry.referencers@) =~= Seq::<LocationView>::empty());
        assert(directive_referencers_view(entry) == (name@, Seq::<LocationView>::empty()));
        self.referencers.directives.push(entry);
        proof {
            assert(self.referencers@.directives =~= before.directives.push((name@, Seq::<LocationView>::empty())));
        }
    }

    /// Whether the schema records a type named `name`.
    pub(crate) fn has_type_record(&self, name: &String) -> (res: bool)
        ensures
            res == type_entry(self.spec_referencers().types, name@) is Some,
    {
        find_type_entry(&self.referencers, name).is_some()
    }

    /// Whether the first record of a type named `name` is of the kind `k`.
    pub(crate) fn has_type_record_of_kind(&self, name: &String, k: TypeKind) -> (res: bool)
        ensures
            res == (type_entry(self.spec_referencers().types, name@) matches Some(j) && self.spec_referencers().types[j].1 == k),
    {
        match find_type_entry(&self.referencers, name) {
            Some(j) => self.referencers.types[j].kind == k,
            None => false,
        }
    }

    /// Whether the schema records a directive named `name`.
    pub(crate) fn has_directive_record(&self, name: &String) -> (res: bool)
        ensures
            res == directive_entry(self.spec_referencers().directives, name@) is Some,
    {
        find_directive_entry(&self.referencers, name).is_some()
    }
}
} // verus!
