//! Pieces of subgraph extraction from a supergraph: the set of extracted subgraphs, and the
//! decoding of the type references that join directives carry as strings.
use crate::ast::{concat_strs, concat_views, str_eq, Argument, ArgumentView, Directive, DirectiveView, Value, ValueView};
use crate::error::{is_invalid_graphql_error, FederationError, SingleFederationError};
use crate::federation_operations::{apply_operation, apply_operations, operation_effect, operations_run, FederationSubgraph, SchemaOperation};
use crate::federation_schema::FederationSchema;
use crate::federation_spec::FederationSpecDefinitions;
use crate::join_arguments::{
    field_applications, field_applications_read, field_arguments_view, implements_arguments_read,
    implements_directive_arguments, implements_view, is_error, type_applications,
    type_applications_read, type_arguments_view, ImplementsDirectiveArguments,
};
use crate::insertion::{field_insertion, implements_insertion, root_insertion};
use crate::link::directive_name_in_schema;
use crate::position::{inserted_type_directive, locate_type, root_of, type_of_kind, InterfaceTypeDefinitionPosition, ObjectTypeDefinitionPosition};
use crate::schema::{clone_type, declared_fields, input_value_view, lemma_type_index, type_index, ExtendedType, FieldDefinition, InputValueDefinition, InputValueView, SchemaRootDefinitionKind, SchemaRootDefinitionPosition, TypeKind};
use crate::schema::{type_view, Schema, Type, TypeView};
use vstd::prelude::*;

verus! {

/// How apollo-compiler reads the type of field `field_name` of object type `object_name` in the
/// schema document `source` (parsed under `path`): `None` where the document has no such
/// field; else its list layers from the outside in (each `true` where that list is non-null),
/// whether the named type at the core is non-null, and that type's name.
pub uninterp spec fn parsed_field_type(
    source: Seq<char>,
    path: Seq<char>,
    object_name: Seq<char>,
    field_name: Seq<char>,
) -> Option<(Seq<bool>, bool, Seq<char>)>;

/// Parses `source` with `apollo_compiler::Schema::parse` and reads the type of the field
/// `field_name` of the object type `object_name`, layer by layer. The contract claims only that
/// the result is a function of the four arguments (named [`parsed_field_type`]).
#[verifier::external_body]
fn parse_object_field_type(source: &str, path: &str, object_name: &str, field_name: &str) -> (res:
    Option<(Vec<bool>, bool, String)>)
    ensures
        parsed_field_type(source@, path@, object_name@, field_name@) == match res {
            Some(r) => Some((r.0@, r.1, r.2@)),
            None => None::<(Seq<bool>, bool, Seq<char>)>,
        },
{
    let schema = apollo_compiler::Schema::parse(source, path);
    let Some(apollo_compiler::schema::ExtendedType::Object(object)) = schema.types.get(object_name) else { return None };
    let mut ty = &object.fields.get(field_name)?.ty;
    let mut lists: Vec<bool> = Vec::new();
    loop {
        match ty {
            apollo_compiler::ast::Type::Named(n) => return Some((lists, false, n.to_string())),
            apollo_compiler::ast::Type::NonNullNamed(n) => return Some((lists, true, n.to_string())),
            apollo_compiler::ast::Type::List(inner) => { lists.push(false); ty = inner; },
            apollo_compiler::ast::Type::NonNullList(inner) => { lists.push(true); ty = inner; },
        }
    }
}

/// The type with list layers `lists` (from the outside in, each `true` where that list is
/// non-null) around the named type `name`, itself non-null where `non_null` holds.
pub open spec fn type_from_parts(lists: Seq<bool>, non_null: bool, name: Seq<char>) -> TypeView
    decreases lists.len(),
{
    if lists.len() == 0 {
        if non_null {
            TypeView::NonNullNamed(name)
        } else {
            TypeView::Named(name)
        }
    } else {
        let inner = type_from_parts(lists.drop_first(), non_null, name);
        if lists[0] {
            TypeView::NonNullList(Box::new(inner))
        } else {
            TypeView::List(Box::new(inner))
        }
    }
}

/// Builds the type with list layers `lists` around the named type `name`.
pub fn type_from_parts_exec(lists: &Vec<bool>, non_null: bool, name: String) -> (res: Type)
    ensures
        type_view(&res) == type_from_parts(lists@, non_null, name@),
{
    let mut res = if non_null {
        Type::NonNullNamed(name)
    } else {
        Type::Named(name)
    };
    let mut i: usize = lists.len();
    proof {
        assert(lists@.subrange(i as int, lists@.len() as int).len() == 0);
    }
    while i > 0
        invariant
            i <= lists@.len(),
            type_view(&res) == type_from_parts(
                lists@.subrange(i as int, lists@.len() as int),
                non_null,
                name@,
            ),
        decreases i,
    {
        let ghost rest = lists@.subrange(i as int, lists@.len() as int);
        i = i - 1;
        let ghost now = lists@.subrange(i as int, lists@.len() as int);
        proof {
            assert(now.drop_first() =~= rest);
            assert(now[0] == lists@[i as int]);
        }
        if lists[i] {
            res = Type::NonNullList(Box::new(res));
        } else {
            res = Type::List(Box::new(res));
        }
    }
    proof {
        assert(lists@.subrange(0, lists@.len() as int) =~= lists@);
    }
    res
}

/// Whether `s` holds a character that would end a field or its type in a document (`}` or `:`).
pub open spec fn ends_field(s: Seq<char>) -> bool {
    exists|i: int| 0 <= i < s.len() && (s[i] == '}' || s[i] == ':')
}

/// The document in which a type reference is read: a `Query` type with one field of that type.
pub open spec fn type_document(type_text: Seq<char>) -> Seq<char> {
    "type Query { field: "@ + type_text + " }"@
}

/// The message of a type reference that cannot be read.
pub open spec fn cannot_parse_type_message(type_text: Seq<char>) -> Seq<char> {
    "Cannot parse type \""@ + type_text + "\""@
}

/// What decoding a type reference gives, from how the type of the dummy field was read.
pub open spec fn decoded_type(
    type_text: Seq<char>,
    parsed: Option<(Seq<bool>, bool, Seq<char>)>,
) -> Option<TypeView> {
    if ends_field(type_text) {
        None
    } else {
        match parsed {
            Some(p) => Some(type_from_parts(p.0, p.1, p.2)),
            None => None,
        }
    }
}

/// Whether `s` holds `}` or `:`.
fn ends_field_exec(s: &str) -> (res: bool)
    ensures
        res == ends_field(s@),
{
    let n = s.unicode_len();
    let mut i: usize = 0;
    while i < n
        invariant
            n == s@.len(),
            i <= n,
            forall|j: int| 0 <= j < i ==> s@[j] != '}' && s@[j] != ':',
        decreases n - i,
    {
        let c = s.get_char(i);
        if c == '}' || c == ':' {
            return true;
        }
        i = i + 1;
    }
    false
}

/// The error of a type reference that cannot be read.
fn cannot_parse_type(type_text: &str) -> (res: FederationError)
    ensures
        is_invalid_graphql_error(res, cannot_parse_type_message(type_text@)),
{
    let message = concat_strs(&["Cannot parse type \"", type_text, "\""]);
    proof {
        reveal_strlit("Cannot parse type \"");
        reveal_strlit("\"");
        reveal_with_fuel(concat_views, 4);
    }
    assert(message@ =~= cannot_parse_type_message(type_text@));
    FederationError::SingleFederationError(SingleFederationError::InvalidGraphQL { message })
}

/// Decodes a type reference written as a string (`"[Int!]"`), as it stands in the arguments
/// of join directives: the type of the field `field` of a `Query` type in a document made of
/// `type_text`. A text that holds `}` or `:` (it would end that field early), or one from which
/// no such field is read, is an invalid GraphQL error `Cannot parse type "<text>"`.
pub fn decode_type(type_text: &str) -> (res: Result<Type, FederationError>)
    ensures
        match decoded_type(
            type_text@,
            parsed_field_type(type_document(type_text@), "temp.graphql"@, "Query"@, "field"@),
        ) {
            Some(t) => res matches Ok(r) && type_view(&r) == t,
            None => res matches Err(e) && is_invalid_graphql_error(
                e,
                cannot_parse_type_message(type_text@),
            ),
        },
{
    if ends_field_exec(type_text) {
        return Err(cannot_parse_type(type_text));
    }
    let source = concat_strs(&["type Query { field: ", type_text, " }"]);
    proof {
        reveal_strlit("type Query { field: ");
        reveal_strlit(" }");
        reveal_with_fuel(concat_views, 4);
    }
    assert(source@ =~= type_document(type_text@));
    let parsed = parse_object_field_type(source.as_str(), "temp.graphql", "Query", "field");
    decode_parsed_type(type_text, parsed)
}

/// The rest of [`decode_type`] once the dummy document was read: the type built from the
/// parts read, or the error where none was read.
pub fn decode_parsed_type(type_text: &str, parsed: Option<(Vec<bool>, bool, String)>) -> (res:
    Result<Type, FederationError>)
    ensures
        match parsed {
            Some(p) => res matches Ok(r) && type_view(&r) == type_from_parts(p.0@, p.1, p.2@),
            None => res matches Err(e) && is_invalid_graphql_error(
                e,
                cannot_parse_type_message(type_text@),
            ),
        },
{
    match parsed {
        Some((lists, non_null, name)) => Ok(type_from_parts_exec(&lists, non_null, name)),
        None => Err(cannot_parse_type(type_text)),
    }
}

/// The subgraphs extracted from a supergraph, no two with the same name.
pub struct FederationSubgraphs {
    subgraphs: Vec<FederationSubgraph>,
}

/// Whether `e` is an invalid supergraph error with message `m`.
pub open spec fn is_invalid_supergraph_error(e: FederationError, m: Seq<char>) -> bool {
    e matches FederationError::SingleFederationError(
        SingleFederationError::InvalidFederationSupergraph { message },
    ) && message@ == m
}

/// The message of a subgraph added under a name that is taken.
pub open spec fn subgraph_exists_message(name: Seq<char>) -> Seq<char> {
    "A subgraph named \""@ + name + "\" already exists"@
}

/// Whether a subgraph of `subgraphs` is named `name`.
pub open spec fn has_subgraph_named(subgraphs: Seq<FederationSubgraph>, name: Seq<char>) -> bool {
    exists|i: int| 0 <= i < subgraphs.len() && subgraphs[i].name@ == name
}

impl View for FederationSubgraphs {
    type V = Seq<FederationSubgraph>;

    closed spec fn view(&self) -> Seq<FederationSubgraph> {
        self.subgraphs@
    }
}

impl FederationSubgraphs {
    /// No two subgraphs share a name.
    pub open spec fn wf(&self) -> bool {
        forall|i: int, j: int|
            0 <= i < self@.len() && 0 <= j < self@.len() && i != j ==> self@[i].name@
                != self@[j].name@
    }

    /// No subgraphs.
    pub fn new() -> (res: FederationSubgraphs)
        ensures
            res@ == Seq::<FederationSubgraph>::empty(),
            res.wf(),
    {
        FederationSubgraphs { subgraphs: Vec::new() }
    }

    /// The position of the subgraph named `name`, if there is one.
    fn find(&self, name: &str) -> (res: Option<usize>)
        ensures
            match res {
                Some(i) => i < self@.len() && self@[i as int].name@ == name@,
                None => !has_subgraph_named(self@, name@),
            },
    {
        let mut i: usize = 0;
        while i < self.subgraphs.len()
            invariant
                i <= self@.len(),
                self@ == self.subgraphs@,
                forall|j: int| 0 <= j < i ==> self@[j].name@ != name@,
            decreases self@.len() - i,
        {
            if str_eq(&self.subgraphs[i].name, name) {
                return Some(i);
            }
            i = i + 1;
        }
        None
    }

    /// Adds a subgraph, after the others; a subgraph of the same name already there is an
    /// invalid supergraph error `A subgraph named "<name>" already exists`, and nothing is added.
    pub fn add(&mut self, subgraph: FederationSubgraph) -> (res: Result<(), FederationError>)
        requires
            old(self).wf(),
        ensures
            final(self).wf(),
            has_subgraph_named(old(self)@, subgraph.name@) ==> {
                &&& res matches Err(e)
                &&& is_invalid_supergraph_error(e, subgraph_exists_message(subgraph.name@))
                &&& final(self)@ == old(self)@
            },
            !has_subgraph_named(old(self)@, subgraph.name@) ==> {
                &&& res is Ok
                &&& final(self)@ == old(self)@.push(subgraph)
            },
    {
        if self.find(subgraph.name.as_str()).is_some() {
            let message = concat_strs(&["A subgraph named \"", subgraph.name.as_str(), "\" already exists"]);
            proof {
                reveal_strlit("A subgraph named \"");
                reveal_strlit("\" already exists");
                reveal_with_fuel(concat_views, 4);
            }
            assert(message@ =~= subgraph_exists_message(subgraph.name@));
            return Err(
                FederationError::SingleFederationError(
                    SingleFederationError::InvalidFederationSupergraph { message },
                ),
            );
        }
        let ghost before = self@;
        self.subgraphs.push(subgraph);
        proof {
            assert(self@ == before.push(subgraph));
            assert forall|i: int, j: int|
                0 <= i < self@.len() && 0 <= j < self@.len() && i != j implies self@[i].name@
                    != self@[j].name@ by {
                if i == before.len() as int {
                    assert(before[j].name@ != subgraph.name@);
                } else if j == before.len() as int {
                    assert(before[i].name@ != subgraph.name@);
                }
            }
        }
        Ok(())
    }

    /// The subgraph named `name`, if there is one.
    pub fn get(&self, name: &str) -> (res: Option<&FederationSubgraph>)
        ensures
            match res {
                Some(s) => s.name@ == name@ && self@.contains(*s),
                None => !has_subgraph_named(self@, name@),
            },
    {
        match self.find(name) {
            Some(i) => Some(&self.subgraphs[i]),
            None => None,
        }
    }
}

/// The arguments of a `@join__type` application: the graph (subgraph) it is for, the key
/// fields, whether the type is an extension there, whether the key is resolvable, and whether
/// the type is an interface object there.
pub struct TypeDirectiveArguments {
    pub graph: String,
    pub key: Option<String>,
    pub extension: bool,
    pub resolvable: bool,
    pub is_interface_object: bool,
}

/// What extracting a type found of it: its name, and for each graph that has it (in order)
/// whether it is an interface object there.
pub struct TypeInfo {
    pub name: String,
    pub subgraph_info: Vec<(String, bool)>,
}

/// The mathematical form of the graphs of a [`TypeInfo`].
pub open spec fn info_view(info: Seq<(String, bool)>) -> Seq<(Seq<char>, bool)> {
    info.map_values(|p: (String, bool)| (p.0@, p.1))
}

/// The name of the subgraph of the graph `g`: the first entry for `g`.
pub open spec fn graph_subgraph_name(graphs: Seq<(String, String)>, g: Seq<char>) -> Option<Seq<char>>
    decreases graphs.len(),
{
    if graphs.len() == 0 {
        None
    } else if graphs[0].0@ == g {
        Some(graphs[0].1@)
    } else {
        graph_subgraph_name(graphs.drop_first(), g)
    }
}

/// The federation definitions of the graph `g`: the first entry for `g`.
pub open spec fn graph_federation(feds: Seq<(String, FederationSpecDefinitions)>, g: Seq<char>) -> Option<FederationSpecDefinitions>
    decreases feds.len(),
{
    if feds.len() == 0 {
        None
    } else if feds[0].0@ == g {
        Some(feds[0].1)
    } else {
        graph_federation(feds.drop_first(), g)
    }
}

/// The position of the first subgraph named `name`.
pub open spec fn subgraph_position(subs: Seq<FederationSubgraph>, name: Seq<char>) -> Option<int>
    decreases subs.len(),
{
    if subs.len() == 0 {
        None
    } else if subs[0].name@ == name {
        Some(0)
    } else {
        match subgraph_position(subs.drop_first(), name) {
            Some(i) => Some(i + 1),
            None => None,
        }
    }
}

/// Whether the graph `g` is among those of `info`.
pub open spec fn has_graph(info: Seq<(Seq<char>, bool)>, g: Seq<char>) -> bool {
    exists|m: int| 0 <= m < info.len() && (#[trigger] info[m]).0 == g
}

/// The key directive of the federation specification `fed` on the fields `key`.
pub open spec fn key_directive_view(fed: FederationSpecDefinitions, key: Seq<char>, resolvable: bool) -> DirectiveView {
    DirectiveView {
        name: directive_name_in_schema(fed.link, "key"@),
        arguments: seq![
            ArgumentView { name: "fields"@, value: ValueView::String(key) },
            ArgumentView { name: "resolvable"@, value: ValueView::Boolean(resolvable) },
        ],
    }
}

/// The interface object directive of the federation specification `fed`.
pub open spec fn interface_object_view(fed: FederationSpecDefinitions) -> DirectiveView {
    DirectiveView { name: directive_name_in_schema(fed.link, "interfaceObject"@), arguments: Seq::empty() }
}

pub open spec fn missing_join_type_message(t: Seq<char>) -> Seq<char> {
    "Missing @join__type on \""@ + t + "\""@
}

pub open spec fn invalid_graph_message(g: Seq<char>) -> Seq<char> {
    "Invalid graph enum_value \""@ + g + "\": does not match an enum value defined in the @join__Graph enum"@
}

pub open spec fn subgraph_not_created_message() -> Seq<char> {
    "All subgraphs should have been created by \"collect_empty_subgraphs()\""@
}

pub open spec fn missing_federation_message(g: Seq<char>) -> Seq<char> {
    "Missing federation spec info for subgraph enum value \""@ + g + "\""@
}

pub open spec fn type_missing_in_subgraph_message(t: Seq<char>) -> Seq<char> {
    "Missing type \""@ + t + "\" from subgraph despite it being in type_info"@
}

pub open spec fn scalar_type_message() -> Seq<char> {
    "\"add_empty_type()\" shouldn't be called for scalars"@
}

/// Whether `r` is an internal error with message `m`.
pub open spec fn internal_result(r: Result<(), FederationError>, m: Seq<char>) -> bool {
    r matches Err(e) && crate::error::is_internal_error(e, m)
}

/// Whether `ty` is an empty type named `t` of kind `k`: no interfaces, members, fields or values,
/// and no directive applications but, where `interface_object`, the interface object directive
/// of `fed`.
pub open spec fn empty_type_of(ty: ExtendedType, t: Seq<char>, k: TypeKind, interface_object: bool, fed: FederationSpecDefinitions) -> bool {
    &&& ty.spec_name() == t
    &&& ty.spec_kind() == k
    &&& match ty {
        ExtendedType::Object { implements_interfaces, directives, fields, .. } => implements_interfaces@.len() == 0
            && fields@.len() == 0 && if interface_object {
            directives@.len() == 1 && directives@[0]@ == interface_object_view(fed)
        } else {
            directives@.len() == 0
        },
        ExtendedType::Interface { implements_interfaces, directives, fields, .. } => implements_interfaces@.len() == 0
            && directives@.len() == 0 && fields@.len() == 0,
        ExtendedType::Union { directives, members, .. } => directives@.len() == 0 && members@.len() == 0,
        ExtendedType::Enum { directives, values, .. } => directives@.len() == 0 && values@.len() == 0,
        ExtendedType::InputObject { directives, input_fields, .. } => directives@.len() == 0 && input_fields@.len() == 0,
        ExtendedType::Scalar { .. } => false,
    }
}

/// The root kind that a type named `t` stands for by its name (`Query`, `Mutation`,
/// `Subscription`), if any.
pub open spec fn root_kind_named(t: Seq<char>) -> Option<SchemaRootDefinitionKind> {
    if t == "Query"@ {
        Some(SchemaRootDefinitionKind::Query)
    } else if t == "Mutation"@ {
        Some(SchemaRootDefinitionKind::Mutation)
    } else if t == "Subscription"@ {
        Some(SchemaRootDefinitionKind::Subscription)
    } else {
        None
    }
}

/// Whether `new` is the subgraph schema `old` after adding to it, for the first application
/// of its graph, the empty type `t` of kind `kind` (an object type with the interface object
/// directive where it is an interface that is an interface object there): made room for and
/// inserted; then, for an object type named as a root, made that root where there is none.
/// A scalar is an internal error.
pub open spec fn new_type_added(
    old: FederationSchema,
    new: FederationSchema,
    t: Seq<char>,
    kind: TypeKind,
    interface_object: bool,
    fed: FederationSpecDefinitions,
    r: Result<(), FederationError>,
) -> bool {
    if kind == TypeKind::Scalar {
        internal_result(r, scalar_type_message()) && new == old
    } else {
        let io = kind == TypeKind::Interface && interface_object;
        let k = if io { TypeKind::Object } else { kind };
        exists|ops: Seq<SchemaOperation>, mid: FederationSchema, r1: Result<(), FederationError>|
            #![trigger operations_run(old, mid, ops, r1)]
            {
                &&& ops.len() == 2
                &&& ops[0] matches SchemaOperation::PreInsertType(n, k0) && n@ == t && k0 == k
                &&& ops[1] matches SchemaOperation::InsertType(ty) && empty_type_of(ty, t, k, io, fed)
                &&& operations_run(old, mid, ops, r1)
                &&& match r1 {
                    Err(e) => r == Err::<(), FederationError>(e) && new == mid,
                    Ok(()) => if kind == TypeKind::Object && root_kind_named(t) is Some && root_of(
                        mid.spec_schema(),
                        root_kind_named(t)->Some_0,
                    ) is None {
                        root_insertion(mid, new, root_kind_named(t)->Some_0, t, r)
                    } else {
                        r is Ok && new == mid
                    },
                }
            }
    }
}

/// Whether `new` is the subgraph schema `old` after applying, for a further application of
/// its graph, the key directive of `fed` on `key` (where there is one) to its type `t`; the
/// type missing there, or a scalar, is an internal error.
pub open spec fn key_added(
    old: FederationSchema,
    new: FederationSchema,
    t: Seq<char>,
    key: Option<Seq<char>>,
    resolvable: bool,
    fed: FederationSpecDefinitions,
    r: Result<(), FederationError>,
) -> bool {
    match key {
        None => r is Ok && new == old,
        Some(fields) => match type_index(old.spec_schema().types@, t) {
            None => internal_result(r, type_missing_in_subgraph_message(t)) && new == old,
            Some(i) => {
                let k = old.spec_schema().types@[i].spec_kind();
                if k == TypeKind::Scalar {
                    internal_result(r, scalar_type_message()) && new == old
                } else {
                    exists|d: Directive| #![trigger inserted_type_directive(old, new, t, k, d, r)]
                        d@ == key_directive_view(fed, fields, resolvable) && inserted_type_directive(old, new, t, k, d, r)
                }
            },
        },
    }
}

/// Whether `subs2` and `info2` are `subs` and `info` after handling the `@join__type`
/// application `app` of the type `t` of kind `kind`, `r` the outcome: its graph's subgraph
/// and federation definitions looked up (an internal error where there are none); then, where
/// the graph was handled before, the key added (see [`key_added`]); else the empty type
/// added (see [`new_type_added`]) and the graph recorded, with whether the type is an
/// interface object there.
pub open spec fn empty_type_step(
    t: Seq<char>,
    kind: TypeKind,
    app: TypeDirectiveArguments,
    graphs: Seq<(String, String)>,
    feds: Seq<(String, FederationSpecDefinitions)>,
    subs: Seq<FederationSubgraph>,
    info: Seq<(Seq<char>, bool)>,
    subs2: Seq<FederationSubgraph>,
    info2: Seq<(Seq<char>, bool)>,
    r: Result<(), FederationError>,
) -> bool {
    let g = app.graph@;
    match graph_subgraph_name(graphs, g) {
        None => internal_result(r, invalid_graph_message(g)) && subs2 == subs && info2 == info,
        Some(name) => match subgraph_position(subs, name) {
            None => internal_result(r, subgraph_not_created_message()) && subs2 == subs && info2 == info,
            Some(i) => match graph_federation(feds, g) {
                None => internal_result(r, missing_federation_message(g)) && subs2 == subs && info2 == info,
                Some(fed) => {
                    &&& subs2.len() == subs.len()
                    &&& forall|m: int| 0 <= m < subs.len() && m != i ==> subs2[m] == subs[m]
                    &&& subs2[i].name == subs[i].name
                    &&& subs2[i].url == subs[i].url
                    &&& if has_graph(info, g) {
                        &&& info2 == info
                        &&& key_added(subs[i].schema, subs2[i].schema, t, match app.key {
                            Some(k) => Some(k@),
                            None => None,
                        }, app.resolvable, fed, r)
                    } else {
                        &&& new_type_added(subs[i].schema, subs2[i].schema, t, kind, app.is_interface_object, fed, r)
                        &&& info2 == if r is Ok {
                            info.push((g, kind == TypeKind::Interface && app.is_interface_object))
                        } else {
                            info
                        }
                    }
                },
            },
        },
    }
}

fn find_graph_subgraph<'a>(graphs: &'a Vec<(String, String)>, g: &String) -> (res: Option<&'a String>)
    ensures
        match graph_subgraph_name(graphs@, g@) {
            Some(n) => res matches Some(s) && s@ == n,
            None => res is None,
        },
{
    let mut i: usize = 0;
    assert(graphs@.skip(0) =~= graphs@);
    while i < graphs.len()
        invariant
            i <= graphs@.len(),
            graph_subgraph_name(graphs@, g@) == graph_subgraph_name(graphs@.skip(i as int), g@),
        decreases graphs@.len() - i,
    {
        assert(graphs@.skip(i as int)[0] == graphs@[i as int]);
        if graphs[i].0 == *g {
            return Some(&graphs[i].1);
        }
        assert(graphs@.skip(i as int).drop_first() =~= graphs@.skip(i + 1));
        i = i + 1;
    }
    assert(graphs@.skip(i as int).len() == 0);
    None
}

fn find_graph_federation<'a>(feds: &'a Vec<(String, FederationSpecDefinitions)>, g: &String) -> (res: Option<&'a FederationSpecDefinitions>)
    ensures
        match graph_federation(feds@, g@) {
            Some(f) => res == Some(&f),
            None => res is None,
        },
{
    let mut i: usize = 0;
    assert(feds@.skip(0) =~= feds@);
    while i < feds.len()
        invariant
            i <= feds@.len(),
            graph_federation(feds@, g@) == graph_federation(feds@.skip(i as int), g@),
        decreases feds@.len() - i,
    {
        assert(feds@.skip(i as int)[0] == feds@[i as int]);
        if feds[i].0 == *g {
            return Some(&feds[i].1);
        }
        assert(feds@.skip(i as int).drop_first() =~= feds@.skip(i + 1));
        i = i + 1;
    }
    assert(feds@.skip(i as int).len() == 0);
    None
}

fn info_has_graph(info: &Vec<(String, bool)>, g: &String) -> (res: bool)
    ensures
        res == has_graph(info_view(info@), g@),
{
    let mut i: usize = 0;
    while i < info.len()
        invariant
            i <= info@.len(),
            forall|m: int| 0 <= m < i ==> (#[trigger] info_view(info@)[m]).0 != g@,
        decreases info@.len() - i,
    {
        if info[i].0 == *g {
            assert(info_view(info@)[i as int].0 == g@);
            return true;
        }
        i = i + 1;
    }
    false
}

/// The key directive of `fed` on the fields `key`.
fn key_directive(fed: &FederationSpecDefinitions, key: &String, resolvable: bool) -> (res: Directive)
    ensures
        res@ == key_directive_view(*fed, key@, resolvable),
{
    let name = fed.namespaced_type_name("key", true);
    let mut arguments: Vec<Argument> = Vec::new();
    arguments.push(Argument { name: String::from_str("fields"), value: Value::String(key.clone()) });
    arguments.push(Argument { name: String::from_str("resolvable"), value: Value::Boolean(resolvable) });
    let d = Directive { name, arguments };
    proof {
        reveal_strlit("key");
        assert(crate::ast::arguments_view(d.arguments@) =~= key_directive_view(*fed, key@, resolvable).arguments);
    }
    d
}

/// The interface object directive of `fed`.
fn interface_object_directive(fed: &FederationSpecDefinitions) -> (res: Directive)
    ensures
        res@ == interface_object_view(*fed),
{
    let d = Directive { name: fed.namespaced_type_name("interfaceObject", true), arguments: Vec::new() };
    proof {
        assert(crate::ast::arguments_view(d.arguments@) =~= Seq::<ArgumentView>::empty());
    }
    d
}

/// The empty type `t` of kind `k` (see [`empty_type_of`]).
fn empty_type(t: &String, k: TypeKind, interface_object: bool, fed: &FederationSpecDefinitions) -> (res: ExtendedType)
    requires
        k != TypeKind::Scalar,
        interface_object ==> k == TypeKind::Object,
    ensures
        empty_type_of(res, t@, k, interface_object, *fed),
{
    match k {
        TypeKind::Object => {
            let mut directives: Vec<Directive> = Vec::new();
            if interface_object {
                directives.push(interface_object_directive(fed));
            }
            ExtendedType::Object { name: t.clone(), implements_interfaces: Vec::new(), directives, fields: Vec::new() }
        },
        TypeKind::Interface => ExtendedType::Interface {
            name: t.clone(),
            implements_interfaces: Vec::new(),
            directives: Vec::new(),
            fields: Vec::new(),
        },
        TypeKind::Union => ExtendedType::Union { name: t.clone(), directives: Vec::new(), members: Vec::new() },
        TypeKind::Enum => ExtendedType::Enum { name: t.clone(), directives: Vec::new(), values: Vec::new() },
        _ => ExtendedType::InputObject { name: t.clone(), directives: Vec::new(), input_fields: Vec::new() },
    }
}

/// The root kind that the name `t` stands for, if any (see [`root_kind_named`]).
fn root_kind_of_name(t: &String) -> (res: Option<SchemaRootDefinitionKind>)
    ensures
        res == root_kind_named(t@),
{
    proof {
        reveal_strlit("Query");
        reveal_strlit("Mutation");
        reveal_strlit("Subscription");
    }
    if str_eq(t, "Query") {
        Some(SchemaRootDefinitionKind::Query)
    } else if str_eq(t, "Mutation") {
        Some(SchemaRootDefinitionKind::Mutation)
    } else if str_eq(t, "Subscription") {
        Some(SchemaRootDefinitionKind::Subscription)
    } else {
        None
    }
}

/// Adds to the subgraph schema the empty type `t` (see [`new_type_added`]).
fn add_new_type(schema: &mut FederationSchema, t: &String, kind: TypeKind, interface_object: bool, fed: &FederationSpecDefinitions) -> (res: Result<(), FederationError>)
    ensures
        new_type_added(*old(schema), *final(schema), t@, kind, interface_object, *fed, res),
{
    if let TypeKind::Scalar = kind {
        let m = String::from_str("\"add_empty_type()\" shouldn't be called for scalars");
        proof {
            reveal_strlit("\"add_empty_type()\" shouldn't be called for scalars");
        }
        return Err(FederationError::internal(m));
    }
    let io = matches!(kind, TypeKind::Interface) && interface_object;
    let k = if io { TypeKind::Object } else { kind };
    let ty = empty_type(t, k, io, fed);
    let mut ops: Vec<SchemaOperation> = Vec::new();
    ops.push(SchemaOperation::PreInsertType(t.clone(), k));
    ops.push(SchemaOperation::InsertType(ty));
    let ghost gops = ops@;
    let ghost start = *schema;
    let r1 = apply_operations(schema, ops);
    let ghost mid = *schema;
    match r1 {
        Err(e) => {
            assert(operations_run(start, mid, gops, r1));
            return Err(e);
        },
        Ok(()) => {},
    }
    assert(operations_run(start, mid, gops, r1));
    if let TypeKind::Object = kind {
        if let Some(rk) = root_kind_of_name(t) {
            let position = SchemaRootDefinitionPosition { root_kind: rk };
            if position.try_get(schema.schema()).is_none() {
                return position.insert(schema, t.clone());
            }
        }
    }
    Ok(())
}

/// Applies to the type `t` of the subgraph schema the key directive of `fed` (see
/// [`key_added`]).
fn add_key(schema: &mut FederationSchema, t: &String, key: &Option<String>, resolvable: bool, fed: &FederationSpecDefinitions) -> (res: Result<(), FederationError>)
    ensures
        key_added(*old(schema), *final(schema), t@, match key {
            Some(k) => Some(k@),
            None => None,
        }, resolvable, *fed, res),
{
    match key {
        None => Ok(()),
        Some(fields) => {
            proof {
                lemma_type_index(schema.spec_schema().types@, t@);
            }
            let k = match schema.schema().get_type(t.as_str()) {
                Some(ty) => ty.kind(),
                None => {
                    proof {
                        reveal_with_fuel(concat_views, 4);
                    }
                    let m = concat_strs(&["Missing type \"", t.as_str(), "\" from subgraph despite it being in type_info"]);
                    assert(m@ =~= type_missing_in_subgraph_message(t@));
                    return Err(FederationError::internal(m));
                },
            };
            if let TypeKind::Scalar = k {
                let m = String::from_str("\"add_empty_type()\" shouldn't be called for scalars");
                proof {
                    reveal_strlit("\"add_empty_type()\" shouldn't be called for scalars");
                }
                return Err(FederationError::internal(m));
            }
            let d = key_directive(fed, fields, resolvable);
            let ghost gd = d;
            let ghost start = *schema;
            let r = apply_operation(schema, SchemaOperation::InsertTypeDirective(t.clone(), k, d));
            proof {
                reveal(operation_effect);
                assert(inserted_type_directive(start, *schema, t@, k, gd, r));
            }
            r
        },
    }
}

proof fn lemma_subgraph_position(subs: Seq<FederationSubgraph>, name: Seq<char>)
    ensures
        match subgraph_position(subs, name) {
            Some(i) => 0 <= i < subs.len() && subs[i].name@ == name,
            None => !has_subgraph_named(subs, name),
        },
    decreases subs.len(),
{
    if subs.len() > 0 {
        lemma_subgraph_position(subs.drop_first(), name);
        assert forall|j: int| 0 < j < subs.len() implies subs[j] == subs.drop_first()[j - 1] by {}
        if subgraph_position(subs, name) is None {
            assert forall|j: int| 0 <= j < subs.len() implies subs[j].name@ != name by {
                if j > 0 {
                    assert(subs[j] == subs.drop_first()[j - 1]);
                }
            }
        }
    }
}

fn internal_error_with(m: String) -> (res: Result<(), FederationError>)
    ensures
        internal_result(res, m@),
{
    Err(FederationError::internal(m))
}

impl FederationSubgraphs {
    /// Handles one `@join__type` application of the type `t` of kind `kind` (see
    /// [`empty_type_step`]).
    fn add_empty_type_for(
        &mut self,
        t: &String,
        kind: TypeKind,
        app: &TypeDirectiveArguments,
        info: &mut Vec<(String, bool)>,
        graphs: &Vec<(String, String)>,
        feds: &Vec<(String, FederationSpecDefinitions)>,
    ) -> (res: Result<(), FederationError>)
        requires
            old(self).wf(),
        ensures
            final(self).wf(),
            empty_type_step(t@, kind, *app, graphs@, feds@, old(self)@, info_view(old(info)@), final(self)@, info_view(final(info)@), res),
    {
        let name = match find_graph_subgraph(graphs, &app.graph) {
            Some(n) => n,
            None => {
                proof {
                    reveal_with_fuel(concat_views, 4);
                }
                let m = concat_strs(&["Invalid graph enum_value \"", app.graph.as_str(), "\": does not match an enum value defined in the @join__Graph enum"]);
                assert(m@ =~= invalid_graph_message(app.graph@));
                return internal_error_with(m);
            },
        };
        proof {
            lemma_subgraph_position(self@, name@);
        }
        let i = match self.find(name.as_str()) {
            Some(i) => i,
            None => {
                let m = String::from_str("All subgraphs should have been created by \"collect_empty_subgraphs()\"");
                proof {
                    reveal_strlit("All subgraphs should have been created by \"collect_empty_subgraphs()\"");
                }
                return internal_error_with(m);
            },
        };
        assert(subgraph_position(self@, name@) == Some(i as int)) by {
            let p = subgraph_position(self@, name@)->Some_0;
            if p != i as int {
                assert(self@[p].name@ != self@[i as int].name@);
            }
        }
        let fed = match find_graph_federation(feds, &app.graph) {
            Some(f) => f,
            None => {
                proof {
                    reveal_with_fuel(concat_views, 4);
                }
                let m = concat_strs(&["Missing federation spec info for subgraph enum value \"", app.graph.as_str(), "\""]);
                assert(m@ =~= missing_federation_message(app.graph@));
                return internal_error_with(m);
            },
        };
        let seen = info_has_graph(info, &app.graph);
        let ghost before = self@;
        let mut sg = self.subgraphs.remove(i);
        let r = if seen {
            add_key(&mut sg.schema, t, &app.key, app.resolvable, fed)
        } else {
            add_new_type(&mut sg.schema, t, kind, app.is_interface_object, fed)
        };
        self.subgraphs.insert(i, sg);
        proof {
            assert(self@ =~= before.update(i as int, sg));
            assert forall|x: int, y: int| 0 <= x < self@.len() && 0 <= y < self@.len() && x != y implies self@[x].name@ != self@[y].name@ by {
                assert(before[x].name@ != before[y].name@);
            }
        }
        if !seen {
            if r.is_ok() {
                let io = matches!(kind, TypeKind::Interface) && app.is_interface_object;
                let ghost iv = info@;
                info.push((app.graph.clone(), io));
                proof {
                    assert(info_view(info@) =~= info_view(iv).push((app.graph@, io)));
                }
            }
        }
        r
    }
}

/// Whether the subgraph lists `ss` and graph lists `is` go, application by application of
/// `apps`, from the first to the last (see [`empty_type_step`]), stopping at the first that
/// fails; `res` the outcome.
pub open spec fn empty_type_run(
    t: Seq<char>,
    kind: TypeKind,
    apps: Seq<TypeDirectiveArguments>,
    graphs: Seq<(String, String)>,
    feds: Seq<(String, FederationSpecDefinitions)>,
    ss: Seq<Seq<FederationSubgraph>>,
    is: Seq<Seq<(Seq<char>, bool)>>,
    res: Result<(), FederationError>,
) -> bool {
    let n = ss.len() - 1;
    &&& ss.len() == is.len()
    &&& 1 <= ss.len() <= apps.len() + 1
    &&& is[0] == Seq::<(Seq<char>, bool)>::empty()
    &&& forall|k: int| #![trigger ss[k]] 0 <= k < n ==> empty_type_step(
        t,
        kind,
        apps[k],
        graphs,
        feds,
        ss[k],
        is[k],
        ss[k + 1],
        is[k + 1],
        if k == n - 1 { res } else { Ok(()) },
    )
    &&& (res is Ok ==> n == apps.len())
    &&& (res is Err ==> n > 0)
}

/// Whether `e` is an invalid supergraph error `Missing @join__type on "<t>"`.
pub open spec fn missing_join_type_error(res: Result<TypeInfo, FederationError>, t: Seq<char>) -> bool {
    res matches Err(e) && is_invalid_supergraph_error(e, missing_join_type_message(t))
}

impl FederationSubgraphs {
    /// Adds the type `t` (of the kind of `ty`) to the subgraphs of the `@join__type`
    /// applications `apps` of it, in turn (see [`empty_type_step`]), the graph of each
    /// application naming its subgraph in `graphs` and its federation definitions in `feds`;
    /// the graphs that have the type come back, with whether it is an interface object in
    /// each. A type without applications is an invalid supergraph error
    /// `Missing @join__type on "<t>"`.
    pub fn add_empty_type(
        &mut self,
        t: &String,
        ty: &ExtendedType,
        apps: &Vec<TypeDirectiveArguments>,
        graphs: &Vec<(String, String)>,
        feds: &Vec<(String, FederationSpecDefinitions)>,
    ) -> (res: Result<TypeInfo, FederationError>)
        requires
            old(self).wf(),
        ensures
            final(self).wf(),
            apps@.len() == 0 ==> missing_join_type_error(res, t@) && final(self)@ == old(self)@,
            apps@.len() > 0 ==> exists|ss: Seq<Seq<FederationSubgraph>>, is: Seq<Seq<(Seq<char>, bool)>>|
                #![trigger empty_type_run(t@, ty.spec_kind(), apps@, graphs@, feds@, ss, is, crate::core_features::outcome(res))]
                {
                    &&& empty_type_run(t@, ty.spec_kind(), apps@, graphs@, feds@, ss, is, crate::core_features::outcome(res))
                    &&& ss[0] == old(self)@
                    &&& ss.last() == final(self)@
                    &&& (res matches Ok(info) ==> info.name@ == t@ && info_view(info.subgraph_info@) == is.last())
                },
    {
        if apps.len() == 0 {
            proof {
                reveal_with_fuel(concat_views, 4);
            }
            let m = concat_strs(&["Missing @join__type on \"", t.as_str(), "\""]);
            assert(m@ =~= missing_join_type_message(t@));
            return Err(FederationError::SingleFederationError(SingleFederationError::InvalidFederationSupergraph { message: m }));
        }
        let kind = ty.kind();
        let mut info: Vec<(String, bool)> = Vec::new();
        let ghost mut ss: Seq<Seq<FederationSubgraph>> = seq![self@];
        let ghost mut is: Seq<Seq<(Seq<char>, bool)>> = seq![info_view(info@)];
        proof {
            assert(info_view(info@) =~= Seq::<(Seq<char>, bool)>::empty());
        }
        let mut j: usize = 0;
        while j < apps.len()
            invariant
                self.wf(),
                j <= apps@.len(),
                ss.len() == j + 1,
                is.len() == j + 1,
                ss[0] == old(self)@,
                ss.last() == self@,
                is.last() == info_view(info@),
                is[0] == Seq::<(Seq<char>, bool)>::empty(),
                kind == ty.spec_kind(),
                forall|k: int| #![trigger ss[k]] 0 <= k < j ==> empty_type_step(
                    t@,
                    kind,
                    apps@[k],
                    graphs@,
                    feds@,
                    ss[k],
                    is[k],
                    ss[k + 1],
                    is[k + 1],
                    Ok(()),
                ),
            decreases apps@.len() - j,
        {
            let r = self.add_empty_type_for(t, kind, &apps[j], &mut info, graphs, feds);
            let ghost pss = ss;
            let ghost pis = is;
            proof {
                ss = ss.push(self@);
                is = is.push(info_view(info@));
                assert forall|k: int| #![trigger ss[k]] 0 <= k < j implies empty_type_step(
                    t@, kind, apps@[k], graphs@, feds@, ss[k], is[k], ss[k + 1], is[k + 1], Ok(()),
                ) by {
                    assert(ss[k] == pss[k] && ss[k + 1] == pss[k + 1] && is[k] == pis[k] && is[k + 1] == pis[k + 1]);
                }
                assert(ss[j as int] == pss.last() && is[j as int] == pis.last());
            }
            match r {
                Err(e) => {
                    proof {
                        assert(empty_type_run(t@, kind, apps@, graphs@, feds@, ss, is, Err::<(), FederationError>(e)));
                    }
                    let res: Result<TypeInfo, FederationError> = Err(e);
                    assert(crate::core_features::outcome(res) == Err::<(), FederationError>(e));
                    return res;
                },
                Ok(u) => {
                    proof {
                        assert(r == Ok::<(), FederationError>(()));
                        assert(empty_type_step(
                            t@, kind, apps@[j as int], graphs@, feds@, ss[j as int], is[j as int], ss[j + 1], is[j + 1], Ok(()),
                        ));
                    }
                },
            }
            j = j + 1;
        }
        proof {
            assert(empty_type_run(t@, kind, apps@, graphs@, feds@, ss, is, Ok::<(), FederationError>(())));
        }
        let res: Result<TypeInfo, FederationError> = Ok(TypeInfo { name: t.clone(), subgraph_info: info });
        assert(crate::core_features::outcome(res) == Ok::<(), FederationError>(()));
        res
    }
}

/// The arguments of a `@join__field` application.
pub struct FieldDirectiveArguments {
    pub graph: Option<String>,
    pub requires_: Option<String>,
    pub provides: Option<String>,
    pub type_: Option<String>,
    pub external: Option<bool>,
    pub override_: Option<String>,
    pub user_overridden: Option<bool>,
}

pub open spec fn opt_view(o: Option<String>) -> Option<Seq<char>> {
    match o {
        Some(s) => Some(s@),
        None => None,
    }
}

/// The application of the directive `name` of the federation specification `fed` with the
/// arguments `args`.
pub open spec fn federation_directive_view(fed: FederationSpecDefinitions, name: Seq<char>, args: Seq<ArgumentView>) -> DirectiveView {
    DirectiveView { name: directive_name_in_schema(fed.link, name), arguments: args }
}

/// The application of the federation directive `name` with the one string argument `arg`
/// (where there is a value).
pub open spec fn string_directive(fed: FederationSpecDefinitions, name: Seq<char>, arg: Seq<char>, value: Option<Seq<char>>) -> Seq<DirectiveView> {
    match value {
        Some(v) => seq![federation_directive_view(fed, name, seq![ArgumentView { name: arg, value: ValueView::String(v) }])],
        None => Seq::empty(),
    }
}

/// The directive applications of a field in a subgraph: `@requires`, `@provides`,
/// `@external`, `@external(reason: "[overridden]")`, `@override` and `@shareable`, each where
/// its join arguments (or, for `@shareable`, the field being shareable, neither external nor
/// overridden there) call for it, in that order.
pub open spec fn subgraph_field_directives(
    fed: FederationSpecDefinitions,
    requires_: Option<Seq<char>>,
    provides: Option<Seq<char>>,
    external: bool,
    user_overridden: bool,
    override_: Option<Seq<char>>,
    is_shareable: bool,
) -> Seq<DirectiveView> {
    string_directive(fed, "requires"@, "fields"@, requires_) + string_directive(fed, "provides"@, "fields"@, provides)
        + (if external { seq![federation_directive_view(fed, "external"@, Seq::empty())] } else { Seq::empty() })
        + (if user_overridden {
        string_directive(fed, "external"@, "reason"@, Some("[overridden]"@))
    } else {
        Seq::empty()
    }) + string_directive(fed, "override"@, "from"@, override_) + (if is_shareable && !external && !user_overridden {
        seq![federation_directive_view(fed, "shareable"@, Seq::empty())]
    } else {
        Seq::empty()
    })
}

/// Whether `dst` are the arguments `src` without their directive applications.
pub open spec fn copied_arguments(src: Seq<InputValueDefinition>, dst: Seq<InputValueDefinition>) -> bool {
    &&& dst.len() == src.len()
    &&& forall|i: int| 0 <= i < src.len() ==> input_value_view(#[trigger] dst[i]) == (InputValueView {
        directives: Seq::empty(),
        ..input_value_view(src[i])
    })
}

/// Whether `f` is the field `name` of type `ty` with the arguments of `field` (without their
/// applications) and the applications `ds`.
pub open spec fn subgraph_field_of(f: FieldDefinition, name: Seq<char>, field: FieldDefinition, ty: crate::schema::TypeView, ds: Seq<DirectiveView>) -> bool {
    &&& f.name@ == name
    &&& f.ty@ == ty
    &&& copied_arguments(field.arguments@, f.arguments@)
    &&& crate::ast::directives_view(f.directives@) == ds
}

pub open spec fn non_composite_field_message() -> Seq<char> {
    "\"add_subgraph_field()\" encountered non-object/interface type in subgraph"@
}

/// The type of a field in a subgraph: the decoded `type` argument of its `@join__field`
/// application where there is one (`None` where it does not decode), else its type in the
/// supergraph.
pub open spec fn field_type_of(field: FieldDefinition, app: Option<FieldDirectiveArguments>) -> Option<crate::schema::TypeView> {
    match app {
        Some(a) => match a.type_ {
            Some(text) => decoded_type(text@, parsed_field_type(type_document(text@), "temp.graphql"@, "Query"@, "field"@)),
            None => Some(field.ty@),
        },
        None => Some(field.ty@),
    }
}

/// The applications of a field in a subgraph (see [`subgraph_field_directives`]).
pub open spec fn field_directives_of(fed: FederationSpecDefinitions, app: Option<FieldDirectiveArguments>, is_shareable: bool) -> Seq<DirectiveView> {
    match app {
        Some(a) => subgraph_field_directives(
            fed,
            opt_view(a.requires_),
            opt_view(a.provides),
            a.external == Some(true),
            a.user_overridden == Some(true),
            opt_view(a.override_),
            is_shareable,
        ),
        None => subgraph_field_directives(fed, None, None, false, false, None, is_shareable),
    }
}

/// Whether `new` is the subgraph schema `old` after adding to its type `t` the field `name`
/// that `field` is in the supergraph, `app` being the `@join__field` arguments for this
/// subgraph (none where absent): its type the decoded `type` argument where there is one (an
/// invalid GraphQL error where it does not decode), else that of `field`; its arguments those
/// of `field`; its applications those of [`subgraph_field_directives`]; inserted into the
/// object or interface type `t` (an internal error where the subgraph has no such type, or
/// it is of another kind).
pub open spec fn subgraph_field_added(
    old: FederationSchema,
    new: FederationSchema,
    t: Seq<char>,
    name: Seq<char>,
    field: FieldDefinition,
    fed: FederationSpecDefinitions,
    is_shareable: bool,
    app: Option<FieldDirectiveArguments>,
    r: Result<(), FederationError>,
) -> bool {
    let type_ = match app { Some(a) => opt_view(a.type_), None => None };
    let ty = field_type_of(field, app);
    let ds = field_directives_of(fed, app, is_shareable);
    match ty {
        None => r matches Err(e) && is_invalid_graphql_error(e, cannot_parse_type_message(type_->Some_0)) && new == old,
        Some(tv) => match type_index(old.spec_schema().types@, t) {
            None => internal_result(r, type_missing_in_subgraph_message(t)) && new == old,
            Some(i) => {
                let k = old.spec_schema().types@[i].spec_kind();
                if k == TypeKind::Object || k == TypeKind::Interface {
                    exists|f: FieldDefinition| #![trigger subgraph_field_of(f, name, field, tv, ds)]
                        subgraph_field_of(f, name, field, tv, ds) && field_insertion(old, new, t, name, k == TypeKind::Object, f, r)
                } else {
                    internal_result(r, non_composite_field_message()) && new == old
                }
            },
        },
    }
}

/// The application of the federation directive `name` of `fed`, with the one string argument
/// `arg` where `value` is given.
fn federation_directive(fed: &FederationSpecDefinitions, name: &str, arg: &str, value: Option<String>) -> (res: Directive)
    ensures
        res@ == federation_directive_view(*fed, name@, match value {
            Some(v) => seq![ArgumentView { name: arg@, value: ValueView::String(v@) }],
            None => Seq::empty(),
        }),
{
    let mut arguments: Vec<Argument> = Vec::new();
    let ghost has = value is Some;
    let ghost vv = opt_view(value);
    match value {
        Some(v) => {
            arguments.push(Argument { name: String::from_str(arg), value: Value::String(v) });
        },
        None => {},
    }
    let d = Directive { name: fed.namespaced_type_name(name, true), arguments };
    proof {
        if has {
            assert(crate::ast::arguments_view(d.arguments@) =~= seq![ArgumentView { name: arg@, value: ValueView::String(vv->Some_0) }]);
        } else {
            assert(crate::ast::arguments_view(d.arguments@) =~= Seq::<ArgumentView>::empty());
        }
    }
    d
}

fn push_directive(out: &mut Vec<Directive>, d: Directive)
    ensures
        crate::ast::directives_view(final(out)@) == crate::ast::directives_view(old(out)@).push(d@),
{
    let ghost before = out@;
    out.push(d);
    assert(crate::ast::directives_view(out@) =~= crate::ast::directives_view(before).push(d@));
}

/// The applications of [`subgraph_field_directives`].
fn field_directives(
    fed: &FederationSpecDefinitions,
    requires_: &Option<String>,
    provides: &Option<String>,
    external: bool,
    user_overridden: bool,
    override_: &Option<String>,
    is_shareable: bool,
) -> (res: Vec<Directive>)
    ensures
        crate::ast::directives_view(res@) == subgraph_field_directives(
            *fed,
            opt_view(*requires_),
            opt_view(*provides),
            external,
            user_overridden,
            opt_view(*override_),
            is_shareable,
        ),
{
    proof {
        reveal_strlit("requires");
        reveal_strlit("provides");
        reveal_strlit("fields");
        reveal_strlit("external");
        reveal_strlit("reason");
        reveal_strlit("[overridden]");
        reveal_strlit("override");
        reveal_strlit("from");
        reveal_strlit("shareable");
    }
    let mut out: Vec<Directive> = Vec::new();
    let ghost s0 = crate::ast::directives_view(out@);
    assert(s0 =~= Seq::<DirectiveView>::empty());
    if let Some(r) = requires_ {
        push_directive(&mut out, federation_directive(fed, "requires", "fields", Some(r.clone())));
    }
    let ghost s1 = crate::ast::directives_view(out@);
    assert(s1 =~= string_directive(*fed, "requires"@, "fields"@, opt_view(*requires_)));
    if let Some(p) = provides {
        push_directive(&mut out, federation_directive(fed, "provides", "fields", Some(p.clone())));
    }
    let ghost s2 = crate::ast::directives_view(out@);
    assert(s2 =~= s1 + string_directive(*fed, "provides"@, "fields"@, opt_view(*provides)));
    if external {
        push_directive(&mut out, federation_directive(fed, "external", "reason", None));
    }
    let ghost s3 = crate::ast::directives_view(out@);
    assert(s3 =~= s2 + (if external { seq![federation_directive_view(*fed, "external"@, Seq::empty())] } else { Seq::empty() }));
    if user_overridden {
        push_directive(&mut out, federation_directive(fed, "external", "reason", Some(String::from_str("[overridden]"))));
    }
    let ghost s4 = crate::ast::directives_view(out@);
    assert(s4 =~= s3 + (if user_overridden {
        string_directive(*fed, "external"@, "reason"@, Some("[overridden]"@))
    } else {
        Seq::empty()
    }));
    if let Some(o) = override_ {
        push_directive(&mut out, federation_directive(fed, "override", "from", Some(o.clone())));
    }
    let ghost s5 = crate::ast::directives_view(out@);
    assert(s5 =~= s4 + string_directive(*fed, "override"@, "from"@, opt_view(*override_)));
    if is_shareable && !external && !user_overridden {
        push_directive(&mut out, federation_directive(fed, "shareable", "fields", None));
    }
    let ghost s6 = crate::ast::directives_view(out@);
    assert(s6 =~= s5 + (if is_shareable && !external && !user_overridden {
        seq![federation_directive_view(*fed, "shareable"@, Seq::empty())]
    } else {
        Seq::empty()
    }));
    out
}

/// The arguments `src` without their directive applications.
fn copy_arguments(src: &Vec<InputValueDefinition>) -> (res: Vec<InputValueDefinition>)
    ensures
        copied_arguments(src@, res@),
{
    let mut out: Vec<InputValueDefinition> = Vec::new();
    let mut i: usize = 0;
    while i < src.len()
        invariant
            i <= src@.len(),
            out@.len() == i,
            forall|m: int| 0 <= m < i ==> input_value_view(#[trigger] out@[m]) == (InputValueView {
                directives: Seq::empty(),
                ..input_value_view(src@[m])
            }),
        decreases src@.len() - i,
    {
        let a = &src[i];
        let default_value = match &a.default_value {
            Some(v) => Some(crate::ast::clone_value(v)),
            None => None,
        };
        let copy = InputValueDefinition { name: a.name.clone(), ty: clone_type(&a.ty), default_value, directives: Vec::new() };
        proof {
            assert(crate::ast::directives_view(copy.directives@) =~= Seq::<DirectiveView>::empty());
        }
        out.push(copy);
        i = i + 1;
    }
    out
}

/// Adds to the type `t` of the subgraph the field `name` that `field` is in the supergraph
/// (see [`subgraph_field_added`]).
pub fn add_subgraph_field(
    name: &String,
    field: &FieldDefinition,
    t: &String,
    subgraph: &mut FederationSubgraph,
    fed: &FederationSpecDefinitions,
    is_shareable: bool,
    app: Option<&FieldDirectiveArguments>,
) -> (res: Result<(), FederationError>)
    ensures
        subgraph_field_added(old(subgraph).schema, final(subgraph).schema, t@, name@, *field, *fed, is_shareable, match app {
            Some(a) => Some(*a),
            None => None,
        }, res),
        final(subgraph).name == old(subgraph).name,
        final(subgraph).url == old(subgraph).url,
{
    let ghost gapp0 = match app {
        Some(a) => Some(*a),
        None => None::<FieldDirectiveArguments>,
    };
    let none_string: Option<String> = None;
    let (requires_, provides, type_, external, override_, user_overridden) = match app {
        Some(a) => (&a.requires_, &a.provides, &a.type_, matches!(a.external, Some(true)), &a.override_, matches!(a.user_overridden, Some(true))),
        None => (&none_string, &none_string, &none_string, false, &none_string, false),
    };
    let ty = match type_ {
        Some(text) => match decode_type(text.as_str()) {
            Ok(ty) => ty,
            Err(e) => {
                assert(subgraph_field_added(subgraph.schema, subgraph.schema, t@, name@, *field, *fed, is_shareable, gapp0, Err(e)));
                return Err(e);
            },
        },
        None => clone_type(&field.ty),
    };
    let directives = field_directives(fed, requires_, provides, external, user_overridden, override_, is_shareable);
    let ghost tv = ty@;
    let f = FieldDefinition { name: name.clone(), arguments: copy_arguments(&field.arguments), ty, directives };
    let ghost gf = f;
    let ghost gapp = match app {
        Some(a) => Some(*a),
        None => None::<FieldDirectiveArguments>,
    };
    let ghost ds = subgraph_field_directives(*fed, opt_view(*requires_), opt_view(*provides), external, user_overridden, opt_view(*override_), is_shareable);
    assert(subgraph_field_of(gf, name@, *field, tv, ds));
    assert(ds == field_directives_of(*fed, gapp0, is_shareable));
    assert(field_type_of(*field, gapp0) == Some(tv));
    assert(subgraph_field_of(gf, name@, *field, field_type_of(*field, gapp0)->Some_0, field_directives_of(*fed, gapp0, is_shareable)));
    proof {
        lemma_type_index(subgraph.schema.spec_schema().types@, t@);
    }
    let k = match subgraph.schema.schema().get_type(t.as_str()) {
        Some(ty) => ty.kind(),
        None => {
            proof {
                reveal_with_fuel(concat_views, 4);
            }
            let m = concat_strs(&["Missing type \"", t.as_str(), "\" from subgraph despite it being in type_info"]);
            assert(m@ =~= type_missing_in_subgraph_message(t@));
            return internal_error_with(m);
        },
    };
    let ghost start = subgraph.schema;
    match k {
        TypeKind::Object => {
            let r = crate::position::ObjectFieldDefinitionPosition { name_of_type: t.clone(), field_name: name.clone() }.insert(&mut subgraph.schema, f);
            assert(field_insertion(start, subgraph.schema, t@, name@, true, gf, r));
            assert(subgraph_field_added(start, subgraph.schema, t@, name@, *field, *fed, is_shareable, gapp0, r));
            r
        },
        TypeKind::Interface => {
            let r = crate::position::InterfaceFieldDefinitionPosition { name_of_type: t.clone(), field_name: name.clone() }.insert(&mut subgraph.schema, f);
            assert(field_insertion(start, subgraph.schema, t@, name@, false, gf, r));
            r
        },
        _ => {
            let m = String::from_str("\"add_subgraph_field()\" encountered non-object/interface type in subgraph");
            proof {
                reveal_strlit("\"add_subgraph_field()\" encountered non-object/interface type in subgraph");
            }
            internal_error_with(m)
        },
    }
}

/// The subgraphs that a field of a type goes to, each with its `@join__field` arguments there:
/// where the field has no `@join__field` application, every graph that has the type (without
/// arguments); else the graph of each application that names one, in order.
pub open spec fn field_targets(apps: Seq<FieldDirectiveArguments>, info: Seq<(Seq<char>, bool)>) -> Seq<(Seq<char>, Option<FieldDirectiveArguments>)> {
    if apps.len() == 0 {
        info.map_values(|p: (Seq<char>, bool)| (p.0, None::<FieldDirectiveArguments>))
    } else {
        application_targets(apps)
    }
}

/// The graphs that the applications `apps` name, each with its application, in order.
pub open spec fn application_targets(apps: Seq<FieldDirectiveArguments>) -> Seq<(Seq<char>, Option<FieldDirectiveArguments>)>
    decreases apps.len(),
{
    if apps.len() == 0 {
        Seq::empty()
    } else {
        let rest = application_targets(apps.drop_last());
        match apps.last().graph {
            Some(g) => rest.push((g@, Some(apps.last()))),
            None => rest,
        }
    }
}

/// The number of applications among `apps` that are neither external nor overridden.
pub open spec fn owning_count(apps: Seq<FieldDirectiveArguments>) -> int
    decreases apps.len(),
{
    if apps.len() == 0 {
        0
    } else {
        owning_count(apps.drop_last()) + if apps.last().external != Some(true) && apps.last().user_overridden != Some(true) {
            1int
        } else {
            0int
        }
    }
}

/// Whether a field is shareable in the subgraphs: where it has no `@join__field`
/// application, where more than one graph has its type; else where more than one of its
/// applications is neither external nor overridden.
pub open spec fn field_shareable(apps: Seq<FieldDirectiveArguments>, info: Seq<(Seq<char>, bool)>) -> bool {
    if apps.len() == 0 {
        info.len() > 1
    } else {
        owning_count(apps) > 1
    }
}

/// Whether a field is marked shareable in the subgraphs: never for an interface type's
/// field, else as [`field_shareable`] says.
pub open spec fn shareable_of(apps: Seq<FieldDirectiveArguments>, info: Seq<(Seq<char>, bool)>, object: bool) -> bool {
    object && field_shareable(apps, info)
}

pub open spec fn no_federation_message() -> Seq<char> {
    "Subgraph unexpectedly does not use federation spec"@
}

pub open spec fn join_field_without_type_message(t: Seq<char>, f: Seq<char>, g: Seq<char>) -> Seq<char> {
    "@join__field cannot exist on "@ + t + "."@ + f + " for subgraph "@ + g + " without type-level @join__type"@
}

/// Whether `r` is an invalid supergraph error with message `m`.
pub open spec fn supergraph_result(r: Result<(), FederationError>, m: Seq<char>) -> bool {
    r matches Err(e) && is_invalid_supergraph_error(e, m)
}

/// Whether `subs2` is `subs` after adding the field `field` of the type `t` to the subgraph
/// of the graph `g`, with the `@join__field` arguments `app` there: the subgraph and its
/// federation definitions looked up (an error where there are none), and, for an
/// application, the graph checked to have the type; then the field added (see
/// [`subgraph_field_added`]).
pub open spec fn field_step(
    t: Seq<char>,
    field: FieldDefinition,
    g: Seq<char>,
    app: Option<FieldDirectiveArguments>,
    info: Seq<(Seq<char>, bool)>,
    shareable: bool,
    graphs: Seq<(String, String)>,
    feds: Seq<(String, FederationSpecDefinitions)>,
    subs: Seq<FederationSubgraph>,
    subs2: Seq<FederationSubgraph>,
    r: Result<(), FederationError>,
) -> bool {
    match graph_subgraph_name(graphs, g) {
        None => internal_result(r, invalid_graph_message(g)) && subs2 == subs,
        Some(name) => match subgraph_position(subs, name) {
            None => internal_result(r, subgraph_not_created_message()) && subs2 == subs,
            Some(i) => match graph_federation(feds, g) {
                None => supergraph_result(r, no_federation_message()) && subs2 == subs,
                Some(fed) => if app is Some && !has_graph(info, g) {
                    supergraph_result(r, join_field_without_type_message(t, field.name@, g)) && subs2 == subs
                } else {
                    &&& subs2.len() == subs.len()
                    &&& forall|m: int| 0 <= m < subs.len() && m != i ==> subs2[m] == subs[m]
                    &&& subs2[i].name == subs[i].name
                    &&& subs2[i].url == subs[i].url
                    &&& subgraph_field_added(subs[i].schema, subs2[i].schema, t, field.name@, field, fed, shareable, app, r)
                },
            },
        },
    }
}

/// Whether the subgraph lists `ss` go, target by target of `ts` (see [`field_step`]), from
/// the first to the last, stopping at the first that fails; `res` the outcome.
pub open spec fn field_run(
    t: Seq<char>,
    field: FieldDefinition,
    ts: Seq<(Seq<char>, Option<FieldDirectiveArguments>)>,
    info: Seq<(Seq<char>, bool)>,
    shareable: bool,
    graphs: Seq<(String, String)>,
    feds: Seq<(String, FederationSpecDefinitions)>,
    ss: Seq<Seq<FederationSubgraph>>,
    res: Result<(), FederationError>,
) -> bool {
    let n = ss.len() - 1;
    &&& 1 <= ss.len() <= ts.len() + 1
    &&& forall|k: int| #![trigger ss[k]] 0 <= k < n ==> field_step(
        t,
        field,
        ts[k].0,
        ts[k].1,
        info,
        shareable,
        graphs,
        feds,
        ss[k],
        ss[k + 1],
        if k == n - 1 { res } else { Ok(()) },
    )
    &&& (res is Ok ==> n == ts.len())
    &&& (res is Err ==> n > 0)
}

proof fn lemma_application_targets_step(apps: Seq<FieldDirectiveArguments>, j: int)
    requires
        0 <= j < apps.len(),
    ensures
        application_targets(apps.take(j + 1)) == match apps[j].graph {
            Some(g) => application_targets(apps.take(j)).push((g@, Some(apps[j]))),
            None => application_targets(apps.take(j)),
        },
        owning_count(apps.take(j + 1)) == owning_count(apps.take(j)) + if apps[j].external != Some(true)
            && apps[j].user_overridden != Some(true) {
            1int
        } else {
            0int
        },
{
    assert(apps.take(j + 1).drop_last() =~= apps.take(j));
    assert(apps.take(j + 1).last() == apps[j]);
}

fn field_error(m: String) -> (res: Result<(), FederationError>)
    ensures
        supergraph_result(res, m@),
{
    Err(FederationError::SingleFederationError(SingleFederationError::InvalidFederationSupergraph { message: m }))
}

impl FederationSubgraphs {
    /// Adds the field to the subgraph of one target (see [`field_step`]).
    fn add_field_to(
        &mut self,
        t: &String,
        field: &FieldDefinition,
        g: &String,
        app: Option<&FieldDirectiveArguments>,
        info: &TypeInfo,
        shareable: bool,
        graphs: &Vec<(String, String)>,
        feds: &Vec<(String, FederationSpecDefinitions)>,
    ) -> (res: Result<(), FederationError>)
        requires
            old(self).wf(),
        ensures
            final(self).wf(),
            field_step(t@, *field, g@, match app {
                Some(a) => Some(*a),
                None => None,
            }, info_view(info.subgraph_info@), shareable, graphs@, feds@, old(self)@, final(self)@, res),
    {
        let name = match find_graph_subgraph(graphs, g) {
            Some(n) => n,
            None => {
                proof {
                    reveal_with_fuel(concat_views, 4);
                }
                let m = concat_strs(&["Invalid graph enum_value \"", g.as_str(), "\": does not match an enum value defined in the @join__Graph enum"]);
                assert(m@ =~= invalid_graph_message(g@));
                return internal_error_with(m);
            },
        };
        proof {
            lemma_subgraph_position(self@, name@);
        }
        let i = match self.find(name.as_str()) {
            Some(i) => i,
            None => {
                let m = String::from_str("All subgraphs should have been created by \"collect_empty_subgraphs()\"");
                proof {
                    reveal_strlit("All subgraphs should have been created by \"collect_empty_subgraphs()\"");
                }
                return internal_error_with(m);
            },
        };
        assert(subgraph_position(self@, name@) == Some(i as int)) by {
            let p = subgraph_position(self@, name@)->Some_0;
            if p != i as int {
                assert(self@[p].name@ != self@[i as int].name@);
            }
        }
        let fed = match find_graph_federation(feds, g) {
            Some(f) => f,
            None => {
                let m = String::from_str("Subgraph unexpectedly does not use federation spec");
                proof {
                    reveal_strlit("Subgraph unexpectedly does not use federation spec");
                }
                return field_error(m);
            },
        };
        if app.is_some() && !info_has_graph(&info.subgraph_info, g) {
            proof {
                reveal_with_fuel(concat_views, 8);
            }
            let m = concat_strs(&[
                "@join__field cannot exist on ",
                t.as_str(),
                ".",
                field.name.as_str(),
                " for subgraph ",
                g.as_str(),
                " without type-level @join__type",
            ]);
            assert(m@ =~= join_field_without_type_message(t@, field.name@, g@));
            return field_error(m);
        }
        let ghost before = self@;
        let mut sg = self.subgraphs.remove(i);
        let r = add_subgraph_field(&field.name, field, t, &mut sg, fed, shareable, app);
        self.subgraphs.insert(i, sg);
        proof {
            assert(self@ =~= before.update(i as int, sg));
            assert forall|x: int, y: int| 0 <= x < self@.len() && 0 <= y < self@.len() && x != y implies self@[x].name@ != self@[y].name@ by {
                assert(before[x].name@ != before[y].name@);
            }
        }
        r
    }

    /// Adds the field `field` of the object or interface type `t` to the subgraphs that
    /// `field_targets` chooses from its `@join__field` applications `apps` and the graphs of
    /// `info` that have the type, in turn (see [`field_step`]), shareable as
    /// [`field_shareable`] says; stops at the first that fails.
    pub fn extract_field(
        &mut self,
        t: &String,
        field: &FieldDefinition,
        apps: &Vec<FieldDirectiveArguments>,
        info: &TypeInfo,
        graphs: &Vec<(String, String)>,
        feds: &Vec<(String, FederationSpecDefinitions)>,
    ) -> (res: Result<(), FederationError>)
        requires
            old(self).wf(),
        ensures
            final(self).wf(),
            exists|ss: Seq<Seq<FederationSubgraph>>|
                #![trigger field_run(t@, *field, field_targets(apps@, info_view(info.subgraph_info@)), info_view(info.subgraph_info@), field_shareable(apps@, info_view(info.subgraph_info@)), graphs@, feds@, ss, res)]
                field_run(t@, *field, field_targets(apps@, info_view(info.subgraph_info@)), info_view(info.subgraph_info@), field_shareable(apps@, info_view(info.subgraph_info@)), graphs@, feds@, ss, res)
                    && ss[0] == old(self)@ && ss.last() == final(self)@,
    {
        self.extract_field_of(t, field, apps, info, true, graphs, feds)
    }

    /// Extracts a field as [`FederationSubgraphs::extract_field`] does, of an object type
    /// where `object`, else of an interface type, whose fields are never marked shareable.
    fn extract_field_of(
        &mut self,
        t: &String,
        field: &FieldDefinition,
        apps: &Vec<FieldDirectiveArguments>,
        info: &TypeInfo,
        object: bool,
        graphs: &Vec<(String, String)>,
        feds: &Vec<(String, FederationSpecDefinitions)>,
    ) -> (res: Result<(), FederationError>)
        requires
            old(self).wf(),
        ensures
            final(self).wf(),
            field_extracted(t@, *field, apps@, info_view(info.subgraph_info@), object, graphs@, feds@, old(self)@, final(self)@, res),
    {
        let ghost iv = info_view(info.subgraph_info@);
        let ghost ts = field_targets(apps@, iv);
        let ghost sh = shareable_of(apps@, iv, object);
        let ghost mut ss: Seq<Seq<FederationSubgraph>> = seq![self@];
        if apps.len() == 0 {
            let shareable = object && info.subgraph_info.len() > 1;
            let mut j: usize = 0;
            while j < info.subgraph_info.len()
                invariant
                    self.wf(),
                    j <= info.subgraph_info@.len(),
                    iv == info_view(info.subgraph_info@),
                    ts == field_targets(apps@, iv),
                    apps@.len() == 0,
                    shareable == sh,
                    sh == shareable_of(apps@, iv, object),
                    ts.len() == iv.len(),
                    ss.len() == j + 1,
                    ss[0] == old(self)@,
                    ss.last() == self@,
                    forall|k: int| #![trigger ss[k]] 0 <= k < j ==> field_step(t@, *field, ts[k].0, ts[k].1, iv, sh, graphs@, feds@, ss[k], ss[k + 1], Ok(())),
                decreases info.subgraph_info@.len() - j,
            {
                assert(ts[j as int] == (info.subgraph_info@[j as int].0@, None::<FieldDirectiveArguments>));
                let r = self.add_field_to(t, field, &info.subgraph_info[j].0, None, info, shareable, graphs, feds);
                let ghost pss = ss;
                proof {
                    ss = ss.push(self@);
                    assert forall|k: int| #![trigger ss[k]] 0 <= k < j implies field_step(t@, *field, ts[k].0, ts[k].1, iv, sh, graphs@, feds@, ss[k], ss[k + 1], Ok(())) by {
                        assert(ss[k] == pss[k] && ss[k + 1] == pss[k + 1]);
                    }
                    assert(ss[j as int] == pss.last());
                }
                match r {
                    Err(e) => {
                        assert(field_run(t@, *field, ts, iv, sh, graphs@, feds@, ss, Err::<(), FederationError>(e)));
                        return Err(e);
                    },
                    Ok(u) => {
                        proof {
                            assert(r == Ok::<(), FederationError>(()));
                            assert(field_step(t@, *field, ts[j as int].0, ts[j as int].1, iv, sh, graphs@, feds@, ss[j as int], ss[j + 1], Ok(())));
                        }
                    },
                }
                j = j + 1;
            }
            assert(field_run(t@, *field, ts, iv, sh, graphs@, feds@, ss, Ok::<(), FederationError>(())));
            return Ok(());
        }
        let mut count: usize = 0;
        let mut k: usize = 0;
        assert(apps@.take(0) =~= Seq::<FieldDirectiveArguments>::empty());
        while k < apps.len()
            invariant
                k <= apps@.len(),
                count == owning_count(apps@.take(k as int)),
                count <= k,
            decreases apps@.len() - k,
        {
            proof {
                lemma_application_targets_step(apps@, k as int);
            }
            if !matches!(apps[k].external, Some(true)) && !matches!(apps[k].user_overridden, Some(true)) {
                count = count + 1;
            }
            k = k + 1;
        }
        assert(apps@.take(apps@.len() as int) =~= apps@);
        let shareable = object && count > 1;
        let mut j: usize = 0;
        let mut done: usize = 0;
        assert(application_targets(apps@.take(0)) =~= Seq::<(Seq<char>, Option<FieldDirectiveArguments>)>::empty()) by {
            assert(apps@.take(0) =~= Seq::<FieldDirectiveArguments>::empty());
        }
        while j < apps.len()
            invariant
                self.wf(),
                j <= apps@.len(),
                apps@.len() > 0,
                iv == info_view(info.subgraph_info@),
                ts == field_targets(apps@, iv),
                ts == application_targets(apps@),
                shareable == sh,
                sh == shareable_of(apps@, iv, object),
                done == application_targets(apps@.take(j as int)).len(),
                done <= j,
                ss.len() == done + 1,
                ss[0] == old(self)@,
                ss.last() == self@,
                forall|m: int| 0 <= m < done ==> (#[trigger] application_targets(apps@.take(j as int))[m]) == ts[m],
                forall|m: int| #![trigger ss[m]] 0 <= m < done ==> field_step(t@, *field, ts[m].0, ts[m].1, iv, sh, graphs@, feds@, ss[m], ss[m + 1], Ok(())),
            decreases apps@.len() - j,
        {
            proof {
                lemma_application_targets_step(apps@, j as int);
                lemma_targets_prefix(apps@, j as int + 1);
            }
            let app = &apps[j];
            match &app.graph {
                None => {
                    assert forall|m: int| 0 <= m < done implies (#[trigger] application_targets(apps@.take(j + 1))[m]) == ts[m] by {
                        assert(application_targets(apps@.take(j + 1))[m] == application_targets(apps@.take(j as int))[m]);
                    }
                },
                Some(g) => {
                    assert(application_targets(apps@.take(j + 1))[done as int] == (g@, Some(apps@[j as int])));
                    assert(ts[done as int] == (g@, Some(*app)));
                    let r = self.add_field_to(t, field, g, Some(app), info, shareable, graphs, feds);
                    let ghost pss = ss;
                    proof {
                        ss = ss.push(self@);
                        assert forall|m: int| #![trigger ss[m]] 0 <= m < done implies field_step(t@, *field, ts[m].0, ts[m].1, iv, sh, graphs@, feds@, ss[m], ss[m + 1], Ok(())) by {
                            assert(ss[m] == pss[m] && ss[m + 1] == pss[m + 1]);
                        }
                        assert(ss[done as int] == pss.last());
                    }
                    match r {
                        Err(e) => {
                            assert(field_run(t@, *field, ts, iv, sh, graphs@, feds@, ss, Err::<(), FederationError>(e)));
                            return Err(e);
                        },
                        Ok(u) => {
                            proof {
                                assert(r == Ok::<(), FederationError>(()));
                                assert(field_step(t@, *field, ts[done as int].0, ts[done as int].1, iv, sh, graphs@, feds@, ss[done as int], ss[done + 1], Ok(())));
                                assert forall|m: int| 0 <= m < done + 1 implies (#[trigger] application_targets(apps@.take(j + 1))[m]) == ts[m] by {
                                    if m < done {
                                        assert(application_targets(apps@.take(j + 1))[m] == application_targets(apps@.take(j as int))[m]);
                                    }
                                }
                            }
                        },
                    }
                    done = done + 1;
                },
            }
            j = j + 1;
        }
        proof {
            assert(apps@.take(j as int) =~= apps@);
        }
        assert(field_run(t@, *field, ts, iv, sh, graphs@, feds@, ss, Ok::<(), FederationError>(())));
        Ok(())
    }
}

/// The targets of a prefix of the applications are a prefix of those of all of them.
proof fn lemma_targets_prefix(apps: Seq<FieldDirectiveArguments>, j: int)
    requires
        0 <= j <= apps.len(),
    ensures
        application_targets(apps.take(j)).len() <= application_targets(apps).len(),
        forall|m: int| 0 <= m < application_targets(apps.take(j)).len() ==> (#[trigger] application_targets(apps.take(j))[m]) == application_targets(apps)[m],
    decreases apps.len() - j,
{
    if j == apps.len() {
        assert(apps.take(j) =~= apps);
    } else {
        lemma_targets_prefix(apps, j + 1);
        lemma_application_targets_step(apps, j);
        assert forall|m: int| 0 <= m < application_targets(apps.take(j)).len() implies (#[trigger] application_targets(apps.take(j))[m])
            == application_targets(apps)[m] by {
            assert(application_targets(apps.take(j))[m] == application_targets(apps.take(j + 1))[m]);
        }
    }
}

/// Whether `subs2` is `subs` after adding the scalar `n` to the subgraph of the graph of
/// `app`: the subgraph looked up (an internal error where there is none), then the scalar made
/// room for and inserted there.
pub open spec fn scalar_step(
    n: Seq<char>,
    app: TypeDirectiveArguments,
    graphs: Seq<(String, String)>,
    subs: Seq<FederationSubgraph>,
    subs2: Seq<FederationSubgraph>,
    r: Result<(), FederationError>,
) -> bool {
    let g = app.graph@;
    match graph_subgraph_name(graphs, g) {
        None => internal_result(r, invalid_graph_message(g)) && subs2 == subs,
        Some(name) => match subgraph_position(subs, name) {
            None => internal_result(r, subgraph_not_created_message()) && subs2 == subs,
            Some(i) => {
                &&& subs2.len() == subs.len()
                &&& forall|m: int| 0 <= m < subs.len() && m != i ==> subs2[m] == subs[m]
                &&& subs2[i].name == subs[i].name
                &&& subs2[i].url == subs[i].url
                &&& exists|ops: Seq<SchemaOperation>| #![trigger operations_run(subs[i].schema, subs2[i].schema, ops, r)]
                    {
                        &&& ops.len() == 2
                        &&& ops[0] matches SchemaOperation::PreInsertType(x, k) && x@ == n && k == TypeKind::Scalar
                        &&& ops[1] matches SchemaOperation::InsertType(ty) && ty matches ExtendedType::Scalar { name: y, directives }
                            && y@ == n && directives@.len() == 0
                        &&& operations_run(subs[i].schema, subs2[i].schema, ops, r)
                    }
            },
        },
    }
}

/// Whether the subgraph lists `ss` go, application by application of `apps` (see
/// [`scalar_step`]), from the first to the last, stopping at the first that fails.
pub open spec fn scalar_run(
    n: Seq<char>,
    apps: Seq<TypeDirectiveArguments>,
    graphs: Seq<(String, String)>,
    ss: Seq<Seq<FederationSubgraph>>,
    res: Result<(), FederationError>,
) -> bool {
    let c = ss.len() - 1;
    &&& 1 <= ss.len() <= apps.len() + 1
    &&& forall|k: int| #![trigger ss[k]] 0 <= k < c ==> scalar_step(n, apps[k], graphs, ss[k], ss[k + 1], if k == c - 1 { res } else { Ok(()) })
    &&& (res is Ok ==> c == apps.len())
    &&& (res is Err ==> c > 0)
}

impl FederationSubgraphs {
    fn add_scalar_to(&mut self, n: &String, app: &TypeDirectiveArguments, graphs: &Vec<(String, String)>) -> (res: Result<(), FederationError>)
        requires
            old(self).wf(),
        ensures
            final(self).wf(),
            scalar_step(n@, *app, graphs@, old(self)@, final(self)@, res),
    {
        let name = match find_graph_subgraph(graphs, &app.graph) {
            Some(x) => x,
            None => {
                proof {
                    reveal_with_fuel(concat_views, 4);
                }
                let m = concat_strs(&["Invalid graph enum_value \"", app.graph.as_str(), "\": does not match an enum value defined in the @join__Graph enum"]);
                assert(m@ =~= invalid_graph_message(app.graph@));
                return internal_error_with(m);
            },
        };
        proof {
            lemma_subgraph_position(self@, name@);
        }
        let i = match self.find(name.as_str()) {
            Some(i) => i,
            None => {
                let m = String::from_str("All subgraphs should have been created by \"collect_empty_subgraphs()\"");
                proof {
                    reveal_strlit("All subgraphs should have been created by \"collect_empty_subgraphs()\"");
                }
                return internal_error_with(m);
            },
        };
        assert(subgraph_position(self@, name@) == Some(i as int)) by {
            let p = subgraph_position(self@, name@)->Some_0;
            if p != i as int {
                assert(self@[p].name@ != self@[i as int].name@);
            }
        }
        let mut ops: Vec<SchemaOperation> = Vec::new();
        ops.push(SchemaOperation::PreInsertType(n.clone(), TypeKind::Scalar));
        ops.push(SchemaOperation::InsertType(ExtendedType::Scalar { name: n.clone(), directives: Vec::new() }));
        let ghost gops = ops@;
        let ghost before = self@;
        let mut sg = self.subgraphs.remove(i);
        let ghost start = sg.schema;
        assert(start == before[i as int].schema);
        let r = apply_operations(&mut sg.schema, ops);
        assert(operations_run(start, sg.schema, gops, r));
        self.subgraphs.insert(i, sg);
        proof {
            assert(self@ =~= before.update(i as int, sg));
            assert(self@[i as int].schema == sg.schema);
            assert(gops[1] matches SchemaOperation::InsertType(ty) && ty matches ExtendedType::Scalar { name: y, directives }
                && y@ == n@ && directives@.len() == 0);
            assert(operations_run(before[i as int].schema, self@[i as int].schema, gops, r));
            assert forall|x: int, y: int| 0 <= x < self@.len() && 0 <= y < self@.len() && x != y implies self@[x].name@ != self@[y].name@ by {
                assert(before[x].name@ != before[y].name@);
            }
        }
        r
    }

    /// Adds the scalar `n` to the subgraph of each of the `@join__type` applications `apps`,
    /// in turn (see [`scalar_step`]).
    pub fn add_scalar(&mut self, n: &String, apps: &Vec<TypeDirectiveArguments>, graphs: &Vec<(String, String)>) -> (res: Result<(), FederationError>)
        requires
            old(self).wf(),
        ensures
            final(self).wf(),
            exists|ss: Seq<Seq<FederationSubgraph>>| #![trigger scalar_run(n@, apps@, graphs@, ss, res)]
                scalar_run(n@, apps@, graphs@, ss, res) && ss[0] == old(self)@ && ss.last() == final(self)@,
    {
        let ghost mut ss: Seq<Seq<FederationSubgraph>> = seq![self@];
        let mut j: usize = 0;
        while j < apps.len()
            invariant
                self.wf(),
                j <= apps@.len(),
                ss.len() == j + 1,
                ss[0] == old(self)@,
                ss.last() == self@,
                forall|k: int| #![trigger ss[k]] 0 <= k < j ==> scalar_step(n@, apps@[k], graphs@, ss[k], ss[k + 1], Ok(())),
            decreases apps@.len() - j,
        {
            let r = self.add_scalar_to(n, &apps[j], graphs);
            let ghost pss = ss;
            proof {
                ss = ss.push(self@);
                assert forall|k: int| #![trigger ss[k]] 0 <= k < j implies scalar_step(n@, apps@[k], graphs@, ss[k], ss[k + 1], Ok(())) by {
                    assert(ss[k] == pss[k] && ss[k + 1] == pss[k + 1]);
                }
                assert(ss[j as int] == pss.last());
            }
            match r {
                Err(e) => {
                    assert(scalar_run(n@, apps@, graphs@, ss, Err::<(), FederationError>(e)));
                    return Err(e);
                },
                Ok(u) => {
                    proof {
                        assert(r == Ok::<(), FederationError>(()));
                        assert(scalar_step(n@, apps@[j as int], graphs@, ss[j as int], ss[j + 1], Ok(())));
                    }
                },
            }
            j = j + 1;
        }
        assert(scalar_run(n@, apps@, graphs@, ss, Ok::<(), FederationError>(())));
        Ok(())
    }
}

/// The types found in the supergraph, by kind.
pub struct TypeInfos {
    pub object_types: Vec<TypeInfo>,
    pub interface_types: Vec<TypeInfo>,
    pub union_types: Vec<TypeInfo>,
    pub enum_types: Vec<TypeInfo>,
    pub input_object_types: Vec<TypeInfo>,
}

/// The mathematical form of a [`TypeInfo`]: its name and its graphs.
pub open spec fn type_info_view(i: TypeInfo) -> (Seq<char>, Seq<(Seq<char>, bool)>) {
    (i.name@, info_view(i.subgraph_info@))
}

pub open spec fn type_info_list_view(s: Seq<TypeInfo>) -> Seq<(Seq<char>, Seq<(Seq<char>, bool)>)> {
    s.map_values(|i: TypeInfo| type_info_view(i))
}

/// The mathematical form of [`TypeInfos`]: the lists of object, interface, union, enum and
/// input object types.
pub open spec fn type_infos_view(t: TypeInfos) -> Seq<Seq<(Seq<char>, Seq<(Seq<char>, bool)>)>> {
    seq![
        type_info_list_view(t.object_types@),
        type_info_list_view(t.interface_types@),
        type_info_list_view(t.union_types@),
        type_info_list_view(t.enum_types@),
        type_info_list_view(t.input_object_types@),
    ]
}

/// The list of [`type_infos_view`] that a type of kind `k` goes to.
pub open spec fn kind_slot(k: TypeKind) -> int {
    match k {
        TypeKind::Object => 0,
        TypeKind::Interface => 1,
        TypeKind::Union => 2,
        TypeKind::Enum => 3,
        _ => 4,
    }
}

pub open spec fn type_missing_message(n: Seq<char>) -> Seq<char> {
    "Type \""@ + n + "\" missing from schema"@
}

/// Whether `subs2` and `infos2` are `subs` and `infos` after adding the supergraph type `n`
/// to the subgraphs of its `@join__type` applications (those of the directive `jt`): the type
/// looked up (an internal error where the supergraph has none), its applications read (the
/// error of the first that cannot be); then a scalar added to each (see [`scalar_run`]), or
/// another type added as an empty type (see [`empty_type_run`]) and its graphs recorded under
/// its kind.
pub open spec fn all_types_step(
    sup: crate::schema::Schema,
    jt: Seq<char>,
    n: Seq<char>,
    graphs: Seq<(String, String)>,
    feds: Seq<(String, FederationSpecDefinitions)>,
    subs: Seq<FederationSubgraph>,
    infos: Seq<Seq<(Seq<char>, Seq<(Seq<char>, bool)>)>>,
    subs2: Seq<FederationSubgraph>,
    infos2: Seq<Seq<(Seq<char>, Seq<(Seq<char>, bool)>)>>,
    r: Result<(), FederationError>,
) -> bool {
    match type_index(sup.types@, n) {
        None => internal_result(r, type_missing_message(n)) && subs2 == subs && infos2 == infos,
        Some(i) => {
            let ty = sup.types@[i];
            match type_applications_read(ty.spec_directives(), jt) {
                Err(err) => r matches Err(e) && is_error(e, err) && subs2 == subs && infos2 == infos,
                Ok(v) => exists|apps: Seq<TypeDirectiveArguments>, ss: Seq<Seq<FederationSubgraph>>, is: Seq<Seq<(Seq<char>, bool)>>|
                    #![trigger type_added(n, ty.spec_kind(), apps, graphs, feds, subs, infos, subs2, infos2, ss, is, r)]
                    apps.map_values(|a: TypeDirectiveArguments| type_arguments_view(a)) == v
                        && type_added(n, ty.spec_kind(), apps, graphs, feds, subs, infos, subs2, infos2, ss, is, r),
            }
        },
    }
}

/// Whether the type `n` of kind `kind` is added to the subgraphs of its applications `apps`
/// through the states `ss` (and graph lists `is`): a scalar to each (see [`scalar_run`]);
/// another type, where it has applications, as an empty type (see [`empty_type_run`]), its
/// graphs recorded under its kind; else an invalid supergraph error.
pub open spec fn type_added(
    n: Seq<char>,
    kind: TypeKind,
    apps: Seq<TypeDirectiveArguments>,
    graphs: Seq<(String, String)>,
    feds: Seq<(String, FederationSpecDefinitions)>,
    subs: Seq<FederationSubgraph>,
    infos: Seq<Seq<(Seq<char>, Seq<(Seq<char>, bool)>)>>,
    subs2: Seq<FederationSubgraph>,
    infos2: Seq<Seq<(Seq<char>, Seq<(Seq<char>, bool)>)>>,
    ss: Seq<Seq<FederationSubgraph>>,
    is: Seq<Seq<(Seq<char>, bool)>>,
    r: Result<(), FederationError>,
) -> bool {
    if kind == TypeKind::Scalar {
        scalar_run(n, apps, graphs, ss, r) && ss[0] == subs && ss.last() == subs2 && infos2 == infos
    } else if apps.len() == 0 {
        supergraph_result(r, missing_join_type_message(n)) && subs2 == subs && infos2 == infos
    } else {
        &&& empty_type_run(n, kind, apps, graphs, feds, ss, is, r)
        &&& ss[0] == subs
        &&& ss.last() == subs2
        &&& infos2 == if r is Ok {
            infos.update(kind_slot(kind), infos[kind_slot(kind)].push((n, is.last())))
        } else {
            infos
        }
    }
}

/// Whether the states `ss` (subgraphs) and `is` (types found) go, type by type of `names`
/// (see [`all_types_step`]), from the first to the last, stopping at the first that fails.
pub open spec fn all_types_run(
    sup: crate::schema::Schema,
    jt: Seq<char>,
    names: Seq<Seq<char>>,
    graphs: Seq<(String, String)>,
    feds: Seq<(String, FederationSpecDefinitions)>,
    ss: Seq<Seq<FederationSubgraph>>,
    is: Seq<Seq<Seq<(Seq<char>, Seq<(Seq<char>, bool)>)>>>,
    res: Result<(), FederationError>,
) -> bool {
    let c = ss.len() - 1;
    &&& ss.len() == is.len()
    &&& 1 <= ss.len() <= names.len() + 1
    &&& forall|k: int| #![trigger ss[k]] 0 <= k < c ==> all_types_step(
        sup,
        jt,
        names[k],
        graphs,
        feds,
        ss[k],
        is[k],
        ss[k + 1],
        is[k + 1],
        if k == c - 1 { res } else { Ok(()) },
    )
    &&& (res is Ok ==> c == names.len())
    &&& (res is Err ==> c > 0)
}

proof fn lemma_push_info(infos: TypeInfos, k: TypeKind, info: TypeInfo, after: TypeInfos)
    requires
        k != TypeKind::Scalar,
        after.object_types@ == if k == TypeKind::Object { infos.object_types@.push(info) } else { infos.object_types@ },
        after.interface_types@ == if k == TypeKind::Interface { infos.interface_types@.push(info) } else { infos.interface_types@ },
        after.union_types@ == if k == TypeKind::Union { infos.union_types@.push(info) } else { infos.union_types@ },
        after.enum_types@ == if k == TypeKind::Enum { infos.enum_types@.push(info) } else { infos.enum_types@ },
        after.input_object_types@ == if k == TypeKind::InputObject { infos.input_object_types@.push(info) } else { infos.input_object_types@ },
    ensures
        type_infos_view(after) == type_infos_view(infos).update(kind_slot(k), type_infos_view(infos)[kind_slot(k)].push(type_info_view(info))),
{
    let a = type_infos_view(after);
    let b = type_infos_view(infos).update(kind_slot(k), type_infos_view(infos)[kind_slot(k)].push(type_info_view(info)));
    assert forall|m: int| 0 <= m < 5 implies a[m] =~= b[m] by {}
    assert(a =~= b);
}

impl FederationSubgraphs {
    /// Adds the supergraph type `n` to the subgraphs (see [`all_types_step`]).
    fn add_type_to_subgraphs(
        &mut self,
        sup: &crate::schema::Schema,
        jt: &String,
        n: &String,
        infos: &mut TypeInfos,
        graphs: &Vec<(String, String)>,
        feds: &Vec<(String, FederationSpecDefinitions)>,
    ) -> (res: Result<(), FederationError>)
        requires
            old(self).wf(),
        ensures
            final(self).wf(),
            all_types_step(*sup, jt@, n@, graphs@, feds@, old(self)@, type_infos_view(*old(infos)), final(self)@, type_infos_view(*final(infos)), res),
    {
        proof {
            lemma_type_index(sup.types@, n@);
        }
        let ty = match sup.get_type(n.as_str()) {
            Some(ty) => ty,
            None => {
                proof {
                    reveal_with_fuel(concat_views, 4);
                }
                let m = concat_strs(&["Type \"", n.as_str(), "\" missing from schema"]);
                assert(m@ =~= type_missing_message(n@));
                return internal_error_with(m);
            },
        };
        let apps = match type_applications(ty.directives(), jt) {
            Ok(apps) => apps,
            Err(e) => {
                return Err(e);
            },
        };
        let ghost v = apps@.map_values(|a: TypeDirectiveArguments| type_arguments_view(a));
        let k = ty.kind();
        if let TypeKind::Scalar = k {
            let r = self.add_scalar(n, &apps, graphs);
            proof {
                let ss = choose|ss: Seq<Seq<FederationSubgraph>>| #![trigger scalar_run(n@, apps@, graphs@, ss, r)]
                    scalar_run(n@, apps@, graphs@, ss, r) && ss[0] == old(self)@ && ss.last() == self@;
                let is = Seq::<Seq<(Seq<char>, bool)>>::empty();
                assert(type_added(n@, ty.spec_kind(), apps@, graphs@, feds@, old(self)@, type_infos_view(*old(infos)), self@, type_infos_view(*infos), ss, is, r));
            }
            return r;
        }
        if apps.len() == 0 {
            proof {
                reveal_with_fuel(concat_views, 4);
            }
            let m = concat_strs(&["Missing @join__type on \"", n.as_str(), "\""]);
            assert(m@ =~= missing_join_type_message(n@));
            let r = field_error(m);
            proof {
                let ss = seq![self@];
                let is = Seq::<Seq<(Seq<char>, bool)>>::empty();
                assert(type_added(n@, ty.spec_kind(), apps@, graphs@, feds@, old(self)@, type_infos_view(*old(infos)), self@, type_infos_view(*infos), ss, is, r));
            }
            return r;
        }
        let ghost s0 = self@;
        let r = self.add_empty_type(n, ty, &apps, graphs, feds);
        let ghost (ss, is) = choose|ss: Seq<Seq<FederationSubgraph>>, is: Seq<Seq<(Seq<char>, bool)>>|
            #![trigger empty_type_run(n@, ty.spec_kind(), apps@, graphs@, feds@, ss, is, crate::core_features::outcome(r))]
            {
                &&& empty_type_run(n@, ty.spec_kind(), apps@, graphs@, feds@, ss, is, crate::core_features::outcome(r))
                &&& ss[0] == s0
                &&& ss.last() == self@
                &&& (r matches Ok(info) ==> info.name@ == n@ && info_view(info.subgraph_info@) == is.last())
            };
        match r {
            Ok(info) => {
                let ghost before = *infos;
                let ghost iv = type_info_view(info);
                match k {
                    TypeKind::Object => infos.object_types.push(info),
                    TypeKind::Interface => infos.interface_types.push(info),
                    TypeKind::Union => infos.union_types.push(info),
                    TypeKind::Enum => infos.enum_types.push(info),
                    _ => infos.input_object_types.push(info),
                }
                proof {
                    lemma_push_info(before, k, info, *infos);
                    assert(type_added(n@, ty.spec_kind(), apps@, graphs@, feds@, old(self)@, type_infos_view(*old(infos)), self@, type_infos_view(*infos), ss, is, Ok(())));
                }
                Ok(())
            },
            Err(e) => {
                proof {
                    assert(type_added(n@, ty.spec_kind(), apps@, graphs@, feds@, old(self)@, type_infos_view(*old(infos)), self@, type_infos_view(*infos), ss, is, Err(e)));
                }
                Err(e)
            },
        }
    }
}

/// The types found in no type yet: five empty lists.
pub open spec fn no_type_infos() -> Seq<Seq<(Seq<char>, Seq<(Seq<char>, bool)>)>> {
    seq![Seq::empty(), Seq::empty(), Seq::empty(), Seq::empty(), Seq::empty()]
}

impl FederationSubgraphs {
    /// Adds each type of the supergraph `sup` named in `names` to the subgraphs of its
    /// `@join__type` applications (those of the directive `jt`), in turn (see
    /// [`all_types_step`]), stopping at the first that fails; the types other than scalars
    /// come back by kind, each with the graphs that have it.
    pub fn add_all_empty_subgraph_types(
        &mut self,
        sup: &crate::schema::Schema,
        jt: &String,
        names: &Vec<String>,
        graphs: &Vec<(String, String)>,
        feds: &Vec<(String, FederationSpecDefinitions)>,
    ) -> (res: Result<TypeInfos, FederationError>)
        requires
            old(self).wf(),
        ensures
            final(self).wf(),
            exists|ss: Seq<Seq<FederationSubgraph>>, is: Seq<Seq<Seq<(Seq<char>, Seq<(Seq<char>, bool)>)>>>|
                #![trigger all_types_run(*sup, jt@, crate::schema::strings_view(names@), graphs@, feds@, ss, is, crate::core_features::outcome(res))]
                {
                    &&& all_types_run(*sup, jt@, crate::schema::strings_view(names@), graphs@, feds@, ss, is, crate::core_features::outcome(res))
                    &&& ss[0] == old(self)@
                    &&& is[0] == no_type_infos()
                    &&& ss.last() == final(self)@
                    &&& (res matches Ok(infos) ==> type_infos_view(infos) == is.last())
                },
    {
        let mut infos = TypeInfos {
            object_types: Vec::new(),
            interface_types: Vec::new(),
            union_types: Vec::new(),
            enum_types: Vec::new(),
            input_object_types: Vec::new(),
        };
        let ghost ns = crate::schema::strings_view(names@);
        let ghost mut ss: Seq<Seq<FederationSubgraph>> = seq![self@];
        let ghost mut is: Seq<Seq<Seq<(Seq<char>, Seq<(Seq<char>, bool)>)>>> = seq![type_infos_view(infos)];
        proof {
            assert(type_info_list_view(infos.object_types@) =~= Seq::empty());
            assert(type_info_list_view(infos.interface_types@) =~= Seq::empty());
            assert(type_info_list_view(infos.union_types@) =~= Seq::empty());
            assert(type_info_list_view(infos.enum_types@) =~= Seq::empty());
            assert(type_info_list_view(infos.input_object_types@) =~= Seq::empty());
            assert(type_infos_view(infos) =~= no_type_infos());
        }
        let mut j: usize = 0;
        while j < names.len()
            invariant
                self.wf(),
                j <= names@.len(),
                ns == crate::schema::strings_view(names@),
                ss.len() == j + 1,
                is.len() == j + 1,
                ss[0] == old(self)@,
                is[0] == no_type_infos(),
                ss.last() == self@,
                is.last() == type_infos_view(infos),
                forall|k: int| #![trigger ss[k]] 0 <= k < j ==> all_types_step(*sup, jt@, ns[k], graphs@, feds@, ss[k], is[k], ss[k + 1], is[k + 1], Ok(())),
            decreases names@.len() - j,
        {
            assert(ns[j as int] == names@[j as int]@);
            let r = self.add_type_to_subgraphs(sup, jt, &names[j], &mut infos, graphs, feds);
            let ghost pss = ss;
            let ghost pis = is;
            proof {
                ss = ss.push(self@);
                is = is.push(type_infos_view(infos));
                assert forall|k: int| #![trigger ss[k]] 0 <= k < j implies all_types_step(*sup, jt@, ns[k], graphs@, feds@, ss[k], is[k], ss[k + 1], is[k + 1], Ok(())) by {
                    assert(ss[k] == pss[k] && ss[k + 1] == pss[k + 1] && is[k] == pis[k] && is[k + 1] == pis[k + 1]);
                }
                assert(ss[j as int] == pss.last() && is[j as int] == pis.last());
            }
            match r {
                Err(e) => {
                    assert(all_types_run(*sup, jt@, ns, graphs@, feds@, ss, is, Err::<(), FederationError>(e)));
                    let res: Result<TypeInfos, FederationError> = Err(e);
                    assert(crate::core_features::outcome(res) == Err::<(), FederationError>(e));
                    return res;
                },
                Ok(u) => {
                    proof {
                        assert(r == Ok::<(), FederationError>(()));
                        assert(all_types_step(*sup, jt@, ns[j as int], graphs@, feds@, ss[j as int], is[j as int], ss[j + 1], is[j + 1], Ok(())));
                    }
                },
            }
            j = j + 1;
        }
        assert(all_types_run(*sup, jt@, ns, graphs@, feds@, ss, is, Ok::<(), FederationError>(())));
        let res: Result<TypeInfos, FederationError> = Ok(infos);
        assert(crate::core_features::outcome(res) == Ok::<(), FederationError>(()));
        res
    }
}


pub open spec fn implements_without_type_message(t: Seq<char>, g: Seq<char>) -> Seq<char> {
    "@join__implements cannot exist on \""@ + t + "\" for subgraph \""@ + g
        + "\" without type-level @join__type"@
}

/// Whether `subs2` is `subs` after the `@join__implements` application `app` of the object
/// type `t`: the graph checked to have the type (an invalid supergraph error where it does
/// not), its subgraph looked up, and the interface added to what the type implements there
/// (see [`implements_insertion`]).
pub open spec fn implements_step(
    t: Seq<char>,
    app: ImplementsDirectiveArguments,
    info: Seq<(Seq<char>, bool)>,
    graphs: Seq<(String, String)>,
    subs: Seq<FederationSubgraph>,
    subs2: Seq<FederationSubgraph>,
    r: Result<(), FederationError>,
) -> bool {
    let g = app.graph@;
    if !has_graph(info, g) {
        supergraph_result(r, implements_without_type_message(t, g)) && subs2 == subs
    } else {
        match graph_subgraph_name(graphs, g) {
            None => internal_result(r, invalid_graph_message(g)) && subs2 == subs,
            Some(name) => match subgraph_position(subs, name) {
                None => internal_result(r, subgraph_not_created_message()) && subs2 == subs,
                Some(i) => {
                    &&& subs2.len() == subs.len()
                    &&& forall|m: int| 0 <= m < subs.len() && m != i ==> subs2[m] == subs[m]
                    &&& subs2[i].name == subs[i].name
                    &&& subs2[i].url == subs[i].url
                    &&& implements_insertion(subs[i].schema, subs2[i].schema, t, TypeKind::Object, app.interface@, r)
                },
            },
        }
    }
}

/// Whether the first graph of `info` that is `g` marks an interface object: `None` where no
/// graph of `info` is `g`.
pub open spec fn graph_flag(info: Seq<(Seq<char>, bool)>, g: Seq<char>) -> Option<bool>
    decreases info.len(),
{
    if info.len() == 0 {
        None
    } else if info[0].0 == g {
        Some(info[0].1)
    } else {
        graph_flag(info.drop_first(), g)
    }
}

pub open spec fn interface_implements_without_type_message(t: Seq<char>, g: Seq<char>) -> Seq<char> {
    "@join__implements cannot exist on "@ + t + " for subgraph "@ + g + " without type-level @join__type"@
}

pub open spec fn unexpected_interface_object_message() -> Seq<char> {
    "\"extract_interface_type_content()\" encountered an unexpected interface object type in subgraph"@
}

pub open spec fn expected_interface_object_message() -> Seq<char> {
    "\"extract_interface_type_content()\" encountered an interface type in subgraph that should have been an interface object"@
}

pub open spec fn non_composite_implements_message() -> Seq<char> {
    "\"extract_interface_type_content()\" encountered non-object/interface type in subgraph"@
}

/// Whether `subs2` is `subs` after the `@join__implements` application `app` of the interface
/// type `t`: the graph looked up among those that have the type (an invalid supergraph error
/// where none is), its subgraph looked up, and the type there checked to be an object where
/// the graph has it as an interface object and an interface where not (an internal error
/// otherwise, or where the subgraph lacks it); then the interface added to what it
/// implements (see [`implements_insertion`]).
pub open spec fn interface_implements_step(
    t: Seq<char>,
    app: ImplementsDirectiveArguments,
    info: Seq<(Seq<char>, bool)>,
    graphs: Seq<(String, String)>,
    subs: Seq<FederationSubgraph>,
    subs2: Seq<FederationSubgraph>,
    r: Result<(), FederationError>,
) -> bool {
    let g = app.graph@;
    match graph_flag(info, g) {
        None => supergraph_result(r, interface_implements_without_type_message(t, g)) && subs2 == subs,
        Some(is_object) => match graph_subgraph_name(graphs, g) {
            None => internal_result(r, invalid_graph_message(g)) && subs2 == subs,
            Some(name) => match subgraph_position(subs, name) {
                None => internal_result(r, subgraph_not_created_message()) && subs2 == subs,
                Some(i) => match type_index(subs[i].schema.spec_schema().types@, t) {
                    None => internal_result(r, type_missing_in_subgraph_message(t)) && subs2 == subs,
                    Some(j) => {
                        let k = subs[i].schema.spec_schema().types@[j].spec_kind();
                        if k == TypeKind::Object && !is_object {
                            internal_result(r, unexpected_interface_object_message()) && subs2 == subs
                        } else if k == TypeKind::Interface && is_object {
                            internal_result(r, expected_interface_object_message()) && subs2 == subs
                        } else if k != TypeKind::Object && k != TypeKind::Interface {
                            internal_result(r, non_composite_implements_message()) && subs2 == subs
                        } else {
                            &&& subs2.len() == subs.len()
                            &&& forall|m: int| 0 <= m < subs.len() && m != i ==> subs2[m] == subs[m]
                            &&& subs2[i].name == subs[i].name
                            &&& subs2[i].url == subs[i].url
                            &&& implements_insertion(subs[i].schema, subs2[i].schema, t, k, app.interface@, r)
                        }
                    },
                },
            },
        },
    }
}

/// The interface object mark of the first graph of `info` that is `g`.
fn info_flag(info: &Vec<(String, bool)>, g: &String) -> (res: Option<bool>)
    ensures
        res == graph_flag(info_view(info@), g@),
{
    let ghost iv = info_view(info@);
    let mut i: usize = 0;
    assert(iv.skip(0) =~= iv);
    while i < info.len()
        invariant
            i <= info@.len(),
            iv == info_view(info@),
            iv.len() == info@.len(),
            graph_flag(iv, g@) == graph_flag(iv.skip(i as int), g@),
        decreases info@.len() - i,
    {
        assert(iv.skip(i as int)[0] == iv[i as int]);
        assert(iv.skip(i as int).drop_first() =~= iv.skip(i + 1));
        if info[i].0 == *g {
            assert(iv[i as int].0 == g@);
            return Some(info[i].1);
        }
        i = i + 1;
    }
    assert(iv.skip(i as int).len() == 0);
    None
}

/// Whether `after` is `before` with the field `field` of the object type `t` (where `object`)
/// or interface type `t` extracted into the subgraphs (see
/// [`FederationSubgraphs::extract_field`]; an interface's fields are never marked shareable),
/// `r` the outcome.
pub open spec fn field_extracted(
    t: Seq<char>,
    field: FieldDefinition,
    apps: Seq<FieldDirectiveArguments>,
    info: Seq<(Seq<char>, bool)>,
    object: bool,
    graphs: Seq<(String, String)>,
    feds: Seq<(String, FederationSpecDefinitions)>,
    before: Seq<FederationSubgraph>,
    after: Seq<FederationSubgraph>,
    r: Result<(), FederationError>,
) -> bool {
    exists|ss: Seq<Seq<FederationSubgraph>>|
        #![trigger field_run(t, field, field_targets(apps, info), info, shareable_of(apps, info, object), graphs, feds, ss, r)]
        field_run(t, field, field_targets(apps, info), info, shareable_of(apps, info, object), graphs, feds, ss, r)
            && ss[0] == before && ss.last() == after
}

/// Step `k` of the extraction of the content of an object type (where `object`) or interface
/// type: its `k`-th `@join__implements` application (see [`implements_step`] and
/// [`interface_implements_step`]), and after those, its fields in order, each with its
/// `@join__field` applications (see [`field_extracted`]).
pub open spec fn content_step(
    t: Seq<char>,
    object: bool,
    impls: Seq<ImplementsDirectiveArguments>,
    fields: Seq<(FieldDefinition, Seq<FieldDirectiveArguments>)>,
    k: int,
    info: Seq<(Seq<char>, bool)>,
    graphs: Seq<(String, String)>,
    feds: Seq<(String, FederationSpecDefinitions)>,
    before: Seq<FederationSubgraph>,
    after: Seq<FederationSubgraph>,
    r: Result<(), FederationError>,
) -> bool {
    if k < impls.len() {
        if object {
            implements_step(t, impls[k], info, graphs, before, after, r)
        } else {
            interface_implements_step(t, impls[k], info, graphs, before, after, r)
        }
    } else {
        let f = fields[k - impls.len()];
        field_extracted(t, f.0, f.1, info, object, graphs, feds, before, after, r)
    }
}

/// Whether the subgraph lists `ss` go, step by step (see [`content_step`]), through the
/// content of the object type (where `object`) or interface type `t`, stopping at the first step that fails; `res` the outcome.
pub open spec fn type_content_run(
    t: Seq<char>,
    object: bool,
    impls: Seq<ImplementsDirectiveArguments>,
    fields: Seq<(FieldDefinition, Seq<FieldDirectiveArguments>)>,
    info: Seq<(Seq<char>, bool)>,
    graphs: Seq<(String, String)>,
    feds: Seq<(String, FederationSpecDefinitions)>,
    ss: Seq<Seq<FederationSubgraph>>,
    res: Result<(), FederationError>,
) -> bool {
    let n = ss.len() - 1;
    &&& 1 <= ss.len() <= impls.len() + fields.len() + 1
    &&& forall|k: int| #![trigger ss[k]] 0 <= k < n ==> content_step(
        t,
        object,
        impls,
        fields,
        k,
        info,
        graphs,
        feds,
        ss[k],
        ss[k + 1],
        if k == n - 1 { res } else { Ok(()) },
    )
    &&& (res is Ok ==> n == impls.len() + fields.len())
    &&& (res is Err ==> n > 0)
}

/// The views of fields with their `@join__field` applications.
pub open spec fn fields_view(fields: Seq<(FieldDefinition, Vec<FieldDirectiveArguments>)>) -> Seq<(FieldDefinition, Seq<FieldDirectiveArguments>)> {
    fields.map_values(|f: (FieldDefinition, Vec<FieldDirectiveArguments>)| (f.0, f.1@))
}

impl FederationSubgraphs {
    /// Applies one `@join__implements` application of the object type `t` (see
    /// [`implements_step`]).
    fn add_implements_to(
        &mut self,
        t: &String,
        app: &ImplementsDirectiveArguments,
        info: &TypeInfo,
        graphs: &Vec<(String, String)>,
    ) -> (res: Result<(), FederationError>)
        requires
            old(self).wf(),
        ensures
            final(self).wf(),
            implements_step(t@, *app, info_view(info.subgraph_info@), graphs@, old(self)@, final(self)@, res),
    {
        let g = &app.graph;
        if !info_has_graph(&info.subgraph_info, g) {
            proof {
                reveal_with_fuel(concat_views, 6);
            }
            let m = concat_strs(&[
                "@join__implements cannot exist on \"",
                t.as_str(),
                "\" for subgraph \"",
                g.as_str(),
                "\" without type-level @join__type",
            ]);
            assert(m@ =~= implements_without_type_message(t@, g@));
            return field_error(m);
        }
        let name = match find_graph_subgraph(graphs, g) {
            Some(n) => n,
            None => {
                proof {
                    reveal_with_fuel(concat_views, 4);
                }
                let m = concat_strs(&["Invalid graph enum_value \"", g.as_str(), "\": does not match an enum value defined in the @join__Graph enum"]);
                assert(m@ =~= invalid_graph_message(g@));
                return internal_error_with(m);
            },
        };
        proof {
            lemma_subgraph_position(self@, name@);
        }
        let i = match self.find(name.as_str()) {
            Some(i) => i,
            None => {
                let m = String::from_str("All subgraphs should have been created by \"collect_empty_subgraphs()\"");
                proof {
                    reveal_strlit("All subgraphs should have been created by \"collect_empty_subgraphs()\"");
                }
                return internal_error_with(m);
            },
        };
        assert(subgraph_position(self@, name@) == Some(i as int)) by {
            let p = subgraph_position(self@, name@)->Some_0;
            if p != i as int {
                assert(self@[p].name@ != self@[i as int].name@);
            }
        }
        let ghost before = self@;
        let mut sg = self.subgraphs.remove(i);
        let pos = ObjectTypeDefinitionPosition { name_of_type: t.clone() };
        let r = pos.insert_implements_interface(&mut sg.schema, &app.interface);
        self.subgraphs.insert(i, sg);
        proof {
            assert(self@ =~= before.update(i as int, sg));
            assert forall|x: int, y: int| 0 <= x < self@.len() && 0 <= y < self@.len() && x != y implies self@[x].name@ != self@[y].name@ by {
                assert(before[x].name@ != before[y].name@);
            }
        }
        r
    }

    /// Applies one `@join__implements` application of the interface type `t` (see
    /// [`interface_implements_step`]).
    fn add_interface_implements_to(
        &mut self,
        t: &String,
        app: &ImplementsDirectiveArguments,
        info: &TypeInfo,
        graphs: &Vec<(String, String)>,
    ) -> (res: Result<(), FederationError>)
        requires
            old(self).wf(),
        ensures
            final(self).wf(),
            interface_implements_step(t@, *app, info_view(info.subgraph_info@), graphs@, old(self)@, final(self)@, res),
    {
        let g = &app.graph;
        let is_object = match info_flag(&info.subgraph_info, g) {
            Some(b) => b,
            None => {
                proof {
                    reveal_with_fuel(concat_views, 6);
                }
                let m = concat_strs(&[
                    "@join__implements cannot exist on ",
                    t.as_str(),
                    " for subgraph ",
                    g.as_str(),
                    " without type-level @join__type",
                ]);
                assert(m@ =~= interface_implements_without_type_message(t@, g@));
                return field_error(m);
            },
        };
        let name = match find_graph_subgraph(graphs, g) {
            Some(n) => n,
            None => {
                proof {
                    reveal_with_fuel(concat_views, 4);
                }
                let m = concat_strs(&["Invalid graph enum_value \"", g.as_str(), "\": does not match an enum value defined in the @join__Graph enum"]);
                assert(m@ =~= invalid_graph_message(g@));
                return internal_error_with(m);
            },
        };
        proof {
            lemma_subgraph_position(self@, name@);
        }
        let i = match self.find(name.as_str()) {
            Some(i) => i,
            None => {
                let m = String::from_str("All subgraphs should have been created by \"collect_empty_subgraphs()\"");
                proof {
                    reveal_strlit("All subgraphs should have been created by \"collect_empty_subgraphs()\"");
                }
                return internal_error_with(m);
            },
        };
        assert(subgraph_position(self@, name@) == Some(i as int)) by {
            let p = subgraph_position(self@, name@)->Some_0;
            if p != i as int {
                assert(self@[p].name@ != self@[i as int].name@);
            }
        }
        let k = match self.subgraphs[i].schema.schema().get_type(t.as_str()) {
            Some(ty) => ty.kind(),
            None => {
                proof {
                    reveal_with_fuel(concat_views, 4);
                }
                let m = concat_strs(&["Missing type \"", t.as_str(), "\" from subgraph despite it being in type_info"]);
                assert(m@ =~= type_missing_in_subgraph_message(t@));
                return internal_error_with(m);
            },
        };
        match k {
            TypeKind::Object => {
                if !is_object {
                    let m = String::from_str("\"extract_interface_type_content()\" encountered an unexpected interface object type in subgraph");
                    proof {
                        reveal_strlit("\"extract_interface_type_content()\" encountered an unexpected interface object type in subgraph");
                    }
                    return internal_error_with(m);
                }
            },
            TypeKind::Interface => {
                if is_object {
                    let m = String::from_str("\"extract_interface_type_content()\" encountered an interface type in subgraph that should have been an interface object");
                    proof {
                        reveal_strlit("\"extract_interface_type_content()\" encountered an interface type in subgraph that should have been an interface object");
                    }
                    return internal_error_with(m);
                }
            },
            _ => {
                let m = String::from_str("\"extract_interface_type_content()\" encountered non-object/interface type in subgraph");
                proof {
                    reveal_strlit("\"extract_interface_type_content()\" encountered non-object/interface type in subgraph");
                }
                return internal_error_with(m);
            },
        }
        let ghost before = self@;
        let mut sg = self.subgraphs.remove(i);
        let r = match k {
            TypeKind::Object => ObjectTypeDefinitionPosition { name_of_type: t.clone() }.insert_implements_interface(&mut sg.schema, &app.interface),
            _ => InterfaceTypeDefinitionPosition { name_of_type: t.clone() }.insert_implements_interface(&mut sg.schema, &app.interface),
        };
        self.subgraphs.insert(i, sg);
        proof {
            assert(self@ =~= before.update(i as int, sg));
            assert forall|x: int, y: int| 0 <= x < self@.len() && 0 <= y < self@.len() && x != y implies self@[x].name@ != self@[y].name@ by {
                assert(before[x].name@ != before[y].name@);
            }
        }
        r
    }

    /// Extracts the content of the object type (where `object`) or interface type `t` into
    /// the subgraphs: its `@join__implements` applications `impls`, then its fields, each with
    /// its `@join__field` applications, in order (see [`type_content_run`]); stops at the first
    /// step that fails.
    fn extract_type_content(
        &mut self,
        t: &String,
        object: bool,
        impls: &Vec<ImplementsDirectiveArguments>,
        fields: &Vec<(FieldDefinition, Vec<FieldDirectiveArguments>)>,
        info: &TypeInfo,
        graphs: &Vec<(String, String)>,
        feds: &Vec<(String, FederationSpecDefinitions)>,
    ) -> (res: Result<(), FederationError>)
        requires
            old(self).wf(),
        ensures
            final(self).wf(),
            exists|ss: Seq<Seq<FederationSubgraph>>|
                #![trigger type_content_run(t@, object, impls@, fields_view(fields@), info_view(info.subgraph_info@), graphs@, feds@, ss, res)]
                type_content_run(t@, object, impls@, fields_view(fields@), info_view(info.subgraph_info@), graphs@, feds@, ss, res)
                    && ss[0] == old(self)@ && ss.last() == final(self)@,
    {
        let ghost iv = info_view(info.subgraph_info@);
        let ghost fv = fields_view(fields@);
        let ghost mut ss: Seq<Seq<FederationSubgraph>> = seq![self@];
        let mut j: usize = 0;
        while j < impls.len()
            invariant
                self.wf(),
                j <= impls@.len(),
                iv == info_view(info.subgraph_info@),
                fv == fields_view(fields@),
                ss.len() == j + 1,
                ss[0] == old(self)@,
                ss.last() == self@,
                forall|k: int| #![trigger ss[k]] 0 <= k < j ==> content_step(t@, object, impls@, fv, k, iv, graphs@, feds@, ss[k], ss[k + 1], Ok(())),
            decreases impls@.len() - j,
        {
            let r = if object {
                self.add_implements_to(t, &impls[j], info, graphs)
            } else {
                self.add_interface_implements_to(t, &impls[j], info, graphs)
            };
            let ghost pss = ss;
            proof {
                ss = ss.push(self@);
                assert forall|k: int| #![trigger ss[k]] 0 <= k < j implies content_step(t@, object, impls@, fv, k, iv, graphs@, feds@, ss[k], ss[k + 1], Ok(())) by {
                    assert(ss[k] == pss[k] && ss[k + 1] == pss[k + 1]);
                }
                assert(ss[j as int] == pss.last());
            }
            match r {
                Err(e) => {
                    assert(type_content_run(t@, object, impls@, fv, iv, graphs@, feds@, ss, Err::<(), FederationError>(e)));
                    return Err(e);
                },
                Ok(u) => {
                    assert(r == Ok::<(), FederationError>(()));
                },
            }
            j = j + 1;
        }
        let mut f: usize = 0;
        while f < fields.len()
            invariant
                self.wf(),
                f <= fields@.len(),
                iv == info_view(info.subgraph_info@),
                fv == fields_view(fields@),
                fv.len() == fields@.len(),
                ss.len() == impls@.len() + f + 1,
                ss[0] == old(self)@,
                ss.last() == self@,
                forall|k: int| #![trigger ss[k]] 0 <= k < impls@.len() + f ==> content_step(t@, object, impls@, fv, k, iv, graphs@, feds@, ss[k], ss[k + 1], Ok(())),
            decreases fields@.len() - f,
        {
            let ghost k0 = impls@.len() + f;
            let r = self.extract_field_of(t, &fields[f].0, &fields[f].1, info, object, graphs, feds);
            let ghost pss = ss;
            proof {
                ss = ss.push(self@);
                assert(fv[f as int] == (fields@[f as int].0, fields@[f as int].1@));
                assert(field_extracted(t@, fv[f as int].0, fv[f as int].1, iv, object, graphs@, feds@, pss.last(), self@, r));
                assert forall|k: int| #![trigger ss[k]] 0 <= k < k0 implies content_step(t@, object, impls@, fv, k, iv, graphs@, feds@, ss[k], ss[k + 1], Ok(())) by {
                    assert(ss[k] == pss[k] && ss[k + 1] == pss[k + 1]);
                }
                assert(ss[k0] == pss.last());
                assert(ss[k0 + 1] == self@);
                assert(content_step(t@, object, impls@, fv, k0, iv, graphs@, feds@, ss[k0], ss[k0 + 1], r));
            }
            match r {
                Err(e) => {
                    assert(type_content_run(t@, object, impls@, fv, iv, graphs@, feds@, ss, Err::<(), FederationError>(e)));
                    return Err(e);
                },
                Ok(u) => {
                    assert(r == Ok::<(), FederationError>(()));
                },
            }
            f = f + 1;
        }
        assert(type_content_run(t@, object, impls@, fv, iv, graphs@, feds@, ss, Ok::<(), FederationError>(())));
        Ok(())
    }

    /// Extracts the content of the object type `t` into the subgraphs: its
    /// `@join__implements` applications `impls`, then its fields, each with its
    /// `@join__field` applications, in order (see [`type_content_run`]); stops at the first
    /// step that fails.
    pub fn extract_object_content(
        &mut self,
        t: &String,
        impls: &Vec<ImplementsDirectiveArguments>,
        fields: &Vec<(FieldDefinition, Vec<FieldDirectiveArguments>)>,
        info: &TypeInfo,
        graphs: &Vec<(String, String)>,
        feds: &Vec<(String, FederationSpecDefinitions)>,
    ) -> (res: Result<(), FederationError>)
        requires
            old(self).wf(),
        ensures
            final(self).wf(),
            exists|ss: Seq<Seq<FederationSubgraph>>|
                #![trigger type_content_run(t@, true, impls@, fields_view(fields@), info_view(info.subgraph_info@), graphs@, feds@, ss, res)]
                type_content_run(t@, true, impls@, fields_view(fields@), info_view(info.subgraph_info@), graphs@, feds@, ss, res)
                    && ss[0] == old(self)@ && ss.last() == final(self)@,
    {
        self.extract_type_content(t, true, impls, fields, info, graphs, feds)
    }

    /// Extracts the content of the interface type `t` into the subgraphs: its
    /// `@join__implements` applications `impls` (see [`interface_implements_step`]), then its
    /// fields, none marked shareable, each with its `@join__field` applications, in order (see
    /// [`type_content_run`]); stops at the first step that fails.
    pub fn extract_interface_content(
        &mut self,
        t: &String,
        impls: &Vec<ImplementsDirectiveArguments>,
        fields: &Vec<(FieldDefinition, Vec<FieldDirectiveArguments>)>,
        info: &TypeInfo,
        graphs: &Vec<(String, String)>,
        feds: &Vec<(String, FederationSpecDefinitions)>,
    ) -> (res: Result<(), FederationError>)
        requires
            old(self).wf(),
        ensures
            final(self).wf(),
            exists|ss: Seq<Seq<FederationSubgraph>>|
                #![trigger type_content_run(t@, false, impls@, fields_view(fields@), info_view(info.subgraph_info@), graphs@, feds@, ss, res)]
                type_content_run(t@, false, impls@, fields_view(fields@), info_view(info.subgraph_info@), graphs@, feds@, ss, res)
                    && ss[0] == old(self)@ && ss.last() == final(self)@,
    {
        self.extract_type_content(t, false, impls, fields, info, graphs, feds)
    }
}

/// Step `k` of the extraction of the content of the supergraph's object type (where
/// `object`) or interface type `t`, whose applications are `ds` and fields `fields`: first, for
/// each application in turn, nothing where it is not `@join__implements` (named
/// `implements_name`), else its arguments read (the error where they cannot be) and applied
/// (see [`implements_step`] and [`interface_implements_step`]); then, for each field in turn,
/// its `@join__field` applications (named `field_name`) read (the error of the first that
/// cannot be) and the field extracted with them (see [`field_extracted`]).
pub open spec fn supergraph_content_step(
    t: Seq<char>,
    object: bool,
    ds: Seq<Directive>,
    fields: Seq<FieldDefinition>,
    implements_name: Seq<char>,
    field_name: Seq<char>,
    k: int,
    info: Seq<(Seq<char>, bool)>,
    graphs: Seq<(String, String)>,
    feds: Seq<(String, FederationSpecDefinitions)>,
    before: Seq<FederationSubgraph>,
    after: Seq<FederationSubgraph>,
    r: Result<(), FederationError>,
) -> bool {
    if k < ds.len() {
        if ds[k].name@ != implements_name {
            after == before && r is Ok
        } else {
            match implements_arguments_read(ds[k]) {
                Err(err) => r matches Err(e) && is_error(e, err) && after == before,
                Ok(v) => exists|a: ImplementsDirectiveArguments|
                    #![trigger implements_view(a)]
                    implements_view(a) == v && if object {
                        implements_step(t, a, info, graphs, before, after, r)
                    } else {
                        interface_implements_step(t, a, info, graphs, before, after, r)
                    },
            }
        }
    } else {
        let f = fields[k - ds.len()];
        match field_applications_read(f.directives@, field_name) {
            Err(err) => r matches Err(e) && is_error(e, err) && after == before,
            Ok(v) => exists|apps: Seq<FieldDirectiveArguments>|
                #![trigger field_extracted(t, f, apps, info, object, graphs, feds, before, after, r)]
                apps.map_values(|a: FieldDirectiveArguments| field_arguments_view(a)) == v
                    && field_extracted(t, f, apps, info, object, graphs, feds, before, after, r),
        }
    }
}

/// Whether the subgraph lists `ss` go, step by step (see [`supergraph_content_step`]), through
/// the content of the supergraph's object or interface type `ty`, stopping at the first step
/// that fails; `res` the outcome.
pub open spec fn supergraph_content_run(
    ty: ExtendedType,
    implements_name: Seq<char>,
    field_name: Seq<char>,
    info: Seq<(Seq<char>, bool)>,
    graphs: Seq<(String, String)>,
    feds: Seq<(String, FederationSpecDefinitions)>,
    ss: Seq<Seq<FederationSubgraph>>,
    res: Result<(), FederationError>,
) -> bool {
    let ds = ty.spec_directives();
    let fields = declared_fields(ty);
    let n = ss.len() - 1;
    &&& 1 <= ss.len() <= ds.len() + fields.len() + 1
    &&& forall|k: int| #![trigger ss[k]] 0 <= k < n ==> supergraph_content_step(
        ty.spec_name(),
        ty.spec_kind() == TypeKind::Object,
        ds,
        fields,
        implements_name,
        field_name,
        k,
        info,
        graphs,
        feds,
        ss[k],
        ss[k + 1],
        if k == n - 1 { res } else { Ok(()) },
    )
    &&& (res is Ok ==> n == ds.len() + fields.len())
    &&& (res is Err ==> n > 0)
}

impl FederationSubgraphs {
    /// Extracts into the subgraphs the content of the supergraph's object or interface type
    /// `ty`, reading its `@join__implements` applications (named `implements_name`) and the
    /// `@join__field` applications (named `field_name`) of its fields as it goes (see
    /// [`supergraph_content_run`]); stops at the first step that fails.
    pub fn extract_supergraph_type_content(
        &mut self,
        ty: &ExtendedType,
        info: &TypeInfo,
        implements_name: &String,
        field_name: &String,
        graphs: &Vec<(String, String)>,
        feds: &Vec<(String, FederationSpecDefinitions)>,
    ) -> (res: Result<(), FederationError>)
        requires
            old(self).wf(),
            ty.spec_kind() == TypeKind::Object || ty.spec_kind() == TypeKind::Interface,
        ensures
            final(self).wf(),
            exists|ss: Seq<Seq<FederationSubgraph>>|
                #![trigger supergraph_content_run(*ty, implements_name@, field_name@, info_view(info.subgraph_info@), graphs@, feds@, ss, res)]
                supergraph_content_run(*ty, implements_name@, field_name@, info_view(info.subgraph_info@), graphs@, feds@, ss, res)
                    && ss[0] == old(self)@ && ss.last() == final(self)@,
    {
        let ghost iv = info_view(info.subgraph_info@);
        let object = match ty {
            ExtendedType::Object { .. } => true,
            _ => false,
        };
        let t = ty.name();
        let ds = ty.directives();
        let fields = match ty {
            ExtendedType::Object { fields, .. } => fields,
            ExtendedType::Interface { fields, .. } => fields,
            _ => {
                proof {
                    assert(false);
                }
                return Ok(());
            },
        };
        assert(object == (ty.spec_kind() == TypeKind::Object));
        assert(fields@ == declared_fields(*ty));
        let ghost gds = ds@;
        let ghost gfs = fields@;
        let ghost mut ss: Seq<Seq<FederationSubgraph>> = seq![self@];
        let mut j: usize = 0;
        while j < ds.len()
            invariant
                self.wf(),
                j <= gds.len(),
                gds == ds@,
                gds == ty.spec_directives(),
                gfs == declared_fields(*ty),
                t@ == ty.spec_name(),
                object == (ty.spec_kind() == TypeKind::Object),
                iv == info_view(info.subgraph_info@),
                ss.len() == j + 1,
                ss[0] == old(self)@,
                ss.last() == self@,
                forall|k: int| #![trigger ss[k]] 0 <= k < j ==> supergraph_content_step(t@, object, gds, gfs, implements_name@, field_name@, k, iv, graphs@, feds@, ss[k], ss[k + 1], Ok(())),
            decreases gds.len() - j,
        {
            let ghost before = self@;
            let r = if ds[j].name != *implements_name {
                Ok(())
            } else {
                match implements_directive_arguments(&ds[j]) {
                    Err(e) => Err(e),
                    Ok(a) => {
                        let r = if object {
                            self.add_implements_to(t, &a, info, graphs)
                        } else {
                            self.add_interface_implements_to(t, &a, info, graphs)
                        };
                        assert(implements_view(a) == (a.graph@, a.interface@));
                        r
                    },
                }
            };
            let ghost pss = ss;
            proof {
                ss = ss.push(self@);
                assert forall|k: int| #![trigger ss[k]] 0 <= k < j implies supergraph_content_step(t@, object, gds, gfs, implements_name@, field_name@, k, iv, graphs@, feds@, ss[k], ss[k + 1], Ok(())) by {
                    assert(ss[k] == pss[k] && ss[k + 1] == pss[k + 1]);
                }
                assert(ss[j as int] == before);
                assert(supergraph_content_step(t@, object, gds, gfs, implements_name@, field_name@, j as int, iv, graphs@, feds@, ss[j as int], ss[j + 1], r));
            }
            match r {
                Err(e) => {
                    assert(supergraph_content_run(*ty, implements_name@, field_name@, iv, graphs@, feds@, ss, Err::<(), FederationError>(e)));
                    return Err(e);
                },
                Ok(u) => {
                    assert(r == Ok::<(), FederationError>(()));
                },
            }
            j = j + 1;
        }
        let mut f: usize = 0;
        while f < fields.len()
            invariant
                self.wf(),
                f <= gfs.len(),
                gds == ty.spec_directives(),
                gfs == fields@,
                gfs == declared_fields(*ty),
                t@ == ty.spec_name(),
                object == (ty.spec_kind() == TypeKind::Object),
                iv == info_view(info.subgraph_info@),
                ss.len() == gds.len() + f + 1,
                ss[0] == old(self)@,
                ss.last() == self@,
                forall|k: int| #![trigger ss[k]] 0 <= k < gds.len() + f ==> supergraph_content_step(t@, object, gds, gfs, implements_name@, field_name@, k, iv, graphs@, feds@, ss[k], ss[k + 1], Ok(())),
            decreases gfs.len() - f,
        {
            let ghost k0 = gds.len() + f;
            let ghost before = self@;
            let r = match field_applications(&fields[f].directives, field_name) {
                Err(e) => Err(e),
                Ok(apps) => self.extract_field_of(t, &fields[f], &apps, info, object, graphs, feds),
            };
            let ghost pss = ss;
            proof {
                ss = ss.push(self@);
                assert forall|k: int| #![trigger ss[k]] 0 <= k < k0 implies supergraph_content_step(t@, object, gds, gfs, implements_name@, field_name@, k, iv, graphs@, feds@, ss[k], ss[k + 1], Ok(())) by {
                    assert(ss[k] == pss[k] && ss[k + 1] == pss[k + 1]);
                }
                assert(ss[k0] == before);
                assert(ss[k0 + 1] == self@);
                assert(gfs[k0 - gds.len()] == fields@[f as int]);
                assert(supergraph_content_step(t@, object, gds, gfs, implements_name@, field_name@, k0, iv, graphs@, feds@, ss[k0], ss[k0 + 1], r));
            }
            match r {
                Err(e) => {
                    assert(supergraph_content_run(*ty, implements_name@, field_name@, iv, graphs@, feds@, ss, Err::<(), FederationError>(e)));
                    return Err(e);
                },
                Ok(u) => {
                    assert(r == Ok::<(), FederationError>(()));
                },
            }
            f = f + 1;
        }
        assert(supergraph_content_run(*ty, implements_name@, field_name@, iv, graphs@, feds@, ss, Ok::<(), FederationError>(())));
        Ok(())
    }
}

/// Step of the extraction of the supergraph's object types (where `object`) or interface types
/// for the type of `info`: the type looked up in the supergraph with its kind (an internal
/// error where it is missing or of another kind), then its content extracted (see
/// [`supergraph_content_run`]).
pub open spec fn type_content_step(
    supergraph: Schema,
    info: TypeInfo,
    object: bool,
    implements_name: Seq<char>,
    field_name: Seq<char>,
    graphs: Seq<(String, String)>,
    feds: Seq<(String, FederationSpecDefinitions)>,
    before: Seq<FederationSubgraph>,
    after: Seq<FederationSubgraph>,
    r: Result<(), FederationError>,
) -> bool {
    let k = if object { TypeKind::Object } else { TypeKind::Interface };
    match type_of_kind(supergraph, info.name@, k) {
        Err(m) => r matches Err(e) && crate::error::is_internal_error(e, m) && after == before,
        Ok(i) => content_extracted(supergraph.types@[i], implements_name, field_name, info_view(info.subgraph_info@), graphs, feds, before, after, r),
    }
}

/// Whether `after` is `before` with the content of the supergraph's type `ty` extracted (see
/// [`supergraph_content_run`]), `r` the outcome.
pub open spec fn content_extracted(
    ty: ExtendedType,
    implements_name: Seq<char>,
    field_name: Seq<char>,
    info: Seq<(Seq<char>, bool)>,
    graphs: Seq<(String, String)>,
    feds: Seq<(String, FederationSpecDefinitions)>,
    before: Seq<FederationSubgraph>,
    after: Seq<FederationSubgraph>,
    r: Result<(), FederationError>,
) -> bool {
    exists|ss: Seq<Seq<FederationSubgraph>>|
        #![trigger supergraph_content_run(ty, implements_name, field_name, info, graphs, feds, ss, r)]
        supergraph_content_run(ty, implements_name, field_name, info, graphs, feds, ss, r) && ss[0] == before
            && ss.last() == after
}

/// Whether the subgraph lists `ss` go, type by type of `infos` (see [`type_content_step`]),
/// through the content of the supergraph's object types (where `object`) or interface types,
/// stopping at the first that fails; `res` the outcome.
pub open spec fn types_content_run(
    supergraph: Schema,
    infos: Seq<TypeInfo>,
    object: bool,
    implements_name: Seq<char>,
    field_name: Seq<char>,
    graphs: Seq<(String, String)>,
    feds: Seq<(String, FederationSpecDefinitions)>,
    ss: Seq<Seq<FederationSubgraph>>,
    res: Result<(), FederationError>,
) -> bool {
    let n = ss.len() - 1;
    &&& 1 <= ss.len() <= infos.len() + 1
    &&& forall|k: int| #![trigger ss[k]] 0 <= k < n ==> type_content_step(
        supergraph,
        infos[k],
        object,
        implements_name,
        field_name,
        graphs,
        feds,
        ss[k],
        ss[k + 1],
        if k == n - 1 { res } else { Ok(()) },
    )
    &&& (res is Ok ==> n == infos.len())
    &&& (res is Err ==> n > 0)
}

impl FederationSubgraphs {
    /// Extracts into the subgraphs the content of the supergraph's object types (where
    /// `object`) or interface types, those of `infos` in turn (see [`types_content_run`]).
    fn extract_types_content(
        &mut self,
        supergraph: &Schema,
        infos: &Vec<TypeInfo>,
        object: bool,
        implements_name: &String,
        field_name: &String,
        graphs: &Vec<(String, String)>,
        feds: &Vec<(String, FederationSpecDefinitions)>,
    ) -> (res: Result<(), FederationError>)
        requires
            old(self).wf(),
        ensures
            final(self).wf(),
            exists|ss: Seq<Seq<FederationSubgraph>>|
                #![trigger types_content_run(*supergraph, infos@, object, implements_name@, field_name@, graphs@, feds@, ss, res)]
                types_content_run(*supergraph, infos@, object, implements_name@, field_name@, graphs@, feds@, ss, res)
                    && ss[0] == old(self)@ && ss.last() == final(self)@,
    {
        let k = if object { TypeKind::Object } else { TypeKind::Interface };
        let ghost mut ss: Seq<Seq<FederationSubgraph>> = seq![self@];
        let mut j: usize = 0;
        while j < infos.len()
            invariant
                self.wf(),
                j <= infos@.len(),
                k == (if object { TypeKind::Object } else { TypeKind::Interface }),
                ss.len() == j + 1,
                ss[0] == old(self)@,
                ss.last() == self@,
                forall|m: int| #![trigger ss[m]] 0 <= m < j ==> type_content_step(*supergraph, infos@[m], object, implements_name@, field_name@, graphs@, feds@, ss[m], ss[m + 1], Ok(())),
            decreases infos@.len() - j,
        {
            let ghost before = self@;
            let r = match locate_type(supergraph, &infos[j].name, k) {
                Err(e) => Err(e),
                Ok(i) => {
                    let r = self.extract_supergraph_type_content(&supergraph.types[i], &infos[j], implements_name, field_name, graphs, feds);
                    proof {
                        assert(type_of_kind(*supergraph, infos@[j as int].name@, k) == Ok::<int, Seq<char>>(i as int));
                    }
                    r
                },
            };
            assert(type_content_step(*supergraph, infos@[j as int], object, implements_name@, field_name@, graphs@, feds@, before, self@, r));
            let ghost pss = ss;
            proof {
                ss = ss.push(self@);
                assert forall|m: int| #![trigger ss[m]] 0 <= m < j implies type_content_step(*supergraph, infos@[m], object, implements_name@, field_name@, graphs@, feds@, ss[m], ss[m + 1], Ok(())) by {
                    assert(ss[m] == pss[m] && ss[m + 1] == pss[m + 1]);
                }
                assert(ss[j as int] == before);
                assert(type_content_step(*supergraph, infos@[j as int], object, implements_name@, field_name@, graphs@, feds@, ss[j as int], ss[j + 1], r));
            }
            match r {
                Err(e) => {
                    assert(types_content_run(*supergraph, infos@, object, implements_name@, field_name@, graphs@, feds@, ss, Err::<(), FederationError>(e)));
                    return Err(e);
                },
                Ok(u) => {
                    assert(r == Ok::<(), FederationError>(()));
                },
            }
            j = j + 1;
        }
        assert(types_content_run(*supergraph, infos@, object, implements_name@, field_name@, graphs@, feds@, ss, Ok::<(), FederationError>(())));
        Ok(())
    }

    /// Extracts into the subgraphs the content of the supergraph's object types, those of
    /// `infos` in turn, reading their `@join__implements` applications (named
    /// `implements_name`) and `@join__field` applications (named `field_name`) as it goes
    /// (see [`types_content_run`]); stops at the first that fails.
    pub fn extract_object_type_content(
        &mut self,
        supergraph: &Schema,
        infos: &Vec<TypeInfo>,
        implements_name: &String,
        field_name: &String,
        graphs: &Vec<(String, String)>,
        feds: &Vec<(String, FederationSpecDefinitions)>,
    ) -> (res: Result<(), FederationError>)
        requires
            old(self).wf(),
        ensures
            final(self).wf(),
            exists|ss: Seq<Seq<FederationSubgraph>>|
                #![trigger types_content_run(*supergraph, infos@, true, implements_name@, field_name@, graphs@, feds@, ss, res)]
                types_content_run(*supergraph, infos@, true, implements_name@, field_name@, graphs@, feds@, ss, res)
                    && ss[0] == old(self)@ && ss.last() == final(self)@,
    {
        self.extract_types_content(supergraph, infos, true, implements_name, field_name, graphs, feds)
    }

    /// Extracts into the subgraphs the content of the supergraph's interface types, those of
    /// `infos` in turn, as [`FederationSubgraphs::extract_object_type_content`] does for object
    /// types (see [`types_content_run`]).
    pub fn extract_interface_type_content(
        &mut self,
        supergraph: &Schema,
        infos: &Vec<TypeInfo>,
        implements_name: &String,
        field_name: &String,
        graphs: &Vec<(String, String)>,
        feds: &Vec<(String, FederationSpecDefinitions)>,
    ) -> (res: Result<(), FederationError>)
        requires
            old(self).wf(),
        ensures
            final(self).wf(),
            exists|ss: Seq<Seq<FederationSubgraph>>|
                #![trigger types_content_run(*supergraph, infos@, false, implements_name@, field_name@, graphs@, feds@, ss, res)]
                types_content_run(*supergraph, infos@, false, implements_name@, field_name@, graphs@, feds@, ss, res)
                    && ss[0] == old(self)@ && ss.last() == final(self)@,
    {
        self.extract_types_content(supergraph, infos, false, implements_name, field_name, graphs, feds)
    }
}

} // verus!
