//! API schemas: what a supergraph exposes to clients, without the elements that only serve
//! federation (join and link types, inaccessible elements, directive applications and
//! definitions).
use crate::ast::{clone_value, directives_view, str_eq, ArgumentView, Directive, DirectiveView, ValueView};
use crate::schema::{
    clone_strings, clone_type, enum_values_view, extended_type_view, fields_view, input_value_view,
    input_values_view, types_view, EnumValueDefinition, EnumValueView, ExtendedType,
    ExtendedTypeView, FieldDefinition, FieldView, InputValueDefinition, InputValueView, Schema,
    SchemaDefinition,
};
use crate::core_features::{core_removal, remove_core_feature_elements};
use crate::error::FederationError;
use crate::federation_schema::{DirectiveReferencers, FederationSchema};
use crate::inaccessible_elements::{inaccessible_removal, remove_inaccessible_elements};
use crate::position::{directive_definition_removal, DirectiveDefinitionPosition};
use vstd::prelude::*;

verus! {

/// Whether a type belongs to the join or link specifications.
pub open spec fn is_join_type_name(name: Seq<char>) -> bool {
    name == "join__Graph"@ || name == "link__Purpose"@ || name == "join__FieldSet"@ || name
        == "link__Import"@
}

/// Whether a type belongs to the join or link specifications: `join__Graph`,
/// `link__Purpose`, `join__FieldSet` or `link__Import`.
pub fn is_join_type(type_name_str: &str) -> (res: bool)
    ensures
        res == is_join_type_name(type_name_str@),
{
    let s = String::from_str(type_name_str);
    str_eq(&s, "join__Graph") || str_eq(&s, "link__Purpose") || str_eq(&s, "join__FieldSet")
        || str_eq(&s, "link__Import")
}

/// Whether `@inaccessible` is applied among `directives`.
pub open spec fn has_inaccessible(directives: Seq<DirectiveView>) -> bool {
    exists|i: int| 0 <= i < directives.len() && #[trigger] directives[i].name == "inaccessible"@
}

/// Whether `@inaccessible` is applied among `directives`.
pub fn is_inaccessible_applied(directives: &Vec<Directive>) -> (res: bool)
    ensures
        res == has_inaccessible(directives_view(directives@)),
{
    let mut i: usize = 0;
    while i < directives.len()
        invariant
            i <= directives@.len(),
            forall|j: int| 0 <= j < i ==> directives@[j].name@ != "inaccessible"@,
        decreases directives@.len() - i,
    {
        if str_eq(&directives[i].name, "inaccessible") {
            assert(directives_view(directives@)[i as int].name == "inaccessible"@);
            return true;
        }
        i = i + 1;
    }
    proof {
        if has_inaccessible(directives_view(directives@)) {
            let j = choose|j: int|
                0 <= j < directives_view(directives@).len() && #[trigger] directives_view(
                    directives@,
                )[j].name == "inaccessible"@;
            assert(directives@[j].name@ == "inaccessible"@);
        }
    }
    false
}

/// An argument or input field without its directive applications.
pub open spec fn api_input_value(v: InputValueView) -> InputValueView {
    InputValueView { name: v.name, ty: v.ty, default_value: v.default_value, directives: Seq::empty() }
}

/// The arguments (or input fields) that an API schema keeps, without their directives:
/// all of them, or where `filter`, those without `@inaccessible`.
pub open spec fn api_input_values(s: Seq<InputValueView>, filter: bool) -> Seq<InputValueView>
    decreases s.len(),
{
    if s.len() == 0 {
        Seq::empty()
    } else {
        let before = api_input_values(s.drop_last(), filter);
        if filter && has_inaccessible(s.last().directives) {
            before
        } else {
            before.push(api_input_value(s.last()))
        }
    }
}

/// The fields that an API schema keeps (those without `@inaccessible`), without their
/// directives, and with their arguments as [`api_input_values`] gives them.
pub open spec fn api_fields(s: Seq<FieldView>, filter_arguments: bool) -> Seq<FieldView>
    decreases s.len(),
{
    if s.len() == 0 {
        Seq::empty()
    } else {
        let before = api_fields(s.drop_last(), filter_arguments);
        let f = s.last();
        if has_inaccessible(f.directives) {
            before
        } else {
            before.push(
                FieldView {
                    name: f.name,
                    arguments: api_input_values(f.arguments, filter_arguments),
                    ty: f.ty,
                    directives: Seq::empty(),
                },
            )
        }
    }
}

/// The enum values that an API schema keeps (those without `@inaccessible`), without their
/// directives.
pub open spec fn api_enum_values(s: Seq<EnumValueView>) -> Seq<EnumValueView>
    decreases s.len(),
{
    if s.len() == 0 {
        Seq::empty()
    } else {
        let before = api_enum_values(s.drop_last());
        if has_inaccessible(s.last().directives) {
            before
        } else {
            before.push(EnumValueView { value: s.last().value, directives: Seq::empty() })
        }
    }
}

/// Whether `all` has an inaccessible type named `n`.
pub open spec fn hidden_type(all: Seq<ExtendedTypeView>, n: Seq<char>) -> bool {
    exists|i: int| 0 <= i < all.len() && type_view_name(all[i]) == n && has_inaccessible(#[trigger] type_view_directives(all[i]))
}

/// The union members that an API schema keeps: those that are not inaccessible types of
/// `all`, in order.
pub open spec fn api_members(ms: Seq<Seq<char>>, all: Seq<ExtendedTypeView>) -> Seq<Seq<char>>
    decreases ms.len(),
{
    if ms.len() == 0 {
        Seq::empty()
    } else {
        let before = api_members(ms.drop_last(), all);
        if hidden_type(all, ms.last()) {
            before
        } else {
            before.push(ms.last())
        }
    }
}

/// A type of the API schema of a schema with the types `all`: without directive
/// applications; without inaccessible fields, enum values, input fields and field arguments;
/// a union without its inaccessible members.
pub open spec fn api_type(t: ExtendedTypeView, all: Seq<ExtendedTypeView>) -> ExtendedTypeView {
    match t {
        ExtendedTypeView::Scalar { name, .. } => ExtendedTypeView::Scalar { name, directives: Seq::empty() },
        ExtendedTypeView::Object { name, implements_interfaces, fields, .. } => ExtendedTypeView::Object {
            name,
            implements_interfaces,
            directives: Seq::empty(),
            fields: api_fields(fields, true),
        },
        ExtendedTypeView::Interface { name, implements_interfaces, fields, .. } => ExtendedTypeView::Interface {
            name,
            implements_interfaces,
            directives: Seq::empty(),
            fields: api_fields(fields, true),
        },
        ExtendedTypeView::Union { name, members, .. } => ExtendedTypeView::Union {
            name,
            directives: Seq::empty(),
            members: api_members(members, all),
        },
        ExtendedTypeView::Enum { name, values, .. } => ExtendedTypeView::Enum {
            name,
            directives: Seq::empty(),
            values: api_enum_values(values),
        },
        ExtendedTypeView::InputObject { name, input_fields, .. } => ExtendedTypeView::InputObject {
            name,
            directives: Seq::empty(),
            input_fields: api_input_values(input_fields, true),
        },
    }
}

pub open spec fn type_view_name(t: ExtendedTypeView) -> Seq<char> {
    match t {
        ExtendedTypeView::Scalar { name, .. } => name,
        ExtendedTypeView::Object { name, .. } => name,
        ExtendedTypeView::Interface { name, .. } => name,
        ExtendedTypeView::Union { name, .. } => name,
        ExtendedTypeView::Enum { name, .. } => name,
        ExtendedTypeView::InputObject { name, .. } => name,
    }
}

pub open spec fn type_view_directives(t: ExtendedTypeView) -> Seq<DirectiveView> {
    match t {
        ExtendedTypeView::Scalar { directives, .. } => directives,
        ExtendedTypeView::Object { directives, .. } => directives,
        ExtendedTypeView::Interface { directives, .. } => directives,
        ExtendedTypeView::Union { directives, .. } => directives,
        ExtendedTypeView::Enum { directives, .. } => directives,
        ExtendedTypeView::InputObject { directives, .. } => directives,
    }
}

/// The types of the API schema of a schema with the types `all`: those of `s` that are
/// neither join or link types nor inaccessible, in order, each as [`api_type`] gives it.
pub open spec fn api_types(s: Seq<ExtendedTypeView>, all: Seq<ExtendedTypeView>) -> Seq<ExtendedTypeView>
    decreases s.len(),
{
    if s.len() == 0 {
        Seq::empty()
    } else {
        let before = api_types(s.drop_last(), all);
        let t = s.last();
        if is_join_type_name(type_view_name(t)) || has_inaccessible(type_view_directives(t)) {
            before
        } else {
            before.push(api_type(t, all))
        }
    }
}

fn api_input_value_list(s: &Vec<InputValueDefinition>, filter: bool) -> (res: Vec<InputValueDefinition>)
    ensures
        input_values_view(res@) == api_input_values(input_values_view(s@), filter),
{
    let ghost sv = input_values_view(s@);
    let mut out: Vec<InputValueDefinition> = Vec::new();
    let mut i: usize = 0;
    proof {
        assert(sv.take(0) =~= Seq::<InputValueView>::empty());
        assert(input_values_view(out@) =~= Seq::<InputValueView>::empty());
    }
    while i < s.len()
        invariant
            i <= s@.len(),
            sv == input_values_view(s@),
            input_values_view(out@) == api_input_values(sv.take(i as int), filter),
        decreases s@.len() - i,
    {
        proof {
            assert(sv.take(i + 1).drop_last() =~= sv.take(i as int));
            assert(sv.take(i + 1).last() == input_value_view(s@[i as int]));
        }
        let v = &s[i];
        if !(filter && is_inaccessible_applied(&v.directives)) {
            let d = match &v.default_value {
                Some(x) => Some(clone_value(x)),
                None => None,
            };
            let c = InputValueDefinition {
                name: v.name.clone(),
                ty: clone_type(&v.ty),
                default_value: d,
                directives: Vec::new(),
            };
            let ghost before = out@;
            out.push(c);
            proof {
                assert(directives_view(c.directives@) =~= Seq::<DirectiveView>::empty());
                assert(input_values_view(out@) =~= input_values_view(before).push(input_value_view(c)));
            }
        }
        i = i + 1;
    }
    proof {
        assert(sv.take(s@.len() as int) =~= sv);
    }
    out
}

fn api_field_list(s: &Vec<FieldDefinition>, filter_arguments: bool) -> (res: Vec<FieldDefinition>)
    ensures
        fields_view(res@) == api_fields(fields_view(s@), filter_arguments),
{
    let ghost sv = fields_view(s@);
    let mut out: Vec<FieldDefinition> = Vec::new();
    let mut i: usize = 0;
    proof {
        assert(sv.take(0) =~= Seq::<FieldView>::empty());
        assert(fields_view(out@) =~= Seq::<FieldView>::empty());
    }
    while i < s.len()
        invariant
            i <= s@.len(),
            sv == fields_view(s@),
            fields_view(out@) == api_fields(sv.take(i as int), filter_arguments),
        decreases s@.len() - i,
    {
        proof {
            assert(sv.take(i + 1).drop_last() =~= sv.take(i as int));
            assert(sv.take(i + 1).last() == crate::schema::field_view(s@[i as int]));
        }
        let f = &s[i];
        if !is_inaccessible_applied(&f.directives) {
            let c = FieldDefinition {
                name: f.name.clone(),
                arguments: api_input_value_list(&f.arguments, filter_arguments),
                ty: clone_type(&f.ty),
                directives: Vec::new(),
            };
            let ghost before = out@;
            out.push(c);
            proof {
                assert(directives_view(c.directives@) =~= Seq::<DirectiveView>::empty());
                assert(fields_view(out@) =~= fields_view(before).push(crate::schema::field_view(c)));
            }
        }
        i = i + 1;
    }
    proof {
        assert(sv.take(s@.len() as int) =~= sv);
    }
    out
}

fn api_enum_value_list(s: &Vec<EnumValueDefinition>) -> (res: Vec<EnumValueDefinition>)
    ensures
        enum_values_view(res@) == api_enum_values(enum_values_view(s@)),
{
    let ghost sv = enum_values_view(s@);
    let mut out: Vec<EnumValueDefinition> = Vec::new();
    let mut i: usize = 0;
    proof {
        assert(sv.take(0) =~= Seq::<EnumValueView>::empty());
        assert(enum_values_view(out@) =~= Seq::<EnumValueView>::empty());
    }
    while i < s.len()
        invariant
            i <= s@.len(),
            sv == enum_values_view(s@),
            enum_values_view(out@) == api_enum_values(sv.take(i as int)),
        decreases s@.len() - i,
    {
        proof {
            assert(sv.take(i + 1).drop_last() =~= sv.take(i as int));
            assert(sv.take(i + 1).last() == sv[i as int]);
        }
        let v = &s[i];
        if !is_inaccessible_applied(&v.directives) {
            let c = EnumValueDefinition { value: v.value.clone(), directives: Vec::new() };
            let ghost before = out@;
            out.push(c);
            proof {
                assert(directives_view(c.directives@) =~= Seq::<DirectiveView>::empty());
                assert(enum_values_view(out@) =~= enum_values_view(before).push(
                    EnumValueView { value: v.value@, directives: Seq::empty() },
                ));
            }
        }
        i = i + 1;
    }
    proof {
        assert(sv.take(s@.len() as int) =~= sv);
    }
    out
}

/// Whether `types` has an inaccessible type named `n` (see [`hidden_type`]).
fn is_hidden_type(types: &Vec<ExtendedType>, n: &String) -> (res: bool)
    ensures
        res == hidden_type(types_view(types@), n@),
{
    let ghost tv = types_view(types@);
    let mut i: usize = 0;
    while i < types.len()
        invariant
            i <= types@.len(),
            tv == types_view(types@),
            forall|j: int| 0 <= j < i ==> !(type_view_name(tv[j]) == n@ && has_inaccessible(#[trigger] type_view_directives(tv[j]))),
        decreases types@.len() - i,
    {
        let t = &types[i];
        proof {
            assert(tv[i as int] == extended_type_view(*t));
            assert(type_view_name(extended_type_view(*t)) == t.spec_name());
            assert(type_view_directives(extended_type_view(*t)) == directives_view(t.spec_directives()));
        }
        if *t.name() == *n && is_inaccessible_applied(t.directives()) {
            return true;
        }
        i = i + 1;
    }
    false
}

fn api_member_list(ms: &Vec<String>, all: &Vec<ExtendedType>) -> (res: Vec<String>)
    ensures
        crate::schema::strings_view(res@) == api_members(crate::schema::strings_view(ms@), types_view(all@)),
{
    let ghost mv = crate::schema::strings_view(ms@);
    let mut out: Vec<String> = Vec::new();
    let mut i: usize = 0;
    proof {
        assert(mv.take(0) =~= Seq::<Seq<char>>::empty());
        assert(crate::schema::strings_view(out@) =~= Seq::<Seq<char>>::empty());
    }
    while i < ms.len()
        invariant
            i <= ms@.len(),
            mv == crate::schema::strings_view(ms@),
            crate::schema::strings_view(out@) == api_members(mv.take(i as int), types_view(all@)),
        decreases ms@.len() - i,
    {
        proof {
            assert(mv.take(i + 1).drop_last() =~= mv.take(i as int));
            assert(mv.take(i + 1).last() == ms@[i as int]@);
        }
        if !is_hidden_type(all, &ms[i]) {
            let ghost before = out@;
            out.push(ms[i].clone());
            proof {
                assert(crate::schema::strings_view(out@) =~= crate::schema::strings_view(before).push(ms@[i as int]@));
            }
        }
        i = i + 1;
    }
    proof {
        assert(mv.take(ms@.len() as int) =~= mv);
    }
    out
}

fn api_type_of(t: &ExtendedType, all: &Vec<ExtendedType>) -> (res: ExtendedType)
    ensures
        extended_type_view(res) == api_type(extended_type_view(*t), types_view(all@)),
{
    let no_directives: Vec<Directive> = Vec::new();
    assert(directives_view(no_directives@) =~= Seq::<DirectiveView>::empty());
    match t {
        ExtendedType::Scalar { name, .. } => ExtendedType::Scalar {
            name: name.clone(),
            directives: no_directives,
        },
        ExtendedType::Object { name, implements_interfaces, fields, .. } => ExtendedType::Object {
            name: name.clone(),
            implements_interfaces: clone_strings(implements_interfaces),
            directives: no_directives,
            fields: api_field_list(fields, true),
        },
        ExtendedType::Interface { name, implements_interfaces, fields, .. } => ExtendedType::Interface {
            name: name.clone(),
            implements_interfaces: clone_strings(implements_interfaces),
            directives: no_directives,
            fields: api_field_list(fields, true),
        },
        ExtendedType::Union { name, members, .. } => ExtendedType::Union {
            name: name.clone(),
            directives: no_directives,
            members: api_member_list(members, all),
        },
        ExtendedType::Enum { name, values, .. } => ExtendedType::Enum {
            name: name.clone(),
            directives: no_directives,
            values: api_enum_value_list(values),
        },
        ExtendedType::InputObject { name, input_fields, .. } => ExtendedType::InputObject {
            name: name.clone(),
            directives: no_directives,
            input_fields: api_input_value_list(input_fields, true),
        },
    }
}

/// A supergraph: the schema composed from subgraphs.
#[derive(Debug)]
pub struct Supergraph {
    pub schema: Schema,
}

impl Supergraph {
    /// The API schema of the supergraph: no directive applications on the schema
    /// definition, the types of [`api_types`], and no directive definitions.
    pub fn to_api_schema(&self) -> (res: Schema)
        ensures
            res.schema_definition.directives@.len() == 0,
            res.schema_definition.query == self.schema.schema_definition.query,
            res.schema_definition.mutation == self.schema.schema_definition.mutation,
            res.schema_definition.subscription == self.schema.schema_definition.subscription,
            types_view(res.types@) == api_types(types_view(self.schema.types@), types_view(self.schema.types@)),
            res.directive_definitions@.len() == 0,
    {
        let s = &self.schema;
        let ghost sv = types_view(s.types@);
        let mut types: Vec<ExtendedType> = Vec::new();
        let mut i: usize = 0;
        proof {
            assert(sv.take(0) =~= Seq::<ExtendedTypeView>::empty());
            assert(types_view(types@) =~= Seq::<ExtendedTypeView>::empty());
        }
        while i < s.types.len()
            invariant
                i <= s.types@.len(),
                sv == types_view(s.types@),
                types_view(types@) == api_types(sv.take(i as int), sv),
            decreases s.types@.len() - i,
        {
            proof {
                assert(sv.take(i + 1).drop_last() =~= sv.take(i as int));
                assert(sv.take(i + 1).last() == extended_type_view(s.types@[i as int]));
            }
            let t = &s.types[i];
            let keep = !is_join_type(t.name().as_str()) && !is_inaccessible_applied(t.directives());
            proof {
                assert(type_view_name(extended_type_view(*t)) == t.spec_name());
                assert(type_view_directives(extended_type_view(*t)) == directives_view(
                    t.spec_directives(),
                ));
            }
            if keep {
                let c = api_type_of(t, &s.types);
                let ghost before = types@;
                types.push(c);
                proof {
                    assert(types_view(types@) =~= types_view(before).push(extended_type_view(c)));
                }
            }
            i = i + 1;
        }
        proof {
            assert(sv.take(s.types@.len() as int) =~= sv);
        }
        Schema {
            schema_definition: SchemaDefinition {
                directives: Vec::new(),
                query: s.schema_definition.query.clone(),
                mutation: s.schema_definition.mutation.clone(),
                subscription: s.schema_definition.subscription.clone(),
            },
            types,
            directive_definitions: Vec::new(),
        }
    }
}

// ----------------------------------------------------------------------------------------
// Semantic directive applications
// ----------------------------------------------------------------------------------------

/// Whether the first argument named `name` is `null`.
pub open spec fn first_named_is_null(args: Seq<ArgumentView>, name: Seq<char>) -> bool
    decreases args.len(),
{
    if args.len() == 0 {
        false
    } else if args[0].name == name {
        args[0].value is Null
    } else {
        first_named_is_null(args.drop_first(), name)
    }
}

/// Whether a directive application is observable in introspection: `@specifiedBy`, and
/// `@deprecated` unless its `reason` argument is explicitly `null`.
pub open spec fn is_semantic(d: DirectiveView) -> bool {
    d.name == "specifiedBy"@ || (d.name == "deprecated"@ && !first_named_is_null(
        d.arguments,
        "reason"@,
    ))
}

proof fn lemma_first_named_is_null(args: Seq<crate::ast::Argument>, name: Seq<char>)
    ensures
        first_named_is_null(crate::ast::arguments_view(args), name) == match crate::ast::first_argument_index(
            args,
            name,
        ) {
            Some(i) => args[i].value is Null,
            None => false,
        },
    decreases args.len(),
{
    if args.len() > 0 {
        assert(crate::ast::arguments_view(args).drop_first() =~= crate::ast::arguments_view(
            args.drop_first(),
        ));
        lemma_first_named_is_null(args.drop_first(), name);
        crate::ast::lemma_first_argument_index(args.drop_first(), name);
        if args[0].name@ != name {
            match crate::ast::first_argument_index(args.drop_first(), name) {
                Some(i) => {
                    assert(args.drop_first()[i] == args[i + 1]);
                },
                None => {},
            }
        }
    }
}

/// Whether a directive application is observable in introspection.
pub fn is_semantic_directive_application(directive: &Directive) -> (res: bool)
    ensures
        res == is_semantic(directive@),
{
    proof {
        lemma_first_named_is_null(directive.arguments@, "reason"@);
    }
    if str_eq(&directive.name, "specifiedBy") {
        true
    } else if str_eq(&directive.name, "deprecated") {
        match directive.argument_by_name("reason") {
            Some(v) => !(v matches crate::ast::Value::Null),
            None => true,
        }
    } else {
        false
    }
}

/// The semantic directive applications among `ds`, in order.
pub open spec fn semantic(ds: Seq<DirectiveView>) -> Seq<DirectiveView>
    decreases ds.len(),
{
    if ds.len() == 0 {
        Seq::empty()
    } else if is_semantic(ds.last()) {
        semantic(ds.drop_last()).push(ds.last())
    } else {
        semantic(ds.drop_last())
    }
}

/// Keeps only the semantic directive applications, in order.
pub fn retain_semantic_directives(directives: &mut Vec<Directive>)
    ensures
        directives_view(final(directives)@) == semantic(directives_view(old(directives)@)),
{
    let mut taken: Vec<Directive> = Vec::new();
    std::mem::swap(&mut taken, directives);
    let ghost orig = taken@;
    let total: usize = taken.len();
    let ghost ov = directives_view(orig);
    let mut i: usize = 0;
    proof {
        assert(ov.take(0) =~= Seq::<DirectiveView>::empty());
        assert(directives_view(directives@) =~= Seq::<DirectiveView>::empty());
    }
    while taken.len() > 0
        invariant
            orig == old(directives)@,
            ov == directives_view(orig),
            i <= orig.len(),
            taken@ == orig.subrange(i as int, orig.len() as int),
            orig.len() <= usize::MAX,
            directives_view(directives@) == semantic(ov.take(i as int)),
        decreases taken@.len(),
    {
        let d = taken.remove(0);
        proof {
            assert(d == orig[i as int]);
            assert(ov.take(i + 1).drop_last() =~= ov.take(i as int));
            assert(ov.take(i + 1).last() == d@);
        }
        if is_semantic_directive_application(&d) {
            let ghost before = directives@;
            directives.push(d);
            proof {
                assert(directives_view(directives@) =~= directives_view(before).push(d@));
            }
        }
        i = i + 1;
    }
    proof {
        assert(ov.take(orig.len() as int) =~= ov);
    }
}

pub open spec fn semantic_input_value(v: InputValueView) -> InputValueView {
    InputValueView { name: v.name, ty: v.ty, default_value: v.default_value, directives: semantic(v.directives) }
}

pub open spec fn semantic_field(f: FieldView) -> FieldView {
    FieldView {
        name: f.name,
        arguments: f.arguments.map_values(|a: InputValueView| semantic_input_value(a)),
        ty: f.ty,
        directives: semantic(f.directives),
    }
}

/// A type with only the semantic directive applications on it, its fields, their
/// arguments, its enum values and its input fields.
pub open spec fn semantic_type(t: ExtendedTypeView) -> ExtendedTypeView {
    match t {
        ExtendedTypeView::Scalar { name, directives } => ExtendedTypeView::Scalar {
            name,
            directives: semantic(directives),
        },
        ExtendedTypeView::Object { name, implements_interfaces, directives, fields } => ExtendedTypeView::Object {
            name,
            implements_interfaces,
            directives: semantic(directives),
            fields: fields.map_values(|f: FieldView| semantic_field(f)),
        },
        ExtendedTypeView::Interface { name, implements_interfaces, directives, fields } => ExtendedTypeView::Interface {
            name,
            implements_interfaces,
            directives: semantic(directives),
            fields: fields.map_values(|f: FieldView| semantic_field(f)),
        },
        ExtendedTypeView::Union { name, directives, members } => ExtendedTypeView::Union {
            name,
            directives: semantic(directives),
            members,
        },
        ExtendedTypeView::Enum { name, directives, values } => ExtendedTypeView::Enum {
            name,
            directives: semantic(directives),
            values: values.map_values(
                |v: EnumValueView| EnumValueView { value: v.value, directives: semantic(v.directives) },
            ),
        },
        ExtendedTypeView::InputObject { name, directives, input_fields } => ExtendedTypeView::InputObject {
            name,
            directives: semantic(directives),
            input_fields: input_fields.map_values(|a: InputValueView| semantic_input_value(a)),
        },
    }
}

fn semantic_input_values(args: &mut Vec<InputValueDefinition>)
    ensures
        input_values_view(final(args)@) == input_values_view(old(args)@).map_values(
            |a: InputValueView| semantic_input_value(a),
        ),
{
    let mut taken: Vec<InputValueDefinition> = Vec::new();
    std::mem::swap(&mut taken, args);
    let ghost orig = taken@;
    let total: usize = taken.len();
    let mut i: usize = 0;
    while taken.len() > 0
        invariant
            orig == old(args)@,
            i <= orig.len(),
            taken@ == orig.subrange(i as int, orig.len() as int),
            orig.len() <= usize::MAX,
            args@.len() == i,
            forall|j: int|
                0 <= j < i ==> #[trigger] input_value_view(args@[j]) == semantic_input_value(
                    input_value_view(orig[j]),
                ),
        decreases taken@.len(),
    {
        let mut a = taken.remove(0);
        proof {
            assert(a == orig[i as int]);
        }
        retain_semantic_directives(&mut a.directives);
        args.push(a);
        i = i + 1;
    }
    assert(input_values_view(args@) =~= input_values_view(old(args)@).map_values(
        |a: InputValueView| semantic_input_value(a),
    ));
}

fn semantic_fields(fields: &mut Vec<FieldDefinition>)
    ensures
        fields_view(final(fields)@) == fields_view(old(fields)@).map_values(|f: FieldView| semantic_field(f)),
{
    let mut taken: Vec<FieldDefinition> = Vec::new();
    std::mem::swap(&mut taken, fields);
    let ghost orig = taken@;
    let total: usize = taken.len();
    let mut i: usize = 0;
    while taken.len() > 0
        invariant
            orig == old(fields)@,
            i <= orig.len(),
            taken@ == orig.subrange(i as int, orig.len() as int),
            orig.len() <= usize::MAX,
            fields@.len() == i,
            forall|j: int|
                0 <= j < i ==> #[trigger] crate::schema::field_view(fields@[j]) == semantic_field(
                    crate::schema::field_view(orig[j]),
                ),
        decreases taken@.len(),
    {
        let mut f = taken.remove(0);
        proof {
            assert(f == orig[i as int]);
        }
        retain_semantic_directives(&mut f.directives);
        semantic_input_values(&mut f.arguments);
        fields.push(f);
        i = i + 1;
    }
    assert(fields_view(fields@) =~= fields_view(old(fields)@).map_values(|f: FieldView| semantic_field(f)));
}

fn semantic_enum_values(values: &mut Vec<EnumValueDefinition>)
    ensures
        enum_values_view(final(values)@) == enum_values_view(old(values)@).map_values(
            |v: EnumValueView| EnumValueView { value: v.value, directives: semantic(v.directives) },
        ),
{
    let mut taken: Vec<EnumValueDefinition> = Vec::new();
    std::mem::swap(&mut taken, values);
    let ghost orig = taken@;
    let total: usize = taken.len();
    let mut i: usize = 0;
    while taken.len() > 0
        invariant
            orig == old(values)@,
            i <= orig.len(),
            taken@ == orig.subrange(i as int, orig.len() as int),
            orig.len() <= usize::MAX,
            values@.len() == i,
            forall|j: int|
                0 <= j < i ==> #[trigger] values@[j].value@ == orig[j].value@ && directives_view(
                    values@[j].directives@,
                ) == semantic(directives_view(orig[j].directives@)),
        decreases taken@.len(),
    {
        let mut v = taken.remove(0);
        proof {
            assert(v == orig[i as int]);
        }
        retain_semantic_directives(&mut v.directives);
        values.push(v);
        i = i + 1;
    }
    assert(enum_values_view(values@) =~= enum_values_view(old(values)@).map_values(
        |v: EnumValueView| EnumValueView { value: v.value, directives: semantic(v.directives) },
    ));
}

fn semantic_type_of(t: &mut ExtendedType)
    ensures
        extended_type_view(*final(t)) == semantic_type(extended_type_view(*old(t))),
{
    match t {
        ExtendedType::Scalar { directives, .. } => {
            retain_semantic_directives(directives);
        },
        ExtendedType::Object { directives, fields, .. } => {
            retain_semantic_directives(directives);
            semantic_fields(fields);
        },
        ExtendedType::Interface { directives, fields, .. } => {
            retain_semantic_directives(directives);
            semantic_fields(fields);
        },
        ExtendedType::Union { directives, .. } => {
            retain_semantic_directives(directives);
        },
        ExtendedType::Enum { directives, values, .. } => {
            retain_semantic_directives(directives);
            semantic_enum_values(values);
        },
        ExtendedType::InputObject { directives, input_fields, .. } => {
            retain_semantic_directives(directives);
            semantic_input_values(input_fields);
        },
    }
}

/// Removes the directive applications that are not observable in introspection, from the
/// schema definition, the types, their fields, arguments, enum values and input fields, and
/// the arguments of directive definitions.
#[verifier::loop_isolation(false)]
pub fn remove_non_semantic_directives(schema: &mut Schema)
    ensures
        directives_view(final(schema).schema_definition.directives@) == semantic(
            directives_view(old(schema).schema_definition.directives@),
        ),
        final(schema).schema_definition.query == old(schema).schema_definition.query,
        final(schema).schema_definition.mutation == old(schema).schema_definition.mutation,
        final(schema).schema_definition.subscription == old(schema).schema_definition.subscription,
        types_view(final(schema).types@) == types_view(old(schema).types@).map_values(
            |t: ExtendedTypeView| semantic_type(t),
        ),
        final(schema).directive_definitions@.len() == old(schema).directive_definitions@.len(),
        forall|i: int|
            0 <= i < old(schema).directive_definitions@.len() ==> {
                let n = #[trigger] final(schema).directive_definitions@[i];
                let o = old(schema).directive_definitions@[i];
                &&& n.name == o.name
                &&& n.repeatable == o.repeatable
                &&& n.locations == o.locations
                &&& input_values_view(n.arguments@) == input_values_view(o.arguments@).map_values(
                    |a: InputValueView| semantic_input_value(a),
                )
            },
{
    retain_semantic_directives(&mut schema.schema_definition.directives);
    let mut taken: Vec<ExtendedType> = Vec::new();
    std::mem::swap(&mut taken, &mut schema.types);
    let ghost orig = taken@;
    let total: usize = taken.len();
    let mut i: usize = 0;
    while taken.len() > 0
        invariant
            orig == old(schema).types@,
            total == orig.len(),
            schema.directive_definitions == old(schema).directive_definitions,
            directives_view(schema.schema_definition.directives@) == semantic(
                directives_view(old(schema).schema_definition.directives@),
            ),
            schema.schema_definition.query == old(schema).schema_definition.query,
            schema.schema_definition.mutation == old(schema).schema_definition.mutation,
            schema.schema_definition.subscription == old(schema).schema_definition.subscription,
            i <= orig.len(),
            taken@ == orig.subrange(i as int, orig.len() as int),
            orig.len() <= usize::MAX,
            schema.types@.len() == i,
            forall|j: int|
                0 <= j < i ==> #[trigger] extended_type_view(schema.types@[j]) == semantic_type(
                    extended_type_view(orig[j]),
                ),
        decreases taken@.len(),
    {
        let mut t = taken.remove(0);
        proof {
            assert(t == orig[i as int]);
        }
        semantic_type_of(&mut t);
        schema.types.push(t);
        i = i + 1;
    }
    assert(types_view(schema.types@) =~= types_view(old(schema).types@).map_values(
        |t: ExtendedTypeView| semantic_type(t),
    ));
    let mut defs: Vec<crate::schema::DirectiveDefinition> = Vec::new();
    std::mem::swap(&mut defs, &mut schema.directive_definitions);
    let ghost orig_defs = defs@;
    let total_defs: usize = defs.len();
    let mut k: usize = 0;
    while defs.len() > 0
        invariant
            orig_defs == old(schema).directive_definitions@,
            directives_view(schema.schema_definition.directives@) == semantic(
                directives_view(old(schema).schema_definition.directives@),
            ),
            schema.schema_definition.query == old(schema).schema_definition.query,
            schema.schema_definition.mutation == old(schema).schema_definition.mutation,
            schema.schema_definition.subscription == old(schema).schema_definition.subscription,
            types_view(schema.types@) == types_view(old(schema).types@).map_values(
                |t: ExtendedTypeView| semantic_type(t),
            ),
            k <= orig_defs.len(),
            defs@ == orig_defs.subrange(k as int, orig_defs.len() as int),
            orig_defs.len() <= usize::MAX,
            schema.directive_definitions@.len() == k,
            forall|i: int|
                0 <= i < k ==> {
                    let n = #[trigger] schema.directive_definitions@[i];
                    let o = orig_defs[i];
                    &&& n.name == o.name
                    &&& n.repeatable == o.repeatable
                    &&& n.locations == o.locations
                    &&& input_values_view(n.arguments@) == input_values_view(o.arguments@).map_values(
                        |a: InputValueView| semantic_input_value(a),
                    )
                },
        decreases defs@.len(),
    {
        let mut d = defs.remove(0);
        proof {
            assert(d == orig_defs[k as int]);
        }
        semantic_input_values(&mut d.arguments);
        schema.directive_definitions.push(d);
        k = k + 1;
    }
}

// ----------------------------------------------------------------------------------------
// Default values of input object fields
// ----------------------------------------------------------------------------------------

/// Input object types in mathematical form: their names and input fields.
pub type InputObjectsView = Seq<(Seq<char>, Seq<InputValueView>)>;

/// The input fields of the input object named `name` (the last one of that name).
pub open spec fn io_lookup(io: InputObjectsView, name: Seq<char>) -> Option<Seq<InputValueView>>
    decreases io.len(),
{
    if io.len() == 0 {
        None
    } else if io.last().0 == name {
        Some(io.last().1)
    } else {
        io_lookup(io.drop_last(), name)
    }
}

/// The first input field named `name`.
pub open spec fn field_named(def: Seq<InputValueView>, name: Seq<char>) -> Option<InputValueView>
    decreases def.len(),
{
    if def.len() == 0 {
        None
    } else if def[0].name == name {
        Some(def[0])
    } else {
        field_named(def.drop_first(), name)
    }
}

/// The index of the first entry with key `key`.
pub open spec fn first_key_index(es: Seq<(Seq<char>, ValueView)>, key: Seq<char>) -> Option<int>
    decreases es.len(),
{
    if es.len() == 0 {
        None
    } else if es[0].0 == key {
        Some(0)
    } else {
        match first_key_index(es.drop_first(), key) {
            Some(i) => Some(i + 1),
            None => None,
        }
    }
}

/// Whether the input fields of every input object have distinct names.
pub open spec fn io_fields_distinct(io: InputObjectsView) -> bool {
    forall|i: int|
        0 <= i < io.len() ==> (#[trigger] io[i]).1.map_values(|f: InputValueView| f.name).no_duplicates()
}

/// A value with the defaults of the input object type with input fields `def` filled in:
/// in an object, each field's first entry is itself filled in where the field's type is an
/// input object, and each field without an entry and with a default value gets an entry
/// with that default (filled in too, where the field's type is an input object) at the end,
/// in field order; a list has each element filled in. `fuel` bounds the nesting of filled-in
/// defaults (only defaults that refer back to their own types nest without bound).
pub open spec fn propagate(io: InputObjectsView, v: ValueView, def: Seq<InputValueView>, fuel: nat) -> ValueView
    decreases fuel, v, 0int,
{
    match v {
        ValueView::Object(es) => ValueView::Object(
            propagate_entries(io, es, es.len() as int, def, fuel) + added_defaults(
                io,
                es,
                def,
                def.len() as int,
                fuel,
            ),
        ),
        ValueView::List(items) => ValueView::List(propagate_items(io, items, items.len() as int, def, fuel)),
        _ => v,
    }
}

/// The first `n` entries of `es`, filled in (see [`propagate`]).
pub open spec fn propagate_entries(
    io: InputObjectsView,
    es: Seq<(Seq<char>, ValueView)>,
    n: int,
    def: Seq<InputValueView>,
    fuel: nat,
) -> Seq<(Seq<char>, ValueView)>
    decreases fuel, es, n + 1,
{
    if n <= 0 || n > es.len() {
        Seq::empty()
    } else {
        let before = propagate_entries(io, es, n - 1, def, fuel);
        let (k, val) = es[n - 1];
        let filled = if first_key_index(es, k) == Some(n - 1) {
            match field_named(def, k) {
                Some(f) => match io_lookup(io, crate::schema::inner_named_type(f.ty)) {
                    Some(d2) => propagate(io, val, d2, fuel),
                    None => val,
                },
                None => val,
            }
        } else {
            val
        };
        before.push((k, filled))
    }
}

/// The first `n` elements of `items`, filled in (see [`propagate`]).
pub open spec fn propagate_items(
    io: InputObjectsView,
    items: Seq<ValueView>,
    n: int,
    def: Seq<InputValueView>,
    fuel: nat,
) -> Seq<ValueView>
    decreases fuel, items, n + 1,
{
    if n <= 0 || n > items.len() {
        Seq::empty()
    } else {
        propagate_items(io, items, n - 1, def, fuel).push(propagate(io, items[n - 1], def, fuel))
    }
}

/// The entries added for the first `n` fields of `def` (see [`propagate`]).
pub open spec fn added_defaults(
    io: InputObjectsView,
    es: Seq<(Seq<char>, ValueView)>,
    def: Seq<InputValueView>,
    n: int,
    fuel: nat,
) -> Seq<(Seq<char>, ValueView)>
    decreases fuel, es, n + 1,
{
    if n <= 0 || n > def.len() {
        Seq::empty()
    } else {
        let before = added_defaults(io, es, def, n - 1, fuel);
        let f = def[n - 1];
        if first_key_index(es, f.name) is Some {
            before
        } else {
            match f.default_value {
                None => before,
                Some(d) => before.push(
                    (
                        f.name,
                        match io_lookup(io, crate::schema::inner_named_type(f.ty)) {
                            Some(d2) => if fuel > 0 {
                                propagate(io, d, d2, (fuel - 1) as nat)
                            } else {
                                d
                            },
                            None => d,
                        },
                    ),
                ),
            }
        }
    }
}

/// The input objects of a schema in mathematical form.
pub open spec fn io_view(io: Seq<(String, Vec<InputValueDefinition>)>) -> InputObjectsView {
    io.map_values(|e: (String, Vec<InputValueDefinition>)| (e.0@, input_values_view(e.1@)))
}

fn io_find(io: &Vec<(String, Vec<InputValueDefinition>)>, name: &String) -> (res: Option<usize>)
    ensures
        match io_lookup(io_view(io@), name@) {
            Some(d) => res matches Some(i) && i < io@.len() && input_values_view(io@[i as int].1@) == d
                && io_view(io@)[i as int] == io_view(io@)[i as int],
            None => res is None,
        },
{
    let mut i: usize = io.len();
    proof {
        assert(io_view(io@).take(io@.len() as int) =~= io_view(io@));
    }
    while i > 0
        invariant
            i <= io@.len(),
            io_lookup(io_view(io@), name@) == io_lookup(io_view(io@).take(i as int), name@),
        decreases i,
    {
        let j = i - 1;
        proof {
            assert(io_view(io@).take(i as int).drop_last() =~= io_view(io@).take(j as int));
            assert(io_view(io@).take(i as int).last() == io_view(io@)[j as int]);
        }
        if io[j].0 == *name {
            return Some(j);
        }
        i = j;
    }
    None
}

fn field_find(def: &Vec<InputValueDefinition>, name: &String) -> (res: Option<usize>)
    ensures
        match field_named(input_values_view(def@), name@) {
            Some(f) => res matches Some(i) && i < def@.len() && input_value_view(def@[i as int]) == f,
            None => res is None,
        },
{
    let ghost dv = input_values_view(def@);
    let mut i: usize = 0;
    assert(dv.subrange(0, dv.len() as int) =~= dv);
    while i < def.len()
        invariant
            i <= def@.len(),
            dv == input_values_view(def@),
            field_named(dv, name@) == field_named(dv.subrange(i as int, dv.len() as int), name@),
        decreases def@.len() - i,
    {
        proof {
            assert(dv.subrange(i as int, dv.len() as int).drop_first() =~= dv.subrange(
                i + 1,
                dv.len() as int,
            ));
        }
        if def[i].name == *name {
            return Some(i);
        }
        i = i + 1;
    }
    None
}

proof fn lemma_first_key_index(es: Seq<(Seq<char>, ValueView)>, key: Seq<char>)
    ensures
        first_key_index(es, key) matches Some(k) ==> 0 <= k < es.len(),
    decreases es.len(),
{
    if es.len() > 0 {
        lemma_first_key_index(es.drop_first(), key);
    }
}

fn key_find(es: &Vec<(String, crate::ast::Value)>, key: &String) -> (res: Option<usize>)
    ensures
        match first_key_index(crate::ast::entries_view(es@), key@) {
            Some(k) => 0 <= k < es@.len() && res == Some(k as usize),
            None => res is None,
        },
{
    proof {
        lemma_first_key_index(crate::ast::entries_view(es@), key@);
    }
    let ghost ev = crate::ast::entries_view(es@);
    proof {
        crate::ast::lemma_entries_view_take(es@, es@.len() as int);
        assert(es@.take(es@.len() as int) =~= es@);
    }
    let mut i: usize = 0;
    assert(ev.subrange(0, ev.len() as int) =~= ev);
    while i < es.len()
        invariant
            i <= es@.len(),
            ev == crate::ast::entries_view(es@),
            ev.len() == es@.len(),
            forall|j: int| 0 <= j < es@.len() ==> #[trigger] ev[j] == (es@[j].0@, es@[j].1@),
            first_key_index(ev, key@) == match first_key_index(ev.subrange(i as int, ev.len() as int), key@) {
                Some(k) => Some(k + i),
                None => None,
            },
        decreases es@.len() - i,
    {
        proof {
            assert(ev.subrange(i as int, ev.len() as int).drop_first() =~= ev.subrange(
                i + 1,
                ev.len() as int,
            ));
        }
        if es[i].0 == *key {
            return Some(i);
        }
        i = i + 1;
    }
    None
}

/// Fills in the defaults of the input object type with input fields `def` in a value (see
/// [`propagate`]).
pub fn propagate_default_input_fields_in_value(
    io: &Vec<(String, Vec<InputValueDefinition>)>,
    target: &crate::ast::Value,
    def: &Vec<InputValueDefinition>,
    fuel: usize,
) -> (res: crate::ast::Value)
    ensures
        res@ == propagate(io_view(io@), target@, input_values_view(def@), fuel as nat),
    decreases fuel, target, 0int,
{
    let ghost iov = io_view(io@);
    let ghost dv = input_values_view(def@);
    match target {
        crate::ast::Value::Object(entries) => {
            let ghost es = crate::ast::entries_view(entries@);
            proof {
                crate::ast::lemma_entries_view_take(entries@, entries@.len() as int);
                assert(entries@.take(entries@.len() as int) =~= entries@);
            }
            let mut out: Vec<(String, crate::ast::Value)> = Vec::new();
            let mut j: usize = 0;
            proof {
                assert(crate::ast::entries_view(out@) =~= Seq::<(Seq<char>, ValueView)>::empty());
            }
            while j < entries.len()
                invariant
                    *target == crate::ast::Value::Object(*entries),
                    j <= entries@.len(),
                    es == crate::ast::entries_view(entries@),
                    es.len() == entries@.len(),
                    forall|m: int| 0 <= m < entries@.len() ==> #[trigger] es[m] == (entries@[m].0@, entries@[m].1@),
                    iov == io_view(io@),
                    dv == input_values_view(def@),
                    crate::ast::entries_view(out@) == propagate_entries(iov, es, j as int, dv, fuel as nat),
                decreases entries@.len() - j,
            {
                let (k, v) = &entries[j];
                let ghost kv = es[j as int].0;
                let ghost vv = es[j as int].1;
                let ghost spec_filled = if first_key_index(es, kv) == Some(j as int) {
                    match field_named(dv, kv) {
                        Some(f) => match io_lookup(iov, crate::schema::inner_named_type(f.ty)) {
                            Some(d2) => propagate(iov, vv, d2, fuel as nat),
                            None => vv,
                        },
                        None => vv,
                    }
                } else {
                    vv
                };
                let first = key_find(entries, k);
                proof {
                    assert(kv == k@);
                    assert(vv == v@);
                    assert((first == Some(j)) == (first_key_index(es, kv) == Some(j as int)));
                }
                let filled = if first == Some(j) {
                    match field_find(def, k) {
                        Some(fi) => match io_find(io, def[fi].ty.inner_named_type()) {
                            Some(oi) => {
                                proof {
                                    assert(*entries == (*target)->Object_0);
                                    assert(decreases_to!(*target => (*target)->Object_0));
                                    assert(decreases_to!(*entries => entries@));
                                    assert(decreases_to!(entries@ => entries@[j as int]));
                                    assert(decreases_to!(entries@[j as int] => entries@[j as int].1));
                                }
                                propagate_default_input_fields_in_value(io, v, &io[oi].1, fuel)
                            },
                            None => crate::ast::clone_value(v),
                        },
                        None => crate::ast::clone_value(v),
                    }
                } else {
                    crate::ast::clone_value(v)
                };
                assert(filled@ == spec_filled);
                let ghost before = out@;
                out.push((k.clone(), filled));
                proof {
                    assert(out@.drop_last() == before);
                    assert(crate::ast::entries_view(out@) == crate::ast::entries_view(before).push((kv, spec_filled)));
                }
                j = j + 1;
            }
            let mut i: usize = 0;
            let ghost base = out@;
            proof {
                assert(crate::ast::entries_view(out@) == crate::ast::entries_view(base) + added_defaults(iov, es, dv, 0, fuel as nat));
            }
            while i < def.len()
                invariant
                    i <= def@.len(),
                    es == crate::ast::entries_view(entries@),
                    iov == io_view(io@),
                    dv == input_values_view(def@),
                    crate::ast::entries_view(base) == propagate_entries(iov, es, es.len() as int, dv, fuel as nat),
                    crate::ast::entries_view(out@) == crate::ast::entries_view(base) + added_defaults(iov, es, dv, i as int, fuel as nat),
                decreases def@.len() - i,
            {
                let f = &def[i];
                proof {
                    assert(dv[i as int] == input_value_view(*f));
                }
                if key_find(entries, &f.name).is_none() {
                    match &f.default_value {
                        Some(d) => {
                            let value = match io_find(io, f.ty.inner_named_type()) {
                                Some(oi) => if fuel > 0 {
                                    propagate_default_input_fields_in_value(io, d, &io[oi].1, fuel - 1)
                                } else {
                                    crate::ast::clone_value(d)
                                },
                                None => crate::ast::clone_value(d),
                            };
                            let ghost before = out@;
                            out.push((f.name.clone(), value));
                            proof {
                                assert(out@.drop_last() == before);
                                assert(crate::ast::entries_view(base) + added_defaults(iov, es, dv, i + 1, fuel as nat)
                                    =~= (crate::ast::entries_view(base) + added_defaults(iov, es, dv, i as int, fuel as nat)).push(
                                    crate::ast::entries_view(out@).last(),
                                ));
                            }
                        },
                        None => {},
                    }
                }
                i = i + 1;
            }
            crate::ast::Value::Object(out)
        },
        crate::ast::Value::List(items) => {
            let ghost vs = crate::ast::values_view(items@);
            proof {
                crate::ast::lemma_values_view_take(items@, items@.len() as int);
                assert(items@.take(items@.len() as int) =~= items@);
            }
            let mut out: Vec<crate::ast::Value> = Vec::new();
            let mut j: usize = 0;
            proof {
                assert(crate::ast::values_view(out@) =~= Seq::<ValueView>::empty());
            }
            while j < items.len()
                invariant
                    *target == crate::ast::Value::List(*items),
                    j <= items@.len(),
                    vs == crate::ast::values_view(items@),
                    vs.len() == items@.len(),
                    forall|m: int| 0 <= m < items@.len() ==> #[trigger] vs[m] == items@[m]@,
                    iov == io_view(io@),
                    dv == input_values_view(def@),
                    crate::ast::values_view(out@) == propagate_items(iov, vs, j as int, dv, fuel as nat),
                decreases items@.len() - j,
            {
                proof {
                    assert(*items == (*target)->List_0);
                    assert(decreases_to!(*target => (*target)->List_0));
                    assert(decreases_to!(*items => items@));
                    assert(decreases_to!(items@ => items@[j as int]));
                }
                let x = propagate_default_input_fields_in_value(io, &items[j], def, fuel);
                let ghost before = out@;
                out.push(x);
                proof {
                    assert(out@.drop_last() == before);
                }
                j = j + 1;
            }
            crate::ast::Value::List(out)
        },
        _ => crate::ast::clone_value(target),
    }
}

/// An argument (or input field) whose default value is filled in where its type is an input
/// object (see [`propagate`]).
pub open spec fn propagate_argument(io: InputObjectsView, a: InputValueView, fuel: nat) -> InputValueView {
    match a.default_value {
        Some(d) => match io_lookup(io, crate::schema::inner_named_type(a.ty)) {
            Some(def) => InputValueView {
                name: a.name,
                ty: a.ty,
                default_value: Some(propagate(io, d, def, fuel)),
                directives: a.directives,
            },
            None => a,
        },
        None => a,
    }
}

/// Fills in the defaults in the default values of arguments whose type is an input object.
pub fn propagate_default_input_fields_in_arguments(
    io: &Vec<(String, Vec<InputValueDefinition>)>,
    arguments: &mut Vec<InputValueDefinition>,
    fuel: usize,
)
    ensures
        input_values_view(final(arguments)@) == input_values_view(old(arguments)@).map_values(
            |a: InputValueView| propagate_argument(io_view(io@), a, fuel as nat),
        ),
{
    let mut taken: Vec<InputValueDefinition> = Vec::new();
    std::mem::swap(&mut taken, arguments);
    let ghost orig = taken@;
    let total: usize = taken.len();
    let mut i: usize = 0;
    while taken.len() > 0
        invariant
            orig == old(arguments)@,
            total == orig.len(),
            i <= orig.len(),
            taken@ == orig.subrange(i as int, orig.len() as int),
            arguments@.len() == i,
            forall|j: int|
                0 <= j < i ==> #[trigger] input_value_view(arguments@[j]) == propagate_argument(
                    io_view(io@),
                    input_value_view(orig[j]),
                    fuel as nat,
                ),
        decreases taken@.len(),
    {
        let mut a = taken.remove(0);
        proof {
            assert(a == orig[i as int]);
        }
        let new_default = match &a.default_value {
            Some(d) => match io_find(io, a.ty.inner_named_type()) {
                Some(oi) => Some(propagate_default_input_fields_in_value(io, d, &io[oi].1, fuel)),
                None => None,
            },
            None => None,
        };
        match new_default {
            Some(nd) => {
                a.default_value = Some(nd);
            },
            None => {},
        }
        arguments.push(a);
        i = i + 1;
    }
    assert(input_values_view(arguments@) =~= input_values_view(old(arguments)@).map_values(
        |a: InputValueView| propagate_argument(io_view(io@), a, fuel as nat),
    ));
}

/// The input object types among `types`, in order.
pub open spec fn input_objects_of(types: Seq<ExtendedType>) -> InputObjectsView
    decreases types.len(),
{
    if types.len() == 0 {
        Seq::empty()
    } else {
        let before = input_objects_of(types.drop_last());
        match types.last() {
            ExtendedType::InputObject { name, input_fields, .. } => before.push(
                (name@, input_values_view(input_fields@)),
            ),
            _ => before,
        }
    }
}

/// A type whose argument and input field default values are filled in (see
/// [`propagate_argument`]).
pub open spec fn propagate_type(io: InputObjectsView, t: ExtendedTypeView, fuel: nat) -> ExtendedTypeView {
    match t {
        ExtendedTypeView::Object { name, implements_interfaces, directives, fields } => ExtendedTypeView::Object {
            name,
            implements_interfaces,
            directives,
            fields: fields.map_values(
                |f: FieldView| FieldView {
                    name: f.name,
                    arguments: f.arguments.map_values(|a: InputValueView| propagate_argument(io, a, fuel)),
                    ty: f.ty,
                    directives: f.directives,
                },
            ),
        },
        ExtendedTypeView::Interface { name, implements_interfaces, directives, fields } => ExtendedTypeView::Interface {
            name,
            implements_interfaces,
            directives,
            fields: fields.map_values(
                |f: FieldView| FieldView {
                    name: f.name,
                    arguments: f.arguments.map_values(|a: InputValueView| propagate_argument(io, a, fuel)),
                    ty: f.ty,
                    directives: f.directives,
                },
            ),
        },
        ExtendedTypeView::InputObject { name, directives, input_fields } => ExtendedTypeView::InputObject {
            name,
            directives,
            input_fields: input_fields.map_values(|a: InputValueView| propagate_argument(io, a, fuel)),
        },
        _ => t,
    }
}

fn collect_input_objects(types: &Vec<ExtendedType>) -> (res: Vec<(String, Vec<InputValueDefinition>)>)
    ensures
        io_view(res@) == input_objects_of(types@),
{
    let mut out: Vec<(String, Vec<InputValueDefinition>)> = Vec::new();
    let mut i: usize = 0;
    proof {
        assert(types@.take(0) =~= Seq::<ExtendedType>::empty());
        assert(io_view(out@) =~= Seq::<(Seq<char>, Seq<InputValueView>)>::empty());
    }
    while i < types.len()
        invariant
            i <= types@.len(),
            io_view(out@) == input_objects_of(types@.take(i as int)),
        decreases types@.len() - i,
    {
        proof {
            assert(types@.take(i + 1).drop_last() =~= types@.take(i as int));
            assert(types@.take(i + 1).last() == types@[i as int]);
        }
        match &types[i] {
            ExtendedType::InputObject { name, input_fields, .. } => {
                let copy = api_input_value_list_copy(input_fields);
                let ghost before = out@;
                out.push((name.clone(), copy));
                proof {
                    assert(io_view(out@) =~= io_view(before).push((name@, input_values_view(input_fields@))));
                }
            },
            _ => {},
        }
        i = i + 1;
    }
    proof {
        assert(types@.take(types@.len() as int) =~= types@);
    }
    out
}

fn api_input_value_list_copy(s: &Vec<InputValueDefinition>) -> (res: Vec<InputValueDefinition>)
    ensures
        input_values_view(res@) == input_values_view(s@),
{
    let mut out: Vec<InputValueDefinition> = Vec::new();
    let mut i: usize = 0;
    while i < s.len()
        invariant
            i <= s@.len(),
            out@.len() == i,
            forall|j: int| 0 <= j < i ==> #[trigger] input_value_view(out@[j]) == input_value_view(s@[j]),
        decreases s@.len() - i,
    {
        let v = &s[i];
        let d = match &v.default_value {
            Some(x) => Some(clone_value(x)),
            None => None,
        };
        out.push(
            InputValueDefinition {
                name: v.name.clone(),
                ty: clone_type(&v.ty),
                default_value: d,
                directives: crate::ast::clone_directives(&v.directives),
            },
        );
        i = i + 1;
    }
    assert(input_values_view(out@) =~= input_values_view(s@));
    out
}

fn propagate_fields(io: &Vec<(String, Vec<InputValueDefinition>)>, fields: &mut Vec<FieldDefinition>, fuel: usize)
    ensures
        fields_view(final(fields)@) == fields_view(old(fields)@).map_values(
            |f: FieldView| FieldView {
                name: f.name,
                arguments: f.arguments.map_values(
                    |a: InputValueView| propagate_argument(io_view(io@), a, fuel as nat),
                ),
                ty: f.ty,
                directives: f.directives,
            },
        ),
{
    let mut taken: Vec<FieldDefinition> = Vec::new();
    std::mem::swap(&mut taken, fields);
    let ghost orig = taken@;
    let total: usize = taken.len();
    let mut i: usize = 0;
    while taken.len() > 0
        invariant
            orig == old(fields)@,
            total == orig.len(),
            i <= orig.len(),
            taken@ == orig.subrange(i as int, orig.len() as int),
            fields@.len() == i,
            forall|j: int|
                0 <= j < i ==> {
                    let n = crate::schema::field_view(#[trigger] fields@[j]);
                    let o = crate::schema::field_view(orig[j]);
                    &&& n.name == o.name
                    &&& n.ty == o.ty
                    &&& n.directives == o.directives
                    &&& n.arguments == o.arguments.map_values(
                        |a: InputValueView| propagate_argument(io_view(io@), a, fuel as nat),
                    )
                },
        decreases taken@.len(),
    {
        let mut f = taken.remove(0);
        proof {
            assert(f == orig[i as int]);
        }
        propagate_default_input_fields_in_arguments(io, &mut f.arguments, fuel);
        fields.push(f);
        i = i + 1;
    }
    assert(fields_view(fields@) =~= fields_view(old(fields)@).map_values(
        |f: FieldView| FieldView {
            name: f.name,
            arguments: f.arguments.map_values(
                |a: InputValueView| propagate_argument(io_view(io@), a, fuel as nat),
            ),
            ty: f.ty,
            directives: f.directives,
        },
    ));
}

/// For every object value written in default values of arguments and input fields whose
/// input object type has defaults, adds those defaults (see [`propagate_argument`]), with
/// the input objects as they are before any change; filled-in defaults nest at most as
/// deep as there are input object types.
#[verifier::loop_isolation(false)]
pub fn propagate_default_input_fields(schema: &mut Schema)
    ensures
        ({
            let io = input_objects_of(old(schema).types@);
            &&& types_view(final(schema).types@) == types_view(old(schema).types@).map_values(
                |t: ExtendedTypeView| propagate_type(io, t, io.len()),
            )
            &&& final(schema).schema_definition == old(schema).schema_definition
            &&& final(schema).directive_definitions@.len() == old(schema).directive_definitions@.len()
            &&& forall|i: int|
                0 <= i < old(schema).directive_definitions@.len() ==> {
                    let n = #[trigger] final(schema).directive_definitions@[i];
                    let o = old(schema).directive_definitions@[i];
                    &&& n.name == o.name
                    &&& n.repeatable == o.repeatable
                    &&& n.locations == o.locations
                    &&& input_values_view(n.arguments@) == input_values_view(o.arguments@).map_values(
                        |a: InputValueView| propagate_argument(io, a, io.len()),
                    )
                }
        }),
{
    let io = collect_input_objects(&schema.types);
    let fuel = io.len();
    let ghost iov = io_view(io@);
    proof {
        assert(iov.len() == io@.len());
    }
    let mut taken: Vec<ExtendedType> = Vec::new();
    std::mem::swap(&mut taken, &mut schema.types);
    let ghost orig = taken@;
    let total: usize = taken.len();
    let mut i: usize = 0;
    while taken.len() > 0
        invariant
            orig == old(schema).types@,
            total == orig.len(),
            iov == input_objects_of(orig),
            fuel == iov.len(),
            schema.schema_definition == old(schema).schema_definition,
            schema.directive_definitions == old(schema).directive_definitions,
            i <= orig.len(),
            taken@ == orig.subrange(i as int, orig.len() as int),
            schema.types@.len() == i,
            forall|j: int|
                0 <= j < i ==> #[trigger] extended_type_view(schema.types@[j]) == propagate_type(
                    iov,
                    extended_type_view(orig[j]),
                    fuel as nat,
                ),
        decreases taken@.len(),
    {
        let mut t = taken.remove(0);
        proof {
            assert(t == orig[i as int]);
        }
        match &mut t {
            ExtendedType::Object { fields, .. } => {
                propagate_fields(&io, fields, fuel);
            },
            ExtendedType::Interface { fields, .. } => {
                propagate_fields(&io, fields, fuel);
            },
            ExtendedType::InputObject { input_fields, .. } => {
                propagate_default_input_fields_in_arguments(&io, input_fields, fuel);
            },
            _ => {},
        }
        schema.types.push(t);
        i = i + 1;
    }
    assert(types_view(schema.types@) =~= types_view(old(schema).types@).map_values(
        |t: ExtendedTypeView| propagate_type(iov, t, iov.len()),
    ));
    let mut defs: Vec<crate::schema::DirectiveDefinition> = Vec::new();
    std::mem::swap(&mut defs, &mut schema.directive_definitions);
    let ghost orig_defs = defs@;
    let total_defs: usize = defs.len();
    let mut k: usize = 0;
    while defs.len() > 0
        invariant
            orig_defs == old(schema).directive_definitions@,
            total_defs == orig_defs.len(),
            iov == input_objects_of(orig),
            fuel == iov.len(),
            schema.schema_definition == old(schema).schema_definition,
            types_view(schema.types@) == types_view(old(schema).types@).map_values(
                |t: ExtendedTypeView| propagate_type(iov, t, iov.len()),
            ),
            k <= orig_defs.len(),
            defs@ == orig_defs.subrange(k as int, orig_defs.len() as int),
            schema.directive_definitions@.len() == k,
            forall|i: int|
                0 <= i < k ==> {
                    let n = #[trigger] schema.directive_definitions@[i];
                    let o = orig_defs[i];
                    &&& n.name == o.name
                    &&& n.repeatable == o.repeatable
                    &&& n.locations == o.locations
                    &&& input_values_view(n.arguments@) == input_values_view(o.arguments@).map_values(
                        |a: InputValueView| propagate_argument(iov, a, iov.len()),
                    )
                },
        decreases defs@.len(),
    {
        let mut d = defs.remove(0);
        proof {
            assert(d == orig_defs[k as int]);
        }
        propagate_default_input_fields_in_arguments(&io, &mut d.arguments, fuel);
        schema.directive_definitions.push(d);
        k = k + 1;
    }
}


// ----------------------------------------------------------------------------------------
// API schemas of federation schemas
// ----------------------------------------------------------------------------------------

/// Whether `new` is `old` without the directive applications that are not observable in
/// introspection (see [`remove_non_semantic_directives`]).
pub open spec fn non_semantic_removed(old: Schema, new: Schema) -> bool {
    &&& directives_view(new.schema_definition.directives@) == semantic(directives_view(old.schema_definition.directives@))
    &&& new.schema_definition.query == old.schema_definition.query
    &&& new.schema_definition.mutation == old.schema_definition.mutation
    &&& new.schema_definition.subscription == old.schema_definition.subscription
    &&& types_view(new.types@) == types_view(old.types@).map_values(|t: ExtendedTypeView| semantic_type(t))
    &&& new.directive_definitions@.len() == old.directive_definitions@.len()
    &&& forall|i: int|
        0 <= i < old.directive_definitions@.len() ==> {
            let n = #[trigger] new.directive_definitions@[i];
            let o = old.directive_definitions@[i];
            &&& n.name == o.name
            &&& n.repeatable == o.repeatable
            &&& n.locations == o.locations
            &&& input_values_view(n.arguments@) == input_values_view(o.arguments@).map_values(
                |a: InputValueView| semantic_input_value(a),
            )
        }
}

/// Whether `new` is `old` with the defaults of input object fields propagated to the object
/// values that use them (see [`propagate_default_input_fields`]).
pub open spec fn defaults_propagated(old: Schema, new: Schema) -> bool {
    let io = input_objects_of(old.types@);
    &&& types_view(new.types@) == types_view(old.types@).map_values(|t: ExtendedTypeView| propagate_type(io, t, io.len()))
    &&& new.schema_definition == old.schema_definition
    &&& new.directive_definitions@.len() == old.directive_definitions@.len()
    &&& forall|i: int|
        0 <= i < old.directive_definitions@.len() ==> {
            let n = #[trigger] new.directive_definitions@[i];
            let o = old.directive_definitions@[i];
            &&& n.name == o.name
            &&& n.repeatable == o.repeatable
            &&& n.locations == o.locations
            &&& input_values_view(n.arguments@) == input_values_view(o.arguments@).map_values(
                |a: InputValueView| propagate_argument(io, a, io.len()),
            )
        }
}

/// Whether `res` is the API schema of the federation schema `old`: its definitions of
/// `@defer` and `@stream` removed (with their applications), then its inaccessible elements
/// (see [`inaccessible_removal`]), then the elements of its core features (see
/// [`core_removal`]); then, of the schema that is left, the directive applications that
/// introspection cannot observe, and the defaults of input object fields propagated. The
/// first step that fails gives the error.
pub open spec fn api_schema_of(old: FederationSchema, res: Result<Schema, FederationError>) -> bool {
    exists|s1: FederationSchema, r1: Result<Option<DirectiveReferencers>, FederationError>|
        #![trigger directive_definition_removal(old, s1, "defer"@, r1)]
        directive_definition_removal(old, s1, "defer"@, r1) && match r1 {
            Err(e) => res == Err::<Schema, FederationError>(e),
            Ok(_) => api_schema_without_defer(s1, res),
        }
}

/// The steps of [`api_schema_of`] after the removal of `@defer`.
pub open spec fn api_schema_without_defer(s1: FederationSchema, res: Result<Schema, FederationError>) -> bool {
    exists|s2: FederationSchema, r2: Result<Option<DirectiveReferencers>, FederationError>|
        #![trigger directive_definition_removal(s1, s2, "stream"@, r2)]
        directive_definition_removal(s1, s2, "stream"@, r2) && match r2 {
            Err(e) => res == Err::<Schema, FederationError>(e),
            Ok(_) => api_schema_without_stream(s2, res),
        }
}

/// The steps of [`api_schema_of`] after the removal of `@stream`.
pub open spec fn api_schema_without_stream(s2: FederationSchema, res: Result<Schema, FederationError>) -> bool {
    exists|s3: FederationSchema, r3: Result<(), FederationError>|
        #![trigger inaccessible_removal(s2, s3, r3)]
        inaccessible_removal(s2, s3, r3) && match r3 {
            Err(e) => res == Err::<Schema, FederationError>(e),
            Ok(()) => api_schema_without_inaccessible(s3, res),
        }
}

/// The steps of [`api_schema_of`] after the removal of the inaccessible elements.
pub open spec fn api_schema_without_inaccessible(s3: FederationSchema, res: Result<Schema, FederationError>) -> bool {
    exists|s4: FederationSchema, r4: Result<(), FederationError>|
        #![trigger core_removal(s3, s4, r4)]
        core_removal(s3, s4, r4) && match r4 {
            Err(e) => res == Err::<Schema, FederationError>(e),
            Ok(()) => res matches Ok(x) && api_schema_finished(s4.spec_schema(), x),
        }
}

/// The last steps of [`api_schema_of`], on the schema that is left.
pub open spec fn api_schema_finished(inner: Schema, x: Schema) -> bool {
    exists|mid: Schema| #![trigger non_semantic_removed(inner, mid)] non_semantic_removed(inner, mid) && defaults_propagated(mid, x)
}

/// The API schema of a federation schema (see [`api_schema_of`]).
pub fn to_api_schema(schema: FederationSchema) -> (res: Result<Schema, FederationError>)
    ensures
        api_schema_of(schema, res),
{
    let mut api_schema = schema;
    let ghost s0 = api_schema;
    let defer = DirectiveDefinitionPosition { directive_name: String::from_str("defer") };
    proof {
        reveal_strlit("defer");
    }
    let r1 = defer.remove(&mut api_schema);
    let ghost s1 = api_schema;
    match r1 {
        Ok(_) => {},
        Err(e) => {
            assert(directive_definition_removal(s0, s1, "defer"@, r1));
            return Err(e);
        },
    }
    let stream = DirectiveDefinitionPosition { directive_name: String::from_str("stream") };
    proof {
        reveal_strlit("stream");
    }
    let r2 = stream.remove(&mut api_schema);
    let ghost s2 = api_schema;
    match r2 {
        Ok(_) => {},
        Err(e) => {
            assert(directive_definition_removal(s1, s2, "stream"@, r2));
            assert(api_schema_without_defer(s1, Err(e)));
            assert(directive_definition_removal(s0, s1, "defer"@, r1));
            return Err(e);
        },
    }
    let r3 = remove_inaccessible_elements(&mut api_schema);
    let ghost s3 = api_schema;
    match r3 {
        Ok(()) => {},
        Err(e) => {
            assert(inaccessible_removal(s2, s3, r3));
            assert(api_schema_without_stream(s2, Err(e)));
            assert(directive_definition_removal(s1, s2, "stream"@, r2));
            assert(api_schema_without_defer(s1, Err(e)));
            assert(directive_definition_removal(s0, s1, "defer"@, r1));
            return Err(e);
        },
    }
    let r4 = remove_core_feature_elements(&mut api_schema);
    let ghost s4 = api_schema;
    match r4 {
        Ok(()) => {},
        Err(e) => {
            assert(core_removal(s3, s4, r4));
            assert(api_schema_without_inaccessible(s3, Err(e)));
            assert(inaccessible_removal(s2, s3, r3));
            assert(api_schema_without_stream(s2, Err(e)));
            assert(directive_definition_removal(s1, s2, "stream"@, r2));
            assert(api_schema_without_defer(s1, Err(e)));
            assert(directive_definition_removal(s0, s1, "defer"@, r1));
            return Err(e);
        },
    }
    let mut inner = api_schema.into_inner();
    let ghost i0 = inner;
    remove_non_semantic_directives(&mut inner);
    let ghost i1 = inner;
    propagate_default_input_fields(&mut inner);
    proof {
        assert(non_semantic_removed(i0, i1));
        assert(defaults_propagated(i1, inner));
        assert(api_schema_finished(s4.spec_schema(), inner));
        assert(core_removal(s3, s4, r4));
        assert(api_schema_without_inaccessible(s3, Ok(inner)));
        assert(inaccessible_removal(s2, s3, r3));
        assert(api_schema_without_stream(s2, Ok(inner)));
        assert(directive_definition_removal(s1, s2, "stream"@, r2));
        assert(api_schema_without_defer(s1, Ok(inner)));
        assert(directive_definition_removal(s0, s1, "defer"@, r1));
    }
    Ok(inner)
}
} // verus!
