//! Taking out of a schema the elements that apply the inaccessible directive, with the fields
//! of inaccessible types.
use crate::core_features::{
    child_name_list, child_names, lemma_stepwise_completes, lemma_stepwise_stops, names_view, outcome, stepwise,
};
use crate::error::{is_internal_error, FederationError};
use crate::federation_schema::{directive_entry, missing_directive_record_message, FederationSchema, Location, LocationView, locations_view};
use crate::link::{directive_name_in_schema, Version};
use crate::position::{
    directive_argument, enum_value, input_object_field, removed_directive_argument, DirectiveArgumentDefinitionPosition,
    EnumValueDefinitionPosition, InputObjectFieldDefinitionPosition,
    field_argument, grouped, grouped_locations, is_referrer_exec, lemma_filter_step, locate_type, referrer_pred,
    removed_child, removed_field_argument, type_field, type_of_kind, type_removal, EnumTypeDefinitionPosition,
    InputObjectTypeDefinitionPosition, InterfaceFieldArgumentDefinitionPosition, InterfaceFieldDefinitionPosition, InterfaceTypeDefinitionPosition,
    ObjectFieldArgumentDefinitionPosition, ObjectFieldDefinitionPosition, ObjectTypeDefinitionPosition, Referrer,
    ScalarTypeDefinitionPosition, UnionTypeDefinitionPosition,
};
use crate::schema::{Schema, TypeKind};
use crate::spec_definition::{
    get_inaccessible_spec_definition_from_subgraph, inaccessible_link, lemma_inaccessible_link,
    no_inaccessible_message, unsupported_inaccessible_message,
};
use crate::federation_schema::TypeReferencers;
use vstd::prelude::*;

verus! {

/// The name under which a schema applies the inaccessible directive: the one of the first
/// link to the inaccessible specification, where that link is to a known version; else the
/// message of why there is none.
pub open spec fn inaccessible_directive_name(s: FederationSchema) -> Result<Seq<char>, Seq<char>> {
    match s.spec_metadata() {
        None => Err(no_inaccessible_message()),
        Some(m) => match inaccessible_link(m.links@) {
            None => Err(no_inaccessible_message()),
            Some(i) => {
                let v = m.links@[i].url.version;
                if v == (Version { major: 0, minor: 1 }) || v == (Version { major: 0, minor: 2 }) {
                    Ok(directive_name_in_schema(m.links@[i], "inaccessible"@))
                } else {
                    Err(unsupported_inaccessible_message())
                }
            },
        },
    }
}

/// The name of the type at a type location.
pub open spec fn location_type_name(l: LocationView) -> Seq<char> {
    match l {
        LocationView::ScalarType(n) => n,
        LocationView::ObjectType(n) => n,
        LocationView::InterfaceType(n) => n,
        LocationView::UnionType(n) => n,
        LocationView::EnumType(n) => n,
        LocationView::InputObjectType(n) => n,
        _ => Seq::empty(),
    }
}

/// The names of the types at the locations among `ls` of the kind `c`, in order.
pub open spec fn type_names_at(ls: Seq<LocationView>, c: Referrer) -> Seq<Seq<char>> {
    ls.filter(referrer_pred(c)).map_values(|l: LocationView| location_type_name(l))
}

/// The fields of the types `ts` (object types where `object`, else interface types), each as
/// the names of its type and of itself, type by type; else the message of the first name
/// that is no such type.
pub open spec fn fields_of_types(s: Schema, ts: Seq<Seq<char>>, object: bool) -> Result<Seq<(Seq<char>, Seq<char>)>, Seq<char>>
    decreases ts.len(),
{
    if ts.len() == 0 {
        Ok(Seq::empty())
    } else {
        match fields_of_types(s, ts.drop_last(), object) {
            Err(m) => Err(m),
            Ok(fs) => match type_of_kind(s, ts.last(), if object { TypeKind::Object } else { TypeKind::Interface }) {
                Err(m) => Err(m),
                Ok(i) => Ok(fs + child_names(s.types@[i]).map_values(|f: Seq<char>| (ts.last(), f))),
            },
        }
    }
}

/// The removal of the field `fs[j]`, as a step.
pub open spec fn field_step(fs: Seq<(Seq<char>, Seq<char>)>, object: bool) -> spec_fn(
    FederationSchema,
    FederationSchema,
    int,
    Result<(), FederationError>,
) -> bool {
    |a: FederationSchema, b: FederationSchema, j: int, r: Result<(), FederationError>|
        removed_child(a, b, type_field(a.spec_schema(), fs[j].0, fs[j].1, object), r)
}

/// Whether `new` is `old` after removing the fields of its types `ts` (object types where
/// `object`, else interface types), listed first, then removed one by one; `res` the
/// outcome. Listing fails, with nothing removed, where a name is no such type.
pub open spec fn fields_phase(
    old: FederationSchema,
    new: FederationSchema,
    ts: Seq<Seq<char>>,
    object: bool,
    res: Result<(), FederationError>,
) -> bool {
    match fields_of_types(old.spec_schema(), ts, object) {
        Err(m) => res matches Err(e) && is_internal_error(e, m) && new == old,
        Ok(fs) => fields_run(old, new, fs, object, res),
    }
}

/// Whether `new` is `old` after removing the fields `fs` in turn (see [`fields_phase`]).
pub open spec fn fields_run(
    old: FederationSchema,
    new: FederationSchema,
    fs: Seq<(Seq<char>, Seq<char>)>,
    object: bool,
    res: Result<(), FederationError>,
) -> bool {
    exists|states: Seq<FederationSchema>|
        #![trigger stepwise(states, fs.len() as int, field_step(fs, object), res)]
        stepwise(states, fs.len() as int, field_step(fs, object), res) && states[0] == old && states.last() == new
}

/// The groups, in order, in which the elements that apply the inaccessible directive are
/// removed once the fields of inaccessible types are.
pub open spec fn inaccessible_order() -> Seq<Referrer> {
    seq![
        Referrer::InterfaceFieldArgument,
        Referrer::ObjectFieldArgument,
        Referrer::DirectiveArgument,
        Referrer::InterfaceField,
        Referrer::ObjectField,
        Referrer::InputObjectField,
        Referrer::EnumValue,
        Referrer::UnionType,
        Referrer::ObjectType,
        Referrer::InterfaceType,
        Referrer::EnumType,
        Referrer::ScalarType,
        Referrer::InputObjectType,
    ]
}

/// Whether `new` is `old` after removing the element at `l`, `res` the outcome: an argument,
/// a field, an input field, an enum value, a directive argument or a type (with what
/// references it); nothing for the schema definition and its roots.
pub open spec fn removed_element_at(
    old: FederationSchema,
    new: FederationSchema,
    l: LocationView,
    res: Result<(), FederationError>,
) -> bool {
    let s = old.spec_schema();
    match l {
        LocationView::InterfaceFieldArgument(t, f, a) => removed_field_argument(
            old,
            new,
            field_argument(s, t, f, a, false),
            l,
            res,
        ),
        LocationView::ObjectFieldArgument(t, f, a) => removed_field_argument(old, new, field_argument(s, t, f, a, true), l, res),
        LocationView::InterfaceField(t, f) => removed_child(old, new, type_field(s, t, f, false), res),
        LocationView::ObjectField(t, f) => removed_child(old, new, type_field(s, t, f, true), res),
        LocationView::UnionType(n) => removed_type_as_step(old, new, n, TypeKind::Union, res),
        LocationView::ObjectType(n) => removed_type_as_step(old, new, n, TypeKind::Object, res),
        LocationView::InterfaceType(n) => removed_type_as_step(old, new, n, TypeKind::Interface, res),
        LocationView::EnumType(n) => removed_type_as_step(old, new, n, TypeKind::Enum, res),
        LocationView::ScalarType(n) => removed_type_as_step(old, new, n, TypeKind::Scalar, res),
        LocationView::InputObjectType(n) => removed_type_as_step(old, new, n, TypeKind::InputObject, res),
        LocationView::EnumValue(t, v) => removed_child(old, new, enum_value(s, t, v), res),
        LocationView::InputObjectField(t, f) => removed_child(old, new, input_object_field(s, t, f), res),
        LocationView::DirectiveArgument(d, a) => removed_directive_argument(old, new, directive_argument(s, d, a), l, res),
        _ => res is Ok && new == old,
    }
}

/// The removal of the type `n` of kind `k`, as a step (see [`type_removal`]).
pub open spec fn removed_type_as_step(
    old: FederationSchema,
    new: FederationSchema,
    n: Seq<char>,
    k: TypeKind,
    res: Result<(), FederationError>,
) -> bool {
    exists|ro: Result<Option<TypeReferencers>, FederationError>|
        #![trigger type_removal(old, new, n, k, ro)]
        type_removal(old, new, n, k, ro) && outcome(ro) == res
}

/// The removal of the element at `ls[j]`, as a step.
pub open spec fn element_step(ls: Seq<LocationView>) -> spec_fn(
    FederationSchema,
    FederationSchema,
    int,
    Result<(), FederationError>,
) -> bool {
    |a: FederationSchema, b: FederationSchema, j: int, r: Result<(), FederationError>| removed_element_at(a, b, ls[j], r)
}

/// Whether `new` is `old` without the elements that apply the inaccessible directive, `res`
/// the outcome: the directive's name is found from the schema's link to the inaccessible
/// specification, and the locations that the schema records for it are taken; then the
/// fields of the inaccessible object types are removed, then those of the inaccessible
/// interface types; then the inaccessible elements group by group (see
/// [`inaccessible_order`]). Each phase stops at the first removal that fails, with its error.
pub open spec fn inaccessible_removal(old: FederationSchema, new: FederationSchema, res: Result<(), FederationError>) -> bool {
    match inaccessible_directive_name(old) {
        Err(m) => res matches Err(e) && is_internal_error(e, m) && new == old,
        Ok(d) => match directive_entry(old.spec_referencers().directives, d) {
            None => res matches Err(e) && is_internal_error(e, missing_directive_record_message(d)) && new == old,
            Some(j) => inaccessible_phases(old, new, old.spec_referencers().directives[j].1, res),
        },
    }
}

/// The phases of [`inaccessible_removal`] over the recorded locations `ls`.
pub open spec fn inaccessible_phases(
    old: FederationSchema,
    new: FederationSchema,
    ls: Seq<LocationView>,
    res: Result<(), FederationError>,
) -> bool {
    exists|m1: FederationSchema, r1: Result<(), FederationError>|
        #![trigger fields_phase(old, m1, type_names_at(ls, Referrer::ObjectType), true, r1)]
        fields_phase(old, m1, type_names_at(ls, Referrer::ObjectType), true, r1) && match r1 {
            Err(e) => res == Err::<(), FederationError>(e) && new == m1,
            Ok(()) => interface_phases(m1, new, ls, res),
        }
}

/// The phases of [`inaccessible_removal`] after the fields of the object types.
pub open spec fn interface_phases(
    mid: FederationSchema,
    new: FederationSchema,
    ls: Seq<LocationView>,
    res: Result<(), FederationError>,
) -> bool {
    exists|m2: FederationSchema, r2: Result<(), FederationError>|
        #![trigger fields_phase(mid, m2, type_names_at(ls, Referrer::InterfaceType), false, r2)]
        fields_phase(mid, m2, type_names_at(ls, Referrer::InterfaceType), false, r2) && match r2 {
            Err(e) => res == Err::<(), FederationError>(e) && new == m2,
            Ok(()) => elements_run(m2, new, grouped(ls, inaccessible_order()), res),
        }
}

/// Whether `new` is `old` after removing the elements at `ls` in turn.
pub open spec fn elements_run(
    old: FederationSchema,
    new: FederationSchema,
    ls: Seq<LocationView>,
    res: Result<(), FederationError>,
) -> bool {
    exists|states: Seq<FederationSchema>|
        #![trigger stepwise(states, ls.len() as int, element_step(ls), res)]
        stepwise(states, ls.len() as int, element_step(ls), res) && states[0] == old && states.last() == new
}

fn type_names_of(ls: &Vec<Location>, c: Referrer) -> (res: Vec<String>)
    ensures
        names_view(res@) == type_names_at(locations_view(ls@), c),
{
    let ghost lv = locations_view(ls@);
    let mut out: Vec<String> = Vec::new();
    let mut m: usize = 0;
    proof {
        assert(lv.take(0).filter(referrer_pred(c)) =~= Seq::<LocationView>::empty()) by {
            reveal(Seq::filter);
        }
        assert(names_view(out@) =~= lv.take(0).filter(referrer_pred(c)).map_values(|l: LocationView| location_type_name(l)));
    }
    while m < ls.len()
        invariant
            m <= ls@.len(),
            lv == locations_view(ls@),
            names_view(out@) == lv.take(m as int).filter(referrer_pred(c)).map_values(|l: LocationView| location_type_name(l)),
        decreases ls@.len() - m,
    {
        let is_cat = is_referrer_exec(&ls[m], c);
        proof {
            assert(lv[m as int] == ls@[m as int]@);
            lemma_filter_step(lv, c, m as int);
        }
        if is_cat {
            let ghost before = out@;
            let name = match &ls[m] {
                Location::ScalarType(n) => n.clone(),
                Location::ObjectType(n) => n.clone(),
                Location::InterfaceType(n) => n.clone(),
                Location::UnionType(n) => n.clone(),
                Location::EnumType(n) => n.clone(),
                Location::InputObjectType(n) => n.clone(),
                _ => String::new(),
            };
            out.push(name);
            proof {
                assert(names_view(out@) =~= names_view(before).push(location_type_name(lv[m as int])));
                assert(lv.take(m + 1).filter(referrer_pred(c)).map_values(|l: LocationView| location_type_name(l))
                    =~= lv.take(m as int).filter(referrer_pred(c)).map_values(|l: LocationView| location_type_name(l)).push(
                    location_type_name(lv[m as int]),
                ));
            }
        }
        m = m + 1;
    }
    proof {
        assert(lv.take(lv.len() as int) =~= lv);
    }
    out
}

pub open spec fn field_pairs_view(v: Seq<(String, String)>) -> Seq<(Seq<char>, Seq<char>)> {
    v.map_values(|p: (String, String)| (p.0@, p.1@))
}

fn fields_of_types_exec(schema: &Schema, ts: &Vec<String>, object: bool) -> (res: Result<Vec<(String, String)>, FederationError>)
    ensures
        match fields_of_types(*schema, names_view(ts@), object) {
            Ok(fs) => res matches Ok(v) && field_pairs_view(v@) == fs,
            Err(m) => res matches Err(e) && is_internal_error(e, m),
        },
{
    let ghost tv = names_view(ts@);
    let k = if object { TypeKind::Object } else { TypeKind::Interface };
    let mut out: Vec<(String, String)> = Vec::new();
    let mut i: usize = 0;
    proof {
        assert(tv.take(0) =~= Seq::<Seq<char>>::empty());
        assert(field_pairs_view(out@) =~= Seq::<(Seq<char>, Seq<char>)>::empty());
    }
    while i < ts.len()
        invariant
            i <= ts@.len(),
            tv == names_view(ts@),
            k == (if object { TypeKind::Object } else { TypeKind::Interface }),
            fields_of_types(*schema, tv.take(i as int), object) == Ok::<Seq<(Seq<char>, Seq<char>)>, Seq<char>>(field_pairs_view(out@)),
        decreases ts@.len() - i,
    {
        proof {
            assert(tv.take(i + 1).drop_last() =~= tv.take(i as int));
            assert(tv.take(i + 1).last() == ts@[i as int]@);
        }
        let j = match locate_type(schema, &ts[i], k) {
            Ok(j) => j,
            Err(e) => {
                proof {
                    lemma_fields_of_types_error(*schema, tv, object, i + 1);
                }
                return Err(e);
            },
        };
        let names = child_name_list(&schema.types[j]);
        let ghost before = field_pairs_view(out@);
        let mut m: usize = 0;
        while m < names.len()
            invariant
                m <= names@.len(),
                i < ts@.len(),
                field_pairs_view(out@) == before + names_view(names@).take(m as int).map_values(|f: Seq<char>| (ts@[i as int]@, f)),
            decreases names@.len() - m,
        {
            let ghost prev = field_pairs_view(out@);
            out.push((ts[i].clone(), names[m].clone()));
            proof {
                assert(field_pairs_view(out@) =~= prev.push((ts@[i as int]@, names@[m as int]@)));
                assert(names_view(names@).take(m + 1).map_values(|f: Seq<char>| (ts@[i as int]@, f))
                    =~= names_view(names@).take(m as int).map_values(|f: Seq<char>| (ts@[i as int]@, f)).push(
                    (ts@[i as int]@, names@[m as int]@),
                ));
            }
            m = m + 1;
        }
        proof {
            assert(names_view(names@).take(names@.len() as int) =~= names_view(names@));
            assert(field_pairs_view(out@) =~= before + child_names(schema.types@[j as int]).map_values(
                |f: Seq<char>| (tv.take(i + 1).last(), f),
            ));
        }
        i = i + 1;
    }
    proof {
        assert(tv.take(tv.len() as int) =~= tv);
    }
    Ok(out)
}

proof fn lemma_fields_of_types_error(s: Schema, ts: Seq<Seq<char>>, object: bool, i: int)
    requires
        0 <= i <= ts.len(),
        fields_of_types(s, ts.take(i), object) is Err,
    ensures
        fields_of_types(s, ts, object) == fields_of_types(s, ts.take(i), object),
    decreases ts.len() - i,
{
    if i < ts.len() {
        assert(ts.take(i + 1).drop_last() =~= ts.take(i));
        lemma_fields_of_types_error(s, ts, object, i + 1);
    } else {
        assert(ts.take(i) =~= ts);
    }
}

fn remove_field_named(schema: &mut FederationSchema, t: &String, f: &String, object: bool) -> (res: Result<(), FederationError>)
    ensures
        removed_child(*old(schema), *final(schema), type_field(old(schema).spec_schema(), t@, f@, object), res),
{
    if object {
        ObjectFieldDefinitionPosition { name_of_type: t.clone(), field_name: f.clone() }.remove(schema)
    } else {
        InterfaceFieldDefinitionPosition { name_of_type: t.clone(), field_name: f.clone() }.remove(schema)
    }
}

/// Removes the fields of the types `ts` (see [`fields_phase`]).
fn remove_fields_of_types(schema: &mut FederationSchema, ts: &Vec<String>, object: bool) -> (res: Result<(), FederationError>)
    ensures
        fields_phase(*old(schema), *final(schema), names_view(ts@), object, res),
{
    let fields = match fields_of_types_exec(schema.schema(), ts, object) {
        Ok(v) => v,
        Err(e) => {
            return Err(e);
        },
    };
    let ghost fs = field_pairs_view(fields@);
    let ghost start = *schema;
    let ghost step = field_step(fs, object);
    let ghost mut states: Seq<FederationSchema> = seq![start];
    let mut j: usize = 0;
    while j < fields.len()
        invariant
            j <= fields@.len(),
            fs == field_pairs_view(fields@),
            step == field_step(fs, object),
            start == *old(schema),
            fields_of_types(start.spec_schema(), names_view(ts@), object) == Ok::<Seq<(Seq<char>, Seq<char>)>, Seq<char>>(fs),
            states.len() == j + 1,
            states[0] == start,
            states.last() == *schema,
            forall|m: int| #![trigger states[m]] 0 <= m < j ==> step(states[m], states[m + 1], m, Ok(())),
        decreases fields@.len() - j,
    {
        let ghost prev = states;
        let r = remove_field_named(schema, &fields[j].0, &fields[j].1, object);
        proof {
            states = states.push(*schema);
            assert(states[j as int] == prev.last());
            assert(states[j + 1] == *schema);
            assert(fs[j as int] == (fields@[j as int].0@, fields@[j as int].1@));
            assert(step(prev.last(), *schema, j as int, r));
            assert forall|m: int| #![trigger states[m]] 0 <= m < j implies step(states[m], states[m + 1], m, Ok(())) by {
                assert(states[m] == prev[m]);
                assert(states[m + 1] == prev[m + 1]);
            }
        }
        match r {
            Ok(u) => {
                proof {
                    assert(r == Ok::<(), FederationError>(()));
                    assert(step(states[j as int], states[j + 1], j as int, Ok(())));
                }
            },
            Err(e) => {
                proof {
                    lemma_stepwise_stops(states, fs.len() as int, step, e);
                    assert(fields_run(start, *schema, fs, object, Err(e)));
                }
                return Err(e);
            },
        }
        j = j + 1;
    }
    proof {
        lemma_stepwise_completes(states, fs.len() as int, step);
        assert(fields_run(start, *schema, fs, object, Ok(())));
    }
    Ok(())
}

fn remove_type_as_step(schema: &mut FederationSchema, n: &String, k: TypeKind) -> (res: Result<(), FederationError>)
    ensures
        removed_type_as_step(*old(schema), *final(schema), n@, k, res),
{
    let ghost before = *schema;
    let ro = match k {
        TypeKind::Scalar => ScalarTypeDefinitionPosition { name_of_type: n.clone() }.remove(schema),
        TypeKind::Object => ObjectTypeDefinitionPosition { name_of_type: n.clone() }.remove(schema),
        TypeKind::Interface => InterfaceTypeDefinitionPosition { name_of_type: n.clone() }.remove(schema),
        TypeKind::Union => UnionTypeDefinitionPosition { name_of_type: n.clone() }.remove(schema),
        TypeKind::Enum => EnumTypeDefinitionPosition { name_of_type: n.clone() }.remove(schema),
        TypeKind::InputObject => InputObjectTypeDefinitionPosition { name_of_type: n.clone() }.remove(schema),
    };
    match ro {
        Ok(_) => {
            assert(type_removal(before, *schema, n@, k, ro));
            Ok(())
        },
        Err(e) => {
            assert(type_removal(before, *schema, n@, k, ro));
            Err(e)
        },
    }
}


/// Removes the element at `loc` (see [`removed_element_at`]).
fn remove_element_at(schema: &mut FederationSchema, loc: &Location) -> (res: Result<(), FederationError>)
    ensures
        removed_element_at(*old(schema), *final(schema), loc@, res),
{
    match loc {
        Location::InterfaceFieldArgument(t, f, a) => InterfaceFieldArgumentDefinitionPosition {
            name_of_type: t.clone(),
            field_name: f.clone(),
            argument_name: a.clone(),
        }.remove(schema),
        Location::ObjectFieldArgument(t, f, a) => ObjectFieldArgumentDefinitionPosition {
            name_of_type: t.clone(),
            field_name: f.clone(),
            argument_name: a.clone(),
        }.remove(schema),
        Location::InterfaceField(t, f) => remove_field_named(schema, t, f, false),
        Location::ObjectField(t, f) => remove_field_named(schema, t, f, true),
        Location::UnionType(n) => remove_type_as_step(schema, n, TypeKind::Union),
        Location::ObjectType(n) => remove_type_as_step(schema, n, TypeKind::Object),
        Location::InterfaceType(n) => remove_type_as_step(schema, n, TypeKind::Interface),
        Location::EnumType(n) => remove_type_as_step(schema, n, TypeKind::Enum),
        Location::ScalarType(n) => remove_type_as_step(schema, n, TypeKind::Scalar),
        Location::InputObjectType(n) => remove_type_as_step(schema, n, TypeKind::InputObject),
        Location::EnumValue(t, v) => EnumValueDefinitionPosition { name_of_type: t.clone(), value_name: v.clone() }.remove(
            schema,
        ),
        Location::InputObjectField(t, f) => InputObjectFieldDefinitionPosition {
            name_of_type: t.clone(),
            field_name: f.clone(),
        }.remove(schema),
        Location::DirectiveArgument(d, a) => DirectiveArgumentDefinitionPosition {
            directive_name: d.clone(),
            argument_name: a.clone(),
        }.remove(schema),
        _ => Ok(()),
    }
}

fn inaccessible_order_of() -> (res: Vec<Referrer>)
    ensures
        res@ == inaccessible_order(),
{
    let v = vec![
        Referrer::InterfaceFieldArgument,
        Referrer::ObjectFieldArgument,
        Referrer::DirectiveArgument,
        Referrer::InterfaceField,
        Referrer::ObjectField,
        Referrer::InputObjectField,
        Referrer::EnumValue,
        Referrer::UnionType,
        Referrer::ObjectType,
        Referrer::InterfaceType,
        Referrer::EnumType,
        Referrer::ScalarType,
        Referrer::InputObjectType,
    ];
    assert(v@ =~= inaccessible_order());
    v
}

/// Removes the elements at `ls` in turn (see [`elements_run`]).
fn remove_elements(schema: &mut FederationSchema, ls: &Vec<Location>) -> (res: Result<(), FederationError>)
    ensures
        elements_run(*old(schema), *final(schema), locations_view(ls@), res),
{
    let ghost lv = locations_view(ls@);
    let ghost start = *schema;
    let ghost step = element_step(lv);
    let ghost mut states: Seq<FederationSchema> = seq![start];
    let mut j: usize = 0;
    while j < ls.len()
        invariant
            j <= ls@.len(),
            lv == locations_view(ls@),
            step == element_step(lv),
            start == *old(schema),
            states.len() == j + 1,
            states[0] == start,
            states.last() == *schema,
            forall|m: int| #![trigger states[m]] 0 <= m < j ==> step(states[m], states[m + 1], m, Ok(())),
        decreases ls@.len() - j,
    {
        let ghost prev = states;
        let r = remove_element_at(schema, &ls[j]);
        proof {
            states = states.push(*schema);
            assert(states[j as int] == prev.last());
            assert(states[j + 1] == *schema);
            assert(lv[j as int] == ls@[j as int]@);
            assert(step(prev.last(), *schema, j as int, r));
            assert forall|m: int| #![trigger states[m]] 0 <= m < j implies step(states[m], states[m + 1], m, Ok(())) by {
                assert(states[m] == prev[m]);
                assert(states[m + 1] == prev[m + 1]);
            }
        }
        match r {
            Ok(u) => {
                proof {
                    assert(r == Ok::<(), FederationError>(()));
                    assert(step(states[j as int], states[j + 1], j as int, Ok(())));
                }
            },
            Err(e) => {
                proof {
                    lemma_stepwise_stops(states, lv.len() as int, step, e);
                    assert(elements_run(start, *schema, lv, Err(e)));
                }
                return Err(e);
            },
        }
        j = j + 1;
    }
    proof {
        lemma_stepwise_completes(states, lv.len() as int, step);
        assert(elements_run(start, *schema, lv, Ok(())));
    }
    Ok(())
}

/// Removes the elements that apply the inaccessible directive, and the fields of the
/// inaccessible object and interface types (see [`inaccessible_removal`]).
pub fn remove_inaccessible_elements(schema: &mut FederationSchema) -> (res: Result<(), FederationError>)
    ensures
        inaccessible_removal(*old(schema), *final(schema), res),
{
    let spec = match get_inaccessible_spec_definition_from_subgraph(schema) {
        Ok(d) => d,
        Err(e) => {
            return Err(e);
        },
    };
    proof {
        match schema.spec_metadata() {
            Some(m) => lemma_inaccessible_link(m.links@, spec.url.identity),
            None => {},
        }
    }
    let name = match spec.directive_name_in_schema(schema, "inaccessible") {
        Ok(Some(n)) => n,
        Ok(None) => {
            return Err(FederationError::internal(String::from_str("Unexpectedly could not find inaccessible spec in schema")));
        },
        Err(e) => {
            return Err(e);
        },
    };
    proof {
        reveal_strlit("inaccessible");
        assert(inaccessible_directive_name(*schema) == Ok::<Seq<char>, Seq<char>>(name@));
    }
    let ls = match schema.directive_referencer_locations(&name) {
        Some(v) => v,
        None => {
            proof {
                reveal_with_fuel(crate::ast::concat_views, 4);
            }
            let m = crate::ast::concat_strs(&["Schema missing referencers for directive \"@", name.as_str(), "\""]);
            assert(m@ =~= missing_directive_record_message(name@));
            return Err(FederationError::internal(m));
        },
    };
    let ghost start = *schema;
    let ghost lv = locations_view(ls@);
    let objects = type_names_of(&ls, Referrer::ObjectType);
    let r1 = remove_fields_of_types(schema, &objects, true);
    let ghost m1 = *schema;
    match r1 {
        Ok(()) => {},
        Err(e) => {
            assert(inaccessible_phases(start, m1, lv, Err(e)));
            return Err(e);
        },
    }
    let interfaces = type_names_of(&ls, Referrer::InterfaceType);
    let r2 = remove_fields_of_types(schema, &interfaces, false);
    let ghost m2 = *schema;
    match r2 {
        Ok(()) => {},
        Err(e) => {
            assert(interface_phases(m1, m2, lv, Err(e)));
            assert(inaccessible_phases(start, m2, lv, Err(e)));
            return Err(e);
        },
    }
    let order = inaccessible_order_of();
    let elements = grouped_locations(&ls, &order);
    let r3 = remove_elements(schema, &elements);
    proof {
        assert(elements_run(m2, *schema, grouped(lv, inaccessible_order()), r3));
        assert(interface_phases(m1, *schema, lv, r3));
        assert(inaccessible_phases(start, *schema, lv, r3));
    }
    r3
}
} // verus!
