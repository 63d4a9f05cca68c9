//! Taking out of a schema the types and directives that its links bring in (the elements of
//! core features), with everything that refers to them.
use crate::error::FederationError;
use crate::federation_schema::{DirectiveReferencers, FederationSchema, TypeReferencers};
use crate::link::{source_of_directive, source_of_type, Link, LinksMetadata};
use crate::position::{
    directive_definition_removal, enum_value, input_object_field, removed_child, type_field, type_of_kind,
    type_removal, DirectiveDefinitionPosition, EnumTypeDefinitionPosition, EnumValueDefinitionPosition,
    InputObjectFieldDefinitionPosition, InputObjectTypeDefinitionPosition, InterfaceFieldDefinitionPosition,
    InterfaceTypeDefinitionPosition, ObjectFieldDefinitionPosition, ObjectTypeDefinitionPosition,
    ScalarTypeDefinitionPosition, UnionTypeDefinitionPosition,
};
use crate::schema::{DirectiveDefinition, ExtendedType, Schema, TypeKind};
use vstd::prelude::*;

verus! {

/// The outcome of a step, without what it hands back.
pub open spec fn outcome<T>(r: Result<T, FederationError>) -> Result<(), FederationError> {
    match r {
        Ok(_) => Ok(()),
        Err(e) => Err(e),
    }
}

/// Whether the schemas `states` go from the first to the last by the steps `0..n` in turn,
/// `step(a, b, k, r)` relating the step `k`, from `a` to `b`, to its outcome `r`; they stop
/// after the first step that fails, and `res` is the outcome.
pub open spec fn stepwise(
    states: Seq<FederationSchema>,
    n: int,
    step: spec_fn(FederationSchema, FederationSchema, int, Result<(), FederationError>) -> bool,
    res: Result<(), FederationError>,
) -> bool {
    let m = states.len() - 1;
    &&& 1 <= states.len() <= n + 1
    &&& forall|k: int| #![trigger states[k]] 0 <= k < m - 1 ==> step(states[k], states[k + 1], k, Ok(()))
    &&& match res {
        Ok(()) => m == n && (m > 0 ==> step(states[m - 1], states[m], m - 1, Ok(()))),
        Err(e) => m > 0 && step(states[m - 1], states[m], m - 1, Err(e)),
    }
}

pub(crate) proof fn lemma_stepwise_stops(
    states: Seq<FederationSchema>,
    n: int,
    step: spec_fn(FederationSchema, FederationSchema, int, Result<(), FederationError>) -> bool,
    e: FederationError,
)
    requires
        2 <= states.len() <= n + 1,
        forall|k: int| #![trigger states[k]] 0 <= k < states.len() - 2 ==> step(states[k], states[k + 1], k, Ok(())),
        step(states[states.len() - 2], states[states.len() - 1], states.len() - 2, Err(e)),
    ensures
        stepwise(states, n, step, Err(e)),
{
}

pub(crate) proof fn lemma_stepwise_completes(
    states: Seq<FederationSchema>,
    n: int,
    step: spec_fn(FederationSchema, FederationSchema, int, Result<(), FederationError>) -> bool,
)
    requires
        n >= 0,
        states.len() == n + 1,
        forall|k: int| #![trigger states[k]] 0 <= k < n ==> step(states[k], states[k + 1], k, Ok(())),
    ensures
        stepwise(states, n, step, Ok(())),
{
    if n > 0 {
        assert(step(states[n - 1], states[n], n - 1, Ok(())));
    }
}

/// The names and kinds of the types among `ts` that a link among `links` brings in, in order.
pub open spec fn linked_types(ts: Seq<ExtendedType>, links: Seq<Link>) -> Seq<(Seq<char>, TypeKind)>
    decreases ts.len(),
{
    if ts.len() == 0 {
        Seq::empty()
    } else {
        let rest = linked_types(ts.drop_last(), links);
        if source_of_type(links, ts.last().spec_name()) is Some {
            rest.push((ts.last().spec_name(), ts.last().spec_kind()))
        } else {
            rest
        }
    }
}

/// The names of the directive definitions among `ds` that a link among `links` brings in,
/// in order.
pub open spec fn linked_directives(ds: Seq<DirectiveDefinition>, links: Seq<Link>) -> Seq<Seq<char>>
    decreases ds.len(),
{
    if ds.len() == 0 {
        Seq::empty()
    } else {
        let rest = linked_directives(ds.drop_last(), links);
        if source_of_directive(links, ds.last().name@) is Some {
            rest.push(ds.last().name@)
        } else {
            rest
        }
    }
}

pub open spec fn named_kinds_view(v: Seq<(String, TypeKind)>) -> Seq<(Seq<char>, TypeKind)> {
    v.map_values(|p: (String, TypeKind)| (p.0@, p.1))
}

pub open spec fn names_view(v: Seq<String>) -> Seq<Seq<char>> {
    v.map_values(|s: String| s@)
}

fn linked_types_of(schema: &Schema, md: &LinksMetadata) -> (res: Vec<(String, TypeKind)>)
    ensures
        named_kinds_view(res@) == linked_types(schema.types@, md.links@),
{
    let mut out: Vec<(String, TypeKind)> = Vec::new();
    let mut i: usize = 0;
    proof {
        assert(schema.types@.take(0) =~= Seq::<ExtendedType>::empty());
        assert(named_kinds_view(out@) =~= Seq::<(Seq<char>, TypeKind)>::empty());
    }
    while i < schema.types.len()
        invariant
            i <= schema.types@.len(),
            named_kinds_view(out@) == linked_types(schema.types@.take(i as int), md.links@),
        decreases schema.types@.len() - i,
    {
        let t = &schema.types[i];
        proof {
            assert(schema.types@.take(i + 1).drop_last() =~= schema.types@.take(i as int));
            assert(schema.types@.take(i + 1).last() == schema.types@[i as int]);
        }
        if md.source_link_of_type(t.name().as_str()).is_some() {
            out.push((t.name().clone(), t.kind()));
            proof {
                assert(named_kinds_view(out@) =~= linked_types(schema.types@.take(i + 1), md.links@));
            }
        }
        i = i + 1;
    }
    proof {
        assert(schema.types@.take(schema.types@.len() as int) =~= schema.types@);
    }
    out
}

fn linked_directives_of(schema: &Schema, md: &LinksMetadata) -> (res: Vec<String>)
    ensures
        names_view(res@) == linked_directives(schema.directive_definitions@, md.links@),
{
    let ds = &schema.directive_definitions;
    let mut out: Vec<String> = Vec::new();
    let mut i: usize = 0;
    proof {
        assert(ds@.take(0) =~= Seq::<DirectiveDefinition>::empty());
        assert(names_view(out@) =~= Seq::<Seq<char>>::empty());
    }
    while i < ds.len()
        invariant
            i <= ds@.len(),
            names_view(out@) == linked_directives(ds@.take(i as int), md.links@),
        decreases ds@.len() - i,
    {
        proof {
            assert(ds@.take(i + 1).drop_last() =~= ds@.take(i as int));
            assert(ds@.take(i + 1).last() == ds@[i as int]);
        }
        if md.source_link_of_directive(ds[i].name.as_str()).is_some() {
            out.push(ds[i].name.clone());
            proof {
                assert(names_view(out@) =~= linked_directives(ds@.take(i + 1), md.links@));
            }
        }
        i = i + 1;
    }
    proof {
        assert(ds@.take(ds@.len() as int) =~= ds@);
    }
    out
}

/// The names of the children of a type: its fields, input fields or enum values.
pub open spec fn child_names(t: ExtendedType) -> Seq<Seq<char>> {
    match t {
        ExtendedType::Object { fields, .. } => fields@.map_values(|f: crate::schema::FieldDefinition| f.name@),
        ExtendedType::Interface { fields, .. } => fields@.map_values(|f: crate::schema::FieldDefinition| f.name@),
        ExtendedType::InputObject { input_fields, .. } => input_fields@.map_values(
            |f: crate::schema::InputValueDefinition| f.name@,
        ),
        ExtendedType::Enum { values, .. } => values@.map_values(|v: crate::schema::EnumValueDefinition| v.value@),
        _ => Seq::empty(),
    }
}

pub(crate) fn child_name_list(t: &ExtendedType) -> (res: Vec<String>)
    ensures
        names_view(res@) == child_names(*t),
{
    let mut out: Vec<String> = Vec::new();
    let mut i: usize = 0;
    match t {
        ExtendedType::Object { fields, .. } | ExtendedType::Interface { fields, .. } => {
            while i < fields.len()
                invariant
                    i <= fields@.len(),
                    names_view(out@) =~= fields@.take(i as int).map_values(|f: crate::schema::FieldDefinition| f.name@),
                decreases fields@.len() - i,
            {
                let ghost before = out@;
                out.push(fields[i].name.clone());
                proof {
                    assert(fields@.take(i + 1) =~= fields@.take(i as int).push(fields@[i as int]));
                    assert(names_view(out@) =~= names_view(before).push(fields@[i as int].name@));
                }
                i = i + 1;
            }
            proof {
                assert(fields@.take(fields@.len() as int) =~= fields@);
            }
        },
        ExtendedType::InputObject { input_fields, .. } => {
            while i < input_fields.len()
                invariant
                    i <= input_fields@.len(),
                    names_view(out@) =~= input_fields@.take(i as int).map_values(
                        |f: crate::schema::InputValueDefinition| f.name@,
                    ),
                decreases input_fields@.len() - i,
            {
                let ghost before = out@;
                out.push(input_fields[i].name.clone());
                proof {
                    assert(input_fields@.take(i + 1) =~= input_fields@.take(i as int).push(input_fields@[i as int]));
                    assert(names_view(out@) =~= names_view(before).push(input_fields@[i as int].name@));
                }
                i = i + 1;
            }
            proof {
                assert(input_fields@.take(input_fields@.len() as int) =~= input_fields@);
            }
        },
        ExtendedType::Enum { values, .. } => {
            while i < values.len()
                invariant
                    i <= values@.len(),
                    names_view(out@) =~= values@.take(i as int).map_values(|v: crate::schema::EnumValueDefinition| v.value@),
                decreases values@.len() - i,
            {
                let ghost before = out@;
                out.push(values[i].value.clone());
                proof {
                    assert(values@.take(i + 1) =~= values@.take(i as int).push(values@[i as int]));
                    assert(names_view(out@) =~= names_view(before).push(values@[i as int].value@));
                }
                i = i + 1;
            }
            proof {
                assert(values@.take(values@.len() as int) =~= values@);
            }
        },
        _ => {
            proof {
                assert(names_view(out@) =~= child_names(*t));
            }
        },
    }
    out
}

/// Whether a type of kind `k` has children (fields, input fields or enum values).
pub open spec fn has_children(k: TypeKind) -> bool {
    k == TypeKind::Object || k == TypeKind::Interface || k == TypeKind::InputObject || k == TypeKind::Enum
}

/// Where the child `c` of the type `n` of kind `k` stands in `s` (see the lookups of the
/// positions of fields, input fields and enum values).
pub open spec fn child_lookup(s: Schema, n: Seq<char>, k: TypeKind, c: Seq<char>) -> Result<(int, int), Seq<char>> {
    match k {
        TypeKind::Object => type_field(s, n, c, true),
        TypeKind::Interface => type_field(s, n, c, false),
        TypeKind::InputObject => input_object_field(s, n, c),
        _ => enum_value(s, n, c),
    }
}

/// The removal of the child `cs[j]` of the type `n` of kind `k`, as a step.
pub open spec fn child_step(n: Seq<char>, k: TypeKind, cs: Seq<Seq<char>>) -> spec_fn(
    FederationSchema,
    FederationSchema,
    int,
    Result<(), FederationError>,
) -> bool {
    |a: FederationSchema, b: FederationSchema, j: int, r: Result<(), FederationError>|
        removed_child(a, b, child_lookup(a.spec_schema(), n, k, cs[j]), r)
}

/// Whether `new` is `old` after removing, one by one, the children of its type `n` of kind
/// `k` (those it has at the start), `res` the outcome; an internal error where there is no
/// such type; nothing for a kind without children.
pub open spec fn children_cleared(
    old: FederationSchema,
    new: FederationSchema,
    n: Seq<char>,
    k: TypeKind,
    res: Result<(), FederationError>,
) -> bool {
    if has_children(k) {
        match type_of_kind(old.spec_schema(), n, k) {
            Err(m) => res matches Err(e) && crate::error::is_internal_error(e, m) && new == old,
            Ok(i) => children_run(old, new, n, k, child_names(old.spec_schema().types@[i]), res),
        }
    } else {
        res is Ok && new == old
    }
}

/// Whether `new` is `old` after removing the children `cs` of the type `n` of kind `k` in
/// turn (see [`children_cleared`]).
pub open spec fn children_run(
    old: FederationSchema,
    new: FederationSchema,
    n: Seq<char>,
    k: TypeKind,
    cs: Seq<Seq<char>>,
    res: Result<(), FederationError>,
) -> bool {
    exists|states: Seq<FederationSchema>|
        #![trigger stepwise(states, cs.len() as int, child_step(n, k, cs), res)]
        stepwise(states, cs.len() as int, child_step(n, k, cs), res) && states[0] == old && states.last() == new
}

fn remove_child_named(schema: &mut FederationSchema, n: &String, k: TypeKind, c: &String) -> (res: Result<(), FederationError>)
    requires
        has_children(k),
    ensures
        removed_child(*old(schema), *final(schema), child_lookup(old(schema).spec_schema(), n@, k, c@), res),
{
    match k {
        TypeKind::Object => ObjectFieldDefinitionPosition { name_of_type: n.clone(), field_name: c.clone() }.remove(schema),
        TypeKind::Interface => InterfaceFieldDefinitionPosition { name_of_type: n.clone(), field_name: c.clone() }.remove(
            schema,
        ),
        TypeKind::InputObject => InputObjectFieldDefinitionPosition {
            name_of_type: n.clone(),
            field_name: c.clone(),
        }.remove(schema),
        _ => EnumValueDefinitionPosition { name_of_type: n.clone(), value_name: c.clone() }.remove(schema),
    }
}

/// Removes the children of the type `n` of kind `k` (see [`children_cleared`]).
fn clear_children(schema: &mut FederationSchema, n: &String, k: TypeKind) -> (res: Result<(), FederationError>)
    ensures
        children_cleared(*old(schema), *final(schema), n@, k, res),
{
    if !(k == TypeKind::Object || k == TypeKind::Interface || k == TypeKind::InputObject || k == TypeKind::Enum) {
        return Ok(());
    }
    let i = match crate::position::locate_type(schema.schema(), n, k) {
        Ok(i) => i,
        Err(e) => {
            return Err(e);
        },
    };
    let names = child_name_list(&schema.schema().types[i]);
    let ghost cs = names_view(names@);
    let ghost start = *schema;
    let ghost step = child_step(n@, k, cs);
    let ghost mut states: Seq<FederationSchema> = seq![start];
    let mut j: usize = 0;
    while j < names.len()
        invariant
            j <= names@.len(),
            cs == names_view(names@),
            step == child_step(n@, k, cs),
            has_children(k),
            start == *old(schema),
            type_of_kind(start.spec_schema(), n@, k) == Ok::<int, Seq<char>>(i as int),
            cs == child_names(start.spec_schema().types@[i as int]),
            states.len() == j + 1,
            states[0] == start,
            states.last() == *schema,
            forall|m: int| #![trigger states[m]] 0 <= m < j ==> step(states[m], states[m + 1], m, Ok(())),
        decreases names@.len() - j,
    {
        let ghost prev = states;
        let r = remove_child_named(schema, n, k, &names[j]);
        proof {
            states = states.push(*schema);
            assert(cs[j as int] == names@[j as int]@);
            assert(step(prev.last(), *schema, j as int, r));
            assert forall|m: int| #![trigger states[m]] 0 <= m < j implies step(states[m], states[m + 1], m, Ok(())) by {
                assert(states[m] == prev[m]);
                assert(states[m + 1] == prev[m + 1]);
            }
        }
        match r {
            Ok(()) => {},
            Err(e) => {
                proof {
                    lemma_stepwise_stops(states, cs.len() as int, step, e);
                    assert(children_run(start, *schema, n@, k, cs, Err(e)));
                }
                return Err(e);
            },
        }
        j = j + 1;
    }
    proof {
        lemma_stepwise_completes(states, cs.len() as int, step);
        assert(children_run(start, *schema, n@, k, cs, Ok(())));
    }
    Ok(())
}


/// Clearing the children of the type `ts[j]`, as a step.
pub open spec fn clear_step(ts: Seq<(Seq<char>, TypeKind)>) -> spec_fn(
    FederationSchema,
    FederationSchema,
    int,
    Result<(), FederationError>,
) -> bool {
    |a: FederationSchema, b: FederationSchema, j: int, r: Result<(), FederationError>|
        children_cleared(a, b, ts[j].0, ts[j].1, r)
}

/// Removing the directive definition `ds[j]`, as a step.
pub open spec fn directive_step(ds: Seq<Seq<char>>) -> spec_fn(
    FederationSchema,
    FederationSchema,
    int,
    Result<(), FederationError>,
) -> bool {
    |a: FederationSchema, b: FederationSchema, j: int, r: Result<(), FederationError>|
        exists|ro: Result<Option<DirectiveReferencers>, FederationError>|
            #![trigger directive_definition_removal(a, b, ds[j], ro)]
            directive_definition_removal(a, b, ds[j], ro) && outcome(ro) == r
}

/// Removing the type `ts[j]`, as a step.
pub open spec fn type_step(ts: Seq<(Seq<char>, TypeKind)>) -> spec_fn(
    FederationSchema,
    FederationSchema,
    int,
    Result<(), FederationError>,
) -> bool {
    |a: FederationSchema, b: FederationSchema, j: int, r: Result<(), FederationError>|
        exists|ro: Result<Option<TypeReferencers>, FederationError>|
            #![trigger type_removal(a, b, ts[j].0, ts[j].1, ro)]
            type_removal(a, b, ts[j].0, ts[j].1, ro) && outcome(ro) == r
}

/// Whether `new` is `old` without the elements of its core features, `res` the outcome:
/// where the schema has links, the types and directive definitions that they bring in are
/// listed first (in schema order); then the children of those types are removed, type by
/// type; then those directive definitions, with their applications; then those types, with
/// what references them. Each phase stops at the first removal that fails, with its error.
/// A schema without links is left as it is.
pub open spec fn core_removal(old: FederationSchema, new: FederationSchema, res: Result<(), FederationError>) -> bool {
    match old.spec_metadata() {
        None => res is Ok && new == old,
        Some(md) => core_phases(
            old,
            new,
            linked_types(old.spec_schema().types@, md.links@),
            linked_directives(old.spec_schema().directive_definitions@, md.links@),
            res,
        ),
    }
}

/// Whether `ts` and `ds` are the types and directive definitions that the links of `s` bring
/// in (see [`core_removal`]).
pub open spec fn core_lists(s: FederationSchema, ts: Seq<(Seq<char>, TypeKind)>, ds: Seq<Seq<char>>) -> bool {
    match s.spec_metadata() {
        Some(md) => ts == linked_types(s.spec_schema().types@, md.links@) && ds == linked_directives(
            s.spec_schema().directive_definitions@,
            md.links@,
        ),
        None => false,
    }
}

/// The three phases of [`core_removal`] over the types `ts` and the directives `ds`.
pub open spec fn core_phases(
    old: FederationSchema,
    new: FederationSchema,
    ts: Seq<(Seq<char>, TypeKind)>,
    ds: Seq<Seq<char>>,
    res: Result<(), FederationError>,
) -> bool {
    exists|s1: Seq<FederationSchema>, r1: Result<(), FederationError>|
        #![trigger stepwise(s1, ts.len() as int, clear_step(ts), r1)]
        stepwise(s1, ts.len() as int, clear_step(ts), r1) && s1[0] == old && match r1 {
            Err(e) => res == Err::<(), FederationError>(e) && new == s1.last(),
            Ok(()) => directives_then_types(s1.last(), new, ts, ds, res),
        }
}

/// The last two phases of [`core_removal`].
pub open spec fn directives_then_types(
    mid: FederationSchema,
    new: FederationSchema,
    ts: Seq<(Seq<char>, TypeKind)>,
    ds: Seq<Seq<char>>,
    res: Result<(), FederationError>,
) -> bool {
    exists|s2: Seq<FederationSchema>, r2: Result<(), FederationError>|
        #![trigger stepwise(s2, ds.len() as int, directive_step(ds), r2)]
        stepwise(s2, ds.len() as int, directive_step(ds), r2) && s2[0] == mid && match r2 {
            Err(e) => res == Err::<(), FederationError>(e) && new == s2.last(),
            Ok(()) => types_removed(s2.last(), new, ts, res),
        }
}

/// The last phase of [`core_removal`].
pub open spec fn types_removed(
    mid: FederationSchema,
    new: FederationSchema,
    ts: Seq<(Seq<char>, TypeKind)>,
    res: Result<(), FederationError>,
) -> bool {
    exists|s3: Seq<FederationSchema>|
        #![trigger stepwise(s3, ts.len() as int, type_step(ts), res)]
        stepwise(s3, ts.len() as int, type_step(ts), res) && s3[0] == mid && s3.last() == new
}

fn remove_type_named(schema: &mut FederationSchema, n: &String, k: TypeKind) -> (res: Result<Option<TypeReferencers>, FederationError>)
    ensures
        type_removal(*old(schema), *final(schema), n@, k, res),
{
    match k {
        TypeKind::Scalar => ScalarTypeDefinitionPosition { name_of_type: n.clone() }.remove(schema),
        TypeKind::Object => ObjectTypeDefinitionPosition { name_of_type: n.clone() }.remove(schema),
        TypeKind::Interface => InterfaceTypeDefinitionPosition { name_of_type: n.clone() }.remove(schema),
        TypeKind::Union => UnionTypeDefinitionPosition { name_of_type: n.clone() }.remove(schema),
        TypeKind::Enum => EnumTypeDefinitionPosition { name_of_type: n.clone() }.remove(schema),
        TypeKind::InputObject => InputObjectTypeDefinitionPosition { name_of_type: n.clone() }.remove(schema),
    }
}

/// Removes the types and directive definitions that the links of the schema bring in, with
/// everything that refers to them (see [`core_removal`]).
#[verifier::rlimit(40)]
pub fn remove_core_feature_elements(schema: &mut FederationSchema) -> (res: Result<(), FederationError>)
    ensures
        core_removal(*old(schema), *final(schema), res),
{
    let (types, directives) = match schema.metadata() {
        Some(md) => (linked_types_of(schema.schema(), md), linked_directives_of(schema.schema(), md)),
        None => {
            return Ok(());
        },
    };
    let ghost ts = named_kinds_view(types@);
    let ghost ds = names_view(directives@);
    let ghost start = *schema;
    assert(core_lists(start, ts, ds));
    let ghost step1 = clear_step(ts);
    let ghost mut s1: Seq<FederationSchema> = seq![start];
    let mut j: usize = 0;
    while j < types.len()
        invariant
            j <= types@.len(),
            ts == named_kinds_view(types@),
            step1 == clear_step(ts),
            s1.len() == j + 1,
            s1[0] == start,
            s1.last() == *schema,
            start == *old(schema),
            core_lists(start, ts, ds),
            forall|m: int| #![trigger s1[m]] 0 <= m < j ==> step1(s1[m], s1[m + 1], m, Ok(())),
        decreases types@.len() - j,
    {
        let ghost prev = s1;
        let r = clear_children(schema, &types[j].0, types[j].1);
        proof {
            s1 = s1.push(*schema);
            assert(s1[j as int] == prev.last());
            assert(s1[j + 1] == *schema);
            assert(ts[j as int] == (types@[j as int].0@, types@[j as int].1));
            assert(step1(prev.last(), *schema, j as int, r));
            assert forall|m: int| #![trigger s1[m]] 0 <= m < j implies step1(s1[m], s1[m + 1], m, Ok(())) by {
                assert(s1[m] == prev[m]);
                assert(s1[m + 1] == prev[m + 1]);
            }
        }
        match r {
            Ok(u) => {
                proof {
                    assert(r == Ok::<(), FederationError>(()));
                    assert(step1(s1[j as int], s1[j + 1], j as int, Ok(())));
                }
            },
            Err(e) => {
                proof {
                    lemma_stepwise_stops(s1, ts.len() as int, step1, e);
                    assert(core_phases(start, *schema, ts, ds, Err(e)));
                }
                return Err(e);
            },
        }
        j = j + 1;
    }
    proof {
        lemma_stepwise_completes(s1, ts.len() as int, step1);
    }
    let ghost mid1 = *schema;
    let ghost step2 = directive_step(ds);
    let ghost mut s2: Seq<FederationSchema> = seq![mid1];
    let mut j: usize = 0;
    while j < directives.len()
        invariant
            j <= directives@.len(),
            ds == names_view(directives@),
            step2 == directive_step(ds),
            stepwise(s1, ts.len() as int, step1, Ok(())),
            step1 == clear_step(ts),
            s1[0] == start,
            s1.last() == mid1,
            s2.len() == j + 1,
            s2[0] == mid1,
            s2.last() == *schema,
            start == *old(schema),
            core_lists(start, ts, ds),
            forall|m: int| #![trigger s2[m]] 0 <= m < j ==> step2(s2[m], s2[m + 1], m, Ok(())),
        decreases directives@.len() - j,
    {
        let ghost prev = s2;
        let p = DirectiveDefinitionPosition { directive_name: directives[j].clone() };
        let ro = p.remove(schema);
        proof {
            s2 = s2.push(*schema);
            assert(s2[j as int] == prev.last());
            assert(s2[j + 1] == *schema);
            assert(ds[j as int] == directives@[j as int]@);
            assert(directive_definition_removal(prev.last(), *schema, ds[j as int], ro));
            assert(step2(prev.last(), *schema, j as int, outcome(ro)));
            assert forall|m: int| #![trigger s2[m]] 0 <= m < j implies step2(s2[m], s2[m + 1], m, Ok(())) by {
                assert(s2[m] == prev[m]);
                assert(s2[m + 1] == prev[m + 1]);
            }
        }
        match ro {
            Ok(_) => {},
            Err(e) => {
                proof {
                    lemma_stepwise_stops(s2, ds.len() as int, step2, e);
                    assert(directives_then_types(mid1, *schema, ts, ds, Err(e)));
                    assert(core_phases(start, *schema, ts, ds, Err(e)));
                }
                return Err(e);
            },
        }
        j = j + 1;
    }
    proof {
        lemma_stepwise_completes(s2, ds.len() as int, step2);
    }
    let ghost mid2 = *schema;
    let ghost step3 = type_step(ts);
    let ghost mut s3: Seq<FederationSchema> = seq![mid2];
    let mut j: usize = 0;
    while j < types.len()
        invariant
            j <= types@.len(),
            ts == named_kinds_view(types@),
            step3 == type_step(ts),
            stepwise(s1, ts.len() as int, step1, Ok(())),
            step1 == clear_step(ts),
            s1[0] == start,
            s1.last() == mid1,
            stepwise(s2, ds.len() as int, step2, Ok(())),
            step2 == directive_step(ds),
            s2[0] == mid1,
            s2.last() == mid2,
            s3.len() == j + 1,
            s3[0] == mid2,
            s3.last() == *schema,
            start == *old(schema),
            core_lists(start, ts, ds),
            forall|m: int| #![trigger s3[m]] 0 <= m < j ==> step3(s3[m], s3[m + 1], m, Ok(())),
        decreases types@.len() - j,
    {
        let ghost prev = s3;
        let ro = remove_type_named(schema, &types[j].0, types[j].1);
        proof {
            s3 = s3.push(*schema);
            assert(s3[j as int] == prev.last());
            assert(s3[j + 1] == *schema);
            assert(ts[j as int] == (types@[j as int].0@, types@[j as int].1));
            assert(type_removal(prev.last(), *schema, ts[j as int].0, ts[j as int].1, ro));
            assert(step3(prev.last(), *schema, j as int, outcome(ro)));
            assert forall|m: int| #![trigger s3[m]] 0 <= m < j implies step3(s3[m], s3[m + 1], m, Ok(())) by {
                assert(s3[m] == prev[m]);
                assert(s3[m + 1] == prev[m + 1]);
            }
        }
        match ro {
            Ok(_) => {},
            Err(e) => {
                proof {
                    lemma_stepwise_stops(s3, ts.len() as int, step3, e);
                    assert(types_removed(mid2, *schema, ts, Err(e)));
                    assert(directives_then_types(mid1, *schema, ts, ds, Err(e)));
                    assert(core_phases(start, *schema, ts, ds, Err(e)));
                }
                return Err(e);
            },
        }
        j = j + 1;
    }
    proof {
        lemma_stepwise_completes(s3, ts.len() as int, step3);
        assert(types_removed(mid2, *schema, ts, Ok(())));
        assert(directives_then_types(mid1, *schema, ts, ds, Ok(())));
        assert(core_phases(start, *schema, ts, ds, Ok(())));
    }
    Ok(())
}
} // verus!
