//! What taking the elements of core features out of a schema leaves: none of the types and
//! directive definitions that its links bring in.
use crate::core_features::{
    child_step, children_cleared, children_run, clear_step, core_lists, core_phases, core_removal,
    directive_step, directives_then_types, has_children, linked_directives, linked_types, outcome,
    stepwise, type_step, types_removed,
};
use crate::error::FederationError;
use crate::federation_schema::{
    directive_definition_detached, distinct_names, swap_removed, type_detached, FederationSchema,
    LocationView,
};
use crate::inaccessible::directive_index;
use crate::position::{
    detached_then, directive_definition, directive_definition_removal, directive_definition_removed,
    directive_strip_run, lemma_directive_index_first, lemma_type_index_first, reference_run,
    removed_child, removed_directive_at, removed_reference_at, type_detached_then, type_of_kind,
    type_removal, type_removed,
};
use crate::schema::{lemma_type_index, type_index, DirectiveDefinition, ExtendedType, TypeKind};
use vstd::prelude::*;

verus! {

/// Whether `b` has the types and directive definitions of `a`, under the same names (and, for
/// types, of the same kinds), in the same order.
pub open spec fn names_kept(a: FederationSchema, b: FederationSchema) -> bool {
    let ta = a.spec_schema().types@;
    let tb = b.spec_schema().types@;
    let da = a.spec_schema().directive_definitions@;
    let db = b.spec_schema().directive_definitions@;
    &&& tb.len() == ta.len()
    &&& forall|m: int| 0 <= m < ta.len() ==> (#[trigger] tb[m]).spec_name() == ta[m].spec_name() && tb[m].spec_kind() == ta[m].spec_kind()
    &&& db.len() == da.len()
    &&& forall|m: int| 0 <= m < da.len() ==> (#[trigger] db[m]).name@ == da[m].name@
}

proof fn lemma_kept_refl(a: FederationSchema)
    ensures
        names_kept(a, a),
{
}

proof fn lemma_kept_trans(a: FederationSchema, b: FederationSchema, c: FederationSchema)
    requires
        names_kept(a, b),
        names_kept(b, c),
    ensures
        names_kept(a, c),
{
    assert forall|m: int| 0 <= m < a.spec_schema().types@.len() implies (#[trigger] c.spec_schema().types@[m]).spec_name()
        == a.spec_schema().types@[m].spec_name() && c.spec_schema().types@[m].spec_kind() == a.spec_schema().types@[m].spec_kind() by {
        assert(b.spec_schema().types@[m].spec_name() == a.spec_schema().types@[m].spec_name());
    }
    assert forall|m: int| 0 <= m < a.spec_schema().directive_definitions@.len() implies (#[trigger] c.spec_schema().directive_definitions@[m]).name@
        == a.spec_schema().directive_definitions@[m].name@ by {
        assert(b.spec_schema().directive_definitions@[m].name@ == a.spec_schema().directive_definitions@[m].name@);
    }
}

/// Removing a child (a field, an input field or an enum value) keeps the names.
pub(crate) proof fn lemma_removed_child_kept(a: FederationSchema, b: FederationSchema, found: Result<(int, int), Seq<char>>, r: Result<(), FederationError>)
    requires
        removed_child(a, b, found, r),
    ensures
        names_kept(a, b),
{
    match found {
        Err(_) => {},
        Ok((i, j)) => {
            let os = a.spec_schema();
            let ns = b.spec_schema();
            let f = crate::federation_schema::forget(os, a.spec_referencers(), crate::federation_schema::child_checks(os.types@[i], j));
            if f.1 is None {
                assert forall|m: int| 0 <= m < os.types@.len() implies (#[trigger] ns.types@[m]).spec_name() == os.types@[m].spec_name()
                    && ns.types@[m].spec_kind() == os.types@[m].spec_kind() by {
                    if m == i {
                        assert(crate::federation_schema::without_child(os.types@[i], ns.types@[i], j));
                    }
                }
            }
        },
    }
}

/// Removing what references a type at a location keeps the names.
proof fn lemma_removed_reference_kept(a: FederationSchema, b: FederationSchema, l: LocationView, t: Seq<char>, r: Result<(), FederationError>)
    requires
        removed_reference_at(a, b, l, t, r),
    ensures
        names_kept(a, b),
{
    let os = a.spec_schema();
    let ns = b.spec_schema();
    match l {
        LocationView::ObjectType(o) => {
            if let Ok(i) = type_of_kind(os, o, TypeKind::Object) {
                assert forall|m: int| 0 <= m < os.types@.len() implies (#[trigger] ns.types@[m]).spec_name() == os.types@[m].spec_name()
                    && ns.types@[m].spec_kind() == os.types@[m].spec_kind() by {
                    if m == i {
                        assert(crate::federation_schema::with_type_names(os.types@[i], ns.types@[i], crate::federation_schema::names_without(crate::federation_schema::type_names(os.types@[i]), t)));
                    }
                }
            }
        },
        LocationView::InterfaceType(o) => {
            if let Ok(i) = type_of_kind(os, o, TypeKind::Interface) {
                assert forall|m: int| 0 <= m < os.types@.len() implies (#[trigger] ns.types@[m]).spec_name() == os.types@[m].spec_name()
                    && ns.types@[m].spec_kind() == os.types@[m].spec_kind() by {
                    if m == i {
                        assert(crate::federation_schema::with_type_names(os.types@[i], ns.types@[i], crate::federation_schema::names_without(crate::federation_schema::type_names(os.types@[i]), t)));
                    }
                }
            }
        },
        LocationView::UnionType(o) => {
            if let Ok(i) = type_of_kind(os, o, TypeKind::Union) {
                assert forall|m: int| 0 <= m < os.types@.len() implies (#[trigger] ns.types@[m]).spec_name() == os.types@[m].spec_name()
                    && ns.types@[m].spec_kind() == os.types@[m].spec_kind() by {
                    if m == i {
                        assert(crate::federation_schema::with_type_names(os.types@[i], ns.types@[i], crate::federation_schema::names_without(crate::federation_schema::type_names(os.types@[i]), t)));
                    }
                }
            }
        },
        LocationView::ObjectField(o, f) => {
            lemma_removed_child_kept(a, b, crate::position::type_field(os, o, f, true), r);
        },
        LocationView::InterfaceField(o, f) => {
            lemma_removed_child_kept(a, b, crate::position::type_field(os, o, f, false), r);
        },
        LocationView::InputObjectField(o, f) => {
            lemma_removed_child_kept(a, b, crate::position::input_object_field(os, o, f), r);
        },
        LocationView::ObjectFieldArgument(o, f, g) => {
            lemma_field_argument_removed_kept(a, b, crate::position::field_argument(os, o, f, g, true), l, r);
        },
        LocationView::InterfaceFieldArgument(o, f, g) => {
            lemma_field_argument_removed_kept(a, b, crate::position::field_argument(os, o, f, g, false), l, r);
        },
        LocationView::DirectiveArgument(d, g) => {
            match crate::position::directive_argument(os, d, g) {
                Err(_) => {},
                Ok((i, k)) => {
                    assert forall|m: int| 0 <= m < os.directive_definitions@.len() implies (#[trigger] ns.directive_definitions@[m]).name@
                        == os.directive_definitions@[m].name@ by {
                        if m != i {
                        }
                    }
                },
            }
        },
        _ => {},
    }
}

pub(crate) proof fn lemma_field_argument_removed_kept(
    a: FederationSchema,
    b: FederationSchema,
    found: Result<(int, int, int), Seq<char>>,
    l: LocationView,
    r: Result<(), FederationError>,
)
    requires
        crate::position::removed_field_argument(a, b, found, l, r),
    ensures
        names_kept(a, b),
{
    let os = a.spec_schema();
    let ns = b.spec_schema();
    match found {
        Err(_) => {},
        Ok((i, j, k)) => {
            let arg = crate::federation_schema::field_argument_at(os.types@[i], j, k);
            let f = crate::federation_schema::forget(os, a.spec_referencers(), crate::federation_schema::input_value_checks(l, arg));
            if f.1 is None {
                assert forall|m: int| 0 <= m < os.types@.len() implies (#[trigger] ns.types@[m]).spec_name() == os.types@[m].spec_name()
                    && ns.types@[m].spec_kind() == os.types@[m].spec_kind() by {
                    if m == i {
                        assert(crate::federation_schema::without_field_argument(os.types@[i], ns.types@[i], j, arg.name@));
                    }
                }
            }
        },
    }
}

/// Removing an argument of a directive definition keeps the names.
pub(crate) proof fn lemma_directive_argument_removed_kept(
    a: FederationSchema,
    b: FederationSchema,
    found: Result<(int, int), Seq<char>>,
    l: LocationView,
    r: Result<(), FederationError>,
)
    requires
        crate::position::removed_directive_argument(a, b, found, l, r),
    ensures
        names_kept(a, b),
{
    let os = a.spec_schema();
    let ns = b.spec_schema();
    match found {
        Err(_) => {},
        Ok((i, k)) => {
            let arg = os.directive_definitions@[i].arguments@[k];
            let f = crate::federation_schema::forget(os, a.spec_referencers(), crate::federation_schema::input_value_checks(l, arg));
            if f.1 is None {
                assert forall|m: int| 0 <= m < os.directive_definitions@.len() implies (#[trigger] ns.directive_definitions@[m]).name@
                    == os.directive_definitions@[m].name@ by {
                    if m != i {
                        assert(ns.directive_definitions@[m] == os.directive_definitions@[m]);
                    }
                }
            }
        },
    }
}

/// Removing the applications of a directive at a location keeps the names.
proof fn lemma_removed_directive_kept(a: FederationSchema, b: FederationSchema, l: LocationView, d: Seq<char>)
    requires
        removed_directive_at(a, b, l, d),
    ensures
        names_kept(a, b),
{
    let os = a.spec_schema();
    let ns = b.spec_schema();
    match l {
        LocationView::ScalarType(n) => lemma_type_directives_kept(a, b, n, TypeKind::Scalar, d),
        LocationView::ObjectType(n) => lemma_type_directives_kept(a, b, n, TypeKind::Object, d),
        LocationView::InterfaceType(n) => lemma_type_directives_kept(a, b, n, TypeKind::Interface, d),
        LocationView::UnionType(n) => lemma_type_directives_kept(a, b, n, TypeKind::Union, d),
        LocationView::EnumType(n) => lemma_type_directives_kept(a, b, n, TypeKind::Enum, d),
        LocationView::InputObjectType(n) => lemma_type_directives_kept(a, b, n, TypeKind::InputObject, d),
        LocationView::ObjectField(t, f) => lemma_child_directives_kept(a, b, crate::position::type_field(os, t, f, true), l, d),
        LocationView::InterfaceField(t, f) => lemma_child_directives_kept(a, b, crate::position::type_field(os, t, f, false), l, d),
        LocationView::EnumValue(t, v) => lemma_child_directives_kept(a, b, crate::position::enum_value(os, t, v), l, d),
        LocationView::InputObjectField(t, f) => lemma_child_directives_kept(a, b, crate::position::input_object_field(os, t, f), l, d),
        LocationView::ObjectFieldArgument(t, f, g) => lemma_argument_directives_kept(a, b, crate::position::field_argument(os, t, f, g, true), l, d),
        LocationView::InterfaceFieldArgument(t, f, g) => lemma_argument_directives_kept(a, b, crate::position::field_argument(os, t, f, g, false), l, d),
        LocationView::DirectiveArgument(n, g) => {
            match crate::position::directive_argument(os, n, g) {
                Err(_) => {},
                Ok((i, k)) => {
                    assert forall|m: int| 0 <= m < os.directive_definitions@.len() implies (#[trigger] ns.directive_definitions@[m]).name@
                        == os.directive_definitions@[m].name@ by {
                        if m == i {
                            assert(crate::federation_schema::with_directive_argument_directives(
                                os.directive_definitions@[i],
                                ns.directive_definitions@[i],
                                k,
                                crate::federation_schema::other_applications(os.directive_definitions@[i].arguments@[k].directives@, d),
                            ));
                        }
                    }
                },
            }
        },
        _ => {},
    }
}

proof fn lemma_type_directives_kept(a: FederationSchema, b: FederationSchema, n: Seq<char>, k: TypeKind, d: Seq<char>)
    requires
        crate::position::removed_type_directive_name(a, b, n, k, d),
    ensures
        names_kept(a, b),
{
    let os = a.spec_schema();
    let ns = b.spec_schema();
    if let Ok(i) = type_of_kind(os, n, k) {
        assert forall|m: int| 0 <= m < os.types@.len() implies (#[trigger] ns.types@[m]).spec_name() == os.types@[m].spec_name()
            && ns.types@[m].spec_kind() == os.types@[m].spec_kind() by {
            if m == i {
                assert(crate::federation_schema::with_type_directives(
                    os.types@[i],
                    ns.types@[i],
                    crate::federation_schema::other_applications(os.types@[i].spec_directives(), d),
                ));
            }
        }
    }
}

proof fn lemma_child_directives_kept(a: FederationSchema, b: FederationSchema, found: Result<(int, int), Seq<char>>, l: LocationView, d: Seq<char>)
    requires
        crate::position::removed_child_directive_name(a, b, found, l, d),
    ensures
        names_kept(a, b),
{
    let os = a.spec_schema();
    let ns = b.spec_schema();
    if let Ok((i, j)) = found {
        assert forall|m: int| 0 <= m < os.types@.len() implies (#[trigger] ns.types@[m]).spec_name() == os.types@[m].spec_name()
            && ns.types@[m].spec_kind() == os.types@[m].spec_kind() by {
            if m == i {
                assert(crate::federation_schema::with_child_directives(
                    os.types@[i],
                    ns.types@[i],
                    j,
                    crate::federation_schema::other_applications(crate::federation_schema::child_directives(os.types@[i], j), d),
                ));
            }
        }
    }
}

proof fn lemma_argument_directives_kept(a: FederationSchema, b: FederationSchema, found: Result<(int, int, int), Seq<char>>, l: LocationView, d: Seq<char>)
    requires
        crate::position::removed_argument_directive_name(a, b, found, l, d),
    ensures
        names_kept(a, b),
{
    let os = a.spec_schema();
    let ns = b.spec_schema();
    if let Ok((i, j, k)) = found {
        assert forall|m: int| 0 <= m < os.types@.len() implies (#[trigger] ns.types@[m]).spec_name() == os.types@[m].spec_name()
            && ns.types@[m].spec_kind() == os.types@[m].spec_kind() by {
            if m == i {
                assert(crate::federation_schema::with_field_argument_directives(
                    os.types@[i],
                    ns.types@[i],
                    j,
                    k,
                    crate::federation_schema::other_applications(crate::schema::declared_fields(os.types@[i])[j].arguments@[k].directives@, d),
                ));
            }
        }
    }
}

/// Whether each schema of `states` keeps the names of the one before.
pub open spec fn chain_kept(states: Seq<FederationSchema>) -> bool {
    forall|k: int| 0 <= k < states.len() - 1 ==> names_kept(#[trigger] states[k], states[k + 1])
}

pub(crate) proof fn lemma_chain_kept(states: Seq<FederationSchema>)
    requires
        states.len() >= 1,
        chain_kept(states),
    ensures
        names_kept(states[0], states.last()),
    decreases states.len(),
{
    if states.len() == 1 {
        lemma_kept_refl(states[0]);
    } else {
        let p = states.drop_last();
        assert forall|k: int| 0 <= k < p.len() - 1 implies names_kept(#[trigger] p[k], p[k + 1]) by {
            assert(p[k] == states[k] && p[k + 1] == states[k + 1]);
        }
        lemma_chain_kept(p);
        assert(names_kept(states[states.len() - 2], states[states.len() - 1]));
        lemma_kept_trans(states[0], p.last(), states.last());
    }
}

/// Removing the children of a type in turn keeps the names.
proof fn lemma_children_run_kept(a: FederationSchema, b: FederationSchema, n: Seq<char>, k: TypeKind, cs: Seq<Seq<char>>, r: Result<(), FederationError>)
    requires
        children_run(a, b, n, k, cs, r),
    ensures
        names_kept(a, b),
{
    let states = choose|states: Seq<FederationSchema>|
        #![trigger stepwise(states, cs.len() as int, child_step(n, k, cs), r)]
        stepwise(states, cs.len() as int, child_step(n, k, cs), r) && states[0] == a && states.last() == b;
    let m = states.len() - 1;
    assert forall|j: int| 0 <= j < states.len() - 1 implies names_kept(#[trigger] states[j], states[j + 1]) by {
        let st = child_step(n, k, cs);
        if j < m - 1 {
            assert(st(states[j], states[j + 1], j, Ok(())));
            lemma_removed_child_kept(states[j], states[j + 1], crate::core_features::child_lookup(states[j].spec_schema(), n, k, cs[j]), Ok(()));
        } else {
            assert(st(states[j], states[j + 1], j, r));
            lemma_removed_child_kept(states[j], states[j + 1], crate::core_features::child_lookup(states[j].spec_schema(), n, k, cs[j]), r);
        }
    }
    lemma_chain_kept(states);
}

/// Clearing the children of a type keeps the names.
proof fn lemma_children_cleared_kept(a: FederationSchema, b: FederationSchema, n: Seq<char>, k: TypeKind, r: Result<(), FederationError>)
    requires
        children_cleared(a, b, n, k, r),
    ensures
        names_kept(a, b),
{
    if has_children(k) {
        match type_of_kind(a.spec_schema(), n, k) {
            Err(_) => {},
            Ok(i) => lemma_children_run_kept(a, b, n, k, crate::core_features::child_names(a.spec_schema().types@[i]), r),
        }
    }
}

proof fn lemma_reference_run_kept(states: Seq<FederationSchema>, ls: Seq<LocationView>, t: Seq<char>, r: Result<(), FederationError>)
    requires
        reference_run(states, ls, t, r),
    ensures
        names_kept(states[0], states.last()),
{
    let m = states.len() - 1;
    assert forall|j: int| 0 <= j < states.len() - 1 implies names_kept(#[trigger] states[j], states[j + 1]) by {
        if j < m - 1 {
            lemma_removed_reference_kept(states[j], states[j + 1], ls[j], t, Ok(()));
        } else {
            lemma_removed_reference_kept(states[j], states[j + 1], ls[j], t, r);
        }
    }
    lemma_chain_kept(states);
}

proof fn lemma_strip_run_kept(states: Seq<FederationSchema>, ls: Seq<LocationView>, d: Seq<char>)
    requires
        directive_strip_run(states, ls, d),
    ensures
        names_kept(states[0], states.last()),
{
    assert forall|j: int| 0 <= j < states.len() - 1 implies names_kept(#[trigger] states[j], states[j + 1]) by {
        lemma_removed_directive_kept(states[j], states[j + 1], ls[j], d);
    }
    lemma_chain_kept(states);
}

/// Whether no type of `ts` is named `n`.
pub open spec fn no_type_named(ts: Seq<ExtendedType>, n: Seq<char>) -> bool {
    forall|m: int| 0 <= m < ts.len() ==> (#[trigger] ts[m]).spec_name() != n
}

/// Whether no directive definition of `ds` is named `n`.
pub open spec fn no_definition_named(ds: Seq<DirectiveDefinition>, n: Seq<char>) -> bool {
    forall|m: int| 0 <= m < ds.len() ==> (#[trigger] ds[m]).name@ != n
}

/// Whether a type of `ts` is named `n` and of kind `k`.
pub open spec fn has_type_like(ts: Seq<ExtendedType>, n: Seq<char>, k: TypeKind) -> bool {
    exists|m: int| 0 <= m < ts.len() && (#[trigger] ts[m]).spec_name() == n && ts[m].spec_kind() == k
}

/// Whether a directive definition of `ds` is named `n`.
pub open spec fn has_definition_named(ds: Seq<DirectiveDefinition>, n: Seq<char>) -> bool {
    exists|m: int| 0 <= m < ds.len() && (#[trigger] ds[m]).name@ == n
}

/// Whether each type of `b` has the name and kind of a type of `a`, and each directive
/// definition of `b` the name of one of `a`.
pub open spec fn names_within(a: FederationSchema, b: FederationSchema) -> bool {
    &&& forall|k: int| 0 <= k < b.spec_schema().types@.len() ==> has_type_like(
        a.spec_schema().types@,
        (#[trigger] b.spec_schema().types@[k]).spec_name(),
        b.spec_schema().types@[k].spec_kind(),
    )
    &&& forall|k: int| 0 <= k < b.spec_schema().directive_definitions@.len() ==> has_definition_named(
        a.spec_schema().directive_definitions@,
        (#[trigger] b.spec_schema().directive_definitions@[k]).name@,
    )
}

pub(crate) proof fn lemma_kept_within(a: FederationSchema, b: FederationSchema)
    requires
        names_kept(a, b),
    ensures
        names_within(a, b),
        distinct_names(a.spec_schema()) ==> distinct_names(b.spec_schema()),
{
    let ta = a.spec_schema().types@;
    let da = a.spec_schema().directive_definitions@;
    let tb = b.spec_schema().types@;
    let db = b.spec_schema().directive_definitions@;
    assert forall|k: int| 0 <= k < tb.len() implies has_type_like(ta, (#[trigger] tb[k]).spec_name(), tb[k].spec_kind()) by {
        assert(ta[k].spec_name() == tb[k].spec_name());
    }
    assert forall|k: int| 0 <= k < db.len() implies has_definition_named(da, (#[trigger] db[k]).name@) by {
        assert(da[k].name@ == db[k].name@);
    }
    if distinct_names(a.spec_schema()) {
        assert forall|i: int, j: int| 0 <= i < tb.len() && 0 <= j < tb.len() && i != j implies (#[trigger] tb[i]).spec_name()
            != (#[trigger] tb[j]).spec_name() by {
            assert(ta[i].spec_name() != ta[j].spec_name());
        }
        assert forall|i: int, j: int| 0 <= i < db.len() && 0 <= j < db.len() && i != j implies (#[trigger] db[i]).name@
            != (#[trigger] db[j]).name@ by {
            assert(da[i].name@ != da[j].name@);
        }
    }
}

pub(crate) proof fn lemma_within_trans(a: FederationSchema, b: FederationSchema, c: FederationSchema)
    requires
        names_within(a, b),
        names_within(b, c),
    ensures
        names_within(a, c),
{
    let ta = a.spec_schema().types@;
    let da = a.spec_schema().directive_definitions@;
    let tb = b.spec_schema().types@;
    let db = b.spec_schema().directive_definitions@;
    let tc = c.spec_schema().types@;
    let dc = c.spec_schema().directive_definitions@;
    assert forall|k: int| 0 <= k < tc.len() implies has_type_like(ta, (#[trigger] tc[k]).spec_name(), tc[k].spec_kind()) by {
        assert(has_type_like(tb, tc[k].spec_name(), tc[k].spec_kind()));
        let m1 = choose|m: int| 0 <= m < tb.len() && (#[trigger] tb[m]).spec_name() == tc[k].spec_name() && tb[m].spec_kind() == tc[k].spec_kind();
        assert(has_type_like(ta, tb[m1].spec_name(), tb[m1].spec_kind()));
    }
    assert forall|k: int| 0 <= k < dc.len() implies has_definition_named(da, (#[trigger] dc[k]).name@) by {
        assert(has_definition_named(db, dc[k].name@));
        let m1 = choose|m: int| 0 <= m < db.len() && (#[trigger] db[m]).name@ == dc[k].name@;
        assert(has_definition_named(da, db[m1].name@));
    }
}

proof fn lemma_directive_index(ds: Seq<DirectiveDefinition>, name: Seq<char>)
    ensures
        match directive_index(ds, name) {
            Some(i) => 0 <= i < ds.len() && ds[i].name@ == name,
            None => no_definition_named(ds, name),
        },
    decreases ds.len(),
{
    if ds.len() > 0 {
        lemma_directive_index(ds.drop_first(), name);
        assert forall|j: int| 0 < j < ds.len() implies ds[j] == ds.drop_first()[j - 1] by {}
    }
}

/// Taking out the type `i` of a schema whose names are distinct leaves no type of its name.
proof fn lemma_type_swap_removed(a: FederationSchema, mid: FederationSchema, i: int)
    requires
        distinct_names(a.spec_schema()),
        0 <= i < a.spec_schema().types@.len(),
        mid.spec_schema().types@ == swap_removed(a.spec_schema().types@, i),
        mid.spec_schema().directive_definitions == a.spec_schema().directive_definitions,
    ensures
        distinct_names(mid.spec_schema()),
        names_within(a, mid),
        no_type_named(mid.spec_schema().types@, a.spec_schema().types@[i].spec_name()),
{
    let ta = a.spec_schema().types@;
    let tm = mid.spec_schema().types@;
    let last = ta.len() - 1;
    assert(tm.len() == last);
    assert forall|k: int| 0 <= k < tm.len() implies (#[trigger] tm[k]) == if k == i { ta[last] } else { ta[k] } by {}
    assert forall|k: int| 0 <= k < tm.len() implies has_type_like(ta, (#[trigger] tm[k]).spec_name(), tm[k].spec_kind()) by {
        if k == i {
            assert(ta[last] == tm[k]);
        } else {
            assert(ta[k] == tm[k]);
        }
    }
    let da = a.spec_schema().directive_definitions@;
    assert forall|k: int| 0 <= k < da.len() implies has_definition_named(da, (#[trigger] da[k]).name@) by {}
    assert forall|x: int, y: int| 0 <= x < tm.len() && 0 <= y < tm.len() && x != y implies (#[trigger] tm[x]).spec_name()
        != (#[trigger] tm[y]).spec_name() by {
        let px = if x == i { last } else { x };
        let py = if y == i { last } else { y };
        assert(tm[x] == ta[px] && tm[y] == ta[py]);
        assert(px != py);
    }
    assert forall|k: int| 0 <= k < tm.len() implies (#[trigger] tm[k]).spec_name() != ta[i].spec_name() by {
        let pk = if k == i { last } else { k };
        assert(tm[k] == ta[pk]);
        assert(pk != i);
    }
}

/// Taking out the directive definition `i` of a schema whose names are distinct leaves no
/// definition of its name.
proof fn lemma_definition_swap_removed(a: FederationSchema, mid: FederationSchema, i: int)
    requires
        distinct_names(a.spec_schema()),
        0 <= i < a.spec_schema().directive_definitions@.len(),
        mid.spec_schema().directive_definitions@ == swap_removed(a.spec_schema().directive_definitions@, i),
        mid.spec_schema().types == a.spec_schema().types,
    ensures
        distinct_names(mid.spec_schema()),
        names_within(a, mid),
        no_definition_named(mid.spec_schema().directive_definitions@, a.spec_schema().directive_definitions@[i].name@),
{
    let da = a.spec_schema().directive_definitions@;
    let dm = mid.spec_schema().directive_definitions@;
    let last = da.len() - 1;
    assert(dm.len() == last);
    assert forall|k: int| 0 <= k < dm.len() implies (#[trigger] dm[k]) == if k == i { da[last] } else { da[k] } by {}
    assert forall|k: int| 0 <= k < dm.len() implies has_definition_named(da, (#[trigger] dm[k]).name@) by {
        if k == i {
            assert(da[last] == dm[k]);
        } else {
            assert(da[k] == dm[k]);
        }
    }
    let ta = a.spec_schema().types@;
    assert forall|k: int| 0 <= k < ta.len() implies has_type_like(ta, (#[trigger] ta[k]).spec_name(), ta[k].spec_kind()) by {}
    assert forall|x: int, y: int| 0 <= x < dm.len() && 0 <= y < dm.len() && x != y implies (#[trigger] dm[x]).name@
        != (#[trigger] dm[y]).name@ by {
        let px = if x == i { last } else { x };
        let py = if y == i { last } else { y };
        assert(dm[x] == da[px] && dm[y] == da[py]);
    }
    assert forall|k: int| 0 <= k < dm.len() implies (#[trigger] dm[k]).name@ != da[i].name@ by {
        let pk = if k == i { last } else { k };
        assert(dm[k] == da[pk]);
    }
}

/// A name that no type of `a` has, no type of `b` has where `b`'s names are within `a`'s.
pub(crate) proof fn lemma_absent_stays(a: FederationSchema, b: FederationSchema, n: Seq<char>, d: Seq<char>)
    requires
        names_within(a, b),
    ensures
        no_type_named(a.spec_schema().types@, n) ==> no_type_named(b.spec_schema().types@, n),
        no_definition_named(a.spec_schema().directive_definitions@, d) ==> no_definition_named(b.spec_schema().directive_definitions@, d),
{
    let ta = a.spec_schema().types@;
    let tb = b.spec_schema().types@;
    let da = a.spec_schema().directive_definitions@;
    let db = b.spec_schema().directive_definitions@;
    if no_type_named(ta, n) {
        assert forall|k: int| 0 <= k < tb.len() implies (#[trigger] tb[k]).spec_name() != n by {
            assert(has_type_like(ta, tb[k].spec_name(), tb[k].spec_kind()));
        }
    }
    if no_definition_named(da, d) {
        assert forall|k: int| 0 <= k < db.len() implies (#[trigger] db[k]).name@ != d by {
            assert(has_definition_named(da, db[k].name@));
        }
    }
}

/// Removing the directive definition `name` (successfully) leaves none of that name, the
/// names of the rest within those before.
proof fn lemma_directive_removal_ok(a: FederationSchema, b: FederationSchema, name: Seq<char>, ro: Result<Option<crate::federation_schema::DirectiveReferencers>, FederationError>)
    requires
        directive_definition_removal(a, b, name, ro),
        ro is Ok,
        distinct_names(a.spec_schema()),
    ensures
        names_within(a, b),
        distinct_names(b.spec_schema()),
        no_definition_named(b.spec_schema().directive_definitions@, name),
{
    let da = a.spec_schema().directive_definitions@;
    lemma_directive_index(da, name);
    match directive_definition(a.spec_schema(), name) {
        Err(_) => {
            lemma_kept_refl(a);
            lemma_kept_within(a, a);
        },
        Ok(i) => {
            let (mid, detached) = choose|mid: FederationSchema, detached: Result<crate::federation_schema::DirectiveReferencers, FederationError>|
                #![trigger directive_definition_detached(a, mid, i, detached)]
                directive_definition_detached(a, mid, i, detached) && detached_then(mid, b, detached, name, ro);
            match detached {
                Err(_) => {},
                Ok(dr) => {
                    lemma_definition_swap_removed(a, mid, i);
                    let states = choose|states: Seq<FederationSchema>|
                        #![trigger directive_strip_run(states, crate::federation_schema::locations_view(dr.referencers@), name)]
                        directive_strip_run(states, crate::federation_schema::locations_view(dr.referencers@), name) && states[0] == mid
                            && states.last() == b;
                    lemma_strip_run_kept(states, crate::federation_schema::locations_view(dr.referencers@), name);
                    lemma_kept_within(mid, b);
                    lemma_within_trans(a, mid, b);
                    lemma_absent_stays(mid, b, Seq::empty(), name);
                },
            }
        },
    }
}

/// Removing the type `n` of kind `k` (successfully), where any type of that name has that
/// kind, leaves no type of that name, the names of the rest within those before.
pub(crate) proof fn lemma_type_removal_ok(a: FederationSchema, b: FederationSchema, n: Seq<char>, k: TypeKind, ro: Result<Option<crate::federation_schema::TypeReferencers>, FederationError>)
    requires
        type_removal(a, b, n, k, ro),
        ro is Ok,
        distinct_names(a.spec_schema()),
        forall|m: int| 0 <= m < a.spec_schema().types@.len() && (#[trigger] a.spec_schema().types@[m]).spec_name() == n
            ==> a.spec_schema().types@[m].spec_kind() == k,
    ensures
        names_within(a, b),
        distinct_names(b.spec_schema()),
        no_type_named(b.spec_schema().types@, n),
{
    let ta = a.spec_schema().types@;
    lemma_type_index(ta, n);
    match type_of_kind(a.spec_schema(), n, k) {
        Err(_) => {
            lemma_kept_refl(a);
            lemma_kept_within(a, a);
        },
        Ok(i) => {
            let (mid, detached) = choose|mid: FederationSchema, detached: Result<crate::federation_schema::TypeReferencers, FederationError>|
                #![trigger type_detached(a, mid, i, detached)]
                type_detached(a, mid, i, detached) && type_detached_then(mid, b, detached, n, k, ro);
            match detached {
                Err(_) => {},
                Ok(tr) => {
                    lemma_type_swap_removed(a, mid, i);
                    let ls = crate::position::grouped(crate::federation_schema::locations_view(tr.referencers@), crate::position::cascade_order(k));
                    let (states, r) = choose|states: Seq<FederationSchema>, r: Result<(), FederationError>|
                        #![trigger reference_run(states, ls, n, r)]
                        reference_run(states, ls, n, r) && states[0] == mid && states.last() == b && match r {
                            Ok(()) => ro matches Ok(o) && o == Some(tr),
                            Err(e) => ro == Err::<Option<crate::federation_schema::TypeReferencers>, FederationError>(e),
                        };
                    lemma_reference_run_kept(states, ls, n, r);
                    lemma_kept_within(mid, b);
                    lemma_within_trans(a, mid, b);
                    lemma_absent_stays(mid, b, n, Seq::empty());
                },
            }
        },
    }
}

pub(crate) proof fn lemma_stepwise_all_ok(
    states: Seq<FederationSchema>,
    n: int,
    step: spec_fn(FederationSchema, FederationSchema, int, Result<(), FederationError>) -> bool,
)
    requires
        stepwise(states, n, step, Ok(())),
    ensures
        states.len() == n + 1,
        forall|j: int| #![trigger states[j]] 0 <= j < n ==> step(states[j], states[j + 1], j, Ok(())),
{
}

/// Each pair of a list of linked types is the name and kind of a type of `ts`.
proof fn lemma_linked_types_are_types(ts: Seq<ExtendedType>, links: Seq<crate::link::Link>)
    ensures
        forall|j: int| 0 <= j < linked_types(ts, links).len() ==> has_type_like(
            ts,
            (#[trigger] linked_types(ts, links)[j]).0,
            linked_types(ts, links)[j].1,
        ),
    decreases ts.len(),
{
    if ts.len() > 0 {
        let p = ts.drop_last();
        lemma_linked_types_are_types(p, links);
        let lt = linked_types(ts, links);
        let lp = linked_types(p, links);
        assert forall|j: int| 0 <= j < lt.len() implies has_type_like(ts, (#[trigger] lt[j]).0, lt[j].1) by {
            if j < lp.len() {
                assert(lt[j] == lp[j]);
                assert(has_type_like(p, lp[j].0, lp[j].1));
                let m = choose|m: int| 0 <= m < p.len() && (#[trigger] p[m]).spec_name() == lp[j].0 && p[m].spec_kind() == lp[j].1;
                assert(ts[m] == p[m]);
            } else {
                assert(ts[ts.len() - 1] == ts.last());
            }
        }
    }
}

/// The invariant of the directive phase after `j` steps.
pub open spec fn directive_phase_inv(start: FederationSchema, s: FederationSchema, ds: Seq<Seq<char>>, j: int) -> bool {
    &&& names_within(start, s)
    &&& distinct_names(s.spec_schema())
    &&& forall|m: int| 0 <= m < j ==> no_definition_named(s.spec_schema().directive_definitions@, #[trigger] ds[m])
}

proof fn lemma_directive_phase(states: Seq<FederationSchema>, ds: Seq<Seq<char>>, j: int)
    requires
        stepwise(states, ds.len() as int, directive_step(ds), Ok(())),
        distinct_names(states[0].spec_schema()),
        0 <= j <= ds.len(),
    ensures
        directive_phase_inv(states[0], states[j], ds, j),
    decreases j,
{
    lemma_stepwise_all_ok(states, ds.len() as int, directive_step(ds));
    if j == 0 {
        lemma_kept_refl(states[0]);
        lemma_kept_within(states[0], states[0]);
    } else {
        lemma_directive_phase(states, ds, j - 1);
        let a = states[j - 1];
        let b = states[j];
        assert(directive_step(ds)(a, b, j - 1, Ok(())));
        let ro = choose|ro: Result<Option<crate::federation_schema::DirectiveReferencers>, FederationError>|
            #![trigger directive_definition_removal(a, b, ds[j - 1], ro)]
            directive_definition_removal(a, b, ds[j - 1], ro) && outcome(ro) == Ok::<(), FederationError>(());
        lemma_directive_removal_ok(a, b, ds[j - 1], ro);
        lemma_within_trans(states[0], a, b);
        assert forall|m: int| 0 <= m < j implies no_definition_named(b.spec_schema().directive_definitions@, #[trigger] ds[m]) by {
            if m < j - 1 {
                lemma_absent_stays(a, b, Seq::empty(), ds[m]);
            }
        }
    }
}

/// The invariant of the type phase after `j` steps.
pub open spec fn type_phase_inv(
    origin: FederationSchema,
    s: FederationSchema,
    ts: Seq<(Seq<char>, TypeKind)>,
    ds: Seq<Seq<char>>,
    j: int,
) -> bool {
    &&& names_within(origin, s)
    &&& distinct_names(s.spec_schema())
    &&& forall|m: int| 0 <= m < j ==> no_type_named(s.spec_schema().types@, (#[trigger] ts[m]).0)
    &&& forall|m: int| 0 <= m < ds.len() ==> no_definition_named(s.spec_schema().directive_definitions@, #[trigger] ds[m])
}

proof fn lemma_type_phase(
    origin: FederationSchema,
    states: Seq<FederationSchema>,
    ts: Seq<(Seq<char>, TypeKind)>,
    ds: Seq<Seq<char>>,
    j: int,
)
    requires
        stepwise(states, ts.len() as int, type_step(ts), Ok(())),
        distinct_names(origin.spec_schema()),
        forall|m: int| 0 <= m < ts.len() ==> has_type_like(origin.spec_schema().types@, (#[trigger] ts[m]).0, ts[m].1),
        type_phase_inv(origin, states[0], ts, ds, 0),
        0 <= j <= ts.len(),
    ensures
        type_phase_inv(origin, states[j], ts, ds, j),
    decreases j,
{
    lemma_stepwise_all_ok(states, ts.len() as int, type_step(ts));
    if j > 0 {
        lemma_type_phase(origin, states, ts, ds, j - 1);
        let a = states[j - 1];
        let b = states[j];
        let n = ts[j - 1].0;
        let k = ts[j - 1].1;
        assert(type_step(ts)(a, b, j - 1, Ok(())));
        let ro = choose|ro: Result<Option<crate::federation_schema::TypeReferencers>, FederationError>|
            #![trigger type_removal(a, b, ts[j - 1].0, ts[j - 1].1, ro)]
            type_removal(a, b, ts[j - 1].0, ts[j - 1].1, ro) && outcome(ro) == Ok::<(), FederationError>(());
        let ot = origin.spec_schema().types@;
        let ta = a.spec_schema().types@;
        assert(has_type_like(ot, ts[j - 1].0, ts[j - 1].1));
        let p = choose|p: int| 0 <= p < ot.len() && (#[trigger] ot[p]).spec_name() == n && ot[p].spec_kind() == k;
        assert forall|m: int| 0 <= m < ta.len() && (#[trigger] ta[m]).spec_name() == n implies ta[m].spec_kind() == k by {
            assert(has_type_like(ot, ta[m].spec_name(), ta[m].spec_kind()));
            let q = choose|q: int| 0 <= q < ot.len() && (#[trigger] ot[q]).spec_name() == ta[m].spec_name() && ot[q].spec_kind() == ta[m].spec_kind();
            if q != p {
                assert(ot[q].spec_name() != ot[p].spec_name());
            }
        }
        lemma_type_removal_ok(a, b, n, k, ro);
        lemma_within_trans(origin, a, b);
        assert forall|m: int| 0 <= m < j implies no_type_named(b.spec_schema().types@, (#[trigger] ts[m]).0) by {
            if m < j - 1 {
                lemma_absent_stays(a, b, ts[m].0, Seq::empty());
            }
        }
        assert forall|m: int| 0 <= m < ds.len() implies no_definition_named(b.spec_schema().directive_definitions@, #[trigger] ds[m]) by {
            lemma_absent_stays(a, b, Seq::empty(), ds[m]);
        }
    }
}

/// Taking the elements of core features out of a schema whose types and directive
/// definitions have distinct names leaves, where it succeeds, no type and no directive
/// definition that the schema's links bring in.
pub proof fn law_core_removal_leaves_no_linked_element(old: FederationSchema, new: FederationSchema)
    requires
        distinct_names(old.spec_schema()),
        core_removal(old, new, Ok(())),
    ensures
        old.spec_metadata() matches Some(md) ==> {
            &&& forall|j: int| 0 <= j < linked_types(old.spec_schema().types@, md.links@).len() ==> no_type_named(
                new.spec_schema().types@,
                (#[trigger] linked_types(old.spec_schema().types@, md.links@)[j]).0,
            )
            &&& forall|j: int| 0 <= j < linked_directives(old.spec_schema().directive_definitions@, md.links@).len() ==> no_definition_named(
                new.spec_schema().directive_definitions@,
                #[trigger] linked_directives(old.spec_schema().directive_definitions@, md.links@)[j],
            )
        },
{
    if let Some(md) = old.spec_metadata() {
        let ts = linked_types(old.spec_schema().types@, md.links@);
        let ds = linked_directives(old.spec_schema().directive_definitions@, md.links@);
        assert(core_phases(old, new, ts, ds, Ok(())));
        // The children of the linked types go first: the names stay.
        let (s1, r1) = choose|s1: Seq<FederationSchema>, r1: Result<(), FederationError>|
            #![trigger stepwise(s1, ts.len() as int, clear_step(ts), r1)]
            stepwise(s1, ts.len() as int, clear_step(ts), r1) && s1[0] == old && match r1 {
                Err(e) => Ok::<(), FederationError>(()) == Err::<(), FederationError>(e) && new == s1.last(),
                Ok(()) => directives_then_types(s1.last(), new, ts, ds, Ok(())),
            };
        assert(r1 is Ok);
        lemma_stepwise_all_ok(s1, ts.len() as int, clear_step(ts));
        assert forall|j: int| 0 <= j < s1.len() - 1 implies names_kept(#[trigger] s1[j], s1[j + 1]) by {
            assert(clear_step(ts)(s1[j], s1[j + 1], j, Ok(())));
            lemma_children_cleared_kept(s1[j], s1[j + 1], ts[j].0, ts[j].1, Ok(()));
        }
        lemma_chain_kept(s1);
        let mid1 = s1.last();
        lemma_kept_within(old, mid1);
        // Then the linked directive definitions.
        let (s2, r2) = choose|s2: Seq<FederationSchema>, r2: Result<(), FederationError>|
            #![trigger stepwise(s2, ds.len() as int, directive_step(ds), r2)]
            stepwise(s2, ds.len() as int, directive_step(ds), r2) && s2[0] == mid1 && match r2 {
                Err(e) => Ok::<(), FederationError>(()) == Err::<(), FederationError>(e) && new == s2.last(),
                Ok(()) => types_removed(s2.last(), new, ts, Ok(())),
            };
        assert(r2 is Ok);
        lemma_stepwise_all_ok(s2, ds.len() as int, directive_step(ds));
        lemma_directive_phase(s2, ds, ds.len() as int);
        let mid2 = s2.last();
        assert(mid2 == s2[ds.len() as int]);
        lemma_within_trans(old, mid1, mid2);
        // Then the linked types.
        let s3 = choose|s3: Seq<FederationSchema>|
            #![trigger stepwise(s3, ts.len() as int, type_step(ts), Ok(()))]
            stepwise(s3, ts.len() as int, type_step(ts), Ok(())) && s3[0] == mid2 && s3.last() == new;
        lemma_linked_types_are_types(old.spec_schema().types@, md.links@);
        lemma_stepwise_all_ok(s3, ts.len() as int, type_step(ts));
        assert(type_phase_inv(old, s3[0], ts, ds, 0));
        lemma_type_phase(old, s3, ts, ds, ts.len() as int);
        assert(new == s3[ts.len() as int]);
    }
}

} // verus!
