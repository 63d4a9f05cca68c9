//! What taking the inaccessible elements out of a schema leaves: none of the types that the
//! schema records as inaccessible.
use crate::core_features::{outcome, stepwise};
use crate::error::FederationError;
use crate::federation_schema::{directive_entry, distinct_names, FederationSchema, LocationView};
use crate::inaccessible_elements::{
    element_step, elements_run, fields_phase, field_step, inaccessible_directive_name,
    inaccessible_order, inaccessible_phases, inaccessible_removal, interface_phases,
    removed_element_at, removed_type_as_step,
};
use crate::position::{grouped, is_referrer, referrer_pred, type_removal, Referrer};
use crate::removal_laws::{
    lemma_chain_kept, lemma_directive_argument_removed_kept, lemma_field_argument_removed_kept,
    lemma_kept_within, lemma_absent_stays, lemma_removed_child_kept, lemma_stepwise_all_ok,
    lemma_type_removal_ok, lemma_within_trans, has_type_like, names_kept,
    names_within, no_type_named,
};
use crate::schema::{ExtendedType, TypeKind};
use vstd::prelude::*;

verus! {

/// The name and kind of the type at a type location; none for other locations.
pub open spec fn located_type(l: LocationView) -> Option<(Seq<char>, TypeKind)> {
    match l {
        LocationView::ObjectType(n) => Some((n, TypeKind::Object)),
        LocationView::InterfaceType(n) => Some((n, TypeKind::Interface)),
        LocationView::UnionType(n) => Some((n, TypeKind::Union)),
        LocationView::EnumType(n) => Some((n, TypeKind::Enum)),
        LocationView::ScalarType(n) => Some((n, TypeKind::Scalar)),
        LocationView::InputObjectType(n) => Some((n, TypeKind::InputObject)),
        _ => None,
    }
}

/// Whether each type location of `ls` has the kind of any type of `ts` that bears its name.
pub open spec fn locations_typed(ts: Seq<ExtendedType>, ls: Seq<LocationView>) -> bool {
    forall|j: int, m: int|
        #![trigger located_type(ls[j]), ts[m]]
        0 <= j < ls.len() && located_type(ls[j]) is Some && 0 <= m < ts.len() && ts[m].spec_name()
            == located_type(ls[j])->Some_0.0 ==> ts[m].spec_kind() == located_type(ls[j])->Some_0.1
}

/// The locations that a schema records as applying the inaccessible directive: none where the
/// directive or its record cannot be found.
pub open spec fn inaccessible_locations(s: FederationSchema) -> Seq<LocationView> {
    match inaccessible_directive_name(s) {
        Err(_) => Seq::empty(),
        Ok(d) => match directive_entry(s.spec_referencers().directives, d) {
            None => Seq::empty(),
            Some(j) => s.spec_referencers().directives[j].1,
        },
    }
}

/// Every location of the groups of `ls` is one of `ls`; every location of `ls` of a kind of
/// `cs` is in the groups.
proof fn lemma_grouped_members(ls: Seq<LocationView>, cs: Seq<Referrer>)
    ensures
        forall|j: int| 0 <= j < grouped(ls, cs).len() ==> ls.contains(#[trigger] grouped(ls, cs)[j]),
        forall|j: int, c: int|
            #![trigger ls[j], cs[c]]
            0 <= j < ls.len() && 0 <= c < cs.len() && is_referrer(ls[j], cs[c]) ==> grouped(ls, cs).contains(ls[j]),
    decreases cs.len(),
{
    if cs.len() > 0 {
        lemma_grouped_members(ls, cs.drop_last());
        let g0 = grouped(ls, cs.drop_last());
        let f = ls.filter(referrer_pred(cs.last()));
        assert(grouped(ls, cs) == g0 + f);
        assert forall|j: int| 0 <= j < grouped(ls, cs).len() implies ls.contains(#[trigger] grouped(ls, cs)[j]) by {
            if j < g0.len() {
                assert(grouped(ls, cs)[j] == g0[j]);
            } else {
                assert(grouped(ls, cs)[j] == f[j - g0.len()]);
                assert(f.contains(f[j - g0.len()]));
                ls.lemma_filter_contains_rev(referrer_pred(cs.last()), f[j - g0.len()]);
            }
        }
        assert forall|j: int, c: int|
            #![trigger ls[j], cs[c]]
            0 <= j < ls.len() && 0 <= c < cs.len() && is_referrer(ls[j], cs[c]) implies grouped(ls, cs).contains(ls[j]) by {
            if c < cs.len() - 1 {
                assert(cs.drop_last()[c] == cs[c]);
                let p = choose|p: int| 0 <= p < g0.len() && g0[p] == ls[j];
                assert(grouped(ls, cs)[p] == ls[j]);
            } else {
                assert(referrer_pred(cs.last())(ls[j]));
                ls.lemma_filter_contains(referrer_pred(cs.last()), j);
                let p = choose|p: int| 0 <= p < f.len() && f[p] == ls[j];
                assert(grouped(ls, cs)[g0.len() + p] == ls[j]);
            }
        }
    }
}

/// Removing the fields of a list of types keeps the names.
proof fn lemma_fields_phase_kept(a: FederationSchema, b: FederationSchema, ts: Seq<Seq<char>>, object: bool, r: Result<(), FederationError>)
    requires
        fields_phase(a, b, ts, object, r),
        r is Ok,
    ensures
        names_kept(a, b),
{
    match crate::inaccessible_elements::fields_of_types(a.spec_schema(), ts, object) {
        Err(_) => {},
        Ok(fs) => {
            let states = choose|states: Seq<FederationSchema>|
                #![trigger stepwise(states, fs.len() as int, field_step(fs, object), r)]
                stepwise(states, fs.len() as int, field_step(fs, object), r) && states[0] == a && states.last() == b;
            lemma_stepwise_all_ok(states, fs.len() as int, field_step(fs, object));
            assert forall|j: int| 0 <= j < states.len() - 1 implies names_kept(#[trigger] states[j], states[j + 1]) by {
                assert(field_step(fs, object)(states[j], states[j + 1], j, Ok(())));
                lemma_removed_child_kept(states[j], states[j + 1], crate::position::type_field(states[j].spec_schema(), fs[j].0, fs[j].1, object), Ok(()));
            }
            lemma_chain_kept(states);
        },
    }
}

/// The invariant of the removal of the inaccessible elements after `j` steps.
pub open spec fn elements_inv(origin: FederationSchema, s: FederationSchema, gl: Seq<LocationView>, j: int) -> bool {
    &&& names_within(origin, s)
    &&& distinct_names(s.spec_schema())
    &&& forall|m: int| 0 <= m < j && located_type(gl[m]) is Some ==> no_type_named(s.spec_schema().types@, (#[trigger] located_type(gl[m]))->Some_0.0)
}

proof fn lemma_elements_phase(
    origin: FederationSchema,
    states: Seq<FederationSchema>,
    ls: Seq<LocationView>,
    gl: Seq<LocationView>,
    j: int,
)
    requires
        stepwise(states, gl.len() as int, element_step(gl), Ok(())),
        distinct_names(origin.spec_schema()),
        locations_typed(origin.spec_schema().types@, ls),
        forall|m: int| 0 <= m < gl.len() ==> ls.contains(#[trigger] gl[m]),
        elements_inv(origin, states[0], gl, 0),
        0 <= j <= gl.len(),
    ensures
        elements_inv(origin, states[j], gl, j),
    decreases j,
{
    lemma_stepwise_all_ok(states, gl.len() as int, element_step(gl));
    if j > 0 {
        lemma_elements_phase(origin, states, ls, gl, j - 1);
        let a = states[j - 1];
        let b = states[j];
        let l = gl[j - 1];
        assert(element_step(gl)(a, b, j - 1, Ok(())));
        assert(removed_element_at(a, b, l, Ok(())));
        let s = a.spec_schema();
        match located_type(l) {
            Some((n, k)) => {
                assert(removed_type_as_step(a, b, n, k, Ok(())));
                let ro = choose|ro: Result<Option<crate::federation_schema::TypeReferencers>, FederationError>|
                    #![trigger type_removal(a, b, n, k, ro)]
                    type_removal(a, b, n, k, ro) && outcome(ro) == Ok::<(), FederationError>(());
                assert(ro is Ok);
                let ta = s.types@;
                let ot = origin.spec_schema().types@;
                assert(ls.contains(l));
                let p = choose|p: int| 0 <= p < ls.len() && ls[p] == l;
                assert forall|m: int| 0 <= m < ta.len() && (#[trigger] ta[m]).spec_name() == n implies ta[m].spec_kind() == k by {
                    assert(has_type_like(ot, ta[m].spec_name(), ta[m].spec_kind()));
                    let q = choose|q: int| 0 <= q < ot.len() && (#[trigger] ot[q]).spec_name() == ta[m].spec_name() && ot[q].spec_kind() == ta[m].spec_kind();
                    assert(located_type(ls[p]) == Some((n, k)));
                    assert(ot[q].spec_kind() == k);
                }
                lemma_type_removal_ok(a, b, n, k, ro);
            },
            None => {
                match l {
                    LocationView::InterfaceFieldArgument(t, f, x) => lemma_field_argument_removed_kept(a, b, crate::position::field_argument(s, t, f, x, false), l, Ok(())),
                    LocationView::ObjectFieldArgument(t, f, x) => lemma_field_argument_removed_kept(a, b, crate::position::field_argument(s, t, f, x, true), l, Ok(())),
                    LocationView::InterfaceField(t, f) => lemma_removed_child_kept(a, b, crate::position::type_field(s, t, f, false), Ok(())),
                    LocationView::ObjectField(t, f) => lemma_removed_child_kept(a, b, crate::position::type_field(s, t, f, true), Ok(())),
                    LocationView::EnumValue(t, v) => lemma_removed_child_kept(a, b, crate::position::enum_value(s, t, v), Ok(())),
                    LocationView::InputObjectField(t, f) => lemma_removed_child_kept(a, b, crate::position::input_object_field(s, t, f), Ok(())),
                    LocationView::DirectiveArgument(d, x) => lemma_directive_argument_removed_kept(a, b, crate::position::directive_argument(s, d, x), l, Ok(())),
                    _ => {
                        assert(b == a);
                    },
                }
                lemma_kept_within(a, b);
            },
        }
        lemma_within_trans(origin, a, b);
        assert forall|m: int| 0 <= m < j && located_type(gl[m]) is Some implies no_type_named(b.spec_schema().types@, (#[trigger] located_type(gl[m]))->Some_0.0) by {
            if m < j - 1 {
                lemma_absent_stays(a, b, located_type(gl[m])->Some_0.0, Seq::empty());
            }
        }
    }
}

/// The phases of the removal of the inaccessible elements at `ls`, where they succeed, leave
/// no type at a type location of `ls`.
proof fn lemma_phases_leave_no_type(old: FederationSchema, new: FederationSchema, ls: Seq<LocationView>)
    requires
        distinct_names(old.spec_schema()),
        locations_typed(old.spec_schema().types@, ls),
        inaccessible_phases(old, new, ls, Ok(())),
    ensures
        forall|m: int|
            0 <= m < ls.len() && located_type(ls[m]) is Some ==> no_type_named(new.spec_schema().types@, (#[trigger] located_type(ls[m]))->Some_0.0),
{
    let ot = crate::inaccessible_elements::type_names_at(ls, Referrer::ObjectType);
    let it = crate::inaccessible_elements::type_names_at(ls, Referrer::InterfaceType);
    assert(exists|m1: FederationSchema, r1: Result<(), FederationError>|
        #![trigger fields_phase(old, m1, ot, true, r1)]
        fields_phase(old, m1, ot, true, r1) && match r1 {
            Err(e) => Ok::<(), FederationError>(()) == Err::<(), FederationError>(e) && new == m1,
            Ok(()) => interface_phases(m1, new, ls, Ok(())),
        });
    let (m1, r1) = choose|m1: FederationSchema, r1: Result<(), FederationError>|
        #![trigger fields_phase(old, m1, ot, true, r1)]
        fields_phase(old, m1, ot, true, r1) && match r1 {
            Err(e) => Ok::<(), FederationError>(()) == Err::<(), FederationError>(e) && new == m1,
            Ok(()) => interface_phases(m1, new, ls, Ok(())),
        };
    assert(r1 is Ok);
    lemma_fields_phase_kept(old, m1, ot, true, r1);
    assert(interface_phases(m1, new, ls, Ok(())));
    let (m2, r2) = choose|m2: FederationSchema, r2: Result<(), FederationError>|
        #![trigger fields_phase(m1, m2, it, false, r2)]
        fields_phase(m1, m2, it, false, r2) && match r2 {
            Err(e) => Ok::<(), FederationError>(()) == Err::<(), FederationError>(e) && new == m2,
            Ok(()) => elements_run(m2, new, grouped(ls, inaccessible_order()), Ok(())),
        };
    assert(r2 is Ok);
    lemma_fields_phase_kept(m1, m2, it, false, r2);
    lemma_kept_within(old, m1);
    lemma_kept_within(m1, m2);
    lemma_within_trans(old, m1, m2);
    let gl = grouped(ls, inaccessible_order());
    let states = choose|states: Seq<FederationSchema>|
        #![trigger stepwise(states, gl.len() as int, element_step(gl), Ok(()))]
        stepwise(states, gl.len() as int, element_step(gl), Ok(())) && states[0] == m2 && states.last() == new;
    lemma_grouped_members(ls, inaccessible_order());
    lemma_stepwise_all_ok(states, gl.len() as int, element_step(gl));
    assert(elements_inv(old, states[0], gl, 0));
    lemma_elements_phase(old, states, ls, gl, gl.len() as int);
    assert(new == states[gl.len() as int]);
    assert forall|m: int|
        0 <= m < ls.len() && located_type(ls[m]) is Some implies no_type_named(new.spec_schema().types@, (#[trigger] located_type(ls[m]))->Some_0.0) by {
        let order = inaccessible_order();
        let c: int = match ls[m] {
            LocationView::UnionType(_) => 7,
            LocationView::ObjectType(_) => 8,
            LocationView::InterfaceType(_) => 9,
            LocationView::EnumType(_) => 10,
            LocationView::ScalarType(_) => 11,
            _ => 12,
        };
        assert(is_referrer(ls[m], order[c]));
        assert(gl.contains(ls[m]));
        let p = choose|p: int| 0 <= p < gl.len() && gl[p] == ls[m];
        assert(located_type(gl[p]) is Some);
    }
}

/// Taking the inaccessible elements out of a schema whose types and directive definitions
/// have distinct names, and whose record of inaccessible type locations agrees with the kinds
/// of its types, leaves, where it succeeds, no type at any location that the schema recorded
/// as inaccessible.
pub proof fn law_inaccessible_removal_leaves_no_inaccessible_type(old: FederationSchema, new: FederationSchema)
    requires
        distinct_names(old.spec_schema()),
        locations_typed(old.spec_schema().types@, inaccessible_locations(old)),
        inaccessible_removal(old, new, Ok(())),
    ensures
        forall|m: int|
            0 <= m < inaccessible_locations(old).len() && located_type(inaccessible_locations(old)[m]) is Some
                ==> no_type_named(new.spec_schema().types@, (#[trigger] located_type(inaccessible_locations(old)[m]))->Some_0.0),
{
    assert(inaccessible_phases(old, new, inaccessible_locations(old), Ok(())));
    lemma_phases_leave_no_type(old, new, inaccessible_locations(old));
}

} // verus!
