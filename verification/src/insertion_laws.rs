//! What inserting an element and then removing it gives back: the schema, and the record of
//! what references each type and directive.
use crate::ast::Directive;
use crate::error::FederationError;
use crate::federation_schema::{
    directive_definitions_checks, distinct_names, fields_checks, input_fields_checks,
    law_referencers_are_the_references, references_directive, references_type, root_checks,
    schema_checks, schema_definition_checks, schema_referencers, type_checks, type_name_checks,
    types_checks, values_checks, TypeUse, arguments_checks, child_checks, directive_checks, field_checks, input_value_checks,
    ArgumentOwner, FederationSchema, directive_entry, forget, forget_step, forgets_quietly, kind_of_type, lemma_directive_entry,
    lemma_directive_entry_same_names, lemma_type_entry, lemma_type_entry_names, record, record_step,
    type_entry, use_allows, with_location, without_application, without_location,
    without_type_reference, CheckView, LocationView, ReferencersView, TargetView,
};
use crate::insertion::field_insertion;
use crate::position::{
    lemma_field_index_first, lemma_type_index_first, lemma_without_location_absent, removed_child,
    type_field, type_of_kind,
};
use crate::schema::{lemma_field_index, lemma_type_index, type_index, types_view, ExtendedType, InputValueDefinition, FieldDefinition};
use vstd::prelude::*;

verus! {

/// Whether `l` is the location of the field `f` of the object type `t`, or of one of its
/// arguments.
pub open spec fn at_object_field(l: LocationView, t: Seq<char>, f: Seq<char>) -> bool {
    l == LocationView::ObjectField(t, f) || (l matches LocationView::ObjectFieldArgument(t2, f2, _)
        && t2 == t && f2 == f)
}

/// Whether no location recorded in `r` is at the field `f` of the object type `t` or at one
/// of its arguments.
pub open spec fn nothing_recorded_at_object_field(r: ReferencersView, t: Seq<char>, f: Seq<char>) -> bool {
    &&& forall|k: int, m: int|
        0 <= k < r.types.len() && 0 <= m < r.types[k].2.len() ==> !at_object_field(
            #[trigger] r.types[k].2[m],
            t,
            f,
        )
    &&& forall|k: int, m: int|
        0 <= k < r.directives.len() && 0 <= m < r.directives[k].1.len() ==> !at_object_field(
            #[trigger] r.directives[k].1[m],
            t,
            f,
        )
}

/// Whether the check `c`, where it is a reference, is made from the field `f` of `t` or from
/// one of its arguments.
pub open spec fn check_at_object_field(c: CheckView, t: Seq<char>, f: Seq<char>) -> bool {
    match c {
        CheckView::Reference(l, _) => at_object_field(l, t, f),
        _ => true,
    }
}

/// Whether every reference among `cs` is made from the field `f` of `t` or its arguments.
pub open spec fn checks_at_object_field(cs: Seq<CheckView>, t: Seq<char>, f: Seq<char>) -> bool {
    forall|i: int| 0 <= i < cs.len() ==> check_at_object_field(#[trigger] cs[i], t, f)
}

/// Whether `c` references, from `x`, the type whose entry in `r` is `k`.
pub open spec fn type_ref_at(r: ReferencersView, c: CheckView, k: int, x: LocationView) -> bool {
    match c {
        CheckView::Reference(l, TargetView::Type(t, _)) => l == x && type_entry(r.types, t) == Some(k),
        _ => false,
    }
}

/// Whether `c` references, from `x`, the directive whose entry in `r` is `k`.
pub open spec fn directive_ref_at(r: ReferencersView, c: CheckView, k: int, x: LocationView) -> bool {
    match c {
        CheckView::Reference(l, TargetView::Directive(d)) => l == x && directive_entry(r.directives, d)
            == Some(k),
        _ => false,
    }
}

/// Whether one of `cs` references, from `x`, the type whose entry in `r` is `k`.
pub open spec fn type_refs_at(r: ReferencersView, cs: Seq<CheckView>, k: int, x: LocationView) -> bool {
    exists|i: int| 0 <= i < cs.len() && type_ref_at(r, #[trigger] cs[i], k, x)
}

/// Whether one of `cs` references, from `x`, the directive whose entry in `r` is `k`.
pub open spec fn directive_refs_at(r: ReferencersView, cs: Seq<CheckView>, k: int, x: LocationView) -> bool {
    exists|i: int| 0 <= i < cs.len() && directive_ref_at(r, #[trigger] cs[i], k, x)
}

/// Whether `a` and `b` have the same entries: the same names (and kinds), in the same order.
pub open spec fn same_entries(a: ReferencersView, b: ReferencersView) -> bool {
    &&& a.types.len() == b.types.len()
    &&& a.directives.len() == b.directives.len()
    &&& forall|k: int| 0 <= k < a.types.len() ==> (#[trigger] a.types[k]).0 == b.types[k].0 && a.types[k].1 == b.types[k].1
    &&& forall|k: int| 0 <= k < a.directives.len() ==> (#[trigger] a.directives[k]).0 == b.directives[k].0
}

/// The part of `ls` after its first `n` locations.
pub open spec fn tail(ls: Seq<LocationView>, n: int) -> Seq<LocationView> {
    ls.subrange(n, ls.len() as int)
}

/// Whether `ls` starts with `base`.
pub open spec fn extends(base: Seq<LocationView>, ls: Seq<LocationView>) -> bool {
    base.len() <= ls.len() && ls.subrange(0, base.len() as int) == base
}

/// Whether `n` is `r` with locations added after those of each entry, each added location
/// one from which a check of `cs` references that entry.
pub open spec fn appended(r: ReferencersView, n: ReferencersView, cs: Seq<CheckView>) -> bool {
    &&& same_entries(n, r)
    &&& forall|k: int| 0 <= k < r.types.len() ==> extends(r.types[k].2, #[trigger] n.types[k].2)
    &&& forall|k: int| 0 <= k < r.directives.len() ==> extends(r.directives[k].1, #[trigger] n.directives[k].1)
    &&& forall|k: int, x: LocationView|
        0 <= k < r.types.len() && #[trigger] tail(n.types[k].2, r.types[k].2.len() as int).contains(x)
            ==> type_refs_at(r, cs, k, x)
    &&& forall|k: int, x: LocationView|
        0 <= k < r.directives.len() && #[trigger] tail(n.directives[k].1, r.directives[k].1.len() as int).contains(x)
            ==> directive_refs_at(r, cs, k, x)
}

/// Whether each type reference of `cs` that is looked up in the schema is to a type of `s`
/// of a fitting kind.
pub open spec fn kinds_allow(s: crate::schema::Schema, cs: Seq<CheckView>) -> bool {
    forall|i: int| 0 <= i < cs.len() ==> match #[trigger] cs[i] {
        CheckView::Reference(_, TargetView::Type(t, u)) => forgets_quietly(u) || (kind_of_type(s, t) matches Some(k)
            && use_allows(u, k)),
        _ => true,
    }
}

proof fn lemma_tail_push(ls: Seq<LocationView>, n: int, l: LocationView)
    requires
        0 <= n <= ls.len(),
    ensures
        tail(ls.push(l), n) == tail(ls, n).push(l),
        ls.push(l).subrange(0, n) == ls.subrange(0, n),
{
    assert(tail(ls.push(l), n) =~= tail(ls, n).push(l));
    assert(ls.push(l).subrange(0, n) =~= ls.subrange(0, n));
}

proof fn lemma_contains_push(ls: Seq<LocationView>, l: LocationView, x: LocationView)
    requires
        ls.push(l).contains(x),
    ensures
        ls.contains(x) || x == l,
{
    let i = choose|i: int| 0 <= i < ls.push(l).len() && ls.push(l)[i] == x;
    if i < ls.len() {
        assert(ls[i] == x);
    }
}

/// A location recorded under an entry (where it was not yet) comes last in that entry.
proof fn lemma_with_location_tail(base: Seq<LocationView>, ls: Seq<LocationView>, l: LocationView)
    requires
        extends(base, ls),
    ensures
        extends(base, with_location(ls, l)),
        forall|x: LocationView| #[trigger] tail(with_location(ls, l), base.len() as int).contains(x)
            ==> tail(ls, base.len() as int).contains(x) || x == l,
{
    if !ls.contains(l) {
        lemma_tail_push(ls, base.len() as int, l);
        assert forall|x: LocationView| #[trigger] tail(with_location(ls, l), base.len() as int).contains(x)
            implies tail(ls, base.len() as int).contains(x) || x == l by {
            lemma_contains_push(tail(ls, base.len() as int), l, x);
        }
    }
}

/// Recording the checks `cs` adds to each entry of `r` only locations from which a check of
/// `cs` references it, after those already there; and each type reference of `cs` that is
/// looked up in `s` found a type of a fitting kind.
proof fn lemma_record_appends(s: crate::schema::Schema, r: ReferencersView, cs: Seq<CheckView>)
    requires
        record(s, r, cs).1 is None,
    ensures
        appended(r, record(s, r, cs).0, cs),
        kinds_allow(s, cs),
    decreases cs.len(),
{
    if cs.len() == 0 {
        let n = record(s, r, cs).0;
        assert forall|k: int| 0 <= k < r.types.len() implies extends(r.types[k].2, #[trigger] n.types[k].2) by {
            assert(n.types[k].2.subrange(0, r.types[k].2.len() as int) =~= r.types[k].2);
        }
        assert forall|k: int| 0 <= k < r.directives.len() implies extends(r.directives[k].1, #[trigger] n.directives[k].1) by {
            assert(n.directives[k].1.subrange(0, r.directives[k].1.len() as int) =~= r.directives[k].1);
        }
        assert forall|k: int, x: LocationView|
            0 <= k < r.types.len() && #[trigger] tail(n.types[k].2, r.types[k].2.len() as int).contains(x)
            implies type_refs_at(r, cs, k, x) by {
            assert(tail(n.types[k].2, r.types[k].2.len() as int).len() == 0);
        }
        assert forall|k: int, x: LocationView|
            0 <= k < r.directives.len() && #[trigger] tail(n.directives[k].1, r.directives[k].1.len() as int).contains(x)
            implies directive_refs_at(r, cs, k, x) by {
            assert(tail(n.directives[k].1, r.directives[k].1.len() as int).len() == 0);
        }
    } else {
        let prev = cs.drop_last();
        let c = cs.last();
        let last = cs.len() - 1;
        assert(record(s, r, prev).1 is None);
        lemma_record_appends(s, r, prev);
        let p = record(s, r, prev).0;
        let n = record(s, r, cs).0;
        assert(record_step(s, p, c) == Ok::<ReferencersView, Seq<char>>(n));
        assert(cs[last] == c);
        assert forall|i: int| 0 <= i < prev.len() implies #[trigger] cs[i] == prev[i] by {}
        // What held of `prev` holds of `cs`.
        assert forall|k: int, x: LocationView| type_refs_at(r, prev, k, x) implies type_refs_at(r, cs, k, x) by {
            let i = choose|i: int| 0 <= i < prev.len() && type_ref_at(r, #[trigger] prev[i], k, x);
            assert(cs[i] == prev[i]);
        }
        assert forall|k: int, x: LocationView| directive_refs_at(r, prev, k, x) implies directive_refs_at(r, cs, k, x) by {
            let i = choose|i: int| 0 <= i < prev.len() && directive_ref_at(r, #[trigger] prev[i], k, x);
            assert(cs[i] == prev[i]);
        }
        assert(kinds_allow(s, cs)) by {
            assert forall|i: int| 0 <= i < cs.len() implies match #[trigger] cs[i] {
                CheckView::Reference(_, TargetView::Type(t, u)) => forgets_quietly(u) || (kind_of_type(s, t) matches Some(k)
                    && use_allows(u, k)),
                _ => true,
            } by {
                if i < prev.len() {
                    assert(cs[i] == prev[i]);
                }
            }
        }
        match c {
            CheckView::Reference(l, TargetView::Directive(d)) => {
                lemma_directive_entry_same_names(p.directives, r.directives, d);
                let j = directive_entry(p.directives, d)->Some_0;
                lemma_directive_entry(p.directives, d);
                assert(n.types == p.types);
                assert(n.directives == p.directives.update(j, (p.directives[j].0, with_location(p.directives[j].1, l))));
                lemma_with_location_tail(r.directives[j].1, p.directives[j].1, l);
                assert(directive_ref_at(r, cs[last], j, l));
            },
            CheckView::Reference(l, TargetView::Type(t, u)) => {
                lemma_type_entry_names(p.types, r.types, t);
                let j = type_entry(p.types, t)->Some_0;
                lemma_type_entry(p.types, t);
                assert(n.directives == p.directives);
                assert(n.types == p.types.update(j, (p.types[j].0, p.types[j].1, with_location(p.types[j].2, l))));
                lemma_with_location_tail(r.types[j].2, p.types[j].2, l);
                assert(type_ref_at(r, cs[last], j, l));
            },
            CheckView::DistinctArguments(_) => {
                assert(n == p);
            },
        }
    }
}

/// What is left of `ls` without `l`: locations of `ls` other than `l`.
proof fn lemma_without_location_elements(ls: Seq<LocationView>, l: LocationView)
    ensures
        forall|x: LocationView| #[trigger] without_location(ls, l).contains(x) ==> ls.contains(x) && x != l,
    decreases ls.len(),
{
    if ls.len() > 0 {
        lemma_without_location_elements(ls.drop_last(), l);
        assert forall|x: LocationView| #[trigger] without_location(ls, l).contains(x) implies ls.contains(x) && x != l by {
            let w = without_location(ls.drop_last(), l);
            if ls.last() != l {
                lemma_contains_push(w, ls.last(), x);
            }
            if w.contains(x) {
                let i = choose|i: int| 0 <= i < ls.drop_last().len() && ls.drop_last()[i] == x;
                assert(ls[i] == x);
            } else {
                assert(ls[ls.len() - 1] == ls.last());
            }
        }
    }
}

/// Taking `l` out of a list that starts with `base`, where `base` does not hold `l`, leaves
/// `base` first.
proof fn lemma_without_location_after(base: Seq<LocationView>, ls: Seq<LocationView>, l: LocationView)
    requires
        extends(base, ls),
        !base.contains(l),
    ensures
        extends(base, without_location(ls, l)),
        tail(without_location(ls, l), base.len() as int) == without_location(tail(ls, base.len() as int), l),
    decreases ls.len(),
{
    let n = base.len() as int;
    if ls.len() == n {
        assert(ls =~= base);
        lemma_without_location_absent(base, l);
        assert(tail(ls, n) =~= Seq::<LocationView>::empty());
        assert(tail(base, n) =~= Seq::<LocationView>::empty());
        assert(base.subrange(0, n) =~= base);
    } else {
        let p = ls.drop_last();
        assert(p.subrange(0, n) =~= ls.subrange(0, n));
        lemma_without_location_after(base, p, l);
        let w = without_location(p, l);
        assert(tail(ls, n).drop_last() =~= tail(p, n));
        assert(tail(ls, n).last() == ls.last());
        if ls.last() == l {
            assert(without_location(ls, l) == w);
        } else {
            assert(without_location(ls, l) == w.push(ls.last()));
            lemma_tail_push(w, n, ls.last());
        }
    }
}

/// Whether `n` is `r` with, after the locations of each entry, only locations that `start`
/// had there and from which no check of `cs` references that entry.
pub open spec fn left_after(r: ReferencersView, start: ReferencersView, n: ReferencersView, cs: Seq<CheckView>) -> bool {
    &&& same_entries(n, r)
    &&& forall|k: int| 0 <= k < r.types.len() ==> extends(r.types[k].2, #[trigger] n.types[k].2)
    &&& forall|k: int| 0 <= k < r.directives.len() ==> extends(r.directives[k].1, #[trigger] n.directives[k].1)
    &&& forall|k: int, x: LocationView|
        0 <= k < r.types.len() && #[trigger] tail(n.types[k].2, r.types[k].2.len() as int).contains(x)
            ==> tail(start.types[k].2, r.types[k].2.len() as int).contains(x) && !type_refs_at(r, cs, k, x)
    &&& forall|k: int, x: LocationView|
        0 <= k < r.directives.len() && #[trigger] tail(n.directives[k].1, r.directives[k].1.len() as int).contains(x)
            ==> tail(start.directives[k].1, r.directives[k].1.len() as int).contains(x) && !directive_refs_at(r, cs, k, x)
}

/// Forgetting the checks `cs`, all made from the field `f` of `t` or its arguments, from
/// referencers that extend `r` (which records nothing there) never fails, and takes out of
/// each entry every location from which a check of `cs` references it.
proof fn lemma_forget_takes_out(
    s: crate::schema::Schema,
    r: ReferencersView,
    start: ReferencersView,
    cs: Seq<CheckView>,
    t: Seq<char>,
    f: Seq<char>,
)
    requires
        same_entries(start, r),
        forall|k: int| 0 <= k < r.types.len() ==> extends(r.types[k].2, #[trigger] start.types[k].2),
        forall|k: int| 0 <= k < r.directives.len() ==> extends(r.directives[k].1, #[trigger] start.directives[k].1),
        nothing_recorded_at_object_field(r, t, f),
        checks_at_object_field(cs, t, f),
        kinds_allow(s, cs),
    ensures
        forget(s, start, cs).1 is None,
        left_after(r, start, forget(s, start, cs).0, cs),
    decreases cs.len(),
{
    if cs.len() == 0 {
    } else {
        let prev = cs.drop_last();
        let c = cs.last();
        let last = cs.len() - 1;
        assert(cs[last] == c);
        assert forall|i: int| 0 <= i < prev.len() implies #[trigger] cs[i] == prev[i] by {}
        assert(checks_at_object_field(prev, t, f)) by {
            assert forall|i: int| 0 <= i < prev.len() implies check_at_object_field(#[trigger] prev[i], t, f) by {
                assert(cs[i] == prev[i]);
            }
        }
        assert(kinds_allow(s, prev)) by {
            assert forall|i: int| 0 <= i < prev.len() implies match #[trigger] prev[i] {
                CheckView::Reference(_, TargetView::Type(t, u)) => forgets_quietly(u) || (kind_of_type(s, t) matches Some(k)
                    && use_allows(u, k)),
                _ => true,
            } by {
                assert(cs[i] == prev[i]);
            }
        }
        lemma_forget_takes_out(s, r, start, prev, t, f);
        let p = forget(s, start, prev).0;
        assert(check_at_object_field(cs[last], t, f));
        // A reference that is not to entry `k` through `c` was not one through `prev`.
        assert forall|k: int, x: LocationView|
            !type_refs_at(r, prev, k, x) && !type_ref_at(r, c, k, x) implies !type_refs_at(r, cs, k, x) by {
            if type_refs_at(r, cs, k, x) {
                let i = choose|i: int| 0 <= i < cs.len() && type_ref_at(r, #[trigger] cs[i], k, x);
                if i < prev.len() {
                    assert(cs[i] == prev[i]);
                }
            }
        }
        assert forall|k: int, x: LocationView|
            !directive_refs_at(r, prev, k, x) && !directive_ref_at(r, c, k, x) implies !directive_refs_at(r, cs, k, x) by {
            if directive_refs_at(r, cs, k, x) {
                let i = choose|i: int| 0 <= i < cs.len() && directive_ref_at(r, #[trigger] cs[i], k, x);
                if i < prev.len() {
                    assert(cs[i] == prev[i]);
                }
            }
        }
        let n = forget(s, start, cs).0;
        match c {
            CheckView::Reference(l, TargetView::Directive(d)) => {
                assert(forget_step(s, p, c) == Ok::<ReferencersView, Seq<char>>(without_application(p, d, l)));
                assert(n == without_application(p, d, l));
                lemma_directive_entry_same_names(p.directives, r.directives, d);
                lemma_directive_entry(p.directives, d);
                match directive_entry(p.directives, d) {
                    Some(j) => {
                        assert(!r.directives[j].1.contains(l)) by {
                            if r.directives[j].1.contains(l) {
                                let m = choose|m: int| 0 <= m < r.directives[j].1.len() && r.directives[j].1[m] == l;
                                assert(!at_object_field(r.directives[j].1[m], t, f));
                            }
                        }
                        lemma_without_location_after(r.directives[j].1, p.directives[j].1, l);
                        lemma_without_location_elements(tail(p.directives[j].1, r.directives[j].1.len() as int), l);
                    },
                    None => {},
                }
            },
            CheckView::Reference(l, TargetView::Type(tn, u)) => {
                assert(forget_step(s, p, c) == Ok::<ReferencersView, Seq<char>>(without_type_reference(p, tn, l)));
                assert(n == without_type_reference(p, tn, l));
                lemma_type_entry_names(p.types, r.types, tn);
                lemma_type_entry(p.types, tn);
                match type_entry(p.types, tn) {
                    Some(j) => {
                        assert(!r.types[j].2.contains(l)) by {
                            if r.types[j].2.contains(l) {
                                let m = choose|m: int| 0 <= m < r.types[j].2.len() && r.types[j].2[m] == l;
                                assert(!at_object_field(r.types[j].2[m], t, f));
                            }
                        }
                        lemma_without_location_after(r.types[j].2, p.types[j].2, l);
                        lemma_without_location_elements(tail(p.types[j].2, r.types[j].2.len() as int), l);
                    },
                    None => {},
                }
            },
            CheckView::DistinctArguments(_) => {
                assert(n == p);
            },
        }
    }
}

proof fn lemma_checks_concat(a: Seq<CheckView>, b: Seq<CheckView>, t: Seq<char>, f: Seq<char>)
    requires
        checks_at_object_field(a, t, f),
        checks_at_object_field(b, t, f),
    ensures
        checks_at_object_field(a + b, t, f),
{
    assert forall|i: int| 0 <= i < (a + b).len() implies check_at_object_field(#[trigger] (a + b)[i], t, f) by {
        if i < a.len() {
            assert((a + b)[i] == a[i]);
        } else {
            assert((a + b)[i] == b[i - a.len()]);
        }
    }
}

proof fn lemma_checks_push(a: Seq<CheckView>, c: CheckView, t: Seq<char>, f: Seq<char>)
    requires
        checks_at_object_field(a, t, f),
        check_at_object_field(c, t, f),
    ensures
        checks_at_object_field(a.push(c), t, f),
{
    assert forall|i: int| 0 <= i < a.push(c).len() implies check_at_object_field(#[trigger] a.push(c)[i], t, f) by {
        if i < a.len() {
            assert(a.push(c)[i] == a[i]);
        }
    }
}

proof fn lemma_directive_checks_at(l: LocationView, ds: Seq<Directive>, t: Seq<char>, f: Seq<char>)
    requires
        at_object_field(l, t, f),
    ensures
        checks_at_object_field(directive_checks(l, ds), t, f),
    decreases ds.len(),
{
    if ds.len() > 0 {
        lemma_directive_checks_at(l, ds.drop_last(), t, f);
        lemma_checks_push(
            directive_checks(l, ds.drop_last()),
            CheckView::Reference(l, TargetView::Directive(ds.last().name@)),
            t,
            f,
        );
    }
}

proof fn lemma_input_value_checks_at(l: LocationView, v: InputValueDefinition, t: Seq<char>, f: Seq<char>)
    requires
        at_object_field(l, t, f),
    ensures
        checks_at_object_field(input_value_checks(l, v), t, f),
{
    lemma_directive_checks_at(l, v.directives@, t, f);
    lemma_checks_push(
        directive_checks(l, v.directives@),
        CheckView::Reference(l, TargetView::Type(crate::schema::inner_named_type(v.ty@), crate::federation_schema::TypeUse::Input)),
        t,
        f,
    );
}

proof fn lemma_arguments_checks_at(args: Seq<InputValueDefinition>, t: Seq<char>, f: Seq<char>)
    ensures
        checks_at_object_field(arguments_checks(ArgumentOwner::ObjectField(t, f), args), t, f),
    decreases args.len(),
{
    if args.len() > 0 {
        lemma_arguments_checks_at(args.drop_last(), t, f);
        let l = LocationView::ObjectFieldArgument(t, f, args.last().name@);
        lemma_input_value_checks_at(l, args.last(), t, f);
        lemma_checks_concat(
            arguments_checks(ArgumentOwner::ObjectField(t, f), args.drop_last()),
            input_value_checks(l, args.last()),
            t,
            f,
        );
    }
}

/// Every check of a field of an object type is made from that field or its arguments.
proof fn lemma_field_checks_at(t: Seq<char>, field: FieldDefinition)
    ensures
        checks_at_object_field(field_checks(true, t, field), t, field.name@),
{
    let f = field.name@;
    let l = LocationView::ObjectField(t, f);
    lemma_directive_checks_at(l, field.directives@, t, f);
    let a = directive_checks(l, field.directives@);
    lemma_checks_push(
        a,
        CheckView::Reference(l, TargetView::Type(crate::schema::inner_named_type(field.ty@), crate::federation_schema::TypeUse::Output)),
        t,
        f,
    );
    let b = a.push(CheckView::Reference(l, TargetView::Type(crate::schema::inner_named_type(field.ty@), crate::federation_schema::TypeUse::Output)));
    lemma_checks_push(b, CheckView::DistinctArguments(crate::federation_schema::argument_names(field.arguments@)), t, f);
    lemma_arguments_checks_at(field.arguments@, t, f);
    lemma_checks_concat(
        b.push(CheckView::DistinctArguments(crate::federation_schema::argument_names(field.arguments@))),
        arguments_checks(ArgumentOwner::ObjectField(t, f), field.arguments@),
        t,
        f,
    );
}

/// Types with the same names and kinds, in the same order, are found at the same places.
proof fn lemma_same_names_and_kinds(a: Seq<ExtendedType>, b: Seq<ExtendedType>, name: Seq<char>)
    requires
        a.len() == b.len(),
        forall|m: int| 0 <= m < a.len() ==> (#[trigger] a[m]).spec_name() == b[m].spec_name() && a[m].spec_kind() == b[m].spec_kind(),
    ensures
        type_index(a, name) == type_index(b, name),
{
    lemma_type_index(a, name);
    lemma_type_index(b, name);
    match type_index(a, name) {
        Some(i) => {
            assert forall|j: int| 0 <= j < i implies b[j].spec_name() != name by {
                assert(a[j].spec_name() != name);
            }
            lemma_type_index_first(b, name, i);
        },
        None => {
            assert forall|j: int| 0 <= j < b.len() implies b[j].spec_name() != name by {
                assert(a[j].spec_name() != name);
            }
            lemma_type_index_first(b, name, b.len() as int);
        },
    }
}

/// Whether no reference among `cs` is made from the field `f` of the object type `t` or from
/// one of its arguments.
pub open spec fn no_check_at_object_field(cs: Seq<CheckView>, t: Seq<char>, f: Seq<char>) -> bool {
    forall|i: int| 0 <= i < cs.len() ==> match #[trigger] cs[i] {
        CheckView::Reference(l, _) => !at_object_field(l, t, f),
        _ => true,
    }
}

proof fn lemma_away_concat(a: Seq<CheckView>, b: Seq<CheckView>, t: Seq<char>, f: Seq<char>)
    requires
        no_check_at_object_field(a, t, f),
        no_check_at_object_field(b, t, f),
    ensures
        no_check_at_object_field(a + b, t, f),
{
    assert forall|i: int| 0 <= i < (a + b).len() implies match #[trigger] (a + b)[i] {
        CheckView::Reference(l, _) => !at_object_field(l, t, f),
        _ => true,
    } by {
        if i < a.len() {
            assert((a + b)[i] == a[i]);
        } else {
            assert((a + b)[i] == b[i - a.len()]);
        }
    }
}

proof fn lemma_away_push(a: Seq<CheckView>, c: CheckView, t: Seq<char>, f: Seq<char>)
    requires
        no_check_at_object_field(a, t, f),
        match c {
            CheckView::Reference(l, _) => !at_object_field(l, t, f),
            _ => true,
        },
    ensures
        no_check_at_object_field(a.push(c), t, f),
{
    assert forall|i: int| 0 <= i < a.push(c).len() implies match #[trigger] a.push(c)[i] {
        CheckView::Reference(l, _) => !at_object_field(l, t, f),
        _ => true,
    } by {
        if i < a.len() {
            assert(a.push(c)[i] == a[i]);
        }
    }
}

proof fn lemma_directive_checks_away(l: LocationView, ds: Seq<Directive>, t: Seq<char>, f: Seq<char>)
    requires
        !at_object_field(l, t, f),
    ensures
        no_check_at_object_field(directive_checks(l, ds), t, f),
    decreases ds.len(),
{
    if ds.len() > 0 {
        lemma_directive_checks_away(l, ds.drop_last(), t, f);
        lemma_away_push(directive_checks(l, ds.drop_last()), CheckView::Reference(l, TargetView::Directive(ds.last().name@)), t, f);
    }
}

proof fn lemma_type_name_checks_away(l: LocationView, names: Seq<String>, u: TypeUse, t: Seq<char>, f: Seq<char>)
    requires
        !at_object_field(l, t, f),
    ensures
        no_check_at_object_field(type_name_checks(l, names, u), t, f),
    decreases names.len(),
{
    if names.len() > 0 {
        lemma_type_name_checks_away(l, names.drop_last(), u, t, f);
        lemma_away_push(type_name_checks(l, names.drop_last(), u), CheckView::Reference(l, TargetView::Type(names.last()@, u)), t, f);
    }
}

proof fn lemma_input_value_checks_away(l: LocationView, v: InputValueDefinition, t: Seq<char>, f: Seq<char>)
    requires
        !at_object_field(l, t, f),
    ensures
        no_check_at_object_field(input_value_checks(l, v), t, f),
{
    lemma_directive_checks_away(l, v.directives@, t, f);
    lemma_away_push(
        directive_checks(l, v.directives@),
        CheckView::Reference(l, TargetView::Type(crate::schema::inner_named_type(v.ty@), TypeUse::Input)),
        t,
        f,
    );
}

proof fn lemma_arguments_checks_away(owner: ArgumentOwner, args: Seq<InputValueDefinition>, t: Seq<char>, f: Seq<char>)
    requires
        owner != ArgumentOwner::ObjectField(t, f),
    ensures
        no_check_at_object_field(arguments_checks(owner, args), t, f),
    decreases args.len(),
{
    if args.len() > 0 {
        lemma_arguments_checks_away(owner, args.drop_last(), t, f);
        let l = crate::federation_schema::argument_location(owner, args.last().name@);
        lemma_input_value_checks_away(l, args.last(), t, f);
        lemma_away_concat(arguments_checks(owner, args.drop_last()), input_value_checks(l, args.last()), t, f);
    }
}

proof fn lemma_field_checks_away(object: bool, n: Seq<char>, field: FieldDefinition, t: Seq<char>, f: Seq<char>)
    requires
        !object || n != t || field.name@ != f,
    ensures
        no_check_at_object_field(field_checks(object, n, field), t, f),
{
    let l = crate::federation_schema::field_location(object, n, field.name@);
    lemma_directive_checks_away(l, field.directives@, t, f);
    let c1 = CheckView::Reference(l, TargetView::Type(crate::schema::inner_named_type(field.ty@), TypeUse::Output));
    lemma_away_push(directive_checks(l, field.directives@), c1, t, f);
    let c2 = CheckView::DistinctArguments(crate::federation_schema::argument_names(field.arguments@));
    lemma_away_push(directive_checks(l, field.directives@).push(c1), c2, t, f);
    lemma_arguments_checks_away(crate::federation_schema::field_owner(object, n, field.name@), field.arguments@, t, f);
    lemma_away_concat(
        directive_checks(l, field.directives@).push(c1).push(c2),
        arguments_checks(crate::federation_schema::field_owner(object, n, field.name@), field.arguments@),
        t,
        f,
    );
}

proof fn lemma_fields_checks_away(object: bool, n: Seq<char>, fs: Seq<FieldDefinition>, t: Seq<char>, f: Seq<char>)
    requires
        forall|k: int| 0 <= k < fs.len() ==> !object || n != t || (#[trigger] fs[k]).name@ != f,
    ensures
        no_check_at_object_field(fields_checks(object, n, fs), t, f),
    decreases fs.len(),
{
    if fs.len() > 0 {
        assert(fs.last() == fs[fs.len() - 1]);
        assert forall|k: int| 0 <= k < fs.drop_last().len() implies !object || n != t || (#[trigger] fs.drop_last()[k]).name@ != f by {
            assert(fs.drop_last()[k] == fs[k]);
        }
        lemma_fields_checks_away(object, n, fs.drop_last(), t, f);
        lemma_field_checks_away(object, n, fs.last(), t, f);
        lemma_away_concat(fields_checks(object, n, fs.drop_last()), field_checks(object, n, fs.last()), t, f);
    }
}

proof fn lemma_values_checks_away(n: Seq<char>, vs: Seq<crate::schema::EnumValueDefinition>, t: Seq<char>, f: Seq<char>)
    ensures
        no_check_at_object_field(values_checks(n, vs), t, f),
    decreases vs.len(),
{
    if vs.len() > 0 {
        lemma_values_checks_away(n, vs.drop_last(), t, f);
        lemma_directive_checks_away(LocationView::EnumValue(n, vs.last().value@), vs.last().directives@, t, f);
        lemma_away_concat(
            values_checks(n, vs.drop_last()),
            directive_checks(LocationView::EnumValue(n, vs.last().value@), vs.last().directives@),
            t,
            f,
        );
    }
}

proof fn lemma_input_fields_checks_away(n: Seq<char>, fs: Seq<InputValueDefinition>, t: Seq<char>, f: Seq<char>)
    ensures
        no_check_at_object_field(input_fields_checks(n, fs), t, f),
    decreases fs.len(),
{
    if fs.len() > 0 {
        lemma_input_fields_checks_away(n, fs.drop_last(), t, f);
        lemma_input_value_checks_away(LocationView::InputObjectField(n, fs.last().name@), fs.last(), t, f);
        lemma_away_concat(
            input_fields_checks(n, fs.drop_last()),
            input_value_checks(LocationView::InputObjectField(n, fs.last().name@), fs.last()),
            t,
            f,
        );
    }
}

/// Whether `ty` is an object type named `t` with a field named `f`.
pub open spec fn object_with_field(ty: ExtendedType, t: Seq<char>, f: Seq<char>) -> bool {
    &&& ty.spec_kind() == crate::schema::TypeKind::Object
    &&& ty.spec_name() == t
    &&& exists|k: int| 0 <= k < crate::schema::declared_fields(ty).len() && (#[trigger] crate::schema::declared_fields(ty)[k]).name@ == f
}

proof fn lemma_type_checks_away(ty: ExtendedType, t: Seq<char>, f: Seq<char>)
    requires
        !object_with_field(ty, t, f),
    ensures
        no_check_at_object_field(type_checks(ty), t, f),
{
    match ty {
        ExtendedType::Scalar { name, directives } => {
            lemma_directive_checks_away(LocationView::ScalarType(name@), directives@, t, f);
        },
        ExtendedType::Object { name, implements_interfaces, directives, fields } => {
            let l = LocationView::ObjectType(name@);
            lemma_directive_checks_away(l, directives@, t, f);
            lemma_type_name_checks_away(l, implements_interfaces@, TypeUse::Implements, t, f);
            assert forall|k: int| 0 <= k < fields@.len() implies true ==> name@ != t || (#[trigger] fields@[k]).name@ != f by {
                if name@ == t && fields@[k].name@ == f {
                    assert(crate::schema::declared_fields(ty)[k] == fields@[k]);
                }
            }
            lemma_fields_checks_away(true, name@, fields@, t, f);
            lemma_away_concat(directive_checks(l, directives@), type_name_checks(l, implements_interfaces@, TypeUse::Implements), t, f);
            lemma_away_concat(
                directive_checks(l, directives@) + type_name_checks(l, implements_interfaces@, TypeUse::Implements),
                fields_checks(true, name@, fields@),
                t,
                f,
            );
        },
        ExtendedType::Interface { name, implements_interfaces, directives, fields } => {
            let l = LocationView::InterfaceType(name@);
            lemma_directive_checks_away(l, directives@, t, f);
            lemma_type_name_checks_away(l, implements_interfaces@, TypeUse::Implements, t, f);
            lemma_fields_checks_away(false, name@, fields@, t, f);
            lemma_away_concat(directive_checks(l, directives@), type_name_checks(l, implements_interfaces@, TypeUse::Implements), t, f);
            lemma_away_concat(
                directive_checks(l, directives@) + type_name_checks(l, implements_interfaces@, TypeUse::Implements),
                fields_checks(false, name@, fields@),
                t,
                f,
            );
        },
        ExtendedType::Union { name, directives, members } => {
            let l = LocationView::UnionType(name@);
            lemma_directive_checks_away(l, directives@, t, f);
            lemma_type_name_checks_away(l, members@, TypeUse::Member, t, f);
            lemma_away_concat(directive_checks(l, directives@), type_name_checks(l, members@, TypeUse::Member), t, f);
        },
        ExtendedType::Enum { name, directives, values } => {
            lemma_directive_checks_away(LocationView::EnumType(name@), directives@, t, f);
            lemma_values_checks_away(name@, values@, t, f);
            lemma_away_concat(directive_checks(LocationView::EnumType(name@), directives@), values_checks(name@, values@), t, f);
        },
        ExtendedType::InputObject { name, directives, input_fields } => {
            lemma_directive_checks_away(LocationView::InputObjectType(name@), directives@, t, f);
            lemma_input_fields_checks_away(name@, input_fields@, t, f);
            lemma_away_concat(
                directive_checks(LocationView::InputObjectType(name@), directives@),
                input_fields_checks(name@, input_fields@),
                t,
                f,
            );
        },
    }
}

proof fn lemma_types_checks_away(ts: Seq<ExtendedType>, t: Seq<char>, f: Seq<char>)
    requires
        forall|k: int| 0 <= k < ts.len() ==> !object_with_field(#[trigger] ts[k], t, f),
    ensures
        no_check_at_object_field(types_checks(ts), t, f),
    decreases ts.len(),
{
    if ts.len() > 0 {
        assert forall|k: int| 0 <= k < ts.drop_last().len() implies !object_with_field(#[trigger] ts.drop_last()[k], t, f) by {
            assert(ts.drop_last()[k] == ts[k]);
        }
        lemma_types_checks_away(ts.drop_last(), t, f);
        assert(ts.last() == ts[ts.len() - 1]);
        lemma_type_checks_away(ts.last(), t, f);
        lemma_away_concat(types_checks(ts.drop_last()), type_checks(ts.last()), t, f);
    }
}

proof fn lemma_definitions_checks_away(defs: Seq<crate::schema::DirectiveDefinition>, t: Seq<char>, f: Seq<char>)
    ensures
        no_check_at_object_field(directive_definitions_checks(defs), t, f),
    decreases defs.len(),
{
    if defs.len() > 0 {
        lemma_definitions_checks_away(defs.drop_last(), t, f);
        lemma_arguments_checks_away(ArgumentOwner::Directive(defs.last().name@), defs.last().arguments@, t, f);
        lemma_away_concat(
            directive_definitions_checks(defs.drop_last()),
            arguments_checks(ArgumentOwner::Directive(defs.last().name@), defs.last().arguments@),
            t,
            f,
        );
    }
}

proof fn lemma_root_checks_away(k: crate::schema::SchemaRootDefinitionKind, root: Option<String>, t: Seq<char>, f: Seq<char>)
    ensures
        no_check_at_object_field(root_checks(k, root), t, f),
{
}

/// A schema none of whose object types named `t` has a field named `f` makes no reference
/// from such a field or its arguments.
proof fn lemma_schema_checks_away(s: crate::schema::Schema, t: Seq<char>, f: Seq<char>)
    requires
        forall|k: int| 0 <= k < s.types@.len() ==> !object_with_field(#[trigger] s.types@[k], t, f),
    ensures
        no_check_at_object_field(schema_checks(s), t, f),
{
    let sd = s.schema_definition;
    lemma_directive_checks_away(LocationView::SchemaDefinition, sd.directives@, t, f);
    lemma_root_checks_away(crate::schema::SchemaRootDefinitionKind::Query, sd.query, t, f);
    lemma_root_checks_away(crate::schema::SchemaRootDefinitionKind::Mutation, sd.mutation, t, f);
    lemma_root_checks_away(crate::schema::SchemaRootDefinitionKind::Subscription, sd.subscription, t, f);
    let a = directive_checks(LocationView::SchemaDefinition, sd.directives@);
    let b = root_checks(crate::schema::SchemaRootDefinitionKind::Query, sd.query);
    let c = root_checks(crate::schema::SchemaRootDefinitionKind::Mutation, sd.mutation);
    let d = root_checks(crate::schema::SchemaRootDefinitionKind::Subscription, sd.subscription);
    lemma_away_concat(a, b, t, f);
    lemma_away_concat(a + b, c, t, f);
    lemma_away_concat(a + b + c, d, t, f);
    lemma_types_checks_away(s.types@, t, f);
    lemma_definitions_checks_away(s.directive_definitions@, t, f);
    lemma_away_concat(schema_definition_checks(sd), types_checks(s.types@), t, f);
    lemma_away_concat(schema_definition_checks(sd) + types_checks(s.types@), directive_definitions_checks(s.directive_definitions@), t, f);
}

/// Inserting the field `field` at the position of the field `f` of the object type `t`, then
/// removing the field at that position, gives back the schema (its types by their views)
/// and its referencers exactly; removing it once more then changes nothing. This holds of a
/// schema whose referencers record nothing at that field or at its arguments (what the
/// referencers of a schema record is stated by
/// [`crate::federation_schema::law_referencers_are_the_references`]).
pub proof fn law_object_field_remove_undoes_insert(
    s0: FederationSchema,
    s1: FederationSchema,
    s2: FederationSchema,
    s3: FederationSchema,
    t: Seq<char>,
    f: Seq<char>,
    field: FieldDefinition,
    inserted: Result<(), FederationError>,
    removed: Result<(), FederationError>,
    removed_again: Result<(), FederationError>,
)
    requires
        nothing_recorded_at_object_field(s0.spec_referencers(), t, f),
        field_insertion(s0, s1, t, f, true, field, inserted),
        inserted is Ok,
        removed_child(s1, s2, type_field(s1.spec_schema(), t, f, true), removed),
        removed_child(s2, s3, type_field(s2.spec_schema(), t, f, true), removed_again),
    ensures
        removed is Ok,
        s2.spec_referencers() == s0.spec_referencers(),
        s2.spec_metadata() == s0.spec_metadata(),
        s2.spec_schema().schema_definition == s0.spec_schema().schema_definition,
        s2.spec_schema().directive_definitions == s0.spec_schema().directive_definitions,
        types_view(s2.spec_schema().types@) == types_view(s0.spec_schema().types@),
        removed_again is Ok,
        s3 == s2,
{
    let os = s0.spec_schema();
    let ns = s1.spec_schema();
    let r = s0.spec_referencers();
    let cs = field_checks(true, t, field);
    // The insertion recorded the checks of the field and added it last to the type `i`.
    assert(field.name@ == f);
    assert(type_field(os, t, f, true) is Err);
    assert(record(os, r, cs).1 is None);
    let i = type_of_kind(os, t, crate::schema::TypeKind::Object)->Ok_0;
    lemma_type_index(os.types@, t);
    let old_fields = crate::schema::declared_fields(os.types@[i]);
    lemma_field_index(old_fields, f);
    assert(crate::schema::field_index(old_fields, f) is None);
    // The types keep their names and kinds.
    assert forall|m: int| 0 <= m < os.types@.len() implies (#[trigger] os.types@[m]).spec_name() == ns.types@[m].spec_name()
        && os.types@[m].spec_kind() == ns.types@[m].spec_kind() by {}
    assert forall|name: Seq<char>| #[trigger] kind_of_type(ns, name) == kind_of_type(os, name) by {
        lemma_same_names_and_kinds(os.types@, ns.types@, name);
        lemma_type_index(os.types@, name);
        match type_index(os.types@, name) {
            Some(m) => {
                assert(os.types@[m].spec_kind() == ns.types@[m].spec_kind());
            },
            None => {},
        }
    }
    lemma_same_names_and_kinds(os.types@, ns.types@, t);
    let new_fields = crate::schema::declared_fields(ns.types@[i]);
    assert(new_fields == old_fields.push(field));
    let j = old_fields.len() as int;
    assert forall|m: int| 0 <= m < j implies new_fields[m].name@ != f by {
        assert(new_fields[m] == old_fields[m]);
    }
    lemma_field_index_first(new_fields, f, j);
    assert(type_field(ns, t, f, true) == Ok::<(int, int), Seq<char>>((i, j)));
    assert(child_checks(ns.types@[i], j) == cs);
    // Forgetting those checks takes out what recording them put in.
    lemma_record_appends(os, r, cs);
    let rec = record(os, r, cs).0;
    assert(s1.spec_referencers() == rec);
    lemma_field_checks_at(t, field);
    assert(kinds_allow(ns, cs)) by {
        assert forall|m: int| 0 <= m < cs.len() implies match #[trigger] cs[m] {
            CheckView::Reference(_, TargetView::Type(tn, u)) => forgets_quietly(u) || (kind_of_type(ns, tn) matches Some(k)
                && use_allows(u, k)),
            _ => true,
        } by {
            match cs[m] {
                CheckView::Reference(_, TargetView::Type(tn, u)) => {
                    assert(kind_of_type(ns, tn) == kind_of_type(os, tn));
                },
                _ => {},
            }
        }
    }
    lemma_forget_takes_out(ns, r, rec, cs, t, f);
    let fr = forget(ns, rec, cs).0;
    assert(removed is Ok);
    assert(s2.spec_referencers() == fr);
    assert forall|k: int| 0 <= k < r.types.len() implies fr.types[k] == r.types[k] by {
        let n = r.types[k].2.len() as int;
        if tail(fr.types[k].2, n).len() > 0 {
            let x = tail(fr.types[k].2, n)[0];
            assert(tail(fr.types[k].2, n).contains(x));
        }
        assert(fr.types[k].2 =~= r.types[k].2);
    }
    assert forall|k: int| 0 <= k < r.directives.len() implies fr.directives[k] == r.directives[k] by {
        let n = r.directives[k].1.len() as int;
        if tail(fr.directives[k].1, n).len() > 0 {
            let x = tail(fr.directives[k].1, n)[0];
            assert(tail(fr.directives[k].1, n).contains(x));
        }
        assert(fr.directives[k].1 =~= r.directives[k].1);
    }
    assert(fr.types =~= r.types);
    assert(fr.directives =~= r.directives);
    // The field taken out of the type `i` was the last one: the type is as before.
    let fs = s2.spec_schema();
    assert(crate::schema::declared_fields(fs.types@[i]) =~= old_fields);
    assert(types_view(fs.types@) =~= types_view(os.types@)) by {
        assert forall|m: int| 0 <= m < os.types@.len() implies crate::schema::extended_type_view(#[trigger] fs.types@[m])
            == crate::schema::extended_type_view(os.types@[m]) by {
            if m != i {
                assert(fs.types@[m] == ns.types@[m]);
            }
        }
    }
    // Removing it again finds no such field.
    assert forall|m: int| 0 <= m < os.types@.len() implies (#[trigger] os.types@[m]).spec_name() == fs.types@[m].spec_name()
        && os.types@[m].spec_kind() == fs.types@[m].spec_kind() by {
        if m != i {
            assert(fs.types@[m] == ns.types@[m]);
        }
    }
    lemma_same_names_and_kinds(os.types@, fs.types@, t);
    assert(type_field(fs, t, f, true) is Err);
}

/// The referencers of a schema (whose types and directive definitions have distinct names, as
/// [`FederationSchema::new`] records them) record nothing at a field that its object type does
/// not have, nor at that field's arguments.
pub proof fn lemma_indexed_schema_records_nothing_at_missing_field(
    s: crate::schema::Schema,
    r: ReferencersView,
    t: Seq<char>,
    f: Seq<char>,
)
    requires
        distinct_names(s),
        schema_referencers(s) == Ok::<ReferencersView, Seq<char>>(r),
        type_field(s, t, f, true) is Err,
    ensures
        nothing_recorded_at_object_field(r, t, f),
{
    assert forall|k: int| 0 <= k < s.types@.len() implies !object_with_field(#[trigger] s.types@[k], t, f) by {
        if object_with_field(s.types@[k], t, f) {
            lemma_type_index(s.types@, t);
            let i = type_index(s.types@, t)->Some_0;
            if i != k {
                assert(s.types@[i].spec_name() == s.types@[k].spec_name());
            }
            assert(type_of_kind(s, t, crate::schema::TypeKind::Object) == Ok::<int, Seq<char>>(k));
            let fs = crate::schema::declared_fields(s.types@[k]);
            lemma_field_index(fs, f);
            let m = choose|m: int| 0 <= m < fs.len() && (#[trigger] fs[m]).name@ == f;
            assert(fs[m].name@ == f);
        }
    }
    lemma_schema_checks_away(s, t, f);
    law_referencers_are_the_references(s);
    let cs = schema_checks(s);
    assert forall|k: int, m: int| 0 <= k < r.types.len() && 0 <= m < r.types[k].2.len() implies !at_object_field(
        #[trigger] r.types[k].2[m],
        t,
        f,
    ) by {
        let l = r.types[k].2[m];
        assert(r.types[k].2.contains(l));
        let c = choose|c: int| 0 <= c < cs.len() && #[trigger] references_type(cs[c], l, s.types@[k].spec_name());
        let u = choose|u: TypeUse| cs[c] == CheckView::Reference(l, TargetView::Type(s.types@[k].spec_name(), u));
        assert(match cs[c] {
            CheckView::Reference(l2, _) => !at_object_field(l2, t, f),
            _ => true,
        });
    }
    assert forall|k: int, m: int| 0 <= k < r.directives.len() && 0 <= m < r.directives[k].1.len() implies !at_object_field(
        #[trigger] r.directives[k].1[m],
        t,
        f,
    ) by {
        let l = r.directives[k].1[m];
        assert(r.directives[k].1.contains(l));
        let c = choose|c: int| 0 <= c < cs.len() && #[trigger] references_directive(cs[c], l, s.directive_definitions@[k].name@);
        assert(match cs[c] {
            CheckView::Reference(l2, _) => !at_object_field(l2, t, f),
            _ => true,
        });
    }
}

/// Inserting a field into an object type of a schema whose referencers are those that
/// [`FederationSchema::new`] records (its types and directive definitions having distinct
/// names), then removing it, gives back the schema (its types by their views) and its
/// referencers exactly; removing it once more then changes nothing.
pub proof fn law_object_field_remove_undoes_insert_in_indexed_schema(
    s0: FederationSchema,
    s1: FederationSchema,
    s2: FederationSchema,
    s3: FederationSchema,
    t: Seq<char>,
    f: Seq<char>,
    field: FieldDefinition,
    inserted: Result<(), FederationError>,
    removed: Result<(), FederationError>,
    removed_again: Result<(), FederationError>,
)
    requires
        distinct_names(s0.spec_schema()),
        schema_referencers(s0.spec_schema()) == Ok::<ReferencersView, Seq<char>>(s0.spec_referencers()),
        field_insertion(s0, s1, t, f, true, field, inserted),
        inserted is Ok,
        removed_child(s1, s2, type_field(s1.spec_schema(), t, f, true), removed),
        removed_child(s2, s3, type_field(s2.spec_schema(), t, f, true), removed_again),
    ensures
        removed is Ok,
        s2.spec_referencers() == s0.spec_referencers(),
        s2.spec_metadata() == s0.spec_metadata(),
        s2.spec_schema().schema_definition == s0.spec_schema().schema_definition,
        s2.spec_schema().directive_definitions == s0.spec_schema().directive_definitions,
        types_view(s2.spec_schema().types@) == types_view(s0.spec_schema().types@),
        removed_again is Ok,
        s3 == s2,
{
    assert(type_field(s0.spec_schema(), t, f, true) is Err);
    lemma_indexed_schema_records_nothing_at_missing_field(s0.spec_schema(), s0.spec_referencers(), t, f);
    law_object_field_remove_undoes_insert(s0, s1, s2, s3, t, f, field, inserted, removed, removed_again);
}

} // verus!
