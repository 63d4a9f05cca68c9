//! What folding sibling `__typename` selections leaves in a selection set, at every depth.
use crate::operation::{
    composite_name, first_sibling, first_typename, is_field_view, is_typename_field,
    lemma_first_sibling, lemma_first_typename, optimize_pairs, optimize_sel, optimize_set,
    response_name_view, with_sibling_typename, normalize_set, normalized_operation_set, KeyView, SelView, SetView,
};
use crate::executable::{Fragment, Operation};
use crate::schema::Schema;
use vstd::prelude::*;

verus! {

/// Whether some `__typename` field of `sels` stands beside another field.
pub open spec fn typename_beside_field(sels: Seq<(KeyView, SelView)>) -> bool {
    exists|i: int, j: int|
        0 <= i < sels.len() && 0 <= j < sels.len() && i != j && is_typename_field(#[trigger] sels[i].1)
            && is_field_view(#[trigger] sels[j].1)
}

/// Whether two `__typename` fields of `sels` stand beside a third field.
pub open spec fn typenames_beside_field(sels: Seq<(KeyView, SelView)>) -> bool {
    exists|i: int, j: int, k: int|
        0 <= i < sels.len() && 0 <= j < sels.len() && 0 <= k < sels.len() && i != j && i != k && j != k
            && is_typename_field(#[trigger] sels[i].1) && is_typename_field(#[trigger] sels[j].1)
            && is_field_view(#[trigger] sels[k].1)
}

/// Whether no selection set of `s`, at any depth, that is not an interface object's has a
/// `__typename` field beside another field.
pub open spec fn typenames_folded(s: SetView, io: Seq<Seq<char>>) -> bool
    decreases s, 0int,
{
    &&& (!io.contains(composite_name(s.ty)) ==> !typename_beside_field(s.selections))
    &&& typenames_folded_pairs(s.selections, io)
}

pub open spec fn typenames_folded_pairs(ps: Seq<(KeyView, SelView)>, io: Seq<Seq<char>>) -> bool
    decreases ps, 1int,
{
    if ps.len() == 0 {
        true
    } else {
        typenames_folded_pairs(ps.drop_last(), io) && typenames_folded_sel(ps.last().1, io)
    }
}

pub open spec fn typenames_folded_sel(s: SelView, io: Seq<Seq<char>>) -> bool
    decreases s, 0int,
{
    match s {
        SelView::Field { selection_set, .. } => match selection_set {
            Some(ss) => typenames_folded(ss, io),
            None => true,
        },
        SelView::InlineFragment { selection_set, .. } => typenames_folded(selection_set, io),
        SelView::FragmentSpread { .. } => true,
    }
}

/// Whether no selection set of `s`, at any depth, that is not an interface object's has two
/// `__typename` fields beside a third field.
pub open spec fn typenames_spaced(s: SetView, io: Seq<Seq<char>>) -> bool
    decreases s, 0int,
{
    &&& (!io.contains(composite_name(s.ty)) ==> !typenames_beside_field(s.selections))
    &&& typenames_spaced_pairs(s.selections, io)
}

pub open spec fn typenames_spaced_pairs(ps: Seq<(KeyView, SelView)>, io: Seq<Seq<char>>) -> bool
    decreases ps, 1int,
{
    if ps.len() == 0 {
        true
    } else {
        typenames_spaced_pairs(ps.drop_last(), io) && typenames_spaced_sel(ps.last().1, io)
    }
}

pub open spec fn typenames_spaced_sel(s: SelView, io: Seq<Seq<char>>) -> bool
    decreases s, 0int,
{
    match s {
        SelView::Field { selection_set, .. } => match selection_set {
            Some(ss) => typenames_spaced(ss, io),
            None => true,
        },
        SelView::InlineFragment { selection_set, .. } => typenames_spaced(selection_set, io),
        SelView::FragmentSpread { .. } => true,
    }
}

proof fn lemma_folded_pairs_all(ps: Seq<(KeyView, SelView)>, io: Seq<Seq<char>>)
    ensures
        typenames_folded_pairs(ps, io) <==> forall|i: int| 0 <= i < ps.len() ==> typenames_folded_sel(#[trigger] ps[i].1, io),
    decreases ps.len(),
{
    if ps.len() > 0 {
        lemma_folded_pairs_all(ps.drop_last(), io);
        assert forall|i: int| 0 <= i < ps.len() - 1 implies ps.drop_last()[i] == ps[i] by {}
        if forall|i: int| 0 <= i < ps.len() ==> typenames_folded_sel(#[trigger] ps[i].1, io) {
            assert forall|i: int| 0 <= i < ps.drop_last().len() implies typenames_folded_sel(#[trigger] ps.drop_last()[i].1, io) by {
                assert(ps.drop_last()[i] == ps[i]);
            }
            assert(typenames_folded_sel(ps[ps.len() - 1].1, io));
        }
        if typenames_folded_pairs(ps, io) {
            assert forall|i: int| 0 <= i < ps.len() implies typenames_folded_sel(#[trigger] ps[i].1, io) by {
                if i < ps.len() - 1 {
                    assert(ps.drop_last()[i] == ps[i]);
                }
            }
        }
    }
}

/// What folding keeps of each selection: whether it is a field, whether it is a `__typename`
/// field, and the two properties, for selections whose sets are spaced.
proof fn lemma_fold_sel(s: SelView, io: Seq<Seq<char>>)
    requires
        typenames_spaced_sel(s, io),
        optimize_sel(s, io) is Some,
    ensures
        is_field_view(optimize_sel(s, io)->Some_0) == is_field_view(s),
        is_typename_field(optimize_sel(s, io)->Some_0) == is_typename_field(s),
        typenames_folded_sel(optimize_sel(s, io)->Some_0, io),
    decreases s, 0int,
{
    match s {
        SelView::Field { selection_set, .. } => match selection_set {
            Some(ss) => lemma_fold_set(ss, io),
            None => {},
        },
        SelView::InlineFragment { selection_set, .. } => lemma_fold_set(selection_set, io),
        SelView::FragmentSpread { .. } => {},
    }
}

proof fn lemma_fold_pairs(ps: Seq<(KeyView, SelView)>, io: Seq<Seq<char>>)
    requires
        typenames_spaced_pairs(ps, io),
        optimize_pairs(ps, io) is Some,
    ensures
        optimize_pairs(ps, io)->Some_0.len() == ps.len(),
        forall|i: int| 0 <= i < ps.len() ==> is_field_view(#[trigger] optimize_pairs(ps, io)->Some_0[i].1) == is_field_view(ps[i].1)
            && is_typename_field(optimize_pairs(ps, io)->Some_0[i].1) == is_typename_field(ps[i].1),
        typenames_folded_pairs(optimize_pairs(ps, io)->Some_0, io),
    decreases ps, 1int,
{
    if ps.len() > 0 {
        lemma_fold_pairs(ps.drop_last(), io);
        lemma_fold_sel(ps.last().1, io);
        let a = optimize_pairs(ps.drop_last(), io)->Some_0;
        let r = optimize_pairs(ps, io)->Some_0;
        assert(r.drop_last() =~= a);
        assert forall|i: int| 0 <= i < ps.len() implies is_field_view(#[trigger] r[i].1) == is_field_view(ps[i].1)
            && is_typename_field(r[i].1) == is_typename_field(ps[i].1) by {
            if i < ps.len() - 1 {
                assert(r[i] == a[i]);
                assert(ps[i] == ps.drop_last()[i]);
            }
        }
    }
}

proof fn lemma_no_typename_from(sels: Seq<(KeyView, SelView)>, from: int)
    requires
        0 <= from,
        first_typename(sels, from) is None,
    ensures
        forall|j: int| from <= j < sels.len() ==> !is_typename_field(#[trigger] sels[j].1),
    decreases sels.len() - from,
{
    if from < sels.len() {
        lemma_no_typename_from(sels, from + 1);
    }
}

proof fn lemma_no_sibling_from(sels: Seq<(KeyView, SelView)>, t: Option<int>, from: int)
    requires
        0 <= from,
        first_sibling(sels, t, from) is None,
    ensures
        forall|j: int| from <= j < sels.len() && t != Some(j) ==> !is_field_view(#[trigger] sels[j].1),
    decreases sels.len() - from,
{
    if from < sels.len() {
        lemma_no_sibling_from(sels, t, from + 1);
    }
}

proof fn lemma_fold_set(s: SetView, io: Seq<Seq<char>>)
    requires
        typenames_spaced(s, io),
        optimize_set(s, io) is Some,
    ensures
        typenames_folded(optimize_set(s, io)->Some_0, io),
    decreases s, 0int,
{
    lemma_fold_pairs(s.selections, io);
    let ps = s.selections;
    let sels = optimize_pairs(ps, io)->Some_0;
    let o = optimize_set(s, io)->Some_0;
    lemma_folded_pairs_all(sels, io);
    let iso = io.contains(composite_name(s.ty));
    let t = if iso { None } else { first_typename(sels, 0) };
    lemma_first_typename(sels, 0);
    lemma_first_sibling(sels, t, 0);
    match (t, first_sibling(sels, t, 0)) {
        (Some(ti), Some(si)) => {
            let up = sels.update(si, (sels[si].0, with_sibling_typename(sels[si].1, crate::operation::response_name_view(sels[ti].1))));
            let res = up.remove(ti);
            assert(o.selections == res);
            assert(is_field_view(up[si].1) && is_typename_field(up[si].1) == is_typename_field(sels[si].1));
            assert forall|x: int| 0 <= x < up.len() implies is_field_view(#[trigger] up[x].1) == is_field_view(sels[x].1)
                && is_typename_field(up[x].1) == is_typename_field(sels[x].1) && typenames_folded_sel(up[x].1, io) by {
                if x == si {
                    assert(typenames_folded_sel(sels[si].1, io));
                }
            }
            assert forall|x: int| 0 <= x < res.len() implies typenames_folded_sel(#[trigger] res[x].1, io) by {
                if x < ti {
                    assert(res[x] == up[x]);
                } else {
                    assert(res[x] == up[x + 1]);
                }
            }
            lemma_folded_pairs_all(res, io);
            // The fields of the result are those of `sels` but the one at `ti`; a `__typename`
            // beside another field there would give `sels` two beside a third.
            if !iso && typename_beside_field(res) {
                let (i, j) = choose|i: int, j: int|
                    0 <= i < res.len() && 0 <= j < res.len() && i != j && is_typename_field(#[trigger] res[i].1)
                        && is_field_view(#[trigger] res[j].1);
                let i2 = if i < ti { i } else { i + 1 };
                let j2 = if j < ti { j } else { j + 1 };
                assert(res[i] == up[i2]);
                assert(res[j] == up[j2]);
                assert(is_typename_field(sels[i2].1));
                assert(is_field_view(sels[j2].1));
                assert(is_typename_field(sels[ti].1));
                assert(is_typename_field(ps[i2].1) && is_typename_field(ps[ti].1) && is_field_view(ps[j2].1));
                assert(typenames_beside_field(ps));
            }
        },
        (Some(ti), None) => {
            assert(o.selections == sels);
            lemma_no_sibling_from(sels, t, 0);
            if typename_beside_field(sels) {
                let (i, j) = choose|i: int, j: int|
                    0 <= i < sels.len() && 0 <= j < sels.len() && i != j && is_typename_field(#[trigger] sels[i].1)
                        && is_field_view(#[trigger] sels[j].1);
                if i != ti {
                    assert(is_field_view(sels[i].1));
                }
            }
        },
        (None, _) => {
            assert(o.selections == sels);
            if !iso {
                lemma_no_typename_from(sels, 0);
            }
        },
    }
}

/// Folding the sibling `__typename` selections of a selection set leaves, at every depth (the
/// sets of fields and of inline fragments alike), no set that is not an interface object's
/// with a `__typename` field beside another field, where no such set had two `__typename`
/// fields beside a third field.
pub proof fn law_folding_leaves_no_typename_beside_a_field(s: SetView, io: Seq<Seq<char>>)
    requires
        typenames_spaced(s, io),
        optimize_set(s, io) is Some,
    ensures
        typenames_folded(optimize_set(s, io)->Some_0, io),
{
    lemma_fold_set(s, io);
}

/// The selection set of a normalized operation (see
/// [`crate::operation::normalize_operation`]) has, at every depth, no set that is not an
/// interface object's with a `__typename` field beside another field, where no set of the
/// operation's expanded selection set had two `__typename` fields beside a third field.
pub proof fn law_normalized_operation_folds_typenames(
    operation: Operation,
    fragments: Seq<Fragment>,
    schema: Schema,
    io: Seq<Seq<char>>,
)
    requires
        normalize_set(operation.selection_set, fragments, schema, true, fragments.len()) matches Some(v)
            && typenames_spaced(v, io),
        normalized_operation_set(operation, fragments, schema, io) is Some,
    ensures
        typenames_folded(normalized_operation_set(operation, fragments, schema, io)->Some_0, io),
{
    let v = normalize_set(operation.selection_set, fragments, schema, true, fragments.len())->Some_0;
    lemma_fold_set(v, io);
}

/// How often the name `n` stands for a `__typename` in the selection `s` itself: as the
/// response name of a `__typename` field, or as the `__typename` recorded on a sibling field.
pub open spec fn own_typename_count(s: SelView, n: Seq<char>) -> int {
    (if is_typename_field(s) && response_name_view(s) == n { 1int } else { 0int }) + match s {
        SelView::Field { sibling_typename, .. } => if sibling_typename == Some(n) { 1int } else { 0int },
        _ => 0int,
    }
}

/// How often the name `n` stands for a `__typename` in the selection set `s`, at every depth.
pub open spec fn typename_count(s: SetView, n: Seq<char>) -> int
    decreases s, 0int,
{
    typename_count_pairs(s.selections, n)
}

pub open spec fn typename_count_pairs(ps: Seq<(KeyView, SelView)>, n: Seq<char>) -> int
    decreases ps, 1int,
{
    if ps.len() == 0 {
        0
    } else {
        typename_count_pairs(ps.drop_last(), n) + typename_count_sel(ps.last().1, n)
    }
}

pub open spec fn typename_count_sel(s: SelView, n: Seq<char>) -> int
    decreases s, 0int,
{
    own_typename_count(s, n) + match s {
        SelView::Field { selection_set, .. } => match selection_set {
            Some(ss) => typename_count(ss, n),
            None => 0int,
        },
        SelView::InlineFragment { selection_set, .. } => typename_count(selection_set, n),
        SelView::FragmentSpread { .. } => 0int,
    }
}

/// Whether no field of `s`, at any depth, has a `__typename` recorded yet, and no
/// `__typename` field has a selection set: what normalization gives.
pub open spec fn typenames_plain(s: SetView) -> bool
    decreases s, 0int,
{
    typenames_plain_pairs(s.selections)
}

pub open spec fn typenames_plain_pairs(ps: Seq<(KeyView, SelView)>) -> bool
    decreases ps, 1int,
{
    if ps.len() == 0 {
        true
    } else {
        typenames_plain_pairs(ps.drop_last()) && typenames_plain_sel(ps.last().1)
    }
}

pub open spec fn typenames_plain_sel(s: SelView) -> bool
    decreases s, 0int,
{
    match s {
        SelView::Field { name, selection_set, sibling_typename, .. } => sibling_typename is None && match selection_set {
            Some(ss) => name != "__typename"@ && typenames_plain(ss),
            None => true,
        },
        SelView::InlineFragment { selection_set, .. } => typenames_plain(selection_set),
        SelView::FragmentSpread { .. } => true,
    }
}

proof fn lemma_plain_pairs_all(ps: Seq<(KeyView, SelView)>)
    ensures
        typenames_plain_pairs(ps) ==> forall|i: int| 0 <= i < ps.len() ==> typenames_plain_sel(#[trigger] ps[i].1),
    decreases ps.len(),
{
    if ps.len() > 0 {
        lemma_plain_pairs_all(ps.drop_last());
        if typenames_plain_pairs(ps) {
            assert forall|i: int| 0 <= i < ps.len() implies typenames_plain_sel(#[trigger] ps[i].1) by {
                if i < ps.len() - 1 {
                    assert(ps.drop_last()[i] == ps[i]);
                }
            }
        }
    }
}

proof fn lemma_count_update(ps: Seq<(KeyView, SelView)>, i: int, x: (KeyView, SelView), n: Seq<char>)
    requires
        0 <= i < ps.len(),
    ensures
        typename_count_pairs(ps.update(i, x), n) == typename_count_pairs(ps, n) - typename_count_sel(ps[i].1, n)
            + typename_count_sel(x.1, n),
    decreases ps.len(),
{
    let u = ps.update(i, x);
    if i == ps.len() - 1 {
        assert(u.drop_last() =~= ps.drop_last());
    } else {
        lemma_count_update(ps.drop_last(), i, x, n);
        assert(u.drop_last() =~= ps.drop_last().update(i, x));
    }
}

proof fn lemma_count_remove(ps: Seq<(KeyView, SelView)>, i: int, n: Seq<char>)
    requires
        0 <= i < ps.len(),
    ensures
        typename_count_pairs(ps.remove(i), n) == typename_count_pairs(ps, n) - typename_count_sel(ps[i].1, n),
    decreases ps.len(),
{
    let r = ps.remove(i);
    if i == ps.len() - 1 {
        assert(r =~= ps.drop_last());
    } else {
        lemma_count_remove(ps.drop_last(), i, n);
        assert(r.drop_last() =~= ps.drop_last().remove(i));
        assert(r.last() == ps.last());
    }
}

proof fn lemma_count_sel(s: SelView, io: Seq<Seq<char>>, n: Seq<char>)
    requires
        typenames_plain_sel(s),
        optimize_sel(s, io) is Some,
    ensures
        typename_count_sel(optimize_sel(s, io)->Some_0, n) == typename_count_sel(s, n),
        optimize_sel(s, io)->Some_0 is Field <==> s is Field,
        is_typename_field(optimize_sel(s, io)->Some_0) == is_typename_field(s),
        response_name_view(optimize_sel(s, io)->Some_0) == response_name_view(s),
        s matches SelView::Field { sibling_typename, .. } ==> optimize_sel(s, io)->Some_0 matches SelView::Field {
            sibling_typename: st,
            ..
        } && st == sibling_typename,
        is_typename_field(s) ==> typename_count_sel(s, n) == if response_name_view(s) == n { 1int } else { 0int },
    decreases s, 0int,
{
    match s {
        SelView::Field { selection_set, .. } => match selection_set {
            Some(ss) => lemma_count_set(ss, io, n),
            None => {},
        },
        SelView::InlineFragment { selection_set, .. } => lemma_count_set(selection_set, io, n),
        SelView::FragmentSpread { .. } => {},
    }
}

proof fn lemma_count_pairs(ps: Seq<(KeyView, SelView)>, io: Seq<Seq<char>>, n: Seq<char>)
    requires
        typenames_plain_pairs(ps),
        optimize_pairs(ps, io) is Some,
    ensures
        typename_count_pairs(optimize_pairs(ps, io)->Some_0, n) == typename_count_pairs(ps, n),
        optimize_pairs(ps, io)->Some_0.len() == ps.len(),
        forall|i: int| 0 <= i < ps.len() ==> (#[trigger] optimize_pairs(ps, io)->Some_0[i]).1 == optimize_sel(ps[i].1, io)->Some_0
            && optimize_sel(ps[i].1, io) is Some,
    decreases ps, 1int,
{
    if ps.len() > 0 {
        lemma_count_pairs(ps.drop_last(), io, n);
        lemma_count_sel(ps.last().1, io, n);
        let a = optimize_pairs(ps.drop_last(), io)->Some_0;
        let r = optimize_pairs(ps, io)->Some_0;
        assert(r.drop_last() =~= a);
        assert forall|i: int| 0 <= i < ps.len() implies (#[trigger] r[i]).1 == optimize_sel(ps[i].1, io)->Some_0
            && optimize_sel(ps[i].1, io) is Some by {
            if i < ps.len() - 1 {
                assert(r[i] == a[i]);
                assert(ps[i] == ps.drop_last()[i]);
            }
        }
    }
}

proof fn lemma_count_set(s: SetView, io: Seq<Seq<char>>, n: Seq<char>)
    requires
        typenames_plain(s),
        optimize_set(s, io) is Some,
    ensures
        typename_count(optimize_set(s, io)->Some_0, n) == typename_count(s, n),
    decreases s, 0int,
{
    let ps = s.selections;
    lemma_count_pairs(ps, io, n);
    lemma_plain_pairs_all(ps);
    let sels = optimize_pairs(ps, io)->Some_0;
    let o = optimize_set(s, io)->Some_0;
    let iso = io.contains(composite_name(s.ty));
    let t = if iso { None } else { first_typename(sels, 0) };
    lemma_first_typename(sels, 0);
    lemma_first_sibling(sels, t, 0);
    match (t, first_sibling(sels, t, 0)) {
        (Some(ti), Some(si)) => {
            lemma_count_sel(ps[ti].1, io, n);
            lemma_count_sel(ps[si].1, io, n);
            let rn = response_name_view(sels[ti].1);
            let x = (sels[si].0, with_sibling_typename(sels[si].1, rn));
            let up = sels.update(si, x);
            lemma_count_update(sels, si, x, n);
            lemma_count_remove(up, ti, n);
            assert(up[ti] == sels[ti]);
            assert(typename_count_sel(x.1, n) == typename_count_sel(sels[si].1, n) + if rn == n { 1int } else { 0int });
            assert(o.selections == up.remove(ti));
        },
        _ => {},
    }
}

/// Folding sibling `__typename` selections loses no `__typename`: at every depth, each
/// `__typename` field it removes has its response name recorded on a sibling field, so that
/// each name stands for a `__typename` as often after as before, where no field had a
/// `__typename` recorded yet and no `__typename` field had a selection set.
pub proof fn law_folding_records_each_removed_typename(s: SetView, io: Seq<Seq<char>>, n: Seq<char>)
    requires
        typenames_plain(s),
        optimize_set(s, io) is Some,
    ensures
        typename_count(optimize_set(s, io)->Some_0, n) == typename_count(s, n),
{
    lemma_count_set(s, io, n);
}

} // verus!
