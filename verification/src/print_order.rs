//! The order in which a supergraph schema prints its types (by kind, then by name) and its
//! directive definitions (by name).
use crate::ast::{lt_from, str_lt, string_lt};
use crate::schema::{DirectiveDefinition, ExtendedType, TypeKind};
use vstd::prelude::*;

verus! {

/// The rank of a kind of type in printing order: enums, interfaces, unions, objects, input
/// objects, then scalars.
pub open spec fn kind_rank(k: TypeKind) -> int {
    match k {
        TypeKind::Enum => 1,
        TypeKind::Interface => 2,
        TypeKind::Union => 3,
        TypeKind::Object => 4,
        TypeKind::InputObject => 5,
        TypeKind::Scalar => 6,
    }
}

/// The rank of a type's kind in printing order.
pub fn print_type_order(extended_type: &ExtendedType) -> (res: i8)
    ensures
        res == kind_rank(extended_type.spec_kind()),
{
    match extended_type {
        ExtendedType::Enum { .. } => 1,
        ExtendedType::Interface { .. } => 2,
        ExtendedType::Union { .. } => 3,
        ExtendedType::Object { .. } => 4,
        ExtendedType::InputObject { .. } => 5,
        ExtendedType::Scalar { .. } => 6,
    }
}

/// A printing key: a rank and a name.
pub type PrintKey = (int, Seq<char>);

/// Whether key `a` comes strictly before key `b`: a lower rank, or the same rank and a
/// lower name.
pub open spec fn key_lt(a: PrintKey, b: PrintKey) -> bool {
    a.0 < b.0 || (a.0 == b.0 && str_lt(a.1, b.1))
}

/// Inserts index `x` into the index list `s` (sorted by `keys`), after every index whose
/// key is not greater than that of `x`.
pub open spec fn insert_index(keys: Seq<PrintKey>, s: Seq<int>, x: int) -> Seq<int>
    decreases s.len(),
{
    if s.len() == 0 {
        seq![x]
    } else if key_lt(keys[x], keys[s.last()]) {
        insert_index(keys, s.drop_last(), x).push(s.last())
    } else {
        s.push(x)
    }
}

/// The indexes `0..n` sorted stably by their keys.
pub open spec fn sorted_indices(keys: Seq<PrintKey>, n: int) -> Seq<int>
    decreases n,
{
    if n <= 0 {
        Seq::empty()
    } else {
        insert_index(keys, sorted_indices(keys, n - 1), n - 1)
    }
}

/// The printing keys of types: their kind's rank and their name.
pub open spec fn type_keys(types: Seq<ExtendedType>) -> Seq<PrintKey> {
    types.map_values(|t: ExtendedType| (kind_rank(t.spec_kind()), t.spec_name()))
}

/// The printing keys of directive definitions: their name only.
pub open spec fn definition_keys(defs: Seq<DirectiveDefinition>) -> Seq<PrintKey> {
    defs.map_values(|d: DirectiveDefinition| (0int, d.name@))
}

proof fn lemma_insert_index(keys: Seq<PrintKey>, s: Seq<int>, x: int, p: int)
    requires
        0 <= p <= s.len(),
        forall|q: int| p <= q < s.len() ==> key_lt(keys[x], keys[s[q]]),
        p == 0 || !key_lt(keys[x], keys[s[p - 1]]),
    ensures
        insert_index(keys, s, x) == s.take(p).push(x) + s.skip(p),
    decreases s.len(),
{
    if s.len() == 0 {
        assert(s.take(p).push(x) + s.skip(p) =~= seq![x]);
    } else if key_lt(keys[x], keys[s.last()]) {
        assert(p < s.len());
        lemma_insert_index(keys, s.drop_last(), x, p);
        assert(s.drop_last().take(p).push(x) + s.drop_last().skip(p) + seq![s.last()] =~= s.take(
            p,
        ).push(x) + s.skip(p));
    } else {
        assert(p == s.len());
        assert(s.take(p).push(x) + s.skip(p) =~= s.push(x));
    }
}

/// The order of the given keys' indexes, sorted stably.
fn sort_keys(ranks: &Vec<i8>, names: &Vec<String>) -> (res: Vec<usize>)
    requires
        ranks@.len() == names@.len(),
    ensures
        res@.map_values(|i: usize| i as int) == sorted_indices(
            Seq::new(ranks@.len(), |i: int| (ranks@[i] as int, names@[i]@)),
            ranks@.len() as int,
        ),
{
    let ghost keys = Seq::new(ranks@.len(), |i: int| (ranks@[i] as int, names@[i]@));
    let mut res: Vec<usize> = Vec::new();
    let mut i: usize = 0;
    proof {
        assert(res@.map_values(|k: usize| k as int) =~= Seq::<int>::empty());
    }
    while i < ranks.len()
        invariant
            i <= ranks@.len(),
            ranks@.len() == names@.len(),
            keys == Seq::new(ranks@.len(), |i: int| (ranks@[i] as int, names@[i]@)),
            res@.map_values(|k: usize| k as int) == sorted_indices(keys, i as int),
            forall|q: int| 0 <= q < res@.len() ==> res@[q] < i,
        decreases ranks@.len() - i,
    {
        let ghost rv = res@.map_values(|k: usize| k as int);
        let mut p: usize = res.len();
        loop
            invariant
                p <= res@.len(),
                rv == res@.map_values(|k: usize| k as int),
                i < ranks@.len(),
                ranks@.len() == names@.len(),
                keys == Seq::new(ranks@.len(), |i: int| (ranks@[i] as int, names@[i]@)),
                forall|q: int| 0 <= q < res@.len() ==> res@[q] < i,
                forall|q: int| p <= q < rv.len() ==> key_lt(keys[i as int], keys[rv[q]]),
            ensures
                p <= res@.len(),
                forall|q: int| p <= q < rv.len() ==> key_lt(keys[i as int], keys[rv[q]]),
                p == 0 || !key_lt(keys[i as int], keys[rv[p - 1]]),
            decreases p,
        {
            if p == 0 {
                break;
            }
            let j = res[p - 1];
            let before = ranks[i] < ranks[j] || (ranks[i] == ranks[j] && string_lt(&names[i], &names[j]));
            assert(before == key_lt(keys[i as int], keys[rv[p - 1]]));
            if !before {
                break;
            }
            p = p - 1;
        }
        proof {
            lemma_insert_index(keys, rv, i as int, p as int);
        }
        res.insert(p, i);
        proof {
            assert(res@.map_values(|k: usize| k as int) =~= rv.take(p as int).push(i as int) + rv.skip(
                p as int,
            ));
        }
        i = i + 1;
    }
    res
}

/// The order in which the types print: the indexes of `types`, sorted stably by the rank
/// of their kind (see [`print_type_order`]), then by name.
pub fn type_printing_order(types: &Vec<ExtendedType>) -> (res: Vec<usize>)
    ensures
        res@.map_values(|i: usize| i as int) == sorted_indices(type_keys(types@), types@.len() as int),
{
    let mut ranks: Vec<i8> = Vec::new();
    let mut names: Vec<String> = Vec::new();
    let mut i: usize = 0;
    while i < types.len()
        invariant
            i <= types@.len(),
            ranks@.len() == i,
            names@.len() == i,
            forall|j: int| 0 <= j < i ==> (#[trigger] ranks@[j]) as int == kind_rank(types@[j].spec_kind()),
            forall|j: int| 0 <= j < i ==> (#[trigger] names@[j])@ == types@[j].spec_name(),
        decreases types@.len() - i,
    {
        let r = print_type_order(&types[i]);
        let n = types[i].name().clone();
        assert(r as int == kind_rank(types@[i as int].spec_kind()));
        assert(n@ == types@[i as int].spec_name());
        ranks.push(r);
        names.push(n);
        i = i + 1;
    }
    let res = sort_keys(&ranks, &names);
    assert(Seq::new(ranks@.len(), |i: int| (ranks@[i] as int, names@[i]@)) =~= type_keys(types@));
    res
}

/// The order in which the directive definitions print: their indexes, sorted stably by name.
pub fn directive_printing_order(defs: &Vec<DirectiveDefinition>) -> (res: Vec<usize>)
    ensures
        res@.map_values(|i: usize| i as int) == sorted_indices(definition_keys(defs@), defs@.len() as int),
{
    let mut ranks: Vec<i8> = Vec::new();
    let mut names: Vec<String> = Vec::new();
    let mut i: usize = 0;
    while i < defs.len()
        invariant
            i <= defs@.len(),
            ranks@.len() == i,
            names@.len() == i,
            forall|j: int| 0 <= j < i ==> (#[trigger] ranks@[j]) == 0,
            forall|j: int| 0 <= j < i ==> (#[trigger] names@[j])@ == defs@[j].name@,
        decreases defs@.len() - i,
    {
        ranks.push(0);
        names.push(defs[i].name.clone());
        i = i + 1;
    }
    let res = sort_keys(&ranks, &names);
    assert(Seq::new(ranks@.len(), |i: int| (ranks@[i] as int, names@[i]@)) =~= definition_keys(defs@));
    res
}

/// Whether the indexes `s` are sorted by their keys (no index is followed by one with a
/// lower key).
pub open spec fn sorted_by(keys: Seq<PrintKey>, s: Seq<int>) -> bool {
    forall|i: int, j: int| 0 <= i < j < s.len() ==> !key_lt(keys[s[j]], keys[s[i]])
}

proof fn lemma_key_lt_order(a: PrintKey, b: PrintKey, c: PrintKey)
    ensures
        key_lt(a, b) ==> !key_lt(b, a),
        key_lt(a, b) && key_lt(b, c) ==> key_lt(a, c),
        a != b ==> key_lt(a, b) || key_lt(b, a),
{
    crate::ast::lemma_str_lt_order(a.1, b.1, c.1);
}

proof fn lemma_sorted_indices(keys: Seq<PrintKey>, n: int)
    requires
        0 <= n <= keys.len(),
    ensures
        sorted_indices(keys, n).len() == n,
        forall|i: int| 0 <= i < n ==> 0 <= #[trigger] sorted_indices(keys, n)[i] < n,
        sorted_indices(keys, n).no_duplicates(),
        sorted_by(keys, sorted_indices(keys, n)),
    decreases n,
{
    if n > 0 {
        lemma_sorted_indices(keys, n - 1);
        let s = sorted_indices(keys, n - 1);
        let x = n - 1;
        let p = choose_insert_position(keys, s, x);
        lemma_choose_insert_position(keys, s, x);
        lemma_insert_index(keys, s, x, p);
        let r = s.take(p).push(x) + s.skip(p);
        assert(r.len() == n);
        assert forall|i: int| 0 <= i < n implies 0 <= #[trigger] r[i] < n by {
            if i < p {
                assert(r[i] == s[i]);
            } else if i > p {
                assert(r[i] == s[i - 1]);
            }
        }
        assert forall|i: int, j: int| 0 <= i < r.len() && 0 <= j < r.len() && i != j implies r[i]
            != r[j] by {
            if i < p && j < p {
                assert(r[i] == s[i] && r[j] == s[j]);
            } else if i < p && j > p {
                assert(r[i] == s[i] && r[j] == s[j - 1]);
            } else if i > p && j < p {
                assert(r[i] == s[i - 1] && r[j] == s[j]);
            } else if i > p && j > p {
                assert(r[i] == s[i - 1] && r[j] == s[j - 1]);
            } else if i == p {
                if j < p {
                    assert(r[j] == s[j]);
                } else {
                    assert(r[j] == s[j - 1]);
                }
            } else {
                if i < p {
                    assert(r[i] == s[i]);
                } else {
                    assert(r[i] == s[i - 1]);
                }
            }
        }
        assert forall|i: int, j: int| 0 <= i < j < r.len() implies !key_lt(keys[r[j]], keys[r[i]]) by {
            if j < p {
                assert(r[i] == s[i] && r[j] == s[j]);
            } else if i > p {
                assert(r[i] == s[i - 1] && r[j] == s[j - 1]);
            } else if i < p && j > p {
                assert(r[i] == s[i] && r[j] == s[j - 1]);
            } else if i == p {
                assert(r[j] == s[j - 1]);
                lemma_key_lt_order(keys[x], keys[s[j - 1]], keys[x]);
            } else {
                assert(j == p && i < p);
                assert(r[i] == s[i]);
                lemma_key_lt_order(keys[x], keys[s[i]], keys[s[p - 1]]);
                lemma_key_lt_order(keys[s[i]], keys[s[p - 1]], keys[x]);
                lemma_key_lt_order(keys[x], keys[s[p - 1]], keys[s[i]]);
                if i < p - 1 {
                    assert(!key_lt(keys[s[p - 1]], keys[s[i]]));
                }
            }
        }
    }
}

/// The position at which [`insert_index`] puts `x`: after the last index whose key is not
/// greater than that of `x`.
spec fn choose_insert_position(keys: Seq<PrintKey>, s: Seq<int>, x: int) -> int
    decreases s.len(),
{
    if s.len() == 0 {
        0
    } else if key_lt(keys[x], keys[s.last()]) {
        choose_insert_position(keys, s.drop_last(), x)
    } else {
        s.len() as int
    }
}

proof fn lemma_choose_insert_position(keys: Seq<PrintKey>, s: Seq<int>, x: int)
    ensures
        0 <= choose_insert_position(keys, s, x) <= s.len(),
        forall|q: int|
            choose_insert_position(keys, s, x) <= q < s.len() ==> key_lt(keys[x], keys[s[q]]),
        choose_insert_position(keys, s, x) == 0 || !key_lt(
            keys[x],
            keys[s[choose_insert_position(keys, s, x) - 1]],
        ),
    decreases s.len(),
{
    if s.len() > 0 && key_lt(keys[x], keys[s.last()]) {
        lemma_choose_insert_position(keys, s.drop_last(), x);
        let p = choose_insert_position(keys, s.drop_last(), x);
        assert forall|q: int| p <= q < s.len() implies key_lt(keys[x], keys[s[q]]) by {
            if q < s.len() - 1 {
                assert(s[q] == s.drop_last()[q]);
            }
        }
        if p > 0 {
            assert(s[p - 1] == s.drop_last()[p - 1]);
        }
    }
}

/// The printing order of types is a permutation of their indexes, sorted by the rank of
/// their kind and then by name.
pub proof fn law_type_printing_order_sorted(types: Seq<ExtendedType>)
    ensures
        ({
            let order = sorted_indices(type_keys(types), types.len() as int);
            &&& order.len() == types.len()
            &&& order.no_duplicates()
            &&& forall|i: int| 0 <= i < order.len() ==> 0 <= #[trigger] order[i] < types.len()
            &&& sorted_by(type_keys(types), order)
        }),
{
    lemma_sorted_indices(type_keys(types), types.len() as int);
}

/// The printing order of directive definitions is a permutation of their indexes, sorted
/// by name.
pub proof fn law_directive_printing_order_sorted(defs: Seq<DirectiveDefinition>)
    ensures
        ({
            let order = sorted_indices(definition_keys(defs), defs.len() as int);
            &&& order.len() == defs.len()
            &&& order.no_duplicates()
            &&& forall|i: int| 0 <= i < order.len() ==> 0 <= #[trigger] order[i] < defs.len()
            &&& sorted_by(definition_keys(defs), order)
        }),
{
    lemma_sorted_indices(definition_keys(defs), defs.len() as int);
}

} // verus!
