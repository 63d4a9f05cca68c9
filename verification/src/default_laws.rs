//! What filling in the defaults of input object fields does to a value.
use crate::api_schema::{added_defaults, first_key_index, propagate, propagate_entries, propagate_items, InputObjectsView};
use crate::ast::ValueView;
use crate::schema::InputValueView;
use vstd::prelude::*;

verus! {

/// Whether the entries `es` have one with the key `k`.
pub open spec fn has_key(es: Seq<(Seq<char>, ValueView)>, k: Seq<char>) -> bool {
    exists|i: int| 0 <= i < es.len() && (#[trigger] es[i]).0 == k
}

proof fn lemma_items(io: InputObjectsView, items: Seq<ValueView>, n: int, def: Seq<InputValueView>, fuel: nat)
    requires
        0 <= n <= items.len(),
    ensures
        propagate_items(io, items, n, def, fuel).len() == n,
        forall|i: int| 0 <= i < n ==> #[trigger] propagate_items(io, items, n, def, fuel)[i] == propagate(io, items[i], def, fuel),
    decreases n,
{
    if n > 0 {
        lemma_items(io, items, n - 1, def, fuel);
        let p = propagate_items(io, items, n - 1, def, fuel);
        assert forall|i: int| 0 <= i < n implies #[trigger] propagate_items(io, items, n, def, fuel)[i] == propagate(io, items[i], def, fuel) by {
            if i < n - 1 {
                assert(propagate_items(io, items, n, def, fuel)[i] == p[i]);
            }
        }
    }
}

proof fn lemma_entry_keys(io: InputObjectsView, es: Seq<(Seq<char>, ValueView)>, n: int, def: Seq<InputValueView>, fuel: nat)
    requires
        0 <= n <= es.len(),
    ensures
        propagate_entries(io, es, n, def, fuel).len() == n,
        forall|i: int| 0 <= i < n ==> (#[trigger] propagate_entries(io, es, n, def, fuel)[i]).0 == es[i].0,
    decreases n,
{
    if n > 0 {
        lemma_entry_keys(io, es, n - 1, def, fuel);
        let p = propagate_entries(io, es, n - 1, def, fuel);
        assert forall|i: int| 0 <= i < n implies (#[trigger] propagate_entries(io, es, n, def, fuel)[i]).0 == es[i].0 by {
            if i < n - 1 {
                assert(propagate_entries(io, es, n, def, fuel)[i] == p[i]);
            }
        }
    }
}

proof fn lemma_first_key_index_none(es: Seq<(Seq<char>, ValueView)>, k: Seq<char>)
    ensures
        first_key_index(es, k) is None <==> !has_key(es, k),
    decreases es.len(),
{
    if es.len() > 0 {
        lemma_first_key_index_none(es.drop_first(), k);
        if has_key(es, k) && es[0].0 != k {
            let i = choose|i: int| 0 <= i < es.len() && (#[trigger] es[i]).0 == k;
            assert(es.drop_first()[i - 1] == es[i]);
        }
        if has_key(es.drop_first(), k) {
            let i = choose|i: int| 0 <= i < es.drop_first().len() && (#[trigger] es.drop_first()[i]).0 == k;
            assert(es[i + 1] == es.drop_first()[i]);
        }
    }
}

proof fn lemma_added(io: InputObjectsView, es: Seq<(Seq<char>, ValueView)>, def: Seq<InputValueView>, n: int, fuel: nat)
    requires
        0 <= n <= def.len(),
    ensures
        forall|p: int| 0 <= p < n && (#[trigger] def[p]).default_value is Some && !has_key(es, def[p].name)
            ==> has_key(added_defaults(io, es, def, n, fuel), def[p].name),
        forall|i: int| 0 <= i < added_defaults(io, es, def, n, fuel).len() ==> !has_key(es, (#[trigger] added_defaults(io, es, def, n, fuel)[i]).0),
    decreases n,
{
    if n > 0 {
        lemma_added(io, es, def, n - 1, fuel);
        let b = added_defaults(io, es, def, n - 1, fuel);
        let a = added_defaults(io, es, def, n, fuel);
        lemma_first_key_index_none(es, def[n - 1].name);
        assert forall|p: int| 0 <= p < n && (#[trigger] def[p]).default_value is Some && !has_key(es, def[p].name)
            implies has_key(a, def[p].name) by {
            if p < n - 1 {
                let i = choose|i: int| 0 <= i < b.len() && (#[trigger] b[i]).0 == def[p].name;
                if a != b {
                    assert(a[i] == b[i]);
                }
            } else {
                assert(a[a.len() - 1].0 == def[p].name);
            }
        }
        assert forall|i: int| 0 <= i < a.len() implies !has_key(es, (#[trigger] a[i]).0) by {
            if a != b && i < a.len() - 1 {
                assert(a[i] == b[i]);
            }
        }
    }
}

/// Filling in defaults commutes with lists: a list value becomes the list of its elements,
/// each filled in, so that objects at any list depth get their defaults.
pub proof fn law_propagation_maps_over_lists(io: InputObjectsView, items: Seq<ValueView>, def: Seq<InputValueView>, fuel: nat)
    ensures
        propagate(io, ValueView::List(items), def, fuel) matches ValueView::List(out) && out.len() == items.len()
            && forall|i: int| 0 <= i < items.len() ==> #[trigger] out[i] == propagate(io, items[i], def, fuel),
{
    lemma_items(io, items, items.len() as int, def, fuel);
}

/// Filling in defaults of an object value keeps each of its entries' keys, in order, and gives
/// an entry to every input field that has a default value and no entry in the object; what
/// it adds are entries for keys the object did not have.
pub proof fn law_propagation_fills_missing_defaults(
    io: InputObjectsView,
    es: Seq<(Seq<char>, ValueView)>,
    def: Seq<InputValueView>,
    fuel: nat,
)
    ensures
        propagate(io, ValueView::Object(es), def, fuel) matches ValueView::Object(out) && {
            &&& es.len() <= out.len()
            &&& forall|i: int| 0 <= i < es.len() ==> (#[trigger] out[i]).0 == es[i].0
            &&& forall|p: int| 0 <= p < def.len() && (#[trigger] def[p]).default_value is Some && !has_key(es, def[p].name)
                ==> has_key(out, def[p].name)
            &&& forall|i: int| es.len() <= i < out.len() ==> !has_key(es, (#[trigger] out[i]).0)
        },
{
    lemma_entry_keys(io, es, es.len() as int, def, fuel);
    lemma_added(io, es, def, def.len() as int, fuel);
    let pe = propagate_entries(io, es, es.len() as int, def, fuel);
    let ad = added_defaults(io, es, def, def.len() as int, fuel);
    let out = pe + ad;
    assert forall|i: int| 0 <= i < es.len() implies (#[trigger] out[i]).0 == es[i].0 by {
        assert(out[i] == pe[i]);
    }
    assert forall|p: int| 0 <= p < def.len() && (#[trigger] def[p]).default_value is Some && !has_key(es, def[p].name)
        implies has_key(out, def[p].name) by {
        let i = choose|i: int| 0 <= i < ad.len() && (#[trigger] ad[i]).0 == def[p].name;
        assert(out[pe.len() + i] == ad[i]);
    }
    assert forall|i: int| es.len() <= i < out.len() implies !has_key(es, (#[trigger] out[i]).0) by {
        assert(out[i] == ad[i - pe.len()]);
    }
}

/// Each object element of a list value gets an entry for every input field that has a default
/// value and no entry in it.
pub proof fn law_list_objects_get_missing_defaults(
    io: InputObjectsView,
    items: Seq<ValueView>,
    def: Seq<InputValueView>,
    fuel: nat,
)
    ensures
        propagate(io, ValueView::List(items), def, fuel) is List,
        forall|i: int, p: int|
            0 <= i < items.len() && 0 <= p < def.len() && (#[trigger] items[i]) is Object
                && (#[trigger] def[p]).default_value is Some && !has_key(items[i]->Object_0, def[p].name)
                ==> propagate(io, ValueView::List(items), def, fuel)->List_0[i] is Object
                && has_key(propagate(io, ValueView::List(items), def, fuel)->List_0[i]->Object_0, def[p].name),
{
    law_propagation_maps_over_lists(io, items, def, fuel);
    let out = propagate(io, ValueView::List(items), def, fuel)->List_0;
    assert forall|i: int, p: int|
        0 <= i < items.len() && 0 <= p < def.len() && (#[trigger] items[i]) is Object
            && (#[trigger] def[p]).default_value is Some && !has_key(items[i]->Object_0, def[p].name)
            implies out[i] is Object && has_key(out[i]->Object_0, def[p].name) by {
        let es = items[i]->Object_0;
        law_propagation_fills_missing_defaults(io, es, def, fuel);
        assert(out[i] == propagate(io, items[i], def, fuel));
    }
}

} // verus!
