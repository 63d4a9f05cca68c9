//! Which types the `_Entity` union of a subgraph has as members.
use crate::federation_operations::{applies, keyed_object_types};
use crate::schema::ExtendedType;
use vstd::prelude::*;

verus! {

/// Whether the type `t` is an object type that applies the directive `key`.
pub open spec fn keyed_object(t: ExtendedType, key: Seq<char>) -> bool {
    t is Object && applies(t.spec_directives(), key)
}

/// The members of the `_Entity` union that the federation operations give a subgraph (see
/// [`crate::federation_operations::entity_operations`]) are exactly the names of its object
/// types that apply the key directive: each such type is a member, each member is such a
/// type, and each member comes from a distinct type, in the order of the types.
pub proof fn law_entity_members_are_the_keyed_object_types(ts: Seq<ExtendedType>, key: Seq<char>)
    ensures
        forall|i: int| 0 <= i < ts.len() && keyed_object(#[trigger] ts[i], key)
            ==> keyed_object_types(ts, key).contains(ts[i].spec_name()),
        forall|m: int| 0 <= m < keyed_object_types(ts, key).len() ==> exists|i: int|
            0 <= i < ts.len() && keyed_object(#[trigger] ts[i], key) && ts[i].spec_name() == #[trigger] keyed_object_types(ts, key)[m],
        keyed_object_types(ts, key).len() == ts.filter(|t: ExtendedType| keyed_object(t, key)).len(),
    decreases ts.len(),
{
    let pred = |t: ExtendedType| keyed_object(t, key);
    reveal(Seq::filter);
    if ts.len() > 0 {
        let p = ts.drop_last();
        law_entity_members_are_the_keyed_object_types(p, key);
        let rest = keyed_object_types(p, key);
        let r = keyed_object_types(ts, key);
        assert forall|i: int| 0 <= i < ts.len() && keyed_object(#[trigger] ts[i], key) implies r.contains(ts[i].spec_name()) by {
            if i < ts.len() - 1 {
                assert(p[i] == ts[i]);
                assert(keyed_object(p[i], key));
                let m = choose|m: int| 0 <= m < rest.len() && rest[m] == p[i].spec_name();
                assert(r[m] == rest[m]);
            } else {
                assert(r[r.len() - 1] == ts[i].spec_name());
            }
        }
        assert forall|m: int| 0 <= m < r.len() implies exists|i: int|
            0 <= i < ts.len() && keyed_object(#[trigger] ts[i], key) && ts[i].spec_name() == #[trigger] r[m] by {
            if m < rest.len() {
                assert(r[m] == rest[m]);
                let i = choose|i: int| 0 <= i < p.len() && keyed_object(#[trigger] p[i], key) && p[i].spec_name() == rest[m];
                assert(ts[i] == p[i]);
            } else {
                assert(keyed_object(ts[ts.len() - 1], key));
            }
        }
    }
}

} // verus!
