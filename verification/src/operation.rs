//! Normalized operations: selection sets in which selections with the same key are merged,
//! fragment spreads are expanded, and introspection fields are removed.
use crate::ast::{
    arguments_view, clone_arguments, clone_directives, directives_equal, directives_has,
    directives_view, str_eq, str_lt, string_lt, Argument, ArgumentView, Directive,
    DirectiveView,
};
use crate::error::{is_internal, FederationError};
use crate::executable::{
    clone_variables, selection_set_view, selection_view, selections_view, variables_view, Field,
    Fragment, FragmentSpread, InlineFragment, Operation, OperationType, Selection, SelectionSet,
    SelectionSetView, SelectionView, VariableDefinition,
};
use crate::schema::{
    field_type_name, has_field, is_composite, type_kind_of, CompositeTypeDefinitionPosition, Schema,
    SchemaRootDefinitionKind, TypeKind,
};
use vstd::prelude::*;

verus! {

/// An identifier of a selection, unique among those produced by one generator (until it wraps
/// around).
#[derive(Debug, PartialEq, Eq)]
pub struct SelectionId(usize);

/// The source of fresh selection identifiers.
#[derive(Debug)]
pub struct SelectionIdGenerator {
    next: usize,
}

impl SelectionId {
    pub closed spec fn spec_value(&self) -> usize {
        self.0
    }

    /// A fresh identifier: the generator's next value, after which the generator moves on by
    /// one (wrapping around at the end of the range).
    pub fn new(generator: &mut SelectionIdGenerator) -> (res: SelectionId)
        ensures
            res.spec_value() == old(generator).spec_next(),
            final(generator).spec_next() == if old(generator).spec_next() == usize::MAX {
                0
            } else {
                (old(generator).spec_next() + 1) as usize
            },
    {
        let id = generator.next;
        generator.next = if generator.next == usize::MAX {
            0
        } else {
            generator.next + 1
        };
        SelectionId(id)
    }

    /// A copy of the identifier.
    pub fn copy(&self) -> (res: SelectionId)
        ensures
            res.spec_value() == self.spec_value(),
    {
        SelectionId(self.0)
    }
}

impl SelectionIdGenerator {
    pub closed spec fn spec_next(&self) -> usize {
        self.next
    }

    /// A generator whose first identifier is 1.
    pub fn new() -> (res: SelectionIdGenerator)
        ensures
            res.spec_next() == 1,
    {
        SelectionIdGenerator { next: 1 }
    }
}

/// The position of a field: its parent type and its name.
#[derive(Debug, PartialEq, Eq)]
pub struct FieldDefinitionPosition {
    pub parent: CompositeTypeDefinitionPosition,
    pub field_name: String,
}

/// The key of a selection: selections with matching keys are merged. A deferred selection
/// (one with `@defer`) carries its own identifier and matches no other selection.
#[derive(Debug, PartialEq, Eq)]
pub enum NormalizedSelectionKey {
    Field { response_name: String, directives: Vec<Directive>, deferred_id: Option<SelectionId> },
    FragmentSpread { name: String, directives: Vec<Directive>, deferred_id: Option<SelectionId> },
    InlineFragment {
        type_condition: Option<String>,
        directives: Vec<Directive>,
        deferred_id: Option<SelectionId>,
    },
}

/// A normalized selection set: the type it selects from, and its selections in order, keyed.
#[derive(Debug, PartialEq, Eq)]
pub struct NormalizedSelectionSet {
    pub type_position: CompositeTypeDefinitionPosition,
    pub selections: Vec<(NormalizedSelectionKey, NormalizedSelection)>,
}

/// A normalized selection.
#[derive(Debug, PartialEq, Eq)]
pub enum NormalizedSelection {
    Field(Box<NormalizedFieldSelection>),
    FragmentSpread(Box<NormalizedFragmentSpreadSelection>),
    InlineFragment(Box<NormalizedInlineFragmentSelection>),
}

/// A field selection: the field, its selection set where its type is composite, and the
/// response name of a sibling `__typename` selection folded into it.
#[derive(Debug, PartialEq, Eq)]
pub struct NormalizedFieldSelection {
    pub field: NormalizedField,
    pub selection_set: Option<NormalizedSelectionSet>,
    pub sibling_typename: Option<String>,
}

/// The data of a field selection other than its selection set.
#[derive(Debug, PartialEq, Eq)]
pub struct NormalizedField {
    pub field_position: FieldDefinitionPosition,
    pub alias: Option<String>,
    pub arguments: Vec<Argument>,
    pub directives: Vec<Directive>,
    pub selection_id: SelectionId,
}

/// A fragment spread that was kept as a spread.
#[derive(Debug, PartialEq, Eq)]
pub struct NormalizedFragmentSpreadSelection {
    pub fragment_name: String,
    pub directives: Vec<Directive>,
    pub selection_id: SelectionId,
}

/// An inline fragment selection.
#[derive(Debug, PartialEq, Eq)]
pub struct NormalizedInlineFragmentSelection {
    pub inline_fragment: NormalizedInlineFragment,
    pub selection_set: NormalizedSelectionSet,
}

/// The data of an inline fragment other than its selection set.
#[derive(Debug, PartialEq, Eq)]
pub struct NormalizedInlineFragment {
    pub parent_type_position: CompositeTypeDefinitionPosition,
    pub type_condition_position: Option<CompositeTypeDefinitionPosition>,
    pub directives: Vec<Directive>,
    pub selection_id: SelectionId,
}

// ----------------------------------------------------------------------------------------
// Mathematical forms (without selection identifiers)
// ----------------------------------------------------------------------------------------

/// The mathematical form of a composite type position.
pub enum CompositeView {
    Object(Seq<char>),
    Interface(Seq<char>),
    Union(Seq<char>),
}

pub open spec fn composite_view(c: CompositeTypeDefinitionPosition) -> CompositeView {
    match c {
        CompositeTypeDefinitionPosition::Object(n) => CompositeView::Object(n@),
        CompositeTypeDefinitionPosition::Interface(n) => CompositeView::Interface(n@),
        CompositeTypeDefinitionPosition::Union(n) => CompositeView::Union(n@),
    }
}

pub open spec fn composite_name(c: CompositeView) -> Seq<char> {
    match c {
        CompositeView::Object(n) => n,
        CompositeView::Interface(n) => n,
        CompositeView::Union(n) => n,
    }
}

/// The mathematical form of a selection key.
pub enum KeyView {
    Field { response_name: Seq<char>, directives: Seq<DirectiveView>, deferred: bool },
    FragmentSpread { name: Seq<char>, directives: Seq<DirectiveView>, deferred: bool },
    InlineFragment {
        type_condition: Option<Seq<char>>,
        directives: Seq<DirectiveView>,
        deferred: bool,
    },
}

/// The mathematical form of a selection.
pub enum SelView {
    Field {
        parent: CompositeView,
        name: Seq<char>,
        alias: Option<Seq<char>>,
        arguments: Seq<ArgumentView>,
        directives: Seq<DirectiveView>,
        selection_set: Option<SetView>,
        sibling_typename: Option<Seq<char>>,
    },
    FragmentSpread { fragment_name: Seq<char>, directives: Seq<DirectiveView> },
    InlineFragment {
        parent: CompositeView,
        type_condition: Option<CompositeView>,
        directives: Seq<DirectiveView>,
        selection_set: SetView,
    },
}

/// The mathematical form of a selection set.
pub struct SetView {
    pub ty: CompositeView,
    pub selections: Seq<(KeyView, SelView)>,
}

pub open spec fn opt_str_view(o: Option<String>) -> Option<Seq<char>> {
    match o {
        Some(s) => Some(s@),
        None => None,
    }
}

pub open spec fn key_view(k: NormalizedSelectionKey) -> KeyView {
    match k {
        NormalizedSelectionKey::Field { response_name, directives, deferred_id } => KeyView::Field {
            response_name: response_name@,
            directives: directives_view(directives@),
            deferred: deferred_id is Some,
        },
        NormalizedSelectionKey::FragmentSpread { name, directives, deferred_id } => {
            KeyView::FragmentSpread {
                name: name@,
                directives: directives_view(directives@),
                deferred: deferred_id is Some,
            }
        },
        NormalizedSelectionKey::InlineFragment { type_condition, directives, deferred_id } => {
            KeyView::InlineFragment {
                type_condition: opt_str_view(type_condition),
                directives: directives_view(directives@),
                deferred: deferred_id is Some,
            }
        },
    }
}

pub open spec fn set_view(s: &NormalizedSelectionSet) -> SetView
    decreases s, 0int,
{
    SetView { ty: composite_view(s.type_position), selections: pairs_view(s.selections@) }
}

pub open spec fn pairs_view(s: Seq<(NormalizedSelectionKey, NormalizedSelection)>) -> Seq<
    (KeyView, SelView),
>
    decreases s, 1int,
{
    if s.len() == 0 {
        Seq::empty()
    } else {
        pairs_view(s.drop_last()).push((key_view(s.last().0), sel_view(&s.last().1)))
    }
}

pub open spec fn sel_view(s: &NormalizedSelection) -> SelView
    decreases s, 0int,
{
    match s {
        NormalizedSelection::Field(f) => SelView::Field {
            parent: composite_view(f.field.field_position.parent),
            name: f.field.field_position.field_name@,
            alias: opt_str_view(f.field.alias),
            arguments: arguments_view(f.field.arguments@),
            directives: directives_view(f.field.directives@),
            selection_set: match &f.selection_set {
                Some(ss) => Some(set_view(ss)),
                None => None,
            },
            sibling_typename: opt_str_view(f.sibling_typename),
        },
        NormalizedSelection::FragmentSpread(s) => SelView::FragmentSpread {
            fragment_name: s.fragment_name@,
            directives: directives_view(s.directives@),
        },
        NormalizedSelection::InlineFragment(i) => SelView::InlineFragment {
            parent: composite_view(i.inline_fragment.parent_type_position),
            type_condition: match i.inline_fragment.type_condition_position {
                Some(c) => Some(composite_view(c)),
                None => None,
            },
            directives: directives_view(i.inline_fragment.directives@),
            selection_set: set_view(&i.selection_set),
        },
    }
}

pub proof fn lemma_pairs_view(s: Seq<(NormalizedSelectionKey, NormalizedSelection)>)
    ensures
        pairs_view(s).len() == s.len(),
        forall|i: int|
            0 <= i < s.len() ==> #[trigger] pairs_view(s)[i] == (key_view(s[i].0), sel_view(
                &s[i].1,
            )),
    decreases s.len(),
{
    if s.len() > 0 {
        lemma_pairs_view(s.drop_last());
    }
}


// ----------------------------------------------------------------------------------------
// Merging
// ----------------------------------------------------------------------------------------

pub open spec fn size_set(s: SetView) -> nat
    decreases s, 0int,
{
    1 + size_pairs(s.selections)
}

pub open spec fn size_pairs(s: Seq<(KeyView, SelView)>) -> nat
    decreases s, 1int,
{
    if s.len() == 0 {
        0
    } else {
        size_sel(s[0].1) + size_pairs(s.drop_first())
    }
}

pub open spec fn size_sel(s: SelView) -> nat
    decreases s, 0int,
{
    match s {
        SelView::Field { selection_set, .. } => match selection_set {
            Some(ss) => 1 + size_set(ss),
            None => 1,
        },
        SelView::FragmentSpread { .. } => 1,
        SelView::InlineFragment { selection_set, .. } => 1 + size_set(selection_set),
    }
}

pub proof fn lemma_size_pairs_element(s: Seq<(KeyView, SelView)>, k: int)
    requires
        0 <= k < s.len(),
    ensures
        size_sel(s[k].1) <= size_pairs(s),
        size_sel(s[k].1) >= 1,
    decreases k,
{
    if k > 0 {
        lemma_size_pairs_element(s.drop_first(), k - 1);
    }
    match s[k].1 {
        SelView::Field { selection_set, .. } => {},
        _ => {},
    }
}

pub open spec fn key_deferred(k: KeyView) -> bool {
    match k {
        KeyView::Field { deferred, .. } => deferred,
        KeyView::FragmentSpread { deferred, .. } => deferred,
        KeyView::InlineFragment { deferred, .. } => deferred,
    }
}

/// Two keys match when they are equal and not deferred (a deferred selection is never merged).
pub open spec fn key_matches(a: KeyView, b: KeyView) -> bool {
    a == b && !key_deferred(a)
}

/// The index of the first selection whose key matches `k`.
pub open spec fn find_key(acc: Seq<(KeyView, SelView)>, k: KeyView) -> Option<int>
    decreases acc.len(),
{
    if acc.len() == 0 {
        None
    } else if key_matches(acc[0].0, k) {
        Some(0)
    } else {
        match find_key(acc.drop_first(), k) {
            Some(i) => Some(i + 1),
            None => None,
        }
    }
}

pub proof fn lemma_find_key(acc: Seq<(KeyView, SelView)>, k: KeyView)
    ensures
        match find_key(acc, k) {
            Some(i) => 0 <= i < acc.len() && key_matches(acc[i].0, k) && forall|j: int|
                0 <= j < i ==> !key_matches(acc[j].0, k),
            None => forall|j: int| 0 <= j < acc.len() ==> !key_matches(acc[j].0, k),
        },
    decreases acc.len(),
{
    if acc.len() > 0 {
        lemma_find_key(acc.drop_first(), k);
        assert forall|j: int| 1 <= j < acc.len() implies acc[j] == acc.drop_first()[j - 1] by {}
    }
}

/// Merges the selections `pairs` into `acc`, in order: a selection whose key matches one in
/// `acc` is merged into it, any other goes last. `None` where two selections cannot be merged.
pub open spec fn merge_pairs(acc: Seq<(KeyView, SelView)>, pairs: Seq<(KeyView, SelView)>) -> Option<
    Seq<(KeyView, SelView)>,
>
    decreases size_pairs(pairs), 1int,
{
    if pairs.len() == 0 {
        Some(acc)
    } else {
        let p = pairs[0];
        match find_key(acc, p.0) {
            None => merge_pairs(acc.push(p), pairs.drop_first()),
            Some(i) => {
                if 0 <= i < acc.len() {
                    proof {
                        lemma_size_pairs_element(pairs, 0);
                    }
                    match merge_sel(acc[i].1, p.1) {
                        Some(m) => merge_pairs(acc.update(i, (acc[i].0, m)), pairs.drop_first()),
                        None => None,
                    }
                } else {
                    None
                }
            },
        }
    }
}

/// Merges a selection into another one with the same key: fields of the same position and
/// inline fragments of the same parent type merge their selection sets, fragment spreads are
/// kept as they are. `None` where they cannot be merged.
pub open spec fn merge_sel(a: SelView, b: SelView) -> Option<SelView>
    decreases size_sel(b), 0int,
{
    match (a, b) {
        (
            SelView::Field {
                parent: pa,
                name: na,
                alias,
                arguments,
                directives,
                selection_set: sa,
                sibling_typename,
            },
            SelView::Field { parent: pb, name: nb, selection_set: sb, .. },
        ) => {
            if pa != pb || na != nb {
                None
            } else {
                match (sa, sb) {
                    (Some(x), Some(y)) => match merge_set(x, y) {
                        Some(m) => Some(
                            SelView::Field {
                                parent: pa,
                                name: na,
                                alias,
                                arguments,
                                directives,
                                selection_set: Some(m),
                                sibling_typename,
                            },
                        ),
                        None => None,
                    },
                    (None, None) => Some(a),
                    _ => None,
                }
            }
        },
        (SelView::FragmentSpread { .. }, SelView::FragmentSpread { .. }) => Some(a),
        (
            SelView::InlineFragment { parent: pa, type_condition, directives, selection_set: x },
            SelView::InlineFragment { parent: pb, selection_set: y, .. },
        ) => {
            if pa != pb {
                None
            } else {
                match merge_set(x, y) {
                    Some(m) => Some(
                        SelView::InlineFragment {
                            parent: pa,
                            type_condition,
                            directives,
                            selection_set: m,
                        },
                    ),
                    None => None,
                }
            }
        },
        _ => None,
    }
}

/// Merges a selection set into another one of the same type; `None` where the types differ or
/// selections cannot be merged.
pub open spec fn merge_set(a: SetView, b: SetView) -> Option<SetView>
    decreases size_set(b), 2int,
{
    if a.ty != b.ty {
        None
    } else {
        match merge_pairs(a.selections, b.selections) {
            Some(r) => Some(SetView { ty: a.ty, selections: r }),
            None => None,
        }
    }
}

/// No two selections have matching keys.
pub open spec fn distinct_keys(s: Seq<(KeyView, SelView)>) -> bool {
    forall|i: int, j: int|
        0 <= i < s.len() && 0 <= j < s.len() && i != j ==> !key_matches(s[i].0, s[j].0)
}

/// Merging selections into a list without two matching keys gives a list without two matching
/// keys: a normalized selection set never holds two selections with the same key.
pub proof fn law_merge_keeps_keys_distinct(
    acc: Seq<(KeyView, SelView)>,
    pairs: Seq<(KeyView, SelView)>,
)
    requires
        distinct_keys(acc),
        merge_pairs(acc, pairs) is Some,
    ensures
        distinct_keys(merge_pairs(acc, pairs).unwrap()),
    decreases size_pairs(pairs),
{
    if pairs.len() > 0 {
        let p = pairs[0];
        lemma_find_key(acc, p.0);
        lemma_size_pairs_element(pairs, 0);
        match find_key(acc, p.0) {
            None => {
                let next = acc.push(p);
                assert forall|i: int, j: int|
                    0 <= i < next.len() && 0 <= j < next.len() && i != j implies !key_matches(
                    next[i].0,
                    next[j].0,
                ) by {
                    if i == acc.len() {
                        assert(!key_matches(acc[j].0, p.0));
                    } else if j == acc.len() {
                        assert(!key_matches(acc[i].0, p.0));
                    }
                }
                law_merge_keeps_keys_distinct(next, pairs.drop_first());
            },
            Some(i) => {
                let m = merge_sel(acc[i].1, p.1).unwrap();
                let next = acc.update(i, (acc[i].0, m));
                assert forall|x: int, y: int|
                    0 <= x < next.len() && 0 <= y < next.len() && x != y implies !key_matches(
                    next[x].0,
                    next[y].0,
                ) by {
                    assert(next[x].0 == acc[x].0);
                    assert(next[y].0 == acc[y].0);
                }
                law_merge_keeps_keys_distinct(next, pairs.drop_first());
            },
        }
    }
}


/// Whether two composite type positions are the same.
pub fn same_composite(a: &CompositeTypeDefinitionPosition, b: &CompositeTypeDefinitionPosition) -> (res:
    bool)
    ensures
        res == (composite_view(*a) == composite_view(*b)),
{
    match (a, b) {
        (CompositeTypeDefinitionPosition::Object(x), CompositeTypeDefinitionPosition::Object(y)) => *x
            == *y,
        (
            CompositeTypeDefinitionPosition::Interface(x),
            CompositeTypeDefinitionPosition::Interface(y),
        ) => *x == *y,
        (CompositeTypeDefinitionPosition::Union(x), CompositeTypeDefinitionPosition::Union(y)) => *x
            == *y,
        _ => false,
    }
}

fn opt_strings_equal(a: &Option<String>, b: &Option<String>) -> (res: bool)
    ensures
        res == (opt_str_view(*a) == opt_str_view(*b)),
{
    match (a, b) {
        (Some(x), Some(y)) => *x == *y,
        (None, None) => true,
        _ => false,
    }
}

/// Whether two keys match: they are equal and not deferred.
pub fn keys_match(a: &NormalizedSelectionKey, b: &NormalizedSelectionKey) -> (res: bool)
    ensures
        res == key_matches(key_view(*a), key_view(*b)),
{
    match (a, b) {
        (
            NormalizedSelectionKey::Field { response_name: n1, directives: d1, deferred_id: i1 },
            NormalizedSelectionKey::Field { response_name: n2, directives: d2, deferred_id: i2 },
        ) => i1.is_none() && i2.is_none() && *n1 == *n2 && directives_equal(d1, d2),
        (
            NormalizedSelectionKey::FragmentSpread { name: n1, directives: d1, deferred_id: i1 },
            NormalizedSelectionKey::FragmentSpread { name: n2, directives: d2, deferred_id: i2 },
        ) => i1.is_none() && i2.is_none() && *n1 == *n2 && directives_equal(d1, d2),
        (
            NormalizedSelectionKey::InlineFragment {
                type_condition: t1,
                directives: d1,
                deferred_id: i1,
            },
            NormalizedSelectionKey::InlineFragment {
                type_condition: t2,
                directives: d2,
                deferred_id: i2,
            },
        ) => i1.is_none() && i2.is_none() && opt_strings_equal(t1, t2) && directives_equal(d1, d2),
        _ => false,
    }
}

/// The index of the first selection whose key matches `k`.
pub fn find_key_index(acc: &Vec<(NormalizedSelectionKey, NormalizedSelection)>, k: &NormalizedSelectionKey) -> (res:
    Option<usize>)
    ensures
        match find_key(pairs_view(acc@), key_view(*k)) {
            Some(i) => res matches Some(r) && r as int == i,
            None => res is None,
        },
{
    proof {
        lemma_pairs_view(acc@);
        lemma_find_key(pairs_view(acc@), key_view(*k));
    }
    let mut i: usize = 0;
    while i < acc.len()
        invariant
            i <= acc@.len(),
            pairs_view(acc@).len() == acc@.len(),
            forall|j: int| 0 <= j < i ==> !key_matches(pairs_view(acc@)[j].0, key_view(*k)),
            match find_key(pairs_view(acc@), key_view(*k)) {
                Some(x) => 0 <= x < acc@.len() && key_matches(pairs_view(acc@)[x].0, key_view(*k))
                    && forall|j: int| 0 <= j < x ==> !key_matches(pairs_view(acc@)[j].0, key_view(*k)),
                None => forall|j: int| 0 <= j < acc@.len() ==> !key_matches(
                    pairs_view(acc@)[j].0,
                    key_view(*k),
                ),
            },
            forall|j: int|
                0 <= j < acc@.len() ==> #[trigger] pairs_view(acc@)[j] == (key_view(acc@[j].0), sel_view(
                    &acc@[j].1,
                )),
        decreases acc@.len() - i,
    {
        if keys_match(&acc[i].0, k) {
            assert(pairs_view(acc@)[i as int].0 == key_view(acc@[i as int].0));
            return Some(i);
        }
        assert(pairs_view(acc@)[i as int].0 == key_view(acc@[i as int].0));
        i = i + 1;
    }
    None
}

fn merge_error(what: &str) -> (res: FederationError)
    ensures
        is_internal(res),
{
    FederationError::internal(String::from_str(what))
}

/// Merges a selection into another one with the same key.
pub fn merge_selection(a: NormalizedSelection, b: NormalizedSelection) -> (res: Result<
    NormalizedSelection,
    FederationError,
>)
    ensures
        match merge_sel(sel_view(&a), sel_view(&b)) {
            Some(m) => res matches Ok(r) && sel_view(&r) == m,
            None => res matches Err(e) && is_internal(e),
        },
    decreases size_sel(sel_view(&b)), 0int,
{
    match (a, b) {
        (NormalizedSelection::Field(fa), NormalizedSelection::Field(fb)) => {
            let fa = *fa;
            let fb = *fb;
            if !same_composite(&fa.field.field_position.parent, &fb.field.field_position.parent)
                || !(fa.field.field_position.field_name == fb.field.field_position.field_name) {
                return Err(
                    merge_error("Cannot merge field selections of different field positions"),
                );
            }
            match (fa.selection_set, fb.selection_set) {
                (Some(x), Some(y)) => {
                    let m = merge_selection_sets(x, y)?;
                    Ok(
                        NormalizedSelection::Field(
                            Box::new(
                                NormalizedFieldSelection {
                                    field: fa.field,
                                    selection_set: Some(m),
                                    sibling_typename: fa.sibling_typename,
                                },
                            ),
                        ),
                    )
                },
                (None, None) => Ok(
                    NormalizedSelection::Field(
                        Box::new(
                            NormalizedFieldSelection {
                                field: fa.field,
                                selection_set: None,
                                sibling_typename: fa.sibling_typename,
                            },
                        ),
                    ),
                ),
                (Some(_), None) => Err(
                    merge_error("Field has composite type but not a selection set"),
                ),
                (None, Some(_)) => Err(
                    merge_error("Field has non-composite type but also has a selection set"),
                ),
            }
        },
        (NormalizedSelection::FragmentSpread(sa), NormalizedSelection::FragmentSpread(_)) => Ok(
            NormalizedSelection::FragmentSpread(sa),
        ),
        (NormalizedSelection::InlineFragment(ia), NormalizedSelection::InlineFragment(ib)) => {
            let ia = *ia;
            let ib = *ib;
            if !same_composite(
                &ia.inline_fragment.parent_type_position,
                &ib.inline_fragment.parent_type_position,
            ) {
                return Err(
                    merge_error("Cannot merge inline fragments of different parent types"),
                );
            }
            let m = merge_selection_sets(ia.selection_set, ib.selection_set)?;
            Ok(
                NormalizedSelection::InlineFragment(
                    Box::new(
                        NormalizedInlineFragmentSelection {
                            inline_fragment: ia.inline_fragment,
                            selection_set: m,
                        },
                    ),
                ),
            )
        },
        _ => Err(merge_error("Selection key references a selection of another kind")),
    }
}

/// Merges a selection set into another one of the same type.
pub fn merge_selection_sets(a: NormalizedSelectionSet, b: NormalizedSelectionSet) -> (res: Result<
    NormalizedSelectionSet,
    FederationError,
>)
    ensures
        match merge_set(set_view(&a), set_view(&b)) {
            Some(m) => res matches Ok(r) && set_view(&r) == m,
            None => res matches Err(e) && is_internal(e),
        },
    decreases size_set(set_view(&b)), 2int,
{
    if !same_composite(&a.type_position, &b.type_position) {
        return Err(merge_error("Cannot merge selection sets of different types"));
    }
    let mut selections = a.selections;
    merge_pairs_into(&mut selections, b.selections)?;
    Ok(NormalizedSelectionSet { type_position: a.type_position, selections })
}

/// Merges the selections `pairs` into `acc`, in order.
pub fn merge_pairs_into(
    acc: &mut Vec<(NormalizedSelectionKey, NormalizedSelection)>,
    pairs: Vec<(NormalizedSelectionKey, NormalizedSelection)>,
) -> (res: Result<(), FederationError>)
    ensures
        match merge_pairs(pairs_view(old(acc)@), pairs_view(pairs@)) {
            Some(m) => res is Ok && pairs_view(final(acc)@) == m,
            None => res matches Err(e) && is_internal(e),
        },
    decreases size_pairs(pairs_view(pairs@)), 1int,
{
    let ghost orig = pairs_view(pairs@);
    let ghost target = merge_pairs(pairs_view(acc@), orig);
    let mut rest = pairs;
    let ghost mut k: int = 0;
    proof {
        lemma_pairs_view(rest@);
        assert(orig.subrange(0, orig.len() as int) =~= orig);
    }
    while rest.len() > 0
        invariant
            0 <= k <= orig.len(),
            pairs_view(rest@) == orig.subrange(k, orig.len() as int),
            target == merge_pairs(pairs_view(acc@), pairs_view(rest@)),
            target == merge_pairs(pairs_view(old(acc)@), orig),
            orig == pairs_view(pairs@),
        decreases rest@.len(),
    {
        proof {
            lemma_pairs_view(rest@);
            lemma_pairs_view(acc@);
            lemma_size_pairs_element(orig, k);
            assert(orig[k] == pairs_view(rest@)[0]);
        }
        let ghost rest_view = pairs_view(rest@);
        let ghost acc_view = pairs_view(acc@);
        let p = rest.remove(0);
        proof {
            lemma_pairs_view(rest@);
            assert(pairs_view(rest@) =~= rest_view.drop_first());
            assert(rest_view.drop_first() =~= orig.subrange(k + 1, orig.len() as int));
            assert(rest_view[0] == (key_view(p.0), sel_view(&p.1)));
        }
        match find_key_index(acc, &p.0) {
            None => {
                acc.push(p);
                proof {
                    lemma_pairs_view(acc@);
                    assert(pairs_view(acc@) =~= acc_view.push(rest_view[0]));
                }
            },
            Some(i) => {
                proof {
                    lemma_find_key(acc_view, key_view(p.0));
                    assert(find_key(acc_view, key_view(p.0)) == Some(i as int));
                }
                let ghost acc_seq = acc@;
                let (key, existing) = acc.remove(i);
                proof {
                    assert(acc_view[i as int] == (key_view(acc_seq[i as int].0), sel_view(
                        &acc_seq[i as int].1,
                    )));
                    assert(acc_view[i as int].1 == sel_view(&existing));
                    assert(acc_view[i as int].0 == key_view(key));
                }
                let ghost pv = sel_view(&p.1);
                let merged = merge_selection(existing, p.1);
                match merged {
                    Ok(m) => {
                        acc.insert(i, (key, m));
                        proof {
                            lemma_pairs_view(acc@);
                            assert(merge_sel(acc_view[i as int].1, pv) == Some(sel_view(&m)));
                            assert(pairs_view(acc@) =~= acc_view.update(
                                i as int,
                                (acc_view[i as int].0, sel_view(&acc@[i as int].1)),
                            ));
                        }
                    },
                    Err(e) => {
                        assert(merge_sel(acc_view[i as int].1, pv) is None);
                        assert(rest_view.len() > 0);
                        assert(rest_view[0].0 == key_view(p.0));
                        assert(rest_view[0].1 == pv);
                        assert(find_key(acc_view, rest_view[0].0) == Some(i as int));
                        assert(merge_pairs(acc_view, rest_view) is None);
                        assert(target is None);
                        return Err(e);
                    },
                }
            },
        }
        proof {
            k = k + 1;
        }
    }
    Ok(())
}


// ----------------------------------------------------------------------------------------
// Selection keys
// ----------------------------------------------------------------------------------------

/// Inserts an argument into a list sorted by name, after the arguments whose name is not
/// greater than its own.
pub open spec fn insert_sorted(s: Seq<ArgumentView>, a: ArgumentView) -> Seq<ArgumentView>
    decreases s.len(),
{
    if s.len() == 0 {
        seq![a]
    } else if str_lt(a.name, s.last().name) {
        insert_sorted(s.drop_last(), a).push(s.last())
    } else {
        s.push(a)
    }
}

/// The arguments sorted by name (a stable sort).
pub open spec fn sort_arguments(s: Seq<ArgumentView>) -> Seq<ArgumentView>
    decreases s.len(),
{
    if s.len() == 0 {
        s
    } else {
        insert_sorted(sort_arguments(s.drop_last()), s.last())
    }
}

/// The directive applications with the arguments of each sorted by name.
pub open spec fn sorted_directives(ds: Seq<DirectiveView>) -> Seq<DirectiveView> {
    ds.map_values(|d: DirectiveView| DirectiveView { name: d.name, arguments: sort_arguments(d.arguments) })
}

/// Whether `@defer` is among the directive applications.
pub open spec fn has_defer(ds: Seq<DirectiveView>) -> bool {
    exists|i: int| 0 <= i < ds.len() && ds[i].name == "defer"@
}

proof fn lemma_insert_sorted(s: Seq<ArgumentView>, a: ArgumentView, p: int)
    requires
        0 <= p <= s.len(),
        forall|q: int| p <= q < s.len() ==> str_lt(a.name, s[q].name),
        p == 0 || !str_lt(a.name, s[p - 1].name),
    ensures
        insert_sorted(s, a) == s.take(p).push(a) + s.skip(p),
    decreases s.len(),
{
    if s.len() == 0 {
        assert(s.take(p).push(a) + s.skip(p) =~= seq![a]);
    } else if str_lt(a.name, s.last().name) {
        assert(p < s.len());
        lemma_insert_sorted(s.drop_last(), a, p);
        assert(s.drop_last().take(p).push(a) + s.drop_last().skip(p) + seq![s.last()] =~= s.take(
            p,
        ).push(a) + s.skip(p));
    } else {
        assert(p == s.len());
        assert(s.take(p).push(a) + s.skip(p) =~= s.push(a));
    }
}

fn clone_argument_list(args: &Vec<Argument>, i: usize) -> (res: Argument)
    requires
        i < args@.len(),
    ensures
        res@ == args@[i as int]@,
{
    args[i].clone()
}

/// The arguments sorted by name, stably.
pub fn sort_arguments_by_name(args: &Vec<Argument>) -> (res: Vec<Argument>)
    ensures
        arguments_view(res@) == sort_arguments(arguments_view(args@)),
{
    let ghost v = arguments_view(args@);
    let mut res: Vec<Argument> = Vec::new();
    let mut i: usize = 0;
    proof {
        assert(v.take(0) =~= Seq::<ArgumentView>::empty());
    }
    while i < args.len()
        invariant
            i <= args@.len(),
            v == arguments_view(args@),
            arguments_view(res@) == sort_arguments(v.take(i as int)),
        decreases args@.len() - i,
    {
        let a = clone_argument_list(args, i);
        let ghost rv = arguments_view(res@);
        let mut p: usize = res.len();
        loop
            invariant
                p <= res@.len(),
                rv == arguments_view(res@),
                forall|q: int| p <= q < rv.len() ==> str_lt(a@.name, rv[q].name),
            ensures
                p <= res@.len(),
                forall|q: int| p <= q < rv.len() ==> str_lt(a@.name, rv[q].name),
                p == 0 || !str_lt(a@.name, rv[p - 1].name),
            decreases p,
        {
            if p == 0 {
                break;
            }
            if !string_lt(&a.name, &res[p - 1].name) {
                break;
            }
            p = p - 1;
        }
        proof {
            lemma_insert_sorted(rv, a@, p as int);
            assert(v.take(i as int + 1).drop_last() =~= v.take(i as int));
            assert(v.take(i as int + 1).last() == a@);
        }
        res.insert(p, a);
        proof {
            assert(arguments_view(res@) =~= rv.take(p as int).push(a@) + rv.skip(p as int));
        }
        i = i + 1;
    }
    proof {
        assert(v.take(args@.len() as int) =~= v);
    }
    res
}

/// The directive applications, with the arguments of each sorted by name.
pub fn directives_with_sorted_arguments(directives: &Vec<Directive>) -> (res: Vec<Directive>)
    ensures
        directives_view(res@) == sorted_directives(directives_view(directives@)),
{
    let mut res: Vec<Directive> = Vec::new();
    let mut i: usize = 0;
    while i < directives.len()
        invariant
            i <= directives@.len(),
            res@.len() == i,
            forall|j: int|
                0 <= j < i ==> res@[j]@ == (DirectiveView {
                    name: directives@[j]@.name,
                    arguments: sort_arguments(directives@[j]@.arguments),
                }),
        decreases directives@.len() - i,
    {
        let arguments = sort_arguments_by_name(&directives[i].arguments);
        res.push(Directive { name: directives[i].name.clone(), arguments });
        i = i + 1;
    }
    assert(directives_view(res@) =~= sorted_directives(directives_view(directives@)));
    res
}

/// Whether `@defer` is applied (the selection is then never merged with another one).
pub fn is_deferred_selection(directives: &Vec<Directive>) -> (res: bool)
    ensures
        res == has_defer(directives_view(directives@)),
{
    let r = directives_has(directives, "defer");
    proof {
        if r {
            let i = choose|i: int| 0 <= i < directives@.len() && directives@[i].name@ == "defer"@;
            assert(directives_view(directives@)[i].name == "defer"@);
        }
        if has_defer(directives_view(directives@)) {
            let i = choose|i: int|
                0 <= i < directives_view(directives@).len() && directives_view(directives@)[i].name
                    == "defer"@;
            assert(directives@[i].name@ == "defer"@);
        }
    }
    r
}


// ----------------------------------------------------------------------------------------
// Normalization
// ----------------------------------------------------------------------------------------

/// The composite position of the type named `name`: `None` where the schema does not define
/// it, `Some(None)` where it is not composite.
pub open spec fn composite_lookup(schema: Schema, name: Seq<char>) -> Option<Option<CompositeView>> {
    match type_kind_of(schema, name) {
        None => None,
        Some(TypeKind::Object) => Some(Some(CompositeView::Object(name))),
        Some(TypeKind::Interface) => Some(Some(CompositeView::Interface(name))),
        Some(TypeKind::Union) => Some(Some(CompositeView::Union(name))),
        Some(_) => Some(None),
    }
}

/// The index of the first fragment named `name`.
pub open spec fn fragment_index(fragments: Seq<Fragment>, name: Seq<char>) -> Option<int>
    decreases fragments.len(),
{
    if fragments.len() == 0 {
        None
    } else if fragments[0].name@ == name {
        Some(0)
    } else {
        match fragment_index(fragments.drop_first(), name) {
            Some(i) => Some(i + 1),
            None => None,
        }
    }
}

pub proof fn lemma_fragment_index(fragments: Seq<Fragment>, name: Seq<char>)
    ensures
        match fragment_index(fragments, name) {
            Some(i) => 0 <= i < fragments.len() && fragments[i].name@ == name && forall|j: int|
                0 <= j < i ==> fragments[j].name@ != name,
            None => forall|j: int| 0 <= j < fragments.len() ==> fragments[j].name@ != name,
        },
    decreases fragments.len(),
{
    if fragments.len() > 0 {
        lemma_fragment_index(fragments.drop_first(), name);
        assert forall|j: int| 1 <= j < fragments.len() implies fragments[j]
            == fragments.drop_first()[j - 1] by {}
    }
}

/// The key of a field selection.
pub open spec fn field_key(f: Field) -> KeyView {
    KeyView::Field {
        response_name: match f.alias {
            Some(a) => a@,
            None => f.name@,
        },
        directives: sorted_directives(directives_view(f.directives@)),
        deferred: has_defer(directives_view(f.directives@)),
    }
}

/// The key of an inline fragment selection with the given type condition and directives.
pub open spec fn inline_key(type_condition: Option<Seq<char>>, directives: Seq<Directive>) -> KeyView {
    KeyView::InlineFragment {
        type_condition,
        directives: sorted_directives(directives_view(directives)),
        deferred: has_defer(directives_view(directives)),
    }
}

/// Normalizes a selection set: its type must be a composite type of the schema; its
/// selections are expanded (see [`expand_upto`]) and then merged by key. `fuel` bounds the
/// nesting of fragment expansions. `None` stands for an error.
pub open spec fn normalize_set(
    ss: SelectionSet,
    fragments: Seq<Fragment>,
    schema: Schema,
    inline_spreads: bool,
    fuel: nat,
) -> Option<SetView>
    decreases fuel, ss, 0int,
{
    match composite_lookup(schema, ss.ty@) {
        Some(Some(tp)) => match expand_upto(
            ss.selections@,
            ss.selections@.len() as int,
            tp,
            fragments,
            schema,
            inline_spreads,
            fuel,
        ) {
            Some(pairs) => match merge_pairs(Seq::empty(), pairs) {
                Some(r) => Some(SetView { ty: tp, selections: r }),
                None => None,
            },
            None => None,
        },
        _ => None,
    }
}

/// The keyed selections that the first `i` selections of `sels` expand to, in order.
pub open spec fn expand_upto(
    sels: Seq<Selection>,
    i: int,
    parent: CompositeView,
    fragments: Seq<Fragment>,
    schema: Schema,
    inline_spreads: bool,
    fuel: nat,
) -> Option<Seq<(KeyView, SelView)>>
    decreases fuel, sels, i,
{
    if i <= 0 || i > sels.len() {
        Some(Seq::empty())
    } else {
        match expand_upto(sels, i - 1, parent, fragments, schema, inline_spreads, fuel) {
            Some(prefix) => match expand_one(
                sels[i - 1],
                parent,
                fragments,
                schema,
                inline_spreads,
                fuel,
            ) {
                Some(ps) => Some(prefix + ps),
                None => None,
            },
            None => None,
        }
    }
}

/// The keyed selections that one selection expands to:
/// - a `__schema` or `__type` field: none;
/// - another field: itself, with its selection set normalized where its type is composite
///   (an error where the parent type has no such field or its type is unknown);
/// - a fragment spread (an error where the fragment is unknown): itself, unless spreads are
///   inlined; then the fragment's selections where the fragment is on the parent type and the
///   spread has no directives, else an inline fragment on the fragment's type condition;
/// - an inline fragment: its selections where it is on the parent type (or has no type
///   condition) and has no directives, else itself with its selection set normalized.
pub open spec fn expand_one(
    sel: Selection,
    parent: CompositeView,
    fragments: Seq<Fragment>,
    schema: Schema,
    inline_spreads: bool,
    fuel: nat,
) -> Option<Seq<(KeyView, SelView)>>
    decreases fuel, sel, 0int,
{
    match sel {
        Selection::Field(f) => {
            if f.name@ == "__schema"@ || f.name@ == "__type"@ {
                Some(Seq::empty())
            } else if !has_field(schema, composite_name(parent), f.name@) {
                None
            } else {
                match composite_lookup(schema, f.selection_set.ty@) {
                    None => None,
                    Some(None) => Some(
                        seq![
                            (
                                field_key(f),
                                SelView::Field {
                                    parent,
                                    name: f.name@,
                                    alias: opt_str_view(f.alias),
                                    arguments: arguments_view(f.arguments@),
                                    directives: directives_view(f.directives@),
                                    selection_set: None,
                                    sibling_typename: None,
                                },
                            ),
                        ],
                    ),
                    Some(Some(_)) => match normalize_set(
                        f.selection_set,
                        fragments,
                        schema,
                        inline_spreads,
                        fuel,
                    ) {
                        Some(sv) => Some(
                            seq![
                                (
                                    field_key(f),
                                    SelView::Field {
                                        parent,
                                        name: f.name@,
                                        alias: opt_str_view(f.alias),
                                        arguments: arguments_view(f.arguments@),
                                        directives: directives_view(f.directives@),
                                        selection_set: Some(sv),
                                        sibling_typename: None,
                                    },
                                ),
                            ],
                        ),
                        None => None,
                    },
                }
            }
        },
        Selection::FragmentSpread(s) => match fragment_index(fragments, s.fragment_name@) {
            None => None,
            Some(fi) => {
                if !inline_spreads {
                    Some(
                        seq![
                            (
                                KeyView::FragmentSpread {
                                    name: s.fragment_name@,
                                    directives: sorted_directives(directives_view(s.directives@)),
                                    deferred: has_defer(directives_view(s.directives@)),
                                },
                                SelView::FragmentSpread {
                                    fragment_name: s.fragment_name@,
                                    directives: directives_view(s.directives@),
                                },
                            ),
                        ],
                    )
                } else if fuel == 0 || fi < 0 || fi >= fragments.len() {
                    None
                } else {
                    let frag = fragments[fi];
                    if frag.selection_set.ty@ == composite_name(parent) && s.directives@.len()
                        == 0 {
                        expand_upto(
                            frag.selection_set.selections@,
                            frag.selection_set.selections@.len() as int,
                            parent,
                            fragments,
                            schema,
                            inline_spreads,
                            (fuel - 1) as nat,
                        )
                    } else {
                        match composite_lookup(schema, frag.selection_set.ty@) {
                            Some(Some(tc)) => match normalize_set(
                                frag.selection_set,
                                fragments,
                                schema,
                                true,
                                (fuel - 1) as nat,
                            ) {
                                Some(sv) => Some(
                                    seq![
                                        (
                                            inline_key(Some(composite_name(tc)), s.directives@),
                                            SelView::InlineFragment {
                                                parent,
                                                type_condition: Some(tc),
                                                directives: directives_view(s.directives@),
                                                selection_set: sv,
                                            },
                                        ),
                                    ],
                                ),
                                None => None,
                            },
                            _ => None,
                        }
                    }
                }
            },
        },
        Selection::InlineFragment(i) => {
            let on_parent = match i.type_condition {
                None => true,
                Some(tc) => tc@ == composite_name(parent),
            };
            if on_parent && i.directives@.len() == 0 {
                expand_upto(
                    i.selection_set.selections@,
                    i.selection_set.selections@.len() as int,
                    parent,
                    fragments,
                    schema,
                    inline_spreads,
                    fuel,
                )
            } else {
                let tc_pos: Option<Option<CompositeView>> = match i.type_condition {
                    None => Some(None),
                    Some(tc) => match composite_lookup(schema, tc@) {
                        Some(Some(c)) => Some(Some(c)),
                        _ => None,
                    },
                };
                match tc_pos {
                    None => None,
                    Some(tcp) => match normalize_set(
                        i.selection_set,
                        fragments,
                        schema,
                        inline_spreads,
                        fuel,
                    ) {
                        Some(sv) => Some(
                            seq![
                                (
                                    inline_key(opt_str_view(i.type_condition), i.directives@),
                                    SelView::InlineFragment {
                                        parent,
                                        type_condition: tcp,
                                        directives: directives_view(i.directives@),
                                        selection_set: sv,
                                    },
                                ),
                            ],
                        ),
                        None => None,
                    },
                }
            }
        },
    }
}


/// A copy of a composite type position.
pub fn copy_position(p: &CompositeTypeDefinitionPosition) -> (res: CompositeTypeDefinitionPosition)
    ensures
        composite_view(res) == composite_view(*p),
{
    match p {
        CompositeTypeDefinitionPosition::Object(n) => CompositeTypeDefinitionPosition::Object(n.clone()),
        CompositeTypeDefinitionPosition::Interface(n) => CompositeTypeDefinitionPosition::Interface(
            n.clone(),
        ),
        CompositeTypeDefinitionPosition::Union(n) => CompositeTypeDefinitionPosition::Union(n.clone()),
    }
}

fn opt_string_clone(o: &Option<String>) -> (res: Option<String>)
    ensures
        opt_str_view(res) == opt_str_view(*o),
{
    match o {
        Some(s) => Some(s.clone()),
        None => None,
    }
}

/// The composite position of the type named `name`: an internal error where the schema does
/// not define it, `None` where it is not composite.
pub fn lookup_composite(schema: &Schema, name: &String) -> (res: Result<
    Option<CompositeTypeDefinitionPosition>,
    FederationError,
>)
    ensures
        match composite_lookup(*schema, name@) {
            None => res matches Err(e) && is_internal(e),
            Some(None) => res matches Ok(None),
            Some(Some(c)) => res matches Ok(Some(r)) && composite_view(r) == c,
        },
{
    match schema.type_kind(name.as_str()) {
        None => Err(FederationError::internal(String::from_str("Cannot find type in schema"))),
        Some(TypeKind::Object) => Ok(Some(CompositeTypeDefinitionPosition::Object(name.clone()))),
        Some(TypeKind::Interface) => Ok(
            Some(CompositeTypeDefinitionPosition::Interface(name.clone())),
        ),
        Some(TypeKind::Union) => Ok(Some(CompositeTypeDefinitionPosition::Union(name.clone()))),
        Some(_) => Ok(None),
    }
}

/// The index of the first fragment named `name`.
pub fn find_fragment(fragments: &Vec<Fragment>, name: &String) -> (res: Option<usize>)
    ensures
        match fragment_index(fragments@, name@) {
            Some(i) => res matches Some(r) && r as int == i,
            None => res is None,
        },
{
    proof {
        lemma_fragment_index(fragments@, name@);
    }
    let mut i: usize = 0;
    while i < fragments.len()
        invariant
            i <= fragments@.len(),
            forall|j: int| 0 <= j < i ==> fragments@[j].name@ != name@,
            match fragment_index(fragments@, name@) {
                Some(x) => 0 <= x < fragments@.len() && fragments@[x].name@ == name@ && forall|
                    j: int,
                | 0 <= j < x ==> fragments@[j].name@ != name@,
                None => forall|j: int| 0 <= j < fragments@.len() ==> fragments@[j].name@ != name@,
            },
        decreases fragments@.len() - i,
    {
        if fragments[i].name == *name {
            return Some(i);
        }
        i = i + 1;
    }
    None
}

proof fn lemma_composite_name(p: CompositeTypeDefinitionPosition)
    ensures
        composite_name(composite_view(p)) == p.spec_name_of_type(),
{
}

proof fn lemma_expand_upto_none(
    sels: Seq<Selection>,
    i: int,
    n: int,
    parent: CompositeView,
    fragments: Seq<Fragment>,
    schema: Schema,
    inline_spreads: bool,
    fuel: nat,
)
    requires
        0 < i <= n <= sels.len(),
        expand_upto(sels, i, parent, fragments, schema, inline_spreads, fuel) is None,
    ensures
        expand_upto(sels, n, parent, fragments, schema, inline_spreads, fuel) is None,
    decreases n - i,
{
    if n > i {
        lemma_expand_upto_none(sels, i, n - 1, parent, fragments, schema, inline_spreads, fuel);
    }
}

proof fn lemma_push_view(
    dest: Seq<(NormalizedSelectionKey, NormalizedSelection)>,
    x: (NormalizedSelectionKey, NormalizedSelection),
)
    ensures
        pairs_view(dest.push(x)) == pairs_view(dest).push((key_view(x.0), sel_view(&x.1))),
{
    assert(dest.push(x).drop_last() =~= dest);
}

/// Normalizes a selection set: merges selections with the same key, expands fragment spreads
/// into inline fragments (where `inline_fragment_spreads`), removes `__schema`/`__type`
/// fields, and hoists fragments on the parent type without directives into their parent.
pub fn normalize_selection_set(
    ss: &SelectionSet,
    fragments: &Vec<Fragment>,
    schema: &Schema,
    inline_fragment_spreads: bool,
    fuel: usize,
    ids: &mut SelectionIdGenerator,
) -> (res: Result<NormalizedSelectionSet, FederationError>)
    ensures
        match normalize_set(*ss, fragments@, *schema, inline_fragment_spreads, fuel as nat) {
            Some(v) => res matches Ok(r) && set_view(&r) == v,
            None => res matches Err(e) && is_internal(e),
        },
    decreases fuel, ss, 0int,
{
    let tp = match lookup_composite(schema, &ss.ty)? {
        Some(tp) => tp,
        None => {
            return Err(
                FederationError::internal(
                    String::from_str("Selection set type is not a composite type"),
                ),
            );
        },
    };
    let mut pairs: Vec<(NormalizedSelectionKey, NormalizedSelection)> = Vec::new();
    normalize_selections(
        &ss.selections,
        &tp,
        fragments,
        schema,
        inline_fragment_spreads,
        fuel,
        ids,
        &mut pairs,
    )?;
    proof {
        assert(pairs_view(Seq::<(NormalizedSelectionKey, NormalizedSelection)>::empty())
            =~= Seq::<(KeyView, SelView)>::empty());
        assert(Seq::<(KeyView, SelView)>::empty() + pairs_view(pairs@) =~= pairs_view(pairs@));
    }
    let mut merged: Vec<(NormalizedSelectionKey, NormalizedSelection)> = Vec::new();
    merge_pairs_into(&mut merged, pairs)?;
    Ok(NormalizedSelectionSet { type_position: tp, selections: merged })
}

/// Expands the selections `sels` (see [`expand_upto`]) onto the end of `dest`.
pub fn normalize_selections(
    sels: &Vec<Selection>,
    parent: &CompositeTypeDefinitionPosition,
    fragments: &Vec<Fragment>,
    schema: &Schema,
    inline_fragment_spreads: bool,
    fuel: usize,
    ids: &mut SelectionIdGenerator,
    dest: &mut Vec<(NormalizedSelectionKey, NormalizedSelection)>,
) -> (res: Result<(), FederationError>)
    ensures
        match expand_upto(
            sels@,
            sels@.len() as int,
            composite_view(*parent),
            fragments@,
            *schema,
            inline_fragment_spreads,
            fuel as nat,
        ) {
            Some(ps) => res is Ok && pairs_view(final(dest)@) == pairs_view(old(dest)@) + ps,
            None => res matches Err(e) && is_internal(e),
        },
    decreases fuel, sels@, sels@.len() as int,
{
    let ghost start = pairs_view(dest@);
    let mut i: usize = 0;
    proof {
        assert(start + Seq::<(KeyView, SelView)>::empty() =~= start);
    }
    while i < sels.len()
        invariant
            i <= sels@.len(),
            start == pairs_view(old(dest)@),
            expand_upto(
                sels@,
                i as int,
                composite_view(*parent),
                fragments@,
                *schema,
                inline_fragment_spreads,
                fuel as nat,
            ) matches Some(prefix) && pairs_view(dest@) == start + prefix,
        decreases sels@.len() - i,
    {
        let ghost before = pairs_view(dest@);
        proof {
            assert(decreases_to!(sels@ => sels@[i as int]));
        }
        let r = expand_selection(
            &sels[i],
            parent,
            fragments,
            schema,
            inline_fragment_spreads,
            fuel,
            ids,
            dest,
        );
        match r {
            Ok(()) => {
                proof {
                    let prefix = expand_upto(
                        sels@,
                        i as int,
                        composite_view(*parent),
                        fragments@,
                        *schema,
                        inline_fragment_spreads,
                        fuel as nat,
                    ).unwrap();
                    let ps = expand_one(
                        sels@[i as int],
                        composite_view(*parent),
                        fragments@,
                        *schema,
                        inline_fragment_spreads,
                        fuel as nat,
                    ).unwrap();
                    assert(pairs_view(dest@) =~= start + (prefix + ps));
                }
            },
            Err(e) => {
                proof {
                    lemma_expand_upto_none(
                        sels@,
                        i as int + 1,
                        sels@.len() as int,
                        composite_view(*parent),
                        fragments@,
                        *schema,
                        inline_fragment_spreads,
                        fuel as nat,
                    );
                }
                return Err(e);
            },
        }
        i = i + 1;
    }
    Ok(())
}

/// Expands one selection (see [`expand_one`]) onto the end of `dest`.
pub fn expand_selection(
    sel: &Selection,
    parent: &CompositeTypeDefinitionPosition,
    fragments: &Vec<Fragment>,
    schema: &Schema,
    inline_fragment_spreads: bool,
    fuel: usize,
    ids: &mut SelectionIdGenerator,
    dest: &mut Vec<(NormalizedSelectionKey, NormalizedSelection)>,
) -> (res: Result<(), FederationError>)
    ensures
        match expand_one(
            *sel,
            composite_view(*parent),
            fragments@,
            *schema,
            inline_fragment_spreads,
            fuel as nat,
        ) {
            Some(ps) => res is Ok && pairs_view(final(dest)@) == pairs_view(old(dest)@) + ps,
            None => res matches Err(e) && is_internal(e),
        },
    decreases fuel, sel, 0int,
{
    proof {
        reveal_strlit("__schema");
        reveal_strlit("__type");
    }
    match sel {
        Selection::Field(f) => {
            if str_eq(&f.name, "__schema") || str_eq(&f.name, "__type") {
                proof {
                    assert(pairs_view(dest@) + Seq::<(KeyView, SelView)>::empty() =~= pairs_view(
                        dest@,
                    ));
                }
                return Ok(());
            }
            if !schema.has_field(parent.name_of_type().as_str(), f.name.as_str()) {
                return Err(FederationError::internal(String::from_str("Cannot find field in type")));
            }
            let field_type = lookup_composite(schema, &f.selection_set.ty)?;
            let selection_id = SelectionId::new(ids);
            let selection_set = match field_type {
                Some(_) => Some(
                    normalize_selection_set(
                        &f.selection_set,
                        fragments,
                        schema,
                        inline_fragment_spreads,
                        fuel,
                        ids,
                    )?,
                ),
                None => None,
            };
            let deferred_id = if is_deferred_selection(&f.directives) {
                Some(selection_id.copy())
            } else {
                None
            };
            let response_name = match &f.alias {
                Some(a) => a.clone(),
                None => f.name.clone(),
            };
            let key = NormalizedSelectionKey::Field {
                response_name,
                directives: directives_with_sorted_arguments(&f.directives),
                deferred_id,
            };
            let field = NormalizedField {
                field_position: FieldDefinitionPosition {
                    parent: copy_position(parent),
                    field_name: f.name.clone(),
                },
                alias: opt_string_clone(&f.alias),
                arguments: clone_arguments(&f.arguments),
                directives: clone_directives(&f.directives),
                selection_id,
            };
            let x = (
                key,
                NormalizedSelection::Field(
                    Box::new(NormalizedFieldSelection { field, selection_set, sibling_typename: None }),
                ),
            );
            proof {
                lemma_push_view(dest@, x);
            }
            dest.push(x);
            proof {
                assert(pairs_view(dest@) =~= pairs_view(old(dest)@) + seq![
                    (key_view(x.0), sel_view(&x.1)),
                ]);
            }
            Ok(())
        },
        Selection::FragmentSpread(s) => {
            let fi = match find_fragment(fragments, &s.fragment_name) {
                Some(fi) => fi,
                None => {
                    return Err(
                        FederationError::internal(
                            String::from_str("Fragment spread referenced non-existent fragment"),
                        ),
                    );
                },
            };
            if !inline_fragment_spreads {
                let selection_id = SelectionId::new(ids);
                let deferred_id = if is_deferred_selection(&s.directives) {
                    Some(selection_id.copy())
                } else {
                    None
                };
                let key = NormalizedSelectionKey::FragmentSpread {
                    name: s.fragment_name.clone(),
                    directives: directives_with_sorted_arguments(&s.directives),
                    deferred_id,
                };
                let x = (
                    key,
                    NormalizedSelection::FragmentSpread(
                        Box::new(
                            NormalizedFragmentSpreadSelection {
                                fragment_name: s.fragment_name.clone(),
                                directives: clone_directives(&s.directives),
                                selection_id,
                            },
                        ),
                    ),
                );
                proof {
                    lemma_push_view(dest@, x);
                }
                dest.push(x);
                proof {
                    assert(pairs_view(dest@) =~= pairs_view(old(dest)@) + seq![
                        (key_view(x.0), sel_view(&x.1)),
                    ]);
                }
                return Ok(());
            }
            if fuel == 0 {
                return Err(
                    FederationError::internal(
                        String::from_str("Fragment spreads nest deeper than there are fragments"),
                    ),
                );
            }
            proof {
                lemma_fragment_index(fragments@, s.fragment_name@);
                lemma_composite_name(*parent);
            }
            let frag = &fragments[fi];
            if frag.selection_set.ty == *parent.name_of_type() && s.directives.len() == 0 {
                assert(((fuel - 1) as usize) as nat == (fuel as nat - 1) as nat);
                return normalize_selections(
                    &frag.selection_set.selections,
                    parent,
                    fragments,
                    schema,
                    inline_fragment_spreads,
                    fuel - 1,
                    ids,
                    dest,
                );
            }
            let tc = match lookup_composite(schema, &frag.selection_set.ty)? {
                Some(tc) => tc,
                None => {
                    return Err(
                        FederationError::internal(
                            String::from_str("Fragment type condition is not a composite type"),
                        ),
                    );
                },
            };
            let selection_id = SelectionId::new(ids);
            let sub = normalize_selection_set(
                &frag.selection_set,
                fragments,
                schema,
                true,
                fuel - 1,
                ids,
            )?;
            let deferred_id = if is_deferred_selection(&s.directives) {
                Some(selection_id.copy())
            } else {
                None
            };
            let key = NormalizedSelectionKey::InlineFragment {
                type_condition: Some(tc.name_of_type().clone()),
                directives: directives_with_sorted_arguments(&s.directives),
                deferred_id,
            };
            let x = (
                key,
                NormalizedSelection::InlineFragment(
                    Box::new(
                        NormalizedInlineFragmentSelection {
                            inline_fragment: NormalizedInlineFragment {
                                parent_type_position: copy_position(parent),
                                type_condition_position: Some(tc),
                                directives: clone_directives(&s.directives),
                                selection_id,
                            },
                            selection_set: sub,
                        },
                    ),
                ),
            );
            proof {
                lemma_push_view(dest@, x);
            }
            dest.push(x);
            proof {
                assert(pairs_view(dest@) =~= pairs_view(old(dest)@) + seq![
                    (key_view(x.0), sel_view(&x.1)),
                ]);
            }
            Ok(())
        },
        Selection::InlineFragment(i) => {
            proof {
                lemma_composite_name(*parent);
            }
            let on_parent = match &i.type_condition {
                None => true,
                Some(tc) => *tc == *parent.name_of_type(),
            };
            if on_parent && i.directives.len() == 0 {
                return normalize_selections(
                    &i.selection_set.selections,
                    parent,
                    fragments,
                    schema,
                    inline_fragment_spreads,
                    fuel,
                    ids,
                    dest,
                );
            }
            let tc_pos = match &i.type_condition {
                None => None,
                Some(tc) => match lookup_composite(schema, tc)? {
                    Some(c) => Some(c),
                    None => {
                        return Err(
                            FederationError::internal(
                                String::from_str("Type condition is not a composite type"),
                            ),
                        );
                    },
                },
            };
            let selection_id = SelectionId::new(ids);
            let sub = normalize_selection_set(
                &i.selection_set,
                fragments,
                schema,
                inline_fragment_spreads,
                fuel,
                ids,
            )?;
            let deferred_id = if is_deferred_selection(&i.directives) {
                Some(selection_id.copy())
            } else {
                None
            };
            let key = NormalizedSelectionKey::InlineFragment {
                type_condition: opt_string_clone(&i.type_condition),
                directives: directives_with_sorted_arguments(&i.directives),
                deferred_id,
            };
            let x = (
                key,
                NormalizedSelection::InlineFragment(
                    Box::new(
                        NormalizedInlineFragmentSelection {
                            inline_fragment: NormalizedInlineFragment {
                                parent_type_position: copy_position(parent),
                                type_condition_position: tc_pos,
                                directives: clone_directives(&i.directives),
                                selection_id,
                            },
                            selection_set: sub,
                        },
                    ),
                ),
            );
            proof {
                lemma_push_view(dest@, x);
            }
            dest.push(x);
            proof {
                assert(pairs_view(dest@) =~= pairs_view(old(dest)@) + seq![
                    (key_view(x.0), sel_view(&x.1)),
                ]);
            }
            Ok(())
        },
    }
}


// ----------------------------------------------------------------------------------------
// Sibling `__typename` optimization
// ----------------------------------------------------------------------------------------

pub open spec fn is_field_view(s: SelView) -> bool {
    s is Field
}

pub open spec fn is_typename_field(s: SelView) -> bool {
    s matches SelView::Field { name, .. } && name == "__typename"@
}

/// The response name of a field: its alias, else its name.
pub open spec fn response_name_view(s: SelView) -> Seq<char> {
    match s {
        SelView::Field { name, alias, .. } => match alias {
            Some(a) => a,
            None => name,
        },
        _ => Seq::empty(),
    }
}

/// The index of the first `__typename` field, unless the type is an interface object.
pub open spec fn first_typename(sels: Seq<(KeyView, SelView)>, from: int) -> Option<int>
    decreases sels.len() - from,
{
    if from < 0 || from >= sels.len() {
        None
    } else if is_typename_field(sels[from].1) {
        Some(from)
    } else {
        first_typename(sels, from + 1)
    }
}

/// The index of the first field other than the one at `t`.
pub open spec fn first_sibling(sels: Seq<(KeyView, SelView)>, t: Option<int>, from: int) -> Option<int>
    decreases sels.len() - from,
{
    if from < 0 || from >= sels.len() {
        None
    } else if is_field_view(sels[from].1) && t != Some(from) {
        Some(from)
    } else {
        first_sibling(sels, t, from + 1)
    }
}

pub open spec fn with_sibling_typename(s: SelView, typename: Seq<char>) -> SelView {
    match s {
        SelView::Field { parent, name, alias, arguments, directives, selection_set, .. } => SelView::Field {
            parent,
            name,
            alias,
            arguments,
            directives,
            selection_set,
            sibling_typename: Some(typename),
        },
        _ => s,
    }
}

/// Folds the first `__typename` field of a selection set (unless it is an interface object's)
/// into the first other field, recursively; `None` where a fragment spread remains.
pub open spec fn optimize_set(s: SetView, interface_objects: Seq<Seq<char>>) -> Option<SetView>
    decreases s, 0int,
{
    match optimize_pairs(s.selections, interface_objects) {
        None => None,
        Some(sels) => {
            let t = if interface_objects.contains(composite_name(s.ty)) {
                None
            } else {
                first_typename(sels, 0)
            };
            match (t, first_sibling(sels, t, 0)) {
                (Some(ti), Some(si)) => Some(
                    SetView {
                        ty: s.ty,
                        selections: sels.update(
                            si,
                            (sels[si].0, with_sibling_typename(sels[si].1, response_name_view(sels[ti].1))),
                        ).remove(ti),
                    },
                ),
                _ => Some(SetView { ty: s.ty, selections: sels }),
            }
        },
    }
}

pub open spec fn optimize_pairs(ps: Seq<(KeyView, SelView)>, interface_objects: Seq<Seq<char>>) -> Option<
    Seq<(KeyView, SelView)>,
>
    decreases ps, 1int,
{
    if ps.len() == 0 {
        Some(ps)
    } else {
        match (
            optimize_pairs(ps.drop_last(), interface_objects),
            optimize_sel(ps.last().1, interface_objects),
        ) {
            (Some(a), Some(b)) => Some(a.push((ps.last().0, b))),
            _ => None,
        }
    }
}

pub open spec fn optimize_sel(s: SelView, interface_objects: Seq<Seq<char>>) -> Option<SelView>
    decreases s, 0int,
{
    match s {
        SelView::Field { parent, name, alias, arguments, directives, selection_set, sibling_typename } => {
            match selection_set {
                Some(ss) => match optimize_set(ss, interface_objects) {
                    Some(o) => Some(
                        SelView::Field {
                            parent,
                            name,
                            alias,
                            arguments,
                            directives,
                            selection_set: Some(o),
                            sibling_typename,
                        },
                    ),
                    None => None,
                },
                None => Some(s),
            }
        },
        SelView::InlineFragment { parent, type_condition, directives, selection_set } => match optimize_set(
            selection_set,
            interface_objects,
        ) {
            Some(o) => Some(
                SelView::InlineFragment { parent, type_condition, directives, selection_set: o },
            ),
            None => None,
        },
        SelView::FragmentSpread { .. } => None,
    }
}

pub open spec fn names_view(v: Seq<String>) -> Seq<Seq<char>> {
    v.map_values(|s: String| s@)
}

fn contains_name(names: &Vec<String>, name: &String) -> (res: bool)
    ensures
        res == names_view(names@).contains(name@),
{
    let mut i: usize = 0;
    while i < names.len()
        invariant
            i <= names@.len(),
            forall|j: int| 0 <= j < i ==> names@[j]@ != name@,
        decreases names@.len() - i,
    {
        if names[i] == *name {
            assert(names_view(names@)[i as int] == name@);
            return true;
        }
        i = i + 1;
    }
    proof {
        if names_view(names@).contains(name@) {
            let j = choose|j: int| 0 <= j < names_view(names@).len() && names_view(names@)[j] == name@;
            assert(names@[j]@ == name@);
        }
    }
    false
}

fn is_typename_selection(s: &NormalizedSelection) -> (res: bool)
    ensures
        res == is_typename_field(sel_view(s)),
{
    proof {
        reveal_strlit("__typename");
    }
    match s {
        NormalizedSelection::Field(f) => str_eq(&f.field.field_position.field_name, "__typename"),
        _ => false,
    }
}

fn is_field_selection(s: &NormalizedSelection) -> (res: bool)
    ensures
        res == is_field_view(sel_view(s)),
{
    match s {
        NormalizedSelection::Field(_) => true,
        _ => false,
    }
}

pub(crate) proof fn lemma_first_typename(sels: Seq<(KeyView, SelView)>, from: int)
    requires
        0 <= from,
    ensures
        first_typename(sels, from) matches Some(t) ==> from <= t < sels.len() && is_typename_field(
            sels[t].1,
        ),
    decreases sels.len() - from,
{
    if from < sels.len() && !is_typename_field(sels[from].1) {
        lemma_first_typename(sels, from + 1);
    }
}

pub(crate) proof fn lemma_first_sibling(sels: Seq<(KeyView, SelView)>, t: Option<int>, from: int)
    requires
        0 <= from,
    ensures
        first_sibling(sels, t, from) matches Some(si) ==> from <= si < sels.len() && is_field_view(
            sels[si].1,
        ) && t != Some(si),
    decreases sels.len() - from,
{
    if from < sels.len() && !(is_field_view(sels[from].1) && t != Some(from)) {
        lemma_first_sibling(sels, t, from + 1);
    }
}

proof fn lemma_optimize_pairs_none(ps: Seq<(KeyView, SelView)>, i: int, n: int, io: Seq<Seq<char>>)
    requires
        0 <= i <= n <= ps.len(),
        optimize_pairs(ps.take(i), io) is None,
    ensures
        optimize_pairs(ps.take(n), io) is None,
    decreases n - i,
{
    if n > i {
        lemma_optimize_pairs_none(ps, i, n - 1, io);
        assert(ps.take(n).drop_last() =~= ps.take(n - 1));
    }
}

fn optimize_selection_owned(sel: NormalizedSelection, interface_objects: &Vec<String>) -> (res: Result<
    NormalizedSelection,
    FederationError,
>)
    ensures
        match optimize_sel(sel_view(&sel), names_view(interface_objects@)) {
            Some(v) => res matches Ok(r) && sel_view(&r) == v,
            None => res matches Err(e) && is_internal(e),
        },
    decreases sel, 0int,
{
    match sel {
        NormalizedSelection::Field(b) => {
            let f = *b;
            match f.selection_set {
                Some(ss) => {
                    let o = optimize_set_owned(ss, interface_objects)?;
                    Ok(
                        NormalizedSelection::Field(
                            Box::new(
                                NormalizedFieldSelection {
                                    field: f.field,
                                    selection_set: Some(o),
                                    sibling_typename: f.sibling_typename,
                                },
                            ),
                        ),
                    )
                },
                None => Ok(
                    NormalizedSelection::Field(
                        Box::new(
                            NormalizedFieldSelection {
                                field: f.field,
                                selection_set: None,
                                sibling_typename: f.sibling_typename,
                            },
                        ),
                    ),
                ),
            }
        },
        NormalizedSelection::InlineFragment(b) => {
            let i = *b;
            let o = optimize_set_owned(i.selection_set, interface_objects)?;
            Ok(
                NormalizedSelection::InlineFragment(
                    Box::new(
                        NormalizedInlineFragmentSelection {
                            inline_fragment: i.inline_fragment,
                            selection_set: o,
                        },
                    ),
                ),
            )
        },
        NormalizedSelection::FragmentSpread(_) => Err(
            FederationError::internal(
                String::from_str(
                    "Error while optimizing sibling typename information, selection set contains a named fragment",
                ),
            ),
        ),
    }
}

fn optimize_set_owned(s: NormalizedSelectionSet, interface_objects: &Vec<String>) -> (res: Result<
    NormalizedSelectionSet,
    FederationError,
>)
    ensures
        match optimize_set(set_view(&s), names_view(interface_objects@)) {
            Some(v) => res matches Ok(r) && set_view(&r) == v,
            None => res matches Err(e) && is_internal(e),
        },
    decreases s, 0int,
{
    let ghost io = names_view(interface_objects@);
    let ghost orig_exec = s.selections@;
    let ghost orig = pairs_view(s.selections@);
    let is_interface_object = contains_name(interface_objects, s.type_position.name_of_type());
    proof {
        lemma_composite_name(s.type_position);
    }
    let mut rest = s.selections;
    let mut out: Vec<(NormalizedSelectionKey, NormalizedSelection)> = Vec::new();
    let ghost mut k: int = 0;
    proof {
        lemma_pairs_view(orig_exec);
        assert(orig.take(0) =~= Seq::<(KeyView, SelView)>::empty());
    }
    while rest.len() > 0
        invariant
            0 <= k <= orig_exec.len(),
            rest@ == orig_exec.subrange(k, orig_exec.len() as int),
            orig == pairs_view(orig_exec),
            orig_exec == s.selections@,
            optimize_pairs(orig.take(k), io) == Some(pairs_view(out@)),
            io == names_view(interface_objects@),
        decreases rest@.len(),
    {
        let p = rest.remove(0);
        proof {
            assert(p == orig_exec[k]);
            assert(decreases_to!(s => s.selections));
            assert(decreases_to!(s.selections => s.selections@));
            assert(decreases_to!(s.selections@ => s.selections@[k]));
            assert(decreases_to!(s.selections@[k] => s.selections@[k].1));
            lemma_pairs_view(orig_exec);
        }
        let (key, sel) = p;
        let o = match optimize_selection_owned(sel, interface_objects) {
            Ok(o) => o,
            Err(e) => {
                proof {
                    assert(orig.take(k + 1).drop_last() =~= orig.take(k));
                    assert(orig.take(k + 1).last() == orig[k]);
                    lemma_optimize_pairs_none(orig, k + 1, orig.len() as int, io);
                    assert(orig.take(orig.len() as int) =~= orig);
                }
                return Err(e);
            },
        };
        let x = (key, o);
        proof {
            lemma_push_view(out@, x);
            assert(orig.take(k + 1).drop_last() =~= orig.take(k));
            assert(orig.take(k + 1).last() == orig[k]);
        }
        out.push(x);
        proof {
            k = k + 1;
            assert(rest@ =~= orig_exec.subrange(k, orig_exec.len() as int));
        }
    }
    proof {
        assert(orig.take(orig_exec.len() as int) =~= orig);
        lemma_pairs_view(out@);
    }
    let ghost sels = pairs_view(out@);
    // Find the `__typename` field and its sibling.
    let mut typename_index: Option<usize> = None;
    if !is_interface_object {
        let mut i: usize = 0;
        while i < out.len()
            invariant_except_break
                typename_index is None,
            invariant
                i <= out@.len(),
                sels == pairs_view(out@),
                sels.len() == out@.len(),
                forall|j: int| 0 <= j < out@.len() ==> #[trigger] sels[j] == (key_view(out@[j].0), sel_view(&out@[j].1)),
                first_typename(sels, 0) == first_typename(sels, i as int),
            ensures
                match typename_index {
                    Some(ti) => first_typename(sels, 0) == Some(ti as int) && ti < out@.len(),
                    None => first_typename(sels, 0) is None,
                },
            decreases out@.len() - i,
        {
            if is_typename_selection(&out[i].1) {
                typename_index = Some(i);
                break;
            }
            i = i + 1;
        }
    }
    let ghost t: Option<int> = match typename_index {
        Some(ti) => Some(ti as int),
        None => None,
    };
    assert(t == if io.contains(composite_name(set_view(&s).ty)) {
        None
    } else {
        first_typename(sels, 0)
    });
    let mut sibling_index: Option<usize> = None;
    let mut j: usize = 0;
    while j < out.len()
        invariant_except_break
            sibling_index is None,
        invariant
            j <= out@.len(),
            sels == pairs_view(out@),
            sels.len() == out@.len(),
            forall|q: int| 0 <= q < out@.len() ==> #[trigger] sels[q] == (key_view(out@[q].0), sel_view(&out@[q].1)),
            first_sibling(sels, t, 0) == first_sibling(sels, t, j as int),
            t == match typename_index {
                Some(ti) => Some(ti as int),
                None => None,
            },
        ensures
            match sibling_index {
                Some(si) => first_sibling(sels, t, 0) == Some(si as int) && si < out@.len(),
                None => first_sibling(sels, t, 0) is None,
            },
        decreases out@.len() - j,
    {
        let not_typename = match typename_index {
            Some(ti) => ti != j,
            None => true,
        };
        if is_field_selection(&out[j].1) && not_typename {
            sibling_index = Some(j);
            break;
        }
        j = j + 1;
    }
    match (typename_index, sibling_index) {
        (Some(ti), Some(si)) => {
            assert(first_sibling(sels, t, 0) == Some(si as int));
            assert(first_typename(sels, 0) == Some(ti as int));
            proof {
                lemma_first_sibling(sels, t, 0);
                lemma_first_typename(sels, 0);
            }
            let ghost out0 = out@;
            let (_typename_key, typename_selection) = out.remove(ti);
            let ghost out1 = out@;
            let typename_response = match typename_selection {
                NormalizedSelection::Field(tf) => match tf.field.alias {
                    Some(a) => a,
                    None => tf.field.field_position.field_name,
                },
                _ => String::new(),
            };
            assert(typename_response@ == response_name_view(sels[ti as int].1));
            let si2 = if si > ti { si - 1 } else { si };
            let (skey, ssel) = out.remove(si2);
            assert(ssel == out0[si as int].1);
            assert(skey == out0[si as int].0);
            let updated = match ssel {
                NormalizedSelection::Field(sf) => {
                    let sf = *sf;
                    NormalizedSelection::Field(
                        Box::new(
                            NormalizedFieldSelection {
                                field: sf.field,
                                selection_set: sf.selection_set,
                                sibling_typename: Some(typename_response),
                            },
                        ),
                    )
                },
                other => other,
            };
            assert(sel_view(&updated) == with_sibling_typename(sels[si as int].1, typename_response@));
            out.insert(si2, (skey, updated));
            proof {
                lemma_pairs_view(out@);
                assert(out@ =~= out1.update(si2 as int, (skey, updated)));
                assert(out1 =~= out0.remove(ti as int));
                let expected = sels.update(
                    si as int,
                    (sels[si as int].0, with_sibling_typename(sels[si as int].1, response_name_view(sels[ti as int].1))),
                ).remove(ti as int);
                assert(pairs_view(out@) =~= expected);
            }
            Ok(NormalizedSelectionSet { type_position: s.type_position, selections: out })
        },
        _ => {
            Ok(NormalizedSelectionSet { type_position: s.type_position, selections: out })
        },
    }
}

impl NormalizedSelectionSet {
    /// Folds, at every level, the first `__typename` selection into its first sibling field
    /// (recording its response name there), so that query planning does not consider where to
    /// fetch it from; `__typename` stays where it is the only field, or on an interface object
    /// type. An internal error where a fragment spread remains.
    pub fn optimize_sibling_typenames(&mut self, interface_types_with_interface_objects: &Vec<String>) -> (res:
        Result<(), FederationError>)
        ensures
            match optimize_set(set_view(old(self)), names_view(interface_types_with_interface_objects@)) {
                Some(v) => res is Ok && set_view(final(self)) == v,
                None => res matches Err(e) && is_internal(e),
            },
    {
        let mut taken = NormalizedSelectionSet {
            type_position: copy_position(&self.type_position),
            selections: Vec::new(),
        };
        std::mem::swap(&mut taken, self);
        match optimize_set_owned(taken, interface_types_with_interface_objects) {
            Ok(o) => {
                *self = o;
                Ok(())
            },
            Err(e) => Err(e),
        }
    }
}

// ----------------------------------------------------------------------------------------
// Fragments and operations
// ----------------------------------------------------------------------------------------

impl NormalizedSelectionSet {
    /// Normalizes a selection set (see [`normalize_set`]), with spreads of `fragments` expanded
    /// where `inline_fragment_spreads`. Spreads nest at most as deep as there are fragments;
    /// deeper nesting only comes from a cycle of fragments, which is an error.
    pub fn normalize_and_expand_fragments(
        selection_set: &SelectionSet,
        fragments: &Vec<Fragment>,
        schema: &Schema,
        inline_fragment_spreads: bool,
        ids: &mut SelectionIdGenerator,
    ) -> (res: Result<NormalizedSelectionSet, FederationError>)
        ensures
            match normalize_set(
                *selection_set,
                fragments@,
                *schema,
                inline_fragment_spreads,
                fragments@.len(),
            ) {
                Some(v) => res matches Ok(r) && set_view(&r) == v,
                None => res matches Err(e) && is_internal(e),
            },
    {
        normalize_selection_set(
            selection_set,
            fragments,
            schema,
            inline_fragment_spreads,
            fragments.len(),
            ids,
        )
    }
}

/// A named fragment with its selection set normalized (spreads inside it are kept).
#[derive(Debug, PartialEq, Eq)]
pub struct NormalizedFragment {
    pub name: String,
    pub type_condition_position: CompositeTypeDefinitionPosition,
    pub directives: Vec<Directive>,
    pub selection_set: NormalizedSelectionSet,
}

/// The mathematical form of a normalized fragment.
pub open spec fn fragment_view(f: NormalizedFragment) -> (Seq<char>, CompositeView, Seq<DirectiveView>, SetView) {
    (f.name@, composite_view(f.type_condition_position), directives_view(f.directives@), set_view(&f.selection_set))
}

/// The normalized form of a fragment: its type condition must be a composite type, and its
/// selection set is normalized without expanding spreads.
pub open spec fn normalize_fragment(f: Fragment, schema: Schema) -> Option<
    (Seq<char>, CompositeView, Seq<DirectiveView>, SetView),
> {
    match composite_lookup(schema, f.selection_set.ty@) {
        Some(Some(tc)) => match normalize_set(f.selection_set, Seq::empty(), schema, false, 0) {
            Some(v) => Some((f.name@, tc, directives_view(f.directives@), v)),
            None => None,
        },
        _ => None,
    }
}

impl NormalizedFragment {
    /// Normalizes a named fragment (an internal error where its type condition is not a
    /// composite type of the schema, or its selection set does not normalize).
    pub fn normalize(fragment: &Fragment, schema: &Schema, ids: &mut SelectionIdGenerator) -> (res:
        Result<NormalizedFragment, FederationError>)
        ensures
            match normalize_fragment(*fragment, *schema) {
                Some(v) => res matches Ok(r) && fragment_view(r) == v,
                None => res matches Err(e) && is_internal(e),
            },
    {
        let tc = match lookup_composite(schema, &fragment.selection_set.ty)? {
            Some(tc) => tc,
            None => {
                return Err(
                    FederationError::internal(
                        String::from_str("Fragment type condition is not a composite type"),
                    ),
                );
            },
        };
        let no_fragments: Vec<Fragment> = Vec::new();
        proof {
            assert(no_fragments@ =~= Seq::<Fragment>::empty());
        }
        let ss = NormalizedSelectionSet::normalize_and_expand_fragments(
            &fragment.selection_set,
            &no_fragments,
            schema,
            false,
            ids,
        )?;
        Ok(
            NormalizedFragment {
                name: fragment.name.clone(),
                type_condition_position: tc,
                directives: clone_directives(&fragment.directives),
                selection_set: ss,
            },
        )
    }
}

/// An operation whose selection set is normalized (with spreads expanded and sibling
/// `__typename` selections folded), together with the normalized fragments of its document.
#[derive(Debug, PartialEq, Eq)]
pub struct NormalizedOperation {
    pub root_kind: SchemaRootDefinitionKind,
    pub name: Option<String>,
    pub variables: Vec<VariableDefinition>,
    pub directives: Vec<Directive>,
    pub selection_set: NormalizedSelectionSet,
    pub fragments: Vec<NormalizedFragment>,
}

/// The root kind of an operation type.
pub open spec fn root_kind_of(t: OperationType) -> SchemaRootDefinitionKind {
    match t {
        OperationType::Query => SchemaRootDefinitionKind::Query,
        OperationType::Mutation => SchemaRootDefinitionKind::Mutation,
        OperationType::Subscription => SchemaRootDefinitionKind::Subscription,
    }
}

/// The operation type of a root kind.
pub open spec fn operation_type_of(k: SchemaRootDefinitionKind) -> OperationType {
    match k {
        SchemaRootDefinitionKind::Query => OperationType::Query,
        SchemaRootDefinitionKind::Mutation => OperationType::Mutation,
        SchemaRootDefinitionKind::Subscription => OperationType::Subscription,
    }
}

/// The selection set of an operation after normalization and folding of sibling
/// `__typename` selections, where both succeed.
pub open spec fn normalized_operation_set(
    operation: Operation,
    fragments: Seq<Fragment>,
    schema: Schema,
    interface_objects: Seq<Seq<char>>,
) -> Option<SetView> {
    match normalize_set(operation.selection_set, fragments, schema, true, fragments.len()) {
        Some(v) => optimize_set(v, interface_objects),
        None => None,
    }
}

/// Normalizes an operation: its selection set is normalized with fragment spreads expanded
/// (see [`normalize_set`]), then sibling `__typename` selections are folded (see
/// [`optimize_set`]); each fragment of the document is normalized on its own.
pub fn normalize_operation(
    operation: &Operation,
    fragments: &Vec<Fragment>,
    schema: &Schema,
    interface_types_with_interface_objects: &Vec<String>,
    ids: &mut SelectionIdGenerator,
) -> (res: Result<NormalizedOperation, FederationError>)
    requires
        normalized_operation_set(
            *operation,
            fragments@,
            *schema,
            names_view(interface_types_with_interface_objects@),
        ) is Some ==> forall|i: int|
            0 <= i < fragments@.len() ==> #[trigger] normalize_fragment(fragments@[i], *schema) is Some,
    ensures
        match normalized_operation_set(
            *operation,
            fragments@,
            *schema,
            names_view(interface_types_with_interface_objects@),
        ) {
            Some(v) => res matches Ok(n) && {
                &&& set_view(&n.selection_set) == v
                &&& n.root_kind == root_kind_of(operation.operation_type)
                &&& opt_str_view(n.name) == opt_str_view(operation.name)
                &&& variables_view(n.variables@) == variables_view(operation.variables@)
                &&& directives_view(n.directives@) == directives_view(operation.directives@)
                &&& n.fragments@.len() == fragments@.len()
                &&& forall|i: int|
                    0 <= i < fragments@.len() ==> Some(fragment_view(#[trigger] n.fragments@[i]))
                        == normalize_fragment(fragments@[i], *schema)
            },
            None => res matches Err(e) && is_internal(e),
        },
{
    let mut ss = NormalizedSelectionSet::normalize_and_expand_fragments(
        &operation.selection_set,
        fragments,
        schema,
        true,
        ids,
    )?;
    ss.optimize_sibling_typenames(interface_types_with_interface_objects)?;
    let mut normalized_fragments: Vec<NormalizedFragment> = Vec::new();
    let mut i: usize = 0;
    while i < fragments.len()
        invariant
            i <= fragments@.len(),
            normalized_fragments@.len() == i,
            forall|j: int|
                0 <= j < fragments@.len() ==> #[trigger] normalize_fragment(fragments@[j], *schema) is Some,
            forall|j: int|
                0 <= j < i ==> Some(fragment_view(#[trigger] normalized_fragments@[j]))
                    == normalize_fragment(fragments@[j], *schema),
        decreases fragments@.len() - i,
    {
        let f = match NormalizedFragment::normalize(&fragments[i], schema, ids) {
            Ok(f) => f,
            Err(e) => {
                proof {
                    assert(normalize_fragment(fragments@[i as int], *schema) is Some);
                }
                return Err(e);
            },
        };
        normalized_fragments.push(f);
        i = i + 1;
    }
    let root_kind = match operation.operation_type {
        OperationType::Query => SchemaRootDefinitionKind::Query,
        OperationType::Mutation => SchemaRootDefinitionKind::Mutation,
        OperationType::Subscription => SchemaRootDefinitionKind::Subscription,
    };
    Ok(
        NormalizedOperation {
            root_kind,
            name: opt_string_clone(&operation.name),
            variables: clone_variables(&operation.variables),
            directives: clone_directives(&operation.directives),
            selection_set: ss,
            fragments: normalized_fragments,
        },
    )
}

// ----------------------------------------------------------------------------------------
// Flattening back into executable selection sets
// ----------------------------------------------------------------------------------------

/// The executable form of a normalized selection set, selection by selection in order; a
/// field without a selection set gets an empty one of its (innermost) type. `None` where the
/// schema has no such field. Sibling `__typename` records are dropped.
pub open spec fn flatten_set(v: SetView, schema: Schema) -> Option<SelectionSetView>
    decreases v, 0int,
{
    match flatten_pairs(v.selections, schema) {
        Some(sels) => Some(SelectionSetView { ty: composite_name(v.ty), selections: sels }),
        None => None,
    }
}

pub open spec fn flatten_pairs(ps: Seq<(KeyView, SelView)>, schema: Schema) -> Option<Seq<SelectionView>>
    decreases ps, 1int,
{
    if ps.len() == 0 {
        Some(Seq::empty())
    } else {
        match (flatten_pairs(ps.drop_last(), schema), flatten_sel(ps.last().1, schema)) {
            (Some(a), Some(b)) => Some(a.push(b)),
            _ => None,
        }
    }
}

pub open spec fn flatten_sel(s: SelView, schema: Schema) -> Option<SelectionView>
    decreases s, 0int,
{
    match s {
        SelView::Field { parent, name, alias, arguments, directives, selection_set, .. } => {
            match field_type_name(schema, composite_name(parent), name) {
                None => None,
                Some(t) => {
                    let ssv = match selection_set {
                        Some(ss) => flatten_set(ss, schema),
                        None => Some(SelectionSetView { ty: t, selections: Seq::empty() }),
                    };
                    match ssv {
                        Some(x) => Some(
                            SelectionView::Field {
                                alias,
                                name,
                                arguments,
                                directives,
                                selection_set: x,
                            },
                        ),
                        None => None,
                    }
                },
            }
        },
        SelView::FragmentSpread { fragment_name, directives } => Some(
            SelectionView::FragmentSpread { fragment_name, directives },
        ),
        SelView::InlineFragment { type_condition, directives, selection_set, .. } => {
            match flatten_set(selection_set, schema) {
                Some(x) => Some(
                    SelectionView::InlineFragment {
                        type_condition: match type_condition {
                            Some(c) => Some(composite_name(c)),
                            None => None,
                        },
                        directives,
                        selection_set: x,
                    },
                ),
                None => None,
            }
        },
    }
}

proof fn lemma_selections_view_push(s: Seq<Selection>, x: Selection)
    ensures
        selections_view(s.push(x)) == selections_view(s).push(selection_view(&x)),
{
    assert(s.push(x).drop_last() =~= s);
}

fn flatten_selection(s: &NormalizedSelection, schema: &Schema) -> (res: Result<Selection, FederationError>)
    ensures
        match flatten_sel(sel_view(s), *schema) {
            Some(v) => res matches Ok(r) && selection_view(&r) == v,
            None => res matches Err(e) && is_internal(e),
        },
    decreases s, 0int,
{
    match s {
        NormalizedSelection::Field(f) => {
            let parent_name = f.field.field_position.parent.name_of_type();
            proof {
                lemma_composite_name(f.field.field_position.parent);
            }
            let t = match schema.field_type_name(parent_name, &f.field.field_position.field_name) {
                Some(t) => t,
                None => {
                    return Err(
                        FederationError::internal(
                            String::from_str("Field is not defined by its parent type"),
                        ),
                    );
                },
            };
            let ss = match &f.selection_set {
                Some(ss) => {
                    assert(decreases_to!(s => **f));
                    flatten_selection_set(ss, schema)?
                },
                None => SelectionSet { ty: t, selections: Vec::new() },
            };
            proof {
                assert(selections_view(Seq::<Selection>::empty()) =~= Seq::<SelectionView>::empty());
            }
            Ok(
                Selection::Field(
                    Field {
                        alias: opt_string_clone(&f.field.alias),
                        name: f.field.field_position.field_name.clone(),
                        arguments: clone_arguments(&f.field.arguments),
                        directives: clone_directives(&f.field.directives),
                        selection_set: ss,
                    },
                ),
            )
        },
        NormalizedSelection::FragmentSpread(fs) => Ok(
            Selection::FragmentSpread(
                FragmentSpread {
                    fragment_name: fs.fragment_name.clone(),
                    directives: clone_directives(&fs.directives),
                },
            ),
        ),
        NormalizedSelection::InlineFragment(i) => {
            let ss = flatten_selection_set(&i.selection_set, schema)?;
            let tc = match &i.inline_fragment.type_condition_position {
                Some(c) => {
                    proof {
                        lemma_composite_name(*c);
                    }
                    Some(c.name_of_type().clone())
                },
                None => None,
            };
            Ok(
                Selection::InlineFragment(
                    InlineFragment {
                        type_condition: tc,
                        directives: clone_directives(&i.inline_fragment.directives),
                        selection_set: ss,
                    },
                ),
            )
        },
    }
}

fn flatten_selection_set(s: &NormalizedSelectionSet, schema: &Schema) -> (res: Result<
    SelectionSet,
    FederationError,
>)
    ensures
        match flatten_set(set_view(s), *schema) {
            Some(v) => res matches Ok(r) && selection_set_view(&r) == v,
            None => res matches Err(e) && is_internal(e),
        },
    decreases s, 1int,
{
    let ghost orig = pairs_view(s.selections@);
    proof {
        lemma_pairs_view(s.selections@);
        lemma_composite_name(s.type_position);
        assert(orig.take(0) =~= Seq::<(KeyView, SelView)>::empty());
        assert(selections_view(Seq::<Selection>::empty()) =~= Seq::<SelectionView>::empty());
    }
    let mut out: Vec<Selection> = Vec::new();
    let mut i: usize = 0;
    while i < s.selections.len()
        invariant
            i <= s.selections@.len(),
            orig == pairs_view(s.selections@),
            orig.len() == s.selections@.len(),
            forall|j: int|
                0 <= j < s.selections@.len() ==> #[trigger] orig[j] == (
                    key_view(s.selections@[j].0),
                    sel_view(&s.selections@[j].1),
                ),
            flatten_pairs(orig.take(i as int), *schema) == Some(selections_view(out@)),
        decreases s.selections@.len() - i,
    {
        proof {
            assert(decreases_to!(s => s.selections));
            assert(decreases_to!(s.selections => s.selections@));
            assert(decreases_to!(s.selections@ => s.selections@[i as int]));
            assert(decreases_to!(s.selections@[i as int] => s.selections@[i as int].1));
            assert(orig.take(i + 1).drop_last() =~= orig.take(i as int));
            assert(orig.take(i + 1).last() == orig[i as int]);
        }
        let x = match flatten_selection(&s.selections[i].1, schema) {
            Ok(x) => x,
            Err(e) => {
                proof {
                    lemma_flatten_pairs_none(orig, i as int + 1, orig.len() as int, *schema);
                    assert(orig.take(orig.len() as int) =~= orig);
                }
                return Err(e);
            },
        };
        proof {
            lemma_selections_view_push(out@, x);
        }
        out.push(x);
        i = i + 1;
    }
    proof {
        assert(orig.take(orig.len() as int) =~= orig);
    }
    Ok(SelectionSet { ty: s.type_position.name_of_type().clone(), selections: out })
}

proof fn lemma_flatten_pairs_none(ps: Seq<(KeyView, SelView)>, i: int, n: int, schema: Schema)
    requires
        0 < i <= n <= ps.len(),
        flatten_pairs(ps.take(i), schema) is None,
    ensures
        flatten_pairs(ps.take(n), schema) is None,
    decreases n - i,
{
    if i < n {
        assert(ps.take(i + 1).drop_last() =~= ps.take(i));
        lemma_flatten_pairs_none(ps, i + 1, n, schema);
    }
}

impl NormalizedSelectionSet {
    /// The executable selection set that this normalized one stands for (see
    /// [`flatten_set`]); an internal error where a field is not defined by its parent type.
    pub fn to_selection_set(&self, schema: &Schema) -> (res: Result<SelectionSet, FederationError>)
        ensures
            match flatten_set(set_view(self), *schema) {
                Some(v) => res matches Ok(r) && selection_set_view(&r) == v,
                None => res matches Err(e) && is_internal(e),
            },
    {
        flatten_selection_set(self, schema)
    }
}

impl NormalizedOperation {
    /// The executable operation that this normalized one stands for: the same kind, name,
    /// variables and directives, and the selection set flattened (see [`flatten_set`]).
    pub fn to_operation(&self, schema: &Schema) -> (res: Result<Operation, FederationError>)
        ensures
            match flatten_set(set_view(&self.selection_set), *schema) {
                Some(v) => res matches Ok(r) && {
                    &&& selection_set_view(&r.selection_set) == v
                    &&& r.operation_type == operation_type_of(self.root_kind)
                    &&& opt_str_view(r.name) == opt_str_view(self.name)
                    &&& variables_view(r.variables@) == variables_view(self.variables@)
                    &&& directives_view(r.directives@) == directives_view(self.directives@)
                },
                None => res matches Err(e) && is_internal(e),
            },
    {
        let ss = self.selection_set.to_selection_set(schema)?;
        let operation_type = match self.root_kind {
            SchemaRootDefinitionKind::Query => OperationType::Query,
            SchemaRootDefinitionKind::Mutation => OperationType::Mutation,
            SchemaRootDefinitionKind::Subscription => OperationType::Subscription,
        };
        Ok(
            Operation {
                operation_type,
                name: opt_string_clone(&self.name),
                variables: clone_variables(&self.variables),
                directives: clone_directives(&self.directives),
                selection_set: ss,
            },
        )
    }
}

} // verus!
