//! Plain-value model of an executable GraphQL document: operations, fragments and selection
//! sets, with each selection set carrying the name of its (output) type.
use crate::ast::{arguments_view, directives_view, Argument, ArgumentView, Directive, DirectiveView, Value};
use crate::schema::Type;
use vstd::prelude::*;

verus! {

/// A selection set together with the name of the type it selects from.
#[derive(Debug, PartialEq, Eq)]
pub struct SelectionSet {
    pub ty: String,
    pub selections: Vec<Selection>,
}

/// One selection of a selection set.
#[derive(Debug, PartialEq, Eq)]
pub enum Selection {
    Field(Field),
    FragmentSpread(FragmentSpread),
    InlineFragment(InlineFragment),
}

/// A field selection. Its selection set is empty for leaf fields; its type is then the
/// field's (leaf) type.
#[derive(Debug, PartialEq, Eq)]
pub struct Field {
    pub alias: Option<String>,
    pub name: String,
    pub arguments: Vec<Argument>,
    pub directives: Vec<Directive>,
    pub selection_set: SelectionSet,
}

/// A spread of a named fragment.
#[derive(Debug, PartialEq, Eq)]
pub struct FragmentSpread {
    pub fragment_name: String,
    pub directives: Vec<Directive>,
}

/// An inline fragment, with its optional type condition.
#[derive(Debug, PartialEq, Eq)]
pub struct InlineFragment {
    pub type_condition: Option<String>,
    pub directives: Vec<Directive>,
    pub selection_set: SelectionSet,
}

/// A named fragment definition; its type condition is the type of its selection set.
#[derive(Debug, PartialEq, Eq)]
pub struct Fragment {
    pub name: String,
    pub directives: Vec<Directive>,
    pub selection_set: SelectionSet,
}

/// The kind of an operation.
#[derive(Debug, Clone, Copy, PartialEq, Eq, Structural)]
pub enum OperationType {
    Query,
    Mutation,
    Subscription,
}

/// A variable definition of an operation.
#[derive(Debug, PartialEq, Eq)]
pub struct VariableDefinition {
    pub name: String,
    pub ty: Type,
    pub default_value: Option<Value>,
    pub directives: Vec<Directive>,
}

/// An operation of an executable document.
#[derive(Debug, PartialEq, Eq)]
pub struct Operation {
    pub operation_type: OperationType,
    pub name: Option<String>,
    pub variables: Vec<VariableDefinition>,
    pub directives: Vec<Directive>,
    pub selection_set: SelectionSet,
}

/// The mathematical form of a selection set.
pub struct SelectionSetView {
    pub ty: Seq<char>,
    pub selections: Seq<SelectionView>,
}

/// The mathematical form of a selection.
pub enum SelectionView {
    Field {
        alias: Option<Seq<char>>,
        name: Seq<char>,
        arguments: Seq<ArgumentView>,
        directives: Seq<DirectiveView>,
        selection_set: SelectionSetView,
    },
    FragmentSpread { fragment_name: Seq<char>, directives: Seq<DirectiveView> },
    InlineFragment {
        type_condition: Option<Seq<char>>,
        directives: Seq<DirectiveView>,
        selection_set: SelectionSetView,
    },
}

pub open spec fn opt_string_view(o: Option<String>) -> Option<Seq<char>> {
    match o {
        Some(s) => Some(s@),
        None => None,
    }
}

pub open spec fn selection_set_view(s: &SelectionSet) -> SelectionSetView
    decreases s, 0int,
{
    SelectionSetView { ty: s.ty@, selections: selections_view(s.selections@) }
}

pub open spec fn selections_view(s: Seq<Selection>) -> Seq<SelectionView>
    decreases s, 1int,
{
    if s.len() == 0 {
        Seq::empty()
    } else {
        selections_view(s.drop_last()).push(selection_view(&s.last()))
    }
}

pub open spec fn selection_view(s: &Selection) -> SelectionView
    decreases s, 0int,
{
    match s {
        Selection::Field(f) => SelectionView::Field {
            alias: opt_string_view(f.alias),
            name: f.name@,
            arguments: arguments_view(f.arguments@),
            directives: directives_view(f.directives@),
            selection_set: selection_set_view(&f.selection_set),
        },
        Selection::FragmentSpread(fs) => SelectionView::FragmentSpread {
            fragment_name: fs.fragment_name@,
            directives: directives_view(fs.directives@),
        },
        Selection::InlineFragment(i) => SelectionView::InlineFragment {
            type_condition: opt_string_view(i.type_condition),
            directives: directives_view(i.directives@),
            selection_set: selection_set_view(&i.selection_set),
        },
    }
}

/// The mathematical form of a variable definition.
pub open spec fn variable_view(v: VariableDefinition) -> (Seq<char>, crate::schema::TypeView, Option<
    crate::ast::ValueView,
>, Seq<DirectiveView>) {
    (
        v.name@,
        v.ty@,
        match v.default_value {
            Some(d) => Some(d@),
            None => None,
        },
        directives_view(v.directives@),
    )
}

pub open spec fn variables_view(s: Seq<VariableDefinition>) -> Seq<
    (Seq<char>, crate::schema::TypeView, Option<crate::ast::ValueView>, Seq<DirectiveView>),
> {
    s.map_values(|v: VariableDefinition| variable_view(v))
}

/// A copy of a list of variable definitions.
pub fn clone_variables(vars: &Vec<VariableDefinition>) -> (res: Vec<VariableDefinition>)
    ensures
        variables_view(res@) == variables_view(vars@),
{
    let mut out: Vec<VariableDefinition> = Vec::new();
    let mut i: usize = 0;
    while i < vars.len()
        invariant
            i <= vars@.len(),
            out@.len() == i,
            forall|j: int| 0 <= j < i ==> variable_view(#[trigger] out@[j]) == variable_view(vars@[j]),
        decreases vars@.len() - i,
    {
        let v = &vars[i];
        let d = match &v.default_value {
            Some(d) => Some(crate::ast::clone_value(d)),
            None => None,
        };
        out.push(
            VariableDefinition {
                name: v.name.clone(),
                ty: crate::schema::clone_type(&v.ty),
                default_value: d,
                directives: crate::ast::clone_directives(&v.directives),
            },
        );
        i = i + 1;
    }
    assert(variables_view(out@) =~= variables_view(vars@));
    out
}

} // verus!
