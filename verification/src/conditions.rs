//! Tracking whether a selection set must be fetched, from its `@skip`/`@include` applications.
use crate::argument::argument_value;
use crate::ast::{push_value_text, str_eq, value_text, Directive, Value, ValueView};
use crate::error::{is_internal_error, FederationError};
use indexmap::IndexMap;
use vstd::prelude::*;

verus! {

#[verifier::external_type_specification]
#[verifier::external_body]
#[verifier::reject_recursive_types(K)]
#[verifier::reject_recursive_types(V)]
#[verifier::reject_recursive_types(S)]
pub struct ExIndexMap<K, V, S>(IndexMap<K, V, S>);

/// The entries of a map from variable names to negation flags, in the map's order.
pub uninterp spec fn variable_entries(m: IndexMap<String, bool>) -> Seq<(Seq<char>, bool)>;

/// The index of the entry for `key`, if there is one.
pub open spec fn entry_index(entries: Seq<(Seq<char>, bool)>, key: Seq<char>) -> Option<int>
    decreases entries.len(),
{
    if entries.len() == 0 {
        None
    } else if entries.last().0 == key {
        Some(entries.len() - 1)
    } else {
        entry_index(entries.drop_last(), key)
    }
}

/// The value of the entry for `key`, if there is one.
pub open spec fn entry_lookup(entries: Seq<(Seq<char>, bool)>, key: Seq<char>) -> Option<bool> {
    match entry_index(entries, key) {
        Some(i) => Some(entries[i].1),
        None => None,
    }
}

/// The entries after inserting `key` with `value`: an existing entry keeps its place and takes
/// the new value, a new entry goes last.
pub open spec fn entries_insert(entries: Seq<(Seq<char>, bool)>, key: Seq<char>, value: bool) -> Seq<
    (Seq<char>, bool),
> {
    match entry_index(entries, key) {
        Some(i) => entries.update(i, (key, value)),
        None => entries.push((key, value)),
    }
}

/// No two entries share a key.
pub open spec fn distinct_keys(entries: Seq<(Seq<char>, bool)>) -> bool {
    forall|i: int, j: int|
        0 <= i < entries.len() && 0 <= j < entries.len() && i != j ==> entries[i].0 != entries[j].0
}

pub proof fn lemma_entry_index(entries: Seq<(Seq<char>, bool)>, key: Seq<char>)
    ensures
        match entry_index(entries, key) {
            Some(i) => 0 <= i < entries.len() && entries[i].0 == key,
            None => forall|j: int| 0 <= j < entries.len() ==> entries[j].0 != key,
        },
    decreases entries.len(),
{
    if entries.len() > 0 {
        lemma_entry_index(entries.drop_last(), key);
        assert forall|j: int| 0 <= j < entries.len() - 1 implies entries.drop_last()[j]
            == entries[j] by {}
    }
}

pub proof fn lemma_entry_index_distinct(entries: Seq<(Seq<char>, bool)>, key: Seq<char>, i: int)
    requires
        distinct_keys(entries),
        0 <= i < entries.len(),
        entries[i].0 == key,
    ensures
        entry_index(entries, key) == Some(i),
{
    lemma_entry_index(entries, key);
}

pub proof fn lemma_insert_distinct(entries: Seq<(Seq<char>, bool)>, key: Seq<char>, value: bool)
    requires
        distinct_keys(entries),
    ensures
        distinct_keys(entries_insert(entries, key, value)),
        entry_lookup(entries_insert(entries, key, value), key) == Some(value),
        forall|k: Seq<char>|
            k != key ==> entry_lookup(entries_insert(entries, key, value), k) == entry_lookup(
                entries,
                k,
            ),
{
    lemma_entry_index(entries, key);
    let r = entries_insert(entries, key, value);
    assert(distinct_keys(r));
    match entry_index(entries, key) {
        Some(i) => {
            lemma_entry_index_distinct(r, key, i);
        },
        None => {
            lemma_entry_index_distinct(r, key, entries.len() as int);
        },
    }
    assert forall|k: Seq<char>| k != key implies entry_lookup(r, k) == entry_lookup(entries, k) by {
        lemma_entry_index(entries, k);
        match entry_index(entries, k) {
            Some(j) => {
                lemma_entry_index_distinct(r, k, j);
            },
            None => {
                lemma_entry_index(r, k);
            },
        }
    }
}

/// An empty map of variable conditions.
/// Calls `IndexMap::new`; the contract claims that the new map has no entries.
#[verifier::external_body]
fn variable_map_new() -> (m: IndexMap<String, bool>)
    ensures
        variable_entries(m) == Seq::<(Seq<char>, bool)>::empty(),
{
    IndexMap::new()
}

/// Calls `IndexMap::insert`; the contract claims what its documentation says: an existing key
/// keeps its place and takes the new value, a new key goes last.
#[verifier::external_body]
fn variable_map_insert(m: &mut IndexMap<String, bool>, key: String, value: bool)
    ensures
        variable_entries(*final(m)) == entries_insert(variable_entries(*old(m)), key@, value),
{
    m.insert(key, value);
}

/// Calls `IndexMap::get`; the contract claims that it gives the value stored for the key.
#[verifier::external_body]
fn variable_map_get(m: &IndexMap<String, bool>, key: &str) -> (res: Option<bool>)
    ensures
        res == entry_lookup(variable_entries(*m), key@),
{
    m.get(key).copied()
}

/// Calls `IndexMap::clone`; the contract claims that the copy has the same entries in the same
/// order (the keys and values are `String`s and `bool`s, whose clones are equal).
#[verifier::external_body]
fn variable_map_clone(m: &IndexMap<String, bool>) -> (res: IndexMap<String, bool>)
    ensures
        variable_entries(res) == variable_entries(*m),
{
    m.clone()
}

/// Calls `IndexMap::len`; the contract claims that it is the number of entries.
#[verifier::external_body]
fn variable_map_len(m: &IndexMap<String, bool>) -> (res: usize)
    ensures
        res == variable_entries(*m).len(),
{
    m.len()
}

/// Calls `IndexMap::get_index`; the contract claims that it gives the entry at that position.
#[verifier::external_body]
fn variable_map_get_index(m: &IndexMap<String, bool>, index: usize) -> (res: Option<(&String, bool)>)
    ensures
        res is Some <==> index < variable_entries(*m).len(),
        res matches Some((k, v)) ==> k@ == variable_entries(*m)[index as int].0 && v
            == variable_entries(*m)[index as int].1,
{
    m.get_index(index).map(|(k, v)| (k, *v))
}

/// A non-empty list of variable conditions: a map from variable names to whether the variable
/// is negated in the condition (`@skip`), with at most one condition per variable.
#[derive(Debug)]
pub struct VariableConditions(IndexMap<String, bool>);

/// Whether a selection set must be fetched: either a constant, or a conjunction of variable
/// conditions.
#[derive(Debug)]
pub enum Conditions {
    Variables(VariableConditions),
    Boolean(bool),
}

/// A single condition.
#[derive(Debug)]
pub enum Condition {
    Variable(VariableCondition),
    Boolean(bool),
}

/// A condition on one variable.
#[derive(Debug, PartialEq, Eq)]
pub struct VariableCondition {
    pub variable: String,
    pub negated: bool,
}

/// The mathematical form of [`Conditions`].
pub enum ConditionsView {
    Variables(Seq<(Seq<char>, bool)>),
    Boolean(bool),
}

impl View for VariableConditions {
    type V = Seq<(Seq<char>, bool)>;

    closed spec fn view(&self) -> Seq<(Seq<char>, bool)> {
        variable_entries(self.0)
    }
}

impl View for Conditions {
    type V = ConditionsView;

    open spec fn view(&self) -> ConditionsView {
        match self {
            Conditions::Variables(v) => ConditionsView::Variables(v@),
            Conditions::Boolean(b) => ConditionsView::Boolean(*b),
        }
    }
}

impl VariableConditions {
    /// At most one condition per variable, and at least one condition.
    pub open spec fn wf(&self) -> bool {
        distinct_keys(self@) && self@.len() > 0
    }

    /// Sets the condition on `name`.
    pub fn insert(&mut self, name: String, negated: bool)
        requires
            old(self).wf(),
        ensures
            final(self).wf(),
            final(self)@ == entries_insert(old(self)@, name@, negated),
    {
        proof {
            lemma_insert_distinct(self@, name@, negated);
            lemma_entry_index(self@, name@);
        }
        variable_map_insert(&mut self.0, name, negated);
    }

    /// Whether there are no conditions.
    pub fn is_empty(&self) -> (res: bool)
        ensures
            res == (self@.len() == 0),
    {
        variable_map_len(&self.0) == 0
    }

    /// The condition on the variable `name`, if there is one.
    pub fn get(&self, name: &str) -> (res: Option<VariableCondition>)
        ensures
            match entry_lookup(self@, name@) {
                Some(n) => res matches Some(c) && c.variable@ == name@ && c.negated == n,
                None => res is None,
            },
    {
        match variable_map_get(&self.0, name) {
            Some(negated) => Some(VariableCondition { variable: String::from_str(name), negated }),
            None => None,
        }
    }

    /// Whether the condition on `name` is negated; `None` where there is no condition on it.
    pub fn is_negated(&self, name: &str) -> (res: Option<bool>)
        ensures
            res == entry_lookup(self@, name@),
    {
        variable_map_get(&self.0, name)
    }

    /// The conditions, in order.
    pub fn iter(&self) -> (res: Vec<(String, bool)>)
        ensures
            res@.len() == self@.len(),
            forall|i: int|
                0 <= i < res@.len() ==> res@[i].0@ == self@[i].0 && res@[i].1 == self@[i].1,
    {
        let n = variable_map_len(&self.0);
        let mut out: Vec<(String, bool)> = Vec::new();
        let mut i: usize = 0;
        while i < n
            invariant
                i <= n,
                n == self@.len(),
                out@.len() == i,
                forall|j: int|
                    0 <= j < i ==> out@[j].0@ == self@[j].0 && out@[j].1 == self@[j].1,
            decreases n - i,
        {
            match variable_map_get_index(&self.0, i) {
                Some((k, v)) => {
                    out.push((k.clone(), v));
                },
                None => {},
            }
            i = i + 1;
        }
        out
    }
}


/// The conditions that a list of entries stands for: `true` where it is empty.
pub open spec fn from_variables_spec(vars: Seq<(Seq<char>, bool)>) -> ConditionsView {
    if vars.len() == 0 {
        ConditionsView::Boolean(true)
    } else {
        ConditionsView::Variables(vars)
    }
}

/// Whether a directive application is `@include` or `@skip`.
pub open spec fn is_conditional(d: Directive) -> bool {
    d.name@ == "include"@ || d.name@ == "skip"@
}

/// The conditions collected from the directives `ds[i..]`, having collected `vars` from the
/// ones before; `None` where an `@include`/`@skip` has no `if` argument, or one that is
/// neither a boolean nor a variable.
pub open spec fn collect_conditions(ds: Seq<Directive>, i: int, vars: Seq<(Seq<char>, bool)>) -> Option<
    ConditionsView,
>
    decreases ds.len() - i,
{
    if i < 0 || i >= ds.len() {
        Some(from_variables_spec(vars))
    } else if !is_conditional(ds[i]) {
        collect_conditions(ds, i + 1, vars)
    } else {
        let negated = ds[i].name@ == "skip"@;
        match argument_value(ds[i], "if"@) {
            Some(ValueView::Boolean(b)) => if b == negated {
                Some(ConditionsView::Boolean(false))
            } else {
                collect_conditions(ds, i + 1, vars)
            },
            Some(ValueView::Variable(name)) => match entry_lookup(vars, name) {
                Some(previous) => if previous != negated {
                    Some(ConditionsView::Boolean(false))
                } else {
                    collect_conditions(ds, i + 1, vars)
                },
                None => collect_conditions(ds, i + 1, vars.push((name, negated))),
            },
            _ => None,
        }
    }
}

/// The conditions of a list of directive applications: the conjunction of its `@include` and
/// `@skip` conditions, `false` as soon as one is constantly false or two contradict.
pub open spec fn from_directives_spec(ds: Seq<Directive>) -> Option<ConditionsView> {
    collect_conditions(ds, 0, Seq::empty())
}

/// Whether variable conditions hold under an assignment of the variables.
pub open spec fn variables_hold(vars: Seq<(Seq<char>, bool)>, env: spec_fn(Seq<char>) -> bool) -> bool {
    forall|i: int| 0 <= i < vars.len() ==> env(vars[i].0) != vars[i].1
}

/// Whether conditions hold under an assignment of the variables.
pub open spec fn conditions_hold(c: ConditionsView, env: spec_fn(Seq<char>) -> bool) -> bool {
    match c {
        ConditionsView::Boolean(b) => b,
        ConditionsView::Variables(vars) => variables_hold(vars, env),
    }
}

/// Whether one directive application lets its selection be included under an assignment:
/// `@include(if: x)` where `x` is true, `@skip(if: x)` where `x` is false.
pub open spec fn directive_allows(d: Directive, env: spec_fn(Seq<char>) -> bool) -> bool {
    if !is_conditional(d) {
        true
    } else {
        let negated = d.name@ == "skip"@;
        match argument_value(d, "if"@) {
            Some(ValueView::Boolean(b)) => b != negated,
            Some(ValueView::Variable(name)) => env(name) != negated,
            _ => true,
        }
    }
}

/// Whether all the directive applications let their selection be included.
pub open spec fn directives_allow(ds: Seq<Directive>, env: spec_fn(Seq<char>) -> bool) -> bool {
    forall|i: int| 0 <= i < ds.len() ==> directive_allows(ds[i], env)
}

impl Conditions {
    /// Conditions from a list of variable conditions; `true` where the list is empty.
    fn from_variables(map: IndexMap<String, bool>) -> (res: Self)
        requires
            distinct_keys(variable_entries(map)),
        ensures
            res@ == from_variables_spec(variable_entries(map)),
            res matches Conditions::Variables(v) ==> v.wf(),
    {
        if variable_map_len(&map) == 0 {
            Conditions::Boolean(true)
        } else {
            Conditions::Variables(VariableConditions(map))
        }
    }

    /// The conditions under which a selection with these directive applications is included;
    /// an internal error where an `@include`/`@skip` lacks its `if` argument or has one that is
    /// neither a boolean nor a variable.
    pub fn from_directives(directives: &Vec<Directive>) -> (res: Result<Self, FederationError>)
        ensures
            match from_directives_spec(directives@) {
                Some(c) => res matches Ok(r) && r@ == c && r.wf(),
                None => res matches Err(e) && crate::error::is_internal(e),
            },
    {
        proof {
            reveal_strlit("include");
            reveal_strlit("skip");
        }
        let mut variables = variable_map_new();
        let mut i: usize = 0;
        while i < directives.len()
            invariant
                i <= directives@.len(),
                distinct_keys(variable_entries(variables)),
                from_directives_spec(directives@) == collect_conditions(
                    directives@,
                    i as int,
                    variable_entries(variables),
                ),
            decreases directives@.len() - i,
        {
            let directive = &directives[i];
            let is_include = str_eq(&directive.name, "include");
            let is_skip = str_eq(&directive.name, "skip");
            if is_include || is_skip {
                let negated = is_skip;
                let value = match directive.argument_by_name("if") {
                    Some(v) => v,
                    None => {
                        let message = if negated {
                            String::from_str("missing if argument on @skip")
                        } else {
                            String::from_str("missing if argument on @include")
                        };
                        return Err(FederationError::internal(message));
                    },
                };
                match value {
                    Value::Boolean(b) => {
                        if *b == negated {
                            return Ok(Conditions::Boolean(false));
                        }
                    },
                    Value::Variable(name) => {
                        match variable_map_get(&variables, name.as_str()) {
                            Some(previous_negated) => {
                                if previous_negated != negated {
                                    return Ok(Conditions::Boolean(false));
                                }
                            },
                            None => {
                                proof {
                                    lemma_insert_distinct(variable_entries(variables), name@, negated);
                                    lemma_entry_index(variable_entries(variables), name@);
                                }
                                variable_map_insert(&mut variables, name.clone(), negated);
                            },
                        }
                    },
                    _ => {
                        let mut message = String::from_str(
                            "expected boolean or variable `if` argument, got ",
                        );
                        push_value_text(&mut message, value);
                        return Err(FederationError::internal(message));
                    },
                }
            }
            i = i + 1;
        }
        Ok(Self::from_variables(variables))
    }

    /// Well-formedness: variable conditions are non-empty and name each variable once.
    pub open spec fn wf(&self) -> bool {
        match self {
            Conditions::Variables(v) => v.wf(),
            Conditions::Boolean(_) => true,
        }
    }
}


/// The new conditions less those already handled: `false` where one contradicts a handled
/// one, scanning `new[i..]` with `kept` collected before.
pub open spec fn filter_handled(
    new: Seq<(Seq<char>, bool)>,
    handled: Seq<(Seq<char>, bool)>,
    i: int,
    kept: Seq<(Seq<char>, bool)>,
) -> ConditionsView
    decreases new.len() - i,
{
    if i < 0 || i >= new.len() {
        from_variables_spec(kept)
    } else {
        match entry_lookup(handled, new[i].0) {
            Some(h) => if h != new[i].1 {
                ConditionsView::Boolean(false)
            } else {
                filter_handled(new, handled, i + 1, kept)
            },
            None => filter_handled(new, handled, i + 1, kept.push(new[i])),
        }
    }
}

/// The conditions still to check once `handled` is known to hold: `new` itself where either is
/// a constant.
pub open spec fn update_with_spec(handled: ConditionsView, new: ConditionsView) -> ConditionsView {
    match (new, handled) {
        (ConditionsView::Variables(n), ConditionsView::Variables(h)) => filter_handled(
            n,
            h,
            0,
            Seq::empty(),
        ),
        _ => new,
    }
}

/// The union of two lists of variable conditions: `false` where they contradict, scanning
/// `other[i..]` into `acc`.
pub open spec fn merge_variables(
    acc: Seq<(Seq<char>, bool)>,
    other: Seq<(Seq<char>, bool)>,
    i: int,
) -> ConditionsView
    decreases other.len() - i,
{
    if i < 0 || i >= other.len() {
        ConditionsView::Variables(acc)
    } else {
        match entry_lookup(acc, other[i].0) {
            Some(a) => if a != other[i].1 {
                ConditionsView::Boolean(false)
            } else {
                merge_variables(acc, other, i + 1)
            },
            None => merge_variables(acc.push(other[i]), other, i + 1),
        }
    }
}

/// The conjunction of two conditions: `false` absorbs, `true` is neutral.
pub open spec fn merge_spec(a: ConditionsView, b: ConditionsView) -> ConditionsView {
    if a == ConditionsView::Boolean(false) || b == ConditionsView::Boolean(false) {
        ConditionsView::Boolean(false)
    } else if a == ConditionsView::Boolean(true) {
        b
    } else if b == ConditionsView::Boolean(true) {
        a
    } else {
        match (a, b) {
            (ConditionsView::Variables(x), ConditionsView::Variables(y)) => merge_variables(
                x,
                y,
                0,
            ),
            _ => a,
        }
    }
}

impl Clone for Conditions {
    fn clone(&self) -> (res: Self)
        ensures
            res@ == self@,
            self.wf() ==> res.wf(),
    {
        match self {
            Conditions::Variables(v) => Conditions::Variables(
                VariableConditions(variable_map_clone(&v.0)),
            ),
            Conditions::Boolean(b) => Conditions::Boolean(*b),
        }
    }
}

impl Conditions {
    /// The conditions still to check for `new_conditions` once `self` (the conditions already
    /// handled) is known to hold.
    pub fn update_with(&self, new_conditions: &Self) -> (res: Self)
        requires
            self.wf(),
            new_conditions.wf(),
        ensures
            res@ == update_with_spec(self@, new_conditions@),
            res.wf(),
    {
        match (new_conditions, self) {
            (Conditions::Variables(new_vars), Conditions::Variables(handled)) => {
                let n = variable_map_len(&new_vars.0);
                let mut filtered = variable_map_new();
                let mut i: usize = 0;
                while i < n
                    invariant
                        i <= n,
                        n == new_vars@.len(),
                        new_vars.wf(),
                        distinct_keys(variable_entries(filtered)),
                        forall|j: int|
                            0 <= j < variable_entries(filtered).len() ==> exists|k: int|
                                0 <= k < i && new_vars@[k] == #[trigger] variable_entries(
                                    filtered,
                                )[j],
                        update_with_spec(self@, new_conditions@) == filter_handled(
                            new_vars@,
                            handled@,
                            i as int,
                            variable_entries(filtered),
                        ),
                    decreases n - i,
                {
                    match variable_map_get_index(&new_vars.0, i) {
                        Some((name, negated)) => {
                            match handled.is_negated(name.as_str()) {
                                Some(h) => {
                                    if negated != h {
                                        return Conditions::Boolean(false);
                                    }
                                },
                                None => {
                                    proof {
                                        let f = variable_entries(filtered);
                                        lemma_entry_index(f, name@);
                                        assert forall|j: int| 0 <= j < f.len() implies f[j].0
                                            != name@ by {
                                            let k = choose|k: int|
                                                0 <= k < i && new_vars@[k] == f[j];
                                            assert(new_vars@[k].0 != new_vars@[i as int].0);
                                        }
                                        lemma_insert_distinct(f, name@, negated);
                                        lemma_entry_index(f, name@);
                                        assert(entries_insert(f, name@, negated) == f.push(
                                            new_vars@[i as int],
                                        ));
                                    }
                                    variable_map_insert(&mut filtered, name.clone(), negated);
                                    proof {
                                        let f = variable_entries(filtered);
                                        assert forall|j: int| 0 <= j < f.len() implies exists|
                                            k: int,
                                        | 0 <= k < i + 1 && new_vars@[k] == #[trigger] f[j] by {
                                            if j == f.len() - 1 {
                                                assert(new_vars@[i as int] == f[j]);
                                            }
                                        }
                                    }
                                },
                            }
                        },
                        None => {},
                    }
                    i = i + 1;
                }
                Self::from_variables(filtered)
            },
            _ => new_conditions.clone(),
        }
    }

    /// The conjunction of two conditions.
    pub fn merge(self, other: Self) -> (res: Self)
        requires
            self.wf(),
            other.wf(),
        ensures
            res@ == merge_spec(self@, other@),
            res.wf(),
    {
        let ghost s0 = self@;
        let ghost o0 = other@;
        match (self, other) {
            (Conditions::Boolean(false), _) | (_, Conditions::Boolean(false)) => Conditions::Boolean(
                false,
            ),
            (Conditions::Boolean(true), x) | (x, Conditions::Boolean(true)) => x,
            (Conditions::Variables(self_vars), Conditions::Variables(other_vars)) => {
                let ghost sv = self_vars@;
                let ghost ov = other_vars@;
                let mut vars = self_vars.0;
                let n = variable_map_len(&other_vars.0);
                let mut i: usize = 0;
                while i < n
                    invariant
                        i <= n,
                        n == other_vars@.len(),
                        distinct_keys(variable_entries(vars)),
                        variable_entries(vars).len() > 0,
                        other_vars@ == ov,
                        s0 == self@,
                        o0 == other@,
                        merge_spec(s0, o0) == merge_variables(
                            variable_entries(vars),
                            other_vars@,
                            i as int,
                        ),
                    decreases n - i,
                {
                    match variable_map_get_index(&other_vars.0, i) {
                        Some((name, other_negated)) => {
                            match variable_map_get(&vars, name.as_str()) {
                                Some(self_negated) => {
                                    if self_negated != other_negated {
                                        return Conditions::Boolean(false);
                                    }
                                },
                                None => {
                                    proof {
                                        let f = variable_entries(vars);
                                        lemma_insert_distinct(f, name@, other_negated);
                                        lemma_entry_index(f, name@);
                                        assert(entries_insert(f, name@, other_negated) == f.push(
                                            other_vars@[i as int],
                                        ));
                                    }
                                    variable_map_insert(&mut vars, name.clone(), other_negated);
                                },
                            }
                        },
                        None => {},
                    }
                    i = i + 1;
                }
                Conditions::Variables(VariableConditions(vars))
            },
        }
    }
}


proof fn lemma_variables_hold_push(
    vars: Seq<(Seq<char>, bool)>,
    e: (Seq<char>, bool),
    env: spec_fn(Seq<char>) -> bool,
)
    ensures
        variables_hold(vars.push(e), env) == (variables_hold(vars, env) && env(e.0) != e.1),
{
    if variables_hold(vars, env) && env(e.0) != e.1 {
        assert forall|i: int| 0 <= i < vars.push(e).len() implies env(vars.push(e)[i].0)
            != vars.push(e)[i].1 by {
            if i < vars.len() {
                assert(vars.push(e)[i] == vars[i]);
            }
        }
    }
    if variables_hold(vars.push(e), env) {
        assert(vars.push(e)[vars.len() as int] == e);
        assert forall|i: int| 0 <= i < vars.len() implies env(vars[i].0) != vars[i].1 by {
            assert(vars.push(e)[i] == vars[i]);
        }
    }
}

proof fn lemma_lookup_holds(vars: Seq<(Seq<char>, bool)>, k: Seq<char>, env: spec_fn(Seq<char>) -> bool)
    requires
        variables_hold(vars, env),
        entry_lookup(vars, k) is Some,
    ensures
        env(k) != entry_lookup(vars, k).unwrap(),
{
    lemma_entry_index(vars, k);
}

proof fn lemma_collect_sound(
    ds: Seq<Directive>,
    i: int,
    vars: Seq<(Seq<char>, bool)>,
    env: spec_fn(Seq<char>) -> bool,
)
    requires
        0 <= i <= ds.len(),
        collect_conditions(ds, i, vars) is Some,
    ensures
        conditions_hold(collect_conditions(ds, i, vars).unwrap(), env) == (variables_hold(vars, env)
            && forall|j: int| i <= j < ds.len() ==> directive_allows(ds[j], env)),
    decreases ds.len() - i,
{
    if i == ds.len() {
    } else {
        let tail_ok = forall|j: int| i + 1 <= j < ds.len() ==> directive_allows(ds[j], env);
        let all_ok = forall|j: int| i <= j < ds.len() ==> directive_allows(ds[j], env);
        assert(all_ok == (directive_allows(ds[i], env) && tail_ok)) by {
            if directive_allows(ds[i], env) && tail_ok {
                assert forall|j: int| i <= j < ds.len() implies directive_allows(ds[j], env) by {
                    if j > i {
                    }
                }
            }
        }
        if !is_conditional(ds[i]) {
            lemma_collect_sound(ds, i + 1, vars, env);
        } else {
            let negated = ds[i].name@ == "skip"@;
            match argument_value(ds[i], "if"@) {
                Some(ValueView::Boolean(b)) => {
                    if b != negated {
                        lemma_collect_sound(ds, i + 1, vars, env);
                    }
                },
                Some(ValueView::Variable(name)) => {
                    match entry_lookup(vars, name) {
                        Some(previous) => {
                            if variables_hold(vars, env) {
                                lemma_lookup_holds(vars, name, env);
                            }
                            if previous == negated {
                                lemma_collect_sound(ds, i + 1, vars, env);
                            }
                        },
                        None => {
                            lemma_collect_sound(ds, i + 1, vars.push((name, negated)), env);
                            lemma_variables_hold_push(vars, (name, negated), env);
                        },
                    }
                },
                _ => {},
            }
        }
    }
}

/// The conditions collected from directive applications hold under an assignment of the
/// variables exactly when each `@include(if:)` is true and each `@skip(if:)` is false.
pub proof fn law_from_directives_sound(ds: Seq<Directive>, env: spec_fn(Seq<char>) -> bool)
    requires
        from_directives_spec(ds) is Some,
    ensures
        conditions_hold(from_directives_spec(ds).unwrap(), env) == directives_allow(ds, env),
{
    lemma_collect_sound(ds, 0, Seq::empty(), env);
}

proof fn lemma_merge_variables_sound(
    acc: Seq<(Seq<char>, bool)>,
    other: Seq<(Seq<char>, bool)>,
    i: int,
    env: spec_fn(Seq<char>) -> bool,
)
    requires
        0 <= i <= other.len(),
    ensures
        conditions_hold(merge_variables(acc, other, i), env) == (variables_hold(acc, env) && forall|
            j: int,
        | i <= j < other.len() ==> env(other[j].0) != other[j].1),
    decreases other.len() - i,
{
    if i < other.len() {
        let tail_ok = forall|j: int| i + 1 <= j < other.len() ==> env(other[j].0) != other[j].1;
        let all_ok = forall|j: int| i <= j < other.len() ==> env(other[j].0) != other[j].1;
        assert(all_ok == (env(other[i].0) != other[i].1 && tail_ok)) by {
            if env(other[i].0) != other[i].1 && tail_ok {
                assert forall|j: int| i <= j < other.len() implies env(other[j].0) != other[j].1 by {
                    if j > i {
                    }
                }
            }
        }
        match entry_lookup(acc, other[i].0) {
            Some(a) => {
                if variables_hold(acc, env) {
                    lemma_lookup_holds(acc, other[i].0, env);
                }
                if a == other[i].1 {
                    lemma_merge_variables_sound(acc, other, i + 1, env);
                }
            },
            None => {
                lemma_merge_variables_sound(acc.push(other[i]), other, i + 1, env);
                lemma_variables_hold_push(acc, other[i], env);
            },
        }
    }
}

/// Merging conditions is their conjunction: the merge holds under an assignment exactly when
/// both hold.
pub proof fn law_merge_is_conjunction(
    a: ConditionsView,
    b: ConditionsView,
    env: spec_fn(Seq<char>) -> bool,
)
    ensures
        conditions_hold(merge_spec(a, b), env) == (conditions_hold(a, env) && conditions_hold(
            b,
            env,
        )),
{
    match (a, b) {
        (ConditionsView::Variables(x), ConditionsView::Variables(y)) => {
            lemma_merge_variables_sound(x, y, 0, env);
        },
        _ => {},
    }
}

proof fn lemma_filter_handled_sound(
    new: Seq<(Seq<char>, bool)>,
    handled: Seq<(Seq<char>, bool)>,
    i: int,
    kept: Seq<(Seq<char>, bool)>,
    env: spec_fn(Seq<char>) -> bool,
)
    requires
        0 <= i <= new.len(),
        variables_hold(handled, env),
    ensures
        conditions_hold(filter_handled(new, handled, i, kept), env) == (variables_hold(kept, env)
            && forall|j: int| i <= j < new.len() ==> env(new[j].0) != new[j].1),
    decreases new.len() - i,
{
    if i < new.len() {
        let tail_ok = forall|j: int| i + 1 <= j < new.len() ==> env(new[j].0) != new[j].1;
        let all_ok = forall|j: int| i <= j < new.len() ==> env(new[j].0) != new[j].1;
        assert(all_ok == (env(new[i].0) != new[i].1 && tail_ok)) by {
            if env(new[i].0) != new[i].1 && tail_ok {
                assert forall|j: int| i <= j < new.len() implies env(new[j].0) != new[j].1 by {
                    if j > i {
                    }
                }
            }
        }
        match entry_lookup(handled, new[i].0) {
            Some(h) => {
                lemma_lookup_holds(handled, new[i].0, env);
                if h == new[i].1 {
                    lemma_filter_handled_sound(new, handled, i + 1, kept, env);
                }
            },
            None => {
                lemma_filter_handled_sound(new, handled, i + 1, kept.push(new[i]), env);
                lemma_variables_hold_push(kept, new[i], env);
            },
        }
    }
}

/// Once the handled conditions hold, the updated conditions hold exactly when the new ones do.
pub proof fn law_update_with_preserves_meaning(
    handled: ConditionsView,
    new: ConditionsView,
    env: spec_fn(Seq<char>) -> bool,
)
    requires
        conditions_hold(handled, env),
    ensures
        conditions_hold(update_with_spec(handled, new), env) == conditions_hold(new, env),
{
    match (new, handled) {
        (ConditionsView::Variables(n), ConditionsView::Variables(h)) => {
            lemma_filter_handled_sound(n, h, 0, Seq::empty(), env);
        },
        _ => {},
    }
}

} // verus!
