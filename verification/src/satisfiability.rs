//! Satisfiability of a composition: the visits of query graph vertices, and the printing of
//! lists of names in messages.
use crate::ast::{concat_strs, concat_views};
use vstd::prelude::*;

verus! {

/// A hint produced while validating a composition.
#[derive(Debug, PartialEq, Eq)]
pub struct CompositionHint {
    pub message: String,
}

/// An error found while validating a composition.
#[derive(Debug, PartialEq, Eq)]
pub struct CompositionError {
    pub message: String,
}

/// A visit of a vertex: the subgraphs it was reached through, and the override conditions
/// (by label, each label at most once) under which it was reached.
#[derive(Debug)]
pub struct VertexVisit {
    pub subgraphs: Vec<String>,
    pub override_conditions: Vec<(String, bool)>,
}

/// The condition of `label` among `conds`: that of its first entry.
pub open spec fn condition_of(conds: Seq<(String, bool)>, label: Seq<char>) -> Option<bool>
    decreases conds.len(),
{
    if conds.len() == 0 {
        None
    } else if conds[0].0@ == label {
        Some(conds[0].1)
    } else {
        condition_of(conds.drop_first(), label)
    }
}

pub proof fn lemma_condition_of(conds: Seq<(String, bool)>, label: Seq<char>)
    ensures
        condition_of(conds, label) matches Some(c) ==> exists|i: int|
            0 <= i < conds.len() && conds[i].0@ == label && conds[i].1 == c && forall|j: int|
                0 <= j < i ==> conds[j].0@ != label,
        condition_of(conds, label) is None ==> forall|j: int| 0 <= j < conds.len() ==> conds[j].0@ != label,
    decreases conds.len(),
{
    if conds.len() > 0 {
        lemma_condition_of(conds.drop_first(), label);
        if conds[0].0@ != label {
            if condition_of(conds, label) is Some {
                let k = choose|k: int|
                    0 <= k < conds.drop_first().len() && conds.drop_first()[k].0@ == label
                        && conds.drop_first()[k].1 == condition_of(conds, label)->0 && forall|j: int|
                        0 <= j < k ==> conds.drop_first()[j].0@ != label;
                assert(conds[k + 1] == conds.drop_first()[k]);
                assert forall|j: int| 0 <= j < k + 1 implies conds[j].0@ != label by {
                    if j > 0 {
                        assert(conds[j] == conds.drop_first()[j - 1]);
                    }
                }
            } else {
                assert forall|j: int| 0 <= j < conds.len() implies conds[j].0@ != label by {
                    if j > 0 {
                        assert(conds[j] == conds.drop_first()[j - 1]);
                    }
                }
            }
        }
    }
}

/// The names of a list of strings.
pub open spec fn names_of(s: Seq<String>) -> Seq<Seq<char>> {
    s.map_values(|x: String| x@)
}

/// Whether the labels of a visit's override conditions are distinct.
pub open spec fn visit_wf(v: VertexVisit) -> bool {
    forall|i: int, j: int|
        0 <= i < j < v.override_conditions@.len() ==> v.override_conditions@[i].0@
            != v.override_conditions@[j].0@
}

/// Whether `a` includes all the subgraphs of `b`, and all the override conditions of `b`
/// with the same value.
pub open spec fn superset_or_equal(a: VertexVisit, b: VertexVisit) -> bool {
    &&& forall|i: int|
        0 <= i < b.subgraphs@.len() ==> names_of(a.subgraphs@).contains(#[trigger] b.subgraphs@[i]@)
    &&& forall|i: int|
        0 <= i < b.override_conditions@.len() ==> condition_of(
            a.override_conditions@,
            (#[trigger] b.override_conditions@[i]).0@,
        ) == Some(b.override_conditions@[i].1)
}

fn contains_str(v: &Vec<String>, s: &String) -> (res: bool)
    ensures
        res == names_of(v@).contains(s@),
{
    let mut i: usize = 0;
    while i < v.len()
        invariant
            i <= v@.len(),
            forall|j: int| 0 <= j < i ==> v@[j]@ != s@,
        decreases v@.len() - i,
    {
        if v[i] == *s {
            assert(names_of(v@)[i as int] == s@);
            return true;
        }
        i = i + 1;
    }
    proof {
        if names_of(v@).contains(s@) {
            let j = choose|j: int| 0 <= j < names_of(v@).len() && names_of(v@)[j] == s@;
            assert(v@[j]@ == s@);
        }
    }
    false
}

fn get_condition(conds: &Vec<(String, bool)>, label: &String) -> (res: Option<bool>)
    ensures
        res == condition_of(conds@, label@),
{
    let mut i: usize = 0;
    assert(conds@.subrange(0, conds@.len() as int) =~= conds@);
    while i < conds.len()
        invariant
            i <= conds@.len(),
            condition_of(conds@, label@) == condition_of(conds@.subrange(i as int, conds@.len() as int), label@),
        decreases conds@.len() - i,
    {
        assert(conds@.subrange(i as int, conds@.len() as int).drop_first() =~= conds@.subrange(
            i + 1,
            conds@.len() as int,
        ));
        if conds[i].0 == *label {
            return Some(conds[i].1);
        }
        i = i + 1;
    }
    None
}

/// Whether `maybe_superset` includes all the subgraphs of `other` and all of its override
/// conditions (with the same value).
pub fn is_superset_or_equal(maybe_superset: &VertexVisit, other: &VertexVisit) -> (res: bool)
    ensures
        res == superset_or_equal(*maybe_superset, *other),
{
    let mut all_subgraphs = true;
    let mut i: usize = 0;
    while i < other.subgraphs.len()
        invariant
            i <= other.subgraphs@.len(),
            all_subgraphs == forall|j: int|
                0 <= j < i ==> names_of(maybe_superset.subgraphs@).contains(#[trigger] other.subgraphs@[j]@),
        decreases other.subgraphs@.len() - i,
    {
        if !contains_str(&maybe_superset.subgraphs, &other.subgraphs[i]) {
            all_subgraphs = false;
        }
        i = i + 1;
    }
    let mut all_conditions = true;
    let mut k: usize = 0;
    while k < other.override_conditions.len()
        invariant
            k <= other.override_conditions@.len(),
            all_conditions == forall|j: int|
                0 <= j < k ==> condition_of(
                    maybe_superset.override_conditions@,
                    (#[trigger] other.override_conditions@[j]).0@,
                ) == Some(other.override_conditions@[j].1),
        decreases other.override_conditions@.len() - k,
    {
        let (label, condition) = &other.override_conditions[k];
        match get_condition(&maybe_superset.override_conditions, label) {
            Some(c) => {
                if c != *condition {
                    all_conditions = false;
                }
            },
            None => {
                all_conditions = false;
            },
        }
        k = k + 1;
    }
    all_subgraphs && all_conditions
}

/// Every visit whose override labels are distinct includes itself.
pub proof fn law_superset_or_equal_reflexive(v: VertexVisit)
    requires
        visit_wf(v),
    ensures
        superset_or_equal(v, v),
{
    assert forall|i: int| 0 <= i < v.subgraphs@.len() implies names_of(v.subgraphs@).contains(
        #[trigger] v.subgraphs@[i]@,
    ) by {
        assert(names_of(v.subgraphs@)[i] == v.subgraphs@[i]@);
    }
    assert forall|i: int| 0 <= i < v.override_conditions@.len() implies condition_of(
        v.override_conditions@,
        (#[trigger] v.override_conditions@[i]).0@,
    ) == Some(v.override_conditions@[i].1) by {
        let c = v.override_conditions@;
        lemma_condition_of(c, c[i].0@);
        if condition_of(c, c[i].0@) is None {
            assert(c[i].0@ != c[i].0@);
        } else {
            let k = choose|k: int|
                0 <= k < c.len() && c[k].0@ == c[i].0@ && c[k].1 == condition_of(c, c[i].0@)->0
                    && forall|j: int| 0 <= j < k ==> c[j].0@ != c[i].0@;
            if k != i {
                if k < i {
                    assert(c[k].0@ != c[i].0@);
                } else {
                    assert(c[i].0@ != c[k].0@);
                }
            }
        }
    }
}

/// Inclusion of visits is transitive.
pub proof fn law_superset_or_equal_transitive(a: VertexVisit, b: VertexVisit, c: VertexVisit)
    requires
        superset_or_equal(a, b),
        superset_or_equal(b, c),
    ensures
        superset_or_equal(a, c),
{
    assert forall|i: int| 0 <= i < c.subgraphs@.len() implies names_of(a.subgraphs@).contains(
        #[trigger] c.subgraphs@[i]@,
    ) by {
        assert(names_of(b.subgraphs@).contains(c.subgraphs@[i]@));
        let j = choose|j: int| 0 <= j < names_of(b.subgraphs@).len() && names_of(b.subgraphs@)[j] == c.subgraphs@[i]@;
        assert(names_of(a.subgraphs@).contains(b.subgraphs@[j]@));
    }
    assert forall|i: int| 0 <= i < c.override_conditions@.len() implies condition_of(
        a.override_conditions@,
        (#[trigger] c.override_conditions@[i]).0@,
    ) == Some(c.override_conditions@[i].1) by {
        let l = c.override_conditions@[i].0@;
        lemma_condition_of(b.override_conditions@, l);
        assert(condition_of(b.override_conditions@, l) == Some(c.override_conditions@[i].1));
        let k = choose|k: int|
            0 <= k < b.override_conditions@.len() && b.override_conditions@[k].0@ == l
                && b.override_conditions@[k].1 == c.override_conditions@[i].1 && forall|j: int|
                0 <= j < k ==> b.override_conditions@[j].0@ != l;
        assert(condition_of(a.override_conditions@, b.override_conditions@[k].0@) == Some(
            b.override_conditions@[k].1,
        ));
    }
}

/// `names` joined with `, `.
pub open spec fn join_names(names: Seq<Seq<char>>) -> Seq<char>
    decreases names.len(),
{
    if names.len() == 0 {
        Seq::empty()
    } else if names.len() == 1 {
        names[0]
    } else {
        join_names(names.drop_last()) + ", "@ + names.last()
    }
}

/// The number of leading names whose lengths add up to at most `cutoff`.
pub open spec fn fitting_count(names: Seq<Seq<char>>, cutoff: int) -> nat
    decreases names.len(),
{
    if names.len() == 0 || names[0].len() > cutoff {
        0
    } else {
        1 + fitting_count(names.drop_first(), cutoff - names[0].len())
    }
}

/// How many names are shown: all where there is no cutoff; else those that fit within the
/// cutoff, and at least one.
pub open spec fn shown_count(names: Seq<Seq<char>>, cutoff: Option<u32>) -> int {
    match cutoff {
        None => names.len() as int,
        Some(c) => {
            let k = fitting_count(names, c as int);
            if k == 0 { 1 } else { k as int }
        },
    }
}

/// `names` joined with `, `, but for `last` before the last name.
pub open spec fn join_with_last(names: Seq<Seq<char>>, last: Seq<char>) -> Seq<char> {
    if names.len() <= 1 {
        join_names(names)
    } else {
        join_names(names.drop_last()) + last + names.last()
    }
}

/// The list as [`print_human_readable_list`] prints it: the empty value (else nothing) for no
/// names; one name after the prefix and a space; several names after the plural prefix (else
/// the prefix) and a space, joined with `, ` and the last separator (else `, `) before the
/// last one, or, where the names do not all fit within the cutoff, only those shown (see
/// [`shown_count`]) joined with `, ` and followed by `, ...`.
pub open spec fn human_readable_list(
    names: Seq<Seq<char>>,
    empty_value: Option<Seq<char>>,
    prefix: Option<Seq<char>>,
    prefix_plural: Option<Seq<char>>,
    last_separator: Option<Seq<char>>,
    cutoff: Option<u32>,
) -> Seq<char> {
    if names.len() == 0 {
        match empty_value {
            Some(e) => e,
            None => Seq::empty(),
        }
    } else if names.len() == 1 {
        match prefix {
            Some(p) => p + " "@ + names[0],
            None => names[0],
        }
    } else {
        let pre = match prefix_plural {
            Some(p) => p + " "@,
            None => match prefix {
                Some(p) => p + " "@,
                None => Seq::empty(),
            },
        };
        let k = shown_count(names, cutoff);
        if k >= names.len() {
            pre + join_with_last(
                names,
                match last_separator {
                    Some(l) => l,
                    None => ", "@,
                },
            )
        } else {
            pre + join_names(names.take(k)) + ", ..."@
        }
    }
}

pub open spec fn opt_text(o: Option<String>) -> Option<Seq<char>> {
    match o {
        Some(s) => Some(s@),
        None => None,
    }
}

proof fn lemma_fitting_count_bound(names: Seq<Seq<char>>, cutoff: int)
    ensures
        fitting_count(names, cutoff) <= names.len(),
    decreases names.len(),
{
    if names.len() > 0 && names[0].len() <= cutoff {
        lemma_fitting_count_bound(names.drop_first(), cutoff - names[0].len());
    }
}

/// The number of leading names that fit within `cutoff` (see [`fitting_count`]).
fn fitting_count_of(names: &Vec<String>, cutoff: u32) -> (res: usize)
    ensures
        res == fitting_count(names_of(names@), cutoff as int),
{
    let mut k: usize = 0;
    let mut left: u64 = cutoff as u64;
    proof {
        assert(names_of(names@).skip(0) =~= names_of(names@));
    }
    while k < names.len()
        invariant
            k <= names@.len(),
            left <= cutoff,
            fitting_count(names_of(names@), cutoff as int) == k + fitting_count(names_of(names@).skip(k as int), left as int),
        decreases names@.len() - k,
    {
        let len = names[k].as_str().unicode_len();
        proof {
            assert(names_of(names@).skip(k as int)[0] == names@[k as int]@);
            assert(names_of(names@).skip(k as int).drop_first() =~= names_of(names@).skip(k + 1));
        }
        if len as u64 > left {
            return k;
        }
        left = left - len as u64;
        k = k + 1;
    }
    proof {
        assert(names_of(names@).skip(k as int).len() == 0);
    }
    k
}

/// Joins `names` with `, `, the last two with `last` (see [`join_with_last`]); only the first
/// `count` names where `count` is below their number.
fn join_first(names: &Vec<String>, count: usize, last: &str) -> (res: String)
    requires
        1 <= count <= names@.len(),
    ensures
        count == names@.len() ==> res@ == join_with_last(names_of(names@), last@),
        count < names@.len() ==> res@ == join_names(names_of(names@).take(count as int)),
{
    let ghost nv = names_of(names@);
    let mut out = String::new();
    let mut i: usize = 0;
    proof {
        assert(nv.take(0) =~= Seq::<Seq<char>>::empty());
    }
    let full = count == names.len();
    let stop = if full && count >= 2 { count - 1 } else { count };
    while i < stop
        invariant
            i <= stop <= count <= names@.len(),
            nv == names_of(names@),
            stop as int == (if full && count >= 2 { count - 1 } else { count as int }),
            full == (count == names@.len()),
            out@ == join_names(nv.take(i as int)),
        decreases stop - i,
    {
        proof {
            assert(nv.take(i + 1).drop_last() =~= nv.take(i as int));
        }
        if i == 0 {
            out.append(names[i].as_str());
            assert(nv.take(1) =~= seq![names@[0]@]);
        } else {
            let piece = concat_strs(&[", ", names[i].as_str()]);
            proof {
                reveal_with_fuel(concat_views, 3);
            }
            assert(piece@ =~= ", "@ + names@[i as int]@);
            let ghost before = out@;
            out.append(piece.as_str());
            assert(out@ =~= before + ", "@ + names@[i as int]@);
        }
        i = i + 1;
    }
    if full && count >= 2 {
        let piece = concat_strs(&[last, names[count - 1].as_str()]);
        proof {
            reveal_with_fuel(concat_views, 3);
            assert(nv.drop_last() =~= nv.take(count - 1));
        }
        assert(piece@ =~= last@ + names@[count - 1]@);
        let ghost before = out@;
        out.append(piece.as_str());
        assert(out@ =~= before + last@ + names@[count - 1]@);
    } else if full {
        assert(nv.take(count as int) =~= nv);
    }
    out
}

/// Joins names as a human reads a list (see [`human_readable_list`]): prefixed, with a last
/// separator, and cut short where too long.
pub fn print_human_readable_list(
    names: Vec<String>,
    empty_value: Option<String>,
    prefix: Option<String>,
    prefix_plural: Option<String>,
    last_separator: Option<String>,
    cutoff_output_length: Option<u32>,
) -> (res: String)
    ensures
        res@ == human_readable_list(
            names_of(names@),
            opt_text(empty_value),
            opt_text(prefix),
            opt_text(prefix_plural),
            opt_text(last_separator),
            cutoff_output_length,
        ),
{
    let ghost nv = names_of(names@);
    if names.len() == 0 {
        return match empty_value {
            Some(e) => e,
            None => String::new(),
        };
    }
    if names.len() == 1 {
        return match prefix {
            Some(p) => {
                let r = concat_strs(&[p.as_str(), " ", names[0].as_str()]);
                proof {
                    reveal_with_fuel(concat_views, 4);
                }
                assert(r@ =~= p@ + " "@ + nv[0]);
                r
            },
            None => names[0].clone(),
        };
    }
    let pre = match &prefix_plural {
        Some(p) => concat_strs(&[p.as_str(), " "]),
        None => match &prefix {
            Some(p) => concat_strs(&[p.as_str(), " "]),
            None => String::new(),
        },
    };
    proof {
        reveal_with_fuel(concat_views, 3);
    }
    let count = match cutoff_output_length {
        None => names.len(),
        Some(c) => {
            let k = fitting_count_of(&names, c);
            proof {
                lemma_fitting_count_bound(nv, c as int);
            }
            if k == 0 { 1 } else { k }
        },
    };
    let last = match &last_separator {
        Some(l) => l.clone(),
        None => String::from_str(", "),
    };
    proof {
        reveal_strlit(", ");
    }
    let body = join_first(&names, count, last.as_str());
    if count >= names.len() {
        let r = concat_strs(&[pre.as_str(), body.as_str()]);
        assert(r@ =~= pre@ + body@);
        r
    } else {
        let r = concat_strs(&[pre.as_str(), body.as_str(), ", ..."]);
        proof {
            reveal_with_fuel(concat_views, 4);
        }
        assert(r@ =~= pre@ + body@ + ", ..."@);
        r
    }
}

/// The subgraph names, each in double quotes, as a human-readable list prefixed with
/// `subgraph` (or `subgraphs` for several).
pub fn print_subgraph_names(names: &[String]) -> (res: String)
    ensures
        res@ == human_readable_list(
            names@.map_values(|n: String| "\""@ + n@ + "\""@),
            None,
            Some("subgraph"@),
            Some("subgraphs"@),
            None,
            None,
        ),
{
    let mut quoted: Vec<String> = Vec::new();
    let mut i: usize = 0;
    while i < names.len()
        invariant
            i <= names@.len(),
            quoted@.len() == i,
            forall|j: int| 0 <= j < i ==> #[trigger] quoted@[j]@ == "\""@ + names@[j]@ + "\""@,
        decreases names@.len() - i,
    {
        let q = concat_strs(&["\"", names[i].as_str(), "\""]);
        proof {
            reveal_with_fuel(concat_views, 4);
        }
        assert(q@ =~= "\""@ + names@[i as int]@ + "\""@);
        quoted.push(q);
        i = i + 1;
    }
    assert(names_of(quoted@) =~= names@.map_values(|n: String| "\""@ + n@ + "\""@));
    proof {
        reveal_strlit("subgraph");
        reveal_strlit("subgraphs");
    }
    print_human_readable_list(quoted, None, Some(String::from_str("subgraph")), Some(String::from_str("subgraphs")), None, None)
}

/// The traversal that validates the satisfiability of a composition.
#[derive(Debug)]
pub struct ValidationTraversal {}

impl ValidationTraversal {
    /// A traversal of a supergraph schema.
    pub fn new(supergraph_schema: usize) -> (res: ValidationTraversal)
        ensures
            res == (ValidationTraversal {}),
    {
        ValidationTraversal {}
    }

    /// Validates the composition. The traversal of the query graphs is not available, so
    /// this answers with an error saying so (and no hints).
    pub fn validate(&mut self) -> (res: Result<Vec<CompositionHint>, (Vec<CompositionError>, Vec<CompositionHint>)>)
        ensures
            res matches Err((errors, hints)) && errors@.len() == 1 && errors@[0].message@
                == validation_unavailable_message() && hints@.len() == 0,
            *final(self) == *old(self),
    {
        let mut errors: Vec<CompositionError> = Vec::new();
        errors.push(CompositionError { message: String::from_str("satisfiability validation is not available") });
        Err((errors, Vec::new()))
    }

    /// Handles a validation state: nothing is done.
    pub fn handle_state(&mut self)
        ensures
            *final(self) == *old(self),
    {
    }
}

/// The message of the error that answers a validation.
pub open spec fn validation_unavailable_message() -> Seq<char> {
    "satisfiability validation is not available"@
}

/// Validates that a composition is satisfiable (see [`ValidationTraversal::validate`]).
pub fn validate_graph_composition(supergraph_schema: usize) -> (res: Result<
    Vec<CompositionHint>,
    (Vec<CompositionError>, Vec<CompositionHint>),
>)
    ensures
        res matches Err((errors, hints)) && errors@.len() == 1 && errors@[0].message@
            == validation_unavailable_message() && hints@.len() == 0,
{
    let mut traversal = ValidationTraversal::new(supergraph_schema);
    traversal.validate()
}

} // verus!
