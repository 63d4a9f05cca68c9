//! Plain-value model of the GraphQL syntax elements that the federation logic reads:
//! values, arguments and directive applications.
use vstd::prelude::*;
use vstd::string::*;


verus! {

/// A GraphQL input value. Numbers are kept in their textual form, as the GraphQL
/// syntax writes them.
#[derive(Debug, PartialEq, Eq)]
pub enum Value {
    Null,
    Enum(String),
    Variable(String),
    String(String),
    Float(String),
    Int(String),
    Boolean(bool),
    List(Vec<Value>),
    Object(Vec<(String, Value)>),
}

/// A named argument of a directive application (or of a field selection).
#[derive(Debug, PartialEq, Eq)]
pub struct Argument {
    pub name: String,
    pub value: Value,
}

/// An applied directive, such as `@skip(if: $x)`.
#[derive(Debug, PartialEq, Eq)]
pub struct Directive {
    pub name: String,
    pub arguments: Vec<Argument>,
}

/// The mathematical form of a [`Value`], in which lists are sequences.
pub enum ValueView {
    Null,
    Enum(Seq<char>),
    Variable(Seq<char>),
    String(Seq<char>),
    Float(Seq<char>),
    Int(Seq<char>),
    Boolean(bool),
    List(Seq<ValueView>),
    Object(Seq<(Seq<char>, ValueView)>),
}

/// The mathematical form of an [`Argument`].
pub struct ArgumentView {
    pub name: Seq<char>,
    pub value: ValueView,
}

/// The mathematical form of a [`Directive`].
pub struct DirectiveView {
    pub name: Seq<char>,
    pub arguments: Seq<ArgumentView>,
}

pub open spec fn value_view(v: &Value) -> ValueView
    decreases v, 0int,
{
    match v {
        Value::Null => ValueView::Null,
        Value::Enum(s) => ValueView::Enum(s@),
        Value::Variable(s) => ValueView::Variable(s@),
        Value::String(s) => ValueView::String(s@),
        Value::Float(s) => ValueView::Float(s@),
        Value::Int(s) => ValueView::Int(s@),
        Value::Boolean(b) => ValueView::Boolean(*b),
        Value::List(l) => ValueView::List(values_view(l@)),
        Value::Object(o) => ValueView::Object(entries_view(o@)),
    }
}

pub open spec fn values_view(s: Seq<Value>) -> Seq<ValueView>
    decreases s, 1int,
{
    if s.len() == 0 {
        Seq::empty()
    } else {
        values_view(s.drop_last()).push(value_view(&s.last()))
    }
}

pub open spec fn entries_view(s: Seq<(String, Value)>) -> Seq<(Seq<char>, ValueView)>
    decreases s, 1int,
{
    if s.len() == 0 {
        Seq::empty()
    } else {
        entries_view(s.drop_last()).push((s.last().0@, value_view(&s.last().1)))
    }
}

impl View for Value {
    type V = ValueView;

    open spec fn view(&self) -> ValueView {
        value_view(self)
    }
}

impl View for Argument {
    type V = ArgumentView;

    open spec fn view(&self) -> ArgumentView {
        ArgumentView { name: self.name@, value: self.value@ }
    }
}

impl View for Directive {
    type V = DirectiveView;

    open spec fn view(&self) -> DirectiveView {
        DirectiveView { name: self.name@, arguments: arguments_view(self.arguments@) }
    }
}

impl Clone for Value {
    fn clone(&self) -> (res: Self)
        ensures
            res@ == self@,
    {
        clone_value(self)
    }
}

/// A copy of a value with the same mathematical form.
pub fn clone_value(v: &Value) -> (res: Value)
    ensures
        res@ == v@,
    decreases v,
{
        match v {
            Value::Null => Value::Null,
            Value::Enum(s) => Value::Enum(s.clone()),
            Value::Variable(s) => Value::Variable(s.clone()),
            Value::String(s) => Value::String(s.clone()),
            Value::Float(s) => Value::Float(s.clone()),
            Value::Int(s) => Value::Int(s.clone()),
            Value::Boolean(b) => Value::Boolean(*b),
            Value::List(l) => {
                let mut out: Vec<Value> = Vec::new();
                let mut i: usize = 0;
                while i < l.len()
                    invariant
                        i <= l@.len(),
                        values_view(out@) == values_view(l@.take(i as int)),
                        *v == Value::List(*l),
                    decreases l@.len() - i,
                {
                    proof {
                        assert(decreases_to!(*v => v->List_0));
                        assert(decreases_to!(v->List_0 => v->List_0@));
                        assert(decreases_to!(v->List_0@ => v->List_0@[i as int]));
                    }
                    let c = clone_value(&l[i]);
                    let ghost prev = out@;
                    out.push(c);
                    proof {
                        assert(out@.drop_last() =~= prev);
                    }
                    proof {
                        
                        assert(l@.take(i as int + 1).drop_last() =~= l@.take(i as int));
                    }
                    i = i + 1;
                }
                proof {
                    assert(l@.take(l@.len() as int) =~= l@);
                }
                Value::List(out)
            },
            Value::Object(o) => {
                let mut out: Vec<(String, Value)> = Vec::new();
                let mut i: usize = 0;
                while i < o.len()
                    invariant
                        i <= o@.len(),
                        entries_view(out@) == entries_view(o@.take(i as int)),
                        *v == Value::Object(*o),
                    decreases o@.len() - i,
                {
                    proof {
                        assert(decreases_to!(*v => v->Object_0));
                        assert(decreases_to!(v->Object_0 => v->Object_0@));
                        assert(decreases_to!(v->Object_0@ => v->Object_0@[i as int]));
                        assert(decreases_to!(v->Object_0@[i as int] => v->Object_0@[i as int].1));
                    }
                    let k = o[i].0.clone();
                    let w = clone_value(&o[i].1);
                    let ghost prev = out@;
                    out.push((k, w));
                    proof {
                        assert(out@.drop_last() =~= prev);
                    }
                    proof {
                        assert(o@.take(i as int + 1).drop_last() =~= o@.take(i as int));
                    }
                    i = i + 1;
                }
                proof {
                    assert(o@.take(o@.len() as int) =~= o@);
                }
                Value::Object(out)
            },
        }
}

/// The mathematical forms of a sequence of directive applications.
pub open spec fn directives_view(s: Seq<Directive>) -> Seq<DirectiveView> {
    s.map_values(|d: Directive| d@)
}

/// The mathematical forms of a sequence of arguments.
pub open spec fn arguments_view(s: Seq<Argument>) -> Seq<ArgumentView> {
    s.map_values(|a: Argument| a@)
}

impl Clone for Argument {
    fn clone(&self) -> (res: Self)
        ensures
            res@ == self@,
    {
        Argument { name: self.name.clone(), value: clone_value(&self.value) }
    }
}

/// A copy of a list of arguments with the same mathematical form.
pub fn clone_arguments(args: &Vec<Argument>) -> (res: Vec<Argument>)
    ensures
        arguments_view(res@) == arguments_view(args@),
{
    let mut out: Vec<Argument> = Vec::new();
    let mut i: usize = 0;
    while i < args.len()
        invariant
            i <= args@.len(),
            out@.len() == i,
            forall|j: int| 0 <= j < i ==> out@[j]@ == args@[j]@,
        decreases args@.len() - i,
    {
        out.push(args[i].clone());
        i = i + 1;
    }
    assert(arguments_view(out@) =~= arguments_view(args@));
    out
}

impl Clone for Directive {
    fn clone(&self) -> (res: Self)
        ensures
            res@ == self@,
    {
        let arguments = clone_arguments(&self.arguments);
        Directive { name: self.name.clone(), arguments }
    }
}

/// A copy of a list of directive applications with the same mathematical form.
pub fn clone_directives(directives: &Vec<Directive>) -> (res: Vec<Directive>)
    ensures
        directives_view(res@) == directives_view(directives@),
{
    let mut out: Vec<Directive> = Vec::new();
    let mut i: usize = 0;
    while i < directives.len()
        invariant
            i <= directives@.len(),
            out@.len() == i,
            forall|j: int| 0 <= j < i ==> out@[j]@ == directives@[j]@,
        decreases directives@.len() - i,
    {
        out.push(directives[i].clone());
        i = i + 1;
    }
    assert(directives_view(out@) =~= directives_view(directives@));
    out
}

/// The characters of a string literal's contents with `"`, `\\`, newline, carriage return
/// and tab escaped.
pub open spec fn escaped(s: Seq<char>) -> Seq<char>
    decreases s.len(),
{
    if s.len() == 0 {
        Seq::empty()
    } else {
        escaped(s.drop_last()) + escape_char(s.last())
    }
}

pub open spec fn escape_char(c: char) -> Seq<char> {
    if c == '"' {
        seq!['\\', '"']
    } else if c == '\\' {
        seq!['\\', '\\']
    } else if c == '\n' {
        seq!['\\', 'n']
    } else if c == '\r' {
        seq!['\\', 'r']
    } else if c == '\t' {
        seq!['\\', 't']
    } else {
        seq![c]
    }
}

/// The GraphQL text of a value.
pub open spec fn value_text(v: ValueView) -> Seq<char>
    decreases v, 0int,
{
    match v {
        ValueView::Null => "null"@,
        ValueView::Enum(e) => e,
        ValueView::Variable(n) => seq!['$'] + n,
        ValueView::String(s) => seq!['"'] + escaped(s) + seq!['"'],
        ValueView::Float(f) => f,
        ValueView::Int(i) => i,
        ValueView::Boolean(b) => if b {
            "true"@
        } else {
            "false"@
        },
        ValueView::List(l) => seq!['['] + list_text(l) + seq![']'],
        ValueView::Object(o) => seq!['{'] + object_text(o) + seq!['}'],
    }
}

/// The items of a list value, separated by `, `.
pub open spec fn list_text(l: Seq<ValueView>) -> Seq<char>
    decreases l, 1int,
{
    if l.len() == 0 {
        Seq::empty()
    } else if l.len() == 1 {
        value_text(l[0])
    } else {
        list_text(l.drop_last()) + ", "@ + value_text(l.last())
    }
}

/// The fields of an object value, as `name: value` separated by `, `.
pub open spec fn object_text(o: Seq<(Seq<char>, ValueView)>) -> Seq<char>
    decreases o, 1int,
{
    if o.len() == 0 {
        Seq::empty()
    } else if o.len() == 1 {
        o[0].0 + ": "@ + value_text(o[0].1)
    } else {
        object_text(o.drop_last()) + ", "@ + o.last().0 + ": "@ + value_text(o.last().1)
    }
}

pub(crate) fn push_char(s: &mut String, c: char)
    ensures
        final(s)@ == old(s)@.push(c),
{
    let mut buf: Vec<char> = Vec::new();
    buf.push(c);
    push_chars(s, &buf);
    assert(buf@ =~= seq![c]);
}

/// Appends characters one by one.
#[verifier::external_body]
fn push_chars(s: &mut String, chars: &Vec<char>)
    ensures
        final(s)@ == old(s)@ + chars@,
{
    s.extend(chars.iter())
}

/// Appends the escaped contents of a string literal.
fn push_escaped(out: &mut String, s: &String)
    ensures
        final(out)@ == old(out)@ + escaped(s@),
{
    let n = s.as_str().unicode_len();
    let mut i: usize = 0;
    while i < n
        invariant
            i <= n,
            n == s@.len(),
            out@ == old(out)@ + escaped(s@.take(i as int)),
        decreases n - i,
    {
        let c = s.as_str().get_char(i);
        let ghost before = out@;
        if c == '"' {
            push_char(out, '\\');
            push_char(out, '"');
        } else if c == '\\' {
            push_char(out, '\\');
            push_char(out, '\\');
        } else if c == '\n' {
            push_char(out, '\\');
            push_char(out, 'n');
        } else if c == '\r' {
            push_char(out, '\\');
            push_char(out, 'r');
        } else if c == '\t' {
            push_char(out, '\\');
            push_char(out, 't');
        } else {
            push_char(out, c);
        }
        proof {
            assert(s@.take(i as int + 1).drop_last() =~= s@.take(i as int));
            assert(out@ =~= before + escape_char(c));
            assert(old(out)@ + escaped(s@.take(i as int + 1)) =~= old(out)@ + escaped(
                s@.take(i as int),
            ) + escape_char(c));
        }
        i = i + 1;
    }
    proof {
        assert(s@.take(n as int) =~= s@);
    }
}

/// Appends the GraphQL text of a value.
pub fn push_value_text(out: &mut String, v: &Value)
    ensures
        final(out)@ == old(out)@ + value_text(v@),
    decreases v,
{
    match v {
        Value::Null => {
            out.append("null");
        },
        Value::Enum(e) => {
            out.append(e.as_str());
        },
        Value::Variable(n) => {
            push_char(out, '$');
            out.append(n.as_str());
            proof {
                assert(out@ =~= old(out)@ + (seq!['$'] + n@));
            }
        },
        Value::String(s) => {
            push_char(out, '"');
            push_escaped(out, s);
            push_char(out, '"');
            proof {
                assert(out@ =~= old(out)@ + (seq!['"'] + escaped(s@) + seq!['"']));
            }
        },
        Value::Float(f) => {
            out.append(f.as_str());
        },
        Value::Int(i) => {
            out.append(i.as_str());
        },
        Value::Boolean(b) => {
            if *b {
                out.append("true");
            } else {
                out.append("false");
            }
        },
        Value::List(l) => {
            push_char(out, '[');
            let ghost start = out@;
            let mut i: usize = 0;
            while i < l.len()
                invariant
                    i <= l@.len(),
                    *v == Value::List(*l),
                    out@ == start + list_text(values_view(l@.take(i as int))),
                decreases l@.len() - i,
            {
                proof {
                    assert(decreases_to!(*v => v->List_0));
                    assert(decreases_to!(v->List_0 => v->List_0@));
                    assert(decreases_to!(v->List_0@ => v->List_0@[i as int]));
                    lemma_values_view_take(l@, i as int);
                }
                if i > 0 {
                    out.append(", ");
                }
                push_value_text(out, &l[i]);
                proof {
                    lemma_values_view_take(l@, i as int + 1);
                    let pre = values_view(l@.take(i as int));
                    let post = values_view(l@.take(i as int + 1));
                    assert(post.drop_last() =~= pre);
                    if i == 0 {
                        assert(post.len() == 1);
                        assert(out@ =~= start + list_text(post));
                    } else {
                        assert(out@ =~= start + list_text(post));
                    }
                }
                i = i + 1;
            }
            push_char(out, ']');
            proof {
                assert(l@.take(l@.len() as int) =~= l@);
                assert(out@ =~= old(out)@ + (seq!['['] + list_text(values_view(l@)) + seq![']']));
            }
        },
        Value::Object(o) => {
            push_char(out, '{');
            let ghost start = out@;
            let mut i: usize = 0;
            while i < o.len()
                invariant
                    i <= o@.len(),
                    *v == Value::Object(*o),
                    out@ == start + object_text(entries_view(o@.take(i as int))),
                decreases o@.len() - i,
            {
                proof {
                    assert(decreases_to!(*v => v->Object_0));
                    assert(decreases_to!(v->Object_0 => v->Object_0@));
                    assert(decreases_to!(v->Object_0@ => v->Object_0@[i as int]));
                    assert(decreases_to!(v->Object_0@[i as int] => v->Object_0@[i as int].1));
                    lemma_entries_view_take(o@, i as int);
                }
                if i > 0 {
                    out.append(", ");
                }
                out.append(o[i].0.as_str());
                out.append(": ");
                push_value_text(out, &o[i].1);
                proof {
                    lemma_entries_view_take(o@, i as int + 1);
                    let pre = entries_view(o@.take(i as int));
                    let post = entries_view(o@.take(i as int + 1));
                    assert(post.drop_last() =~= pre);
                    assert(out@ =~= start + object_text(post));
                }
                i = i + 1;
            }
            push_char(out, '}');
            proof {
                assert(o@.take(o@.len() as int) =~= o@);
                assert(out@ =~= old(out)@ + (seq!['{'] + object_text(entries_view(o@)) + seq!['}']));
            }
        },
    }
}

pub proof fn lemma_values_view_take(l: Seq<Value>, i: int)
    requires
        0 <= i <= l.len(),
    ensures
        values_view(l.take(i)).len() == i,
        forall|j: int| 0 <= j < i ==> values_view(l.take(i))[j] == value_view(&l[j]),
    decreases i,
{
    if i > 0 {
        lemma_values_view_take(l, i - 1);
        assert(l.take(i).drop_last() =~= l.take(i - 1));
    }
}

pub proof fn lemma_entries_view_take(o: Seq<(String, Value)>, i: int)
    requires
        0 <= i <= o.len(),
    ensures
        entries_view(o.take(i)).len() == i,
        forall|j: int|
            0 <= j < i ==> entries_view(o.take(i))[j] == (o[j].0@, value_view(&o[j].1)),
    decreases i,
{
    if i > 0 {
        lemma_entries_view_take(o, i - 1);
        assert(o.take(i).drop_last() =~= o.take(i - 1));
    }
}

/// Whether two values have the same mathematical form.
pub fn values_equal(a: &Value, b: &Value) -> (res: bool)
    ensures
        res == (a@ == b@),
    decreases a,
{
    match (a, b) {
        (Value::Null, Value::Null) => true,
        (Value::Enum(x), Value::Enum(y)) => *x == *y,
        (Value::Variable(x), Value::Variable(y)) => *x == *y,
        (Value::String(x), Value::String(y)) => *x == *y,
        (Value::Float(x), Value::Float(y)) => *x == *y,
        (Value::Int(x), Value::Int(y)) => *x == *y,
        (Value::Boolean(x), Value::Boolean(y)) => *x == *y,
        (Value::List(x), Value::List(y)) => {
            proof {
                lemma_values_view_take(x@, x@.len() as int);
                lemma_values_view_take(y@, y@.len() as int);
                assert(x@.take(x@.len() as int) =~= x@);
                assert(y@.take(y@.len() as int) =~= y@);
            }
            if x.len() != y.len() {
                return false;
            }
            let mut i: usize = 0;
            while i < x.len()
                invariant
                    i <= x@.len(),
                    x@.len() == y@.len(),
                    *a == Value::List(*x),
                    *b == Value::List(*y),
                    values_view(x@).len() == x@.len(),
                    values_view(y@).len() == y@.len(),
                    forall|j: int| 0 <= j < x@.len() ==> values_view(x@)[j] == value_view(&x@[j]),
                    forall|j: int| 0 <= j < y@.len() ==> values_view(y@)[j] == value_view(&y@[j]),
                    forall|j: int| 0 <= j < i ==> value_view(&x@[j]) == value_view(&y@[j]),
                decreases x@.len() - i,
            {
                proof {
                    assert(decreases_to!(*a => a->List_0));
                    assert(decreases_to!(a->List_0 => a->List_0@));
                    assert(decreases_to!(a->List_0@ => a->List_0@[i as int]));
                }
                if !values_equal(&x[i], &y[i]) {
                    assert(values_view(x@)[i as int] != values_view(y@)[i as int]);
                    return false;
                }
                i = i + 1;
            }
            assert(values_view(x@) =~= values_view(y@));
            true
        },
        (Value::Object(x), Value::Object(y)) => {
            proof {
                lemma_entries_view_take(x@, x@.len() as int);
                lemma_entries_view_take(y@, y@.len() as int);
                assert(x@.take(x@.len() as int) =~= x@);
                assert(y@.take(y@.len() as int) =~= y@);
            }
            if x.len() != y.len() {
                return false;
            }
            let mut i: usize = 0;
            while i < x.len()
                invariant
                    i <= x@.len(),
                    x@.len() == y@.len(),
                    *a == Value::Object(*x),
                    *b == Value::Object(*y),
                    entries_view(x@).len() == x@.len(),
                    entries_view(y@).len() == y@.len(),
                    forall|j: int|
                        0 <= j < x@.len() ==> entries_view(x@)[j] == (x@[j].0@, value_view(&x@[j].1)),
                    forall|j: int|
                        0 <= j < y@.len() ==> entries_view(y@)[j] == (y@[j].0@, value_view(&y@[j].1)),
                    forall|j: int| 0 <= j < i ==> entries_view(x@)[j] == entries_view(y@)[j],
                decreases x@.len() - i,
            {
                proof {
                    assert(decreases_to!(*a => a->Object_0));
                    assert(decreases_to!(a->Object_0 => a->Object_0@));
                    assert(decreases_to!(a->Object_0@ => a->Object_0@[i as int]));
                    assert(decreases_to!(a->Object_0@[i as int] => a->Object_0@[i as int].1));
                }
                if !(x[i].0 == y[i].0) {
                    assert(entries_view(x@)[i as int] != entries_view(y@)[i as int]);
                    return false;
                }
                if !values_equal(&x[i].1, &y[i].1) {
                    assert(entries_view(x@)[i as int] != entries_view(y@)[i as int]);
                    return false;
                }
                i = i + 1;
            }
            assert(entries_view(x@) =~= entries_view(y@));
            true
        },
        _ => false,
    }
}

/// Whether two argument lists have the same mathematical form.
pub fn arguments_equal(a: &Vec<Argument>, b: &Vec<Argument>) -> (res: bool)
    ensures
        res == (arguments_view(a@) == arguments_view(b@)),
{
    if a.len() != b.len() {
        assert(arguments_view(a@).len() != arguments_view(b@).len());
        return false;
    }
    let mut i: usize = 0;
    while i < a.len()
        invariant
            i <= a@.len(),
            a@.len() == b@.len(),
            forall|j: int| 0 <= j < i ==> a@[j]@ == b@[j]@,
        decreases a@.len() - i,
    {
        if !(a[i].name == b[i].name) || !values_equal(&a[i].value, &b[i].value) {
            assert(arguments_view(a@)[i as int] != arguments_view(b@)[i as int]);
            return false;
        }
        i = i + 1;
    }
    assert(arguments_view(a@) =~= arguments_view(b@));
    true
}

/// Whether two lists of directive applications have the same mathematical form.
pub fn directives_equal(a: &Vec<Directive>, b: &Vec<Directive>) -> (res: bool)
    ensures
        res == (directives_view(a@) == directives_view(b@)),
{
    if a.len() != b.len() {
        assert(directives_view(a@).len() != directives_view(b@).len());
        return false;
    }
    let mut i: usize = 0;
    while i < a.len()
        invariant
            i <= a@.len(),
            a@.len() == b@.len(),
            forall|j: int| 0 <= j < i ==> a@[j]@ == b@[j]@,
        decreases a@.len() - i,
    {
        if !(a[i].name == b[i].name) || !arguments_equal(&a[i].arguments, &b[i].arguments) {
            assert(directives_view(a@)[i as int] != directives_view(b@)[i as int]);
            return false;
        }
        i = i + 1;
    }
    assert(directives_view(a@) =~= directives_view(b@));
    true
}

/// Lexicographic order on character sequences, from position `i` on.
pub open spec fn lt_from(a: Seq<char>, b: Seq<char>, i: int) -> bool
    decreases a.len() - i,
{
    if i < 0 || i >= b.len() {
        false
    } else if i >= a.len() {
        true
    } else if a[i] != b[i] {
        (a[i] as int) < (b[i] as int)
    } else {
        lt_from(a, b, i + 1)
    }
}

proof fn lemma_lt_from_asymmetric(a: Seq<char>, b: Seq<char>, i: int)
    requires
        0 <= i,
    ensures
        lt_from(a, b, i) ==> !lt_from(b, a, i),
    decreases a.len() - i,
{
    if i < a.len() && i < b.len() && a[i] == b[i] {
        lemma_lt_from_asymmetric(a, b, i + 1);
    }
}

proof fn lemma_lt_from_transitive(a: Seq<char>, b: Seq<char>, c: Seq<char>, i: int)
    requires
        0 <= i,
        lt_from(a, b, i),
        lt_from(b, c, i),
    ensures
        lt_from(a, c, i),
    decreases a.len() - i,
{
    if i < a.len() && i < b.len() && i < c.len() && a[i] == b[i] && b[i] == c[i] {
        lemma_lt_from_transitive(a, b, c, i + 1);
    }
}

proof fn lemma_lt_from_total(a: Seq<char>, b: Seq<char>, i: int)
    requires
        0 <= i <= a.len(),
        i <= b.len(),
        a.skip(i) != b.skip(i),
    ensures
        lt_from(a, b, i) || lt_from(b, a, i),
    decreases a.len() - i,
{
    if i < a.len() && i < b.len() {
        if a[i] == b[i] {
            if a.skip(i + 1) =~= b.skip(i + 1) {
                assert(a.skip(i) =~= seq![a[i]] + a.skip(i + 1));
                assert(b.skip(i) =~= seq![b[i]] + b.skip(i + 1));
            }
            lemma_lt_from_total(a, b, i + 1);
        } else {
            assert((a[i] as int) != (b[i] as int));
        }
    } else if i >= a.len() && i >= b.len() {
        assert(a.skip(i) =~= b.skip(i));
    }
}

/// The lexicographic order on character sequences is a strict total order.
pub proof fn lemma_str_lt_order(a: Seq<char>, b: Seq<char>, c: Seq<char>)
    ensures
        str_lt(a, b) ==> !str_lt(b, a),
        str_lt(a, b) && str_lt(b, c) ==> str_lt(a, c),
        a != b ==> str_lt(a, b) || str_lt(b, a),
{
    lemma_lt_from_asymmetric(a, b, 0);
    if str_lt(a, b) && str_lt(b, c) {
        lemma_lt_from_transitive(a, b, c, 0);
    }
    if a != b {
        assert(a.skip(0) =~= a);
        assert(b.skip(0) =~= b);
        lemma_lt_from_total(a, b, 0);
    }
}

/// Lexicographic order on character sequences (the order of Rust's `str`).
pub open spec fn str_lt(a: Seq<char>, b: Seq<char>) -> bool {
    lt_from(a, b, 0)
}

/// Whether `a` comes strictly before `b` in lexicographic order.
pub fn string_lt(a: &String, b: &String) -> (res: bool)
    ensures
        res == str_lt(a@, b@),
{
    let na = a.as_str().unicode_len();
    let nb = b.as_str().unicode_len();
    let mut i: usize = 0;
    while i < na && i < nb
        invariant
            na == a@.len(),
            nb == b@.len(),
            i <= na,
            i <= nb,
            str_lt(a@, b@) == lt_from(a@, b@, i as int),
        decreases na - i,
    {
        let ca = a.as_str().get_char(i);
        let cb = b.as_str().get_char(i);
        if ca != cb {
            return (ca as u32) < (cb as u32);
        }
        i = i + 1;
    }
    i < nb
}

/// Index of the first argument named `name`, if any.
pub open spec fn first_argument_index(args: Seq<Argument>, name: Seq<char>) -> Option<int>
    decreases args.len(),
{
    if args.len() == 0 {
        None
    } else if args[0].name@ == name {
        Some(0)
    } else {
        match first_argument_index(args.drop_first(), name) {
            Some(i) => Some(i + 1),
            None => None,
        }
    }
}

pub proof fn lemma_first_argument_index(args: Seq<Argument>, name: Seq<char>)
    ensures
        match first_argument_index(args, name) {
            Some(i) => 0 <= i < args.len() && args[i].name@ == name && forall|j: int|
                0 <= j < i ==> args[j].name@ != name,
            None => forall|j: int| 0 <= j < args.len() ==> args[j].name@ != name,
        },
    decreases args.len(),
{
    if args.len() > 0 {
        lemma_first_argument_index(args.drop_first(), name);
        if args[0].name@ != name {
            assert forall|j: int| 1 <= j < args.len() implies args[j] == args.drop_first()[j - 1] by {}
        }
    }
}

/// Whether a directive list holds a directive named `name`.
pub open spec fn has_directive(directives: Seq<Directive>, name: Seq<char>) -> bool {
    exists|i: int| 0 <= i < directives.len() && directives[i].name@ == name
}

/// Compares a `String` with a `&str` by their characters.
pub fn str_eq(a: &String, b: &str) -> (res: bool)
    ensures
        res == (a@ == b@),
{
    let bs = String::from_str(b);
    *a == bs
}

/// Concatenates string pieces into a new `String`.
pub fn concat_strs(parts: &[&str]) -> (res: String)
    ensures
        res@ == concat_views(parts@),
{
    let mut res = String::new();
    let mut i: usize = 0;
    while i < parts.len()
        invariant
            i <= parts@.len(),
            res@ == concat_views(parts@.take(i as int)),
        decreases parts@.len() - i,
    {
        res.append(parts[i]);
        proof {
            assert(parts@.take(i as int + 1).drop_last() =~= parts@.take(i as int));
        }
        i = i + 1;
    }
    proof {
        assert(parts@.take(parts@.len() as int) =~= parts@);
    }
    res
}

/// The concatenation of the views of string pieces.
pub open spec fn concat_views(parts: Seq<&str>) -> Seq<char>
    decreases parts.len(),
{
    if parts.len() == 0 {
        Seq::empty()
    } else {
        concat_views(parts.drop_last()) + parts.last()@
    }
}

impl Directive {
    /// The value of the first argument named `name`, if any.
    pub fn argument_by_name(&self, name: &str) -> (res: Option<&Value>)
        ensures
            match first_argument_index(self.arguments@, name@) {
                Some(i) => res == Some(&self.arguments@[i].value),
                None => res is None,
            },
    {
        let mut i: usize = 0;
        while i < self.arguments.len()
            invariant
                i <= self.arguments@.len(),
                forall|j: int| 0 <= j < i ==> self.arguments@[j].name@ != name@,
            decreases self.arguments@.len() - i,
        {
            if str_eq(&self.arguments[i].name, name) {
                proof {
                    lemma_first_argument_index(self.arguments@, name@);
                }
                return Some(&self.arguments[i].value);
            }
            i = i + 1;
        }
        proof {
            lemma_first_argument_index(self.arguments@, name@);
        }
        None
    }
}

/// Whether a directive named `name` is applied in `directives`.
pub fn directives_has(directives: &Vec<Directive>, name: &str) -> (res: bool)
    ensures
        res == has_directive(directives@, name@),
{
    let mut i: usize = 0;
    while i < directives.len()
        invariant
            i <= directives@.len(),
            forall|j: int| 0 <= j < i ==> directives@[j].name@ != name@,
        decreases directives@.len() - i,
    {
        if str_eq(&directives[i].name, name) {
            return true;
        }
        i = i + 1;
    }
    false
}

/// The character of a decimal digit.
pub open spec fn digit_char(d: nat) -> char {
    if d == 0 {
        '0'
    } else if d == 1 {
        '1'
    } else if d == 2 {
        '2'
    } else if d == 3 {
        '3'
    } else if d == 4 {
        '4'
    } else if d == 5 {
        '5'
    } else if d == 6 {
        '6'
    } else if d == 7 {
        '7'
    } else if d == 8 {
        '8'
    } else {
        '9'
    }
}

/// The decimal notation of a natural number, without leading zeros.
pub open spec fn decimal(n: nat) -> Seq<char>
    decreases n,
{
    if n < 10 {
        seq![digit_char(n)]
    } else {
        decimal(n / 10).push(digit_char(n % 10))
    }
}

fn digit(d: u32) -> (c: char)
    requires
        d < 10,
    ensures
        c == digit_char(d as nat),
{
    if d == 0 {
        '0'
    } else if d == 1 {
        '1'
    } else if d == 2 {
        '2'
    } else if d == 3 {
        '3'
    } else if d == 4 {
        '4'
    } else if d == 5 {
        '5'
    } else if d == 6 {
        '6'
    } else if d == 7 {
        '7'
    } else if d == 8 {
        '8'
    } else {
        '9'
    }
}

/// The decimal notation of a number.
pub fn decimal_string(n: u32) -> (res: String)
    ensures
        res@ == decimal(n as nat),
    decreases n,
{
    if n < 10 {
        let mut s = String::new();
        push_char(&mut s, digit(n));
        assert(s@ =~= seq![digit_char(n as nat)]);
        s
    } else {
        let mut s = decimal_string(n / 10);
        push_char(&mut s, digit(n % 10));
        s
    }
}

} // verus!
