//! Positions of schema elements: a type, a field, an argument, an enum value, a directive
//! definition or a root, named by the names that lead to it, and looked up in a schema.
use crate::ast::{concat_strs, concat_views};
use crate::error::{is_internal_error, FederationError};
use crate::federation_schema::{
    child_count, child_directives, child_directives_set, child_removal, directive_argument_directives_set,
    directive_definition_detached, directive_entry, directive_message, field_argument_directives_set,
    directive_argument_removal, field_argument_removal, locations_view, root_removed, type_detached, type_name_removed, TypeReferencers, schema_definition_directives_set, DirectiveReferencers, lemma_directive_entry, other_applications, root_kind_text, type_directives_set, with_application,
    with_location, without_application, without_location, FederationSchema, Location, LocationView,
};
use crate::ast::Directive;
use crate::inaccessible::directive_index;
use crate::schema::{
    declared_fields, field_index, lemma_type_index, type_index, DirectiveDefinition,
    EnumValueDefinition, ExtendedType, FieldDefinition, InputValueDefinition, Schema,
    SchemaDefinitionPosition, SchemaRootDefinitionKind, SchemaRootDefinitionPosition, TypeKind,
};
use vstd::prelude::*;

verus! {

/// How a kind of type is named in messages, with its article.
pub open spec fn kind_with_article(k: TypeKind) -> Seq<char> {
    match k {
        TypeKind::Scalar => "a scalar"@,
        TypeKind::Object => "an object"@,
        TypeKind::Interface => "an interface"@,
        TypeKind::Union => "an union"@,
        TypeKind::Enum => "an enum"@,
        TypeKind::InputObject => "an input object"@,
    }
}

/// The index of the type named `name` where it is of kind `k`; else the message of why
/// not: no type has the name, or the first that has is of another kind.
pub open spec fn type_of_kind(s: Schema, name: Seq<char>, k: TypeKind) -> Result<int, Seq<char>> {
    match type_index(s.types@, name) {
        None => Err("Schema has no type \""@ + name + "\""@),
        Some(i) => if s.types@[i].spec_kind() == k {
            Ok(i)
        } else {
            Err("Schema type \""@ + name + "\" was not "@ + kind_with_article(k))
        },
    }
}

fn kind_text(k: TypeKind) -> (res: &'static str)
    ensures
        res@ == kind_with_article(k),
{
    proof {
        reveal_strlit("a scalar");
        reveal_strlit("an object");
        reveal_strlit("an interface");
        reveal_strlit("an union");
        reveal_strlit("an enum");
        reveal_strlit("an input object");
    }
    match k {
        TypeKind::Scalar => "a scalar",
        TypeKind::Object => "an object",
        TypeKind::Interface => "an interface",
        TypeKind::Union => "an union",
        TypeKind::Enum => "an enum",
        TypeKind::InputObject => "an input object",
    }
}

/// The type named `name` where it is of kind `k` (see [`type_of_kind`]).
fn get_type_of_kind<'a>(schema: &'a Schema, name: &String, k: TypeKind) -> (res: Result<&'a ExtendedType, FederationError>)
    ensures
        match type_of_kind(*schema, name@, k) {
            Ok(i) => res matches Ok(t) && *t == schema.types@[i],
            Err(m) => res matches Err(e) && is_internal_error(e, m),
        },
{
    proof {
        lemma_type_index(schema.types@, name@);
        reveal_with_fuel(concat_views, 5);
    }
    match schema.get_type(name.as_str()) {
        None => {
            let m = concat_strs(&["Schema has no type \"", name.as_str(), "\""]);
            assert(m@ =~= "Schema has no type \""@ + name@ + "\""@);
            Err(FederationError::internal(m))
        },
        Some(t) => {
            if t.kind() == k {
                Ok(t)
            } else {
                let m = concat_strs(&["Schema type \"", name.as_str(), "\" was not ", kind_text(k)]);
                assert(m@ =~= "Schema type \""@ + name@ + "\" was not "@ + kind_with_article(k));
                Err(FederationError::internal(m))
            }
        },
    }
}

/// The type named `name` where it is of kind `k`, else nothing.
fn try_get_type_of_kind<'a>(schema: &'a Schema, name: &String, k: TypeKind) -> (res: Option<&'a ExtendedType>)
    ensures
        match type_of_kind(*schema, name@, k) {
            Ok(i) => res == Some(&schema.types@[i]),
            Err(_) => res is None,
        },
{
    match get_type_of_kind(schema, name, k) {
        Ok(t) => Some(t),
        Err(_) => None,
    }
}

/// The position of a scalar type.
#[derive(Debug, PartialEq, Eq)]
pub struct ScalarTypeDefinitionPosition {
    pub name_of_type: String,
}

/// The position of an object type.
#[derive(Debug, PartialEq, Eq)]
pub struct ObjectTypeDefinitionPosition {
    pub name_of_type: String,
}

/// The position of an interface type.
#[derive(Debug, PartialEq, Eq)]
pub struct InterfaceTypeDefinitionPosition {
    pub name_of_type: String,
}

/// The position of a union type.
#[derive(Debug, PartialEq, Eq)]
pub struct UnionTypeDefinitionPosition {
    pub name_of_type: String,
}

/// The position of an enum type.
#[derive(Debug, PartialEq, Eq)]
pub struct EnumTypeDefinitionPosition {
    pub name_of_type: String,
}

/// The position of an input object type.
#[derive(Debug, PartialEq, Eq)]
pub struct InputObjectTypeDefinitionPosition {
    pub name_of_type: String,
}

impl ScalarTypeDefinitionPosition {
    /// The scalar type; an internal error where the schema has no scalar type of that name.
    pub fn get<'a>(&self, schema: &'a Schema) -> (res: Result<&'a ExtendedType, FederationError>)
        ensures
            match type_of_kind(*schema, self.name_of_type@, TypeKind::Scalar) {
                Ok(i) => res matches Ok(t) && *t == schema.types@[i],
                Err(m) => res matches Err(e) && is_internal_error(e, m),
            },
    {
        get_type_of_kind(schema, &self.name_of_type, TypeKind::Scalar)
    }

    /// The scalar type, where the schema has one of that name.
    pub fn try_get<'a>(&self, schema: &'a Schema) -> (res: Option<&'a ExtendedType>)
        ensures
            match type_of_kind(*schema, self.name_of_type@, TypeKind::Scalar) {
                Ok(i) => res == Some(&schema.types@[i]),
                Err(_) => res is None,
            },
    {
        try_get_type_of_kind(schema, &self.name_of_type, TypeKind::Scalar)
    }
}

impl ObjectTypeDefinitionPosition {
    /// The object type; an internal error where the schema has no object type of that name.
    pub fn get<'a>(&self, schema: &'a Schema) -> (res: Result<&'a ExtendedType, FederationError>)
        ensures
            match type_of_kind(*schema, self.name_of_type@, TypeKind::Object) {
                Ok(i) => res matches Ok(t) && *t == schema.types@[i],
                Err(m) => res matches Err(e) && is_internal_error(e, m),
            },
    {
        get_type_of_kind(schema, &self.name_of_type, TypeKind::Object)
    }

    /// The object type, where the schema has one of that name.
    pub fn try_get<'a>(&self, schema: &'a Schema) -> (res: Option<&'a ExtendedType>)
        ensures
            match type_of_kind(*schema, self.name_of_type@, TypeKind::Object) {
                Ok(i) => res == Some(&schema.types@[i]),
                Err(_) => res is None,
            },
    {
        try_get_type_of_kind(schema, &self.name_of_type, TypeKind::Object)
    }

    /// The position of the field `field_name` of this type.
    pub fn field(&self, field_name: String) -> (res: ObjectFieldDefinitionPosition)
        ensures
            res.name_of_type@ == self.name_of_type@,
            res.field_name == field_name,
    {
        ObjectFieldDefinitionPosition { name_of_type: self.name_of_type.clone(), field_name }
    }
}

impl InterfaceTypeDefinitionPosition {
    /// The interface type; an internal error where the schema has no interface type of that
    /// name.
    pub fn get<'a>(&self, schema: &'a Schema) -> (res: Result<&'a ExtendedType, FederationError>)
        ensures
            match type_of_kind(*schema, self.name_of_type@, TypeKind::Interface) {
                Ok(i) => res matches Ok(t) && *t == schema.types@[i],
                Err(m) => res matches Err(e) && is_internal_error(e, m),
            },
    {
        get_type_of_kind(schema, &self.name_of_type, TypeKind::Interface)
    }

    /// The interface type, where the schema has one of that name.
    pub fn try_get<'a>(&self, schema: &'a Schema) -> (res: Option<&'a ExtendedType>)
        ensures
            match type_of_kind(*schema, self.name_of_type@, TypeKind::Interface) {
                Ok(i) => res == Some(&schema.types@[i]),
                Err(_) => res is None,
            },
    {
        try_get_type_of_kind(schema, &self.name_of_type, TypeKind::Interface)
    }

    /// The position of the field `field_name` of this type.
    pub fn field(&self, field_name: String) -> (res: InterfaceFieldDefinitionPosition)
        ensures
            res.name_of_type@ == self.name_of_type@,
            res.field_name == field_name,
    {
        InterfaceFieldDefinitionPosition { name_of_type: self.name_of_type.clone(), field_name }
    }
}

impl UnionTypeDefinitionPosition {
    /// The union type; an internal error where the schema has no union type of that name.
    pub fn get<'a>(&self, schema: &'a Schema) -> (res: Result<&'a ExtendedType, FederationError>)
        ensures
            match type_of_kind(*schema, self.name_of_type@, TypeKind::Union) {
                Ok(i) => res matches Ok(t) && *t == schema.types@[i],
                Err(m) => res matches Err(e) && is_internal_error(e, m),
            },
    {
        get_type_of_kind(schema, &self.name_of_type, TypeKind::Union)
    }

    /// The union type, where the schema has one of that name.
    pub fn try_get<'a>(&self, schema: &'a Schema) -> (res: Option<&'a ExtendedType>)
        ensures
            match type_of_kind(*schema, self.name_of_type@, TypeKind::Union) {
                Ok(i) => res == Some(&schema.types@[i]),
                Err(_) => res is None,
            },
    {
        try_get_type_of_kind(schema, &self.name_of_type, TypeKind::Union)
    }
}

impl EnumTypeDefinitionPosition {
    /// The enum type; an internal error where the schema has no enum type of that name.
    pub fn get<'a>(&self, schema: &'a Schema) -> (res: Result<&'a ExtendedType, FederationError>)
        ensures
            match type_of_kind(*schema, self.name_of_type@, TypeKind::Enum) {
                Ok(i) => res matches Ok(t) && *t == schema.types@[i],
                Err(m) => res matches Err(e) && is_internal_error(e, m),
            },
    {
        get_type_of_kind(schema, &self.name_of_type, TypeKind::Enum)
    }

    /// The enum type, where the schema has one of that name.
    pub fn try_get<'a>(&self, schema: &'a Schema) -> (res: Option<&'a ExtendedType>)
        ensures
            match type_of_kind(*schema, self.name_of_type@, TypeKind::Enum) {
                Ok(i) => res == Some(&schema.types@[i]),
                Err(_) => res is None,
            },
    {
        try_get_type_of_kind(schema, &self.name_of_type, TypeKind::Enum)
    }

    /// The position of the value `value_name` of this type.
    pub fn value(&self, value_name: String) -> (res: EnumValueDefinitionPosition)
        ensures
            res.name_of_type@ == self.name_of_type@,
            res.value_name == value_name,
    {
        EnumValueDefinitionPosition { name_of_type: self.name_of_type.clone(), value_name }
    }
}

impl InputObjectTypeDefinitionPosition {
    /// The input object type; an internal error where the schema has no input object type of
    /// that name.
    pub fn get<'a>(&self, schema: &'a Schema) -> (res: Result<&'a ExtendedType, FederationError>)
        ensures
            match type_of_kind(*schema, self.name_of_type@, TypeKind::InputObject) {
                Ok(i) => res matches Ok(t) && *t == schema.types@[i],
                Err(m) => res matches Err(e) && is_internal_error(e, m),
            },
    {
        get_type_of_kind(schema, &self.name_of_type, TypeKind::InputObject)
    }

    /// The input object type, where the schema has one of that name.
    pub fn try_get<'a>(&self, schema: &'a Schema) -> (res: Option<&'a ExtendedType>)
        ensures
            match type_of_kind(*schema, self.name_of_type@, TypeKind::InputObject) {
                Ok(i) => res == Some(&schema.types@[i]),
                Err(_) => res is None,
            },
    {
        try_get_type_of_kind(schema, &self.name_of_type, TypeKind::InputObject)
    }

    /// The position of the input field `field_name` of this type.
    pub fn field(&self, field_name: String) -> (res: InputObjectFieldDefinitionPosition)
        ensures
            res.name_of_type@ == self.name_of_type@,
            res.field_name == field_name,
    {
        InputObjectFieldDefinitionPosition { name_of_type: self.name_of_type.clone(), field_name }
    }
}

/// The position of a field of an object type.
#[derive(Debug, PartialEq, Eq)]
pub struct ObjectFieldDefinitionPosition {
    pub name_of_type: String,
    pub field_name: String,
}

/// The position of a field of an interface type.
#[derive(Debug, PartialEq, Eq)]
pub struct InterfaceFieldDefinitionPosition {
    pub name_of_type: String,
    pub field_name: String,
}

/// The position of an input field of an input object type.
#[derive(Debug, PartialEq, Eq)]
pub struct InputObjectFieldDefinitionPosition {
    pub name_of_type: String,
    pub field_name: String,
}

/// The position of a value of an enum type.
#[derive(Debug, PartialEq, Eq)]
pub struct EnumValueDefinitionPosition {
    pub name_of_type: String,
    pub value_name: String,
}

/// The position of an argument of a field of an object type.
#[derive(Debug, PartialEq, Eq)]
pub struct ObjectFieldArgumentDefinitionPosition {
    pub name_of_type: String,
    pub field_name: String,
    pub argument_name: String,
}

/// The position of an argument of a field of an interface type.
#[derive(Debug, PartialEq, Eq)]
pub struct InterfaceFieldArgumentDefinitionPosition {
    pub name_of_type: String,
    pub field_name: String,
    pub argument_name: String,
}

/// The position of a directive definition.
#[derive(Debug, PartialEq, Eq)]
pub struct DirectiveDefinitionPosition {
    pub directive_name: String,
}

/// The position of an argument of a directive definition.
#[derive(Debug, PartialEq, Eq)]
pub struct DirectiveArgumentDefinitionPosition {
    pub directive_name: String,
    pub argument_name: String,
}

/// The index of the first argument or input field named `name`.
pub open spec fn input_value_index(vs: Seq<InputValueDefinition>, name: Seq<char>) -> Option<int>
    decreases vs.len(),
{
    if vs.len() == 0 {
        None
    } else if vs[0].name@ == name {
        Some(0)
    } else {
        match input_value_index(vs.drop_first(), name) {
            Some(i) => Some(i + 1),
            None => None,
        }
    }
}

/// The index of the first enum value named `name`.
pub open spec fn enum_value_index(vs: Seq<EnumValueDefinition>, name: Seq<char>) -> Option<int>
    decreases vs.len(),
{
    if vs.len() == 0 {
        None
    } else if vs[0].value@ == name {
        Some(0)
    } else {
        match enum_value_index(vs.drop_first(), name) {
            Some(i) => Some(i + 1),
            None => None,
        }
    }
}

proof fn lemma_input_value_index(vs: Seq<InputValueDefinition>, name: Seq<char>, i: int)
    requires
        0 <= i <= vs.len(),
        forall|j: int| 0 <= j < i ==> vs[j].name@ != name,
    ensures
        i < vs.len() && vs[i].name@ == name ==> input_value_index(vs, name) == Some(i),
        i == vs.len() ==> input_value_index(vs, name) is None,
    decreases vs.len(),
{
    if vs.len() > 0 && i > 0 {
        assert forall|j: int| 0 <= j < i - 1 implies vs.drop_first()[j].name@ != name by {
            assert(vs.drop_first()[j] == vs[j + 1]);
        }
        lemma_input_value_index(vs.drop_first(), name, i - 1);
    }
}

proof fn lemma_enum_value_index(vs: Seq<EnumValueDefinition>, name: Seq<char>, i: int)
    requires
        0 <= i <= vs.len(),
        forall|j: int| 0 <= j < i ==> vs[j].value@ != name,
    ensures
        i < vs.len() && vs[i].value@ == name ==> enum_value_index(vs, name) == Some(i),
        i == vs.len() ==> enum_value_index(vs, name) is None,
    decreases vs.len(),
{
    if vs.len() > 0 && i > 0 {
        assert forall|j: int| 0 <= j < i - 1 implies vs.drop_first()[j].value@ != name by {
            assert(vs.drop_first()[j] == vs[j + 1]);
        }
        lemma_enum_value_index(vs.drop_first(), name, i - 1);
    }
}

pub(crate) proof fn lemma_field_index_first(vs: Seq<FieldDefinition>, name: Seq<char>, i: int)
    requires
        0 <= i <= vs.len(),
        forall|j: int| 0 <= j < i ==> vs[j].name@ != name,
    ensures
        i < vs.len() && vs[i].name@ == name ==> field_index(vs, name) == Some(i),
        i == vs.len() ==> field_index(vs, name) is None,
    decreases vs.len(),
{
    if vs.len() > 0 && i > 0 {
        assert forall|j: int| 0 <= j < i - 1 implies vs.drop_first()[j].name@ != name by {
            assert(vs.drop_first()[j] == vs[j + 1]);
        }
        lemma_field_index_first(vs.drop_first(), name, i - 1);
    }
}

pub(crate) proof fn lemma_directive_index_first(vs: Seq<DirectiveDefinition>, name: Seq<char>, i: int)
    requires
        0 <= i <= vs.len(),
        forall|j: int| 0 <= j < i ==> vs[j].name@ != name,
    ensures
        i < vs.len() && vs[i].name@ == name ==> directive_index(vs, name) == Some(i),
        i == vs.len() ==> directive_index(vs, name) is None,
    decreases vs.len(),
{
    if vs.len() > 0 && i > 0 {
        assert forall|j: int| 0 <= j < i - 1 implies vs.drop_first()[j].name@ != name by {
            assert(vs.drop_first()[j] == vs[j + 1]);
        }
        lemma_directive_index_first(vs.drop_first(), name, i - 1);
    }
}

fn find_field(fs: &Vec<FieldDefinition>, name: &String) -> (res: Option<usize>)
    ensures
        match res {
            Some(k) => field_index(fs@, name@) == Some(k as int) && k < fs@.len(),
            None => field_index(fs@, name@) is None,
        },
{
    let mut i: usize = 0;
    while i < fs.len()
        invariant
            i <= fs@.len(),
            forall|j: int| 0 <= j < i ==> fs@[j].name@ != name@,
        decreases fs@.len() - i,
    {
        if fs[i].name == *name {
            proof {
                lemma_field_index_first(fs@, name@, i as int);
            }
            return Some(i);
        }
        i = i + 1;
    }
    proof {
        lemma_field_index_first(fs@, name@, i as int);
    }
    None
}

fn find_input_value(vs: &Vec<InputValueDefinition>, name: &String) -> (res: Option<usize>)
    ensures
        match res {
            Some(k) => input_value_index(vs@, name@) == Some(k as int) && k < vs@.len(),
            None => input_value_index(vs@, name@) is None,
        },
{
    let mut i: usize = 0;
    while i < vs.len()
        invariant
            i <= vs@.len(),
            forall|j: int| 0 <= j < i ==> vs@[j].name@ != name@,
        decreases vs@.len() - i,
    {
        if vs[i].name == *name {
            proof {
                lemma_input_value_index(vs@, name@, i as int);
            }
            return Some(i);
        }
        i = i + 1;
    }
    proof {
        lemma_input_value_index(vs@, name@, i as int);
    }
    None
}

fn find_enum_value(vs: &Vec<EnumValueDefinition>, name: &String) -> (res: Option<usize>)
    ensures
        match res {
            Some(k) => enum_value_index(vs@, name@) == Some(k as int) && k < vs@.len(),
            None => enum_value_index(vs@, name@) is None,
        },
{
    let mut i: usize = 0;
    while i < vs.len()
        invariant
            i <= vs@.len(),
            forall|j: int| 0 <= j < i ==> vs@[j].value@ != name@,
        decreases vs@.len() - i,
    {
        if vs[i].value == *name {
            proof {
                lemma_enum_value_index(vs@, name@, i as int);
            }
            return Some(i);
        }
        i = i + 1;
    }
    proof {
        lemma_enum_value_index(vs@, name@, i as int);
    }
    None
}

pub(crate) fn find_directive_definition(vs: &Vec<DirectiveDefinition>, name: &String) -> (res: Option<usize>)
    ensures
        match res {
            Some(k) => directive_index(vs@, name@) == Some(k as int) && k < vs@.len(),
            None => directive_index(vs@, name@) is None,
        },
{
    let mut i: usize = 0;
    while i < vs.len()
        invariant
            i <= vs@.len(),
            forall|j: int| 0 <= j < i ==> vs@[j].name@ != name@,
        decreases vs@.len() - i,
    {
        if vs[i].name == *name {
            proof {
                lemma_directive_index_first(vs@, name@, i as int);
            }
            return Some(i);
        }
        i = i + 1;
    }
    proof {
        lemma_directive_index_first(vs@, name@, i as int);
    }
    None
}

/// The indexes of the type `t` (of kind object where `object`, else interface) and of its
/// field `f`; else the message of why there are none.
pub open spec fn type_field(s: Schema, t: Seq<char>, f: Seq<char>, object: bool) -> Result<(int, int), Seq<char>> {
    let k = if object { TypeKind::Object } else { TypeKind::Interface };
    match type_of_kind(s, t, k) {
        Err(m) => Err(m),
        Ok(i) => match field_index(declared_fields(s.types@[i]), f) {
            Some(j) => Ok((i, j)),
            None => Err(
                (if object { "Object type \""@ } else { "Interface type \""@ }) + t + "\" has no field \""@
                    + f + "\""@,
            ),
        },
    }
}

/// The indexes of the type `t`, of its field `f` and of that field's argument `a`; else the
/// message of why there are none.
pub open spec fn field_argument(s: Schema, t: Seq<char>, f: Seq<char>, a: Seq<char>, object: bool) -> Result<
    (int, int, int),
    Seq<char>,
> {
    match type_field(s, t, f, object) {
        Err(m) => Err(m),
        Ok((i, j)) => match input_value_index(declared_fields(s.types@[i])[j].arguments@, a) {
            Some(k) => Ok((i, j, k)),
            None => Err(
                (if object { "Object field \""@ } else { "Interface field \""@ }) + t + "."@ + f
                    + "\" has no argument \""@ + a + "\""@,
            ),
        },
    }
}

/// The field `f` of the type `t` (see [`type_field`]).
fn get_type_field<'a>(schema: &'a Schema, t: &String, f: &String, object: bool) -> (res: Result<&'a FieldDefinition, FederationError>)
    ensures
        match type_field(*schema, t@, f@, object) {
            Ok((i, j)) => res matches Ok(r) && *r == declared_fields(schema.types@[i])[j],
            Err(m) => res matches Err(e) && is_internal_error(e, m),
        },
{
    let k = if object { TypeKind::Object } else { TypeKind::Interface };
    let ty = get_type_of_kind(schema, t, k)?;
    let ghost i = type_of_kind(*schema, t@, k)->Ok_0;
    let fields = match ty {
        ExtendedType::Object { fields, .. } => fields,
        ExtendedType::Interface { fields, .. } => fields,
        _ => {
            assert(false);
            return Err(FederationError::internal(String::new()));
        },
    };
    assert(fields@ == declared_fields(schema.types@[i]));
    match find_field(fields, f) {
        Some(j) => Ok(&fields[j]),
        None => {
            proof {
                reveal_with_fuel(concat_views, 6);
            }
            let prefix = if object { "Object type \"" } else { "Interface type \"" };
            let m = concat_strs(&[prefix, t.as_str(), "\" has no field \"", f.as_str(), "\""]);
            assert(m@ =~= (if object { "Object type \""@ } else { "Interface type \""@ }) + t@
                + "\" has no field \""@ + f@ + "\""@);
            Err(FederationError::internal(m))
        },
    }
}

/// The argument `a` of the field `f` of the type `t` (see [`field_argument`]).
fn get_field_argument<'a>(schema: &'a Schema, t: &String, f: &String, a: &String, object: bool) -> (res: Result<&'a InputValueDefinition, FederationError>)
    ensures
        match field_argument(*schema, t@, f@, a@, object) {
            Ok((i, j, k)) => res matches Ok(r) && *r == declared_fields(schema.types@[i])[j].arguments@[k],
            Err(m) => res matches Err(e) && is_internal_error(e, m),
        },
{
    let field = get_type_field(schema, t, f, object)?;
    match find_input_value(&field.arguments, a) {
        Some(k) => Ok(&field.arguments[k]),
        None => {
            proof {
                reveal_with_fuel(concat_views, 8);
            }
            let prefix = if object { "Object field \"" } else { "Interface field \"" };
            let m = concat_strs(&[prefix, t.as_str(), ".", f.as_str(), "\" has no argument \"", a.as_str(), "\""]);
            assert(m@ =~= (if object { "Object field \""@ } else { "Interface field \""@ }) + t@ + "."@ + f@
                + "\" has no argument \""@ + a@ + "\""@);
            Err(FederationError::internal(m))
        },
    }
}

impl ObjectFieldDefinitionPosition {
    /// The object type that holds the field.
    pub fn parent(&self) -> (res: ObjectTypeDefinitionPosition)
        ensures
            res.name_of_type@ == self.name_of_type@,
    {
        ObjectTypeDefinitionPosition { name_of_type: self.name_of_type.clone() }
    }

    /// The field; an internal error where the object type or its field is missing.
    pub fn get<'a>(&self, schema: &'a Schema) -> (res: Result<&'a FieldDefinition, FederationError>)
        ensures
            match type_field(*schema, self.name_of_type@, self.field_name@, true) {
                Ok((i, j)) => res matches Ok(r) && *r == declared_fields(schema.types@[i])[j],
                Err(m) => res matches Err(e) && is_internal_error(e, m),
            },
    {
        get_type_field(schema, &self.name_of_type, &self.field_name, true)
    }

    /// The field, where the object type has it.
    pub fn try_get<'a>(&self, schema: &'a Schema) -> (res: Option<&'a FieldDefinition>)
        ensures
            match type_field(*schema, self.name_of_type@, self.field_name@, true) {
                Ok((i, j)) => res == Some(&declared_fields(schema.types@[i])[j]),
                Err(_) => res is None,
            },
    {
        match self.get(schema) {
            Ok(f) => Some(f),
            Err(_) => None,
        }
    }
}

impl InterfaceFieldDefinitionPosition {
    /// The interface type that holds the field.
    pub fn parent(&self) -> (res: InterfaceTypeDefinitionPosition)
        ensures
            res.name_of_type@ == self.name_of_type@,
    {
        InterfaceTypeDefinitionPosition { name_of_type: self.name_of_type.clone() }
    }

    /// The field; an internal error where the interface type or its field is missing.
    pub fn get<'a>(&self, schema: &'a Schema) -> (res: Result<&'a FieldDefinition, FederationError>)
        ensures
            match type_field(*schema, self.name_of_type@, self.field_name@, false) {
                Ok((i, j)) => res matches Ok(r) && *r == declared_fields(schema.types@[i])[j],
                Err(m) => res matches Err(e) && is_internal_error(e, m),
            },
    {
        get_type_field(schema, &self.name_of_type, &self.field_name, false)
    }

    /// The field, where the interface type has it.
    pub fn try_get<'a>(&self, schema: &'a Schema) -> (res: Option<&'a FieldDefinition>)
        ensures
            match type_field(*schema, self.name_of_type@, self.field_name@, false) {
                Ok((i, j)) => res == Some(&declared_fields(schema.types@[i])[j]),
                Err(_) => res is None,
            },
    {
        match self.get(schema) {
            Ok(f) => Some(f),
            Err(_) => None,
        }
    }
}

impl ObjectFieldArgumentDefinitionPosition {
    /// The field that holds the argument.
    pub fn parent(&self) -> (res: ObjectFieldDefinitionPosition)
        ensures
            res.name_of_type@ == self.name_of_type@,
            res.field_name@ == self.field_name@,
    {
        ObjectFieldDefinitionPosition {
            name_of_type: self.name_of_type.clone(),
            field_name: self.field_name.clone(),
        }
    }

    /// The argument; an internal error where the type, the field or the argument is missing.
    pub fn get<'a>(&self, schema: &'a Schema) -> (res: Result<&'a InputValueDefinition, FederationError>)
        ensures
            match field_argument(*schema, self.name_of_type@, self.field_name@, self.argument_name@, true) {
                Ok((i, j, k)) => res matches Ok(r) && *r == declared_fields(schema.types@[i])[j].arguments@[k],
                Err(m) => res matches Err(e) && is_internal_error(e, m),
            },
    {
        get_field_argument(schema, &self.name_of_type, &self.field_name, &self.argument_name, true)
    }

    /// The argument, where the field has it.
    pub fn try_get<'a>(&self, schema: &'a Schema) -> (res: Option<&'a InputValueDefinition>)
        ensures
            match field_argument(*schema, self.name_of_type@, self.field_name@, self.argument_name@, true) {
                Ok((i, j, k)) => res == Some(&declared_fields(schema.types@[i])[j].arguments@[k]),
                Err(_) => res is None,
            },
    {
        match self.get(schema) {
            Ok(a) => Some(a),
            Err(_) => None,
        }
    }
}

impl InterfaceFieldArgumentDefinitionPosition {
    /// The field that holds the argument.
    pub fn parent(&self) -> (res: InterfaceFieldDefinitionPosition)
        ensures
            res.name_of_type@ == self.name_of_type@,
            res.field_name@ == self.field_name@,
    {
        InterfaceFieldDefinitionPosition {
            name_of_type: self.name_of_type.clone(),
            field_name: self.field_name.clone(),
        }
    }

    /// The argument; an internal error where the type, the field or the argument is missing.
    pub fn get<'a>(&self, schema: &'a Schema) -> (res: Result<&'a InputValueDefinition, FederationError>)
        ensures
            match field_argument(*schema, self.name_of_type@, self.field_name@, self.argument_name@, false) {
                Ok((i, j, k)) => res matches Ok(r) && *r == declared_fields(schema.types@[i])[j].arguments@[k],
                Err(m) => res matches Err(e) && is_internal_error(e, m),
            },
    {
        get_field_argument(schema, &self.name_of_type, &self.field_name, &self.argument_name, false)
    }

    /// The argument, where the field has it.
    pub fn try_get<'a>(&self, schema: &'a Schema) -> (res: Option<&'a InputValueDefinition>)
        ensures
            match field_argument(*schema, self.name_of_type@, self.field_name@, self.argument_name@, false) {
                Ok((i, j, k)) => res == Some(&declared_fields(schema.types@[i])[j].arguments@[k]),
                Err(_) => res is None,
            },
    {
        match self.get(schema) {
            Ok(a) => Some(a),
            Err(_) => None,
        }
    }
}

/// The input fields of a type definition (none for types without input fields).
pub open spec fn declared_input_fields(t: ExtendedType) -> Seq<InputValueDefinition> {
    match t {
        ExtendedType::InputObject { input_fields, .. } => input_fields@,
        _ => Seq::empty(),
    }
}

/// The values of a type definition (none for types other than enums).
pub open spec fn declared_values(t: ExtendedType) -> Seq<EnumValueDefinition> {
    match t {
        ExtendedType::Enum { values, .. } => values@,
        _ => Seq::empty(),
    }
}

/// The indexes of the input object type `t` and of its input field `f`; else the message of
/// why there are none.
pub open spec fn input_object_field(s: Schema, t: Seq<char>, f: Seq<char>) -> Result<(int, int), Seq<char>> {
    match type_of_kind(s, t, TypeKind::InputObject) {
        Err(m) => Err(m),
        Ok(i) => match input_value_index(declared_input_fields(s.types@[i]), f) {
            Some(j) => Ok((i, j)),
            None => Err("Input object type \""@ + t + "\" has no field \""@ + f + "\""@),
        },
    }
}

/// The indexes of the enum type `t` and of its value `v`; else the message of why there are
/// none.
pub open spec fn enum_value(s: Schema, t: Seq<char>, v: Seq<char>) -> Result<(int, int), Seq<char>> {
    match type_of_kind(s, t, TypeKind::Enum) {
        Err(m) => Err(m),
        Ok(i) => match enum_value_index(declared_values(s.types@[i]), v) {
            Some(j) => Ok((i, j)),
            None => Err("Enum type \""@ + t + "\" has no value \""@ + v + "\""@),
        },
    }
}

impl InputObjectFieldDefinitionPosition {
    /// The input object type that holds the field.
    pub fn parent(&self) -> (res: InputObjectTypeDefinitionPosition)
        ensures
            res.name_of_type@ == self.name_of_type@,
    {
        InputObjectTypeDefinitionPosition { name_of_type: self.name_of_type.clone() }
    }

    /// The input field; an internal error where the input object type or its field is
    /// missing.
    pub fn get<'a>(&self, schema: &'a Schema) -> (res: Result<&'a InputValueDefinition, FederationError>)
        ensures
            match input_object_field(*schema, self.name_of_type@, self.field_name@) {
                Ok((i, j)) => res matches Ok(r) && *r == declared_input_fields(schema.types@[i])[j],
                Err(m) => res matches Err(e) && is_internal_error(e, m),
            },
    {
        let ty = get_type_of_kind(schema, &self.name_of_type, TypeKind::InputObject)?;
        let fields = match ty {
            ExtendedType::InputObject { input_fields, .. } => input_fields,
            _ => {
                assert(false);
                return Err(FederationError::internal(String::new()));
            },
        };
        match find_input_value(fields, &self.field_name) {
            Some(j) => Ok(&fields[j]),
            None => {
                proof {
                    reveal_with_fuel(concat_views, 6);
                }
                let m = concat_strs(
                    &["Input object type \"", self.name_of_type.as_str(), "\" has no field \"", self.field_name.as_str(), "\""],
                );
                assert(m@ =~= "Input object type \""@ + self.name_of_type@ + "\" has no field \""@
                    + self.field_name@ + "\""@);
                Err(FederationError::internal(m))
            },
        }
    }

    /// The input field, where the input object type has it.
    pub fn try_get<'a>(&self, schema: &'a Schema) -> (res: Option<&'a InputValueDefinition>)
        ensures
            match input_object_field(*schema, self.name_of_type@, self.field_name@) {
                Ok((i, j)) => res == Some(&declared_input_fields(schema.types@[i])[j]),
                Err(_) => res is None,
            },
    {
        match self.get(schema) {
            Ok(f) => Some(f),
            Err(_) => None,
        }
    }
}

impl EnumValueDefinitionPosition {
    /// The enum type that holds the value.
    pub fn parent(&self) -> (res: EnumTypeDefinitionPosition)
        ensures
            res.name_of_type@ == self.name_of_type@,
    {
        EnumTypeDefinitionPosition { name_of_type: self.name_of_type.clone() }
    }

    /// The value; an internal error where the enum type or its value is missing.
    pub fn get<'a>(&self, schema: &'a Schema) -> (res: Result<&'a EnumValueDefinition, FederationError>)
        ensures
            match enum_value(*schema, self.name_of_type@, self.value_name@) {
                Ok((i, j)) => res matches Ok(r) && *r == declared_values(schema.types@[i])[j],
                Err(m) => res matches Err(e) && is_internal_error(e, m),
            },
    {
        let ty = get_type_of_kind(schema, &self.name_of_type, TypeKind::Enum)?;
        let values = match ty {
            ExtendedType::Enum { values, .. } => values,
            _ => {
                assert(false);
                return Err(FederationError::internal(String::new()));
            },
        };
        match find_enum_value(values, &self.value_name) {
            Some(j) => Ok(&values[j]),
            None => {
                proof {
                    reveal_with_fuel(concat_views, 6);
                }
                let m = concat_strs(
                    &["Enum type \"", self.name_of_type.as_str(), "\" has no value \"", self.value_name.as_str(), "\""],
                );
                assert(m@ =~= "Enum type \""@ + self.name_of_type@ + "\" has no value \""@
                    + self.value_name@ + "\""@);
                Err(FederationError::internal(m))
            },
        }
    }

    /// The value, where the enum type has it.
    pub fn try_get<'a>(&self, schema: &'a Schema) -> (res: Option<&'a EnumValueDefinition>)
        ensures
            match enum_value(*schema, self.name_of_type@, self.value_name@) {
                Ok((i, j)) => res == Some(&declared_values(schema.types@[i])[j]),
                Err(_) => res is None,
            },
    {
        match self.get(schema) {
            Ok(v) => Some(v),
            Err(_) => None,
        }
    }
}

/// The index of the directive definition `d`; else the message of why there is none.
pub open spec fn directive_definition(s: Schema, d: Seq<char>) -> Result<int, Seq<char>> {
    match directive_index(s.directive_definitions@, d) {
        Some(i) => Ok(i),
        None => Err("Schema has no directive \"@"@ + d + "\""@),
    }
}

/// The indexes of the directive definition `d` and of its argument `a`; else the message of
/// why there are none.
pub open spec fn directive_argument(s: Schema, d: Seq<char>, a: Seq<char>) -> Result<(int, int), Seq<char>> {
    match directive_definition(s, d) {
        Err(m) => Err(m),
        Ok(i) => match input_value_index(s.directive_definitions@[i].arguments@, a) {
            Some(j) => Ok((i, j)),
            None => Err("Directive \"@"@ + d + "\" has no argument \""@ + a + "\""@),
        },
    }
}

impl DirectiveDefinitionPosition {
    /// The directive definition; an internal error where the schema has none of that name.
    pub fn get<'a>(&self, schema: &'a Schema) -> (res: Result<&'a DirectiveDefinition, FederationError>)
        ensures
            match directive_definition(*schema, self.directive_name@) {
                Ok(i) => res matches Ok(r) && *r == schema.directive_definitions@[i],
                Err(m) => res matches Err(e) && is_internal_error(e, m),
            },
    {
        match find_directive_definition(&schema.directive_definitions, &self.directive_name) {
            Some(i) => Ok(&schema.directive_definitions[i]),
            None => {
                proof {
                    reveal_with_fuel(concat_views, 4);
                }
                let m = concat_strs(&["Schema has no directive \"@", self.directive_name.as_str(), "\""]);
                assert(m@ =~= "Schema has no directive \"@"@ + self.directive_name@ + "\""@);
                Err(FederationError::internal(m))
            },
        }
    }

    /// The directive definition, where the schema has one of that name.
    pub fn try_get<'a>(&self, schema: &'a Schema) -> (res: Option<&'a DirectiveDefinition>)
        ensures
            match directive_definition(*schema, self.directive_name@) {
                Ok(i) => res == Some(&schema.directive_definitions@[i]),
                Err(_) => res is None,
            },
    {
        match self.get(schema) {
            Ok(d) => Some(d),
            Err(_) => None,
        }
    }

    /// The position of the argument `argument_name` of this directive.
    pub fn argument(&self, argument_name: String) -> (res: DirectiveArgumentDefinitionPosition)
        ensures
            res.directive_name@ == self.directive_name@,
            res.argument_name == argument_name,
    {
        DirectiveArgumentDefinitionPosition { directive_name: self.directive_name.clone(), argument_name }
    }
}

impl DirectiveArgumentDefinitionPosition {
    /// The directive definition that holds the argument.
    pub fn parent(&self) -> (res: DirectiveDefinitionPosition)
        ensures
            res.directive_name@ == self.directive_name@,
    {
        DirectiveDefinitionPosition { directive_name: self.directive_name.clone() }
    }

    /// The argument; an internal error where the directive or its argument is missing.
    pub fn get<'a>(&self, schema: &'a Schema) -> (res: Result<&'a InputValueDefinition, FederationError>)
        ensures
            match directive_argument(*schema, self.directive_name@, self.argument_name@) {
                Ok((i, j)) => res matches Ok(r) && *r == schema.directive_definitions@[i].arguments@[j],
                Err(m) => res matches Err(e) && is_internal_error(e, m),
            },
    {
        let d = self.parent().get(schema)?;
        match find_input_value(&d.arguments, &self.argument_name) {
            Some(j) => Ok(&d.arguments[j]),
            None => {
                proof {
                    reveal_with_fuel(concat_views, 6);
                }
                let m = concat_strs(
                    &["Directive \"@", self.directive_name.as_str(), "\" has no argument \"", self.argument_name.as_str(), "\""],
                );
                assert(m@ =~= "Directive \"@"@ + self.directive_name@ + "\" has no argument \""@
                    + self.argument_name@ + "\""@);
                Err(FederationError::internal(m))
            },
        }
    }

    /// The argument, where the directive has it.
    pub fn try_get<'a>(&self, schema: &'a Schema) -> (res: Option<&'a InputValueDefinition>)
        ensures
            match directive_argument(*schema, self.directive_name@, self.argument_name@) {
                Ok((i, j)) => res == Some(&schema.directive_definitions@[i].arguments@[j]),
                Err(_) => res is None,
            },
    {
        match self.get(schema) {
            Ok(a) => Some(a),
            Err(_) => None,
        }
    }
}

/// The root type of kind `k` of the schema definition, if it has one.
pub open spec fn root_of(s: Schema, k: SchemaRootDefinitionKind) -> Option<String> {
    match k {
        SchemaRootDefinitionKind::Query => s.schema_definition.query,
        SchemaRootDefinitionKind::Mutation => s.schema_definition.mutation,
        SchemaRootDefinitionKind::Subscription => s.schema_definition.subscription,
    }
}

impl SchemaRootDefinitionPosition {
    /// The name of the root type; an internal error where the schema definition has no root
    /// of this kind.
    pub fn get<'a>(&self, schema: &'a Schema) -> (res: Result<&'a String, FederationError>)
        ensures
            match root_of(*schema, self.root_kind) {
                Some(t) => res matches Ok(r) && *r == t,
                None => res matches Err(e) && is_internal_error(
                    e,
                    "Schema definition has no root "@ + root_kind_text(self.root_kind) + " type"@,
                ),
            },
    {
        let root = match self.root_kind {
            SchemaRootDefinitionKind::Query => &schema.schema_definition.query,
            SchemaRootDefinitionKind::Mutation => &schema.schema_definition.mutation,
            SchemaRootDefinitionKind::Subscription => &schema.schema_definition.subscription,
        };
        match root {
            Some(t) => Ok(t),
            None => {
                proof {
                    reveal_with_fuel(concat_views, 4);
                }
                let kind = self.root_kind.to_text();
                let m = concat_strs(&["Schema definition has no root ", kind.as_str(), " type"]);
                assert(m@ =~= "Schema definition has no root "@ + root_kind_text(self.root_kind) + " type"@);
                Err(FederationError::internal(m))
            },
        }
    }

    /// The name of the root type, where the schema definition has a root of this kind.
    pub fn try_get<'a>(&self, schema: &'a Schema) -> (res: Option<&'a String>)
        ensures
            match root_of(*schema, self.root_kind) {
                Some(t) => res == Some(&t),
                None => res is None,
            },
    {
        match self.get(schema) {
            Ok(t) => Some(t),
            Err(_) => None,
        }
    }
}

fn find_type_index(schema: &Schema, name: &String) -> (res: Option<usize>)
    ensures
        match res {
            Some(k) => type_index(schema.types@, name@) == Some(k as int) && k < schema.types@.len(),
            None => type_index(schema.types@, name@) is None,
        },
{
    let mut i: usize = 0;
    while i < schema.types.len()
        invariant
            i <= schema.types@.len(),
            forall|j: int| 0 <= j < i ==> schema.types@[j].spec_name() != name@,
        decreases schema.types@.len() - i,
    {
        if *schema.types[i].name() == *name {
            proof {
                lemma_type_index_first(schema.types@, name@, i as int);
            }
            return Some(i);
        }
        i = i + 1;
    }
    proof {
        lemma_type_index_first(schema.types@, name@, i as int);
    }
    None
}

pub(crate) proof fn lemma_type_index_first(vs: Seq<ExtendedType>, name: Seq<char>, i: int)
    requires
        0 <= i <= vs.len(),
        forall|j: int| 0 <= j < i ==> vs[j].spec_name() != name,
    ensures
        i < vs.len() && vs[i].spec_name() == name ==> type_index(vs, name) == Some(i),
        i == vs.len() ==> type_index(vs, name) is None,
    decreases vs.len(),
{
    if vs.len() > 0 && i > 0 {
        assert forall|j: int| 0 <= j < i - 1 implies vs.drop_first()[j].spec_name() != name by {
            assert(vs.drop_first()[j] == vs[j + 1]);
        }
        lemma_type_index_first(vs.drop_first(), name, i - 1);
    }
}

/// The location of the type `name` of kind `k`.
pub open spec fn type_location(k: TypeKind, name: Seq<char>) -> LocationView {
    match k {
        TypeKind::Scalar => LocationView::ScalarType(name),
        TypeKind::Object => LocationView::ObjectType(name),
        TypeKind::Interface => LocationView::InterfaceType(name),
        TypeKind::Union => LocationView::UnionType(name),
        TypeKind::Enum => LocationView::EnumType(name),
        TypeKind::InputObject => LocationView::InputObjectType(name),
    }
}

fn type_location_of(k: TypeKind, name: &String) -> (res: Location)
    ensures
        res@ == type_location(k, name@),
{
    match k {
        TypeKind::Scalar => Location::ScalarType(name.clone()),
        TypeKind::Object => Location::ObjectType(name.clone()),
        TypeKind::Interface => Location::InterfaceType(name.clone()),
        TypeKind::Union => Location::UnionType(name.clone()),
        TypeKind::Enum => Location::EnumType(name.clone()),
        TypeKind::InputObject => Location::InputObjectType(name.clone()),
    }
}

/// Whether `new` is `old` with `d` applied to its type `name` of kind `k` and recorded, `res`
/// the outcome; else `old` unchanged and the error: no such type, or `d` not defined.
pub open spec fn inserted_type_directive(
    old: FederationSchema,
    new: FederationSchema,
    name: Seq<char>,
    k: TypeKind,
    d: Directive,
    res: Result<(), FederationError>,
) -> bool {
    match type_of_kind(old.spec_schema(), name, k) {
        Err(m) => res matches Err(e) && is_internal_error(e, m) && new == old,
        Ok(i) => match directive_entry(old.spec_referencers().directives, d.name@) {
            Some(j) => res is Ok && type_directives_set(
                old,
                new,
                i,
                old.spec_schema().types@[i].spec_directives().push(d),
            ) && new.spec_referencers() == with_application(old.spec_referencers(), j, type_location(k, name)),
            None => res matches Err(e) && is_internal_error(e, directive_message(type_location(k, name), d.name@))
                && new == old,
        },
    }
}

/// Whether `new` is `old` without the applications of the directive `d` on its type `name`
/// of kind `k`, and without their record; `old` unchanged where there is no such type.
pub open spec fn removed_type_directive_name(
    old: FederationSchema,
    new: FederationSchema,
    name: Seq<char>,
    k: TypeKind,
    d: Seq<char>,
) -> bool {
    match type_of_kind(old.spec_schema(), name, k) {
        Err(_) => new == old,
        Ok(i) => type_directives_set(
            old,
            new,
            i,
            other_applications(old.spec_schema().types@[i].spec_directives(), d),
        ) && new.spec_referencers() == without_application(old.spec_referencers(), d, type_location(k, name)),
    }
}

fn insert_directive_on_type(schema: &mut FederationSchema, name: &String, k: TypeKind, directive: Directive) -> (res: Result<(), FederationError>)
    ensures
        inserted_type_directive(*old(schema), *final(schema), name@, k, directive, res),
{
    let found = match find_type_index(schema.schema(), name) {
        Some(i) => if schema.schema().types[i].kind() == k {
            Some(i)
        } else {
            None
        },
        None => None,
    };
    match found {
        Some(i) => {
            let loc = type_location_of(k, name);
            schema.insert_type_directive(i, &loc, directive)
        },
        None => {
            match get_type_of_kind(schema.schema(), name, k) {
                Err(e) => Err(e),
                Ok(_) => {
                    assert(false);
                    Ok(())
                },
            }
        },
    }
}

fn remove_directive_name_on_type(schema: &mut FederationSchema, name: &String, k: TypeKind, d: &String)
    ensures
        removed_type_directive_name(*old(schema), *final(schema), name@, k, d@),
{
    match find_type_index(schema.schema(), name) {
        Some(i) => {
            if schema.schema().types[i].kind() == k {
                let loc = type_location_of(k, name);
                schema.remove_type_directive_name(i, &loc, d);
            }
        },
        None => {},
    }
}

impl ScalarTypeDefinitionPosition {
    /// Applies `directive` to the scalar type and records the application; an internal error
    /// where the schema has no such type or does not define the directive.
    pub fn insert_directive(&self, schema: &mut FederationSchema, directive: Directive) -> (res: Result<(), FederationError>)
        ensures
            inserted_type_directive(*old(schema), *final(schema), self.name_of_type@, TypeKind::Scalar, directive, res),
    {
        insert_directive_on_type(schema, &self.name_of_type, TypeKind::Scalar, directive)
    }

    /// Removes the applications of the directive `name` from the scalar type, and their record.
    pub fn remove_directive_name(&self, schema: &mut FederationSchema, name: &String)
        ensures
            removed_type_directive_name(*old(schema), *final(schema), self.name_of_type@, TypeKind::Scalar, name@),
    {
        remove_directive_name_on_type(schema, &self.name_of_type, TypeKind::Scalar, name)
    }
}

impl ObjectTypeDefinitionPosition {
    /// Applies `directive` to the object type and records the application; an internal error
    /// where the schema has no such type or does not define the directive.
    pub fn insert_directive(&self, schema: &mut FederationSchema, directive: Directive) -> (res: Result<(), FederationError>)
        ensures
            inserted_type_directive(*old(schema), *final(schema), self.name_of_type@, TypeKind::Object, directive, res),
    {
        insert_directive_on_type(schema, &self.name_of_type, TypeKind::Object, directive)
    }

    /// Removes the applications of the directive `name` from the object type, and their record.
    pub fn remove_directive_name(&self, schema: &mut FederationSchema, name: &String)
        ensures
            removed_type_directive_name(*old(schema), *final(schema), self.name_of_type@, TypeKind::Object, name@),
    {
        remove_directive_name_on_type(schema, &self.name_of_type, TypeKind::Object, name)
    }
}

impl InterfaceTypeDefinitionPosition {
    /// Applies `directive` to the interface type and records the application; an internal error
    /// where the schema has no such type or does not define the directive.
    pub fn insert_directive(&self, schema: &mut FederationSchema, directive: Directive) -> (res: Result<(), FederationError>)
        ensures
            inserted_type_directive(*old(schema), *final(schema), self.name_of_type@, TypeKind::Interface, directive, res),
    {
        insert_directive_on_type(schema, &self.name_of_type, TypeKind::Interface, directive)
    }

    /// Removes the applications of the directive `name` from the interface type, and their record.
    pub fn remove_directive_name(&self, schema: &mut FederationSchema, name: &String)
        ensures
            removed_type_directive_name(*old(schema), *final(schema), self.name_of_type@, TypeKind::Interface, name@),
    {
        remove_directive_name_on_type(schema, &self.name_of_type, TypeKind::Interface, name)
    }
}

impl UnionTypeDefinitionPosition {
    /// Applies `directive` to the union type and records the application; an internal error
    /// where the schema has no such type or does not define the directive.
    pub fn insert_directive(&self, schema: &mut FederationSchema, directive: Directive) -> (res: Result<(), FederationError>)
        ensures
            inserted_type_directive(*old(schema), *final(schema), self.name_of_type@, TypeKind::Union, directive, res),
    {
        insert_directive_on_type(schema, &self.name_of_type, TypeKind::Union, directive)
    }

    /// Removes the applications of the directive `name` from the union type, and their record.
    pub fn remove_directive_name(&self, schema: &mut FederationSchema, name: &String)
        ensures
            removed_type_directive_name(*old(schema), *final(schema), self.name_of_type@, TypeKind::Union, name@),
    {
        remove_directive_name_on_type(schema, &self.name_of_type, TypeKind::Union, name)
    }
}

impl EnumTypeDefinitionPosition {
    /// Applies `directive` to the enum type and records the application; an internal error
    /// where the schema has no such type or does not define the directive.
    pub fn insert_directive(&self, schema: &mut FederationSchema, directive: Directive) -> (res: Result<(), FederationError>)
        ensures
            inserted_type_directive(*old(schema), *final(schema), self.name_of_type@, TypeKind::Enum, directive, res),
    {
        insert_directive_on_type(schema, &self.name_of_type, TypeKind::Enum, directive)
    }

    /// Removes the applications of the directive `name` from the enum type, and their record.
    pub fn remove_directive_name(&self, schema: &mut FederationSchema, name: &String)
        ensures
            removed_type_directive_name(*old(schema), *final(schema), self.name_of_type@, TypeKind::Enum, name@),
    {
        remove_directive_name_on_type(schema, &self.name_of_type, TypeKind::Enum, name)
    }
}

impl InputObjectTypeDefinitionPosition {
    /// Applies `directive` to the input object type and records the application; an internal error
    /// where the schema has no such type or does not define the directive.
    pub fn insert_directive(&self, schema: &mut FederationSchema, directive: Directive) -> (res: Result<(), FederationError>)
        ensures
            inserted_type_directive(*old(schema), *final(schema), self.name_of_type@, TypeKind::InputObject, directive, res),
    {
        insert_directive_on_type(schema, &self.name_of_type, TypeKind::InputObject, directive)
    }

    /// Removes the applications of the directive `name` from the input object type, and their record.
    pub fn remove_directive_name(&self, schema: &mut FederationSchema, name: &String)
        ensures
            removed_type_directive_name(*old(schema), *final(schema), self.name_of_type@, TypeKind::InputObject, name@),
    {
        remove_directive_name_on_type(schema, &self.name_of_type, TypeKind::InputObject, name)
    }
}

proof fn lemma_other_applications_absent(ds: Seq<Directive>, name: Seq<char>)
    requires
        forall|i: int| 0 <= i < ds.len() ==> (#[trigger] ds[i]).name@ != name,
    ensures
        other_applications(ds, name) == ds,
    decreases ds.len(),
{
    if ds.len() > 0 {
        lemma_other_applications_absent(ds.drop_last(), name);
        assert(ds.drop_last().push(ds.last()) =~= ds);
    }
}

pub(crate) proof fn lemma_without_location_absent(ls: Seq<LocationView>, l: LocationView)
    requires
        !ls.contains(l),
    ensures
        without_location(ls, l) == ls,
    decreases ls.len(),
{
    if ls.len() > 0 {
        assert(!ls.drop_last().contains(l)) by {
            if ls.drop_last().contains(l) {
                let i = choose|i: int| 0 <= i < ls.drop_last().len() && ls.drop_last()[i] == l;
                assert(ls[i] == l);
            }
        }
        assert(ls.last() != l) by {
            assert(ls[ls.len() - 1] == ls.last());
        }
        lemma_without_location_absent(ls.drop_last(), l);
        assert(ls.drop_last().push(ls.last()) =~= ls);
    }
}

/// Applying a directive to a type that does not apply it yet, then removing the applications
/// of that directive from the type, gives back the type's applications and the schema's
/// referencers.
pub proof fn law_remove_directive_name_undoes_insert_directive(
    old: FederationSchema,
    mid: FederationSchema,
    new: FederationSchema,
    name: Seq<char>,
    k: TypeKind,
    d: Directive,
    res: Result<(), FederationError>,
)
    requires
        inserted_type_directive(old, mid, name, k, d, res),
        res is Ok,
        removed_type_directive_name(mid, new, name, k, d.name@),
        type_of_kind(old.spec_schema(), name, k) matches Ok(i) && forall|m: int|
            0 <= m < old.spec_schema().types@[i].spec_directives().len()
                ==> (#[trigger] old.spec_schema().types@[i].spec_directives()[m]).name@ != d.name@,
        directive_entry(old.spec_referencers().directives, d.name@) matches Some(j)
            && !old.spec_referencers().directives[j].1.contains(type_location(k, name)),
    ensures
        new.spec_schema().schema_definition == old.spec_schema().schema_definition,
        new.spec_schema().directive_definitions == old.spec_schema().directive_definitions,
        new.spec_schema().types@.len() == old.spec_schema().types@.len(),
        forall|m: int|
            0 <= m < old.spec_schema().types@.len() ==> (#[trigger] new.spec_schema().types@[m]).spec_directives()
                == old.spec_schema().types@[m].spec_directives() && new.spec_schema().types@[m].spec_name()
                == old.spec_schema().types@[m].spec_name(),
        new.spec_referencers() == old.spec_referencers(),
        new.spec_metadata() == old.spec_metadata(),
{
    let i = type_of_kind(old.spec_schema(), name, k)->Ok_0;
    let j = directive_entry(old.spec_referencers().directives, d.name@)->0;
    let ds = old.spec_schema().types@[i].spec_directives();
    let l = type_location(k, name);
    lemma_type_index(old.spec_schema().types@, name);
    lemma_directive_entry(old.spec_referencers().directives, d.name@);
    assert(mid.spec_schema().types@[i].spec_kind() == k) by {
        assert(mid.spec_schema().types@[i].spec_kind() == old.spec_schema().types@[i].spec_kind());
    }
    assert(type_index(mid.spec_schema().types@, name) == Some(i)) by {
        assert forall|m: int| 0 <= m < i implies mid.spec_schema().types@[m].spec_name() != name by {
            assert(mid.spec_schema().types@[m] == old.spec_schema().types@[m]);
        }
        lemma_type_index_first(mid.spec_schema().types@, name, i);
    }
    assert(type_of_kind(mid.spec_schema(), name, k) == Ok::<int, Seq<char>>(i));
    let pushed = ds.push(d);
    assert(other_applications(pushed, d.name@) == other_applications(ds, d.name@)) by {
        assert(pushed.drop_last() =~= ds);
    }
    lemma_other_applications_absent(ds, d.name@);
    let r = old.spec_referencers();
    let rm = mid.spec_referencers();
    assert(rm == with_application(r, j, l));
    assert(rm.directives.len() == r.directives.len());
    assert forall|m: int| 0 <= m < rm.directives.len() implies (#[trigger] rm.directives[m]).0 == r.directives[m].0 by {}
    crate::federation_schema::lemma_directive_entry_same_names(rm.directives, r.directives, d.name@);
    assert(directive_entry(rm.directives, d.name@) == Some(j));
    assert(without_location(with_location(r.directives[j].1, l), l) == r.directives[j].1) by {
        assert(with_location(r.directives[j].1, l) == r.directives[j].1.push(l));
        assert(r.directives[j].1.push(l).drop_last() =~= r.directives[j].1);
        lemma_without_location_absent(r.directives[j].1, l);
    }
    assert(new.spec_referencers().directives =~= r.directives);
    assert(new.spec_referencers().types =~= r.types);
    assert forall|m: int| 0 <= m < old.spec_schema().types@.len() implies (#[trigger] new.spec_schema().types@[m]).spec_directives()
        == old.spec_schema().types@[m].spec_directives() && new.spec_schema().types@[m].spec_name()
        == old.spec_schema().types@[m].spec_name() by {
        if m != i {
            assert(new.spec_schema().types@[m] == mid.spec_schema().types@[m]);
            assert(mid.spec_schema().types@[m] == old.spec_schema().types@[m]);
        }
    }
}

/// The indexes of the type `name` of kind `k` (see [`type_of_kind`]).
pub(crate) fn locate_type(schema: &Schema, name: &String, k: TypeKind) -> (res: Result<usize, FederationError>)
    ensures
        match type_of_kind(*schema, name@, k) {
            Ok(i) => res matches Ok(r) && r as int == i && 0 <= i < schema.types@.len(),
            Err(m) => res matches Err(e) && is_internal_error(e, m),
        },
{
    proof {
        lemma_type_index(schema.types@, name@);
    }
    match find_type_index(schema, name) {
        Some(i) => if schema.types[i].kind() == k {
            Ok(i)
        } else {
            match get_type_of_kind(schema, name, k) {
                Err(e) => Err(e),
                Ok(_) => {
                    assert(false);
                    Ok(i)
                },
            }
        },
        None => match get_type_of_kind(schema, name, k) {
            Err(e) => Err(e),
            Ok(_) => {
                assert(false);
                Ok(0)
            },
        },
    }
}

/// The indexes of the field `f` of the type `t` (see [`type_field`]).
pub(crate) fn locate_type_field(schema: &Schema, t: &String, f: &String, object: bool) -> (res: Result<(usize, usize), FederationError>)
    ensures
        match type_field(*schema, t@, f@, object) {
            Ok((i, j)) => res matches Ok((r1, r2)) && r1 as int == i && r2 as int == j && 0 <= i
                < schema.types@.len() && 0 <= j < child_count(schema.types@[i]),
            Err(m) => res matches Err(e) && is_internal_error(e, m),
        },
{
    proof {
        lemma_type_index(schema.types@, t@);
    }
    let k = if object { TypeKind::Object } else { TypeKind::Interface };
    let i = match locate_type(schema, t, k) {
        Ok(i) => i,
        Err(e) => {
            return Err(e);
        },
    };
    let fields = match &schema.types[i] {
        ExtendedType::Object { fields, .. } => fields,
        ExtendedType::Interface { fields, .. } => fields,
        _ => {
            assert(false);
            return Err(FederationError::internal(String::new()));
        },
    };
    match find_field(fields, f) {
        Some(j) => Ok((i, j)),
        None => match get_type_field(schema, t, f, object) {
            Err(e) => Err(e),
            Ok(_) => {
                assert(false);
                Ok((i, 0))
            },
        },
    }
}

/// The indexes of the input field `f` of the input object type `t` (see
/// [`input_object_field`]).
fn locate_input_object_field(schema: &Schema, t: &String, f: &String) -> (res: Result<(usize, usize), FederationError>)
    ensures
        match input_object_field(*schema, t@, f@) {
            Ok((i, j)) => res matches Ok((r1, r2)) && r1 as int == i && r2 as int == j && 0 <= i
                < schema.types@.len() && 0 <= j < child_count(schema.types@[i]),
            Err(m) => res matches Err(e) && is_internal_error(e, m),
        },
{
    proof {
        lemma_type_index(schema.types@, t@);
    }
    let i = match locate_type(schema, t, TypeKind::InputObject) {
        Ok(i) => i,
        Err(e) => {
            return Err(e);
        },
    };
    let fields = match &schema.types[i] {
        ExtendedType::InputObject { input_fields, .. } => input_fields,
        _ => {
            assert(false);
            return Err(FederationError::internal(String::new()));
        },
    };
    match find_input_value(fields, f) {
        Some(j) => Ok((i, j)),
        None => {
            let p = InputObjectFieldDefinitionPosition { name_of_type: t.clone(), field_name: f.clone() };
            match p.get(schema) {
                Err(e) => Err(e),
                Ok(_) => {
                    assert(false);
                    Ok((i, 0))
                },
            }
        },
    }
}

/// The indexes of the value `v` of the enum type `t` (see [`enum_value`]).
fn locate_enum_value(schema: &Schema, t: &String, v: &String) -> (res: Result<(usize, usize), FederationError>)
    ensures
        match enum_value(*schema, t@, v@) {
            Ok((i, j)) => res matches Ok((r1, r2)) && r1 as int == i && r2 as int == j && 0 <= i
                < schema.types@.len() && 0 <= j < child_count(schema.types@[i]),
            Err(m) => res matches Err(e) && is_internal_error(e, m),
        },
{
    proof {
        lemma_type_index(schema.types@, t@);
    }
    let i = match locate_type(schema, t, TypeKind::Enum) {
        Ok(i) => i,
        Err(e) => {
            return Err(e);
        },
    };
    let values = match &schema.types[i] {
        ExtendedType::Enum { values, .. } => values,
        _ => {
            assert(false);
            return Err(FederationError::internal(String::new()));
        },
    };
    match find_enum_value(values, v) {
        Some(j) => Ok((i, j)),
        None => {
            let p = EnumValueDefinitionPosition { name_of_type: t.clone(), value_name: v.clone() };
            match p.get(schema) {
                Err(e) => Err(e),
                Ok(_) => {
                    assert(false);
                    Ok((i, 0))
                },
            }
        },
    }
}

/// Whether `new` is `old` with `d` applied to its child found at `found` (a field, an input
/// field or an enum value, standing at `loc`) and recorded, `res` the outcome; else `old`
/// unchanged and the error: no such child, or `d` not defined.
pub open spec fn inserted_child_directive(
    old: FederationSchema,
    new: FederationSchema,
    found: Result<(int, int), Seq<char>>,
    loc: LocationView,
    d: Directive,
    res: Result<(), FederationError>,
) -> bool {
    match found {
        Err(m) => res matches Err(e) && is_internal_error(e, m) && new == old,
        Ok((i, j)) => match directive_entry(old.spec_referencers().directives, d.name@) {
            Some(k) => res is Ok && child_directives_set(
                old,
                new,
                i,
                j,
                child_directives(old.spec_schema().types@[i], j).push(d),
            ) && new.spec_referencers() == with_application(old.spec_referencers(), k, loc),
            None => res matches Err(e) && is_internal_error(e, directive_message(loc, d.name@))
                && new == old,
        },
    }
}

/// Whether `new` is `old` without the applications of the directive `d` on its child found
/// at `found` (standing at `loc`), and without their record; `old` unchanged where there is
/// no such child.
pub open spec fn removed_child_directive_name(
    old: FederationSchema,
    new: FederationSchema,
    found: Result<(int, int), Seq<char>>,
    loc: LocationView,
    d: Seq<char>,
) -> bool {
    match found {
        Err(_) => new == old,
        Ok((i, j)) => child_directives_set(
            old,
            new,
            i,
            j,
            other_applications(child_directives(old.spec_schema().types@[i], j), d),
        ) && new.spec_referencers() == without_application(old.spec_referencers(), d, loc),
    }
}

impl ObjectFieldDefinitionPosition {
    /// Applies `directive` to the field and records the application; an internal error where
    /// the schema has no such field or does not define the directive.
    pub fn insert_directive(&self, schema: &mut FederationSchema, directive: Directive) -> (res: Result<(), FederationError>)
        ensures
            inserted_child_directive(
                *old(schema),
                *final(schema),
                type_field(old(schema).spec_schema(), self.name_of_type@, self.field_name@, true),
                LocationView::ObjectField(self.name_of_type@, self.field_name@),
                directive,
                res,
            ),
    {
        let (i, j) = match locate_type_field(schema.schema(), &self.name_of_type, &self.field_name, true) {
            Ok(p) => p,
            Err(e) => {
                return Err(e);
            },
        };
        let loc = Location::ObjectField(self.name_of_type.clone(), self.field_name.clone());
        schema.insert_child_directive(i, j, &loc, directive)
    }

    /// Removes the applications of the directive `name` from the field, and their record.
    pub fn remove_directive_name(&self, schema: &mut FederationSchema, name: &String)
        ensures
            removed_child_directive_name(
                *old(schema),
                *final(schema),
                type_field(old(schema).spec_schema(), self.name_of_type@, self.field_name@, true),
                LocationView::ObjectField(self.name_of_type@, self.field_name@),
                name@,
            ),
    {
        match locate_type_field(schema.schema(), &self.name_of_type, &self.field_name, true) {
            Ok((i, j)) => {
                let loc = Location::ObjectField(self.name_of_type.clone(), self.field_name.clone());
                schema.remove_child_directive_name(i, j, &loc, name);
            },
            Err(_) => {},
        }
    }
}

impl InterfaceFieldDefinitionPosition {
    /// Applies `directive` to the field and records the application; an internal error where
    /// the schema has no such field or does not define the directive.
    pub fn insert_directive(&self, schema: &mut FederationSchema, directive: Directive) -> (res: Result<(), FederationError>)
        ensures
            inserted_child_directive(
                *old(schema),
                *final(schema),
                type_field(old(schema).spec_schema(), self.name_of_type@, self.field_name@, false),
                LocationView::InterfaceField(self.name_of_type@, self.field_name@),
                directive,
                res,
            ),
    {
        let (i, j) = match locate_type_field(schema.schema(), &self.name_of_type, &self.field_name, false) {
            Ok(p) => p,
            Err(e) => {
                return Err(e);
            },
        };
        let loc = Location::InterfaceField(self.name_of_type.clone(), self.field_name.clone());
        schema.insert_child_directive(i, j, &loc, directive)
    }

    /// Removes the applications of the directive `name` from the field, and their record.
    pub fn remove_directive_name(&self, schema: &mut FederationSchema, name: &String)
        ensures
            removed_child_directive_name(
                *old(schema),
                *final(schema),
                type_field(old(schema).spec_schema(), self.name_of_type@, self.field_name@, false),
                LocationView::InterfaceField(self.name_of_type@, self.field_name@),
                name@,
            ),
    {
        match locate_type_field(schema.schema(), &self.name_of_type, &self.field_name, false) {
            Ok((i, j)) => {
                let loc = Location::InterfaceField(self.name_of_type.clone(), self.field_name.clone());
                schema.remove_child_directive_name(i, j, &loc, name);
            },
            Err(_) => {},
        }
    }
}

impl InputObjectFieldDefinitionPosition {
    /// Applies `directive` to the input field and records the application; an internal error
    /// where the schema has no such field or does not define the directive.
    pub fn insert_directive(&self, schema: &mut FederationSchema, directive: Directive) -> (res: Result<(), FederationError>)
        ensures
            inserted_child_directive(
                *old(schema),
                *final(schema),
                input_object_field(old(schema).spec_schema(), self.name_of_type@, self.field_name@),
                LocationView::InputObjectField(self.name_of_type@, self.field_name@),
                directive,
                res,
            ),
    {
        let (i, j) = match locate_input_object_field(schema.schema(), &self.name_of_type, &self.field_name) {
            Ok(p) => p,
            Err(e) => {
                return Err(e);
            },
        };
        let loc = Location::InputObjectField(self.name_of_type.clone(), self.field_name.clone());
        schema.insert_child_directive(i, j, &loc, directive)
    }

    /// Removes the applications of the directive `name` from the input field, and their
    /// record.
    pub fn remove_directive_name(&self, schema: &mut FederationSchema, name: &String)
        ensures
            removed_child_directive_name(
                *old(schema),
                *final(schema),
                input_object_field(old(schema).spec_schema(), self.name_of_type@, self.field_name@),
                LocationView::InputObjectField(self.name_of_type@, self.field_name@),
                name@,
            ),
    {
        match locate_input_object_field(schema.schema(), &self.name_of_type, &self.field_name) {
            Ok((i, j)) => {
                let loc = Location::InputObjectField(self.name_of_type.clone(), self.field_name.clone());
                schema.remove_child_directive_name(i, j, &loc, name);
            },
            Err(_) => {},
        }
    }
}

impl EnumValueDefinitionPosition {
    /// Applies `directive` to the enum value and records the application; an internal error
    /// where the schema has no such value or does not define the directive.
    pub fn insert_directive(&self, schema: &mut FederationSchema, directive: Directive) -> (res: Result<(), FederationError>)
        ensures
            inserted_child_directive(
                *old(schema),
                *final(schema),
                enum_value(old(schema).spec_schema(), self.name_of_type@, self.value_name@),
                LocationView::EnumValue(self.name_of_type@, self.value_name@),
                directive,
                res,
            ),
    {
        let (i, j) = match locate_enum_value(schema.schema(), &self.name_of_type, &self.value_name) {
            Ok(p) => p,
            Err(e) => {
                return Err(e);
            },
        };
        let loc = Location::EnumValue(self.name_of_type.clone(), self.value_name.clone());
        schema.insert_child_directive(i, j, &loc, directive)
    }

    /// Removes the applications of the directive `name` from the enum value, and their
    /// record.
    pub fn remove_directive_name(&self, schema: &mut FederationSchema, name: &String)
        ensures
            removed_child_directive_name(
                *old(schema),
                *final(schema),
                enum_value(old(schema).spec_schema(), self.name_of_type@, self.value_name@),
                LocationView::EnumValue(self.name_of_type@, self.value_name@),
                name@,
            ),
    {
        match locate_enum_value(schema.schema(), &self.name_of_type, &self.value_name) {
            Ok((i, j)) => {
                let loc = Location::EnumValue(self.name_of_type.clone(), self.value_name.clone());
                schema.remove_child_directive_name(i, j, &loc, name);
            },
            Err(_) => {},
        }
    }
}

/// Whether `new` is `old` after removing its child found at `found` (see [`child_removal`]),
/// `res` the outcome; `old` unchanged where there is no such child.
pub open spec fn removed_child(
    old: FederationSchema,
    new: FederationSchema,
    found: Result<(int, int), Seq<char>>,
    res: Result<(), FederationError>,
) -> bool {
    match found {
        Err(_) => res is Ok && new == old,
        Ok((i, j)) => child_removal(old, new, i, j, res),
    }
}

impl ObjectFieldDefinitionPosition {
    /// Removes the element from the schema, forgetting its references first; nothing where
    /// the schema does not have it.
    pub fn remove(&self, schema: &mut FederationSchema) -> (res: Result<(), FederationError>)
        ensures
            removed_child(*old(schema), *final(schema), type_field(old(schema).spec_schema(), self.name_of_type@, self.field_name@, true), res),
    {
        match locate_type_field(schema.schema(), &self.name_of_type, &self.field_name, true) {
            Ok((i, j)) => schema.remove_child(i, j),
            Err(_) => Ok(()),
        }
    }
}

impl InterfaceFieldDefinitionPosition {
    /// Removes the element from the schema, forgetting its references first; nothing where
    /// the schema does not have it.
    pub fn remove(&self, schema: &mut FederationSchema) -> (res: Result<(), FederationError>)
        ensures
            removed_child(*old(schema), *final(schema), type_field(old(schema).spec_schema(), self.name_of_type@, self.field_name@, false), res),
    {
        match locate_type_field(schema.schema(), &self.name_of_type, &self.field_name, false) {
            Ok((i, j)) => schema.remove_child(i, j),
            Err(_) => Ok(()),
        }
    }
}

impl InputObjectFieldDefinitionPosition {
    /// Removes the element from the schema, forgetting its references first; nothing where
    /// the schema does not have it.
    pub fn remove(&self, schema: &mut FederationSchema) -> (res: Result<(), FederationError>)
        ensures
            removed_child(*old(schema), *final(schema), input_object_field(old(schema).spec_schema(), self.name_of_type@, self.field_name@), res),
    {
        match locate_input_object_field(schema.schema(), &self.name_of_type, &self.field_name) {
            Ok((i, j)) => schema.remove_child(i, j),
            Err(_) => Ok(()),
        }
    }
}

impl EnumValueDefinitionPosition {
    /// Removes the element from the schema, forgetting its references first; nothing where
    /// the schema does not have it.
    pub fn remove(&self, schema: &mut FederationSchema) -> (res: Result<(), FederationError>)
        ensures
            removed_child(*old(schema), *final(schema), enum_value(old(schema).spec_schema(), self.name_of_type@, self.value_name@), res),
    {
        match locate_enum_value(schema.schema(), &self.name_of_type, &self.value_name) {
            Ok((i, j)) => schema.remove_child(i, j),
            Err(_) => Ok(()),
        }
    }
}


/// The indexes of the argument `a` of the field `f` of the type `t` (see [`field_argument`]).
fn locate_field_argument(schema: &Schema, t: &String, f: &String, a: &String, object: bool) -> (res: Result<(usize, usize, usize), FederationError>)
    ensures
        match field_argument(*schema, t@, f@, a@, object) {
            Ok((i, j, k)) => res matches Ok((r1, r2, r3)) && r1 as int == i && r2 as int == j && r3 as int == k
                && 0 <= i < schema.types@.len() && (schema.types@[i] is Object || schema.types@[i] is Interface)
                && 0 <= j < child_count(schema.types@[i])
                && 0 <= k < declared_fields(schema.types@[i])[j].arguments@.len(),
            Err(m) => res matches Err(e) && is_internal_error(e, m),
        },
{
    let (i, j) = match locate_type_field(schema, t, f, object) {
        Ok(p) => p,
        Err(e) => {
            return Err(e);
        },
    };
    proof {
        lemma_type_index(schema.types@, t@);
    }
    let fields = match &schema.types[i] {
        ExtendedType::Object { fields, .. } => fields,
        ExtendedType::Interface { fields, .. } => fields,
        _ => {
            assert(false);
            return Err(FederationError::internal(String::new()));
        },
    };
    match find_input_value(&fields[j].arguments, a) {
        Some(k) => Ok((i, j, k)),
        None => match get_field_argument(schema, t, f, a, object) {
            Err(e) => Err(e),
            Ok(_) => {
                assert(false);
                Ok((i, j, 0))
            },
        },
    }
}

/// Whether `new` is `old` after removing its field argument found at `found`, standing at
/// `loc` (see [`field_argument_removal`]), `res` the outcome; `old` unchanged where there is
/// no such argument.
pub open spec fn removed_field_argument(
    old: FederationSchema,
    new: FederationSchema,
    found: Result<(int, int, int), Seq<char>>,
    loc: LocationView,
    res: Result<(), FederationError>,
) -> bool {
    match found {
        Err(_) => res is Ok && new == old,
        Ok((i, j, k)) => field_argument_removal(old, new, i, j, k, loc, res),
    }
}

impl ObjectFieldArgumentDefinitionPosition {
    /// Removes the argument from its field, forgetting its references first; nothing where
    /// the schema does not have it.
    pub fn remove(&self, schema: &mut FederationSchema) -> (res: Result<(), FederationError>)
        ensures
            removed_field_argument(
                *old(schema),
                *final(schema),
                field_argument(old(schema).spec_schema(), self.name_of_type@, self.field_name@, self.argument_name@, true),
                LocationView::ObjectFieldArgument(self.name_of_type@, self.field_name@, self.argument_name@),
                res,
            ),
    {
        match locate_field_argument(schema.schema(), &self.name_of_type, &self.field_name, &self.argument_name, true) {
            Ok((i, j, k)) => {
                let loc = Location::ObjectFieldArgument(
                    self.name_of_type.clone(),
                    self.field_name.clone(),
                    self.argument_name.clone(),
                );
                schema.remove_field_argument(i, j, k, &loc)
            },
            Err(_) => Ok(()),
        }
    }
}

impl InterfaceFieldArgumentDefinitionPosition {
    /// Removes the argument from its field, forgetting its references first; nothing where
    /// the schema does not have it.
    pub fn remove(&self, schema: &mut FederationSchema) -> (res: Result<(), FederationError>)
        ensures
            removed_field_argument(
                *old(schema),
                *final(schema),
                field_argument(old(schema).spec_schema(), self.name_of_type@, self.field_name@, self.argument_name@, false),
                LocationView::InterfaceFieldArgument(self.name_of_type@, self.field_name@, self.argument_name@),
                res,
            ),
    {
        match locate_field_argument(schema.schema(), &self.name_of_type, &self.field_name, &self.argument_name, false) {
            Ok((i, j, k)) => {
                let loc = Location::InterfaceFieldArgument(
                    self.name_of_type.clone(),
                    self.field_name.clone(),
                    self.argument_name.clone(),
                );
                schema.remove_field_argument(i, j, k, &loc)
            },
            Err(_) => Ok(()),
        }
    }
}


/// Whether `new` is `old` without the applications of the directive `d` on its field
/// argument found at `found` (standing at `loc`), and without their record; `old` unchanged
/// where there is no such argument.
pub open spec fn removed_argument_directive_name(
    old: FederationSchema,
    new: FederationSchema,
    found: Result<(int, int, int), Seq<char>>,
    loc: LocationView,
    d: Seq<char>,
) -> bool {
    match found {
        Err(_) => new == old,
        Ok((i, j, k)) => field_argument_directives_set(
            old,
            new,
            i,
            j,
            k,
            other_applications(declared_fields(old.spec_schema().types@[i])[j].arguments@[k].directives@, d),
        ) && new.spec_referencers() == without_application(old.spec_referencers(), d, loc),
    }
}

/// Whether `new` is `old` without the applications of the directive `d` on its directive
/// argument found at `found` (standing at `loc`), and without their record; `old` unchanged
/// where there is no such argument.
pub open spec fn removed_directive_argument_directive_name(
    old: FederationSchema,
    new: FederationSchema,
    found: Result<(int, int), Seq<char>>,
    loc: LocationView,
    d: Seq<char>,
) -> bool {
    match found {
        Err(_) => new == old,
        Ok((i, k)) => directive_argument_directives_set(
            old,
            new,
            i,
            k,
            other_applications(old.spec_schema().directive_definitions@[i].arguments@[k].directives@, d),
        ) && new.spec_referencers() == without_application(old.spec_referencers(), d, loc),
    }
}

/// The indexes of the argument `a` of the directive definition `d` (see
/// [`directive_argument`]).
fn locate_directive_argument(schema: &Schema, d: &String, a: &String) -> (res: Result<(usize, usize), FederationError>)
    ensures
        match directive_argument(*schema, d@, a@) {
            Ok((i, k)) => res matches Ok((r1, r2)) && r1 as int == i && r2 as int == k
                && 0 <= i < schema.directive_definitions@.len()
                && 0 <= k < schema.directive_definitions@[i].arguments@.len(),
            Err(m) => res matches Err(e) && is_internal_error(e, m),
        },
{
    let p = DirectiveArgumentDefinitionPosition { directive_name: d.clone(), argument_name: a.clone() };
    match find_directive_definition(&schema.directive_definitions, d) {
        Some(i) => match find_input_value(&schema.directive_definitions[i].arguments, a) {
            Some(k) => Ok((i, k)),
            None => match p.get(schema) {
                Err(e) => Err(e),
                Ok(_) => {
                    assert(false);
                    Ok((i, 0))
                },
            },
        },
        None => match p.get(schema) {
            Err(e) => Err(e),
            Ok(_) => {
                assert(false);
                Ok((0, 0))
            },
        },
    }
}

impl ObjectFieldArgumentDefinitionPosition {
    /// Removes the applications of the directive `name` on the argument, and their record;
    /// nothing where the schema has no such argument.
    pub fn remove_directive_name(&self, schema: &mut FederationSchema, name: &String)
        ensures
            removed_argument_directive_name(
                *old(schema),
                *final(schema),
                field_argument(old(schema).spec_schema(), self.name_of_type@, self.field_name@, self.argument_name@, true),
                LocationView::ObjectFieldArgument(self.name_of_type@, self.field_name@, self.argument_name@),
                name@,
            ),
    {
        match locate_field_argument(schema.schema(), &self.name_of_type, &self.field_name, &self.argument_name, true) {
            Ok((i, j, k)) => {
                let loc = Location::ObjectFieldArgument(
                    self.name_of_type.clone(),
                    self.field_name.clone(),
                    self.argument_name.clone(),
                );
                schema.remove_field_argument_directive_name(i, j, k, &loc, name);
            },
            Err(_) => {},
        }
    }
}

impl InterfaceFieldArgumentDefinitionPosition {
    /// Removes the applications of the directive `name` on the argument, and their record;
    /// nothing where the schema has no such argument.
    pub fn remove_directive_name(&self, schema: &mut FederationSchema, name: &String)
        ensures
            removed_argument_directive_name(
                *old(schema),
                *final(schema),
                field_argument(old(schema).spec_schema(), self.name_of_type@, self.field_name@, self.argument_name@, false),
                LocationView::InterfaceFieldArgument(self.name_of_type@, self.field_name@, self.argument_name@),
                name@,
            ),
    {
        match locate_field_argument(schema.schema(), &self.name_of_type, &self.field_name, &self.argument_name, false) {
            Ok((i, j, k)) => {
                let loc = Location::InterfaceFieldArgument(
                    self.name_of_type.clone(),
                    self.field_name.clone(),
                    self.argument_name.clone(),
                );
                schema.remove_field_argument_directive_name(i, j, k, &loc, name);
            },
            Err(_) => {},
        }
    }
}

impl DirectiveArgumentDefinitionPosition {
    /// Removes the applications of the directive `name` on the argument, and their record;
    /// nothing where the schema has no such argument.
    pub fn remove_directive_name(&self, schema: &mut FederationSchema, name: &String)
        ensures
            removed_directive_argument_directive_name(
                *old(schema),
                *final(schema),
                directive_argument(old(schema).spec_schema(), self.directive_name@, self.argument_name@),
                LocationView::DirectiveArgument(self.directive_name@, self.argument_name@),
                name@,
            ),
    {
        match locate_directive_argument(schema.schema(), &self.directive_name, &self.argument_name) {
            Ok((i, k)) => {
                let loc = Location::DirectiveArgument(self.directive_name.clone(), self.argument_name.clone());
                schema.remove_directive_argument_directive_name(i, k, &loc, name);
            },
            Err(_) => {},
        }
    }
}

impl SchemaDefinitionPosition {
    /// Removes the applications of the directive `name` on the schema definition, and their
    /// record.
    pub fn remove_directive_name(&self, schema: &mut FederationSchema, name: &String)
        ensures
            schema_definition_directives_set(
                *old(schema),
                *final(schema),
                other_applications(old(schema).spec_schema().schema_definition.directives@, name@),
            ),
            final(schema).spec_referencers() == without_application(
                old(schema).spec_referencers(),
                name@,
                LocationView::SchemaDefinition,
            ),
    {
        schema.remove_schema_definition_directive_name(name);
    }
}

/// Whether `new` is `old` without the applications of the directive `d` on the element
/// standing at `l`, and without their record; `old` unchanged where `l` leads to nothing.
pub open spec fn removed_directive_at(old: FederationSchema, new: FederationSchema, l: LocationView, d: Seq<char>) -> bool {
    let os = old.spec_schema();
    match l {
        LocationView::SchemaDefinition => schema_definition_directives_set(
            old,
            new,
            other_applications(os.schema_definition.directives@, d),
        ) && new.spec_referencers() == without_application(old.spec_referencers(), d, l),
        LocationView::SchemaRoot(_) => new == old,
        LocationView::ScalarType(n) => removed_type_directive_name(old, new, n, TypeKind::Scalar, d),
        LocationView::ObjectType(n) => removed_type_directive_name(old, new, n, TypeKind::Object, d),
        LocationView::ObjectField(t, f) => removed_child_directive_name(old, new, type_field(os, t, f, true), l, d),
        LocationView::ObjectFieldArgument(t, f, a) => removed_argument_directive_name(
            old,
            new,
            field_argument(os, t, f, a, true),
            l,
            d,
        ),
        LocationView::InterfaceType(n) => removed_type_directive_name(old, new, n, TypeKind::Interface, d),
        LocationView::InterfaceField(t, f) => removed_child_directive_name(old, new, type_field(os, t, f, false), l, d),
        LocationView::InterfaceFieldArgument(t, f, a) => removed_argument_directive_name(
            old,
            new,
            field_argument(os, t, f, a, false),
            l,
            d,
        ),
        LocationView::UnionType(n) => removed_type_directive_name(old, new, n, TypeKind::Union, d),
        LocationView::EnumType(n) => removed_type_directive_name(old, new, n, TypeKind::Enum, d),
        LocationView::EnumValue(t, v) => removed_child_directive_name(old, new, enum_value(os, t, v), l, d),
        LocationView::InputObjectType(n) => removed_type_directive_name(old, new, n, TypeKind::InputObject, d),
        LocationView::InputObjectField(t, f) => removed_child_directive_name(old, new, input_object_field(os, t, f), l, d),
        LocationView::DirectiveArgument(n, a) => removed_directive_argument_directive_name(
            old,
            new,
            directive_argument(os, n, a),
            l,
            d,
        ),
    }
}

/// Removes the applications of the directive `d` on the element standing at `loc`, and their
/// record (see [`removed_directive_at`]).
fn remove_directive_at(schema: &mut FederationSchema, loc: &Location, d: &String)
    ensures
        removed_directive_at(*old(schema), *final(schema), loc@, d@),
{
    match loc {
        Location::SchemaDefinition => SchemaDefinitionPosition.remove_directive_name(schema, d),
        Location::SchemaRoot(_) => {},
        Location::ScalarType(n) => remove_directive_name_on_type(schema, n, TypeKind::Scalar, d),
        Location::ObjectType(n) => remove_directive_name_on_type(schema, n, TypeKind::Object, d),
        Location::ObjectField(t, f) => {
            let p = ObjectFieldDefinitionPosition { name_of_type: t.clone(), field_name: f.clone() };
            p.remove_directive_name(schema, d);
        },
        Location::ObjectFieldArgument(t, f, a) => {
            let p = ObjectFieldArgumentDefinitionPosition {
                name_of_type: t.clone(),
                field_name: f.clone(),
                argument_name: a.clone(),
            };
            p.remove_directive_name(schema, d);
        },
        Location::InterfaceType(n) => remove_directive_name_on_type(schema, n, TypeKind::Interface, d),
        Location::InterfaceField(t, f) => {
            let p = InterfaceFieldDefinitionPosition { name_of_type: t.clone(), field_name: f.clone() };
            p.remove_directive_name(schema, d);
        },
        Location::InterfaceFieldArgument(t, f, a) => {
            let p = InterfaceFieldArgumentDefinitionPosition {
                name_of_type: t.clone(),
                field_name: f.clone(),
                argument_name: a.clone(),
            };
            p.remove_directive_name(schema, d);
        },
        Location::UnionType(n) => remove_directive_name_on_type(schema, n, TypeKind::Union, d),
        Location::EnumType(n) => remove_directive_name_on_type(schema, n, TypeKind::Enum, d),
        Location::EnumValue(t, v) => {
            let p = EnumValueDefinitionPosition { name_of_type: t.clone(), value_name: v.clone() };
            p.remove_directive_name(schema, d);
        },
        Location::InputObjectType(n) => remove_directive_name_on_type(schema, n, TypeKind::InputObject, d),
        Location::InputObjectField(t, f) => {
            let p = InputObjectFieldDefinitionPosition { name_of_type: t.clone(), field_name: f.clone() };
            p.remove_directive_name(schema, d);
        },
        Location::DirectiveArgument(n, a) => {
            let p = DirectiveArgumentDefinitionPosition { directive_name: n.clone(), argument_name: a.clone() };
            p.remove_directive_name(schema, d);
        },
    }
}

/// Whether the schemas `states` go from the first to the last by removing the applications
/// of the directive `d` on the element standing at each location of `ls` in turn.
pub open spec fn directive_strip_run(states: Seq<FederationSchema>, ls: Seq<LocationView>, d: Seq<char>) -> bool {
    &&& states.len() == ls.len() + 1
    &&& forall|k: int| #![trigger states[k]] 0 <= k < ls.len() ==> removed_directive_at(states[k], states[k + 1], ls[k], d)
}

/// Whether `new` is `old` after removing its directive definition `name`, `res` the outcome:
/// the definition and the record of its applications taken out (see
/// [`directive_definition_detached`]), then the applications of the directive removed from
/// every element that record lists, in its order; the record comes back. Where the schema has
/// no such definition, nothing changes.
pub open spec fn directive_definition_removal(
    old: FederationSchema,
    new: FederationSchema,
    name: Seq<char>,
    res: Result<Option<DirectiveReferencers>, FederationError>,
) -> bool {
    match directive_definition(old.spec_schema(), name) {
        Err(_) => res matches Ok(r) && r is None && new == old,
        Ok(i) => directive_definition_removed(old, new, i, name, res),
    }
}

/// Whether `new` is `old` after removing its directive definition `i`, named `name` (see
/// [`directive_definition_removal`]).
pub open spec fn directive_definition_removed(
    old: FederationSchema,
    new: FederationSchema,
    i: int,
    name: Seq<char>,
    res: Result<Option<DirectiveReferencers>, FederationError>,
) -> bool {
    exists|mid: FederationSchema, detached: Result<DirectiveReferencers, FederationError>|
        #![trigger directive_definition_detached(old, mid, i, detached)]
        directive_definition_detached(old, mid, i, detached) && detached_then(mid, new, detached, name, res)
}

/// Whether, once the definition is taken out (`mid`, with the outcome `detached`), `new` and
/// `res` follow: the error comes back, or the applications that the record lists are removed
/// and the record comes back.
pub open spec fn detached_then(
    mid: FederationSchema,
    new: FederationSchema,
    detached: Result<DirectiveReferencers, FederationError>,
    name: Seq<char>,
    res: Result<Option<DirectiveReferencers>, FederationError>,
) -> bool {
    match detached {
        Err(e) => res == Err::<Option<DirectiveReferencers>, FederationError>(e) && new == mid,
        Ok(dr) => res matches Ok(r) && r == Some(dr) && exists|states: Seq<FederationSchema>|
            #![trigger directive_strip_run(states, locations_view(dr.referencers@), name)]
            directive_strip_run(states, locations_view(dr.referencers@), name) && states[0] == mid
                && states.last() == new,
    }
}

impl DirectiveDefinitionPosition {
    /// Removes the directive definition and every application of the directive that the
    /// schema records (see [`directive_definition_removal`]).
    pub fn remove(&self, schema: &mut FederationSchema) -> (res: Result<Option<DirectiveReferencers>, FederationError>)
        ensures
            directive_definition_removal(*old(schema), *final(schema), self.directive_name@, res),
    {
        let i = match find_directive_definition(&schema.schema().directive_definitions, &self.directive_name) {
            Some(i) => i,
            None => {
                return Ok(None);
            },
        };
        let ghost old_schema = *schema;
        assert(directive_definition(old_schema.spec_schema(), self.directive_name@) == Ok::<int, Seq<char>>(i as int));
        let detached = schema.detach_directive_definition(i);
        let ghost mid = *schema;
        let ghost detached_view = detached;
        let dr = match detached {
            Ok(dr) => dr,
            Err(e) => {
                assert(directive_definition_detached(old_schema, mid, i as int, detached_view));
                assert(detached_then(mid, mid, detached_view, self.directive_name@, Err(e)));
                assert(directive_definition_removed(old_schema, mid, i as int, self.directive_name@, Err(e)));
                return Err(e);
            },
        };
        let ghost ls = locations_view(dr.referencers@);
        let ghost mut states: Seq<FederationSchema> = seq![mid];
        let mut k: usize = 0;
        while k < dr.referencers.len()
            invariant
                k <= dr.referencers@.len(),
                ls == locations_view(dr.referencers@),
                states.len() == k + 1,
                states[0] == mid,
                states.last() == *schema,
                forall|m: int| #![trigger states[m]] 0 <= m < k ==> removed_directive_at(states[m], states[m + 1], ls[m], self.directive_name@),
            decreases dr.referencers@.len() - k,
        {
            remove_directive_at(schema, &dr.referencers[k], &self.directive_name);
            proof {
                let prev = states;
                states = states.push(*schema);
                assert forall|m: int| #![trigger states[m]] 0 <= m < k + 1 implies removed_directive_at(states[m], states[m + 1], ls[m], self.directive_name@) by {
                    if m < k {
                        assert(states[m] == prev[m]);
                        assert(states[m + 1] == prev[m + 1]);
                    }
                }
            }
            k = k + 1;
        }
        proof {
            assert(ls.len() == dr.referencers@.len());
            assert(directive_strip_run(states, ls, self.directive_name@));
            assert(directive_definition_detached(old_schema, mid, i as int, detached_view));
            assert(detached_then(mid, *schema, detached_view, self.directive_name@, Ok(Some(dr))));
            assert(directive_definition_removed(old_schema, *schema, i as int, self.directive_name@, Ok(Some(dr))));
        }
        Ok(Some(dr))
    }
}


impl SchemaRootDefinitionPosition {
    /// Removes the root from the schema definition, and the record of its reference to the
    /// root type; nothing where there is no such root.
    pub fn remove(&self, schema: &mut FederationSchema)
        ensures
            root_removed(*old(schema), *final(schema), self.root_kind),
    {
        schema.remove_root(self.root_kind);
    }
}

/// Whether `new` is `old` with `name` no longer implemented by, or a member of, its type
/// found at `found` (standing at `loc`), and without the record of that reference; `old`
/// unchanged where there is no such type.
pub open spec fn removed_type_name(
    old: FederationSchema,
    new: FederationSchema,
    found: Result<int, Seq<char>>,
    loc: LocationView,
    name: Seq<char>,
) -> bool {
    match found {
        Err(_) => new == old,
        Ok(i) => type_name_removed(old, new, i, loc, name),
    }
}

fn remove_type_name_on_type(schema: &mut FederationSchema, t: &String, k: TypeKind, name: &String)
    requires
        k == TypeKind::Object || k == TypeKind::Interface || k == TypeKind::Union,
    ensures
        removed_type_name(*old(schema), *final(schema), type_of_kind(old(schema).spec_schema(), t@, k), type_location(k, t@), name@),
{
    match locate_type(schema.schema(), t, k) {
        Ok(i) => {
            let loc = type_location_of(k, t);
            schema.remove_type_name(i, &loc, name);
        },
        Err(_) => {},
    }
}

impl ObjectTypeDefinitionPosition {
    /// Stops the object type implementing the interface `name`, and forgets that reference;
    /// nothing where the schema has no such object type.
    pub fn remove_implements_interface(&self, schema: &mut FederationSchema, name: &String)
        ensures
            removed_type_name(
                *old(schema),
                *final(schema),
                type_of_kind(old(schema).spec_schema(), self.name_of_type@, TypeKind::Object),
                LocationView::ObjectType(self.name_of_type@),
                name@,
            ),
    {
        remove_type_name_on_type(schema, &self.name_of_type, TypeKind::Object, name)
    }
}

impl InterfaceTypeDefinitionPosition {
    /// Stops the interface type implementing the interface `name`, and forgets that
    /// reference; nothing where the schema has no such interface type.
    pub fn remove_implements_interface(&self, schema: &mut FederationSchema, name: &String)
        ensures
            removed_type_name(
                *old(schema),
                *final(schema),
                type_of_kind(old(schema).spec_schema(), self.name_of_type@, TypeKind::Interface),
                LocationView::InterfaceType(self.name_of_type@),
                name@,
            ),
    {
        remove_type_name_on_type(schema, &self.name_of_type, TypeKind::Interface, name)
    }
}

impl UnionTypeDefinitionPosition {
    /// Removes the member `name` from the union type, and forgets that reference; nothing
    /// where the schema has no such union type.
    pub fn remove_member(&self, schema: &mut FederationSchema, name: &String)
        ensures
            removed_type_name(
                *old(schema),
                *final(schema),
                type_of_kind(old(schema).spec_schema(), self.name_of_type@, TypeKind::Union),
                LocationView::UnionType(self.name_of_type@),
                name@,
            ),
    {
        remove_type_name_on_type(schema, &self.name_of_type, TypeKind::Union, name)
    }
}

/// Whether `new` is `old` after removing its directive argument found at `found`, standing
/// at `loc` (see [`directive_argument_removal`]), `res` the outcome; `old` unchanged where
/// there is no such argument.
pub open spec fn removed_directive_argument(
    old: FederationSchema,
    new: FederationSchema,
    found: Result<(int, int), Seq<char>>,
    loc: LocationView,
    res: Result<(), FederationError>,
) -> bool {
    match found {
        Err(_) => res is Ok && new == old,
        Ok((i, k)) => directive_argument_removal(old, new, i, k, loc, res),
    }
}

impl DirectiveArgumentDefinitionPosition {
    /// Removes the argument from its directive definition, forgetting its references first;
    /// nothing where the schema does not have it.
    pub fn remove(&self, schema: &mut FederationSchema) -> (res: Result<(), FederationError>)
        ensures
            removed_directive_argument(
                *old(schema),
                *final(schema),
                directive_argument(old(schema).spec_schema(), self.directive_name@, self.argument_name@),
                LocationView::DirectiveArgument(self.directive_name@, self.argument_name@),
                res,
            ),
    {
        match locate_directive_argument(schema.schema(), &self.directive_name, &self.argument_name) {
            Ok((i, k)) => {
                let loc = Location::DirectiveArgument(self.directive_name.clone(), self.argument_name.clone());
                schema.remove_directive_argument(i, k, &loc)
            },
            Err(_) => Ok(()),
        }
    }
}

/// Whether `new` is `old` after removing, at `l`, what there references the type `t` that
/// goes away, `res` the outcome: a root is removed; an object or interface type stops
/// implementing `t`; a union loses the member `t`; a field, an argument or an input field is
/// removed.
pub open spec fn removed_reference_at(
    old: FederationSchema,
    new: FederationSchema,
    l: LocationView,
    t: Seq<char>,
    res: Result<(), FederationError>,
) -> bool {
    let os = old.spec_schema();
    match l {
        LocationView::SchemaRoot(k) => res is Ok && root_removed(old, new, k),
        LocationView::ObjectType(o) => res is Ok && removed_type_name(
            old,
            new,
            type_of_kind(os, o, TypeKind::Object),
            l,
            t,
        ),
        LocationView::InterfaceType(o) => res is Ok && removed_type_name(
            old,
            new,
            type_of_kind(os, o, TypeKind::Interface),
            l,
            t,
        ),
        LocationView::UnionType(o) => res is Ok && removed_type_name(
            old,
            new,
            type_of_kind(os, o, TypeKind::Union),
            l,
            t,
        ),
        LocationView::ObjectField(a, f) => removed_child(old, new, type_field(os, a, f, true), res),
        LocationView::InterfaceField(a, f) => removed_child(old, new, type_field(os, a, f, false), res),
        LocationView::ObjectFieldArgument(a, f, g) => removed_field_argument(
            old,
            new,
            field_argument(os, a, f, g, true),
            l,
            res,
        ),
        LocationView::InterfaceFieldArgument(a, f, g) => removed_field_argument(
            old,
            new,
            field_argument(os, a, f, g, false),
            l,
            res,
        ),
        LocationView::InputObjectField(a, f) => removed_child(old, new, input_object_field(os, a, f), res),
        LocationView::DirectiveArgument(d, a) => removed_directive_argument(
            old,
            new,
            directive_argument(os, d, a),
            l,
            res,
        ),
        _ => res is Ok && new == old,
    }
}

/// Removes, at `loc`, what there references the type `t` (see [`removed_reference_at`]).
fn remove_reference_at(schema: &mut FederationSchema, loc: &Location, t: &String) -> (res: Result<(), FederationError>)
    ensures
        removed_reference_at(*old(schema), *final(schema), loc@, t@, res),
{
    match loc {
        Location::SchemaRoot(k) => {
            let p = SchemaRootDefinitionPosition { root_kind: *k };
            p.remove(schema);
            Ok(())
        },
        Location::ObjectType(o) => {
            remove_type_name_on_type(schema, o, TypeKind::Object, t);
            Ok(())
        },
        Location::InterfaceType(o) => {
            remove_type_name_on_type(schema, o, TypeKind::Interface, t);
            Ok(())
        },
        Location::UnionType(o) => {
            remove_type_name_on_type(schema, o, TypeKind::Union, t);
            Ok(())
        },
        Location::ObjectField(a, f) => {
            let p = ObjectFieldDefinitionPosition { name_of_type: a.clone(), field_name: f.clone() };
            p.remove(schema)
        },
        Location::InterfaceField(a, f) => {
            let p = InterfaceFieldDefinitionPosition { name_of_type: a.clone(), field_name: f.clone() };
            p.remove(schema)
        },
        Location::ObjectFieldArgument(a, f, g) => {
            let p = ObjectFieldArgumentDefinitionPosition {
                name_of_type: a.clone(),
                field_name: f.clone(),
                argument_name: g.clone(),
            };
            p.remove(schema)
        },
        Location::InterfaceFieldArgument(a, f, g) => {
            let p = InterfaceFieldArgumentDefinitionPosition {
                name_of_type: a.clone(),
                field_name: f.clone(),
                argument_name: g.clone(),
            };
            p.remove(schema)
        },
        Location::InputObjectField(a, f) => {
            let p = InputObjectFieldDefinitionPosition { name_of_type: a.clone(), field_name: f.clone() };
            p.remove(schema)
        },
        Location::DirectiveArgument(d, a) => {
            let p = DirectiveArgumentDefinitionPosition { directive_name: d.clone(), argument_name: a.clone() };
            p.remove(schema)
        },
        _ => Ok(()),
    }
}


/// The kinds of element that can reference a type, by which the removal of a type groups
/// what references it.
#[derive(Debug, Clone, Copy)]
pub enum Referrer {
    SchemaRoot,
    ObjectType,
    ObjectField,
    ObjectFieldArgument,
    InterfaceType,
    InterfaceField,
    InterfaceFieldArgument,
    UnionType,
    InputObjectField,
    DirectiveArgument,
    ScalarType,
    EnumType,
    EnumValue,
    InputObjectType,
}

/// Whether the location `l` is of the kind `c`.
pub open spec fn is_referrer(l: LocationView, c: Referrer) -> bool {
    match c {
        Referrer::SchemaRoot => l is SchemaRoot,
        Referrer::ObjectType => l is ObjectType,
        Referrer::ObjectField => l is ObjectField,
        Referrer::ObjectFieldArgument => l is ObjectFieldArgument,
        Referrer::InterfaceType => l is InterfaceType,
        Referrer::InterfaceField => l is InterfaceField,
        Referrer::InterfaceFieldArgument => l is InterfaceFieldArgument,
        Referrer::UnionType => l is UnionType,
        Referrer::InputObjectField => l is InputObjectField,
        Referrer::DirectiveArgument => l is DirectiveArgument,
        Referrer::ScalarType => l is ScalarType,
        Referrer::EnumType => l is EnumType,
        Referrer::EnumValue => l is EnumValue,
        Referrer::InputObjectType => l is InputObjectType,
    }
}

pub(crate) fn is_referrer_exec(l: &Location, c: Referrer) -> (res: bool)
    ensures
        res == is_referrer(l@, c),
{
    match c {
        Referrer::SchemaRoot => matches!(l, Location::SchemaRoot(_)),
        Referrer::ObjectType => matches!(l, Location::ObjectType(_)),
        Referrer::ObjectField => matches!(l, Location::ObjectField(_, _)),
        Referrer::ObjectFieldArgument => matches!(l, Location::ObjectFieldArgument(_, _, _)),
        Referrer::InterfaceType => matches!(l, Location::InterfaceType(_)),
        Referrer::InterfaceField => matches!(l, Location::InterfaceField(_, _)),
        Referrer::InterfaceFieldArgument => matches!(l, Location::InterfaceFieldArgument(_, _, _)),
        Referrer::UnionType => matches!(l, Location::UnionType(_)),
        Referrer::InputObjectField => matches!(l, Location::InputObjectField(_, _)),
        Referrer::DirectiveArgument => matches!(l, Location::DirectiveArgument(_, _)),
        Referrer::ScalarType => matches!(l, Location::ScalarType(_)),
        Referrer::EnumType => matches!(l, Location::EnumType(_)),
        Referrer::EnumValue => matches!(l, Location::EnumValue(_, _)),
        Referrer::InputObjectType => matches!(l, Location::InputObjectType(_)),
    }
}

/// The groups, in order, in which the removal of a type of kind `k` takes what references
/// it.
pub open spec fn cascade_order(k: TypeKind) -> Seq<Referrer> {
    match k {
        TypeKind::Scalar => seq![
            Referrer::ObjectField,
            Referrer::ObjectFieldArgument,
            Referrer::InterfaceField,
            Referrer::InterfaceFieldArgument,
            Referrer::InputObjectField,
            Referrer::DirectiveArgument,
        ],
        TypeKind::Object => seq![
            Referrer::SchemaRoot,
            Referrer::ObjectField,
            Referrer::InterfaceField,
            Referrer::UnionType,
        ],
        TypeKind::Interface => seq![
            Referrer::ObjectType,
            Referrer::ObjectField,
            Referrer::InterfaceType,
            Referrer::InterfaceField,
        ],
        TypeKind::Union => seq![Referrer::ObjectField, Referrer::InterfaceField],
        TypeKind::Enum => seq![
            Referrer::ObjectField,
            Referrer::ObjectFieldArgument,
            Referrer::InterfaceField,
            Referrer::InterfaceFieldArgument,
            Referrer::InputObjectField,
            Referrer::DirectiveArgument,
        ],
        TypeKind::InputObject => seq![
            Referrer::ObjectFieldArgument,
            Referrer::InterfaceFieldArgument,
            Referrer::InputObjectField,
            Referrer::DirectiveArgument,
        ],
    }
}

fn cascade_order_of(k: TypeKind) -> (res: Vec<Referrer>)
    ensures
        res@ == cascade_order(k),
{
    let v = match k {
        TypeKind::Scalar => vec![
            Referrer::ObjectField,
            Referrer::ObjectFieldArgument,
            Referrer::InterfaceField,
            Referrer::InterfaceFieldArgument,
            Referrer::InputObjectField,
            Referrer::DirectiveArgument,
        ],
        TypeKind::Object => vec![
            Referrer::SchemaRoot,
            Referrer::ObjectField,
            Referrer::InterfaceField,
            Referrer::UnionType,
        ],
        TypeKind::Interface => vec![
            Referrer::ObjectType,
            Referrer::ObjectField,
            Referrer::InterfaceType,
            Referrer::InterfaceField,
        ],
        TypeKind::Union => vec![Referrer::ObjectField, Referrer::InterfaceField],
        TypeKind::Enum => vec![
            Referrer::ObjectField,
            Referrer::ObjectFieldArgument,
            Referrer::InterfaceField,
            Referrer::InterfaceFieldArgument,
            Referrer::InputObjectField,
            Referrer::DirectiveArgument,
        ],
        TypeKind::InputObject => vec![
            Referrer::ObjectFieldArgument,
            Referrer::InterfaceFieldArgument,
            Referrer::InputObjectField,
            Referrer::DirectiveArgument,
        ],
    };
    assert(v@ =~= cascade_order(k));
    v
}

/// The locations `ls` of the groups `cs`, group by group, each group in the order of `ls`.
pub open spec fn grouped(ls: Seq<LocationView>, cs: Seq<Referrer>) -> Seq<LocationView>
    decreases cs.len(),
{
    if cs.len() == 0 {
        Seq::empty()
    } else {
        grouped(ls, cs.drop_last()) + ls.filter(referrer_pred(cs.last()))
    }
}

/// The test of whether a location is of the kind `c`.
pub open spec fn referrer_pred(c: Referrer) -> spec_fn(LocationView) -> bool {
    |l: LocationView| is_referrer(l, c)
}

pub(crate) proof fn lemma_filter_step(ls: Seq<LocationView>, c: Referrer, m: int)
    requires
        0 <= m < ls.len(),
    ensures
        ls.take(m + 1).filter(referrer_pred(c)) == if is_referrer(ls[m], c) {
            ls.take(m).filter(referrer_pred(c)).push(ls[m])
        } else {
            ls.take(m).filter(referrer_pred(c))
        },
{
    reveal(Seq::filter);
    assert(ls.take(m + 1).drop_last() =~= ls.take(m));
    assert(ls.take(m + 1).last() == ls[m]);
}

proof fn lemma_prefix_concat(full: Seq<LocationView>, base: Seq<LocationView>, x: Seq<LocationView>, y: Seq<LocationView>)
    requires
        (base + (x + y)).len() <= full.len(),
        full.take((base + (x + y)).len() as int) == base + (x + y),
    ensures
        (base + x).len() <= full.len(),
        full.take((base + x).len() as int) == base + x,
{
    assert forall|j: int| 0 <= j < (base + x).len() implies full.take((base + x).len() as int)[j] == (base + x)[j] by {
        assert(full.take((base + (x + y)).len() as int)[j] == (base + (x + y))[j]);
    }
    assert(full.take((base + x).len() as int) =~= base + x);
}

proof fn lemma_run_stops(
    states: Seq<FederationSchema>,
    done: Seq<LocationView>,
    full: Seq<LocationView>,
    t: Seq<char>,
    e: FederationError,
)
    requires
        done.len() >= 1,
        states.len() == done.len() + 1,
        done.len() <= full.len(),
        full.take(done.len() as int) == done,
        forall|j: int| #![trigger states[j]] 0 <= j < done.len() - 1 ==> removed_reference_at(states[j], states[j + 1], done[j], t, Ok(())),
        removed_reference_at(states[done.len() - 1], states[done.len() as int], done[done.len() - 1], t, Err(e)),
    ensures
        reference_run(states, full, t, Err(e)),
{
    assert forall|j: int| 0 <= j < done.len() implies full[j] == done[j] by {
        assert(full.take(done.len() as int)[j] == done[j]);
    }
}

proof fn lemma_run_completes(
    states: Seq<FederationSchema>,
    full: Seq<LocationView>,
    t: Seq<char>,
)
    requires
        states.len() == full.len() + 1,
        forall|j: int| #![trigger states[j]] 0 <= j < full.len() ==> removed_reference_at(states[j], states[j + 1], full[j], t, Ok(())),
    ensures
        reference_run(states, full, t, Ok(())),
{
}

/// Whether the schemas `states` go from the first to the last by removing, at each location
/// of `ls` in turn, what there references the type `t` (see [`removed_reference_at`]), `res`
/// the outcome: they stop after the first removal that fails, with its error.
pub open spec fn reference_run(
    states: Seq<FederationSchema>,
    ls: Seq<LocationView>,
    t: Seq<char>,
    res: Result<(), FederationError>,
) -> bool {
    let n = states.len() - 1;
    &&& 1 <= states.len() <= ls.len() + 1
    &&& forall|k: int| #![trigger states[k]] 0 <= k < n - 1 ==> removed_reference_at(states[k], states[k + 1], ls[k], t, Ok(()))
    &&& match res {
        Ok(()) => n == ls.len() && (n > 0 ==> removed_reference_at(states[n - 1], states[n], ls[n - 1], t, Ok(()))),
        Err(e) => n > 0 && removed_reference_at(states[n - 1], states[n], ls[n - 1], t, Err(e)),
    }
}

/// Whether `new` is `old` after removing its type `name` of kind `k`, `res` the outcome: the
/// type and the record of its references taken out (see [`type_detached`]), then what
/// references it removed, group by group (see [`cascade_order`]), stopping at the first
/// removal that fails; the record comes back. Where the schema has no such type, nothing
/// changes.
pub open spec fn type_removal(
    old: FederationSchema,
    new: FederationSchema,
    name: Seq<char>,
    k: TypeKind,
    res: Result<Option<TypeReferencers>, FederationError>,
) -> bool {
    match type_of_kind(old.spec_schema(), name, k) {
        Err(_) => res matches Ok(r) && r is None && new == old,
        Ok(i) => type_removed(old, new, i, name, k, res),
    }
}

/// Whether `new` is `old` after removing its type `i`, named `name`, of kind `k` (see
/// [`type_removal`]).
pub open spec fn type_removed(
    old: FederationSchema,
    new: FederationSchema,
    i: int,
    name: Seq<char>,
    k: TypeKind,
    res: Result<Option<TypeReferencers>, FederationError>,
) -> bool {
    exists|mid: FederationSchema, detached: Result<TypeReferencers, FederationError>|
        #![trigger type_detached(old, mid, i, detached)]
        type_detached(old, mid, i, detached) && type_detached_then(mid, new, detached, name, k, res)
}

/// Whether, once the type is taken out (`mid`, with the outcome `detached`), `new` and `res`
/// follow (see [`type_removal`]).
pub open spec fn type_detached_then(
    mid: FederationSchema,
    new: FederationSchema,
    detached: Result<TypeReferencers, FederationError>,
    name: Seq<char>,
    k: TypeKind,
    res: Result<Option<TypeReferencers>, FederationError>,
) -> bool {
    match detached {
        Err(e) => res == Err::<Option<TypeReferencers>, FederationError>(e) && new == mid,
        Ok(tr) => exists|states: Seq<FederationSchema>, r: Result<(), FederationError>|
            #![trigger reference_run(states, grouped(locations_view(tr.referencers@), cascade_order(k)), name, r)]
            reference_run(states, grouped(locations_view(tr.referencers@), cascade_order(k)), name, r)
                && states[0] == mid && states.last() == new && match r {
                Ok(()) => res matches Ok(o) && o == Some(tr),
                Err(e) => res == Err::<Option<TypeReferencers>, FederationError>(e),
            },
    }
}

proof fn lemma_filter_prefix(ls: Seq<LocationView>, c: Referrer, m: int)
    requires
        0 <= m <= ls.len(),
    ensures
        ls.filter(referrer_pred(c)) == ls.take(m).filter(referrer_pred(c)) + ls.skip(m).filter(referrer_pred(c)),
{
    assert(ls =~= ls.take(m) + ls.skip(m));
    Seq::filter_distributes_over_add(ls.take(m), ls.skip(m), referrer_pred(c));
}

/// Removes the type `name` of kind `k` (see [`type_removal`]).
#[verifier::rlimit(50)]
fn remove_type_of_kind(schema: &mut FederationSchema, name: &String, k: TypeKind) -> (res: Result<Option<TypeReferencers>, FederationError>)
    ensures
        type_removal(*old(schema), *final(schema), name@, k, res),
{
    let i = match locate_type(schema.schema(), name, k) {
        Ok(i) => i,
        Err(_) => {
            return Ok(None);
        },
    };
    let ghost old_schema = *schema;
    assert(type_of_kind(old_schema.spec_schema(), name@, k) == Ok::<int, Seq<char>>(i as int));
    let detached = schema.detach_type(i);
    let ghost mid = *schema;
    let ghost dv = detached;
    let tr = match detached {
        Ok(tr) => tr,
        Err(e) => {
            assert(type_detached(old_schema, mid, i as int, dv));
            assert(type_detached_then(mid, mid, dv, name@, k, Err(e)));
            assert(type_removed(old_schema, mid, i as int, name@, k, Err(e)));
            return Err(e);
        },
    };
    let order = cascade_order_of(k);
    let ghost ls = locations_view(tr.referencers@);
    let ghost full = grouped(ls, cascade_order(k));
    let ghost mut states: Seq<FederationSchema> = seq![mid];
    let ghost mut done: Seq<LocationView> = Seq::empty();
    proof {
        assert(grouped(ls, order@.take(0)) =~= Seq::<LocationView>::empty());
        assert(order@.take(order@.len() as int) =~= order@);
    }
    let mut c: usize = 0;
    while c < order.len()
        invariant
            c <= order@.len(),
            order@ == cascade_order(k),
            ls == locations_view(tr.referencers@),
            full == grouped(ls, cascade_order(k)),
            done == grouped(ls, order@.take(c as int)),
            states.len() == done.len() + 1,
            states[0] == mid,
            states.last() == *schema,
            dv == Ok::<TypeReferencers, FederationError>(tr),
            type_detached(old_schema, mid, i as int, dv),
            old_schema == *old(schema),
            type_of_kind(old_schema.spec_schema(), name@, k) == Ok::<int, Seq<char>>(i as int),
            forall|j: int| #![trigger states[j]] 0 <= j < done.len() ==> removed_reference_at(states[j], states[j + 1], done[j], name@, Ok(())),
            full.take(done.len() as int) == done,
            done.len() <= full.len(),
        decreases order@.len() - c,
    {
        let cat = order[c];
        let ghost base = done;
        let ghost p = referrer_pred(cat);
        proof {
            assert(order@.take(c + 1).drop_last() =~= order@.take(c as int));
            assert(order@.take(c + 1).last() == cat);
            assert(grouped(ls, order@.take(c + 1)) == base + ls.filter(p));
            assert(ls.take(0).filter(p) =~= Seq::<LocationView>::empty());
            assert(base + ls.take(0).filter(p) =~= base);
            // the groups so far, then this group, are where the full order begins
            lemma_grouped_prefix(ls, cascade_order(k), c as int + 1);
        }
        let mut m: usize = 0;
        while m < tr.referencers.len()
            invariant
                m <= tr.referencers@.len(),
                c < order@.len(),
                cat == order@[c as int],
                order@ == cascade_order(k),
                ls == locations_view(tr.referencers@),
                full == grouped(ls, cascade_order(k)),
                base == grouped(ls, order@.take(c as int)),
                p == referrer_pred(cat),
                (base + ls.filter(p)).len() <= full.len(),
                full.take((base + ls.filter(p)).len() as int) == base + ls.filter(p),
                done == base + ls.take(m as int).filter(p),
                states.len() == done.len() + 1,
                states[0] == mid,
                states.last() == *schema,
                dv == Ok::<TypeReferencers, FederationError>(tr),
                type_detached(old_schema, mid, i as int, dv),
                old_schema == *old(schema),
                type_of_kind(old_schema.spec_schema(), name@, k) == Ok::<int, Seq<char>>(i as int),
                forall|j: int| #![trigger states[j]] 0 <= j < done.len() ==> removed_reference_at(states[j], states[j + 1], done[j], name@, Ok(())),
            decreases tr.referencers@.len() - m,
        {
            let is_cat = is_referrer_exec(&tr.referencers[m], cat);
            proof {
                assert(ls[m as int] == tr.referencers@[m as int]@);
                lemma_filter_prefix(ls, cat, m as int + 1);
                lemma_filter_step(ls, cat, m as int);
            }
            if is_cat {
                let ghost prev = states;
                let ghost before = *schema;
                let r = remove_reference_at(schema, &tr.referencers[m], name);
                proof {
                    states = states.push(*schema);
                    done = done.push(ls[m as int]);
                    assert(done =~= base + ls.take(m + 1).filter(p));
                    assert(states[states.len() - 2] == before);
                    assert forall|j: int| #![trigger states[j]] 0 <= j < done.len() - 1 implies removed_reference_at(
                        states[j],
                        states[j + 1],
                        done[j],
                        name@,
                        Ok(()),
                    ) by {
                        assert(states[j] == prev[j]);
                        assert(states[j + 1] == prev[j + 1]);
                    }
                    lemma_prefix_concat(full, base, ls.take(m + 1).filter(p), ls.skip(m + 1).filter(p));
                }
                match r {
                    Ok(()) => {},
                    Err(e) => {
                        proof {
                            lemma_run_stops(states, done, full, name@, e);
                            assert(dv == Ok::<TypeReferencers, FederationError>(tr));
                            assert(reference_run(states, grouped(locations_view(tr.referencers@), cascade_order(k)), name@, Err(e)));
                            assert(type_detached_then(mid, *schema, dv, name@, k, Err(e)));
                            assert(type_detached(old_schema, mid, i as int, dv));
                            assert(type_removed(old_schema, *schema, i as int, name@, k, Err(e)));
                        }
                        return Err(e);
                    },
                }
            } else {
                proof {
                    assert(done =~= base + ls.take(m + 1).filter(p));
                }
            }
            m = m + 1;
        }
        proof {
            assert(ls.take(ls.len() as int) =~= ls);
            assert(order@.take(c + 1).drop_last() =~= order@.take(c as int));
            assert(done == grouped(ls, order@.take(c + 1)));
            assert(full.take(done.len() as int) == done);
        }
        c = c + 1;
    }
    proof {
        assert(order@.take(order@.len() as int) =~= order@);
        assert(done == full);
        lemma_run_completes(states, full, name@);
        assert(type_detached_then(mid, *schema, dv, name@, k, Ok(Some(tr))));
        assert(type_detached(old_schema, mid, i as int, dv));
        assert(type_removed(old_schema, *schema, i as int, name@, k, Ok(Some(tr))));
    }
    Ok(Some(tr))
}

proof fn lemma_grouped_prefix(ls: Seq<LocationView>, cs: Seq<Referrer>, c: int)
    requires
        0 <= c <= cs.len(),
    ensures
        grouped(ls, cs).take(grouped(ls, cs.take(c)).len() as int) == grouped(ls, cs.take(c)),
        grouped(ls, cs.take(c)).len() <= grouped(ls, cs).len(),
    decreases cs.len() - c,
{
    if c == cs.len() {
        assert(cs.take(c) =~= cs);
        assert(grouped(ls, cs).take(grouped(ls, cs).len() as int) =~= grouped(ls, cs));
    } else {
        lemma_grouped_prefix(ls, cs, c + 1);
        assert(cs.take(c + 1).drop_last() =~= cs.take(c));
        let g = grouped(ls, cs.take(c));
        let g1 = grouped(ls, cs.take(c + 1));
        assert(g1 == g + ls.filter(referrer_pred(cs.take(c + 1).last())));
        assert(grouped(ls, cs).take(g.len() as int) =~= g) by {
            assert forall|j: int| 0 <= j < g.len() implies grouped(ls, cs).take(g.len() as int)[j] == g[j] by {
                assert(grouped(ls, cs).take(g1.len() as int)[j] == g1[j]);
            }
        }
    }
}

impl ScalarTypeDefinitionPosition {
    /// Removes the scalar type and what references it (see [`type_removal`]).
    pub fn remove(&self, schema: &mut FederationSchema) -> (res: Result<Option<TypeReferencers>, FederationError>)
        ensures
            type_removal(*old(schema), *final(schema), self.name_of_type@, TypeKind::Scalar, res),
    {
        remove_type_of_kind(schema, &self.name_of_type, TypeKind::Scalar)
    }
}

impl ObjectTypeDefinitionPosition {
    /// Removes the object type and what references it (see [`type_removal`]).
    pub fn remove(&self, schema: &mut FederationSchema) -> (res: Result<Option<TypeReferencers>, FederationError>)
        ensures
            type_removal(*old(schema), *final(schema), self.name_of_type@, TypeKind::Object, res),
    {
        remove_type_of_kind(schema, &self.name_of_type, TypeKind::Object)
    }
}

impl InterfaceTypeDefinitionPosition {
    /// Removes the interface type and what references it (see [`type_removal`]).
    pub fn remove(&self, schema: &mut FederationSchema) -> (res: Result<Option<TypeReferencers>, FederationError>)
        ensures
            type_removal(*old(schema), *final(schema), self.name_of_type@, TypeKind::Interface, res),
    {
        remove_type_of_kind(schema, &self.name_of_type, TypeKind::Interface)
    }
}

impl UnionTypeDefinitionPosition {
    /// Removes the union type and what references it (see [`type_removal`]).
    pub fn remove(&self, schema: &mut FederationSchema) -> (res: Result<Option<TypeReferencers>, FederationError>)
        ensures
            type_removal(*old(schema), *final(schema), self.name_of_type@, TypeKind::Union, res),
    {
        remove_type_of_kind(schema, &self.name_of_type, TypeKind::Union)
    }
}

impl EnumTypeDefinitionPosition {
    /// Removes the enum type and what references it (see [`type_removal`]).
    pub fn remove(&self, schema: &mut FederationSchema) -> (res: Result<Option<TypeReferencers>, FederationError>)
        ensures
            type_removal(*old(schema), *final(schema), self.name_of_type@, TypeKind::Enum, res),
    {
        remove_type_of_kind(schema, &self.name_of_type, TypeKind::Enum)
    }
}

impl InputObjectTypeDefinitionPosition {
    /// Removes the input object type and what references it (see [`type_removal`]).
    pub fn remove(&self, schema: &mut FederationSchema) -> (res: Result<Option<TypeReferencers>, FederationError>)
        ensures
            type_removal(*old(schema), *final(schema), self.name_of_type@, TypeKind::InputObject, res),
    {
        remove_type_of_kind(schema, &self.name_of_type, TypeKind::InputObject)
    }
}


/// The locations `ls` of the groups `order`, group by group (see [`grouped`]).
pub(crate) fn grouped_locations(ls: &Vec<Location>, order: &Vec<Referrer>) -> (res: Vec<Location>)
    ensures
        locations_view(res@) == grouped(locations_view(ls@), order@),
{
    let ghost lv = locations_view(ls@);
    let mut out: Vec<Location> = Vec::new();
    let mut c: usize = 0;
    proof {
        assert(order@.take(0) =~= Seq::<Referrer>::empty());
        assert(locations_view(out@) =~= grouped(lv, order@.take(0)));
    }
    while c < order.len()
        invariant
            c <= order@.len(),
            lv == locations_view(ls@),
            locations_view(out@) == grouped(lv, order@.take(c as int)),
        decreases order@.len() - c,
    {
        let cat = order[c];
        let ghost base = locations_view(out@);
        proof {
            assert(order@.take(c + 1).drop_last() =~= order@.take(c as int));
            assert(order@.take(c + 1).last() == cat);
            assert(lv.take(0).filter(referrer_pred(cat)) =~= Seq::<LocationView>::empty()) by {
                reveal(Seq::filter);
            }
            assert(locations_view(out@) =~= base + lv.take(0).filter(referrer_pred(cat)));
        }
        let mut m: usize = 0;
        while m < ls.len()
            invariant
                m <= ls@.len(),
                lv == locations_view(ls@),
                locations_view(out@) == base + lv.take(m as int).filter(referrer_pred(cat)),
            decreases ls@.len() - m,
        {
            let is_cat = is_referrer_exec(&ls[m], cat);
            proof {
                assert(lv[m as int] == ls@[m as int]@);
                lemma_filter_step(lv, cat, m as int);
            }
            if is_cat {
                let ghost before = locations_view(out@);
                out.push(ls[m].copy());
                proof {
                    assert(locations_view(out@) =~= before.push(lv[m as int]));
                }
            }
            m = m + 1;
        }
        proof {
            assert(lv.take(lv.len() as int) =~= lv);
        }
        c = c + 1;
    }
    proof {
        assert(order@.take(order@.len() as int) =~= order@);
    }
    out
}
} // verus!
