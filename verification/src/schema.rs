//! Plain-value model of a GraphQL schema, and positions within it.
use crate::ast::{directives_view, str_eq, Directive, DirectiveView, Value, ValueView};
use vstd::prelude::*;

verus! {

/// A reference to a type, as written in a field or argument definition.
#[derive(Debug, PartialEq, Eq)]
pub enum Type {
    Named(String),
    NonNullNamed(String),
    List(Box<Type>),
    NonNullList(Box<Type>),
}

/// The mathematical form of a [`Type`].
pub enum TypeView {
    Named(Seq<char>),
    NonNullNamed(Seq<char>),
    List(Box<TypeView>),
    NonNullList(Box<TypeView>),
}

pub open spec fn type_view(t: &Type) -> TypeView
    decreases t,
{
    match t {
        Type::Named(n) => TypeView::Named(n@),
        Type::NonNullNamed(n) => TypeView::NonNullNamed(n@),
        Type::List(b) => TypeView::List(Box::new(type_view(b))),
        Type::NonNullList(b) => TypeView::NonNullList(Box::new(type_view(b))),
    }
}

impl View for Type {
    type V = TypeView;

    open spec fn view(&self) -> TypeView {
        type_view(self)
    }
}

/// A copy of a type reference.
pub fn clone_type(t: &Type) -> (res: Type)
    ensures
        res@ == t@,
    decreases t,
{
    match t {
        Type::Named(n) => Type::Named(n.clone()),
        Type::NonNullNamed(n) => Type::NonNullNamed(n.clone()),
        Type::List(b) => Type::List(Box::new(clone_type(b))),
        Type::NonNullList(b) => Type::NonNullList(Box::new(clone_type(b))),
    }
}

/// The named type at the core of a type reference.
pub open spec fn inner_named_type(t: TypeView) -> Seq<char>
    decreases t,
{
    match t {
        TypeView::Named(n) => n,
        TypeView::NonNullNamed(n) => n,
        TypeView::List(b) => inner_named_type(*b),
        TypeView::NonNullList(b) => inner_named_type(*b),
    }
}

impl Type {
    /// The named type at the core of the type reference.
    pub fn inner_named_type(&self) -> (res: &String)
        ensures
            res@ == inner_named_type(self@),
        decreases self,
    {
        match self {
            Type::Named(n) => n,
            Type::NonNullNamed(n) => n,
            Type::List(b) => b.inner_named_type(),
            Type::NonNullList(b) => b.inner_named_type(),
        }
    }
}

/// The definition of an argument or of an input field.
#[derive(Debug, PartialEq, Eq)]
pub struct InputValueDefinition {
    pub name: String,
    pub ty: Type,
    pub default_value: Option<Value>,
    pub directives: Vec<Directive>,
}

/// The definition of a field of an object or interface type.
#[derive(Debug, PartialEq, Eq)]
pub struct FieldDefinition {
    pub name: String,
    pub arguments: Vec<InputValueDefinition>,
    pub ty: Type,
    pub directives: Vec<Directive>,
}

/// The definition of an enum value.
#[derive(Debug, PartialEq, Eq)]
pub struct EnumValueDefinition {
    pub value: String,
    pub directives: Vec<Directive>,
}

/// A type definition of a schema.
#[derive(Debug, PartialEq, Eq)]
pub enum ExtendedType {
    Scalar { name: String, directives: Vec<Directive> },
    Object {
        name: String,
        implements_interfaces: Vec<String>,
        directives: Vec<Directive>,
        fields: Vec<FieldDefinition>,
    },
    Interface {
        name: String,
        implements_interfaces: Vec<String>,
        directives: Vec<Directive>,
        fields: Vec<FieldDefinition>,
    },
    Union { name: String, directives: Vec<Directive>, members: Vec<String> },
    Enum { name: String, directives: Vec<Directive>, values: Vec<EnumValueDefinition> },
    InputObject { name: String, directives: Vec<Directive>, input_fields: Vec<InputValueDefinition> },
}

/// The definition of a directive.
#[derive(Debug, PartialEq, Eq)]
pub struct DirectiveDefinition {
    pub name: String,
    pub arguments: Vec<InputValueDefinition>,
    pub repeatable: bool,
    pub locations: Vec<String>,
}

/// The `schema { ... }` definition: its directive applications and root operation types.
#[derive(Debug, PartialEq, Eq)]
pub struct SchemaDefinition {
    pub directives: Vec<Directive>,
    pub query: Option<String>,
    pub mutation: Option<String>,
    pub subscription: Option<String>,
}

/// A GraphQL schema: its schema definition, its types and its directive definitions, each in
/// definition order.
#[derive(Debug, PartialEq, Eq)]
pub struct Schema {
    pub schema_definition: SchemaDefinition,
    pub types: Vec<ExtendedType>,
    pub directive_definitions: Vec<DirectiveDefinition>,
}

/// The kind of a type definition.
#[derive(Debug, Clone, Copy, PartialEq, Eq, Structural)]
pub enum TypeKind {
    Scalar,
    Object,
    Interface,
    Union,
    Enum,
    InputObject,
}

impl ExtendedType {
    pub open spec fn spec_name(&self) -> Seq<char> {
        match self {
            ExtendedType::Scalar { name, .. } => name@,
            ExtendedType::Object { name, .. } => name@,
            ExtendedType::Interface { name, .. } => name@,
            ExtendedType::Union { name, .. } => name@,
            ExtendedType::Enum { name, .. } => name@,
            ExtendedType::InputObject { name, .. } => name@,
        }
    }

    pub open spec fn spec_kind(&self) -> TypeKind {
        match self {
            ExtendedType::Scalar { .. } => TypeKind::Scalar,
            ExtendedType::Object { .. } => TypeKind::Object,
            ExtendedType::Interface { .. } => TypeKind::Interface,
            ExtendedType::Union { .. } => TypeKind::Union,
            ExtendedType::Enum { .. } => TypeKind::Enum,
            ExtendedType::InputObject { .. } => TypeKind::InputObject,
        }
    }

    /// The type's name.
    pub fn name(&self) -> (res: &String)
        ensures
            res@ == self.spec_name(),
    {
        match self {
            ExtendedType::Scalar { name, .. } => name,
            ExtendedType::Object { name, .. } => name,
            ExtendedType::Interface { name, .. } => name,
            ExtendedType::Union { name, .. } => name,
            ExtendedType::Enum { name, .. } => name,
            ExtendedType::InputObject { name, .. } => name,
        }
    }

    /// The type's kind.
    pub fn kind(&self) -> (res: TypeKind)
        ensures
            res == self.spec_kind(),
    {
        match self {
            ExtendedType::Scalar { .. } => TypeKind::Scalar,
            ExtendedType::Object { .. } => TypeKind::Object,
            ExtendedType::Interface { .. } => TypeKind::Interface,
            ExtendedType::Union { .. } => TypeKind::Union,
            ExtendedType::Enum { .. } => TypeKind::Enum,
            ExtendedType::InputObject { .. } => TypeKind::InputObject,
        }
    }

    /// The type's directive applications.
    pub fn directives(&self) -> (res: &Vec<Directive>)
        ensures
            res@ == self.spec_directives(),
    {
        match self {
            ExtendedType::Scalar { directives, .. } => directives,
            ExtendedType::Object { directives, .. } => directives,
            ExtendedType::Interface { directives, .. } => directives,
            ExtendedType::Union { directives, .. } => directives,
            ExtendedType::Enum { directives, .. } => directives,
            ExtendedType::InputObject { directives, .. } => directives,
        }
    }

    pub open spec fn spec_directives(&self) -> Seq<Directive> {
        match self {
            ExtendedType::Scalar { directives, .. } => directives@,
            ExtendedType::Object { directives, .. } => directives@,
            ExtendedType::Interface { directives, .. } => directives@,
            ExtendedType::Union { directives, .. } => directives@,
            ExtendedType::Enum { directives, .. } => directives@,
            ExtendedType::InputObject { directives, .. } => directives@,
        }
    }
}

/// Whether a kind is composite (object, interface or union).
pub open spec fn is_composite(kind: TypeKind) -> bool {
    kind == TypeKind::Object || kind == TypeKind::Interface || kind == TypeKind::Union
}

/// The index of the first type definition named `name`.
pub open spec fn type_index(types: Seq<ExtendedType>, name: Seq<char>) -> Option<int>
    decreases types.len(),
{
    if types.len() == 0 {
        None
    } else if types[0].spec_name() == name {
        Some(0)
    } else {
        match type_index(types.drop_first(), name) {
            Some(i) => Some(i + 1),
            None => None,
        }
    }
}

pub proof fn lemma_type_index(types: Seq<ExtendedType>, name: Seq<char>)
    ensures
        match type_index(types, name) {
            Some(i) => 0 <= i < types.len() && types[i].spec_name() == name && forall|j: int|
                0 <= j < i ==> types[j].spec_name() != name,
            None => forall|j: int| 0 <= j < types.len() ==> types[j].spec_name() != name,
        },
    decreases types.len(),
{
    if types.len() > 0 {
        lemma_type_index(types.drop_first(), name);
        assert forall|j: int| 1 <= j < types.len() implies types[j] == types.drop_first()[j - 1] by {}
    }
}

/// The kind of the type named `name` in `schema`, if it defines one.
pub open spec fn type_kind_of(schema: Schema, name: Seq<char>) -> Option<TypeKind> {
    match type_index(schema.types@, name) {
        Some(i) => Some(schema.types@[i].spec_kind()),
        None => None,
    }
}

/// The field names declared by a type definition (none for types without fields).
pub open spec fn declared_field_names(t: ExtendedType) -> Seq<Seq<char>> {
    match t {
        ExtendedType::Object { fields, .. } => fields@.map_values(|f: FieldDefinition| f.name@),
        ExtendedType::Interface { fields, .. } => fields@.map_values(|f: FieldDefinition| f.name@),
        _ => Seq::empty(),
    }
}

/// Whether the type named `tname` has a field named `field_name`: `__typename` on any
/// composite type, a declared field on an object or interface type.
pub open spec fn has_field(schema: Schema, tname: Seq<char>, field_name: Seq<char>) -> bool {
    match type_index(schema.types@, tname) {
        Some(i) => is_composite(schema.types@[i].spec_kind()) && (field_name == "__typename"@
            || declared_field_names(schema.types@[i]).contains(field_name)),
        None => false,
    }
}

/// The fields declared by a type definition (none for types without fields).
pub open spec fn declared_fields(t: ExtendedType) -> Seq<FieldDefinition> {
    match t {
        ExtendedType::Object { fields, .. } => fields@,
        ExtendedType::Interface { fields, .. } => fields@,
        _ => Seq::empty(),
    }
}

/// The index of the first field named `name`.
pub open spec fn field_index(fields: Seq<FieldDefinition>, name: Seq<char>) -> Option<int>
    decreases fields.len(),
{
    if fields.len() == 0 {
        None
    } else if fields[0].name@ == name {
        Some(0)
    } else {
        match field_index(fields.drop_first(), name) {
            Some(i) => Some(i + 1),
            None => None,
        }
    }
}

pub proof fn lemma_field_index(fields: Seq<FieldDefinition>, name: Seq<char>)
    ensures
        match field_index(fields, name) {
            Some(i) => 0 <= i < fields.len() && fields[i].name@ == name && forall|j: int|
                0 <= j < i ==> fields[j].name@ != name,
            None => forall|j: int| 0 <= j < fields.len() ==> fields[j].name@ != name,
        },
    decreases fields.len(),
{
    if fields.len() > 0 {
        lemma_field_index(fields.drop_first(), name);
        assert forall|j: int| 1 <= j < fields.len() implies fields[j] == fields.drop_first()[j - 1] by {}
    }
}

/// The name of the (innermost) type of the field `fname` of the composite type `tname`:
/// `String` for `__typename`, else that of the first declared field of that name.
pub open spec fn field_type_name(schema: Schema, tname: Seq<char>, fname: Seq<char>) -> Option<
    Seq<char>,
> {
    match type_index(schema.types@, tname) {
        Some(i) => if !is_composite(schema.types@[i].spec_kind()) {
            None
        } else if fname == "__typename"@ {
            Some("String"@)
        } else {
            match field_index(declared_fields(schema.types@[i]), fname) {
                Some(j) => Some(inner_named_type(declared_fields(schema.types@[i])[j].ty@)),
                None => None,
            }
        },
        None => None,
    }
}

impl Schema {
    /// The first type definition named `name`, if any.
    pub fn get_type(&self, name: &str) -> (res: Option<&ExtendedType>)
        ensures
            match type_index(self.types@, name@) {
                Some(i) => res == Some(&self.types@[i]),
                None => res is None,
            },
    {
        proof {
            lemma_type_index(self.types@, name@);
        }
        let mut i: usize = 0;
        while i < self.types.len()
            invariant
                i <= self.types@.len(),
                forall|j: int| 0 <= j < i ==> self.types@[j].spec_name() != name@,
            decreases self.types@.len() - i,
        {
            if str_eq(self.types[i].name(), name) {
                proof {
                    lemma_type_index(self.types@, name@);
                }
                return Some(&self.types[i]);
            }
            i = i + 1;
        }
        None
    }

    /// The kind of the type named `name`, if the schema defines one.
    pub fn type_kind(&self, name: &str) -> (res: Option<TypeKind>)
        ensures
            res == type_kind_of(*self, name@),
    {
        match self.get_type(name) {
            Some(t) => Some(t.kind()),
            None => None,
        }
    }

    /// The name of the innermost type of the field `fname` of the composite type `tname`.
    #[verifier::loop_isolation(false)]
    pub fn field_type_name(&self, tname: &str, fname: &str) -> (res: Option<String>)
        ensures
            match field_type_name(*self, tname@, fname@) {
                Some(n) => res matches Some(r) && r@ == n,
                None => res is None,
            },
    {
        proof {
            reveal_strlit("__typename");
            reveal_strlit("String");
        }
        match self.get_type(tname) {
            Some(t) => {
                let kind = t.kind();
                if !(kind == TypeKind::Object || kind == TypeKind::Interface || kind
                    == TypeKind::Union) {
                    return None;
                }
                if str_eq(&String::from_str(fname), "__typename") {
                    return Some(String::from_str("String"));
                }
                match t {
                    ExtendedType::Object { fields, .. } | ExtendedType::Interface {
                        fields,
                        ..
                    } => {
                        proof {
                            lemma_field_index(fields@, fname@);
                        }
                        let mut i: usize = 0;
                        while i < fields.len()
                            invariant
                                i <= fields@.len(),
                                forall|j: int| 0 <= j < i ==> fields@[j].name@ != fname@,
                                match field_index(fields@, fname@) {
                                    Some(k) => 0 <= k < fields@.len() && fields@[k].name@ == fname@
                                        && forall|j: int| 0 <= j < k ==> fields@[j].name@ != fname@,
                                    None => forall|j: int|
                                        0 <= j < fields@.len() ==> fields@[j].name@ != fname@,
                                },
                            decreases fields@.len() - i,
                        {
                            if str_eq(&fields[i].name, fname) {
                                let r = fields[i].ty.inner_named_type().clone();
                                proof {
                                    lemma_type_index(self.types@, tname@);
                                    let k = type_index(self.types@, tname@)->0;
                                    assert(self.types@[k] == *t);
                                    assert(declared_fields(self.types@[k]) == fields@);
                                    assert(field_index(fields@, fname@) == Some(i as int));
                                }
                                return Some(r);
                            }
                            i = i + 1;
                        }
                        None
                    },
                    _ => None,
                }
            },
            None => None,
        }
    }

    /// Whether the type named `tname` has a field named `field_name`.
    #[verifier::loop_isolation(false)]
    pub fn has_field(&self, tname: &str, field_name: &str) -> (res: bool)
        ensures
            res == has_field(*self, tname@, field_name@),
    {
        proof {
            reveal_strlit("__typename");
        }
        match self.get_type(tname) {
            Some(t) => {
                let kind = t.kind();
                if !(kind == TypeKind::Object || kind == TypeKind::Interface || kind
                    == TypeKind::Union) {
                    return false;
                }
                if str_eq(&String::from_str(field_name), "__typename") {
                    return true;
                }
                match t {
                    ExtendedType::Object { fields, .. } | ExtendedType::Interface {
                        fields,
                        ..
                    } => {
                        let mut i: usize = 0;
                        while i < fields.len()
                            invariant
                                i <= fields@.len(),
                                forall|j: int| 0 <= j < i ==> fields@[j].name@ != field_name@,
                            decreases fields@.len() - i,
                        {
                            if str_eq(&fields[i].name, field_name) {
                                assert(fields@.map_values(|f: FieldDefinition| f.name@)[i as int]
                                    == field_name@);
                                return true;
                            }
                            i = i + 1;
                        }
                        assert(!fields@.map_values(|f: FieldDefinition| f.name@).contains(
                            field_name@,
                        ));
                        false
                    },
                    _ => false,
                }
            },
            None => false,
        }
    }
}

/// The kind of a root operation type.
#[derive(Debug, Clone, Copy, PartialEq, Eq, Structural)]
pub enum SchemaRootDefinitionKind {
    Query,
    Mutation,
    Subscription,
}

/// The position of the schema definition in a schema.
#[derive(Debug, Clone, Copy, PartialEq, Eq)]
pub struct SchemaDefinitionPosition;

/// The position of a root operation type in the schema definition.
#[derive(Debug, Clone, Copy, PartialEq, Eq)]
pub struct SchemaRootDefinitionPosition {
    pub root_kind: SchemaRootDefinitionKind,
}

impl SchemaRootDefinitionPosition {
    /// The schema definition that holds the root.
    pub fn parent(&self) -> (res: SchemaDefinitionPosition)
        ensures
            res == SchemaDefinitionPosition,
    {
        SchemaDefinitionPosition
    }
}

/// Whether a name is reserved by GraphQL for introspection (it starts with two underscores).
pub fn is_graphql_reserved_name(name: &str) -> (res: bool)
    ensures
        res == (name@.len() >= 2 && name@[0] == '_' && name@[1] == '_'),
{
    let n = name.unicode_len();
    if n < 2 {
        return false;
    }
    name.get_char(0) == '_' && name.get_char(1) == '_'
}

/// The position of a composite type in a schema.
#[derive(Debug, PartialEq, Eq)]
pub enum CompositeTypeDefinitionPosition {
    Object(String),
    Interface(String),
    Union(String),
}

impl CompositeTypeDefinitionPosition {
    pub open spec fn spec_name_of_type(&self) -> Seq<char> {
        match self {
            CompositeTypeDefinitionPosition::Object(n) => n@,
            CompositeTypeDefinitionPosition::Interface(n) => n@,
            CompositeTypeDefinitionPosition::Union(n) => n@,
        }
    }

    /// The name of the type.
    pub fn name_of_type(&self) -> (res: &String)
        ensures
            res@ == self.spec_name_of_type(),
    {
        match self {
            CompositeTypeDefinitionPosition::Object(n) => n,
            CompositeTypeDefinitionPosition::Interface(n) => n,
            CompositeTypeDefinitionPosition::Union(n) => n,
        }
    }
}

/// The mathematical form of an argument or input field definition.
pub struct InputValueView {
    pub name: Seq<char>,
    pub ty: TypeView,
    pub default_value: Option<ValueView>,
    pub directives: Seq<DirectiveView>,
}

pub open spec fn input_value_view(v: InputValueDefinition) -> InputValueView {
    InputValueView {
        name: v.name@,
        ty: v.ty@,
        default_value: match v.default_value {
            Some(d) => Some(d@),
            None => None,
        },
        directives: directives_view(v.directives@),
    }
}

pub open spec fn input_values_view(s: Seq<InputValueDefinition>) -> Seq<InputValueView> {
    s.map_values(|v: InputValueDefinition| input_value_view(v))
}

/// The mathematical form of a directive definition.
pub struct DirectiveDefinitionView {
    pub name: Seq<char>,
    pub arguments: Seq<InputValueView>,
    pub repeatable: bool,
    pub locations: Seq<Seq<char>>,
}

pub open spec fn strings_view(s: Seq<String>) -> Seq<Seq<char>> {
    s.map_values(|x: String| x@)
}

pub open spec fn directive_definition_view(d: DirectiveDefinition) -> DirectiveDefinitionView {
    DirectiveDefinitionView {
        name: d.name@,
        arguments: input_values_view(d.arguments@),
        repeatable: d.repeatable,
        locations: strings_view(d.locations@),
    }
}

/// Whether some directive definition is named `name`.
pub open spec fn defines_directive(defs: Seq<DirectiveDefinition>, name: Seq<char>) -> bool {
    exists|i: int| 0 <= i < defs.len() && #[trigger] defs[i].name@ == name
}

/// Whether some type definition is named `name`.
pub open spec fn defines_type(types: Seq<ExtendedType>, name: Seq<char>) -> bool {
    type_index(types, name) is Some
}

impl Schema {
    /// Whether the schema defines a type named `name`.
    pub fn has_type(&self, name: &str) -> (res: bool)
        ensures
            res == defines_type(self.types@, name@),
    {
        self.get_type(name).is_some()
    }

    /// Whether the schema defines a directive named `name`.
    pub fn has_directive_definition(&self, name: &str) -> (res: bool)
        ensures
            res == defines_directive(self.directive_definitions@, name@),
    {
        let mut i: usize = 0;
        while i < self.directive_definitions.len()
            invariant
                i <= self.directive_definitions@.len(),
                forall|j: int| 0 <= j < i ==> self.directive_definitions@[j].name@ != name@,
            decreases self.directive_definitions@.len() - i,
        {
            if str_eq(&self.directive_definitions[i].name, name) {
                return true;
            }
            i = i + 1;
        }
        false
    }
}

/// The mathematical form of a field definition.
pub struct FieldView {
    pub name: Seq<char>,
    pub arguments: Seq<InputValueView>,
    pub ty: TypeView,
    pub directives: Seq<DirectiveView>,
}

pub open spec fn field_view(f: FieldDefinition) -> FieldView {
    FieldView {
        name: f.name@,
        arguments: input_values_view(f.arguments@),
        ty: f.ty@,
        directives: directives_view(f.directives@),
    }
}

pub open spec fn fields_view(s: Seq<FieldDefinition>) -> Seq<FieldView> {
    s.map_values(|f: FieldDefinition| field_view(f))
}

/// The mathematical form of an enum value definition.
pub struct EnumValueView {
    pub value: Seq<char>,
    pub directives: Seq<DirectiveView>,
}

pub open spec fn enum_values_view(s: Seq<EnumValueDefinition>) -> Seq<EnumValueView> {
    s.map_values(|v: EnumValueDefinition| EnumValueView { value: v.value@, directives: directives_view(v.directives@) })
}

/// The mathematical form of a type definition.
pub enum ExtendedTypeView {
    Scalar { name: Seq<char>, directives: Seq<DirectiveView> },
    Object {
        name: Seq<char>,
        implements_interfaces: Seq<Seq<char>>,
        directives: Seq<DirectiveView>,
        fields: Seq<FieldView>,
    },
    Interface {
        name: Seq<char>,
        implements_interfaces: Seq<Seq<char>>,
        directives: Seq<DirectiveView>,
        fields: Seq<FieldView>,
    },
    Union { name: Seq<char>, directives: Seq<DirectiveView>, members: Seq<Seq<char>> },
    Enum { name: Seq<char>, directives: Seq<DirectiveView>, values: Seq<EnumValueView> },
    InputObject { name: Seq<char>, directives: Seq<DirectiveView>, input_fields: Seq<InputValueView> },
}

pub open spec fn extended_type_view(t: ExtendedType) -> ExtendedTypeView {
    match t {
        ExtendedType::Scalar { name, directives } => ExtendedTypeView::Scalar {
            name: name@,
            directives: directives_view(directives@),
        },
        ExtendedType::Object { name, implements_interfaces, directives, fields } => ExtendedTypeView::Object {
            name: name@,
            implements_interfaces: strings_view(implements_interfaces@),
            directives: directives_view(directives@),
            fields: fields_view(fields@),
        },
        ExtendedType::Interface { name, implements_interfaces, directives, fields } => ExtendedTypeView::Interface {
            name: name@,
            implements_interfaces: strings_view(implements_interfaces@),
            directives: directives_view(directives@),
            fields: fields_view(fields@),
        },
        ExtendedType::Union { name, directives, members } => ExtendedTypeView::Union {
            name: name@,
            directives: directives_view(directives@),
            members: strings_view(members@),
        },
        ExtendedType::Enum { name, directives, values } => ExtendedTypeView::Enum {
            name: name@,
            directives: directives_view(directives@),
            values: enum_values_view(values@),
        },
        ExtendedType::InputObject { name, directives, input_fields } => ExtendedTypeView::InputObject {
            name: name@,
            directives: directives_view(directives@),
            input_fields: input_values_view(input_fields@),
        },
    }
}

pub open spec fn types_view(s: Seq<ExtendedType>) -> Seq<ExtendedTypeView> {
    s.map_values(|t: ExtendedType| extended_type_view(t))
}

/// A copy of a list of strings.
pub fn clone_strings(v: &Vec<String>) -> (res: Vec<String>)
    ensures
        strings_view(res@) == strings_view(v@),
{
    let mut out: Vec<String> = Vec::new();
    let mut i: usize = 0;
    while i < v.len()
        invariant
            i <= v@.len(),
            out@.len() == i,
            forall|j: int| 0 <= j < i ==> #[trigger] out@[j]@ == v@[j]@,
        decreases v@.len() - i,
    {
        out.push(v[i].clone());
        i = i + 1;
    }
    assert(strings_view(out@) =~= strings_view(v@));
    out
}

} // verus!
