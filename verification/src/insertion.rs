//! Putting elements into a federation schema: types and directive definitions (first their
//! records, then the definitions), fields, arguments, enum values, input fields and roots,
//! with the record of what they reference.
use crate::ast::{concat_strs, concat_views, str_eq};
use crate::error::{is_internal_error, FederationError};
use crate::federation_schema::{
    checks_view, directive_entry, field_argument_pushed, field_checks, field_pushed, input_field_pushed,
    input_value_checks, location_label, location_text, push_directive_checks, push_field_checks,
    push_input_value_checks, record, root_type_of, type_entry, value_pushed, Check, CheckView,
    FederationSchema, Location, LocationView,
};
use crate::federation_schema::directive_checks;
use crate::position::{
    directive_argument, directive_definition, enum_value, field_argument, input_object_field, locate_type,
    root_of, type_field, type_of_kind, EnumValueDefinitionPosition, InputObjectFieldDefinitionPosition,
    InterfaceFieldArgumentDefinitionPosition, InterfaceFieldDefinitionPosition,
    ObjectFieldArgumentDefinitionPosition, ObjectFieldDefinitionPosition, DirectiveArgumentDefinitionPosition,
    ScalarTypeDefinitionPosition, ObjectTypeDefinitionPosition, InterfaceTypeDefinitionPosition,
    UnionTypeDefinitionPosition, EnumTypeDefinitionPosition, InputObjectTypeDefinitionPosition,
};
use crate::schema::{
    declared_fields, EnumValueDefinition, FieldDefinition, InputValueDefinition, Schema, SchemaRootDefinitionKind,
    SchemaRootDefinitionPosition, TypeKind,
};
use vstd::prelude::*;

verus! {

/// Whether `ns` is `os` but for its type `i`.
pub open spec fn other_types_kept(os: Schema, ns: Schema, i: int) -> bool {
    &&& ns.schema_definition == os.schema_definition
    &&& ns.directive_definitions == os.directive_definitions
    &&& ns.types@.len() == os.types@.len()
    &&& forall|m: int| 0 <= m < os.types@.len() && m != i ==> ns.types@[m] == os.types@[m]
}

/// The message for an element given under another name than its position's.
pub open spec fn misnamed_message(l: LocationView, noun: Seq<char>, given: Seq<char>) -> Seq<char> {
    location_label(l) + " \""@ + location_text(l) + "\" given "@ + noun + " named \""@ + given + "\""@
}

/// The message for an element that is already in the schema.
pub open spec fn already_there_message(l: LocationView) -> Seq<char> {
    location_label(l) + " \""@ + location_text(l) + "\" already exists in schema"@
}

fn misnamed_error(l: &Location, noun: &str, given: &String) -> (res: FederationError)
    ensures
        is_internal_error(res, misnamed_message(l@, noun@, given@)),
{
    proof {
        reveal_with_fuel(concat_views, 9);
    }
    let text = l.to_text();
    let m = concat_strs(&[l.label(), " \"", text.as_str(), "\" given ", noun, " named \"", given.as_str(), "\""]);
    assert(m@ =~= misnamed_message(l@, noun@, given@));
    FederationError::internal(m)
}

fn already_there_error(l: &Location) -> (res: FederationError)
    ensures
        is_internal_error(res, already_there_message(l@)),
{
    proof {
        reveal_with_fuel(concat_views, 5);
    }
    let text = l.to_text();
    let m = concat_strs(&[l.label(), " \"", text.as_str(), "\" already exists in schema"]);
    assert(m@ =~= already_there_message(l@));
    FederationError::internal(m)
}

/// Whether `new` is `old` after inserting at the position of the field `name` of the type
/// `t` (an object type where `object`, else an interface type) the field `f`, `res` the
/// outcome: an error where `f` is named otherwise or the type already has such a field (the
/// schema unchanged); else the references of `f` recorded (see [`record`]), and the field
/// added last to its type. Where recording fails, or there is no such type, the error comes
/// back with the schema as it was and the references recorded so far.
pub open spec fn field_insertion(
    old: FederationSchema,
    new: FederationSchema,
    t: Seq<char>,
    name: Seq<char>,
    object: bool,
    f: FieldDefinition,
    res: Result<(), FederationError>,
) -> bool {
    let os = old.spec_schema();
    let ns = new.spec_schema();
    let l = if object { LocationView::ObjectField(t, name) } else { LocationView::InterfaceField(t, name) };
    if f.name@ != name {
        res matches Err(e) && is_internal_error(e, misnamed_message(l, "field"@, f.name@)) && new == old
    } else if type_field(os, t, name, object) is Ok {
        res matches Err(e) && is_internal_error(e, already_there_message(l)) && new == old
    } else {
        let rec = record(os, old.spec_referencers(), field_checks(object, t, f));
        &&& new.spec_referencers() == rec.0
        &&& new.spec_metadata() == old.spec_metadata()
        &&& match rec.1 {
            Some(m) => res matches Err(e) && is_internal_error(e, m) && ns == os,
            None => match type_of_kind(os, t, if object { TypeKind::Object } else { TypeKind::Interface }) {
                Err(m) => res matches Err(e) && is_internal_error(e, m) && ns == os,
                Ok(i) => res is Ok && other_types_kept(os, ns, i) && field_pushed(os.types@[i], ns.types@[i], f),
            },
        }
    }
}

fn insert_field(schema: &mut FederationSchema, t: &String, name: &String, object: bool, f: FieldDefinition) -> (res: Result<(), FederationError>)
    ensures
        field_insertion(*old(schema), *final(schema), t@, name@, object, f, res),
{
    let loc = if object {
        Location::ObjectField(t.clone(), name.clone())
    } else {
        Location::InterfaceField(t.clone(), name.clone())
    };
    proof {
        reveal_strlit("field");
    }
    if f.name != *name {
        return Err(misnamed_error(&loc, "field", &f.name));
    }
    let found = if object {
        ObjectFieldDefinitionPosition { name_of_type: t.clone(), field_name: name.clone() }.try_get(schema.schema()).is_some()
    } else {
        InterfaceFieldDefinitionPosition { name_of_type: t.clone(), field_name: name.clone() }.try_get(schema.schema()).is_some()
    };
    if found {
        return Err(already_there_error(&loc));
    }
    let mut checks: Vec<Check> = Vec::new();
    proof {
        assert(checks_view(checks@) =~= Seq::<CheckView>::empty());
    }
    push_field_checks(&mut checks, object, t, &f);
    proof {
        assert(checks_view(checks@) =~= field_checks(object, t@, f));
    }
    match schema.record_references(&checks) {
        Ok(()) => {},
        Err(e) => {
            return Err(e);
        },
    }
    let k = if object { TypeKind::Object } else { TypeKind::Interface };
    let i = match locate_type(schema.schema(), t, k) {
        Ok(i) => i,
        Err(e) => {
            return Err(e);
        },
    };
    schema.push_field(i, f);
    Ok(())
}

impl ObjectFieldDefinitionPosition {
    /// Adds the field `f` to the object type at this position (see [`field_insertion`]).
    pub fn insert(&self, schema: &mut FederationSchema, f: FieldDefinition) -> (res: Result<(), FederationError>)
        ensures
            field_insertion(*old(schema), *final(schema), self.name_of_type@, self.field_name@, true, f, res),
    {
        insert_field(schema, &self.name_of_type, &self.field_name, true, f)
    }
}

impl InterfaceFieldDefinitionPosition {
    /// Adds the field `f` to the interface type at this position (see [`field_insertion`]).
    pub fn insert(&self, schema: &mut FederationSchema, f: FieldDefinition) -> (res: Result<(), FederationError>)
        ensures
            field_insertion(*old(schema), *final(schema), self.name_of_type@, self.field_name@, false, f, res),
    {
        insert_field(schema, &self.name_of_type, &self.field_name, false, f)
    }
}


/// Whether `new` is `old` after inserting at the position of the argument `name` of the
/// field `f` of the type `t` (an object type where `object`, else an interface type) the
/// argument `x`, `res` the outcome: an error where `x` is named otherwise or the field already
/// has such an argument (the schema unchanged); else the references of `x` recorded, and the
/// argument added last to the field. Where recording fails, or there is no such field, the
/// error comes back with the schema as it was and the references recorded so far.
pub open spec fn field_argument_insertion(
    old: FederationSchema,
    new: FederationSchema,
    t: Seq<char>,
    f: Seq<char>,
    name: Seq<char>,
    object: bool,
    x: InputValueDefinition,
    res: Result<(), FederationError>,
) -> bool {
    let os = old.spec_schema();
    let ns = new.spec_schema();
    let l = if object {
        LocationView::ObjectFieldArgument(t, f, name)
    } else {
        LocationView::InterfaceFieldArgument(t, f, name)
    };
    if x.name@ != name {
        res matches Err(e) && is_internal_error(e, misnamed_message(l, "argument"@, x.name@)) && new == old
    } else if field_argument(os, t, f, name, object) is Ok {
        res matches Err(e) && is_internal_error(e, already_there_message(l)) && new == old
    } else {
        let rec = record(os, old.spec_referencers(), input_value_checks(l, x));
        &&& new.spec_referencers() == rec.0
        &&& new.spec_metadata() == old.spec_metadata()
        &&& match rec.1 {
            Some(m) => res matches Err(e) && is_internal_error(e, m) && ns == os,
            None => match type_field(os, t, f, object) {
                Err(m) => res matches Err(e) && is_internal_error(e, m) && ns == os,
                Ok((i, j)) => res is Ok && other_types_kept(os, ns, i) && field_argument_pushed(
                    os.types@[i],
                    ns.types@[i],
                    j,
                    x,
                ),
            },
        }
    }
}

fn insert_field_argument(
    schema: &mut FederationSchema,
    t: &String,
    f: &String,
    name: &String,
    object: bool,
    x: InputValueDefinition,
) -> (res: Result<(), FederationError>)
    ensures
        field_argument_insertion(*old(schema), *final(schema), t@, f@, name@, object, x, res),
{
    let loc = if object {
        Location::ObjectFieldArgument(t.clone(), f.clone(), name.clone())
    } else {
        Location::InterfaceFieldArgument(t.clone(), f.clone(), name.clone())
    };
    proof {
        reveal_strlit("argument");
    }
    if x.name != *name {
        return Err(misnamed_error(&loc, "argument", &x.name));
    }
    let found = if object {
        ObjectFieldArgumentDefinitionPosition {
            name_of_type: t.clone(),
            field_name: f.clone(),
            argument_name: name.clone(),
        }.try_get(schema.schema()).is_some()
    } else {
        InterfaceFieldArgumentDefinitionPosition {
            name_of_type: t.clone(),
            field_name: f.clone(),
            argument_name: name.clone(),
        }.try_get(schema.schema()).is_some()
    };
    if found {
        return Err(already_there_error(&loc));
    }
    let mut checks: Vec<Check> = Vec::new();
    proof {
        assert(checks_view(checks@) =~= Seq::<CheckView>::empty());
    }
    push_input_value_checks(&mut checks, &loc, &x);
    match schema.record_references(&checks) {
        Ok(()) => {},
        Err(e) => {
            return Err(e);
        },
    }
    let (i, j) = match crate::position::locate_type_field(schema.schema(), t, f, object) {
        Ok(p) => p,
        Err(e) => {
            return Err(e);
        },
    };
    proof {
        crate::schema::lemma_type_index(schema.spec_schema().types@, t@);
    }
    schema.push_field_argument(i, j, x);
    Ok(())
}

impl ObjectFieldArgumentDefinitionPosition {
    /// Adds the argument `x` to the field at this position (see [`field_argument_insertion`]).
    pub fn insert(&self, schema: &mut FederationSchema, x: InputValueDefinition) -> (res: Result<(), FederationError>)
        ensures
            field_argument_insertion(
                *old(schema),
                *final(schema),
                self.name_of_type@,
                self.field_name@,
                self.argument_name@,
                true,
                x,
                res,
            ),
    {
        insert_field_argument(schema, &self.name_of_type, &self.field_name, &self.argument_name, true, x)
    }
}

impl InterfaceFieldArgumentDefinitionPosition {
    /// Adds the argument `x` to the field at this position (see [`field_argument_insertion`]).
    pub fn insert(&self, schema: &mut FederationSchema, x: InputValueDefinition) -> (res: Result<(), FederationError>)
        ensures
            field_argument_insertion(
                *old(schema),
                *final(schema),
                self.name_of_type@,
                self.field_name@,
                self.argument_name@,
                false,
                x,
                res,
            ),
    {
        insert_field_argument(schema, &self.name_of_type, &self.field_name, &self.argument_name, false, x)
    }
}

/// Whether `new` is `old` after inserting at the position of the value `name` of the enum
/// type `t` the value `v`, `res` the outcome: an error where `v` is named otherwise or the
/// type already has such a value (the schema unchanged); else the directive applications of
/// `v` recorded, and the value added last to its type. Where recording fails, or there is no
/// such type, the error comes back with the schema as it was and the references recorded
/// so far.
pub open spec fn value_insertion(
    old: FederationSchema,
    new: FederationSchema,
    t: Seq<char>,
    name: Seq<char>,
    v: EnumValueDefinition,
    res: Result<(), FederationError>,
) -> bool {
    let os = old.spec_schema();
    let ns = new.spec_schema();
    let l = LocationView::EnumValue(t, name);
    if v.value@ != name {
        res matches Err(e) && is_internal_error(e, misnamed_message(l, "argument"@, v.value@)) && new == old
    } else if enum_value(os, t, name) is Ok {
        res matches Err(e) && is_internal_error(e, already_there_message(l)) && new == old
    } else {
        let rec = record(os, old.spec_referencers(), directive_checks(l, v.directives@));
        &&& new.spec_referencers() == rec.0
        &&& new.spec_metadata() == old.spec_metadata()
        &&& match rec.1 {
            Some(m) => res matches Err(e) && is_internal_error(e, m) && ns == os,
            None => match type_of_kind(os, t, TypeKind::Enum) {
                Err(m) => res matches Err(e) && is_internal_error(e, m) && ns == os,
                Ok(i) => res is Ok && other_types_kept(os, ns, i) && value_pushed(os.types@[i], ns.types@[i], v),
            },
        }
    }
}

impl EnumValueDefinitionPosition {
    /// Adds the value `v` to the enum type at this position (see [`value_insertion`]).
    pub fn insert(&self, schema: &mut FederationSchema, v: EnumValueDefinition) -> (res: Result<(), FederationError>)
        ensures
            value_insertion(*old(schema), *final(schema), self.name_of_type@, self.value_name@, v, res),
    {
        let loc = Location::EnumValue(self.name_of_type.clone(), self.value_name.clone());
        proof {
            reveal_strlit("argument");
        }
        if v.value != self.value_name {
            return Err(misnamed_error(&loc, "argument", &v.value));
        }
        if self.try_get(schema.schema()).is_some() {
            return Err(already_there_error(&loc));
        }
        let mut checks: Vec<Check> = Vec::new();
        proof {
            assert(checks_view(checks@) =~= Seq::<CheckView>::empty());
        }
        push_directive_checks(&mut checks, &loc, &v.directives);
        proof {
            assert(checks_view(checks@) =~= directive_checks(loc@, v.directives@));
        }
        match schema.record_references(&checks) {
            Ok(()) => {},
            Err(e) => {
                return Err(e);
            },
        }
        let i = match locate_type(schema.schema(), &self.name_of_type, TypeKind::Enum) {
            Ok(i) => i,
            Err(e) => {
                return Err(e);
            },
        };
        schema.push_value(i, v);
        Ok(())
    }
}

/// Whether `new` is `old` after inserting at the position of the input field `name` of the
/// input object type `t` the input field `x`, `res` the outcome: an error where `x` is named
/// otherwise or the type already has such a field (the schema unchanged); else the
/// references of `x` recorded, and the field added last to its type. Where recording fails,
/// or there is no such type, the error comes back with the schema as it was and the
/// references recorded so far.
pub open spec fn input_field_insertion(
    old: FederationSchema,
    new: FederationSchema,
    t: Seq<char>,
    name: Seq<char>,
    x: InputValueDefinition,
    res: Result<(), FederationError>,
) -> bool {
    let os = old.spec_schema();
    let ns = new.spec_schema();
    let l = LocationView::InputObjectField(t, name);
    if x.name@ != name {
        res matches Err(e) && is_internal_error(e, misnamed_message(l, "field"@, x.name@)) && new == old
    } else if input_object_field(os, t, name) is Ok {
        res matches Err(e) && is_internal_error(e, already_there_message(l)) && new == old
    } else {
        let rec = record(os, old.spec_referencers(), input_value_checks(l, x));
        &&& new.spec_referencers() == rec.0
        &&& new.spec_metadata() == old.spec_metadata()
        &&& match rec.1 {
            Some(m) => res matches Err(e) && is_internal_error(e, m) && ns == os,
            None => match type_of_kind(os, t, TypeKind::InputObject) {
                Err(m) => res matches Err(e) && is_internal_error(e, m) && ns == os,
                Ok(i) => res is Ok && other_types_kept(os, ns, i) && input_field_pushed(os.types@[i], ns.types@[i], x),
            },
        }
    }
}

impl InputObjectFieldDefinitionPosition {
    /// Adds the input field `x` to the input object type at this position (see
    /// [`input_field_insertion`]).
    pub fn insert(&self, schema: &mut FederationSchema, x: InputValueDefinition) -> (res: Result<(), FederationError>)
        ensures
            input_field_insertion(*old(schema), *final(schema), self.name_of_type@, self.field_name@, x, res),
    {
        let loc = Location::InputObjectField(self.name_of_type.clone(), self.field_name.clone());
        proof {
            reveal_strlit("field");
        }
        if x.name != self.field_name {
            return Err(misnamed_error(&loc, "field", &x.name));
        }
        if self.try_get(schema.schema()).is_some() {
            return Err(already_there_error(&loc));
        }
        let mut checks: Vec<Check> = Vec::new();
        proof {
            assert(checks_view(checks@) =~= Seq::<CheckView>::empty());
        }
        push_input_value_checks(&mut checks, &loc, &x);
        match schema.record_references(&checks) {
            Ok(()) => {},
            Err(e) => {
                return Err(e);
            },
        }
        let i = match locate_type(schema.schema(), &self.name_of_type, TypeKind::InputObject) {
            Ok(i) => i,
            Err(e) => {
                return Err(e);
            },
        };
        schema.push_input_field(i, x);
        Ok(())
    }
}

/// Whether `new` is `old` after inserting at the position of the argument `name` of the
/// directive definition `d` the argument `x`, `res` the outcome: an error where `x` is named
/// otherwise or the definition already has such an argument (the schema unchanged); else the
/// references of `x` recorded, and the argument added last to the definition. Where
/// recording fails, or there is no such definition, the error comes back with the schema as
/// it was and the references recorded so far.
pub open spec fn directive_argument_insertion(
    old: FederationSchema,
    new: FederationSchema,
    d: Seq<char>,
    name: Seq<char>,
    x: InputValueDefinition,
    res: Result<(), FederationError>,
) -> bool {
    let os = old.spec_schema();
    let ns = new.spec_schema();
    let l = LocationView::DirectiveArgument(d, name);
    if x.name@ != name {
        res matches Err(e) && is_internal_error(e, misnamed_message(l, "argument"@, x.name@)) && new == old
    } else if directive_argument(os, d, name) is Ok {
        res matches Err(e) && is_internal_error(e, already_there_message(l)) && new == old
    } else {
        let rec = record(os, old.spec_referencers(), input_value_checks(l, x));
        &&& new.spec_referencers() == rec.0
        &&& new.spec_metadata() == old.spec_metadata()
        &&& match rec.1 {
            Some(m) => res matches Err(e) && is_internal_error(e, m) && ns == os,
            None => match directive_definition(os, d) {
                Err(m) => res matches Err(e) && is_internal_error(e, m) && ns == os,
                Ok(i) => {
                    &&& res is Ok
                    &&& ns.schema_definition == os.schema_definition
                    &&& ns.types == os.types
                    &&& ns.directive_definitions@.len() == os.directive_definitions@.len()
                    &&& forall|m: int| 0 <= m < os.directive_definitions@.len() && m != i ==> ns.directive_definitions@[m]
                        == os.directive_definitions@[m]
                    &&& ns.directive_definitions@[i].name == os.directive_definitions@[i].name
                    &&& ns.directive_definitions@[i].repeatable == os.directive_definitions@[i].repeatable
                    &&& ns.directive_definitions@[i].locations == os.directive_definitions@[i].locations
                    &&& ns.directive_definitions@[i].arguments@ == os.directive_definitions@[i].arguments@.push(x)
                },
            },
        }
    }
}

impl DirectiveArgumentDefinitionPosition {
    /// Adds the argument `x` to the directive definition at this position (see
    /// [`directive_argument_insertion`]).
    pub fn insert(&self, schema: &mut FederationSchema, x: InputValueDefinition) -> (res: Result<(), FederationError>)
        ensures
            directive_argument_insertion(*old(schema), *final(schema), self.directive_name@, self.argument_name@, x, res),
    {
        let loc = Location::DirectiveArgument(self.directive_name.clone(), self.argument_name.clone());
        proof {
            reveal_strlit("argument");
        }
        if x.name != self.argument_name {
            return Err(misnamed_error(&loc, "argument", &x.name));
        }
        if self.try_get(schema.schema()).is_some() {
            return Err(already_there_error(&loc));
        }
        let mut checks: Vec<Check> = Vec::new();
        proof {
            assert(checks_view(checks@) =~= Seq::<CheckView>::empty());
        }
        push_input_value_checks(&mut checks, &loc, &x);
        match schema.record_references(&checks) {
            Ok(()) => {},
            Err(e) => {
                return Err(e);
            },
        }
        let i = match self.parent().get(schema.schema()) {
            Ok(_) => match crate::position::find_directive_definition(&schema.schema().directive_definitions, &self.directive_name) {
                Some(i) => i,
                None => {
                    assert(false);
                    return Ok(());
                },
            },
            Err(e) => {
                return Err(e);
            },
        };
        schema.push_directive_argument(i, x);
        Ok(())
    }
}

/// The message for a root that the schema definition already has.
pub open spec fn root_there_message(k: SchemaRootDefinitionKind) -> Seq<char> {
    "Root "@ + crate::federation_schema::root_kind_text(k) + " already exists on schema definition"@
}

/// Whether `new` is `old` after setting its root of kind `k` to the type `t`, `res` the
/// outcome: an error where the schema definition already has such a root; else the reference
/// to `t` recorded (it must be an object type's record), and the root set. Where recording
/// fails, nothing changes and the error comes back.
pub open spec fn root_insertion(
    old: FederationSchema,
    new: FederationSchema,
    k: SchemaRootDefinitionKind,
    t: Seq<char>,
    res: Result<(), FederationError>,
) -> bool {
    let os = old.spec_schema();
    let ns = new.spec_schema();
    if root_of(os, k) is Some {
        res matches Err(e) && is_internal_error(e, root_there_message(k)) && new == old
    } else {
        let rec = record(
            os,
            old.spec_referencers(),
            seq![CheckView::Reference(LocationView::SchemaRoot(k), crate::federation_schema::TargetView::Type(t, crate::federation_schema::TypeUse::Root))],
        );
        &&& new.spec_referencers() == rec.0
        &&& new.spec_metadata() == old.spec_metadata()
        &&& match rec.1 {
            Some(m) => res matches Err(e) && is_internal_error(e, m) && ns == os,
            None => {
                &&& res is Ok
                &&& root_type_of(ns.schema_definition, k) matches Some(r) && r@ == t
                &&& forall|o: SchemaRootDefinitionKind| o != k ==> root_type_of(ns.schema_definition, o) == root_type_of(
                    os.schema_definition,
                    o,
                )
                &&& ns.schema_definition.directives == os.schema_definition.directives
                &&& ns.types == os.types
                &&& ns.directive_definitions == os.directive_definitions
            },
        }
    }
}

impl SchemaRootDefinitionPosition {
    /// Sets the root of this kind to the type `root_type` (see [`root_insertion`]).
    pub fn insert(&self, schema: &mut FederationSchema, root_type: String) -> (res: Result<(), FederationError>)
        ensures
            root_insertion(*old(schema), *final(schema), self.root_kind, root_type@, res),
    {
        if self.try_get(schema.schema()).is_some() {
            proof {
                reveal_with_fuel(concat_views, 4);
            }
            let kind = self.root_kind.to_text();
            let m = concat_strs(&["Root ", kind.as_str(), " already exists on schema definition"]);
            assert(m@ =~= root_there_message(self.root_kind));
            return Err(FederationError::internal(m));
        }
        let c = Check::Reference(
            Location::SchemaRoot(self.root_kind),
            crate::federation_schema::Target::Type(root_type.clone(), crate::federation_schema::TypeUse::Root),
        );
        let checks = vec![c];
        proof {
            assert(checks_view(checks@) =~= seq![
                CheckView::Reference(
                    LocationView::SchemaRoot(self.root_kind),
                    crate::federation_schema::TargetView::Type(root_type@, crate::federation_schema::TypeUse::Root),
                ),
            ]);
        }
        match schema.record_references(&checks) {
            Ok(()) => {},
            Err(e) => {
                return Err(e);
            },
        }
        schema.set_root(self.root_kind, root_type);
        Ok(())
    }
}

/// Whether a name is reserved by GraphQL: it starts with `__`.
pub open spec fn reserved_name(n: Seq<char>) -> bool {
    n.len() >= 2 && n[0] == '_' && n[1] == '_'
}

/// Whether a name is that of a scalar type that GraphQL defines.
pub open spec fn builtin_scalar_name(n: Seq<char>) -> bool {
    n == "Int"@ || n == "Float"@ || n == "String"@ || n == "Boolean"@ || n == "ID"@
}

/// Whether a name is that of a directive that GraphQL defines.
pub open spec fn builtin_directive_name(n: Seq<char>) -> bool {
    n == "include"@ || n == "skip"@ || n == "deprecated"@ || n == "specifiedBy"@ || n == "defer"@
}

/// Whether a type of kind `k` named `n` may stand in for one that is already there (the
/// second is then ignored): a reserved name, or a built-in scalar.
pub open spec fn type_may_shadow(n: Seq<char>, k: TypeKind) -> bool {
    reserved_name(n) || (k == TypeKind::Scalar && builtin_scalar_name(n))
}

/// Whether a directive named `n` may stand in for one that is already there: a reserved
/// name, or a built-in directive.
pub open spec fn directive_may_shadow(n: Seq<char>) -> bool {
    reserved_name(n) || builtin_directive_name(n)
}

fn is_reserved_name(n: &String) -> (res: bool)
    ensures
        res == reserved_name(n@),
{
    let s = n.as_str();
    s.unicode_len() >= 2 && s.get_char(0) == '_' && s.get_char(1) == '_'
}

fn type_shadows(n: &String, k: TypeKind) -> (res: bool)
    ensures
        res == type_may_shadow(n@, k),
{
    is_reserved_name(n) || (k == TypeKind::Scalar && (str_eq(n, "Int") || str_eq(n, "Float") || str_eq(n, "String")
        || str_eq(n, "Boolean") || str_eq(n, "ID")))
}

fn directive_shadows(n: &String) -> (res: bool)
    ensures
        res == directive_may_shadow(n@),
{
    is_reserved_name(n) || str_eq(n, "include") || str_eq(n, "skip") || str_eq(n, "deprecated") || str_eq(
        n,
        "specifiedBy",
    ) || str_eq(n, "defer")
}

/// The message for a type whose record is already there.
pub open spec fn type_pre_inserted_message(n: Seq<char>) -> Seq<char> {
    "Type \""@ + n + "\" has already been pre-inserted"@
}

/// The message for a type without a record.
pub open spec fn type_not_pre_inserted_message(n: Seq<char>) -> Seq<char> {
    "Type \""@ + n + "\" has not been pre-inserted"@
}

/// The message for a type that the schema already has.
pub open spec fn type_there_message(n: Seq<char>) -> Seq<char> {
    "Type \""@ + n + "\" already exists in schema"@
}

fn type_message_error(before: &str, n: &String, after: &str) -> (res: FederationError)
    ensures
        is_internal_error(res, before@ + n@ + after@),
{
    proof {
        reveal_with_fuel(concat_views, 4);
    }
    let m = concat_strs(&[before, n.as_str(), after]);
    assert(m@ =~= before@ + n@ + after@);
    FederationError::internal(m)
}

/// Whether `new` is `old` after making room for a type `n` of kind `k`, `res` the outcome:
/// an empty record of the type added last; or, where a type of that name is recorded
/// already, nothing, and an error unless the name may shadow (see [`type_may_shadow`]).
pub open spec fn type_pre_insertion(
    old: FederationSchema,
    new: FederationSchema,
    n: Seq<char>,
    k: TypeKind,
    res: Result<(), FederationError>,
) -> bool {
    if type_entry(old.spec_referencers().types, n) is Some {
        &&& new == old
        &&& if type_may_shadow(n, k) {
            res is Ok
        } else {
            res matches Err(e) && is_internal_error(e, type_pre_inserted_message(n))
        }
    } else {
        &&& res is Ok
        &&& new.spec_schema() == old.spec_schema()
        &&& new.spec_metadata() == old.spec_metadata()
        &&& new.spec_referencers() == (crate::federation_schema::ReferencersView {
            types: old.spec_referencers().types.push((n, k, Seq::<LocationView>::empty())),
            directives: old.spec_referencers().directives,
        })
    }
}

fn pre_insert_type(schema: &mut FederationSchema, n: &String, k: TypeKind) -> (res: Result<(), FederationError>)
    ensures
        type_pre_insertion(*old(schema), *final(schema), n@, k, res),
{
    if schema.has_type_record(n) {
        if type_shadows(n, k) {
            return Ok(());
        }
        proof {
            reveal_strlit("Type \"");
            reveal_strlit("\" has already been pre-inserted");
        }
        return Err(type_message_error("Type \"", n, "\" has already been pre-inserted"));
    }
    schema.add_type_record(n.clone(), k);
    Ok(())
}

/// Whether `new` is `old` after inserting the type `t`, `res` the outcome: an error, with
/// nothing changed, where the first record of a type of that name is not of its kind; where
/// the schema has a type of that name already, nothing changes, and it is an error unless the
/// name may shadow; else the references of `t` are recorded (see [`record`]) and the type is
/// added last. Where recording fails, the error comes back with the references recorded so
/// far and the schema as it was.
pub open spec fn type_insertion(old: FederationSchema, new: FederationSchema, t: crate::schema::ExtendedType, res: Result<(), FederationError>) -> bool {
    let os = old.spec_schema();
    let ns = new.spec_schema();
    let n = t.spec_name();
    let k = t.spec_kind();
    if !(type_entry(old.spec_referencers().types, n) matches Some(j) && old.spec_referencers().types[j].1 == k) {
        res matches Err(e) && is_internal_error(e, type_not_pre_inserted_message(n)) && new == old
    } else if crate::schema::type_index(os.types@, n) is Some {
        &&& new == old
        &&& if type_may_shadow(n, k) {
            res is Ok
        } else {
            res matches Err(e) && is_internal_error(e, type_there_message(n))
        }
    } else {
        let rec = record(os, old.spec_referencers(), crate::federation_schema::type_checks(t));
        &&& new.spec_referencers() == rec.0
        &&& new.spec_metadata() == old.spec_metadata()
        &&& match rec.1 {
            Some(m) => res matches Err(e) && is_internal_error(e, m) && ns == os,
            None => {
                &&& res is Ok
                &&& ns.types@ == os.types@.push(t)
                &&& ns.schema_definition == os.schema_definition
                &&& ns.directive_definitions == os.directive_definitions
            },
        }
    }
}

fn insert_type(schema: &mut FederationSchema, t: crate::schema::ExtendedType) -> (res: Result<(), FederationError>)
    ensures
        type_insertion(*old(schema), *final(schema), t, res),
{
    let n = t.name().clone();
    let k = t.kind();
    if !schema.has_type_record_of_kind(&n, k) {
        proof {
            reveal_strlit("Type \"");
            reveal_strlit("\" has not been pre-inserted");
        }
        return Err(type_message_error("Type \"", &n, "\" has not been pre-inserted"));
    }
    proof {
        crate::schema::lemma_type_index(schema.spec_schema().types@, n@);
    }
    if schema.schema().get_type(n.as_str()).is_some() {
        if type_shadows(&n, k) {
            return Ok(());
        }
        proof {
            reveal_strlit("Type \"");
            reveal_strlit("\" already exists in schema");
        }
        return Err(type_message_error("Type \"", &n, "\" already exists in schema"));
    }
    let mut checks: Vec<Check> = Vec::new();
    proof {
        assert(checks_view(checks@) =~= Seq::<CheckView>::empty());
    }
    crate::federation_schema::push_type_checks(&mut checks, &t);
    proof {
        assert(checks_view(checks@) =~= crate::federation_schema::type_checks(t));
    }
    match schema.record_references(&checks) {
        Ok(()) => {},
        Err(e) => {
            return Err(e);
        },
    }
    schema.push_type(t);
    Ok(())
}

impl ScalarTypeDefinitionPosition {
    /// Makes room for the scalar type at this position (see [`type_pre_insertion`]).
    pub fn pre_insert(&self, schema: &mut FederationSchema) -> (res: Result<(), FederationError>)
        ensures
            type_pre_insertion(*old(schema), *final(schema), self.name_of_type@, TypeKind::Scalar, res),
    {
        pre_insert_type(schema, &self.name_of_type, TypeKind::Scalar)
    }

    /// Inserts the scalar type `t`, named as this position (see [`type_insertion`]).
    pub fn insert(&self, schema: &mut FederationSchema, t: crate::schema::ExtendedType) -> (res: Result<(), FederationError>)
        requires
            t.spec_name() == self.name_of_type@,
            t.spec_kind() == TypeKind::Scalar,
        ensures
            type_insertion(*old(schema), *final(schema), t, res),
    {
        insert_type(schema, t)
    }
}

impl ObjectTypeDefinitionPosition {
    /// Makes room for the object type at this position (see [`type_pre_insertion`]).
    pub fn pre_insert(&self, schema: &mut FederationSchema) -> (res: Result<(), FederationError>)
        ensures
            type_pre_insertion(*old(schema), *final(schema), self.name_of_type@, TypeKind::Object, res),
    {
        pre_insert_type(schema, &self.name_of_type, TypeKind::Object)
    }

    /// Inserts the object type `t`, named as this position (see [`type_insertion`]).
    pub fn insert(&self, schema: &mut FederationSchema, t: crate::schema::ExtendedType) -> (res: Result<(), FederationError>)
        requires
            t.spec_name() == self.name_of_type@,
            t.spec_kind() == TypeKind::Object,
        ensures
            type_insertion(*old(schema), *final(schema), t, res),
    {
        insert_type(schema, t)
    }
}

impl InterfaceTypeDefinitionPosition {
    /// Makes room for the interface type at this position (see [`type_pre_insertion`]).
    pub fn pre_insert(&self, schema: &mut FederationSchema) -> (res: Result<(), FederationError>)
        ensures
            type_pre_insertion(*old(schema), *final(schema), self.name_of_type@, TypeKind::Interface, res),
    {
        pre_insert_type(schema, &self.name_of_type, TypeKind::Interface)
    }

    /// Inserts the interface type `t`, named as this position (see [`type_insertion`]).
    pub fn insert(&self, schema: &mut FederationSchema, t: crate::schema::ExtendedType) -> (res: Result<(), FederationError>)
        requires
            t.spec_name() == self.name_of_type@,
            t.spec_kind() == TypeKind::Interface,
        ensures
            type_insertion(*old(schema), *final(schema), t, res),
    {
        insert_type(schema, t)
    }
}

impl UnionTypeDefinitionPosition {
    /// Makes room for the union type at this position (see [`type_pre_insertion`]).
    pub fn pre_insert(&self, schema: &mut FederationSchema) -> (res: Result<(), FederationError>)
        ensures
            type_pre_insertion(*old(schema), *final(schema), self.name_of_type@, TypeKind::Union, res),
    {
        pre_insert_type(schema, &self.name_of_type, TypeKind::Union)
    }

    /// Inserts the union type `t`, named as this position (see [`type_insertion`]).
    pub fn insert(&self, schema: &mut FederationSchema, t: crate::schema::ExtendedType) -> (res: Result<(), FederationError>)
        requires
            t.spec_name() == self.name_of_type@,
            t.spec_kind() == TypeKind::Union,
        ensures
            type_insertion(*old(schema), *final(schema), t, res),
    {
        insert_type(schema, t)
    }
}

impl EnumTypeDefinitionPosition {
    /// Makes room for the enum type at this position (see [`type_pre_insertion`]).
    pub fn pre_insert(&self, schema: &mut FederationSchema) -> (res: Result<(), FederationError>)
        ensures
            type_pre_insertion(*old(schema), *final(schema), self.name_of_type@, TypeKind::Enum, res),
    {
        pre_insert_type(schema, &self.name_of_type, TypeKind::Enum)
    }

    /// Inserts the enum type `t`, named as this position (see [`type_insertion`]).
    pub fn insert(&self, schema: &mut FederationSchema, t: crate::schema::ExtendedType) -> (res: Result<(), FederationError>)
        requires
            t.spec_name() == self.name_of_type@,
            t.spec_kind() == TypeKind::Enum,
        ensures
            type_insertion(*old(schema), *final(schema), t, res),
    {
        insert_type(schema, t)
    }
}

impl InputObjectTypeDefinitionPosition {
    /// Makes room for the input object type at this position (see [`type_pre_insertion`]).
    pub fn pre_insert(&self, schema: &mut FederationSchema) -> (res: Result<(), FederationError>)
        ensures
            type_pre_insertion(*old(schema), *final(schema), self.name_of_type@, TypeKind::InputObject, res),
    {
        pre_insert_type(schema, &self.name_of_type, TypeKind::InputObject)
    }

    /// Inserts the input object type `t`, named as this position (see [`type_insertion`]).
    pub fn insert(&self, schema: &mut FederationSchema, t: crate::schema::ExtendedType) -> (res: Result<(), FederationError>)
        requires
            t.spec_name() == self.name_of_type@,
            t.spec_kind() == TypeKind::InputObject,
        ensures
            type_insertion(*old(schema), *final(schema), t, res),
    {
        insert_type(schema, t)
    }
}

/// The message for a directive whose record is already there.
pub open spec fn directive_pre_inserted_message(n: Seq<char>) -> Seq<char> {
    "Directive \"@"@ + n + "\" has already been pre-inserted"@
}

/// The message for a directive without a record.
pub open spec fn directive_not_pre_inserted_message(n: Seq<char>) -> Seq<char> {
    "Directive \"@"@ + n + "\" has not been pre-inserted"@
}

/// The message for a directive that the schema already defines.
pub open spec fn directive_there_message(n: Seq<char>) -> Seq<char> {
    "Directive \"@"@ + n + "\" already exists in schema"@
}

/// Whether `new` is `old` after making room for a directive `n`, `res` the outcome: an empty
/// record of the directive added last; or, where a directive of that name is recorded
/// already, nothing, and an error unless the name may shadow (see
/// [`directive_may_shadow`]).
pub open spec fn directive_pre_insertion(old: FederationSchema, new: FederationSchema, n: Seq<char>, res: Result<(), FederationError>) -> bool {
    if directive_entry(old.spec_referencers().directives, n) is Some {
        &&& new == old
        &&& if directive_may_shadow(n) {
            res is Ok
        } else {
            res matches Err(e) && is_internal_error(e, directive_pre_inserted_message(n))
        }
    } else {
        &&& res is Ok
        &&& new.spec_schema() == old.spec_schema()
        &&& new.spec_metadata() == old.spec_metadata()
        &&& new.spec_referencers() == (crate::federation_schema::ReferencersView {
            types: old.spec_referencers().types,
            directives: old.spec_referencers().directives.push((n, Seq::<LocationView>::empty())),
        })
    }
}

/// Whether `new` is `old` after inserting the directive definition `d`, `res` the outcome:
/// an error, with nothing changed, where the directive has no record; where the schema
/// defines a directive of that name already, nothing changes, and it is an error unless the
/// name may shadow; else the references of the definition's arguments are recorded (see
/// [`record`]) and the definition is added last. Where recording fails, the error comes back
/// with the references recorded so far and the schema as it was.
pub open spec fn directive_insertion(
    old: FederationSchema,
    new: FederationSchema,
    d: crate::schema::DirectiveDefinition,
    res: Result<(), FederationError>,
) -> bool {
    let os = old.spec_schema();
    let ns = new.spec_schema();
    let n = d.name@;
    if directive_entry(old.spec_referencers().directives, n) is None {
        res matches Err(e) && is_internal_error(e, directive_not_pre_inserted_message(n)) && new == old
    } else if crate::inaccessible::directive_index(os.directive_definitions@, n) is Some {
        &&& new == old
        &&& if directive_may_shadow(n) {
            res is Ok
        } else {
            res matches Err(e) && is_internal_error(e, directive_there_message(n))
        }
    } else {
        let rec = record(
            os,
            old.spec_referencers(),
            crate::federation_schema::arguments_checks(crate::federation_schema::ArgumentOwner::Directive(n), d.arguments@),
        );
        &&& new.spec_referencers() == rec.0
        &&& new.spec_metadata() == old.spec_metadata()
        &&& match rec.1 {
            Some(m) => res matches Err(e) && is_internal_error(e, m) && ns == os,
            None => {
                &&& res is Ok
                &&& ns.directive_definitions@ == os.directive_definitions@.push(d)
                &&& ns.schema_definition == os.schema_definition
                &&& ns.types == os.types
            },
        }
    }
}

impl crate::position::DirectiveDefinitionPosition {
    /// Makes room for the directive at this position (see [`directive_pre_insertion`]).
    pub fn pre_insert(&self, schema: &mut FederationSchema) -> (res: Result<(), FederationError>)
        ensures
            directive_pre_insertion(*old(schema), *final(schema), self.directive_name@, res),
    {
        let n = &self.directive_name;
        if schema.has_directive_record(n) {
            if directive_shadows(n) {
                return Ok(());
            }
            proof {
                reveal_strlit("Directive \"@");
                reveal_strlit("\" has already been pre-inserted");
            }
            return Err(type_message_error("Directive \"@", n, "\" has already been pre-inserted"));
        }
        schema.add_directive_record(n.clone());
        Ok(())
    }

    /// Inserts the directive definition `d`, named as this position (see
    /// [`directive_insertion`]).
    pub fn insert(&self, schema: &mut FederationSchema, d: crate::schema::DirectiveDefinition) -> (res: Result<(), FederationError>)
        requires
            d.name@ == self.directive_name@,
        ensures
            directive_insertion(*old(schema), *final(schema), d, res),
    {
        let n = &self.directive_name;
        if !schema.has_directive_record(n) {
            proof {
                reveal_strlit("Directive \"@");
                reveal_strlit("\" has not been pre-inserted");
            }
            return Err(type_message_error("Directive \"@", n, "\" has not been pre-inserted"));
        }
        if crate::position::find_directive_definition(&schema.schema().directive_definitions, n).is_some() {
            if directive_shadows(n) {
                return Ok(());
            }
            proof {
                reveal_strlit("Directive \"@");
                reveal_strlit("\" already exists in schema");
            }
            return Err(type_message_error("Directive \"@", n, "\" already exists in schema"));
        }
        let mut checks: Vec<Check> = Vec::new();
        proof {
            assert(checks_view(checks@) =~= Seq::<CheckView>::empty());
        }
        let owner = crate::federation_schema::Owner::Directive(n.clone());
        crate::federation_schema::push_arguments_checks(&mut checks, &owner, &d.arguments);
        proof {
            assert(checks_view(checks@) =~= crate::federation_schema::arguments_checks(
                crate::federation_schema::ArgumentOwner::Directive(n@),
                d.arguments@,
            ));
        }
        match schema.record_references(&checks) {
            Ok(()) => {},
            Err(e) => {
                return Err(e);
            },
        }
        schema.push_directive_definition(d);
        Ok(())
    }
}
/// The interfaces that the object or interface type `t` implements.
pub open spec fn implemented(t: crate::schema::ExtendedType) -> Seq<Seq<char>> {
    crate::schema::strings_view(crate::federation_schema::type_names(t))
}

/// Whether `new` is `old` after making its type `t` of kind `k` (an object or interface type)
/// implement the interface `iface`, `res` the outcome: an internal error where there is no
/// such type; else the reference to `iface` recorded (an error, the schema unchanged, where
/// that fails); then `iface` added last to the interfaces the type implements, unless it is
/// among them already.
pub open spec fn implements_insertion(
    old: FederationSchema,
    new: FederationSchema,
    t: Seq<char>,
    k: TypeKind,
    iface: Seq<char>,
    res: Result<(), FederationError>,
) -> bool {
    let os = old.spec_schema();
    let ns = new.spec_schema();
    match type_of_kind(os, t, k) {
        Err(m) => res matches Err(e) && is_internal_error(e, m) && new == old,
        Ok(i) => {
            let rec = record(
                os,
                old.spec_referencers(),
                seq![CheckView::Reference(crate::position::type_location(k, t), crate::federation_schema::TargetView::Type(iface, crate::federation_schema::TypeUse::Implements))],
            );
            &&& new.spec_referencers() == rec.0
            &&& new.spec_metadata() == old.spec_metadata()
            &&& match rec.1 {
                Some(m) => res matches Err(e) && is_internal_error(e, m) && ns == os,
                None => {
                    &&& res is Ok
                    &&& other_types_kept(os, ns, i)
                    &&& ns.types@[i].spec_name() == os.types@[i].spec_name()
                    &&& ns.types@[i].spec_kind() == k
                    &&& ns.types@[i].spec_directives() == os.types@[i].spec_directives()
                    &&& declared_fields(ns.types@[i]) == declared_fields(os.types@[i])
                    &&& implemented(ns.types@[i]) == if implemented(os.types@[i]).contains(iface) {
                        implemented(os.types@[i])
                    } else {
                        implemented(os.types@[i]).push(iface)
                    }
                },
            }
        },
    }
}

/// Whether `names` holds `name`.
fn strings_contain(names: &Vec<String>, name: &String) -> (res: bool)
    ensures
        res == crate::schema::strings_view(names@).contains(name@),
{
    let mut j: usize = 0;
    while j < names.len()
        invariant
            j <= names@.len(),
            !crate::schema::strings_view(names@.take(j as int)).contains(name@),
        decreases names@.len() - j,
    {
        proof {
            assert(crate::schema::strings_view(names@.take(j + 1)) =~= crate::schema::strings_view(names@.take(j as int)).push(names@[j as int]@));
        }
        if str_eq(&names[j], name.as_str()) {
            proof {
                assert(crate::schema::strings_view(names@)[j as int] == name@);
            }
            return true;
        }
        j = j + 1;
    }
    proof {
        assert(names@.take(names@.len() as int) =~= names@);
    }
    false
}

/// Whether `t` implements (or, for a union, has as a member) `name`.
fn names_contain(t: &crate::schema::ExtendedType, name: &String) -> (res: bool)
    ensures
        res == implemented(*t).contains(name@),
{
    match t {
        crate::schema::ExtendedType::Object { implements_interfaces, .. } => strings_contain(implements_interfaces, name),
        crate::schema::ExtendedType::Interface { implements_interfaces, .. } => strings_contain(implements_interfaces, name),
        crate::schema::ExtendedType::Union { members, .. } => strings_contain(members, name),
        _ => {
            proof {
                assert(implemented(*t) =~= Seq::<Seq<char>>::empty());
            }
            false
        },
    }
}

fn insert_implements(schema: &mut FederationSchema, t: &String, k: TypeKind, iface: &String) -> (res: Result<(), FederationError>)
    requires
        k == TypeKind::Object || k == TypeKind::Interface,
    ensures
        implements_insertion(*old(schema), *final(schema), t@, k, iface@, res),
{
    let i = match locate_type(schema.schema(), t, k) {
        Ok(i) => i,
        Err(e) => {
            return Err(e);
        },
    };
    let loc = match k {
        TypeKind::Object => Location::ObjectType(t.clone()),
        _ => Location::InterfaceType(t.clone()),
    };
    let mut checks: Vec<Check> = Vec::new();
    checks.push(Check::Reference(loc, crate::federation_schema::Target::Type(iface.clone(), crate::federation_schema::TypeUse::Implements)));
    proof {
        assert(checks_view(checks@) =~= seq![CheckView::Reference(crate::position::type_location(k, t@), crate::federation_schema::TargetView::Type(iface@, crate::federation_schema::TypeUse::Implements))]);
    }
    match schema.record_references(&checks) {
        Ok(()) => {},
        Err(e) => {
            return Err(e);
        },
    }
    let found = names_contain(&schema.schema().types[i], iface);
    if !found {
        let ghost before = schema.spec_schema().types@[i as int];
        schema.push_implements(i, iface.clone());
        proof {
            let after = schema.spec_schema().types@[i as int];
            assert(implemented(after) =~= implemented(before).push(iface@));
        }
    }
    Ok(())
}

impl ObjectTypeDefinitionPosition {
    /// Makes the object type implement the interface `iface` (see [`implements_insertion`]).
    pub fn insert_implements_interface(&self, schema: &mut FederationSchema, iface: &String) -> (res: Result<(), FederationError>)
        ensures
            implements_insertion(*old(schema), *final(schema), self.name_of_type@, TypeKind::Object, iface@, res),
    {
        insert_implements(schema, &self.name_of_type, TypeKind::Object, iface)
    }
}

impl InterfaceTypeDefinitionPosition {
    /// Makes the interface type implement the interface `iface` (see [`implements_insertion`]).
    pub fn insert_implements_interface(&self, schema: &mut FederationSchema, iface: &String) -> (res: Result<(), FederationError>)
        ensures
            implements_insertion(*old(schema), *final(schema), self.name_of_type@, TypeKind::Interface, iface@, res),
    {
        insert_implements(schema, &self.name_of_type, TypeKind::Interface, iface)
    }
}

} // verus!
