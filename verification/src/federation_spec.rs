//! The definitions that the federation and link specifications add to a subgraph schema:
//! their directives, scalars and enums, under the names that a `@link` gives them.
use crate::ast::{
    concat_strs, concat_views, decimal, directives_view, first_argument_index, lemma_first_argument_index,
    str_eq, values_view, Argument, ArgumentView, Directive, DirectiveView, Value, ValueView,
};
use crate::link::{
    imported_display_name, in_version_range, directive_name_in_schema, spec_name_in_schema,
    type_name_in_schema, url_text, version_text, Identity, Import, Link, Purpose, Url, Version,
    APOLLO_SPEC_DOMAIN,
};
use crate::schema::{
    directive_definition_view, input_value_view, DirectiveDefinition, DirectiveDefinitionView,
    EnumValueDefinition, ExtendedType, InputValueDefinition, InputValueView, Schema, Type, TypeView,
};
use vstd::prelude::*;

verus! {

pub const COMPOSE_DIRECTIVE_NAME: &'static str = "composeDirective";
pub const KEY_DIRECTIVE_NAME: &'static str = "key";
pub const EXTENDS_DIRECTIVE_NAME: &'static str = "extends";
pub const EXTERNAL_DIRECTIVE_NAME: &'static str = "external";
pub const INACCESSIBLE_DIRECTIVE_NAME: &'static str = "inaccessible";
pub const INTF_OBJECT_DIRECTIVE_NAME: &'static str = "interfaceObject";
pub const OVERRIDE_DIRECTIVE_NAME: &'static str = "override";
pub const PROVIDES_DIRECTIVE_NAME: &'static str = "provides";
pub const REQUIRES_DIRECTIVE_NAME: &'static str = "requires";
pub const SHAREABLE_DIRECTIVE_NAME: &'static str = "shareable";
pub const TAG_DIRECTIVE_NAME: &'static str = "tag";
pub const FIELDSET_SCALAR_NAME: &'static str = "FieldSet";
pub const DEFAULT_LINK_NAME: &'static str = "link";
pub const DEFAULT_IMPORT_SCALAR_NAME: &'static str = "Import";
pub const DEFAULT_PURPOSE_ENUM_NAME: &'static str = "Purpose";

/// The lowest federation version supported, 2.0.
pub open spec fn min_federation_version() -> Version {
    Version { major: 2, minor: 0 }
}

/// The highest federation version supported, 2.4.
pub open spec fn max_federation_version() -> Version {
    Version { major: 2, minor: 4 }
}

fn min_version() -> (res: Version)
    ensures
        res == min_federation_version(),
{
    Version { major: 2, minor: 0 }
}

fn max_version() -> (res: Version)
    ensures
        res == max_federation_version(),
{
    Version { major: 2, minor: 4 }
}

/// An error of the federation specification definitions.
#[derive(Debug, PartialEq, Eq)]
pub enum FederationSpecError {
    UnsupportedVersionError { specified: String, min: String, max: String },
    UnsupportedFederationDirective(String),
    DirectiveCannotBeRenamed(String),
}

impl FederationSpecError {
    /// The message of the error.
    pub fn message(&self) -> (res: String)
        ensures
            res@ == match self {
                FederationSpecError::UnsupportedVersionError { specified, min, max } =>
                    "Specified specification version "@ + specified@
                        + " is outside of supported range "@ + min@ + "-"@ + max@,
                FederationSpecError::UnsupportedFederationDirective(n) =>
                    "Unsupported federation directive import "@ + n@,
                FederationSpecError::DirectiveCannotBeRenamed(n) => n@
                    + " directive cannot be renamed"@,
            },
    {
        proof {
            reveal_with_fuel(concat_views, 7);
        }
        match self {
            FederationSpecError::UnsupportedVersionError { specified, min, max } => {
                let r = concat_strs(
                    &[
                        "Specified specification version ",
                        specified.as_str(),
                        " is outside of supported range ",
                        min.as_str(),
                        "-",
                        max.as_str(),
                    ],
                );
                assert(r@ =~= "Specified specification version "@ + specified@
                    + " is outside of supported range "@ + min@ + "-"@ + max@);
                r
            },
            FederationSpecError::UnsupportedFederationDirective(n) => {
                let r = concat_strs(&["Unsupported federation directive import ", n.as_str()]);
                assert(r@ =~= "Unsupported federation directive import "@ + n@);
                r
            },
            FederationSpecError::DirectiveCannotBeRenamed(n) => {
                let r = concat_strs(&[n.as_str(), " directive cannot be renamed"]);
                assert(r@ =~= n@ + " directive cannot be renamed"@);
                r
            },
        }
    }
}

/// The identity of the federation specification.
pub fn federation_link_identity() -> (res: Identity)
    ensures
        res.domain@ == APOLLO_SPEC_DOMAIN@,
        res.name@ == "federation"@,
{
    Identity { domain: String::from_str(APOLLO_SPEC_DOMAIN), name: String::from_str("federation") }
}

/// The identity of the join specification.
pub fn join_link_identity() -> (res: Identity)
    ensures
        res.domain@ == APOLLO_SPEC_DOMAIN@,
        res.name@ == "join"@,
{
    Identity { domain: String::from_str(APOLLO_SPEC_DOMAIN), name: String::from_str("join") }
}

// ----------------------------------------------------------------------------------------
// Definitions, in mathematical form
// ----------------------------------------------------------------------------------------

/// An argument definition with a type and nothing else.
pub open spec fn plain_argument(name: Seq<char>, ty: TypeView) -> InputValueView {
    InputValueView { name, ty, default_value: None, directives: Seq::empty() }
}

pub open spec fn definition(
    name: Seq<char>,
    arguments: Seq<InputValueView>,
    repeatable: bool,
    locations: Seq<Seq<char>>,
) -> DirectiveDefinitionView {
    DirectiveDefinitionView { name, arguments, repeatable, locations }
}

/// The name of a directive: its alias, else its default name.
pub open spec fn alias_or(alias: Option<Seq<char>>, default: Seq<char>) -> Seq<char> {
    match alias {
        Some(a) => a,
        None => default,
    }
}

/// `fields: FieldSet!`, with the field set scalar's name in the schema.
pub open spec fn fields_argument(fieldset: Seq<char>) -> InputValueView {
    plain_argument("fields"@, TypeView::NonNullNamed(fieldset))
}

/// The locations of `@inaccessible` and `@tag`.
pub open spec fn element_locations() -> Seq<Seq<char>> {
    seq![
        "ARGUMENT_DEFINITION"@,
        "ENUM"@,
        "ENUM_VALUE"@,
        "FIELD_DEFINITION"@,
        "INPUT_FIELD_DEFINITION"@,
        "INPUT_OBJECT"@,
        "INTERFACE"@,
        "OBJECT"@,
        "SCALAR"@,
        "UNION"@,
    ]
}

/// `directive @composeDirective(name: String!) repeatable on SCHEMA`
pub open spec fn compose_definition(name: Seq<char>) -> DirectiveDefinitionView {
    definition(
        name,
        seq![plain_argument("name"@, TypeView::NonNullNamed("String"@))],
        true,
        seq!["SCHEMA"@],
    )
}

/// `directive @key(fields: FieldSet!, resolvable: Boolean = true) repeatable on OBJECT | INTERFACE`
pub open spec fn key_definition(name: Seq<char>, fieldset: Seq<char>) -> DirectiveDefinitionView {
    definition(
        name,
        seq![
            fields_argument(fieldset),
            InputValueView {
                name: "resolvable"@,
                ty: TypeView::Named("Boolean"@),
                default_value: Some(ValueView::Boolean(true)),
                directives: Seq::empty(),
            },
        ],
        true,
        seq!["OBJECT"@, "INTERFACE"@],
    )
}

/// `directive @extends on OBJECT | INTERFACE`
pub open spec fn extends_definition(name: Seq<char>) -> DirectiveDefinitionView {
    definition(name, Seq::empty(), false, seq!["OBJECT"@, "INTERFACE"@])
}

/// `directive @external on OBJECT | FIELD_DEFINITION`
pub open spec fn external_definition(name: Seq<char>) -> DirectiveDefinitionView {
    definition(name, Seq::empty(), false, seq!["OBJECT"@, "FIELD_DEFINITION"@])
}

/// `directive @inaccessible on ARGUMENT_DEFINITION | ENUM | ... | UNION`
pub open spec fn inaccessible_definition() -> DirectiveDefinitionView {
    definition("inaccessible"@, Seq::empty(), false, element_locations())
}

/// `directive @interfaceObject on OBJECT`
pub open spec fn interface_object_definition(name: Seq<char>) -> DirectiveDefinitionView {
    definition(name, Seq::empty(), false, seq!["OBJECT"@])
}

/// `directive @override(from: String!) on FIELD_DEFINITION`
pub open spec fn override_definition(name: Seq<char>) -> DirectiveDefinitionView {
    definition(
        name,
        seq![plain_argument("from"@, TypeView::NonNullNamed("String"@))],
        false,
        seq!["FIELD_DEFINITION"@],
    )
}

/// `directive @provides(fields: FieldSet!) on FIELD_DEFINITION`, and likewise `@requires`.
pub open spec fn field_set_directive_definition(name: Seq<char>, fieldset: Seq<char>) -> DirectiveDefinitionView {
    definition(name, seq![fields_argument(fieldset)], false, seq!["FIELD_DEFINITION"@])
}

/// `directive @shareable repeatable on FIELD_DEFINITION | OBJECT`
pub open spec fn shareable_definition(name: Seq<char>) -> DirectiveDefinitionView {
    definition(name, Seq::empty(), true, seq!["FIELD_DEFINITION"@, "OBJECT"@])
}

/// `directive @tag(name: String!) repeatable on ARGUMENT_DEFINITION | ENUM | ... | UNION`
pub open spec fn tag_definition() -> DirectiveDefinitionView {
    definition(
        "tag"@,
        seq![plain_argument("name"@, TypeView::NonNullNamed("String"@))],
        true,
        element_locations(),
    )
}

/// Whether `alias` renames the directive `name` of the specification named `spec_name`:
/// any alias but `spec_name__name` does.
pub open spec fn renames(spec_name: Seq<char>, alias: Option<Seq<char>>, name: Seq<char>) -> bool {
    match alias {
        Some(a) => a != spec_name + "__"@ + name,
        None => false,
    }
}

/// The definition of the federation directive `name` imported under `alias`: `None` for a
/// name that the specification does not define, `Some(None)` where the directive cannot be
/// renamed but is.
pub open spec fn federation_directive(link: Link, name: Seq<char>, alias: Option<Seq<char>>) -> Option<
    Option<DirectiveDefinitionView>,
> {
    let fieldset = type_name_in_schema(link, "FieldSet"@);
    if name == "composeDirective"@ {
        Some(Some(compose_definition(alias_or(alias, name))))
    } else if name == "key"@ {
        Some(Some(key_definition(alias_or(alias, name), fieldset)))
    } else if name == "extends"@ {
        Some(Some(extends_definition(alias_or(alias, name))))
    } else if name == "external"@ {
        Some(Some(external_definition(alias_or(alias, name))))
    } else if name == "inaccessible"@ {
        if renames(spec_name_in_schema(link), alias, name) {
            Some(None)
        } else {
            Some(Some(inaccessible_definition()))
        }
    } else if name == "interfaceObject"@ {
        Some(Some(interface_object_definition(alias_or(alias, name))))
    } else if name == "override"@ {
        Some(Some(override_definition(alias_or(alias, name))))
    } else if name == "provides"@ {
        Some(Some(field_set_directive_definition(alias_or(alias, name), fieldset)))
    } else if name == "requires"@ {
        Some(Some(field_set_directive_definition(alias_or(alias, name), fieldset)))
    } else if name == "shareable"@ {
        Some(Some(shareable_definition(alias_or(alias, name))))
    } else if name == "tag"@ {
        if renames(spec_name_in_schema(link), alias, name) {
            Some(None)
        } else {
            Some(Some(tag_definition()))
        }
    } else {
        None
    }
}

pub open spec fn opt_view(o: Option<String>) -> Option<Seq<char>> {
    match o {
        Some(s) => Some(s@),
        None => None,
    }
}

// ----------------------------------------------------------------------------------------
// Building definitions
// ----------------------------------------------------------------------------------------

fn plain_arg(name: &str, ty: Type) -> (res: InputValueDefinition)
    ensures
        input_value_view(res) == plain_argument(name@, ty@),
{
    let res = InputValueDefinition {
        name: String::from_str(name),
        ty,
        default_value: None,
        directives: Vec::new(),
    };
    assert(directives_view(res.directives@) =~= Seq::<DirectiveView>::empty());
    res
}

fn non_null_string(name: &str) -> (res: Type)
    ensures
        res@ == TypeView::NonNullNamed(name@),
{
    Type::NonNullNamed(String::from_str(name))
}

fn strings(parts: &[&str]) -> (res: Vec<String>)
    ensures
        res@.len() == parts@.len(),
        forall|i: int| 0 <= i < parts@.len() ==> #[trigger] res@[i]@ == parts@[i]@,
{
    let mut out: Vec<String> = Vec::new();
    let mut i: usize = 0;
    while i < parts.len()
        invariant
            i <= parts@.len(),
            out@.len() == i,
            forall|j: int| 0 <= j < i ==> #[trigger] out@[j]@ == parts@[j]@,
        decreases parts@.len() - i,
    {
        out.push(String::from_str(parts[i]));
        i = i + 1;
    }
    out
}

fn element_location_list() -> (res: Vec<String>)
    ensures
        crate::schema::strings_view(res@) == element_locations(),
{
    let res = strings(
        &[
            "ARGUMENT_DEFINITION",
            "ENUM",
            "ENUM_VALUE",
            "FIELD_DEFINITION",
            "INPUT_FIELD_DEFINITION",
            "INPUT_OBJECT",
            "INTERFACE",
            "OBJECT",
            "SCALAR",
            "UNION",
        ],
    );
    assert(crate::schema::strings_view(res@) =~= element_locations());
    res
}

fn one_string(a: &str) -> (res: Vec<String>)
    ensures
        crate::schema::strings_view(res@) == seq![a@],
{
    let mut v: Vec<String> = Vec::new();
    v.push(String::from_str(a));
    assert(crate::schema::strings_view(v@) =~= seq![a@]);
    v
}

fn two_strings(a: &str, b: &str) -> (res: Vec<String>)
    ensures
        crate::schema::strings_view(res@) == seq![a@, b@],
{
    let mut v: Vec<String> = Vec::new();
    v.push(String::from_str(a));
    v.push(String::from_str(b));
    assert(crate::schema::strings_view(v@) =~= seq![a@, b@]);
    v
}

fn one_argument(a: InputValueDefinition) -> (res: Vec<InputValueDefinition>)
    ensures
        crate::schema::input_values_view(res@) == seq![input_value_view(a)],
{
    let ghost va = input_value_view(a);
    let mut v: Vec<InputValueDefinition> = Vec::new();
    v.push(a);
    assert(crate::schema::input_values_view(v@) =~= seq![va]);
    v
}

fn two_arguments(a: InputValueDefinition, b: InputValueDefinition) -> (res: Vec<InputValueDefinition>)
    ensures
        crate::schema::input_values_view(res@) == seq![input_value_view(a), input_value_view(b)],
{
    let ghost va = input_value_view(a);
    let ghost vb = input_value_view(b);
    let mut v: Vec<InputValueDefinition> = Vec::new();
    v.push(a);
    v.push(b);
    assert(crate::schema::input_values_view(v@) =~= seq![va, vb]);
    v
}

fn no_arguments() -> (res: Vec<InputValueDefinition>)
    ensures
        crate::schema::input_values_view(res@) == Seq::<InputValueView>::empty(),
{
    let v: Vec<InputValueDefinition> = Vec::new();
    assert(crate::schema::input_values_view(v@) =~= Seq::<InputValueView>::empty());
    v
}

fn name_or(alias: &Option<String>, default: &str) -> (res: String)
    ensures
        res@ == alias_or(opt_view(*alias), default@),
{
    match alias {
        Some(a) => a.clone(),
        None => String::from_str(default),
    }
}

/// The specification definitions of federation, under the names that its `@link` gives them.
#[derive(Debug)]
pub struct FederationSpecDefinitions {
    /// The `@link` that the definitions are named after.
    pub link: Link,
    pub fieldset_scalar_name: String,
}

impl FederationSpecDefinitions {
    /// The definitions of the federation version that `link` names: an
    /// `UnsupportedVersionError` where it lies outside 2.0 to 2.4.
    pub fn from_link(link: Link) -> (res: Result<FederationSpecDefinitions, FederationSpecError>)
        ensures
            in_version_range(link.url.version, min_federation_version(), max_federation_version())
                ==> (res matches Ok(d) && d.link == link && d.fieldset_scalar_name@
                == type_name_in_schema(link, "FieldSet"@)),
            !in_version_range(link.url.version, min_federation_version(), max_federation_version())
                ==> (res matches Err(FederationSpecError::UnsupportedVersionError { specified, min, max })
                && specified@ == version_text(link.url.version) && min@ == version_text(
                min_federation_version(),
            ) && max@ == version_text(max_federation_version())),
    {
        let min = min_version();
        let max = max_version();
        if !link.url.version.satisfies_range(&min, &max) {
            Err(
                FederationSpecError::UnsupportedVersionError {
                    specified: link.url.version.to_text(),
                    min: min.to_text(),
                    max: max.to_text(),
                },
            )
        } else {
            let fieldset_scalar_name = link.type_name_in_schema(FIELDSET_SCALAR_NAME);
            Ok(FederationSpecDefinitions { link, fieldset_scalar_name })
        }
    }

    /// The definitions of federation 2.4, with the federation 1 directives (`@key`,
    /// `@extends`, `@external`, `@provides`, `@requires`) imported under their own names.
    pub fn default() -> (res: Result<FederationSpecDefinitions, FederationSpecError>)
        ensures
            res matches Ok(d) && {
                let l = d.link;
                &&& l.url.identity.domain@ == APOLLO_SPEC_DOMAIN@
                &&& l.url.identity.name@ == "federation"@
                &&& l.url.version == max_federation_version()
                &&& l.spec_alias is None
                &&& l.purpose is None
                &&& l.imports@.len() == 5
                &&& l.imports@[0].element@ == "key"@
                &&& l.imports@[1].element@ == "extends"@
                &&& l.imports@[2].element@ == "external"@
                &&& l.imports@[3].element@ == "provides"@
                &&& l.imports@[4].element@ == "requires"@
                &&& forall|i: int|
                    0 <= i < 5 ==> (#[trigger] l.imports@[i]).is_directive && l.imports@[i].alias is None
                &&& d.fieldset_scalar_name@ == type_name_in_schema(l, "FieldSet"@)
                &&& d.fieldset_scalar_name@ == "federation__FieldSet"@
            },
    {
        let names = strings(
            &[
                KEY_DIRECTIVE_NAME,
                EXTENDS_DIRECTIVE_NAME,
                EXTERNAL_DIRECTIVE_NAME,
                PROVIDES_DIRECTIVE_NAME,
                REQUIRES_DIRECTIVE_NAME,
            ],
        );
        let mut imports: Vec<Import> = Vec::new();
        let mut i: usize = 0;
        while i < names.len()
            invariant
                i <= names@.len(),
                imports@.len() == i,
                forall|j: int|
                    0 <= j < i ==> (#[trigger] imports@[j]).element@ == names@[j]@
                        && imports@[j].is_directive && imports@[j].alias is None,
            decreases names@.len() - i,
        {
            imports.push(Import { element: names[i].clone(), alias: None, is_directive: true });
            i = i + 1;
        }
        let link = Link {
            url: Url { identity: Identity::federation_identity(), version: max_version() },
            imports,
            purpose: None,
            spec_alias: None,
        };
        proof {
            reveal_strlit("FieldSet");
            reveal_strlit("key");
            reveal_strlit("extends");
            reveal_strlit("external");
            reveal_strlit("provides");
            reveal_strlit("requires");
            reveal_strlit("federation");
            reveal_strlit("__");
            reveal_strlit("federation__FieldSet");
            assert(link.imports@[0].element@ != "FieldSet"@);
            assert(link.imports@[1].element@ != "FieldSet"@);
            assert(link.imports@[2].element@[0] != "FieldSet"@[0]);
            assert(link.imports@[3].element@[0] != "FieldSet"@[0]);
            assert(link.imports@[4].element@[0] != "FieldSet"@[0]);
            crate::link::lemma_import_index(link.imports@, "FieldSet"@);
            assert(crate::link::import_index(link.imports@, "FieldSet"@) is None);
            assert(type_name_in_schema(link, "FieldSet"@) =~= "federation__FieldSet"@);
        }
        let res = Self::from_link(link);
        res
    }

    /// The name in the schema of the element `name` of the specification, a directive where
    /// `is_directive`, else a type.
    pub fn namespaced_type_name(&self, name: &str, is_directive: bool) -> (res: String)
        ensures
            res@ == if is_directive {
                directive_name_in_schema(self.link, name@)
            } else {
                type_name_in_schema(self.link, name@)
            },
    {
        if is_directive {
            self.link.directive_name_in_schema(name)
        } else {
            self.link.type_name_in_schema(name)
        }
    }

    /// The definition of the federation directive `name`, imported under `alias` (see
    /// [`federation_directive`]).
    pub fn directive_definition(&self, name: &str, alias: &Option<String>) -> (res: Result<
        DirectiveDefinition,
        FederationSpecError,
    >)
        ensures
            match federation_directive(self.link, name@, opt_view(*alias)) {
                Some(Some(d)) => res matches Ok(r) && directive_definition_view(r) == d,
                Some(None) => res matches Err(FederationSpecError::DirectiveCannotBeRenamed(n))
                    && n@ == name@,
                None => res matches Err(FederationSpecError::UnsupportedFederationDirective(n))
                    && n@ == name@,
            },
    {
        let n = String::from_str(name);
        if str_eq(&n, COMPOSE_DIRECTIVE_NAME) {
            Ok(self.compose_directive_definition(alias))
        } else if str_eq(&n, KEY_DIRECTIVE_NAME) {
            Ok(self.key_directive_definition(alias))
        } else if str_eq(&n, EXTENDS_DIRECTIVE_NAME) {
            Ok(self.extends_directive_definition(alias))
        } else if str_eq(&n, EXTERNAL_DIRECTIVE_NAME) {
            Ok(self.external_directive_definition(alias))
        } else if str_eq(&n, INACCESSIBLE_DIRECTIVE_NAME) {
            self.inaccessible_directive_definition(alias)
        } else if str_eq(&n, INTF_OBJECT_DIRECTIVE_NAME) {
            Ok(self.interface_object_directive_definition(alias))
        } else if str_eq(&n, OVERRIDE_DIRECTIVE_NAME) {
            Ok(self.override_directive_definition(alias))
        } else if str_eq(&n, PROVIDES_DIRECTIVE_NAME) {
            Ok(self.provides_directive_definition(alias))
        } else if str_eq(&n, REQUIRES_DIRECTIVE_NAME) {
            Ok(self.requires_directive_definition(alias))
        } else if str_eq(&n, SHAREABLE_DIRECTIVE_NAME) {
            Ok(self.shareable_directive_definition(alias))
        } else if str_eq(&n, TAG_DIRECTIVE_NAME) {
            self.tag_directive_definition(alias)
        } else {
            Err(FederationSpecError::UnsupportedFederationDirective(n))
        }
    }

    /// `scalar FieldSet`, under its name in the schema.
    pub fn fieldset_scalar_definition(&self) -> (res: ExtendedType)
        ensures
            res matches ExtendedType::Scalar { name, directives } && name@ == type_name_in_schema(
                self.link,
                "FieldSet"@,
            ) && directives@.len() == 0,
    {
        ExtendedType::Scalar {
            name: self.namespaced_type_name(FIELDSET_SCALAR_NAME, false),
            directives: Vec::new(),
        }
    }

    /// `fields: FieldSet!`.
    pub fn fields_argument_definition(&self) -> (res: InputValueDefinition)
        ensures
            input_value_view(res) == fields_argument(type_name_in_schema(self.link, "FieldSet"@)),
    {
        plain_arg("fields", Type::NonNullNamed(self.namespaced_type_name(FIELDSET_SCALAR_NAME, false)))
    }

    /// `directive @composeDirective(name: String!) repeatable on SCHEMA`
    pub fn compose_directive_definition(&self, alias: &Option<String>) -> (res: DirectiveDefinition)
        ensures
            directive_definition_view(res) == compose_definition(
                alias_or(opt_view(*alias), "composeDirective"@),
            ),
    {
        let arguments = one_argument(plain_arg("name", non_null_string("String")));
        let res = DirectiveDefinition {
            name: name_or(alias, COMPOSE_DIRECTIVE_NAME),
            arguments,
            repeatable: true,
            locations: one_string("SCHEMA"),
        };
        assert(directive_definition_view(res) == compose_definition(
            alias_or(opt_view(*alias), "composeDirective"@),
        ));
        res
    }

    /// `directive @key(fields: FieldSet!, resolvable: Boolean = true) repeatable on OBJECT | INTERFACE`
    pub fn key_directive_definition(&self, alias: &Option<String>) -> (res: DirectiveDefinition)
        ensures
            directive_definition_view(res) == key_definition(
                alias_or(opt_view(*alias), "key"@),
                type_name_in_schema(self.link, "FieldSet"@),
            ),
    {
        let fields = self.fields_argument_definition();
        let resolvable = InputValueDefinition {
            name: String::from_str("resolvable"),
            ty: Type::Named(String::from_str("Boolean")),
            default_value: Some(Value::Boolean(true)),
            directives: Vec::new(),
        };
        assert(directives_view(resolvable.directives@) =~= Seq::<DirectiveView>::empty());
        let arguments = two_arguments(fields, resolvable);
        let res = DirectiveDefinition {
            name: name_or(alias, KEY_DIRECTIVE_NAME),
            arguments,
            repeatable: true,
            locations: two_strings("OBJECT", "INTERFACE"),
        };
        assert(directive_definition_view(res) == key_definition(
            alias_or(opt_view(*alias), "key"@),
            type_name_in_schema(self.link, "FieldSet"@),
        ));
        res
    }

    /// `directive @extends on OBJECT | INTERFACE`
    pub fn extends_directive_definition(&self, alias: &Option<String>) -> (res: DirectiveDefinition)
        ensures
            directive_definition_view(res) == extends_definition(
                alias_or(opt_view(*alias), "extends"@),
            ),
    {
        let res = DirectiveDefinition {
            name: name_or(alias, EXTENDS_DIRECTIVE_NAME),
            arguments: no_arguments(),
            repeatable: false,
            locations: two_strings("OBJECT", "INTERFACE"),
        };
        assert(directive_definition_view(res) == extends_definition(
            alias_or(opt_view(*alias), "extends"@),
        ));
        res
    }

    /// `directive @external on OBJECT | FIELD_DEFINITION`
    pub fn external_directive_definition(&self, alias: &Option<String>) -> (res: DirectiveDefinition)
        ensures
            directive_definition_view(res) == external_definition(
                alias_or(opt_view(*alias), "external"@),
            ),
    {
        let res = DirectiveDefinition {
            name: name_or(alias, EXTERNAL_DIRECTIVE_NAME),
            arguments: no_arguments(),
            repeatable: false,
            locations: two_strings("OBJECT", "FIELD_DEFINITION"),
        };
        assert(directive_definition_view(res) == external_definition(
            alias_or(opt_view(*alias), "external"@),
        ));
        res
    }

    /// `directive @inaccessible on ARGUMENT_DEFINITION | ENUM | ... | UNION`; it cannot be
    /// renamed (only imported under the specification's own prefix).
    pub fn inaccessible_directive_definition(&self, alias: &Option<String>) -> (res: Result<
        DirectiveDefinition,
        FederationSpecError,
    >)
        ensures
            renames(spec_name_in_schema(self.link), opt_view(*alias), "inaccessible"@)
                ==> (res matches Err(FederationSpecError::DirectiveCannotBeRenamed(n)) && n@
                == "inaccessible"@),
            !renames(spec_name_in_schema(self.link), opt_view(*alias), "inaccessible"@)
                ==> (res matches Ok(r) && directive_definition_view(r) == inaccessible_definition()),
    {
        if self.is_renamed(alias, INACCESSIBLE_DIRECTIVE_NAME) {
            return Err(
                FederationSpecError::DirectiveCannotBeRenamed(
                    String::from_str(INACCESSIBLE_DIRECTIVE_NAME),
                ),
            );
        }
        let res = DirectiveDefinition {
            name: String::from_str(INACCESSIBLE_DIRECTIVE_NAME),
            arguments: no_arguments(),
            repeatable: false,
            locations: element_location_list(),
        };
        assert(directive_definition_view(res) == inaccessible_definition());
        Ok(res)
    }

    fn is_renamed(&self, alias: &Option<String>, name: &str) -> (res: bool)
        ensures
            res == renames(spec_name_in_schema(self.link), opt_view(*alias), name@),
    {
        match alias {
            Some(a) => {
                let expected = concat_strs(&[self.link.spec_name_in_schema().as_str(), "__", name]);
                proof {
                    reveal_with_fuel(concat_views, 4);
                }
                assert(expected@ =~= spec_name_in_schema(self.link) + "__"@ + name@);
                !str_eq(a, expected.as_str())
            },
            None => false,
        }
    }

    /// `directive @interfaceObject on OBJECT`
    pub fn interface_object_directive_definition(&self, alias: &Option<String>) -> (res:
        DirectiveDefinition)
        ensures
            directive_definition_view(res) == interface_object_definition(
                alias_or(opt_view(*alias), "interfaceObject"@),
            ),
    {
        let res = DirectiveDefinition {
            name: name_or(alias, INTF_OBJECT_DIRECTIVE_NAME),
            arguments: no_arguments(),
            repeatable: false,
            locations: one_string("OBJECT"),
        };
        assert(directive_definition_view(res) == interface_object_definition(
            alias_or(opt_view(*alias), "interfaceObject"@),
        ));
        res
    }

    /// `directive @override(from: String!) on FIELD_DEFINITION`
    pub fn override_directive_definition(&self, alias: &Option<String>) -> (res: DirectiveDefinition)
        ensures
            directive_definition_view(res) == override_definition(
                alias_or(opt_view(*alias), "override"@),
            ),
    {
        let arguments = one_argument(plain_arg("from", non_null_string("String")));
        let res = DirectiveDefinition {
            name: name_or(alias, OVERRIDE_DIRECTIVE_NAME),
            arguments,
            repeatable: false,
            locations: one_string("FIELD_DEFINITION"),
        };
        assert(directive_definition_view(res) == override_definition(
            alias_or(opt_view(*alias), "override"@),
        ));
        res
    }

    fn field_set_directive(&self, name: String) -> (res: DirectiveDefinition)
        ensures
            directive_definition_view(res) == field_set_directive_definition(
                name@,
                type_name_in_schema(self.link, "FieldSet"@),
            ),
    {
        let arguments = one_argument(self.fields_argument_definition());
        let res = DirectiveDefinition {
            name,
            arguments,
            repeatable: false,
            locations: one_string("FIELD_DEFINITION"),
        };
        assert(directive_definition_view(res) == field_set_directive_definition(
            name@,
            type_name_in_schema(self.link, "FieldSet"@),
        ));
        res
    }

    /// `directive @provides(fields: FieldSet!) on FIELD_DEFINITION`
    pub fn provides_directive_definition(&self, alias: &Option<String>) -> (res: DirectiveDefinition)
        ensures
            directive_definition_view(res) == field_set_directive_definition(
                alias_or(opt_view(*alias), "provides"@),
                type_name_in_schema(self.link, "FieldSet"@),
            ),
    {
        self.field_set_directive(name_or(alias, PROVIDES_DIRECTIVE_NAME))
    }

    /// `directive @requires(fields: FieldSet!) on FIELD_DEFINITION`
    pub fn requires_directive_definition(&self, alias: &Option<String>) -> (res: DirectiveDefinition)
        ensures
            directive_definition_view(res) == field_set_directive_definition(
                alias_or(opt_view(*alias), "requires"@),
                type_name_in_schema(self.link, "FieldSet"@),
            ),
    {
        self.field_set_directive(name_or(alias, REQUIRES_DIRECTIVE_NAME))
    }

    /// `directive @shareable repeatable on FIELD_DEFINITION | OBJECT`
    pub fn shareable_directive_definition(&self, alias: &Option<String>) -> (res: DirectiveDefinition)
        ensures
            directive_definition_view(res) == shareable_definition(
                alias_or(opt_view(*alias), "shareable"@),
            ),
    {
        let res = DirectiveDefinition {
            name: name_or(alias, SHAREABLE_DIRECTIVE_NAME),
            arguments: no_arguments(),
            repeatable: true,
            locations: two_strings("FIELD_DEFINITION", "OBJECT"),
        };
        assert(directive_definition_view(res) == shareable_definition(
            alias_or(opt_view(*alias), "shareable"@),
        ));
        res
    }

    /// `directive @tag(name: String!) repeatable on ARGUMENT_DEFINITION | ENUM | ... | UNION`;
    /// it cannot be renamed (only imported under the specification's own prefix).
    pub fn tag_directive_definition(&self, alias: &Option<String>) -> (res: Result<
        DirectiveDefinition,
        FederationSpecError,
    >)
        ensures
            renames(spec_name_in_schema(self.link), opt_view(*alias), "tag"@) ==> (res matches Err(
                FederationSpecError::DirectiveCannotBeRenamed(n),
            ) && n@ == "tag"@),
            !renames(spec_name_in_schema(self.link), opt_view(*alias), "tag"@) ==> (res matches Ok(
                r,
            ) && directive_definition_view(r) == tag_definition()),
    {
        if self.is_renamed(alias, TAG_DIRECTIVE_NAME) {
            return Err(FederationSpecError::DirectiveCannotBeRenamed(String::from_str(TAG_DIRECTIVE_NAME)));
        }
        let arguments = one_argument(plain_arg("name", non_null_string("String")));
        let res = DirectiveDefinition {
            name: String::from_str(TAG_DIRECTIVE_NAME),
            arguments,
            repeatable: true,
            locations: element_location_list(),
        };
        assert(directive_definition_view(res) == tag_definition());
        Ok(res)
    }
}

/// The specification definitions of `@link`, under the names that its own `@link` gives them.
#[derive(Debug)]
pub struct LinkSpecDefinitions {
    /// The `@link` that the definitions are named after.
    pub link: Link,
    pub import_scalar_name: String,
    pub purpose_enum_name: String,
}

/// `directive @link(url: String, as: String, import: [Import], for: link__Purpose) repeatable on SCHEMA`,
/// with the given names of the import scalar and the purpose enum.
pub open spec fn link_definition(import_scalar: Seq<char>, purpose_enum: Seq<char>) -> DirectiveDefinitionView {
    definition(
        "link"@,
        seq![
            plain_argument("url"@, TypeView::Named("String"@)),
            plain_argument("as"@, TypeView::Named("String"@)),
            plain_argument("import"@, TypeView::List(Box::new(TypeView::Named(import_scalar)))),
            plain_argument("for"@, TypeView::Named(purpose_enum)),
        ],
        true,
        seq!["SCHEMA"@],
    )
}

/// `directive @Purpose on SCHEMA`, named `name`.
pub open spec fn purpose_directive_definition(name: Seq<char>) -> DirectiveDefinitionView {
    definition(name, seq![], false, seq!["SCHEMA"@])
}

impl LinkSpecDefinitions {
    /// The definitions named after `link`.
    pub fn new(link: Link) -> (res: LinkSpecDefinitions)
        ensures
            res.import_scalar_name@ == type_name_in_schema(link, "Import"@),
            res.purpose_enum_name@ == type_name_in_schema(link, "Purpose"@),
            res.link == link,
    {
        let import_scalar_name = link.type_name_in_schema(DEFAULT_IMPORT_SCALAR_NAME);
        let purpose_enum_name = link.type_name_in_schema(DEFAULT_PURPOSE_ENUM_NAME);
        LinkSpecDefinitions { link, import_scalar_name, purpose_enum_name }
    }

    /// The definitions of link 1.0, with the scalar `Import` imported under its own name.
    pub fn default() -> (res: LinkSpecDefinitions)
        ensures
            res.link.url.identity.domain@ == APOLLO_SPEC_DOMAIN@,
            res.link.url.identity.name@ == "link"@,
            res.link.url.version == (Version { major: 1, minor: 0 }),
            res.link.spec_alias is None,
            res.link.purpose is None,
            res.link.imports@.len() == 1,
            res.link.imports@[0].element@ == "Import"@,
            !res.link.imports@[0].is_directive,
            res.link.imports@[0].alias is None,
            res.import_scalar_name@ == "Import"@,
            res.purpose_enum_name@ == "link__Purpose"@,
    {
        let mut imports: Vec<Import> = Vec::new();
        imports.push(
            Import {
                element: String::from_str("Import"),
                is_directive: false,
                alias: None,
            },
        );
        let link = Link {
            url: Url { identity: Identity::link_identity(), version: Version { major: 1, minor: 0 } },
            imports,
            purpose: None,
            spec_alias: None,
        };
        proof {
            reveal_strlit("Purpose");
            reveal_strlit("Import");
            assert("Import"@.len() == 6);
            assert("Purpose"@.len() == 7);
            assert(link.imports@[0].element@ == "Import"@);
            assert(link.imports@.drop_first() =~= Seq::<Import>::empty());
            assert(crate::link::import_index(link.imports@.drop_first(), "Purpose"@) is None);
            assert(crate::link::import_index(link.imports@, "Purpose"@) is None);
            assert(crate::link::import_index(link.imports@, "Import"@) == Some(0int));
        }
        let res = Self::new(link);
        assert(res.purpose_enum_name@ =~= "link__Purpose"@) by {
            reveal_strlit("link__Purpose");
            reveal_strlit("link");
            reveal_strlit("__");
        }
        res
    }

    /// `scalar Import`, under its name in the schema.
    pub fn import_scalar_definition(&self) -> (res: ExtendedType)
        ensures
            res matches ExtendedType::Scalar { name, directives } && name@ == self.import_scalar_name@
                && directives@.len() == 0,
    {
        ExtendedType::Scalar { name: self.import_scalar_name.clone(), directives: Vec::new() }
    }

    /// `enum link__Purpose { SECURITY EXECUTION }`, under its name in the schema.
    pub fn link_purpose_enum_definition(&self) -> (res: ExtendedType)
        ensures
            res matches ExtendedType::Enum { name, directives, values } && name@
                == self.purpose_enum_name@ && directives@.len() == 0 && values@.len() == 2
                && values@[0].value@ == "SECURITY"@ && values@[1].value@ == "EXECUTION"@
                && values@[0].directives@.len() == 0 && values@[1].directives@.len() == 0,
    {
        let mut values: Vec<EnumValueDefinition> = Vec::new();
        values.push(EnumValueDefinition { value: String::from_str("SECURITY"), directives: Vec::new() });
        values.push(EnumValueDefinition { value: String::from_str("EXECUTION"), directives: Vec::new() });
        ExtendedType::Enum { name: self.purpose_enum_name.clone(), directives: Vec::new(), values }
    }

    /// Whether the link imports the specification's purpose enum by its own name.
    pub fn imports_purpose(&self) -> (res: bool)
        ensures
            res == (crate::link::import_index(self.link.imports@, "Purpose"@) is Some),
    {
        self.link.find_import("Purpose").is_some()
    }

    /// `directive @Purpose on SCHEMA`, under the name of the purpose enum in the schema: the
    /// directive that an imported purpose brings beside the enum.
    pub fn purpose_directive_definition(&self) -> (res: DirectiveDefinition)
        ensures
            directive_definition_view(res) == purpose_directive_definition(self.purpose_enum_name@),
    {
        let mut locations: Vec<String> = Vec::new();
        locations.push(String::from_str("SCHEMA"));
        let res = DirectiveDefinition {
            name: self.purpose_enum_name.clone(),
            arguments: Vec::new(),
            repeatable: false,
            locations,
        };
        proof {
            assert(crate::schema::input_values_view(res.arguments@) =~= seq![]);
            assert(crate::schema::strings_view(res.locations@) =~= seq!["SCHEMA"@]);
        }
        res
    }

    /// `directive @link(url: String, as: String, import: [Import], for: link__Purpose) repeatable on SCHEMA`
    pub fn link_directive_definition(&self) -> (res: DirectiveDefinition)
        ensures
            directive_definition_view(res) == link_definition(
                self.import_scalar_name@,
                self.purpose_enum_name@,
            ),
    {
        let url = plain_arg("url", Type::Named(String::from_str("String")));
        let as_ = plain_arg("as", Type::Named(String::from_str("String")));
        let inner = Type::Named(self.import_scalar_name.clone());
        assert(inner@ == TypeView::Named(self.import_scalar_name@));
        let import_type = Type::List(Box::new(inner));
        assert(import_type@ == TypeView::List(Box::new(TypeView::Named(self.import_scalar_name@))));
        let import = plain_arg("import", import_type);
        let for_ = plain_arg("for", Type::Named(self.purpose_enum_name.clone()));
        let ghost views = seq![
            input_value_view(url),
            input_value_view(as_),
            input_value_view(import),
            input_value_view(for_),
        ];
        let mut arguments: Vec<InputValueDefinition> = Vec::new();
        arguments.push(url);
        arguments.push(as_);
        arguments.push(import);
        arguments.push(for_);
        assert(crate::schema::input_values_view(arguments@) =~= views);
        assert(views =~= seq![
            plain_argument("url"@, TypeView::Named("String"@)),
            plain_argument("as"@, TypeView::Named("String"@)),
            plain_argument("import"@, TypeView::List(Box::new(TypeView::Named(self.import_scalar_name@)))),
            plain_argument("for"@, TypeView::Named(self.purpose_enum_name@)),
        ]);
        let res = DirectiveDefinition {
            name: String::from_str(DEFAULT_LINK_NAME),
            arguments,
            repeatable: true,
            locations: one_string("SCHEMA"),
        };
        assert(directive_definition_view(res) == link_definition(
            self.import_scalar_name@,
            self.purpose_enum_name@,
        ));
        res
    }
}

// ----------------------------------------------------------------------------------------
// The `@link` application of a specification
// ----------------------------------------------------------------------------------------

/// How an import is written in `@link`: `{ name: element, as: displayed name }` where it is
/// aliased, else its displayed name.
pub open spec fn import_value(i: Import) -> ValueView {
    match i.alias {
        Some(_) => ValueView::Object(
            seq![
                ("name"@, ValueView::String(i.element@)),
                ("as"@, ValueView::String(imported_display_name(i))),
            ],
        ),
        None => ValueView::String(imported_display_name(i)),
    }
}

/// The textual form of a purpose.
pub open spec fn purpose_text(p: Purpose) -> Seq<char> {
    match p {
        Purpose::SECURITY => "SECURITY"@,
        Purpose::EXECUTION => "EXECUTION"@,
    }
}

/// The `@link` application for a link: `url` and `import`, then `as` and `for` where set.
pub open spec fn applied_link(link: Link) -> DirectiveView {
    let base = seq![
        ArgumentView { name: "url"@, value: ValueView::String(url_text(link.url)) },
        ArgumentView {
            name: "import"@,
            value: ValueView::List(link.imports@.map_values(|i: Import| import_value(i))),
        },
    ];
    let with_as = match link.spec_alias {
        Some(a) => base.push(ArgumentView { name: "as"@, value: ValueView::String(a@) }),
        None => base,
    };
    let with_for = match link.purpose {
        Some(p) => with_as.push(ArgumentView { name: "for"@, value: ValueView::Enum(purpose_text(p)) }),
        None => with_as,
    };
    DirectiveView { name: "link"@, arguments: with_for }
}

proof fn lemma_entries_view_two(e: Seq<(String, Value)>)
    requires
        e.len() == 2,
    ensures
        crate::ast::entries_view(e) == seq![(e[0].0@, e[0].1@), (e[1].0@, e[1].1@)],
{
    assert(e.drop_last().drop_last() =~= Seq::<(String, Value)>::empty());
    assert(e.drop_last() =~= seq![e[0]]);
    assert(crate::ast::entries_view(e.drop_last().drop_last()) =~= Seq::<(Seq<char>, ValueView)>::empty());
    assert(crate::ast::entries_view(e.drop_last()) =~= seq![(e[0].0@, e[0].1@)]);
    assert(crate::ast::entries_view(e) =~= seq![(e[0].0@, e[0].1@), (e[1].0@, e[1].1@)]);
}

fn import_to_value(i: &Import) -> (res: Value)
    ensures
        res@ == import_value(*i),
{
    match &i.alias {
        Some(_) => {
            let name_key = String::from_str("name");
            let name_value = Value::String(i.element.clone());
            let as_key = String::from_str("as");
            let as_value = Value::String(i.imported_display_name());
            assert(name_value@ == ValueView::String(i.element@));
            assert(as_value@ == ValueView::String(imported_display_name(*i)));
            let mut entries: Vec<(String, Value)> = Vec::new();
            entries.push((name_key, name_value));
            entries.push((as_key, as_value));
            proof {
                lemma_entries_view_two(entries@);
            }
            Value::Object(entries)
        },
        None => Value::String(i.imported_display_name()),
    }
}

fn applied_link_directive_of(link: &Link) -> (res: Directive)
    ensures
        res@ == applied_link(*link),
{
    let mut imports: Vec<Value> = Vec::new();
    let mut i: usize = 0;
    while i < link.imports.len()
        invariant
            i <= link.imports@.len(),
            values_view(imports@) == link.imports@.take(i as int).map_values(|x: Import| import_value(x)),
        decreases link.imports@.len() - i,
    {
        let v = import_to_value(&link.imports[i]);
        proof {
            assert(imports@.push(v).drop_last() =~= imports@);
            assert(link.imports@.take(i + 1).map_values(|x: Import| import_value(x))
                =~= link.imports@.take(i as int).map_values(|x: Import| import_value(x)).push(
                import_value(link.imports@[i as int]),
            ));
        }
        imports.push(v);
        i = i + 1;
    }
    proof {
        assert(link.imports@.take(link.imports@.len() as int) =~= link.imports@);
    }
    let mut arguments: Vec<Argument> = Vec::new();
    arguments.push(Argument { name: String::from_str("url"), value: Value::String(link.url.to_text()) });
    arguments.push(Argument { name: String::from_str("import"), value: Value::List(imports) });
    let ghost base = arguments@;
    match &link.spec_alias {
        Some(a) => {
            arguments.push(Argument { name: String::from_str("as"), value: Value::String(a.clone()) });
        },
        None => {},
    }
    let ghost with_as = arguments@;
    match &link.purpose {
        Some(p) => {
            let text = match p {
                Purpose::SECURITY => String::from_str("SECURITY"),
                Purpose::EXECUTION => String::from_str("EXECUTION"),
            };
            arguments.push(Argument { name: String::from_str("for"), value: Value::Enum(text) });
        },
        None => {},
    }
    let res = Directive { name: String::from_str(DEFAULT_LINK_NAME), arguments };
    proof {
        let spec = applied_link(*link);
        assert(crate::ast::arguments_view(base) =~= seq![
            ArgumentView { name: "url"@, value: ValueView::String(url_text(link.url)) },
            ArgumentView {
                name: "import"@,
                value: ValueView::List(link.imports@.map_values(|i: Import| import_value(i))),
            },
        ]);
        assert(crate::ast::arguments_view(res.arguments@) =~= spec.arguments);
    }
    res
}

/// A specification whose `@link` application can be written out.
pub trait AppliedFederationLink {
    /// The `@link` application, such as
    /// `@link(url: "https://specs.apollo.dev/federation/v2.3", import: ["@key"])`.
    fn applied_link_directive(&self) -> Directive;
}

impl AppliedFederationLink for FederationSpecDefinitions {
    fn applied_link_directive(&self) -> (res: Directive)
        ensures
            res@ == applied_link(self.link),
    {
        applied_link_directive_of(&self.link)
    }
}

impl AppliedFederationLink for LinkSpecDefinitions {
    fn applied_link_directive(&self) -> (res: Directive)
        ensures
            res@ == applied_link(self.link),
    {
        applied_link_directive_of(&self.link)
    }
}

// ----------------------------------------------------------------------------------------
// Keys
// ----------------------------------------------------------------------------------------

/// A `@key` of an entity type.
#[derive(Debug, PartialEq, Eq)]
pub struct Key {
    pub entity: String,
}

/// Whether a `@key` application has a string `fields` argument (its first argument of that
/// name).
pub open spec fn has_string_fields(d: Directive) -> bool {
    match first_argument_index(d.arguments@, "fields"@) {
        Some(i) => d.arguments@[i].value is String,
        None => false,
    }
}

impl Key {
    /// The selections of the key; they are not computed (always `None`).
    pub fn selections(&self) -> (res: Option<crate::executable::SelectionSet>)
        ensures
            res is None,
    {
        None
    }

    /// The key of the type `entity` that a `@key` application stands for: one where its
    /// `fields` argument is a string.
    pub fn from_directive_application(entity: &str, directive: &Directive) -> (res: Option<Key>)
        ensures
            has_string_fields(*directive) ==> (res matches Some(k) && k.entity@ == entity@),
            !has_string_fields(*directive) ==> res is None,
    {
        match directive.argument_by_name("fields") {
            Some(Value::String(_)) => Some(Key { entity: String::from_str(entity) }),
            _ => None,
        }
    }
}

/// The key directive applications of a type: those named `key_name`, in order.
pub open spec fn key_applications(directives: Seq<Directive>, key_name: Seq<char>) -> Seq<Directive>
    decreases directives.len(),
{
    if directives.len() == 0 {
        Seq::empty()
    } else {
        let before = key_applications(directives.drop_last(), key_name);
        let d = directives.last();
        if d.name@ == key_name && has_string_fields(d) {
            before.push(d)
        } else {
            before
        }
    }
}

/// The keys of the type named `entity` (its first definition): one per application of
/// the key directive (named `key_directive_name`) with a string `fields` argument, in order;
/// none where the schema does not define the type.
pub fn keys(schema: &Schema, key_directive_name: &str, entity: &str) -> (res: Vec<Key>)
    ensures
        match crate::schema::type_index(schema.types@, entity@) {
            Some(t) => res@.len() == key_applications(
                schema.types@[t].spec_directives(),
                key_directive_name@,
            ).len(),
            None => res@.len() == 0,
        },
        forall|i: int| 0 <= i < res@.len() ==> (#[trigger] res@[i]).entity@ == entity@,
{
    match schema.get_type(entity) {
        None => Vec::new(),
        Some(t) => {
            let directives = t.directives();
            let ghost ds = directives@;
            let mut out: Vec<Key> = Vec::new();
            let mut i: usize = 0;
            while i < directives.len()
                invariant
                    i <= ds.len(),
                    ds == directives@,
                    out@.len() == key_applications(ds.take(i as int), key_directive_name@).len(),
                    forall|j: int| 0 <= j < out@.len() ==> (#[trigger] out@[j]).entity@ == entity@,
                decreases ds.len() - i,
            {
                proof {
                    assert(ds.take(i + 1).drop_last() =~= ds.take(i as int));
                }
                if str_eq(&directives[i].name, key_directive_name) {
                    match Key::from_directive_application(entity, &directives[i]) {
                        Some(k) => {
                            out.push(k);
                        },
                        None => {},
                    }
                }
                i = i + 1;
            }
            proof {
                assert(ds.take(ds.len() as int) =~= ds);
            }
            out
        },
    }
}

/// The names of the directives of federation 2.
pub open spec fn federation_v2_directive_names() -> Seq<Seq<char>> {
    seq![
        "composeDirective"@,
        "key"@,
        "extends"@,
        "external"@,
        "inaccessible"@,
        "interfaceObject"@,
        "override"@,
        "provides"@,
        "requires"@,
        "shareable"@,
        "tag"@,
    ]
}

/// The names of the directives of federation 2, in order.
pub fn federation_v2_directive_name_list() -> (res: Vec<String>)
    ensures
        crate::schema::strings_view(res@) == federation_v2_directive_names(),
{
    let res = strings(
        &[
            COMPOSE_DIRECTIVE_NAME,
            KEY_DIRECTIVE_NAME,
            EXTENDS_DIRECTIVE_NAME,
            EXTERNAL_DIRECTIVE_NAME,
            INACCESSIBLE_DIRECTIVE_NAME,
            INTF_OBJECT_DIRECTIVE_NAME,
            OVERRIDE_DIRECTIVE_NAME,
            PROVIDES_DIRECTIVE_NAME,
            REQUIRES_DIRECTIVE_NAME,
            SHAREABLE_DIRECTIVE_NAME,
            TAG_DIRECTIVE_NAME,
        ],
    );
    assert(crate::schema::strings_view(res@) =~= federation_v2_directive_names());
    res
}

/// The message of an error of the federation specification definitions.
pub open spec fn unsupported_version_message(v: Version) -> Seq<char> {
    "Specified specification version "@ + version_text(v) + " is outside of supported range "@
        + version_text(min_federation_version()) + "-"@ + version_text(max_federation_version())
}

pub open spec fn unsupported_directive_message(name: Seq<char>) -> Seq<char> {
    "Unsupported federation directive import "@ + name
}

pub open spec fn cannot_rename_message(name: Seq<char>) -> Seq<char> {
    name + " directive cannot be renamed"@
}

} // verus!
