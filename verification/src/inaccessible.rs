//! The inaccessible specification: its definition, and where its elements stand in a core
//! schema.
use crate::ast::{concat_strs, concat_views, str_eq, Directive};
use crate::error::{is_internal_error, FederationError};
use crate::link::{
    directive_name_in_schema, link_of_identity, source_of_directive, source_of_type,
    type_name_in_schema, url_text, Identity, Link, LinksMetadata, OptionLinksMetadata, Url, Version,
    APOLLO_SPEC_DOMAIN,
};
use crate::federation_schema::FederationSchema;
use crate::schema::{DirectiveDefinition, ExtendedType, Schema};
use vstd::prelude::*;

verus! {

/// The message of the error for a schema that is not a core schema.
pub open spec fn not_core_message() -> Seq<char> {
    "Schema is not a core schema (add @link first)"@
}

/// The index of the first directive definition named `name`.
pub open spec fn directive_index(defs: Seq<DirectiveDefinition>, name: Seq<char>) -> Option<int>
    decreases defs.len(),
{
    if defs.len() == 0 {
        None
    } else if defs[0].name@ == name {
        Some(0)
    } else {
        match directive_index(defs.drop_first(), name) {
            Some(i) => Some(i + 1),
            None => None,
        }
    }
}

fn find_directive_definition(defs: &Vec<DirectiveDefinition>, name: &str) -> (res: Option<usize>)
    ensures
        match res {
            Some(i) => i < defs@.len() && directive_index(defs@, name@) == Some(i as int),
            None => directive_index(defs@, name@) is None,
        },
{
    let mut i: usize = 0;
    assert(defs@.subrange(0, defs@.len() as int) =~= defs@);
    while i < defs.len()
        invariant
            i <= defs@.len(),
            directive_index(defs@, name@) == match directive_index(
                defs@.subrange(i as int, defs@.len() as int),
                name@,
            ) {
                Some(k) => Some(k + i),
                None => None,
            },
        decreases defs@.len() - i,
    {
        assert(defs@.subrange(i as int, defs@.len() as int).drop_first() =~= defs@.subrange(
            i + 1,
            defs@.len() as int,
        ));
        if str_eq(&defs[i].name, name) {
            return Some(i);
        }
        i = i + 1;
    }
    None
}

/// The definition of a version of the inaccessible specification.
#[derive(Debug)]
pub struct InaccessibleSpecDefinition {
    pub url: Url,
    pub minimum_federation_version: Option<Version>,
}

/// Whether a link is to the same specification as `identity`.
pub open spec fn same_identity(l: Link, identity: Identity) -> bool {
    l.url.identity.domain@ == identity.domain@ && l.url.identity.name@ == identity.name@
}

impl InaccessibleSpecDefinition {
    /// The definition of the given version of the inaccessible specification, which needs
    /// the given federation version.
    pub fn new(version: Version, minimum_federation_version: Option<Version>) -> (res: Self)
        ensures
            res.url.identity.domain@ == APOLLO_SPEC_DOMAIN@,
            res.url.identity.name@ == "inaccessible"@,
            res.url.version == version,
            res.minimum_federation_version == minimum_federation_version,
    {
        InaccessibleSpecDefinition {
            url: Url { identity: Identity::inaccessible_identity(), version },
            minimum_federation_version,
        }
    }

    /// The url of the specification, such as `https://specs.apollo.dev/inaccessible/v0.2`.
    pub fn to_text(&self) -> (res: String)
        ensures
            res@ == url_text(self.url),
    {
        self.url.to_text()
    }

    /// The link of the schema to this specification (an internal error where the schema is
    /// not a core schema).
    pub fn link_in_schema<'a>(&self, schema: &'a FederationSchema) -> (res: Result<Option<&'a Link>, FederationError>)
        ensures
            match schema.spec_metadata() {
                None => res matches Err(e) && is_internal_error(e, not_core_message()),
                Some(m) => res matches Ok(r) && match link_of_identity(m.links@, self.url.identity) {
                    Some(i) => r == Some(&m.links@[i]),
                    None => r is None,
                },
            },
    {
        match schema.metadata() {
            None => Err(FederationError::internal(String::from_str("Schema is not a core schema (add @link first)"))),
            Some(m) => Ok(m.for_identity(&self.url.identity)),
        }
    }

    /// Whether the directive named `name_in_schema` comes from this specification (an
    /// internal error where the schema is not a core schema).
    pub fn is_spec_directive_name(&self, schema: &FederationSchema, name_in_schema: &str) -> (res: Result<bool, FederationError>)
        ensures
            match schema.spec_metadata() {
                None => res matches Err(e) && is_internal_error(e, not_core_message()),
                Some(m) => res == Ok::<bool, FederationError>(match source_of_directive(m.links@, name_in_schema@) {
                    Some((l, _)) => same_identity(m.links@[l], self.url.identity),
                    None => false,
                }),
            },
    {
        match schema.metadata() {
            None => Err(FederationError::internal(String::from_str("Schema is not a core schema (add @link first)"))),
            Some(m) => match m.source_link_of_directive(name_in_schema) {
                Some(e) => Ok(
                    e.link.url.identity.domain == self.url.identity.domain && e.link.url.identity.name
                        == self.url.identity.name,
                ),
                None => Ok(false),
            },
        }
    }

    /// Whether the type named `name_in_schema` comes from this specification (an internal
    /// error where the schema is not a core schema).
    pub fn is_spec_type_name(&self, schema: &FederationSchema, name_in_schema: &str) -> (res: Result<bool, FederationError>)
        ensures
            match schema.spec_metadata() {
                None => res matches Err(e) && is_internal_error(e, not_core_message()),
                Some(m) => res == Ok::<bool, FederationError>(match source_of_type(m.links@, name_in_schema@) {
                    Some((l, _)) => same_identity(m.links@[l], self.url.identity),
                    None => false,
                }),
            },
    {
        match schema.metadata() {
            None => Err(FederationError::internal(String::from_str("Schema is not a core schema (add @link first)"))),
            Some(m) => match m.source_link_of_type(name_in_schema) {
                Some(e) => Ok(
                    e.link.url.identity.domain == self.url.identity.domain && e.link.url.identity.name
                        == self.url.identity.name,
                ),
                None => Ok(false),
            },
        }
    }

    /// The name in the schema of the specification's directive `name_in_spec`, where the
    /// schema links the specification.
    pub fn directive_name_in_schema(&self, schema: &FederationSchema, name_in_spec: &str) -> (res: Result<Option<String>, FederationError>)
        ensures
            match schema.spec_metadata() {
                None => res matches Err(e) && is_internal_error(e, not_core_message()),
                Some(m) => res matches Ok(r) && match link_of_identity(m.links@, self.url.identity) {
                    Some(i) => r matches Some(n) && n@ == directive_name_in_schema(m.links@[i], name_in_spec@),
                    None => r is None,
                },
            },
    {
        match self.link_in_schema(schema)? {
            Some(link) => Ok(Some(link.directive_name_in_schema(name_in_spec))),
            None => Ok(None),
        }
    }

    /// The name in the schema of the specification's type `name_in_spec`, where the schema
    /// links the specification.
    pub fn type_name_in_schema(&self, schema: &FederationSchema, name_in_spec: &str) -> (res: Result<Option<String>, FederationError>)
        ensures
            match schema.spec_metadata() {
                None => res matches Err(e) && is_internal_error(e, not_core_message()),
                Some(m) => res matches Ok(r) && match link_of_identity(m.links@, self.url.identity) {
                    Some(i) => r matches Some(n) && n@ == type_name_in_schema(m.links@[i], name_in_spec@),
                    None => r is None,
                },
            },
    {
        match self.link_in_schema(schema)? {
            Some(link) => Ok(Some(link.type_name_in_schema(name_in_spec))),
            None => Ok(None),
        }
    }

    /// The definition in the schema of the specification's directive `name_in_spec`, where
    /// the schema links the specification; an internal error where the schema lacks it.
    pub fn directive_definition<'a>(&self, schema: &'a FederationSchema, name_in_spec: &str) -> (res: Result<
        Option<&'a DirectiveDefinition>,
        FederationError,
    >)
        ensures
            match schema.spec_metadata() {
                None => res matches Err(e) && is_internal_error(e, not_core_message()),
                Some(m) => match link_of_identity(m.links@, self.url.identity) {
                    None => res matches Ok(r) && r is None,
                    Some(i) => {
                        let n = directive_name_in_schema(m.links@[i], name_in_spec@);
                        match directive_index(schema.spec_schema().directive_definitions@, n) {
                            Some(k) => res matches Ok(r) && r == Some(&schema.spec_schema().directive_definitions@[k]),
                            None => res matches Err(e) && is_internal_error(
                                e,
                                "Unexpectedly could not find spec directive \"@"@ + n + "\" in schema"@,
                            ),
                        }
                    },
                },
            },
    {
        match self.directive_name_in_schema(schema, name_in_spec)? {
            Some(name) => match find_directive_definition(&schema.schema().directive_definitions, name.as_str()) {
                Some(k) => Ok(Some(&schema.schema().directive_definitions[k])),
                None => {
                    let message = concat_strs(
                        &["Unexpectedly could not find spec directive \"@", name.as_str(), "\" in schema"],
                    );
                    proof {
                        reveal_with_fuel(concat_views, 4);
                    }
                    assert(message@ =~= "Unexpectedly could not find spec directive \"@"@ + name@ + "\" in schema"@);
                    Err(FederationError::internal(message))
                },
            },
            None => Ok(None),
        }
    }

    /// The definition in the schema of the specification's type `name_in_spec`, where the
    /// schema links the specification; an internal error where the schema lacks it.
    pub fn type_definition<'a>(&self, schema: &'a FederationSchema, name_in_spec: &str) -> (res: Result<
        Option<&'a ExtendedType>,
        FederationError,
    >)
        ensures
            match schema.spec_metadata() {
                None => res matches Err(e) && is_internal_error(e, not_core_message()),
                Some(m) => match link_of_identity(m.links@, self.url.identity) {
                    None => res matches Ok(r) && r is None,
                    Some(i) => {
                        let n = type_name_in_schema(m.links@[i], name_in_spec@);
                        match crate::schema::type_index(schema.spec_schema().types@, n) {
                            Some(k) => res matches Ok(r) && r == Some(&schema.spec_schema().types@[k]),
                            None => res matches Err(e) && is_internal_error(
                                e,
                                "Unexpectedly could not find spec type \""@ + n + "\" in schema"@,
                            ),
                        }
                    },
                },
            },
    {
        match self.type_name_in_schema(schema, name_in_spec)? {
            Some(name) => match schema.schema().get_type(name.as_str()) {
                Some(t) => Ok(Some(t)),
                None => {
                    let message = concat_strs(
                        &["Unexpectedly could not find spec type \"", name.as_str(), "\" in schema"],
                    );
                    proof {
                        reveal_with_fuel(concat_views, 4);
                    }
                    assert(message@ =~= "Unexpectedly could not find spec type \""@ + name@ + "\" in schema"@);
                    Err(FederationError::internal(message))
                },
            },
            None => Ok(None),
        }
    }

    /// An application of the specification's `@inaccessible`, under its name in the
    /// schema; an internal error where the schema does not link the specification.
    pub fn inaccessible_directive(&self, schema: &FederationSchema) -> (res: Result<Directive, FederationError>)
        ensures
            match schema.spec_metadata() {
                None => res matches Err(e) && is_internal_error(e, not_core_message()),
                Some(m) => match link_of_identity(m.links@, self.url.identity) {
                    Some(i) => res matches Ok(d) && d.name@ == directive_name_in_schema(
                        m.links@[i],
                        "inaccessible"@,
                    ) && d.arguments@.len() == 0,
                    None => res matches Err(e) && is_internal_error(
                        e,
                        "Unexpectedly could not find inaccessible spec in schema"@,
                    ),
                },
            },
    {
        match self.directive_name_in_schema(schema, "inaccessible")? {
            Some(name) => Ok(Directive { name, arguments: Vec::new() }),
            None => Err(
                FederationError::internal(
                    String::from_str("Unexpectedly could not find inaccessible spec in schema"),
                ),
            ),
        }
    }
}

} // verus!
