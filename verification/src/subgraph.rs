//! Subgraphs: a named schema at a url, and its expansion with the definitions of the
//! federation and link specifications that it uses without defining them.
use crate::ast::{concat_strs, concat_views, directives_view, str_eq, Directive, DirectiveView};
use crate::error::SubgraphError;
use crate::federation_spec::{
    applied_link, cannot_rename_message, federation_directive, federation_v2_directive_name_list,
    federation_v2_directive_names, link_definition, purpose_directive_definition, max_federation_version, min_federation_version,
    unsupported_directive_message, unsupported_version_message, AppliedFederationLink,
    FederationSpecDefinitions, FederationSpecError, LinkSpecDefinitions,
};
use crate::link::{
    directive_name_in_schema, in_version_range, type_name_in_schema, Identity, Link, Version,
    APOLLO_SPEC_DOMAIN,
};
use crate::schema::{
    defines_directive, defines_type, directive_definition_view, strings_view, DirectiveDefinition,
    DirectiveDefinitionView, ExtendedType, Schema, TypeKind,
};
use vstd::prelude::*;

verus! {

/// A subgraph: its name, its url and its schema.
#[derive(Debug)]
pub struct Subgraph {
    pub name: String,
    pub url: String,
    pub schema: Schema,
}

/// Whether an identity is that of the Apollo specification `name`.
pub open spec fn is_apollo_identity(i: Identity, name: Seq<char>) -> bool {
    i.domain@ == APOLLO_SPEC_DOMAIN@ && i.name@ == name
}

pub open spec fn multiple_federation_message() -> Seq<char> {
    "invalid graphql schema - multiple @link imports for the federation specification are not supported"@
}

pub open spec fn multiple_link_message() -> Seq<char> {
    "invalid graphql schema - multiple @link imports for the link specification are not supported"@
}

/// The outcome of reading the first `n` `@link` applications of a schema, each read into a
/// link or the message of why it could not be: the indexes of its link to the federation
/// specification and of its link to the link specification, or the message of the first
/// error (an application that could not be read, a second link to either specification, or
/// an unsupported federation version).
pub open spec fn scan_links(links: Seq<Result<Link, String>>, n: int) -> Result<(Option<int>, Option<int>), Seq<char>>
    decreases n,
{
    if n <= 0 || n > links.len() {
        Ok((None, None))
    } else {
        match scan_links(links, n - 1) {
            Err(m) => Err(m),
            Ok((f, l)) => match links[n - 1] {
              Err(m) => Err(m@),
              Ok(k) => {
                if is_apollo_identity(k.url.identity, "federation"@) {
                    if f is Some {
                        Err(multiple_federation_message())
                    } else if !in_version_range(
                        k.url.version,
                        min_federation_version(),
                        max_federation_version(),
                    ) {
                        Err(unsupported_version_message(k.url.version))
                    } else {
                        Ok((Some(n - 1), l))
                    }
                } else if is_apollo_identity(k.url.identity, "link"@) {
                    if l is Some {
                        Err(multiple_link_message())
                    } else {
                        Ok((f, Some(n - 1)))
                    }
                } else {
                    Ok((f, l))
                }
              },
            },
        }
    }
}

/// Whether `l` is the link that a subgraph gets where it does not link the link
/// specification: link 1.0, importing the scalar `Import` under its own name.
pub open spec fn is_default_link_link(l: Link) -> bool {
    &&& is_apollo_identity(l.url.identity, "link"@)
    &&& l.url.version == (Version { major: 1, minor: 0 })
    &&& l.spec_alias is None
    &&& l.purpose is None
    &&& l.imports@.len() == 1
    &&& l.imports@[0].element@ == "Import"@
    &&& !l.imports@[0].is_directive
    &&& l.imports@[0].alias is None
}

/// Whether `l` is the link that a subgraph gets where it does not link the federation
/// specification: federation 2.4, importing the federation 1 directives under their own
/// names.
pub open spec fn is_default_federation_link(l: Link) -> bool {
    &&& is_apollo_identity(l.url.identity, "federation"@)
    &&& l.url.version == max_federation_version()
    &&& l.spec_alias is None
    &&& l.purpose is None
    &&& l.imports@.len() == 5
    &&& l.imports@[0].element@ == "key"@
    &&& l.imports@[1].element@ == "extends"@
    &&& l.imports@[2].element@ == "external"@
    &&& l.imports@[3].element@ == "provides"@
    &&& l.imports@[4].element@ == "requires"@
    &&& forall|i: int| 0 <= i < 5 ==> (#[trigger] l.imports@[i]).is_directive && l.imports@[i].alias is None
}

/// The names of a list of type definitions.
pub open spec fn type_names(types: Seq<ExtendedType>) -> Seq<Seq<char>> {
    types.map_values(|t: ExtendedType| t.spec_name())
}

/// The names of a list of directive definitions.
pub open spec fn definition_names(defs: Seq<DirectiveDefinitionView>) -> Seq<Seq<char>> {
    defs.map_values(|d: DirectiveDefinitionView| d.name)
}

/// The names of the enum values of a type (none for other kinds).
pub open spec fn enum_value_names(t: ExtendedType) -> Seq<Seq<char>> {
    match t {
        ExtendedType::Enum { values, .. } => values@.map_values(
            |v: crate::schema::EnumValueDefinition| v.value@,
        ),
        _ => Seq::empty(),
    }
}

/// A type definition that the expansion may add: its kind, its name and its enum values.
pub type TypeItem = (TypeKind, Seq<char>, Seq<Seq<char>>);

/// Those of `wanted` that are added to types named `existing`: each one whose name is
/// neither an existing one nor that of one added before it.
pub open spec fn added_types(existing: Seq<Seq<char>>, wanted: Seq<TypeItem>) -> Seq<TypeItem>
    decreases wanted.len(),
{
    if wanted.len() == 0 {
        Seq::empty()
    } else {
        let before = added_types(existing, wanted.drop_last());
        let w = wanted.last();
        if existing.contains(w.1) || before.map_values(|x: TypeItem| x.1).contains(w.1) {
            before
        } else {
            before.push(w)
        }
    }
}

/// Whether `new` is `old` followed by type definitions without directives that have the
/// kinds, names and enum values of `added`.
pub open spec fn extends_types(old: Seq<ExtendedType>, new: Seq<ExtendedType>, added: Seq<TypeItem>) -> bool {
    &&& new.len() == old.len() + added.len()
    &&& forall|i: int| 0 <= i < old.len() ==> new[i] == old[i]
    &&& forall|j: int|
        0 <= j < added.len() ==> {
            let t = #[trigger] new[old.len() + j];
            &&& t.spec_kind() == added[j].0
            &&& t.spec_name() == added[j].1
            &&& enum_value_names(t) == added[j].2
            &&& t.spec_directives().len() == 0
        }
}

/// The types that the link specification contributes: its purpose enum, then its import
/// scalar.
pub open spec fn link_type_items(defs: LinkSpecDefinitions) -> Seq<TypeItem> {
    seq![
        (TypeKind::Enum, defs.purpose_enum_name@, seq!["SECURITY"@, "EXECUTION"@]),
        (TypeKind::Scalar, defs.import_scalar_name@, Seq::empty()),
    ]
}

/// The directive definitions that federation adds to definitions named `existing`: for each
/// federation 2 directive in order whose name in the schema is not yet defined, its
/// definition (imported under that name); or the message of the first error.
pub open spec fn federation_additions(link: Link, existing: Seq<Seq<char>>, names: Seq<Seq<char>>) -> Result<
    Seq<DirectiveDefinitionView>,
    Seq<char>,
>
    decreases names.len(),
{
    if names.len() == 0 {
        Ok(Seq::empty())
    } else {
        match federation_additions(link, existing, names.drop_last()) {
            Err(m) => Err(m),
            Ok(before) => {
                let n = names.last();
                let ns = directive_name_in_schema(link, n);
                if existing.contains(ns) || definition_names(before).contains(ns) {
                    Ok(before)
                } else {
                    match federation_directive(link, n, Some(ns)) {
                        Some(Some(d)) => Ok(before.push(d)),
                        Some(None) => Err(cannot_rename_message(n)),
                        None => Err(unsupported_directive_message(n)),
                    }
                }
            },
        }
    }
}

pub open spec fn definitions_view(defs: Seq<DirectiveDefinition>) -> Seq<DirectiveDefinitionView> {
    defs.map_values(|d: DirectiveDefinition| directive_definition_view(d))
}

proof fn lemma_defines_type(types: Seq<ExtendedType>, name: Seq<char>)
    ensures
        defines_type(types, name) == type_names(types).contains(name),
{
    crate::schema::lemma_type_index(types, name);
    if defines_type(types, name) {
        let i = crate::schema::type_index(types, name)->0;
        assert(type_names(types)[i] == name);
    }
}

proof fn lemma_defines_directive(defs: Seq<DirectiveDefinition>, name: Seq<char>)
    ensures
        defines_directive(defs, name) == definition_names(definitions_view(defs)).contains(name),
{
    if defines_directive(defs, name) {
        let i = choose|i: int| 0 <= i < defs.len() && #[trigger] defs[i].name@ == name;
        assert(definition_names(definitions_view(defs))[i] == name);
    }
    if definition_names(definitions_view(defs)).contains(name) {
        let i = choose|i: int|
            0 <= i < defs.len() && #[trigger] definition_names(definitions_view(defs))[i] == name;
        assert(defs[i].name@ == name);
    }
}

/// Adds the type `t` where no type has its name.
fn add_type_if_missing(schema: &mut Schema, t: ExtendedType)
    ensures
        final(schema).schema_definition == old(schema).schema_definition,
        final(schema).directive_definitions == old(schema).directive_definitions,
        if type_names(old(schema).types@).contains(t.spec_name()) {
            final(schema).types@ == old(schema).types@
        } else {
            final(schema).types@ == old(schema).types@.push(t)
        },
{
    proof {
        lemma_defines_type(schema.types@, t.spec_name());
    }
    if !schema.has_type(t.name().as_str()) {
        schema.types.push(t);
    }
}

/// Whether `new` is the expansion of the subgraph schema `old` (see
/// [`Subgraph::populate_missing_type_definitions`]) with the given definitions, `res` its
/// outcome: the default `@link` applications appended to the schema definition for the
/// specifications that were not linked, the missing types added (see [`added_types`]), and
/// the directive definitions extended (see [`expansion_directives`]), or the error of the
/// latter.
pub open spec fn expands_schema(
    old: Schema,
    new: Schema,
    fed: Option<FederationSpecDefinitions>,
    link: Option<LinkSpecDefinitions>,
    res: Result<(), SubgraphError>,
) -> bool {
    let old_d = old.schema_definition.directives@;
    let new_d = new.schema_definition.directives@;
    let k = old_d.len() + if link is None { 1int } else { 0 };
    &&& new_d.len() == k + if fed is None { 1int } else { 0 }
    &&& new_d.take(old_d.len() as int) == old_d
    &&& link is None ==> exists|l: Link|
        is_default_link_link(l) && #[trigger] applied_link(l) == new_d[old_d.len() as int]@
    &&& new.schema_definition.query == old.schema_definition.query
    &&& new.schema_definition.mutation == old.schema_definition.mutation
    &&& new.schema_definition.subscription == old.schema_definition.subscription
    &&& extends_types(
        old.types@,
        new.types@,
        added_types(type_names(old.types@), expansion_type_items(fed, link)),
    )
    &&& exists|fl: Link|
        {
            &&& match fed {
                Some(d) => fl == d.link,
                None => is_default_federation_link(fl) && applied_link(fl) == new_d.last()@,
            }
            &&& match #[trigger] expansion_directives(
                definitions_view(old.directive_definitions@),
                fl,
                link,
            ) {
                Ok(v) => res is Ok && definitions_view(new.directive_definitions@) == v,
                Err(m) => res matches Err(e) && e.msg@ == m,
            }
        }
}

/// Whether `fd` holds the federation definitions read from the link at index `f`, if any.
pub open spec fn federation_definitions_of(
    links: Seq<Result<Link, String>>,
    f: Option<int>,
    fd: Option<FederationSpecDefinitions>,
) -> bool {
    match f {
        Some(i) => fd matches Some(d) && d.link == links[i]->Ok_0 && d.fieldset_scalar_name@
            == type_name_in_schema(links[i]->Ok_0, "FieldSet"@),
        None => fd is None,
    }
}

/// Whether `ld` holds the link definitions read from the link at index `l`, if any.
pub open spec fn link_definitions_of(
    links: Seq<Result<Link, String>>,
    l: Option<int>,
    ld: Option<LinkSpecDefinitions>,
) -> bool {
    match l {
        Some(i) => ld matches Some(d) && d.link == links[i]->Ok_0 && d.import_scalar_name@
            == type_name_in_schema(links[i]->Ok_0, "Import"@) && d.purpose_enum_name@
            == type_name_in_schema(links[i]->Ok_0, "Purpose"@),
        None => ld is None,
    }
}

impl Subgraph {
    /// A subgraph with the given name, url and schema.
    pub fn new(name: &str, url: &str, schema: Schema) -> (res: Subgraph)
        ensures
            res.name@ == name@,
            res.url@ == url@,
            res.schema == schema,
    {
        Subgraph { name: String::from_str(name), url: String::from_str(url), schema }
    }

    /// The definitions of the specifications that the links of a schema name (see
    /// [`scan_links`]).
    pub fn link_definitions(links: Vec<Result<Link, String>>) -> (res: Result<
        (Option<FederationSpecDefinitions>, Option<LinkSpecDefinitions>),
        SubgraphError,
    >)
        ensures
            match scan_links(links@, links@.len() as int) {
                Err(m) => res matches Err(e) && e.msg@ == m,
                Ok((f, l)) => res matches Ok((fd, ld)) && federation_definitions_of(links@, f, fd)
                    && link_definitions_of(links@, l, ld),
            },
    {
        let ghost all = links@;
        let mut rest = links;
        let mut fed: Option<FederationSpecDefinitions> = None;
        let mut lnk: Option<LinkSpecDefinitions> = None;
        let ghost mut k: int = 0;
        let ghost mut fi: Option<int> = None;
        let ghost mut li: Option<int> = None;
        while rest.len() > 0
            invariant
                0 <= k <= all.len(),
                all == links@,
                rest@ == all.subrange(k, all.len() as int),
                scan_links(all, k) == Ok::<(Option<int>, Option<int>), Seq<char>>((fi, li)),
                match fi {
                    Some(i) => 0 <= i < k && (fed matches Some(d) && d.link == all[i]->Ok_0
                        && d.fieldset_scalar_name@ == type_name_in_schema(all[i]->Ok_0, "FieldSet"@)),
                    None => fed is None,
                },
                match li {
                    Some(i) => 0 <= i < k && (lnk matches Some(d) && d.link == all[i]->Ok_0
                        && d.import_scalar_name@ == type_name_in_schema(all[i]->Ok_0, "Import"@)
                        && d.purpose_enum_name@ == type_name_in_schema(all[i]->Ok_0, "Purpose"@)),
                    None => lnk is None,
                },
            decreases rest@.len(),
        {
            let item = rest.remove(0);
            proof {
                assert(item == all[k]);
            }
            let link = match item {
                Ok(l) => l,
                Err(m) => {
                    proof {
                        lemma_scan_links_error(all, k + 1, all.len() as int);
                    }
                    return Err(SubgraphError { msg: m });
                },
            };
            let is_federation = str_eq(&link.url.identity.domain, APOLLO_SPEC_DOMAIN) && str_eq(
                &link.url.identity.name,
                "federation",
            );
            let is_link = str_eq(&link.url.identity.domain, APOLLO_SPEC_DOMAIN) && str_eq(
                &link.url.identity.name,
                "link",
            );
            if is_federation {
                if fed.is_some() {
                    proof {
                        assert(is_apollo_identity(all[k]->Ok_0.url.identity, "federation"@));
                        assert(fi is Some);
                        assert(scan_links(all, k + 1) == Err::<(Option<int>, Option<int>), Seq<char>>(multiple_federation_message()));
                        lemma_scan_links_error(all, k + 1, all.len() as int);
                    }
                    return Err(
                        SubgraphError {
                            msg: String::from_str(
                                "invalid graphql schema - multiple @link imports for the federation specification are not supported",
                            ),
                        },
                    );
                }
                match FederationSpecDefinitions::from_link(link) {
                    Ok(d) => {
                        fed = Some(d);
                        proof {
                            fi = Some(k);
                        }
                    },
                    Err(e) => {
                        proof {
                            lemma_scan_links_error(all, k + 1, all.len() as int);
                        }
                        return Err(SubgraphError { msg: e.message() });
                    },
                }
            } else if is_link {
                if lnk.is_some() {
                    proof {
                        lemma_scan_links_error(all, k + 1, all.len() as int);
                    }
                    return Err(
                        SubgraphError {
                            msg: String::from_str(
                                "invalid graphql schema - multiple @link imports for the link specification are not supported",
                            ),
                        },
                    );
                }
                lnk = Some(LinkSpecDefinitions::new(link));
                proof {
                    li = Some(k);
                }
            }
            proof {
                k = k + 1;
            }
        }
        Ok((fed, lnk))
    }

    /// Adds the definitions of the link specification that the schema lacks: its purpose
    /// enum, its import scalar (see [`link_type_items`]) and `@link` itself.
    pub fn populate_missing_link_definitions(schema: &mut Schema, defs: &LinkSpecDefinitions) -> (res:
        Result<(), SubgraphError>)
        ensures
            res is Ok,
            final(schema).schema_definition == old(schema).schema_definition,
            extends_types(
                old(schema).types@,
                final(schema).types@,
                added_types(type_names(old(schema).types@), link_type_items(*defs)),
            ),
            if defines_directive(old(schema).directive_definitions@, "link"@) {
                final(schema).directive_definitions@ == old(schema).directive_definitions@
            } else {
                final(schema).directive_definitions@.len() == old(schema).directive_definitions@.len()
                    + 1 && final(schema).directive_definitions@.drop_last()
                    == old(schema).directive_definitions@ && directive_definition_view(
                    final(schema).directive_definitions@.last(),
                ) == link_definition(defs.import_scalar_name@, defs.purpose_enum_name@)
            },
    {
        let ghost old_types = schema.types@;
        let purpose = defs.link_purpose_enum_definition();
        let import = defs.import_scalar_definition();
        proof {
            assert(enum_value_names(purpose) =~= seq!["SECURITY"@, "EXECUTION"@]);
            assert(enum_value_names(import) =~= Seq::<Seq<char>>::empty());
        }
        let ghost purpose_v = purpose;
        let ghost import_v = import;
        add_type_if_missing(schema, purpose);
        let ghost mid_types = schema.types@;
        add_type_if_missing(schema, import);
        proof {
            let items = link_type_items(*defs);
            let added = added_types(type_names(old_types), items);
            assert(items.drop_last() =~= seq![items[0]]);
            assert(items.drop_last().drop_last() =~= Seq::<TypeItem>::empty());
            assert(added_types(type_names(old_types), items.drop_last().drop_last()) =~= Seq::<
                TypeItem,
            >::empty());
            let a1 = added_types(type_names(old_types), items.drop_last());
            if type_names(old_types).contains(defs.purpose_enum_name@) {
                assert(a1 =~= Seq::<TypeItem>::empty());
                assert(mid_types == old_types);
            } else {
                assert(a1 =~= seq![items[0]]);
                assert(mid_types == old_types.push(purpose_v));
                assert(type_names(mid_types) =~= type_names(old_types).push(defs.purpose_enum_name@));
            }
            assert(a1.map_values(|x: TypeItem| x.1).contains(defs.import_scalar_name@)
                || type_names(old_types).contains(defs.import_scalar_name@)
                <==> type_names(mid_types).contains(defs.import_scalar_name@)) by {
                if !type_names(old_types).contains(defs.purpose_enum_name@) {
                    assert(a1.map_values(|x: TypeItem| x.1) =~= seq![defs.purpose_enum_name@]);
                    if type_names(mid_types).contains(defs.import_scalar_name@) {
                        let j = choose|j: int|
                            0 <= j < type_names(mid_types).len() && type_names(mid_types)[j]
                                == defs.import_scalar_name@;
                        if j < old_types.len() {
                            assert(type_names(old_types)[j] == defs.import_scalar_name@);
                        } else {
                            assert(a1.map_values(|x: TypeItem| x.1)[0] == defs.import_scalar_name@);
                        }
                    }
                    if type_names(old_types).contains(defs.import_scalar_name@) {
                        let j = choose|j: int|
                            0 <= j < type_names(old_types).len() && type_names(old_types)[j]
                                == defs.import_scalar_name@;
                        assert(type_names(mid_types)[j] == defs.import_scalar_name@);
                    }
                    if a1.map_values(|x: TypeItem| x.1).contains(defs.import_scalar_name@) {
                        assert(type_names(mid_types)[old_types.len() as int]
                            == defs.import_scalar_name@);
                    }
                } else {
                    assert(a1.map_values(|x: TypeItem| x.1) =~= Seq::<Seq<char>>::empty());
                }
            }
            assert(extends_types(old_types, schema.types@, added));
        }
        if !schema.has_directive_definition("link") {
            schema.directive_definitions.push(defs.link_directive_definition());
            proof {
                assert(schema.directive_definitions@.drop_last() =~= old(
                    schema,
                ).directive_definitions@);
            }
        }
        Ok(())
    }

    /// Adds the definitions of the federation specification that the schema lacks: its
    /// field set scalar, and the federation 2 directives whose names in the schema are not
    /// defined (see [`federation_additions`]).
    pub fn populate_missing_federation_definitions(
        schema: &mut Schema,
        defs: FederationSpecDefinitions,
    ) -> (res: Result<(), SubgraphError>)
        ensures
            final(schema).schema_definition == old(schema).schema_definition,
            extends_types(
                old(schema).types@,
                final(schema).types@,
                added_types(
                    type_names(old(schema).types@),
                    seq![(TypeKind::Scalar, defs.fieldset_scalar_name@, Seq::<Seq<char>>::empty())],
                ),
            ),
            match federation_additions(
                defs.link,
                definition_names(definitions_view(old(schema).directive_definitions@)),
                federation_v2_directive_names(),
            ) {
                Ok(added) => res is Ok && definitions_view(final(schema).directive_definitions@)
                    == definitions_view(old(schema).directive_definitions@) + added,
                Err(m) => res matches Err(e) && e.msg@ == m,
            },
    {
        let ghost old_types = schema.types@;
        let ghost old_defs = schema.directive_definitions@;
        let scalar = ExtendedType::Scalar { name: defs.fieldset_scalar_name.clone(), directives: Vec::new() };
        let ghost scalar_v = scalar;
        add_type_if_missing(schema, scalar);
        proof {
            let items = seq![(TypeKind::Scalar, defs.fieldset_scalar_name@, Seq::<Seq<char>>::empty())];
            assert(items.drop_last() =~= Seq::<TypeItem>::empty());
            assert(added_types(type_names(old_types), items.drop_last()) =~= Seq::<TypeItem>::empty());
            assert(Seq::<TypeItem>::empty().map_values(|x: TypeItem| x.1) =~= Seq::<Seq<char>>::empty());
            assert(items.last() == (TypeKind::Scalar, defs.fieldset_scalar_name@, Seq::<Seq<char>>::empty()));
            assert(enum_value_names(scalar_v) =~= Seq::<Seq<char>>::empty());
            if !type_names(old_types).contains(defs.fieldset_scalar_name@) {
                assert(added_types(type_names(old_types), items) =~= items);
                assert(schema.types@ == old_types.push(scalar_v));
                assert(schema.types@[old_types.len() as int + 0] == scalar_v);
            } else {
                assert(added_types(type_names(old_types), items) =~= Seq::<TypeItem>::empty());
            }
            assert(extends_types(old_types, schema.types@, added_types(type_names(old_types), items)));
        }
        let names = federation_v2_directive_name_list();
        let ghost existing = definition_names(definitions_view(old_defs));
        let ghost wanted = federation_v2_directive_names();
        let mut i: usize = 0;
        proof {
            assert(definitions_view(old_defs) + Seq::<DirectiveDefinitionView>::empty() =~= definitions_view(old_defs));
        }
        while i < names.len()
            invariant
                i <= names@.len(),
                strings_view(names@) == wanted,
                wanted == federation_v2_directive_names(),
                wanted.len() == 11,
                existing == definition_names(definitions_view(old_defs)),
                old_types == old(schema).types@,
                old_defs == old(schema).directive_definitions@,
                schema.schema_definition == old(schema).schema_definition,
                extends_types(
                    old_types,
                    schema.types@,
                    added_types(
                        type_names(old_types),
                        seq![(TypeKind::Scalar, defs.fieldset_scalar_name@, Seq::<Seq<char>>::empty())],
                    ),
                ),
                federation_additions(defs.link, existing, wanted.take(i as int)) matches Ok(added)
                    && definitions_view(schema.directive_definitions@) == definitions_view(old_defs)
                    + added,
            decreases names@.len() - i,
        {
            let ghost before = federation_additions(defs.link, existing, wanted.take(i as int))->Ok_0;
            proof {
                assert(wanted.take(i + 1).drop_last() =~= wanted.take(i as int));
                assert(wanted.take(i + 1).last() == names@[i as int]@);
            }
            let namespaced = defs.namespaced_type_name(names[i].as_str(), true);
            proof {
                lemma_defines_directive(schema.directive_definitions@, namespaced@);
                assert(definition_names(definitions_view(schema.directive_definitions@))
                    =~= existing + definition_names(before));
                assert(definition_names(definitions_view(schema.directive_definitions@)).contains(
                    namespaced@,
                ) <==> (existing.contains(namespaced@) || definition_names(before).contains(
                    namespaced@,
                ))) by {
                    let all = definition_names(definitions_view(schema.directive_definitions@));
                    if all.contains(namespaced@) {
                        let j = choose|j: int| 0 <= j < all.len() && all[j] == namespaced@;
                        if j < existing.len() {
                            assert(existing[j] == namespaced@);
                        } else {
                            assert(definition_names(before)[j - existing.len()] == namespaced@);
                        }
                    }
                    if existing.contains(namespaced@) {
                        let j = choose|j: int| 0 <= j < existing.len() && existing[j] == namespaced@;
                        assert(all[j] == namespaced@);
                    }
                    if definition_names(before).contains(namespaced@) {
                        let j = choose|j: int|
                            0 <= j < definition_names(before).len() && definition_names(before)[j]
                                == namespaced@;
                        assert(all[existing.len() + j] == namespaced@);
                    }
                }
            }
            let ghost ns = namespaced@;
            if !schema.has_directive_definition(namespaced.as_str()) {
                let alias = Some(namespaced);
                match defs.directive_definition(names[i].as_str(), &alias) {
                    Ok(d) => {
                        let ghost dv = directive_definition_view(d);
                        let ghost cur = schema.directive_definitions@;
                        schema.directive_definitions.push(d);
                        proof {
                            assert(schema.directive_definitions@ == cur.push(d));
                            assert(definitions_view(cur.push(d)) =~= definitions_view(cur).push(dv));
                            assert(definitions_view(schema.directive_definitions@) =~= definitions_view(old_defs) + before.push(dv));
                        }
                    },
                    Err(e) => {
                        let msg = e.message();
                        proof {
                            let n = names@[i as int]@;
                            assert(n == wanted[i as int]);
                            assert(opt_view_some(alias, ns));
                            match federation_directive(defs.link, n, Some(ns)) {
                                Some(None) => {
                                    assert(msg@ == cannot_rename_message(n));
                                },
                                None => {
                                    assert(msg@ == unsupported_directive_message(n));
                                },
                                Some(Some(_)) => {},
                            }
                            assert(wanted.take(i + 1).last() == n);
                            assert(directive_name_in_schema(defs.link, n) == ns);
                            assert(federation_additions(defs.link, existing, wanted.take(i + 1)) == Err::<
                                Seq<DirectiveDefinitionView>,
                                Seq<char>,
                            >(msg@));
                            lemma_federation_additions_error(defs.link, existing, wanted, i as int + 1);
                            assert(wanted.take(11) =~= wanted);
                            assert(old_types == old(schema).types@);
                        }
                        return Err(SubgraphError { msg });
                    },
                }
            }
            i = i + 1;
        }
        proof {
            assert(wanted.take(11) =~= wanted);
            assert(old_types == old(schema).types@);
            assert(existing == definition_names(definitions_view(old(schema).directive_definitions@)));
            assert(wanted == federation_v2_directive_names());
            assert(federation_additions(defs.link, existing, wanted) is Ok);
            let added = federation_additions(defs.link, existing, wanted)->Ok_0;
            assert(definitions_view(schema.directive_definitions@) == definitions_view(old(schema).directive_definitions@) + added);
        }
        Ok(())
    }
}

spec fn opt_view_some(o: Option<String>, v: Seq<char>) -> bool {
    crate::federation_spec::opt_view(o) == Some(v)
}

proof fn lemma_scan_links_error(links: Seq<Result<Link, String>>, i: int, n: int)
    requires
        0 < i <= n <= links.len(),
        scan_links(links, i) is Err,
    ensures
        scan_links(links, n) == scan_links(links, i),
    decreases n - i,
{
    if i < n {
        lemma_scan_links_error(links, i, n - 1);
    }
}

proof fn lemma_federation_additions_error(link: Link, existing: Seq<Seq<char>>, names: Seq<Seq<char>>, i: int)
    requires
        0 < i <= names.len(),
        federation_additions(link, existing, names.take(i)) is Err,
    ensures
        federation_additions(link, existing, names) == federation_additions(link, existing, names.take(i)),
    decreases names.len() - i,
{
    if i < names.len() {
        assert(names.take(i + 1).drop_last() =~= names.take(i));
        lemma_federation_additions_error(link, existing, names, i + 1);
    } else {
        assert(names.take(i) =~= names);
    }
}

/// The names of the purpose enum and of the import scalar that the link specification
/// contributes: those of `defs`, else those of link 1.0 by default.
pub open spec fn link_type_names(defs: Option<LinkSpecDefinitions>) -> (Seq<char>, Seq<char>) {
    match defs {
        Some(d) => (d.purpose_enum_name@, d.import_scalar_name@),
        None => ("link__Purpose"@, "Import"@),
    }
}

/// The name of the field set scalar: that of `defs`, else that of federation 2.4 by default.
pub open spec fn fieldset_name(defs: Option<FederationSpecDefinitions>) -> Seq<char> {
    match defs {
        Some(d) => d.fieldset_scalar_name@,
        None => "federation__FieldSet"@,
    }
}

/// The directive definitions of a subgraph after its expansion, from those it had: `@link`
/// where it was not defined (taking the import scalar and purpose enum named by `link`),
/// then the purpose directive where `link` imports the purpose (see [`purpose_stage`]),
/// then the federation additions of `fed_link` (see [`federation_additions`]); or the
/// message of the first error of the latter.
pub open spec fn expansion_directives(
    old: Seq<DirectiveDefinitionView>,
    fed_link: Link,
    link: Option<LinkSpecDefinitions>,
) -> Result<Seq<DirectiveDefinitionView>, Seq<char>> {
    let after_link = purpose_stage(
        if definition_names(old).contains("link"@) {
            old
        } else {
            old.push(link_definition(link_type_names(link).1, link_type_names(link).0))
        },
        link,
    );
    match federation_additions(
        fed_link,
        definition_names(after_link),
        federation_v2_directive_names(),
    ) {
        Ok(added) => Ok(after_link + added),
        Err(m) => Err(m),
    }
}

/// The directive definitions `defs` with, where a link to the link specification imports its
/// purpose enum and no directive has the enum's name yet, the purpose directive (see
/// [`LinkSpecDefinitions::purpose_directive_definition`]) appended.
pub open spec fn purpose_stage(
    defs: Seq<DirectiveDefinitionView>,
    link: Option<LinkSpecDefinitions>,
) -> Seq<DirectiveDefinitionView> {
    match link {
        Some(d) => if crate::link::import_index(d.link.imports@, "Purpose"@) is Some
            && !definition_names(defs).contains(d.purpose_enum_name@) {
            defs.push(purpose_directive_definition(d.purpose_enum_name@))
        } else {
            defs
        },
        None => defs,
    }
}

/// The types that the expansion of a subgraph adds: the purpose enum, the import scalar and
/// the field set scalar, each where no type has its name yet.
pub open spec fn expansion_type_items(
    fed: Option<FederationSpecDefinitions>,
    link: Option<LinkSpecDefinitions>,
) -> Seq<TypeItem> {
    seq![
        (TypeKind::Enum, link_type_names(link).0, seq!["SECURITY"@, "EXECUTION"@]),
        (TypeKind::Scalar, link_type_names(link).1, Seq::empty()),
        (TypeKind::Scalar, fieldset_name(fed), Seq::empty()),
    ]
}

proof fn lemma_added_types_append(existing: Seq<Seq<char>>, a: Seq<TypeItem>, b: Seq<TypeItem>)
    ensures
        added_types(existing, a + b) == added_types(existing, a) + added_types(
            existing + added_types(existing, a).map_values(|x: TypeItem| x.1),
            b,
        ),
    decreases b.len(),
{
    let aa = added_types(existing, a);
    let ex2 = existing + aa.map_values(|x: TypeItem| x.1);
    if b.len() == 0 {
        assert(a + b =~= a);
        assert(added_types(ex2, b) =~= Seq::<TypeItem>::empty());
        assert(aa + Seq::<TypeItem>::empty() =~= aa);
    } else {
        assert((a + b).drop_last() =~= a + b.drop_last());
        lemma_added_types_append(existing, a, b.drop_last());
        let before = added_types(existing, a + b.drop_last());
        let bb = added_types(ex2, b.drop_last());
        assert(before == aa + bb);
        let w = b.last();
        assert((a + b).last() == w);
        let in1 = existing.contains(w.1) || before.map_values(|x: TypeItem| x.1).contains(w.1);
        let in2 = ex2.contains(w.1) || bb.map_values(|x: TypeItem| x.1).contains(w.1);
        assert(before.map_values(|x: TypeItem| x.1) =~= aa.map_values(|x: TypeItem| x.1) + bb.map_values(
            |x: TypeItem| x.1,
        ));
        assert(in1 == in2) by {
            let am = aa.map_values(|x: TypeItem| x.1);
            let bm = bb.map_values(|x: TypeItem| x.1);
            if existing.contains(w.1) {
                let j = choose|j: int| 0 <= j < existing.len() && existing[j] == w.1;
                assert(ex2[j] == w.1);
            }
            if (am + bm).contains(w.1) {
                let j = choose|j: int| 0 <= j < (am + bm).len() && (am + bm)[j] == w.1;
                if j < am.len() {
                    assert(ex2[existing.len() + j] == w.1);
                } else {
                    assert(bm[j - am.len()] == w.1);
                }
            }
            if ex2.contains(w.1) {
                let j = choose|j: int| 0 <= j < ex2.len() && ex2[j] == w.1;
                if j < existing.len() {
                    assert(existing[j] == w.1);
                } else {
                    assert((am + bm)[j - existing.len()] == w.1);
                }
            }
            if bm.contains(w.1) {
                let j = choose|j: int| 0 <= j < bm.len() && bm[j] == w.1;
                assert((am + bm)[am.len() + j] == w.1);
            }
        }
        if in1 {
            assert(added_types(existing, a + b) == before);
            assert(added_types(ex2, b) == bb);
        } else {
            assert(added_types(existing, a + b) == before.push(w));
            assert(added_types(ex2, b) == bb.push(w));
            assert(aa + bb.push(w) =~= (aa + bb).push(w));
        }
    }
}

proof fn lemma_extends_types_trans(
    a: Seq<ExtendedType>,
    b: Seq<ExtendedType>,
    c: Seq<ExtendedType>,
    x: Seq<TypeItem>,
    y: Seq<TypeItem>,
)
    requires
        extends_types(a, b, x),
        extends_types(b, c, y),
    ensures
        extends_types(a, c, x + y),
        type_names(b) == type_names(a) + x.map_values(|t: TypeItem| t.1),
{
    assert forall|j: int| 0 <= j < (x + y).len() implies {
        let t = #[trigger] c[a.len() + j];
        &&& t.spec_kind() == (x + y)[j].0
        &&& t.spec_name() == (x + y)[j].1
        &&& enum_value_names(t) == (x + y)[j].2
        &&& t.spec_directives().len() == 0
    } by {
        if j < x.len() {
            assert(c[a.len() + j] == b[a.len() + j]);
        } else {
            assert(c[a.len() + j] == c[b.len() + (j - x.len())]);
        }
    }
    assert(type_names(b) =~= type_names(a) + x.map_values(|t: TypeItem| t.1)) by {
        assert forall|j: int| 0 <= j < type_names(b).len() implies type_names(b)[j] == (type_names(a)
            + x.map_values(|t: TypeItem| t.1))[j] by {
            if j >= a.len() {
                assert(b[a.len() + (j - a.len())].spec_name() == x[j - a.len()].1);
            }
        }
    }
}

impl Subgraph {
    /// Adds to a subgraph schema what it uses of the link and federation specifications
    /// without defining it: a `@link` to each specification that it does not link (link 1.0
    /// and federation 2.4), then the link definitions (see
    /// [`Subgraph::populate_missing_link_definitions`]), then the federation ones (see
    /// [`Subgraph::populate_missing_federation_definitions`]).
    /// Adds the purpose directive where the link specification's link imports its purpose
    /// enum and no directive of that name is defined yet (see [`purpose_stage`]).
    pub fn populate_imported_purpose_directive(schema: &mut Schema, defs: &LinkSpecDefinitions)
        ensures
            final(schema).schema_definition == old(schema).schema_definition,
            final(schema).types@ == old(schema).types@,
            definitions_view(final(schema).directive_definitions@) == purpose_stage(
                definitions_view(old(schema).directive_definitions@),
                Some(*defs),
            ),
    {
        proof {
            lemma_defines_directive(schema.directive_definitions@, defs.purpose_enum_name@);
        }
        if defs.imports_purpose() && !schema.has_directive_definition(defs.purpose_enum_name.as_str()) {
            schema.directive_definitions.push(defs.purpose_directive_definition());
            proof {
                assert(definitions_view(schema.directive_definitions@) =~= definitions_view(
                    old(schema).directive_definitions@,
                ).push(purpose_directive_definition(defs.purpose_enum_name@)));
            }
        }
    }

    pub fn populate_missing_type_definitions(
        schema: &mut Schema,
        imported_federation_definitions: Option<FederationSpecDefinitions>,
        imported_link_definitions: Option<LinkSpecDefinitions>,
    ) -> (res: Result<(), SubgraphError>)
        ensures
            expands_schema(
                *old(schema),
                *final(schema),
                imported_federation_definitions,
                imported_link_definitions,
                res,
            ),
    {
        let ghost old_types = schema.types@;
        let (link_defs, linked) = match imported_link_definitions {
            Some(d) => (d, true),
            None => {
                let d = LinkSpecDefinitions::default();
                let applied = d.applied_link_directive();
                proof {
                    assert(is_default_link_link(d.link));
                }
                schema.schema_definition.directives.push(applied);
                (d, false)
            },
        };
        let ghost after_link_push = schema.schema_definition.directives@;
        let ghost link_items = link_type_items(link_defs);
        Self::populate_missing_link_definitions(schema, &link_defs)?;
        let ghost link_only = schema.directive_definitions@;
        if linked {
            Self::populate_imported_purpose_directive(schema, &link_defs);
        }
        let ghost mid_types = schema.types@;
        let ghost mid_defs = schema.directive_definitions@;
        let fed_defs = match imported_federation_definitions {
            Some(d) => d,
            None => {
                let d = match FederationSpecDefinitions::default() {
                    Ok(d) => d,
                    Err(e) => {
                        return Err(SubgraphError { msg: e.message() });
                    },
                };
                let applied = d.applied_link_directive();
                proof {
                    assert(is_default_federation_link(d.link));
                }
                schema.schema_definition.directives.push(applied);
                d
            },
        };
        let ghost fed_item = seq![(TypeKind::Scalar, fed_defs.fieldset_scalar_name@, Seq::<Seq<char>>::empty())];
        let ghost link_d = schema.directive_definitions@;
        let r = Self::populate_missing_federation_definitions(schema, fed_defs);
        proof {
            let items = expansion_type_items(imported_federation_definitions, imported_link_definitions);
            assert(items =~= link_items + fed_item);
            lemma_added_types_append(type_names(old_types), link_items, fed_item);
            lemma_extends_types_trans(
                old_types,
                mid_types,
                schema.types@,
                added_types(type_names(old_types), link_items),
                added_types(type_names(mid_types), fed_item),
            );
            let ov = definitions_view(old(schema).directive_definitions@);
            lemma_defines_directive(old(schema).directive_definitions@, "link"@);
            if !definition_names(ov).contains("link"@) {
                let ld = link_definition(
                    link_type_names(imported_link_definitions).1,
                    link_type_names(imported_link_definitions).0,
                );
                assert(definitions_view(link_only) =~= ov.push(ld)) by {
                    assert forall|i: int| 0 <= i < ov.len() implies definitions_view(link_only)[i]
                        == ov[i] by {
                        assert(link_only[i] == link_only.drop_last()[i]);
                    }
                }
            }
            let fl = fed_defs.link;
            assert(schema.schema_definition.directives@.take(
                old(schema).schema_definition.directives@.len() as int,
            ) =~= old(schema).schema_definition.directives@);
            assert(definitions_view(link_only) == (if definition_names(ov).contains("link"@) { ov } else { ov.push(link_definition(
                    link_type_names(imported_link_definitions).1,
                    link_type_names(imported_link_definitions).0,
                )) }));
            assert(definitions_view(link_d) == purpose_stage(
                definitions_view(link_only),
                imported_link_definitions,
            ));
            assert(match imported_federation_definitions {
                        Some(d) => fl == d.link,
                        None => is_default_federation_link(fl) && applied_link(fl)
                            == schema.schema_definition.directives@.last()@,
                    });
            assert(match expansion_directives(ov, fl, imported_link_definitions) {
                        Ok(v) => r is Ok && definitions_view(schema.directive_definitions@) == v,
                        Err(m) => r matches Err(e) && e.msg@ == m,
                    });
        }
        r
    }

    /// The subgraph `name` at `url` whose schema is `schema` expanded (see
    /// [`Subgraph::populate_missing_type_definitions`]) with the definitions of the
    /// specifications that its `@link` applications name, each read into a link or the
    /// message of why it could not be (see [`Subgraph::link_definitions`]).
    pub fn parse_and_expand(
        name: &str,
        url: &str,
        schema: Schema,
        links: Vec<Result<Link, String>>,
    ) -> (res: Result<Subgraph, SubgraphError>)
        ensures
            match scan_links(links@, links@.len() as int) {
                Err(m) => res matches Err(e) && e.msg@ == m,
                Ok((f, l)) => exists|
                    fd: Option<FederationSpecDefinitions>,
                    ld: Option<LinkSpecDefinitions>,
                    expanded: Schema,
                    outcome: Result<(), SubgraphError>,
                |
                    {
                        &&& federation_definitions_of(links@, f, fd)
                        &&& link_definitions_of(links@, l, ld)
                        &&& #[trigger] expands_schema(schema, expanded, fd, ld, outcome)
                        &&& match outcome {
                            Ok(_) => res matches Ok(sub) && sub.name@ == name@ && sub.url@ == url@
                                && sub.schema == expanded,
                            Err(e) => res matches Err(e2) && e2.msg@ == e.msg@,
                        }
                    },
            },
    {
        let ghost all = links@;
        let (fed, lnk) = Self::link_definitions(links)?;
        let ghost fd = fed;
        let ghost ld = lnk;
        let mut expanded = schema;
        let outcome = Self::populate_missing_type_definitions(&mut expanded, fed, lnk);
        let ghost out = outcome;
        match outcome {
            Ok(()) => {
                let sub = Subgraph::new(name, url, expanded);
                proof {
                    assert(expands_schema(schema, sub.schema, fd, ld, out));
                }
                Ok(sub)
            },
            Err(e) => {
                proof {
                    assert(expands_schema(schema, expanded, fd, ld, out));
                }
                Err(e)
            },
        }
    }
}

/// A set of subgraphs, in the order in which they were added, with distinct names.
#[derive(Debug)]
pub struct Subgraphs {
    subgraphs: Vec<Subgraph>,
}

/// The names of a list of subgraphs.
pub open spec fn subgraph_names(s: Seq<Subgraph>) -> Seq<Seq<char>> {
    s.map_values(|g: Subgraph| g.name@)
}

impl Subgraphs {
    /// The subgraphs, in the order in which they were added.
    pub closed spec fn spec_subgraphs(&self) -> Seq<Subgraph> {
        self.subgraphs@
    }

    /// No two subgraphs have the same name.
    pub closed spec fn wf(&self) -> bool {
        subgraph_names(self.subgraphs@).no_duplicates()
    }

    /// No subgraphs.
    pub fn new() -> (res: Subgraphs)
        ensures
            res.wf(),
            res.spec_subgraphs().len() == 0,
    {
        let res = Subgraphs { subgraphs: Vec::new() };
        assert(subgraph_names(res.subgraphs@) =~= Seq::<Seq<char>>::empty());
        res
    }

    fn position(&self, name: &str) -> (res: Option<usize>)
        ensures
            match res {
                Some(i) => i < self.spec_subgraphs().len() && self.spec_subgraphs()[i as int].name@
                    == name@,
                None => !subgraph_names(self.spec_subgraphs()).contains(name@),
            },
    {
        let mut i: usize = 0;
        while i < self.subgraphs.len()
            invariant
                i <= self.subgraphs@.len(),
                forall|j: int| 0 <= j < i ==> self.subgraphs@[j].name@ != name@,
            decreases self.subgraphs@.len() - i,
        {
            if str_eq(&self.subgraphs[i].name, name) {
                return Some(i);
            }
            i = i + 1;
        }
        proof {
            if subgraph_names(self.subgraphs@).contains(name@) {
                let j = choose|j: int|
                    0 <= j < subgraph_names(self.subgraphs@).len() && subgraph_names(
                        self.subgraphs@,
                    )[j] == name@;
                assert(self.subgraphs@[j].name@ == name@);
            }
        }
        None
    }

    /// Adds a subgraph; an error where one with its name exists already.
    pub fn add(&mut self, subgraph: Subgraph) -> (res: Result<(), SubgraphError>)
        requires
            old(self).wf(),
        ensures
            final(self).wf(),
            subgraph_names(old(self).spec_subgraphs()).contains(subgraph.name@) ==> (res matches Err(e)
                && e.msg@ == "A subgraph named "@ + subgraph.name@ + " already exists"@
                && final(self).spec_subgraphs() == old(self).spec_subgraphs()),
            !subgraph_names(old(self).spec_subgraphs()).contains(subgraph.name@) ==> (res is Ok
                && final(self).spec_subgraphs() == old(self).spec_subgraphs().push(subgraph)),
    {
        match self.position(subgraph.name.as_str()) {
            Some(i) => {
                proof {
                    assert(subgraph_names(self.subgraphs@)[i as int] == subgraph.name@);
                }
                let msg = concat_strs(&["A subgraph named ", subgraph.name.as_str(), " already exists"]);
                proof {
                    reveal_with_fuel(concat_views, 4);
                }
                assert(msg@ =~= "A subgraph named "@ + subgraph.name@ + " already exists"@);
                Err(SubgraphError { msg })
            },
            None => {
                let ghost g = subgraph;
                self.subgraphs.push(subgraph);
                proof {
                    assert(subgraph_names(self.subgraphs@) =~= subgraph_names(old(self).subgraphs@).push(
                        g.name@,
                    ));
                    let before = subgraph_names(old(self).subgraphs@);
                    let after = subgraph_names(self.subgraphs@);
                    assert forall|a: int, b: int|
                        0 <= a < after.len() && 0 <= b < after.len() && a != b implies after[a]
                        != after[b] by {
                        if a < before.len() && b < before.len() {
                            assert(after[a] == before[a] && after[b] == before[b]);
                        } else if a == before.len() {
                            assert(after[b] == before[b]);
                        } else {
                            assert(after[a] == before[a]);
                        }
                    }
                }
                Ok(())
            },
        }
    }

    /// The subgraph named `name`, if any.
    pub fn get(&self, name: &str) -> (res: Option<&Subgraph>)
        requires
            self.wf(),
        ensures
            match res {
                Some(g) => g.name@ == name@ && exists|i: int|
                    0 <= i < self.spec_subgraphs().len() && self.spec_subgraphs()[i] == *g,
                None => !subgraph_names(self.spec_subgraphs()).contains(name@),
            },
    {
        match self.position(name) {
            Some(i) => Some(&self.subgraphs[i]),
            None => None,
        }
    }
}

} // verus!
