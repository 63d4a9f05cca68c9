//! `@link` specifications: identities, versions, urls and imports, and the names under which
//! a linked specification's elements appear in a schema.
use crate::ast::{concat_strs, concat_views, decimal, decimal_string, str_eq};
use vstd::prelude::*;

verus! {

/// The domain of the specifications published by Apollo.
pub const APOLLO_SPEC_DOMAIN: &'static str = "https://specs.apollo.dev";

/// The identity of a specification: its domain and its name.
#[derive(Debug, PartialEq, Eq)]
pub struct Identity {
    pub domain: String,
    pub name: String,
}

/// The version of a specification.
#[derive(Debug, Clone, Copy, PartialEq, Eq, Structural)]
pub struct Version {
    pub major: u32,
    pub minor: u32,
}

/// A specification url: an identity and a version.
#[derive(Debug, PartialEq, Eq)]
pub struct Url {
    pub identity: Identity,
    pub version: Version,
}

/// An element imported from a linked specification, possibly under another name.
#[derive(Debug, PartialEq, Eq)]
pub struct Import {
    /// The name of the element, without `@` for a directive.
    pub element: String,
    pub is_directive: bool,
    pub alias: Option<String>,
}

/// The purpose of a link.
#[derive(Debug, Clone, Copy, PartialEq, Eq, Structural)]
pub enum Purpose {
    SECURITY,
    EXECUTION,
}

/// An application of `@link`.
#[derive(Debug, PartialEq, Eq)]
pub struct Link {
    pub url: Url,
    pub spec_alias: Option<String>,
    pub imports: Vec<Import>,
    pub purpose: Option<Purpose>,
}

impl Identity {
    /// The identity of the link specification.
    pub fn link_identity() -> (res: Identity)
        ensures
            res.domain@ == APOLLO_SPEC_DOMAIN@,
            res.name@ == "link"@,
    {
        Identity { domain: String::from_str(APOLLO_SPEC_DOMAIN), name: String::from_str("link") }
    }

    /// The identity of the federation specification.
    pub fn federation_identity() -> (res: Identity)
        ensures
            res.domain@ == APOLLO_SPEC_DOMAIN@,
            res.name@ == "federation"@,
    {
        Identity {
            domain: String::from_str(APOLLO_SPEC_DOMAIN),
            name: String::from_str("federation"),
        }
    }

    /// `domain/name`.
    pub fn to_text(&self) -> (res: String)
        ensures
            res@ == self.domain@ + "/"@ + self.name@,
    {
        let res = concat_strs(&[self.domain.as_str(), "/", self.name.as_str()]);
        proof {
            reveal_with_fuel(concat_views, 4);
        }
        assert(res@ =~= self.domain@ + "/"@ + self.name@);
        res
    }
}

/// The textual form `major.minor` of a version.
pub open spec fn version_text(v: Version) -> Seq<char> {
    decimal(v.major as nat) + "."@ + decimal(v.minor as nat)
}

/// Whether `v` lies in the range from `min` to `max` (both of one major version).
pub open spec fn in_version_range(v: Version, min: Version, max: Version) -> bool {
    v.major == min.major && v.minor >= min.minor && v.minor <= max.minor
}

impl Version {
    /// Whether this version satisfies the `required` one: equal to it for a major version 0,
    /// else of the same major version and at least its minor version.
    pub fn satisfies(&self, required: &Version) -> (res: bool)
        ensures
            res == if self.major == 0 {
                *self == *required
            } else {
                self.major == required.major && self.minor >= required.minor
            },
    {
        if self.major == 0 {
            self.major == required.major && self.minor == required.minor
        } else {
            self.major == required.major && self.minor >= required.minor
        }
    }

    /// Whether this version lies in the range from `min` to `max`, which must be of the same
    /// major version with `min`'s minor version below `max`'s.
    pub fn satisfies_range(&self, min: &Version, max: &Version) -> (res: bool)
        requires
            min.major == max.major,
            min.minor < max.minor,
        ensures
            res == in_version_range(*self, *min, *max),
    {
        self.major == min.major && self.minor >= min.minor && self.minor <= max.minor
    }

    /// `major.minor`.
    pub fn to_text(&self) -> (res: String)
        ensures
            res@ == version_text(*self),
    {
        let major = decimal_string(self.major);
        let minor = decimal_string(self.minor);
        let res = concat_strs(&[major.as_str(), ".", minor.as_str()]);
        proof {
            reveal_with_fuel(concat_views, 4);
        }
        assert(res@ =~= version_text(*self));
        res
    }
}

/// The textual form `domain/name/vmajor.minor` of a url.
pub open spec fn url_text(u: Url) -> Seq<char> {
    u.identity.domain@ + "/"@ + u.identity.name@ + "/v"@ + version_text(u.version)
}

impl Url {
    /// `domain/name/vmajor.minor`.
    pub fn to_text(&self) -> (res: String)
        ensures
            res@ == url_text(*self),
    {
        let version = self.version.to_text();
        let res = concat_strs(
            &[
                self.identity.domain.as_str(),
                "/",
                self.identity.name.as_str(),
                "/v",
                version.as_str(),
            ],
        );
        proof {
            reveal_with_fuel(concat_views, 6);
        }
        assert(res@ =~= url_text(*self));
        res
    }
}

/// The name under which an import appears: its alias, else its element.
pub open spec fn imported_name(i: Import) -> Seq<char> {
    match i.alias {
        Some(a) => a@,
        None => i.element@,
    }
}

/// The name under which an import is written in `@link`: with `@` for a directive.
pub open spec fn imported_display_name(i: Import) -> Seq<char> {
    if i.is_directive {
        "@"@ + imported_name(i)
    } else {
        imported_name(i)
    }
}

impl Import {
    /// Its alias, else its element.
    pub fn imported_name(&self) -> (res: &String)
        ensures
            res@ == imported_name(*self),
    {
        match &self.alias {
            Some(a) => a,
            None => &self.element,
        }
    }

    /// The imported name, with `@` in front for a directive.
    pub fn imported_display_name(&self) -> (res: String)
        ensures
            res@ == imported_display_name(*self),
    {
        if self.is_directive {
            let res = concat_strs(&["@", self.imported_name().as_str()]);
            proof {
                reveal_with_fuel(concat_views, 3);
            }
            assert(res@ =~= imported_display_name(*self));
            res
        } else {
            self.imported_name().clone()
        }
    }
}

/// The index of the first import of the element `element`.
pub open spec fn import_index(imports: Seq<Import>, element: Seq<char>) -> Option<int>
    decreases imports.len(),
{
    if imports.len() == 0 {
        None
    } else if imports[0].element@ == element {
        Some(0)
    } else {
        match import_index(imports.drop_first(), element) {
            Some(i) => Some(i + 1),
            None => None,
        }
    }
}

pub proof fn lemma_import_index(imports: Seq<Import>, element: Seq<char>)
    ensures
        match import_index(imports, element) {
            Some(i) => 0 <= i < imports.len() && imports[i].element@ == element && forall|j: int|
                0 <= j < i ==> imports[j].element@ != element,
            None => forall|j: int| 0 <= j < imports.len() ==> imports[j].element@ != element,
        },
    decreases imports.len(),
{
    if imports.len() > 0 {
        lemma_import_index(imports.drop_first(), element);
        assert forall|j: int| 1 <= j < imports.len() implies imports[j] == imports.drop_first()[j
            - 1] by {}
    }
}

/// The name of the specification in the schema: its alias, else its identity's name.
pub open spec fn spec_name_in_schema(link: Link) -> Seq<char> {
    match link.spec_alias {
        Some(a) => a@,
        None => link.url.identity.name@,
    }
}

/// The name of an imported element: its alias, else its own name.
pub open spec fn imported_as(link: Link, i: int, name: Seq<char>) -> Seq<char> {
    match link.imports@[i].alias {
        Some(a) => a@,
        None => name,
    }
}

/// The name in the schema of the specification's directive `name`: the name it is imported
/// under; else the specification's name in the schema where `name` is the specification's
/// own name; else that name, `__` and `name`.
pub open spec fn directive_name_in_schema(link: Link, name: Seq<char>) -> Seq<char> {
    match import_index(link.imports@, name) {
        Some(i) => imported_as(link, i, name),
        None => if name == link.url.identity.name@ {
            spec_name_in_schema(link)
        } else {
            spec_name_in_schema(link) + "__"@ + name
        },
    }
}

/// The name in the schema of the specification's type `name`: the name it is imported
/// under, else the specification's name in the schema, `__` and `name`.
pub open spec fn type_name_in_schema(link: Link, name: Seq<char>) -> Seq<char> {
    match import_index(link.imports@, name) {
        Some(i) => imported_as(link, i, name),
        None => spec_name_in_schema(link) + "__"@ + name,
    }
}

impl Link {
    /// The specification's name in the schema.
    pub fn spec_name_in_schema(&self) -> (res: &String)
        ensures
            res@ == spec_name_in_schema(*self),
    {
        match &self.spec_alias {
            Some(a) => a,
            None => &self.url.identity.name,
        }
    }

    /// The index of the first import of `name`.
    pub(crate) fn find_import(&self, name: &str) -> (res: Option<usize>)
        ensures
            match res {
                Some(i) => i < self.imports@.len() && import_index(self.imports@, name@) == Some(
                    i as int,
                ),
                None => import_index(self.imports@, name@) is None,
            },
    {
        proof {
            lemma_import_index(self.imports@, name@);
        }
        let mut i: usize = 0;
        while i < self.imports.len()
            invariant
                i <= self.imports@.len(),
                forall|j: int| 0 <= j < i ==> self.imports@[j].element@ != name@,
                match import_index(self.imports@, name@) {
                    Some(k) => 0 <= k < self.imports@.len() && self.imports@[k].element@ == name@
                        && forall|j: int| 0 <= j < k ==> self.imports@[j].element@ != name@,
                    None => forall|j: int|
                        0 <= j < self.imports@.len() ==> self.imports@[j].element@ != name@,
                },
            decreases self.imports@.len() - i,
        {
            if str_eq(&self.imports[i].element, name) {
                return Some(i);
            }
            i = i + 1;
        }
        None
    }

    /// The name in the schema of the specification's directive `name`.
    pub fn directive_name_in_schema(&self, name: &str) -> (res: String)
        ensures
            res@ == directive_name_in_schema(*self, name@),
    {
        proof {
            lemma_import_index(self.imports@, name@);
        }
        match self.find_import(name) {
            Some(i) => match &self.imports[i].alias {
                Some(a) => a.clone(),
                None => String::from_str(name),
            },
            None => {
                if str_eq(&self.url.identity.name, name) {
                    self.spec_name_in_schema().clone()
                } else {
                    let res = concat_strs(&[self.spec_name_in_schema().as_str(), "__", name]);
                    proof {
                        reveal_with_fuel(concat_views, 4);
                    }
                    assert(res@ =~= spec_name_in_schema(*self) + "__"@ + name@);
                    res
                }
            },
        }
    }

    /// The name in the schema of the specification's type `name`.
    pub fn type_name_in_schema(&self, name: &str) -> (res: String)
        ensures
            res@ == type_name_in_schema(*self, name@),
    {
        proof {
            lemma_import_index(self.imports@, name@);
        }
        match self.find_import(name) {
            Some(i) => match &self.imports[i].alias {
                Some(a) => a.clone(),
                None => String::from_str(name),
            },
            None => {
                let res = concat_strs(&[self.spec_name_in_schema().as_str(), "__", name]);
                proof {
                    reveal_with_fuel(concat_views, 4);
                }
                assert(res@ =~= spec_name_in_schema(*self) + "__"@ + name@);
                res
            },
        }
    }
}

impl Identity {
    /// The identity of the inaccessible specification.
    pub fn inaccessible_identity() -> (res: Identity)
        ensures
            res.domain@ == APOLLO_SPEC_DOMAIN@,
            res.name@ == "inaccessible"@,
    {
        Identity {
            domain: String::from_str(APOLLO_SPEC_DOMAIN),
            name: String::from_str("inaccessible"),
        }
    }
}

/// The links of a core schema.
#[derive(Debug)]
pub struct LinksMetadata {
    pub links: Vec<Link>,
}

/// The links of a schema, where it is a core schema (one that uses `@link`).
#[derive(Debug)]
pub struct OptionLinksMetadata(pub Option<LinksMetadata>);

/// An element of a schema traced back to the link it comes from, and to the import that
/// brings it, if any.
#[derive(Debug)]
pub struct LinkedElement<'a> {
    pub link: &'a Link,
    pub import: Option<&'a Import>,
}

/// The index of the first import of kind `is_directive` imported under `name`.
pub open spec fn first_import_in(imports: Seq<Import>, name: Seq<char>, is_directive: bool) -> Option<int>
    decreases imports.len(),
{
    if imports.len() == 0 {
        None
    } else if imports[0].is_directive == is_directive && imported_name(imports[0]) == name {
        Some(0)
    } else {
        match first_import_in(imports.drop_first(), name, is_directive) {
            Some(i) => Some(i + 1),
            None => None,
        }
    }
}

/// The first link (and its import) importing an element of kind `is_directive` under
/// `name`.
pub open spec fn first_import(links: Seq<Link>, name: Seq<char>, is_directive: bool) -> Option<(int, int)>
    decreases links.len(),
{
    if links.len() == 0 {
        None
    } else {
        match first_import_in(links[0].imports@, name, is_directive) {
            Some(i) => Some((0, i)),
            None => match first_import(links.drop_first(), name, is_directive) {
                Some((l, i)) => Some((l + 1, i)),
                None => None,
            },
        }
    }
}

/// The first link whose specification is named `name` in the schema.
pub open spec fn link_named(links: Seq<Link>, name: Seq<char>) -> Option<int>
    decreases links.len(),
{
    if links.len() == 0 {
        None
    } else if spec_name_in_schema(links[0]) == name {
        Some(0)
    } else {
        match link_named(links.drop_first(), name) {
            Some(i) => Some(i + 1),
            None => None,
        }
    }
}

/// The part of `s` before its first `__`, if it has one.
pub open spec fn before_double_underscore(s: Seq<char>, from: int) -> Option<Seq<char>>
    decreases s.len() - from,
{
    if from < 0 || from + 1 >= s.len() {
        None
    } else if s[from] == '_' && s[from + 1] == '_' {
        Some(s.take(from))
    } else {
        before_double_underscore(s, from + 1)
    }
}

/// The link and import that a type of the schema comes from: the link that imports a type
/// under that name; else the link whose name in the schema is the part of the type's name
/// before `__`.
pub open spec fn source_of_type(links: Seq<Link>, name: Seq<char>) -> Option<(int, Option<int>)> {
    match first_import(links, name, false) {
        Some((l, i)) => Some((l, Some(i))),
        None => match before_double_underscore(name, 0) {
            Some(p) => match link_named(links, p) {
                Some(l) => Some((l, None)),
                None => None,
            },
            None => None,
        },
    }
}

/// The link and import that a directive of the schema comes from: the link that imports a
/// directive under that name; else the link whose name in the schema is the directive's;
/// else the link whose name in the schema is the part of the directive's name before `__`.
pub open spec fn source_of_directive(links: Seq<Link>, name: Seq<char>) -> Option<(int, Option<int>)> {
    match first_import(links, name, true) {
        Some((l, i)) => Some((l, Some(i))),
        None => match link_named(links, name) {
            Some(l) => Some((l, None)),
            None => match before_double_underscore(name, 0) {
                Some(p) => match link_named(links, p) {
                    Some(l) => Some((l, None)),
                    None => None,
                },
                None => None,
            },
        },
    }
}

/// The first link of the identity `identity`.
pub open spec fn link_of_identity(links: Seq<Link>, identity: Identity) -> Option<int>
    decreases links.len(),
{
    if links.len() == 0 {
        None
    } else if links[0].url.identity.domain@ == identity.domain@ && links[0].url.identity.name@
        == identity.name@ {
        Some(0)
    } else {
        match link_of_identity(links.drop_first(), identity) {
            Some(i) => Some(i + 1),
            None => None,
        }
    }
}

proof fn lemma_first_import_in_range(imports: Seq<Import>, name: Seq<char>, k: bool)
    ensures
        first_import_in(imports, name, k) matches Some(i) ==> 0 <= i < imports.len(),
    decreases imports.len(),
{
    if imports.len() > 0 {
        lemma_first_import_in_range(imports.drop_first(), name, k);
    }
}

proof fn lemma_first_import_range(links: Seq<Link>, name: Seq<char>, k: bool)
    ensures
        first_import(links, name, k) matches Some((l, i)) ==> 0 <= l < links.len() && 0 <= i
            < links[l].imports@.len(),
    decreases links.len(),
{
    if links.len() > 0 {
        lemma_first_import_in_range(links[0].imports@, name, k);
        lemma_first_import_range(links.drop_first(), name, k);
        if first_import_in(links[0].imports@, name, k) is None {
            match first_import(links.drop_first(), name, k) {
                Some((l, i)) => {
                    assert(links[l + 1] == links.drop_first()[l]);
                },
                None => {},
            }
        }
    }
}

proof fn lemma_link_named_range(links: Seq<Link>, name: Seq<char>)
    ensures
        link_named(links, name) matches Some(l) ==> 0 <= l < links.len(),
    decreases links.len(),
{
    if links.len() > 0 {
        lemma_link_named_range(links.drop_first(), name);
    }
}

proof fn lemma_link_of_identity_range(links: Seq<Link>, identity: Identity)
    ensures
        link_of_identity(links, identity) matches Some(l) ==> 0 <= l < links.len(),
    decreases links.len(),
{
    if links.len() > 0 {
        lemma_link_of_identity_range(links.drop_first(), identity);
    }
}

fn find_import_in(imports: &Vec<Import>, name: &str, is_directive: bool) -> (res: Option<usize>)
    ensures
        match res {
            Some(i) => i < imports@.len() && first_import_in(imports@, name@, is_directive) == Some(
                i as int,
            ),
            None => first_import_in(imports@, name@, is_directive) is None,
        },
{
    proof {
        lemma_first_import_in_range(imports@, name@, is_directive);
    }
    let mut i: usize = 0;
    assert(imports@.subrange(0, imports@.len() as int) =~= imports@);
    while i < imports.len()
        invariant
            i <= imports@.len(),
            first_import_in(imports@, name@, is_directive) == match first_import_in(
                imports@.subrange(i as int, imports@.len() as int),
                name@,
                is_directive,
            ) {
                Some(k) => Some(k + i),
                None => None,
            },
        decreases imports@.len() - i,
    {
        assert(imports@.subrange(i as int, imports@.len() as int).drop_first() =~= imports@.subrange(
            i + 1,
            imports@.len() as int,
        ));
        if imports[i].is_directive == is_directive && str_eq(imports[i].imported_name(), name) {
            return Some(i);
        }
        i = i + 1;
    }
    None
}

fn find_link_named(links: &Vec<Link>, name: &str) -> (res: Option<usize>)
    ensures
        match res {
            Some(i) => i < links@.len() && link_named(links@, name@) == Some(i as int),
            None => link_named(links@, name@) is None,
        },
{
    proof {
        lemma_link_named_range(links@, name@);
    }
    let mut i: usize = 0;
    assert(links@.subrange(0, links@.len() as int) =~= links@);
    while i < links.len()
        invariant
            i <= links@.len(),
            link_named(links@, name@) == match link_named(
                links@.subrange(i as int, links@.len() as int),
                name@,
            ) {
                Some(k) => Some(k + i),
                None => None,
            },
        decreases links@.len() - i,
    {
        assert(links@.subrange(i as int, links@.len() as int).drop_first() =~= links@.subrange(
            i + 1,
            links@.len() as int,
        ));
        if str_eq(links[i].spec_name_in_schema(), name) {
            return Some(i);
        }
        i = i + 1;
    }
    None
}

fn split_double_underscore(s: &str) -> (res: Option<String>)
    ensures
        match before_double_underscore(s@, 0) {
            Some(p) => res matches Some(r) && r@ == p,
            None => res is None,
        },
{
    let n = s.unicode_len();
    let mut i: usize = 0;
    while i < n
        invariant
            n == s@.len(),
            0 <= i <= n,
            before_double_underscore(s@, 0) == before_double_underscore(s@, i as int),
        decreases n - i,
    {
        if i + 1 < n && s.get_char(i) == '_' && s.get_char(i + 1) == '_' {
            let p = String::from_str(s.substring_char(0, i));
            assert(p@ =~= s@.take(i as int));
            return Some(p);
        }
        i = i + 1;
    }
    None
}

impl LinksMetadata {
    /// All the links, in order.
    pub fn all_links(&self) -> (res: &Vec<Link>)
        ensures
            res@ == self.links@,
    {
        &self.links
    }

    /// The link of the specification `identity`.
    pub fn for_identity(&self, identity: &Identity) -> (res: Option<&Link>)
        ensures
            match link_of_identity(self.links@, *identity) {
                Some(i) => res == Some(&self.links@[i]),
                None => res is None,
            },
    {
        proof {
            lemma_link_of_identity_range(self.links@, *identity);
        }
        let mut i: usize = 0;
        assert(self.links@.subrange(0, self.links@.len() as int) =~= self.links@);
        while i < self.links.len()
            invariant
                i <= self.links@.len(),
                link_of_identity(self.links@, *identity) == match link_of_identity(
                    self.links@.subrange(i as int, self.links@.len() as int),
                    *identity,
                ) {
                    Some(k) => Some(k + i),
                    None => None,
                },
            decreases self.links@.len() - i,
        {
            assert(self.links@.subrange(i as int, self.links@.len() as int).drop_first()
                =~= self.links@.subrange(i + 1, self.links@.len() as int));
            if self.links[i].url.identity.domain == identity.domain && self.links[i].url.identity.name
                == identity.name {
                return Some(&self.links[i]);
            }
            i = i + 1;
        }
        None
    }

    #[verifier::loop_isolation(false)]
    fn find_import(&self, name: &str, is_directive: bool) -> (res: Option<(usize, usize)>)
        ensures
            match res {
                Some((l, i)) => l < self.links@.len() && i < self.links@[l as int].imports@.len()
                    && first_import(self.links@, name@, is_directive) == Some((l as int, i as int)),
                None => first_import(self.links@, name@, is_directive) is None,
            },
    {
        proof {
            lemma_first_import_range(self.links@, name@, is_directive);
        }
        let mut l: usize = 0;
        assert(self.links@.subrange(0, self.links@.len() as int) =~= self.links@);
        while l < self.links.len()
            invariant
                l <= self.links@.len(),
                first_import(self.links@, name@, is_directive) == match first_import(
                    self.links@.subrange(l as int, self.links@.len() as int),
                    name@,
                    is_directive,
                ) {
                    Some((k, i)) => Some((k + l, i)),
                    None => None,
                },
            decreases self.links@.len() - l,
        {
            let ghost rest = self.links@.subrange(l as int, self.links@.len() as int);
            assert(rest.drop_first() =~= self.links@.subrange(l + 1, self.links@.len() as int));
            assert(rest[0] == self.links@[l as int]);
            assert(rest.len() > 0);
            match find_import_in(&self.links[l].imports, name, is_directive) {
                Some(i) => {
                    assert(first_import_in(rest[0].imports@, name@, is_directive) == Some(i as int));
                    assert(first_import(rest, name@, is_directive) == Some((0int, i as int)));
                    return Some((l, i));
                },
                None => {
                    assert(first_import(rest, name@, is_directive) == match first_import(
                        rest.drop_first(),
                        name@,
                        is_directive,
                    ) {
                        Some((k, i)) => Some((k + 1, i)),
                        None => None,
                    });
                },
            }
            l = l + 1;
        }
        None
    }

    /// The link (and import) that the type named `name_of_type` comes from (see
    /// [`source_of_type`]).
    pub fn source_link_of_type(&self, name_of_type: &str) -> (res: Option<LinkedElement>)
        ensures
            match source_of_type(self.links@, name_of_type@) {
                Some((l, i)) => res matches Some(e) && *e.link == self.links@[l] && match i {
                    Some(i) => e.import == Some(&self.links@[l].imports@[i]),
                    None => e.import is None,
                },
                None => res is None,
            },
    {
        proof {
            lemma_link_named_range(self.links@, name_of_type@);
        }
        match self.find_import(name_of_type, false) {
            Some((l, i)) => Some(LinkedElement { link: &self.links[l], import: Some(&self.links[l].imports[i]) }),
            None => match split_double_underscore(name_of_type) {
                Some(p) => {
                    proof {
                        lemma_link_named_range(self.links@, p@);
                    }
                    match find_link_named(&self.links, p.as_str()) {
                        Some(l) => Some(LinkedElement { link: &self.links[l], import: None }),
                        None => None,
                    }
                },
                None => None,
            },
        }
    }

    /// The link (and import) that the directive named `directive_name` comes from (see
    /// [`source_of_directive`]).
    pub fn source_link_of_directive(&self, directive_name: &str) -> (res: Option<LinkedElement>)
        ensures
            match source_of_directive(self.links@, directive_name@) {
                Some((l, i)) => res matches Some(e) && *e.link == self.links@[l] && match i {
                    Some(i) => e.import == Some(&self.links@[l].imports@[i]),
                    None => e.import is None,
                },
                None => res is None,
            },
    {
        proof {
            lemma_link_named_range(self.links@, directive_name@);
        }
        match self.find_import(directive_name, true) {
            Some((l, i)) => Some(LinkedElement { link: &self.links[l], import: Some(&self.links[l].imports[i]) }),
            None => match find_link_named(&self.links, directive_name) {
                Some(l) => Some(LinkedElement { link: &self.links[l], import: None }),
                None => match split_double_underscore(directive_name) {
                    Some(p) => {
                        proof {
                            lemma_link_named_range(self.links@, p@);
                        }
                        match find_link_named(&self.links, p.as_str()) {
                            Some(l) => Some(LinkedElement { link: &self.links[l], import: None }),
                            None => None,
                        }
                    },
                    None => None,
                },
            },
        }
    }
}

} // verus!
