//! The known versions of a specification, and the version of the inaccessible specification
//! that a schema links.
use crate::ast::{concat_strs, concat_views};
use crate::error::{is_internal_error, FederationError};
use crate::federation_schema::FederationSchema;
use crate::inaccessible::InaccessibleSpecDefinition;
use crate::link::{link_of_identity, url_text, Identity, Link, Url, Version, APOLLO_SPEC_DOMAIN};
use vstd::prelude::*;

verus! {

/// The definition of a version of a specification.
pub trait SpecDefinition {
    /// The url of the specification version.
    spec fn spec_url(&self) -> Url;

    /// The url of the specification version.
    fn url(&self) -> (res: &Url)
        ensures
            *res == self.spec_url(),
    ;

    /// The version of federation that the specification version needs, if any.
    fn minimum_federation_version(&self) -> (res: Option<Version>);
}

impl SpecDefinition for InaccessibleSpecDefinition {
    open spec fn spec_url(&self) -> Url {
        self.url
    }

    fn url(&self) -> (res: &Url) {
        &self.url
    }

    fn minimum_federation_version(&self) -> (res: Option<Version>)
        ensures
            res == self.minimum_federation_version,
    {
        self.minimum_federation_version
    }
}

/// Whether version `a` comes before version `b`.
pub open spec fn version_lt(a: Version, b: Version) -> bool {
    a.major < b.major || (a.major == b.major && a.minor < b.minor)
}

/// The versions of a list of definitions, in order.
pub open spec fn versions_of<T: SpecDefinition>(defs: Seq<T>) -> Seq<Version> {
    defs.map_values(|d: T| d.spec_url().version)
}

/// The number of versions among `vs` that come before `v`.
pub open spec fn count_before(vs: Seq<Version>, v: Version) -> int
    decreases vs.len(),
{
    if vs.len() == 0 {
        0
    } else {
        count_before(vs.drop_last(), v) + if version_lt(vs.last(), v) { 1int } else { 0 }
    }
}

/// The versions of a specification that are known: each at most once, in increasing order.
pub struct SpecDefinitions<T: SpecDefinition> {
    identity: Identity,
    definitions: Vec<T>,
}

impl<T: SpecDefinition> SpecDefinitions<T> {
    /// The identity of the specification.
    pub closed spec fn spec_identity(&self) -> Identity {
        self.identity
    }

    /// The known definitions, by increasing version.
    pub closed spec fn spec_definitions(&self) -> Seq<T> {
        self.definitions@
    }

    /// The definitions are of increasing versions.
    pub open spec fn wf(&self) -> bool {
        forall|i: int, j: int|
            0 <= i < j < self.spec_definitions().len() ==> version_lt(
                (#[trigger] self.spec_definitions()[i]).spec_url().version,
                (#[trigger] self.spec_definitions()[j]).spec_url().version,
            )
    }

    /// No known version of the specification `identity`.
    pub fn new(identity: Identity) -> (res: Self)
        ensures
            res.spec_identity() == identity,
            res.spec_definitions() == Seq::<T>::empty(),
            res.wf(),
    {
        SpecDefinitions { identity, definitions: Vec::new() }
    }

    /// Adds `definition` to the known versions, where its version is not known yet; an
    /// internal error where it is not a version of this specification.
    pub fn add(&mut self, definition: T) -> (res: Result<(), FederationError>)
        requires
            old(self).wf(),
        ensures
            final(self).wf(),
            final(self).spec_identity() == old(self).spec_identity(),
            ({
                let u = definition.spec_url();
                let id = old(self).spec_identity();
                let defs = old(self).spec_definitions();
                if u.identity.domain@ != id.domain@ || u.identity.name@ != id.name@ {
                    &&& res matches Err(e) && is_internal_error(
                        e,
                        "Cannot add definition for "@ + url_text(u)
                            + " to the versions of definitions for "@ + id.domain@ + "/"@ + id.name@,
                    )
                    &&& final(self).spec_definitions() == defs
                } else if versions_of(defs).contains(u.version) {
                    res is Ok && final(self).spec_definitions() == defs
                } else {
                    let p = count_before(versions_of(defs), u.version);
                    res is Ok && final(self).spec_definitions() == defs.take(p).push(definition) + defs.skip(p)
                }
            }),
    {
        let u = definition.url();
        let same_domain = u.identity.domain == self.identity.domain;
        let same_name = u.identity.name == self.identity.name;
        assert(same_domain == (definition.spec_url().identity.domain@ == old(self).spec_identity().domain@));
        assert(same_name == (definition.spec_url().identity.name@ == old(self).spec_identity().name@));
        if !(same_domain && same_name) {
            let url = u.to_text();
            let identity = self.identity.to_text();
            proof {
                reveal_with_fuel(concat_views, 5);
            }
            let m = concat_strs(
                &["Cannot add definition for ", url.as_str(), " to the versions of definitions for ", identity.as_str()],
            );
            assert(m@ =~= "Cannot add definition for "@ + url_text(definition.spec_url())
                + " to the versions of definitions for "@ + self.identity.domain@ + "/"@ + self.identity.name@);
            return Err(FederationError::internal(m));
        }
        let v = u.version;
        let ghost vs = versions_of(self.definitions@);
        let mut p: usize = 0;
        while p < self.definitions.len()
            invariant
                p <= self.definitions@.len(),
                vs == versions_of(self.definitions@),
                forall|k: int| 0 <= k < p ==> version_lt(#[trigger] vs[k], v),
                self.wf(),
                v == definition.spec_url().version,
                self.identity == old(self).identity,
                self.definitions@ == old(self).definitions@,
                definition.spec_url().identity.domain@ == old(self).spec_identity().domain@,
                definition.spec_url().identity.name@ == old(self).spec_identity().name@,
            ensures
                p <= self.definitions@.len(),
                forall|k: int| 0 <= k < p ==> version_lt(#[trigger] vs[k], v),
                p < self.definitions@.len() ==> version_lt(v, vs[p as int]),
            decreases self.definitions@.len() - p,
        {
            let w = self.definitions[p].url().version;
            assert(w == vs[p as int]);
            if w.major == v.major && w.minor == v.minor {
                assert(vs[p as int] == v);
                assert(vs.contains(v));
                return Ok(());
            }
            if version_lt_exec(v, w) {
                break;
            }
            p = p + 1;
        }
        proof {
            assert forall|i: int, j: int| 0 <= i < j < vs.len() implies version_lt(#[trigger] vs[i], #[trigger] vs[j]) by {
                assert(vs[i] == self.spec_definitions()[i].spec_url().version);
                assert(vs[j] == self.spec_definitions()[j].spec_url().version);
            }
            if p < vs.len() {
                assert(version_lt(v, vs[p as int]));
            }
            lemma_insert_position(vs, v, p as int);
        }
        let ghost old_defs = self.definitions@;
        self.definitions.insert(p, definition);
        proof {
            assert(self.definitions@ =~= old_defs.take(p as int).push(definition) + old_defs.skip(p as int));
            assert forall|i: int, j: int|
                0 <= i < j < self.definitions@.len() implies version_lt(
                (#[trigger] self.definitions@[i]).spec_url().version,
                (#[trigger] self.definitions@[j]).spec_url().version,
            ) by {
                let vi = self.definitions@[i].spec_url().version;
                let vj = self.definitions@[j].spec_url().version;
                if i < p && j < p {
                    assert(self.definitions@[i] == old_defs[i] && self.definitions@[j] == old_defs[j]);
                } else if i < p && j == p {
                    assert(self.definitions@[i] == old_defs[i]);
                    assert(vs[i] == vi);
                } else if i < p && j > p {
                    assert(self.definitions@[i] == old_defs[i] && self.definitions@[j] == old_defs[j - 1]);
                } else if i == p {
                    assert(self.definitions@[j] == old_defs[j - 1]);
                    assert(vs[j - 1] == vj);
                    if j - 1 > p {
                        assert(version_lt(old_defs[p as int].spec_url().version, old_defs[j - 1].spec_url().version));
                    }
                } else {
                    assert(self.definitions@[i] == old_defs[i - 1] && self.definitions@[j] == old_defs[j - 1]);
                }
            }
        }
        Ok(())
    }

    /// The definition of the version `requested`, where it is known.
    pub fn find(&self, requested: &Version) -> (res: Option<&T>)
        ensures
            match res {
                Some(d) => exists|i: int|
                    0 <= i < self.spec_definitions().len() && self.spec_definitions()[i] == *d
                        && d.spec_url().version == *requested,
                None => !versions_of(self.spec_definitions()).contains(*requested),
            },
    {
        let mut i: usize = 0;
        while i < self.definitions.len()
            invariant
                i <= self.definitions@.len(),
                forall|k: int| 0 <= k < i ==> versions_of(self.definitions@)[k] != *requested,
            decreases self.definitions@.len() - i,
        {
            let w = self.definitions[i].url().version;
            if w.major == requested.major && w.minor == requested.minor {
                assert(self.spec_definitions()[i as int] == self.definitions@[i as int]);
                return Some(&self.definitions[i]);
            }
            assert(versions_of(self.definitions@)[i as int] == w);
            i = i + 1;
        }
        proof {
            if versions_of(self.definitions@).contains(*requested) {
                let k = choose|k: int|
                    0 <= k < versions_of(self.definitions@).len() && versions_of(self.definitions@)[k] == *requested;
                assert(versions_of(self.definitions@)[k] != *requested);
            }
        }
        None
    }

    /// The known versions, in increasing order.
    pub fn versions(&self) -> (res: Vec<Version>)
        ensures
            res@ == versions_of(self.spec_definitions()),
    {
        let mut out: Vec<Version> = Vec::new();
        let mut i: usize = 0;
        while i < self.definitions.len()
            invariant
                i <= self.definitions@.len(),
                out@ == versions_of(self.definitions@.take(i as int)),
            decreases self.definitions@.len() - i,
        {
            out.push(self.definitions[i].url().version);
            proof {
                assert(out@ =~= versions_of(self.definitions@.take(i + 1)));
            }
            i = i + 1;
        }
        proof {
            assert(self.definitions@.take(self.definitions@.len() as int) =~= self.definitions@);
        }
        out
    }
}

fn version_lt_exec(a: Version, b: Version) -> (res: bool)
    ensures
        res == version_lt(a, b),
{
    a.major < b.major || (a.major == b.major && a.minor < b.minor)
}

proof fn lemma_insert_position(vs: Seq<Version>, v: Version, p: int)
    requires
        0 <= p <= vs.len(),
        forall|i: int, j: int| 0 <= i < j < vs.len() ==> version_lt(#[trigger] vs[i], #[trigger] vs[j]),
        forall|k: int| 0 <= k < p ==> version_lt(#[trigger] vs[k], v),
        p < vs.len() ==> version_lt(v, vs[p]),
    ensures
        count_before(vs, v) == p,
        !vs.contains(v),
    decreases vs.len(),
{
    if vs.len() > 0 {
        if p == vs.len() {
            lemma_insert_position(vs.drop_last(), v, p - 1);
        } else {
            assert forall|k: int| p <= k < vs.len() implies version_lt(v, #[trigger] vs[k]) by {
                if k > p {
                    assert(version_lt(vs[p], vs[k]));
                }
            }
            lemma_count_before_prefix(vs, v, p);
        }
        if vs.contains(v) {
            let k = choose|k: int| 0 <= k < vs.len() && vs[k] == v;
            if k < p {
                assert(version_lt(vs[k], v));
            } else {
                assert(version_lt(v, vs[p]));
                if k > p {
                    assert(version_lt(vs[p], vs[k]));
                }
            }
        }
    }
}

proof fn lemma_count_before_prefix(vs: Seq<Version>, v: Version, p: int)
    requires
        0 <= p <= vs.len(),
        forall|k: int| 0 <= k < p ==> version_lt(#[trigger] vs[k], v),
        forall|k: int| p <= k < vs.len() ==> version_lt(v, #[trigger] vs[k]),
    ensures
        count_before(vs, v) == p,
    decreases vs.len(),
{
    if vs.len() > 0 {
        if p == vs.len() {
            lemma_count_before_prefix(vs.drop_last(), v, p - 1);
        } else {
            assert(!version_lt(vs.last(), v)) by {
                assert(version_lt(v, vs[vs.len() - 1]));
            }
            lemma_count_before_prefix(vs.drop_last(), v, p);
        }
    }
}

/// The known versions of the inaccessible specification: 0.1, and 0.2 (which needs
/// federation 2.0).
pub fn inaccessible_versions() -> (res: SpecDefinitions<InaccessibleSpecDefinition>)
    ensures
        res.wf(),
        res.spec_definitions().len() == 2,
        res.spec_definitions()[0].url.version == (Version { major: 0, minor: 1 }),
        res.spec_definitions()[0].url.identity.name@ == "inaccessible"@,
        res.spec_definitions()[0].minimum_federation_version is None,
        res.spec_definitions()[1].url.version == (Version { major: 0, minor: 2 }),
        res.spec_definitions()[1].url.identity.name@ == "inaccessible"@,
        res.spec_definitions()[1].minimum_federation_version == Some(Version { major: 2, minor: 0 }),
{
    let mut definitions = SpecDefinitions::new(Identity::inaccessible_identity());
    let first = InaccessibleSpecDefinition::new(Version { major: 0, minor: 1 }, None);
    let r1 = definitions.add(first);
    let second = InaccessibleSpecDefinition::new(Version { major: 0, minor: 2 }, Some(Version { major: 2, minor: 0 }));
    let r2 = definitions.add(second);
    proof {
        assert(versions_of(Seq::<InaccessibleSpecDefinition>::empty()) =~= Seq::<Version>::empty());
        assert(Seq::<InaccessibleSpecDefinition>::empty().take(0).push(first) + Seq::<InaccessibleSpecDefinition>::empty().skip(0) =~= seq![first]);
        assert(versions_of(seq![first]) =~= seq![Version { major: 0, minor: 1 }]);
        assert(!versions_of(seq![first]).contains(Version { major: 0, minor: 2 })) by {
            assert(versions_of(seq![first])[0] != Version { major: 0, minor: 2 });
        }
        assert(count_before(versions_of(seq![first]), Version { major: 0, minor: 2 }) == 1) by {
            reveal_with_fuel(count_before, 2);
            assert(versions_of(seq![first]).drop_last() =~= Seq::<Version>::empty());
        }
        assert(seq![first].take(1).push(second) + seq![first].skip(1) =~= seq![first, second]);
    }
    definitions
}

/// The index of the first link to the inaccessible specification.
pub open spec fn inaccessible_link(links: Seq<Link>) -> Option<int>
    decreases links.len(),
{
    if links.len() == 0 {
        None
    } else if links[0].url.identity.domain@ == APOLLO_SPEC_DOMAIN@ && links[0].url.identity.name@
        == "inaccessible"@ {
        Some(0)
    } else {
        match inaccessible_link(links.drop_first()) {
            Some(i) => Some(i + 1),
            None => None,
        }
    }
}

pub(crate) proof fn lemma_inaccessible_link(links: Seq<Link>, id: Identity)
    requires
        id.domain@ == APOLLO_SPEC_DOMAIN@,
        id.name@ == "inaccessible"@,
    ensures
        link_of_identity(links, id) == inaccessible_link(links),
        inaccessible_link(links) matches Some(i) ==> 0 <= i < links.len(),
    decreases links.len(),
{
    if links.len() > 0 {
        lemma_inaccessible_link(links.drop_first(), id);
    }
}

/// The message of the error for a schema that does not link the inaccessible specification.
pub open spec fn no_inaccessible_message() -> Seq<char> {
    "Subgraph unexpectedly does not use inaccessible spec"@
}

/// The message of the error for a schema that links an unknown version of the inaccessible
/// specification.
pub open spec fn unsupported_inaccessible_message() -> Seq<char> {
    "Subgraph unexpectedly does not use a supported inaccessible spec version"@
}

/// The definition of the version of the inaccessible specification that `schema` links; an
/// internal error where it links none, or a version that is not known (see
/// [`inaccessible_versions`]).
pub fn get_inaccessible_spec_definition_from_subgraph(schema: &FederationSchema) -> (res: Result<InaccessibleSpecDefinition, FederationError>)
    ensures
        match schema.spec_metadata() {
            Some(m) => match inaccessible_link(m.links@) {
                Some(i) => {
                    let v = m.links@[i].url.version;
                    if v == (Version { major: 0, minor: 1 }) || v == (Version { major: 0, minor: 2 }) {
                        res matches Ok(d) && d.url.version == v && d.url.identity.name@ == "inaccessible"@
                            && d.url.identity.domain@ == APOLLO_SPEC_DOMAIN@
                            && d.minimum_federation_version == (if v.minor == 1 {
                            None
                        } else {
                            Some(Version { major: 2, minor: 0 })
                        })
                    } else {
                        res matches Err(e) && is_internal_error(e, unsupported_inaccessible_message())
                    }
                },
                None => res matches Err(e) && is_internal_error(e, no_inaccessible_message()),
            },
            None => res matches Err(e) && is_internal_error(e, no_inaccessible_message()),
        },
{
    let identity = Identity::inaccessible_identity();
    proof {
        match schema.spec_metadata() {
            Some(m) => lemma_inaccessible_link(m.links@, identity),
            None => {},
        }
    }
    let link = match schema.metadata() {
        Some(m) => match m.for_identity(&identity) {
            Some(l) => l,
            None => {
                return Err(FederationError::internal(String::from_str("Subgraph unexpectedly does not use inaccessible spec")));
            },
        },
        None => {
            return Err(FederationError::internal(String::from_str("Subgraph unexpectedly does not use inaccessible spec")));
        },
    };
    let versions = inaccessible_versions();
    match versions.find(&link.url.version) {
        Some(d) => {
            proof {
                let k = choose|k: int|
                    0 <= k < versions.spec_definitions().len() && versions.spec_definitions()[k] == *d
                        && d.spec_url().version == link.url.version;
                if k == 0 {
                    assert(d.url.version == (Version { major: 0, minor: 1 }));
                } else {
                    assert(d.url.version == (Version { major: 0, minor: 2 }));
                }
            }
            let min = SpecDefinition::minimum_federation_version(d);
            Ok(InaccessibleSpecDefinition::new(d.url.version, min))
        },
        None => {
            proof {
                assert(versions_of(versions.spec_definitions())[0] == (Version { major: 0, minor: 1 }));
                assert(versions_of(versions.spec_definitions())[1] == (Version { major: 0, minor: 2 }));
            }
            Err(
                FederationError::internal(
                    String::from_str("Subgraph unexpectedly does not use a supported inaccessible spec version"),
                ),
            )
        },
    }
}

} // verus!
