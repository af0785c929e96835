//! Package identities: the resolver that maps a reference to one stable
//! identity, creating it only when no stored identity matches.
use vstd::prelude::*;

use crate::purl::{opt_eq, opt_view, qualifiers_equal, qualifiers_view, Purl, PurlView};

verus! {

/// A stored package identity. Its `id` is its position in the store.
#[derive(Debug)]
pub struct Package {
    pub id: usize,
    pub ty: String,
    pub namespace: Option<String>,
    pub name: String,
    pub version: String,
    pub qualifiers: Vec<(String, String)>,
}

impl Package {
    /// The reference this identity stands for.
    pub open spec fn reference(self) -> PurlView {
        PurlView {
            ty: self.ty@,
            namespace: opt_view(self.namespace),
            name: self.name@,
            version: Some(self.version@),
            qualifiers: qualifiers_view(self.qualifiers@),
        }
    }

    /// A copy with the same id and parts.
    pub fn duplicate(&self) -> (r: Package)
        ensures
            r.id == self.id,
            r.reference() == self.reference(),
    {
        Package {
            id: self.id,
            ty: self.ty.clone(),
            namespace: clone_opt(&self.namespace),
            name: self.name.clone(),
            version: self.version.clone(),
            qualifiers: clone_qualifiers(&self.qualifiers),
        }
    }

    /// The identity written back as a package reference.
    pub fn to_purl(&self) -> (r: Purl)
        ensures
            r@ == self.reference(),
    {
        Purl {
            ty: self.ty.clone(),
            namespace: clone_opt(&self.namespace),
            name: self.name.clone(),
            version: Some(self.version.clone()),
            qualifiers: clone_qualifiers(&self.qualifiers),
        }
    }
}

pub fn clone_opt(o: &Option<String>) -> (r: Option<String>)
    ensures
        opt_view(r) == opt_view(*o),
{
    match o {
        Some(s) => Some(s.clone()),
        None => None,
    }
}

pub fn clone_qualifiers(qs: &Vec<(String, String)>) -> (r: Vec<(String, String)>)
    ensures
        qualifiers_view(r@) == qualifiers_view(qs@),
{
    let mut r: Vec<(String, String)> = Vec::new();
    let mut i: usize = 0;
    while i < qs.len()
        invariant
            i <= qs.len(),
            r@.len() == i,
            forall|j: int| 0 <= j < i ==> (#[trigger] r@[j]).0@ == qs@[j].0@ && r@[j].1@ == qs@[j].1@,
        decreases qs.len() - i,
    {
        r.push((qs[i].0.clone(), qs[i].1.clone()));
        i = i + 1;
    }
    assert(qualifiers_view(r@) =~= qualifiers_view(qs@));
    r
}

pub fn clone_purl(p: &Purl) -> (r: Purl)
    ensures
        r@ == p@,
{
    Purl {
        ty: p.ty.clone(),
        namespace: clone_opt(&p.namespace),
        name: p.name.clone(),
        version: clone_opt(&p.version),
        qualifiers: clone_qualifiers(&p.qualifiers),
    }
}

/// The position of the first reference in `refs` that names the same package
/// as `key`, if any.
pub open spec fn first_match(refs: Seq<PurlView>, key: PurlView) -> Option<int> {
    if exists|i: int| 0 <= i < refs.len() && refs[i].same_reference(key) {
        Some(choose|i: int| 0 <= i < refs.len() && refs[i].same_reference(key)
            && forall|j: int| 0 <= j < i ==> !refs[j].same_reference(key))
    } else {
        None
    }
}

/// The identities after resolving `key`: unchanged when one matches, else
/// with `key` appended.
pub open spec fn resolved_refs(refs: Seq<PurlView>, key: PurlView) -> Seq<PurlView> {
    if first_match(refs, key) is Some {
        refs
    } else {
        refs.push(key)
    }
}

/// The id that resolving `key` yields.
pub open spec fn resolved_id(refs: Seq<PurlView>, key: PurlView) -> int {
    match first_match(refs, key) {
        Some(i) => i,
        None => refs.len() as int,
    }
}

/// Some matching position has no matching position before it.
proof fn lemma_minimal_match(refs: Seq<PurlView>, key: PurlView, i: int)
    requires
        0 <= i < refs.len(),
        refs[i].same_reference(key),
    ensures
        exists|m: int| 0 <= m < refs.len() && refs[m].same_reference(key)
            && forall|j: int| 0 <= j < m ==> !refs[j].same_reference(key),
    decreases i,
{
    if exists|j: int| 0 <= j < i && refs[j].same_reference(key) {
        let j = choose|j: int| 0 <= j < i && refs[j].same_reference(key);
        lemma_minimal_match(refs, key, j);
    } else {
        assert(forall|j: int| 0 <= j < i ==> !refs[j].same_reference(key));
    }
}

/// What `first_match` yields: the earliest matching position, or nothing
/// when no position matches.
pub proof fn lemma_first_match(refs: Seq<PurlView>, key: PurlView)
    ensures
        first_match(refs, key) matches Some(c) ==> 0 <= c < refs.len() && refs[c].same_reference(key)
            && forall|j: int| 0 <= j < c ==> !refs[j].same_reference(key),
        first_match(refs, key) is None ==> forall|j: int| 0 <= j < refs.len() ==> !refs[j].same_reference(key),
{
    if exists|i: int| 0 <= i < refs.len() && refs[i].same_reference(key) {
        let i = choose|i: int| 0 <= i < refs.len() && refs[i].same_reference(key);
        lemma_minimal_match(refs, key, i);
    }
}

/// References that name the same package resolve alike: the first match
/// for one is the first match for the other.
pub proof fn lemma_first_match_respects_sameness(refs: Seq<PurlView>, p: PurlView, q: PurlView)
    requires
        p.same_reference(q),
    ensures
        first_match(refs, p) == first_match(refs, q),
{
    lemma_first_match(refs, p);
    lemma_first_match(refs, q);
    if first_match(refs, p) is Some {
        let a = first_match(refs, p).unwrap();
        assert(refs[a].same_reference(q));
        let b = first_match(refs, q).unwrap();
        assert(refs[b].same_reference(p));
        if a < b {
            assert(!refs[a].same_reference(q));
        } else if b < a {
            assert(!refs[b].same_reference(p));
        }
    } else if first_match(refs, q) is Some {
        let b = first_match(refs, q).unwrap();
        assert(refs[b].same_reference(p));
    }
}

/// Identity uniqueness: resolving a reference, then resolving the same
/// reference (or one with equal parts and an equal qualifier set) again,
/// yields the same identity the second time and stores nothing more.
pub proof fn lemma_resolve_twice(refs: Seq<PurlView>, p: PurlView, q: PurlView)
    requires
        p.same_reference(q),
    ensures
        resolved_refs(resolved_refs(refs, p), q) == resolved_refs(refs, p),
        resolved_id(resolved_refs(refs, p), q) == resolved_id(refs, p),
{
    let refs1 = resolved_refs(refs, p);
    lemma_first_match_respects_sameness(refs, p, q);
    lemma_first_match_respects_sameness(refs1, p, q);
    lemma_first_match(refs, p);
    lemma_first_match(refs1, q);
    if first_match(refs, p) is None {
        let n = refs.len() as int;
        assert(refs1[n] == p);
        assert(refs1[n].same_reference(q));
        assert forall|j: int| 0 <= j < n implies !refs1[j].same_reference(q) by {
            assert(refs1[j] == refs[j]);
        }
        let c = first_match(refs1, q).unwrap();
        if c < n {
            assert(refs1[c] == refs[c]);
        }
    }
}

/// Round trip: the identity that a fully qualified reference resolves to
/// stands for that same reference (same type, namespace, name, version and
/// qualifier set).
pub proof fn lemma_resolved_identity_round_trip(refs: Seq<PurlView>, p: PurlView)
    ensures
        0 <= resolved_id(refs, p) < resolved_refs(refs, p).len(),
        resolved_refs(refs, p)[resolved_id(refs, p)].same_reference(p),
{
    lemma_first_match(refs, p);
    if first_match(refs, p) is None {
        assert(resolved_refs(refs, p)[refs.len() as int] == p);
    }
}

/// The store of package identities.
pub struct PackageStore {
    packages: Vec<Package>,
}

impl PackageStore {
    /// The references of the stored identities, in order of creation; the
    /// position of each is its id.
    pub closed spec fn refs(&self) -> Seq<PurlView> {
        self.packages@.map_values(|p: Package| p.reference())
    }

    /// Ids are positions, every identity has a version, and no two
    /// identities name the same package.
    pub closed spec fn wf(&self) -> bool {
        &&& forall|i: int| 0 <= i < self.packages.len() ==> (#[trigger] self.packages@[i]).id == i
        &&& forall|i: int, j: int| 0 <= i < j < self.packages.len() ==>
                !(#[trigger] self.refs()[i]).same_reference(#[trigger] self.refs()[j])
    }

    pub fn new() -> (r: PackageStore)
        ensures
            r.wf(),
            r.refs() == Seq::<PurlView>::empty(),
    {
        let r = PackageStore { packages: Vec::new() };
        assert(r.refs() =~= Seq::<PurlView>::empty());
        r
    }

    pub fn len(&self) -> (r: usize)
        ensures
            r == self.refs().len(),
    {
        self.packages.len()
    }

    /// The identity with the given id.
    pub fn get(&self, id: usize) -> (r: &Package)
        requires
            self.wf(),
            id < self.refs().len(),
        ensures
            r.id == id,
            r.reference() == self.refs()[id as int],
    {
        &self.packages[id]
    }

    /// Looks up a reference without creating anything: the first identity
    /// with the same type, namespace, name, version and qualifier set.
    pub fn find(&self, p: &Purl) -> (r: Option<usize>)
        requires
            self.wf(),
        ensures
            r matches Some(id) ==> first_match(self.refs(), p@) == Some(id as int) && id < self.refs().len(),
            r is None ==> first_match(self.refs(), p@) is None,
    {
        let ghost refs = self.refs();
        let mut i: usize = 0;
        while i < self.packages.len()
            invariant
                self.wf(),
                refs == self.refs(),
                i <= self.packages.len(),
                forall|j: int| 0 <= j < i ==> !(#[trigger] refs[j]).same_reference(p@),
            decreases self.packages.len() - i,
        {
            let pkg = &self.packages[i];
            if let Some(v) = &p.version {
                if pkg.ty == p.ty && opt_eq(&pkg.namespace, &p.namespace) && pkg.name == p.name
                    && pkg.version == *v && qualifiers_equal(&pkg.qualifiers, &p.qualifiers) {
                    assert(refs[i as int].same_reference(p@));
                    return Some(i);
                }
            }
            assert(!refs[i as int].same_reference(p@));
            i = i + 1;
        }
        None
    }

    /// Returns the identity of a fully qualified reference, creating it when
    /// no stored identity matches.
    pub fn insert_or_fetch(&mut self, p: &Purl) -> (r: usize)
        requires
            old(self).wf(),
            p@.fully_qualified(),
        ensures
            final(self).wf(),
            r == resolved_id(old(self).refs(), p@),
            final(self).refs() == resolved_refs(old(self).refs(), p@),
            r < final(self).refs().len(),
            final(self).refs()[r as int].same_reference(p@),
    {
        match self.find(p) {
            Some(id) => id,
            None => {
                let id = self.packages.len();
                let pkg = Package {
                    id,
                    ty: p.ty.clone(),
                    namespace: clone_opt(&p.namespace),
                    name: p.name.clone(),
                    version: match &p.version { Some(v) => v.clone(), None => String::new() },
                    qualifiers: clone_qualifiers(&p.qualifiers),
                };
                let ghost old_refs = self.refs();
                self.packages.push(pkg);
                assert(self.refs() =~= old_refs.push(p@));
                proof {
                    assert forall|i: int| 0 <= i < old_refs.len() implies !(#[trigger] old_refs[i]).same_reference(p@) by {
                        if old_refs[i].same_reference(p@) {
                            assert(exists|i: int| 0 <= i < old_refs.len() && old_refs[i].same_reference(p@));
                        }
                    }
                }
                id
            }
        }
    }

    /// In a well-formed store a reference matches at most one identity, so
    /// an identity that matches is the first match.
    pub proof fn lemma_only_match(&self, id: int, key: PurlView)
        requires
            self.wf(),
            0 <= id < self.refs().len(),
            self.refs()[id].same_reference(key),
        ensures
            first_match(self.refs(), key) == Some(id),
    {
        let refs = self.refs();
        assert forall|j: int| 0 <= j < refs.len() && refs[j].same_reference(key) implies j == id by {
            if j < id {
                assert(!refs[j].same_reference(refs[id]));
            } else if id < j {
                assert(!refs[id].same_reference(refs[j]));
            }
        }
        assert forall|j: int| 0 <= j < id implies !refs[j].same_reference(key) by {}
    }

    /// At most one stored identity names a given package.
    pub proof fn lemma_unique(&self, i: int, j: int)
        requires
            self.wf(),
            0 <= i < self.refs().len(),
            0 <= j < self.refs().len(),
            self.refs()[i].same_reference(self.refs()[j]),
        ensures
            i == j,
    {
        if i < j {
            assert(!self.refs()[i].same_reference(self.refs()[j]));
        } else if j < i {
            assert(!self.refs()[j].same_reference(self.refs()[i]));
        }
    }
}

} // verus!
