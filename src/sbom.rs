//! SBOM documents: their identity on `(location, sha256)`, the packages and
//! CPEs they describe, typed relationships between packages scoped to one
//! SBOM, and the vulnerability assertions recorded against packages.
use vstd::prelude::*;

use crate::closure::edges_within;
use crate::error::GraphError;
use crate::package::{clone_opt, first_match, resolved_id, resolved_refs, Package, PackageStore};
use crate::purl::{opt_view, Purl, PurlView};

verus! {

/// How two packages relate inside one SBOM: `left` is the subject,
/// `right` the object (`left` is a dependency of `right`).
#[derive(Clone, Copy, Debug, PartialEq, Eq, Structural, Hash)]
pub enum Relationship {
    ContainedBy,
    DependencyOf,
    DevDependencyOf,
    OptionalDependencyOf,
    ProvidedDependencyOf,
    TestDependencyOf,
    RuntimeDependencyOf,
    ExampleOf,
    GeneratedFrom,
    AncestorOf,
    VariantOf,
    BuildToolOf,
    DevToolOf,
    Describes,
    PackageOf,
}

/// Optional metadata of an SBOM; `published` is in seconds since the Unix
/// epoch.
#[derive(Debug)]
pub struct SbomInformation {
    pub title: Option<String>,
    pub published: Option<i64>,
}

impl Default for SbomInformation {
    fn default() -> (r: SbomInformation)
        ensures
            r.title is None,
            r.published is None,
    {
        SbomInformation { title: None, published: None }
    }
}

/// The mathematical content of a stored SBOM.
pub struct SbomView {
    pub id: int,
    pub document_id: Seq<char>,
    pub location: Seq<char>,
    pub sha256: Seq<char>,
    pub title: Option<Seq<char>>,
    pub published: Option<i64>,
}

/// A stored SBOM document. Its `id` is its position in the graph.
#[derive(Debug)]
pub struct Sbom {
    pub id: usize,
    pub document_id: String,
    pub location: String,
    pub sha256: String,
    pub title: Option<String>,
    pub published: Option<i64>,
}

impl View for Sbom {
    type V = SbomView;

    open spec fn view(&self) -> SbomView {
        SbomView {
            id: self.id as int,
            document_id: self.document_id@,
            location: self.location@,
            sha256: self.sha256@,
            title: opt_view(self.title),
            published: self.published,
        }
    }
}

impl Sbom {
    pub fn duplicate(&self) -> (r: Sbom)
        ensures
            r@ == self@,
    {
        Sbom {
            id: self.id,
            document_id: self.document_id.clone(),
            location: self.location.clone(),
            sha256: self.sha256.clone(),
            title: clone_opt(&self.title),
            published: self.published,
        }
    }
}

/// A handle on one stored SBOM, through which its edges are read and written.
#[derive(Debug)]
pub struct SbomContext {
    pub sbom: Sbom,
}

/// One page of results and the number of results in all.
#[derive(Debug)]
pub struct PaginatedResults<T> {
    pub total: usize,
    pub items: Vec<T>,
}

/// The ways to find an SBOM.
#[derive(Debug)]
pub enum SbomLocator {
    Id(usize),
    Location(String),
    Sha256(String),
    Purl(Purl),
    Cpe(String),
}

/// A relates-to edge `(sbom, left, relationship, right)`.
pub type RelatesTo = (usize, usize, Relationship, usize);

/// The edges of `sbom` whose kind is in `kinds`, turned around so that each
/// leads from `right` to `left`, in insertion order.
pub open spec fn scoped_edges(rs: Seq<RelatesTo>, sbom: usize, kinds: Seq<Relationship>) -> Seq<(usize, usize)>
    decreases rs.len(),
{
    if rs.len() == 0 {
        Seq::empty()
    } else {
        let prev = scoped_edges(rs.drop_last(), sbom, kinds);
        let e = rs.last();
        if e.0 == sbom && kinds.contains(e.2) {
            prev.push((e.3, e.1))
        } else {
            prev
        }
    }
}

/// The SBOMs after ingesting one at `(location, sha256)`: unchanged when one
/// is stored there already.
pub open spec fn sboms_after(sboms: Seq<SbomView>, s: SbomView) -> Seq<SbomView> {
    if exists|i: int| 0 <= i < sboms.len() && sboms[i].location == s.location && sboms[i].sha256 == s.sha256 {
        sboms
    } else {
        sboms.push(s)
    }
}

/// Whether `sbom` already describes a package.
pub open spec fn has_description(ds: Seq<(usize, usize)>, sbom: usize) -> bool {
    exists|i: int| 0 <= i < ds.len() && ds[i].0 == sbom
}

/// The describes-package edges after describing `pkg` with `sbom`: the first
/// description of an SBOM is the only one kept.
pub open spec fn describes_after(ds: Seq<(usize, usize)>, sbom: usize, pkg: usize) -> Seq<(usize, usize)> {
    if has_description(ds, sbom) {
        ds
    } else {
        ds.push((sbom, pkg))
    }
}

/// The packages that `sbom` describes, in edge order.
pub open spec fn described_by(ds: Seq<(usize, usize)>, sbom: usize) -> Seq<usize>
    decreases ds.len(),
{
    if ds.len() == 0 {
        Seq::empty()
    } else {
        let prev = described_by(ds.drop_last(), sbom);
        if ds.last().0 == sbom {
            prev.push(ds.last().1)
        } else {
            prev
        }
    }
}

/// A list with `x` appended unless it holds `x` already.
pub open spec fn insert_once<A>(s: Seq<A>, x: A) -> Seq<A> {
    if s.contains(x) {
        s
    } else {
        s.push(x)
    }
}

/// Ingesting an SBOM twice at the same `(location, sha256)` stores it once:
/// the second ingest leaves the SBOMs as the first left them.
pub proof fn lemma_sbom_ingest_idempotent(sboms: Seq<SbomView>, first: SbomView, second: SbomView)
    requires
        first.location == second.location,
        first.sha256 == second.sha256,
    ensures
        sboms_after(sboms_after(sboms, first), second) == sboms_after(sboms, first),
{
    let s1 = sboms_after(sboms, first);
    if s1 != sboms {
        assert(s1[sboms.len() as int] == first);
    }
}

/// Inserting an edge that is already there changes nothing: the edge is
/// stored exactly once, however often it is inserted.
pub proof fn lemma_insert_once_idempotent<A>(s: Seq<A>, x: A)
    requires
        s.no_duplicates(),
    ensures
        insert_once(insert_once(s, x), x) == insert_once(s, x),
        insert_once(s, x).contains(x),
        insert_once(s, x).no_duplicates(),
{
    if !s.contains(x) {
        let t = s.push(x);
        assert(t[s.len() as int] == x);
        assert forall|i: int, j: int| 0 <= i < t.len() && 0 <= j < t.len() && i != j implies t[i] != t[j] by {
            if i < s.len() && j < s.len() {
            } else if i < s.len() {
                assert(s.contains(t[i]));
            } else if j < s.len() {
                assert(s.contains(t[j]));
            }
        }
    }
}

proof fn lemma_no_description_none(ds: Seq<(usize, usize)>, sbom: usize)
    requires
        !has_description(ds, sbom),
    ensures
        described_by(ds, sbom) == Seq::<usize>::empty(),
    decreases ds.len(),
{
    if ds.len() > 0 {
        assert(ds.last() == ds[ds.len() - 1]);
        assert forall|i: int| 0 <= i < ds.drop_last().len() implies ds.drop_last()[i].0 != sbom by {
            assert(ds.drop_last()[i] == ds[i]);
        }
        lemma_no_description_none(ds.drop_last(), sbom);
    }
}

/// First description wins: describing an SBOM that describes nothing yet
/// by `first`, then by `second`, leaves `first` as the only package it
/// describes.
pub proof fn lemma_first_description_wins(ds: Seq<(usize, usize)>, sbom: usize, first: usize, second: usize)
    requires
        !has_description(ds, sbom),
    ensures
        described_by(describes_after(describes_after(ds, sbom, first), sbom, second), sbom) == seq![first],
{
    let d1 = ds.push((sbom, first));
    assert(d1[ds.len() as int].0 == sbom);
    assert(has_description(d1, sbom));
    assert(d1.drop_last() == ds);
    lemma_no_description_none(ds, sbom);
    assert(described_by(d1, sbom) =~= seq![first]);
}

/// The packages, CPEs and SBOMs with the edges between them.
pub struct Graph {
    packages: PackageStore,
    cpes: Vec<String>,
    sboms: Vec<Sbom>,
    describes_package: Vec<(usize, usize)>,
    describes_cpe: Vec<(usize, usize)>,
    relates: Vec<RelatesTo>,
    assertions: Vec<(usize, String)>,
}

pub open spec fn strs(v: Seq<String>) -> Seq<Seq<char>> {
    v.map_values(|s: String| s@)
}

impl Graph {
    /// The references of the package identities; the position of each is its id.
    pub closed spec fn refs(&self) -> Seq<PurlView> {
        self.packages.refs()
    }

    /// The CPE identities; the position of each is its id.
    pub closed spec fn cpes(&self) -> Seq<Seq<char>> {
        strs(self.cpes@)
    }

    /// The SBOMs; the position of each is its id.
    pub closed spec fn sbom_list(&self) -> Seq<SbomView> {
        self.sboms@.map_values(|s: Sbom| s@)
    }

    /// The describes-package edges `(sbom, package)`.
    pub closed spec fn describes_package(&self) -> Seq<(usize, usize)> {
        self.describes_package@
    }

    /// The describes-CPE edges `(sbom, cpe)`.
    pub closed spec fn describes_cpe(&self) -> Seq<(usize, usize)> {
        self.describes_cpe@
    }

    /// The relates-to edges.
    pub closed spec fn relates(&self) -> Seq<RelatesTo> {
        self.relates@
    }

    /// The vulnerability assertions `(package, assertion)`.
    pub closed spec fn assertions(&self) -> Seq<(usize, Seq<char>)> {
        self.assertions@.map_values(|a: (usize, String)| (a.0, a.1@))
    }

    /// Ids are positions; SBOMs are unique on `(location, sha256)` and CPEs
    /// on their text; every edge joins stored items and occurs once; an SBOM
    /// describes at most one package.
    pub closed spec fn wf(&self) -> bool {
        &&& self.packages.wf()
        &&& self.refs().len() < usize::MAX
        &&& self.sboms@.len() < usize::MAX
        &&& self.cpes@.len() < usize::MAX
        &&& forall|i: int| 0 <= i < self.sboms@.len() ==> (#[trigger] self.sboms@[i]).id == i
        &&& forall|i: int, j: int| 0 <= i < j < self.sboms@.len() ==>
                !((#[trigger] self.sboms@[i]).location@ == (#[trigger] self.sboms@[j]).location@
                    && self.sboms@[i].sha256@ == self.sboms@[j].sha256@)
        &&& self.cpes().no_duplicates()
        &&& forall|i: int| 0 <= i < self.describes_package@.len() ==>
                (#[trigger] self.describes_package@[i]).0 < self.sboms@.len() && self.describes_package@[i].1 < self.refs().len()
        &&& forall|i: int, j: int| 0 <= i < j < self.describes_package@.len() ==>
                (#[trigger] self.describes_package@[i]).0 != (#[trigger] self.describes_package@[j]).0
        &&& self.describes_cpe@.no_duplicates()
        &&& forall|i: int| 0 <= i < self.describes_cpe@.len() ==>
                (#[trigger] self.describes_cpe@[i]).0 < self.sboms@.len() && self.describes_cpe@[i].1 < self.cpes@.len()
        &&& self.relates@.no_duplicates()
        &&& forall|i: int| 0 <= i < self.relates@.len() ==>
                (#[trigger] self.relates@[i]).0 < self.sboms@.len() && self.relates@[i].1 < self.refs().len()
                    && self.relates@[i].3 < self.refs().len()
        &&& forall|i: int| 0 <= i < self.assertions@.len() ==> (#[trigger] self.assertions@[i]).0 < self.refs().len()
    }

    /// Nothing but the package identities changed, and those only grew.
    pub open spec fn only_packages_grew(&self, old: &Graph) -> bool {
        &&& self.refs().len() >= old.refs().len()
        &&& self.refs().subrange(0, old.refs().len() as int) == old.refs()
        &&& self.cpes() == old.cpes()
        &&& self.sbom_list() == old.sbom_list()
        &&& self.describes_package() == old.describes_package()
        &&& self.describes_cpe() == old.describes_cpe()
        &&& self.relates() == old.relates()
        &&& self.assertions() == old.assertions()
    }

    pub fn new() -> (r: Graph)
        ensures
            r.wf(),
            r.refs().len() == 0,
            r.cpes().len() == 0,
            r.sbom_list().len() == 0,
            r.describes_package().len() == 0,
            r.describes_cpe().len() == 0,
            r.relates().len() == 0,
            r.assertions().len() == 0,
    {
        let r = Graph {
            packages: PackageStore::new(),
            cpes: Vec::new(),
            sboms: Vec::new(),
            describes_package: Vec::new(),
            describes_cpe: Vec::new(),
            relates: Vec::new(),
            assertions: Vec::new(),
        };
        assert(r.cpes() =~= Seq::<Seq<char>>::empty());
        assert(r.sbom_list() =~= Seq::<SbomView>::empty());
        assert(r.assertions() =~= Seq::<(usize, Seq<char>)>::empty());
        r
    }

    /// Resolves a fully qualified package reference to its identity,
    /// creating it when none matches.
    pub fn ingest_qualified_package(&mut self, purl: &Purl) -> (r: Result<usize, GraphError>)
        requires
            old(self).wf(),
            old(self).refs().len() + 1 < usize::MAX,
        ensures
            final(self).wf(),
            final(self).only_packages_grew(old(self)),
            r is Err <==> !purl@.fully_qualified(),
            r matches Err(e) ==> e == GraphError::InvalidReference && final(self).refs() == old(self).refs(),
            r matches Ok(id) ==> id == resolved_id(old(self).refs(), purl@)
                && final(self).refs() == resolved_refs(old(self).refs(), purl@)
                && id < final(self).refs().len()
                && final(self).refs()[id as int].same_reference(purl@),
    {
        if purl.version.is_none() {
            assert(self.refs().subrange(0, self.refs().len() as int) =~= self.refs());
            return Err(GraphError::InvalidReference);
        }
        let ghost g0 = *self;
        let id = self.packages.insert_or_fetch(purl);
        assert(self.refs().subrange(0, g0.refs().len() as int) =~= g0.refs());
        Ok(id)
    }

    /// The identity of a package reference, if one is stored.
    pub fn get_qualified_package(&self, purl: &Purl) -> (r: Option<usize>)
        requires
            self.wf(),
        ensures
            r is Some <==> first_match(self.refs(), purl@) is Some,
            r matches Some(id) ==> first_match(self.refs(), purl@) == Some(id as int) && id < self.refs().len(),
    {
        self.packages.find(purl)
    }

    /// The package identity with the given id.
    pub fn package(&self, id: usize) -> (r: Package)
        requires
            self.wf(),
            id < self.refs().len(),
        ensures
            r.id == id,
            r.reference() == self.refs()[id as int],
    {
        self.packages.get(id).duplicate()
    }

    /// The id of a CPE, if it is stored.
    pub fn get_cpe(&self, cpe: &String) -> (r: Option<usize>)
        requires
            self.wf(),
        ensures
            r matches Some(id) ==> id < self.cpes().len() && self.cpes()[id as int] == cpe@,
            r is None ==> !self.cpes().contains(cpe@),
    {
        let mut i: usize = 0;
        while i < self.cpes.len()
            invariant
                i <= self.cpes@.len(),
                forall|j: int| 0 <= j < i ==> self.cpes()[j] != cpe@,
            decreases self.cpes@.len() - i,
        {
            if self.cpes[i] == *cpe {
                return Some(i);
            }
            i = i + 1;
        }
        None
    }

    /// Resolves a CPE to its id, storing it when absent.
    pub fn ingest_cpe22(&mut self, cpe: &String) -> (r: usize)
        requires
            old(self).wf(),
            old(self).cpes().len() + 1 < usize::MAX,
        ensures
            final(self).wf(),
            final(self).cpes() == insert_once(old(self).cpes(), cpe@),
            r < final(self).cpes().len() && final(self).cpes()[r as int] == cpe@,
            final(self).refs() == old(self).refs(),
            final(self).sbom_list() == old(self).sbom_list(),
            final(self).describes_package() == old(self).describes_package(),
            final(self).describes_cpe() == old(self).describes_cpe(),
            final(self).relates() == old(self).relates(),
            final(self).assertions() == old(self).assertions(),
    {
        match self.get_cpe(cpe) {
            Some(id) => {
                assert(old(self).cpes().contains(cpe@));
                id
            },
            None => {
                let ghost c0 = self.cpes();
                let id = self.cpes.len();
                self.cpes.push(cpe.clone());
                assert(self.cpes() =~= c0.push(cpe@));
                id
            },
        }
    }

    /// The SBOM stored at `(location, sha256)`, if any.
    pub fn get_sbom(&self, location: &String, sha256: &String) -> (r: Option<SbomContext>)
        requires
            self.wf(),
        ensures
            r is Some <==> exists|i: int| 0 <= i < self.sbom_list().len()
                && #[trigger] self.sbom_list()[i].location == location@ && self.sbom_list()[i].sha256 == sha256@,
            r matches Some(c) ==> c.sbom.id < self.sbom_list().len() && c.sbom@ == self.sbom_list()[c.sbom.id as int]
                && c.sbom.location@ == location@ && c.sbom.sha256@ == sha256@,
    {
        let mut i: usize = 0;
        while i < self.sboms.len()
            invariant
                self.wf(),
                i <= self.sboms@.len(),
                forall|j: int| 0 <= j < i ==> !(#[trigger] self.sbom_list()[j].location == location@ && self.sbom_list()[j].sha256 == sha256@),
            decreases self.sboms@.len() - i,
        {
            let s = &self.sboms[i];
            if s.location == *location && s.sha256 == *sha256 {
                assert(self.sbom_list()[i as int] == s@);
                assert(self.sbom_list()[i as int].location == location@ && self.sbom_list()[i as int].sha256 == sha256@);
                return Some(SbomContext { sbom: s.duplicate() });
            }
            assert(self.sbom_list()[i as int] == s@);
            i = i + 1;
        }
        None
    }

    /// The SBOM with the given id, if any.
    pub fn get_sbom_by_id(&self, id: usize) -> (r: Option<SbomContext>)
        requires
            self.wf(),
        ensures
            r is Some <==> id < self.sbom_list().len(),
            r matches Some(c) ==> c.sbom@ == self.sbom_list()[id as int],
    {
        if id < self.sboms.len() {
            Some(SbomContext { sbom: self.sboms[id].duplicate() })
        } else {
            None
        }
    }

    /// Stores an SBOM, or returns the one already stored at the same
    /// `(location, sha256)` unchanged.
    pub fn ingest_sbom(&mut self, location: &String, sha256: &String, document_id: &String, info: SbomInformation) -> (r: SbomContext)
        requires
            old(self).wf(),
            old(self).sbom_list().len() + 1 < usize::MAX,
        ensures
            final(self).wf(),
            final(self).sbom_list() == sboms_after(old(self).sbom_list(), SbomView {
                id: old(self).sbom_list().len() as int,
                document_id: document_id@,
                location: location@,
                sha256: sha256@,
                title: opt_view(info.title),
                published: info.published,
            }),
            r.sbom.id < final(self).sbom_list().len(),
            r.sbom@ == final(self).sbom_list()[r.sbom.id as int],
            r.sbom.location@ == location@ && r.sbom.sha256@ == sha256@,
            final(self).refs() == old(self).refs(),
            final(self).cpes() == old(self).cpes(),
            final(self).describes_package() == old(self).describes_package(),
            final(self).describes_cpe() == old(self).describes_cpe(),
            final(self).relates() == old(self).relates(),
            final(self).assertions() == old(self).assertions(),
    {
        if let Some(found) = self.get_sbom(location, sha256) {
            return found;
        }
        let ghost s0 = self.sbom_list();
        let id = self.sboms.len();
        let sbom = Sbom {
            id,
            document_id: document_id.clone(),
            location: location.clone(),
            sha256: sha256.clone(),
            title: info.title,
            published: info.published,
        };
        let r = SbomContext { sbom: sbom.duplicate() };
        self.sboms.push(sbom);
        assert(self.sbom_list() =~= s0.push(r.sbom@));
        proof {
            assert forall|i: int, j: int| 0 <= i < j < self.sboms@.len() implies
                !((#[trigger] self.sboms@[i]).location@ == (#[trigger] self.sboms@[j]).location@
                    && self.sboms@[i].sha256@ == self.sboms@[j].sha256@) by {
                assert(self.sbom_list()[i] == self.sboms@[i]@);
                assert(self.sbom_list()[j] == self.sboms@[j]@);
                if j == id {
                    assert(!(s0[i].location == location@ && s0[i].sha256 == sha256@));
                }
            }
        }
        r
    }
}

/// The position of `c` among the CPEs.
pub open spec fn cpe_index(cpes: Seq<Seq<char>>, c: Seq<char>) -> int {
    choose|i: int| 0 <= i < cpes.len() && cpes[i] == c
}

/// Whether an edge of `ds` starts at `sbom`.
fn has_description_exec(ds: &Vec<(usize, usize)>, sbom: usize) -> (r: bool)
    ensures
        r == has_description(ds@, sbom),
{
    let mut i: usize = 0;
    while i < ds.len()
        invariant
            i <= ds.len(),
            forall|j: int| 0 <= j < i ==> ds@[j].0 != sbom,
        decreases ds.len() - i,
    {
        if ds[i].0 == sbom {
            return true;
        }
        i = i + 1;
    }
    false
}

/// The targets of the edges of `ds` that start at `sbom`, in edge order.
fn described_by_exec(ds: &Vec<(usize, usize)>, sbom: usize) -> (r: Vec<usize>)
    ensures
        r@ == described_by(ds@, sbom),
{
    let mut r: Vec<usize> = Vec::new();
    let mut i: usize = 0;
    while i < ds.len()
        invariant
            i <= ds.len(),
            r@ == described_by(ds@.subrange(0, i as int), sbom),
        decreases ds.len() - i,
    {
        assert(ds@.subrange(0, i + 1).drop_last() =~= ds@.subrange(0, i as int));
        if ds[i].0 == sbom {
            r.push(ds[i].1);
        }
        i = i + 1;
    }
    assert(ds@.subrange(0, ds.len() as int) =~= ds@);
    r
}

/// Every entry of `described_by(ds, sbom)` is the target of some edge.
proof fn lemma_described_in(ds: Seq<(usize, usize)>, sbom: usize, k: int)
    requires
        0 <= k < described_by(ds, sbom).len(),
    ensures
        exists|i: int| 0 <= i < ds.len() && ds[i] == (sbom, #[trigger] described_by(ds, sbom)[k]),
    decreases ds.len(),
{
    let prev = described_by(ds.drop_last(), sbom);
    if k < prev.len() {
        lemma_described_in(ds.drop_last(), sbom, k);
        let i = choose|i: int| 0 <= i < ds.drop_last().len() && ds.drop_last()[i] == (sbom, #[trigger] prev[k]);
        assert(ds[i] == ds.drop_last()[i]);
    } else {
        assert(ds[ds.len() - 1] == (sbom, described_by(ds, sbom)[k]));
    }
}

impl SbomContext {
    /// Marks `purl` as the package this SBOM describes. The first
    /// description wins: once the SBOM describes a package, later calls
    /// change nothing, whatever reference they carry.
    pub fn ingest_describes_package(&self, graph: &mut Graph, purl: &Purl) -> (r: Result<(), GraphError>)
        requires
            old(graph).wf(),
            old(graph).refs().len() + 1 < usize::MAX,
            self.sbom.id < old(graph).sbom_list().len(),
        ensures
            final(graph).wf(),
            final(graph).cpes() == old(graph).cpes(),
            final(graph).sbom_list() == old(graph).sbom_list(),
            final(graph).describes_cpe() == old(graph).describes_cpe(),
            final(graph).relates() == old(graph).relates(),
            final(graph).assertions() == old(graph).assertions(),
            has_description(old(graph).describes_package(), self.sbom.id) ==> r is Ok
                && final(graph).refs() == old(graph).refs()
                && final(graph).describes_package() == old(graph).describes_package(),
            !has_description(old(graph).describes_package(), self.sbom.id) ==> {
                &&& (r is Err <==> !purl@.fully_qualified())
                &&& (r matches Err(e) ==> e == GraphError::InvalidReference && final(graph).refs() == old(graph).refs()
                    && final(graph).describes_package() == old(graph).describes_package())
                &&& (r is Ok ==> final(graph).refs() == resolved_refs(old(graph).refs(), purl@)
                    && final(graph).describes_package() == describes_after(old(graph).describes_package(), self.sbom.id,
                        resolved_id(old(graph).refs(), purl@) as usize))
            },
    {
        if has_description_exec(&graph.describes_package, self.sbom.id) {
            return Ok(());
        }
        let id = match graph.ingest_qualified_package(purl) {
            Ok(id) => id,
            Err(e) => { return Err(e); }
        };
        let ghost ds = graph.describes_package@;
        graph.describes_package.push((self.sbom.id, id));
        proof {
            assert forall|i: int| 0 <= i < graph.describes_package@.len() implies
                (#[trigger] graph.describes_package@[i]).0 < graph.sboms@.len() && graph.describes_package@[i].1 < graph.refs().len() by {
                if i < ds.len() {
                    assert(graph.describes_package@[i] == ds[i]);
                }
            }
            assert forall|i: int, j: int| 0 <= i < j < graph.describes_package@.len() implies
                (#[trigger] graph.describes_package@[i]).0 != (#[trigger] graph.describes_package@[j]).0 by {
                assert(graph.describes_package@[i] == ds[i]);
                if j < ds.len() {
                    assert(graph.describes_package@[j] == ds[j]);
                }
            }
        }
        Ok(())
    }

    /// Marks a CPE, stored first when absent, as described by this SBOM;
    /// a pair already recorded is kept once.
    pub fn ingest_describes_cpe22(&self, graph: &mut Graph, cpe: &String)
        requires
            old(graph).wf(),
            old(graph).cpes().len() + 1 < usize::MAX,
            self.sbom.id < old(graph).sbom_list().len(),
        ensures
            final(graph).wf(),
            final(graph).cpes() == insert_once(old(graph).cpes(), cpe@),
            final(graph).describes_cpe() == insert_once(old(graph).describes_cpe(),
                (self.sbom.id, cpe_index(final(graph).cpes(), cpe@) as usize)),
            final(graph).refs() == old(graph).refs(),
            final(graph).sbom_list() == old(graph).sbom_list(),
            final(graph).describes_package() == old(graph).describes_package(),
            final(graph).relates() == old(graph).relates(),
            final(graph).assertions() == old(graph).assertions(),
    {
        let c = graph.ingest_cpe22(cpe);
        proof {
            let k = cpe_index(graph.cpes(), cpe@);
            assert(0 <= k < graph.cpes().len() && graph.cpes()[k] == cpe@);
            assert(graph.cpes().no_duplicates());
            assert(k == c);
        }
        let e = (self.sbom.id, c);
        if !crate::system::contains_edge(&graph.describes_cpe, e) {
            let ghost ds = graph.describes_cpe@;
            graph.describes_cpe.push(e);
            proof {
                assert forall|i: int| 0 <= i < graph.describes_cpe@.len() implies
                    (#[trigger] graph.describes_cpe@[i]).0 < graph.sboms@.len() && graph.describes_cpe@[i].1 < graph.cpes@.len() by {
                    if i < ds.len() {
                        assert(graph.describes_cpe@[i] == ds[i]);
                    }
                }
                assert forall|i: int, j: int| 0 <= i < graph.describes_cpe@.len() && 0 <= j < graph.describes_cpe@.len() && i != j
                    implies graph.describes_cpe@[i] != graph.describes_cpe@[j] by {
                    if i < ds.len() && j < ds.len() {
                        assert(graph.describes_cpe@[i] == ds[i] && graph.describes_cpe@[j] == ds[j]);
                    } else if i < ds.len() {
                        assert(graph.describes_cpe@[i] == ds[i]);
                    } else if j < ds.len() {
                        assert(graph.describes_cpe@[j] == ds[j]);
                    }
                }
            }
        }
    }

    /// The packages this SBOM describes.
    pub fn describes_packages(&self, graph: &Graph) -> (r: Vec<Package>)
        requires
            graph.wf(),
        ensures
            r@.map_values(|p: Package| p.id) == described_by(graph.describes_package(), self.sbom.id),
            forall|i: int| 0 <= i < r.len() ==> (#[trigger] r@[i]).id < graph.refs().len()
                && r@[i].reference() == graph.refs()[r@[i].id as int],
    {
        let ids = described_by_exec(&graph.describes_package, self.sbom.id);
        let mut r: Vec<Package> = Vec::new();
        let mut i: usize = 0;
        while i < ids.len()
            invariant
                graph.wf(),
                ids@ == described_by(graph.describes_package@, self.sbom.id),
                i <= ids.len(),
                r@.len() == i,
                forall|k: int| 0 <= k < i ==> (#[trigger] r@[k]).id == ids@[k] && r@[k].id < graph.refs().len()
                    && r@[k].reference() == graph.refs()[r@[k].id as int],
            decreases ids.len() - i,
        {
            proof {
                lemma_described_in(graph.describes_package@, self.sbom.id, i as int);
            }
            r.push(graph.packages.get(ids[i]).duplicate());
            i = i + 1;
        }
        assert(r@.map_values(|p: Package| p.id) =~= ids@);
        r
    }

    /// The CPEs this SBOM describes.
    pub fn describes_cpe22s(&self, graph: &Graph) -> (r: Vec<String>)
        requires
            graph.wf(),
        ensures
            strs(r@) == described_by(graph.describes_cpe(), self.sbom.id).map_values(|c: usize| graph.cpes()[c as int]),
    {
        let ids = described_by_exec(&graph.describes_cpe, self.sbom.id);
        let mut r: Vec<String> = Vec::new();
        let mut i: usize = 0;
        while i < ids.len()
            invariant
                graph.wf(),
                ids@ == described_by(graph.describes_cpe@, self.sbom.id),
                i <= ids.len(),
                r@.len() == i,
                forall|k: int| 0 <= k < i ==> (#[trigger] r@[k])@ == graph.cpes()[ids@[k] as int],
            decreases ids.len() - i,
        {
            proof {
                lemma_described_in(graph.describes_cpe@, self.sbom.id, i as int);
            }
            r.push(graph.cpes[ids[i]].clone());
            i = i + 1;
        }
        assert(strs(r@) =~= ids@.map_values(|c: usize| graph.cpes()[c as int]));
        r
    }
}

/// Whether the SBOM at position `i` is one that `loc` finds: by id, by
/// location, by hash, or as a describer of the given package or CPE.
pub open spec fn locator_matches(g: &Graph, loc: SbomLocator, i: int) -> bool {
    match loc {
        SbomLocator::Id(id) => i == id,
        SbomLocator::Location(l) => g.sbom_list()[i].location == l@,
        SbomLocator::Sha256(h) => g.sbom_list()[i].sha256 == h@,
        SbomLocator::Purl(p) => first_match(g.refs(), p@) matches Some(pid)
            && g.describes_package().contains((i as usize, pid as usize)),
        SbomLocator::Cpe(c) => g.cpes().contains(c@)
            && g.describes_cpe().contains((i as usize, cpe_index(g.cpes(), c@) as usize)),
    }
}

/// The positions below `n` of the SBOMs that `loc` finds, in order.
pub open spec fn matching_sboms(g: &Graph, loc: SbomLocator, n: nat) -> Seq<int>
    decreases n,
{
    if n == 0 {
        Seq::empty()
    } else {
        let prev = matching_sboms(g, loc, (n - 1) as nat);
        if locator_matches(g, loc, n - 1) {
            prev.push(n - 1)
        } else {
            prev
        }
    }
}

/// The ids of a list of SBOM handles.
pub open spec fn sbom_ids(cs: Seq<SbomContext>) -> Seq<int> {
    cs.map_values(|c: SbomContext| c.sbom.id as int)
}

impl Graph {
    /// One page of the SBOMs: at most `limit` of them, from position
    /// `offset` on, and how many there are in all.
    pub fn sboms(&self, offset: usize, limit: usize) -> (r: PaginatedResults<SbomContext>)
        requires
            self.wf(),
        ensures
            r.total == self.sbom_list().len(),
            ({
                let end = if offset + limit < self.sbom_list().len() { offset + limit } else { self.sbom_list().len() as int };
                let start = if offset < end { offset as int } else { end };
                sbom_ids(r.items@) == Seq::new((end - start) as nat, |k: int| start + k)
            }),
            forall|k: int| 0 <= k < r.items.len() ==> (#[trigger] r.items@[k]).sbom.id < self.sbom_list().len()
                && r.items@[k].sbom@ == self.sbom_list()[r.items@[k].sbom.id as int],
    {
        let n = self.sboms.len();
        let end = if limit <= n && offset <= n - limit { offset + limit } else { n };
        let start = if offset < end { offset } else { end };
        let mut items: Vec<SbomContext> = Vec::new();
        let mut i: usize = start;
        while i < end
            invariant
                self.wf(),
                start <= i <= end <= n,
                n == self.sboms@.len(),
                items@.len() == i - start,
                forall|k: int| 0 <= k < items.len() ==> (#[trigger] items@[k]).sbom.id == start + k
                    && items@[k].sbom@ == self.sbom_list()[start + k],
            decreases end - i,
        {
            items.push(SbomContext { sbom: self.sboms[i].duplicate() });
            i = i + 1;
        }
        assert(sbom_ids(items@) =~= Seq::new((end - start) as nat, |k: int| start + k));
        PaginatedResults { total: n, items }
    }

    fn locator_matches_exec(&self, loc: &SbomLocator, i: usize, pkg: Option<usize>, cpe: Option<usize>) -> (r: bool)
        requires
            self.wf(),
            i < self.sbom_list().len(),
            loc matches SbomLocator::Purl(p) ==> pkg == match first_match(self.refs(), p@) {
                Some(x) => Some(x as usize),
                None => None,
            },
            loc matches SbomLocator::Cpe(c) ==> (cpe is Some <==> self.cpes().contains(c@))
                && (cpe matches Some(x) ==> x == cpe_index(self.cpes(), c@)),
        ensures
            r == locator_matches(self, *loc, i as int),
    {
        match loc {
            SbomLocator::Id(id) => i == *id,
            SbomLocator::Location(l) => {
                assert(self.sbom_list()[i as int] == self.sboms@[i as int]@);
                self.sboms[i].location == *l
            },
            SbomLocator::Sha256(h) => {
                assert(self.sbom_list()[i as int] == self.sboms@[i as int]@);
                self.sboms[i].sha256 == *h
            },
            SbomLocator::Purl(_) => match pkg {
                Some(pid) => crate::system::contains_edge(&self.describes_package, (i, pid)),
                None => false,
            },
            SbomLocator::Cpe(_) => match cpe {
                Some(cid) => crate::system::contains_edge(&self.describes_cpe, (i, cid)),
                None => false,
            },
        }
    }

    /// All SBOMs that `locator` finds, in order of id. Nothing is created.
    pub fn locate_sboms(&self, locator: &SbomLocator) -> (r: Vec<SbomContext>)
        requires
            self.wf(),
        ensures
            sbom_ids(r@) == matching_sboms(self, *locator, self.sbom_list().len()),
            forall|k: int| 0 <= k < r.len() ==> (#[trigger] r@[k]).sbom.id < self.sbom_list().len()
                && r@[k].sbom@ == self.sbom_list()[r@[k].sbom.id as int],
    {
        let pkg = match locator {
            SbomLocator::Purl(p) => self.packages.find(p),
            _ => None,
        };
        let cpe = match locator {
            SbomLocator::Cpe(c) => {
                let found = self.get_cpe(c);
                proof {
                    if let Some(x) = found {
                        assert(self.cpes().contains(c@));
                        let k = cpe_index(self.cpes(), c@);
                        assert(self.cpes().no_duplicates());
                        assert(k == x);
                    }
                }
                found
            },
            _ => None,
        };
        let mut r: Vec<SbomContext> = Vec::new();
        let mut i: usize = 0;
        while i < self.sboms.len()
            invariant
                self.wf(),
                i <= self.sboms@.len(),
                locator matches SbomLocator::Purl(p) ==> pkg == match first_match(self.refs(), p@) {
                    Some(x) => Some(x as usize),
                    None => None,
                },
                locator matches SbomLocator::Cpe(c) ==> (cpe is Some <==> self.cpes().contains(c@))
                    && (cpe matches Some(x) ==> x == cpe_index(self.cpes(), c@)),
                sbom_ids(r@) == matching_sboms(self, *locator, i as nat),
                forall|k: int| 0 <= k < r.len() ==> (#[trigger] r@[k]).sbom.id < self.sbom_list().len()
                    && r@[k].sbom@ == self.sbom_list()[r@[k].sbom.id as int],
            decreases self.sboms@.len() - i,
        {
            if self.locator_matches_exec(locator, i, pkg, cpe) {
                let ghost before = r@;
                r.push(SbomContext { sbom: self.sboms[i].duplicate() });
                assert(sbom_ids(r@) =~= sbom_ids(before).push(i as int));
            }
            i = i + 1;
        }
        r
    }

    /// The first SBOM that `locator` finds, if any. Nothing is created.
    pub fn locate_sbom(&self, locator: &SbomLocator) -> (r: Option<SbomContext>)
        requires
            self.wf(),
        ensures
            r is Some <==> matching_sboms(self, *locator, self.sbom_list().len()).len() > 0,
            r matches Some(c) ==> c.sbom.id == matching_sboms(self, *locator, self.sbom_list().len())[0]
                && c.sbom@ == self.sbom_list()[c.sbom.id as int],
    {
        let mut all = self.locate_sboms(locator);
        if all.len() == 0 {
            None
        } else {
            assert(sbom_ids(all@)[0] == all@[0].sbom.id);
            Some(all.swap_remove(0))
        }
    }
}

impl Graph {
    /// The number of package identities.
    pub fn package_count(&self) -> (r: usize)
        requires
            self.wf(),
        ensures
            r == self.refs().len(),
    {
        self.packages.len()
    }

    /// A stored identity that matches a reference is its first match.
    pub proof fn lemma_only_match(&self, id: int, key: PurlView)
        requires
            self.wf(),
            0 <= id < self.refs().len(),
            self.refs()[id].same_reference(key),
        ensures
            first_match(self.refs(), key) == Some(id),
    {
        self.packages.lemma_only_match(id, key);
    }

    /// The packages that `sbom` describes, as ids.
    pub(crate) fn described_ids(&self, sbom: usize) -> (r: Vec<usize>)
        requires
            self.wf(),
        ensures
            r@ == described_by(self.describes_package(), sbom),
            forall|k: int| 0 <= k < r.len() ==> r@[k] < self.refs().len(),
    {
        let r = described_by_exec(&self.describes_package, sbom);
        proof {
            assert forall|k: int| 0 <= k < r.len() implies r@[k] < self.refs().len() by {
                lemma_described_in(self.describes_package@, sbom, k);
            }
        }
        r
    }

    /// Stores a relates-to edge unless it is already there.
    pub(crate) fn insert_relation(&mut self, e: RelatesTo)
        requires
            old(self).wf(),
            e.0 < old(self).sbom_list().len(),
            e.1 < old(self).refs().len(),
            e.3 < old(self).refs().len(),
        ensures
            final(self).wf(),
            final(self).relates() == insert_once(old(self).relates(), e),
            final(self).refs() == old(self).refs(),
            final(self).cpes() == old(self).cpes(),
            final(self).sbom_list() == old(self).sbom_list(),
            final(self).describes_package() == old(self).describes_package(),
            final(self).describes_cpe() == old(self).describes_cpe(),
            final(self).assertions() == old(self).assertions(),
    {
        if !contains_relation(&self.relates, e) {
            let ghost rs = self.relates@;
            self.relates.push(e);
            proof {
                assert(self.relates@ == rs.push(e));
                assert forall|i: int, j: int| 0 <= i < self.relates@.len() && 0 <= j < self.relates@.len() && i != j
                    implies self.relates@[i] != self.relates@[j] by {
                    if i < rs.len() && j < rs.len() {
                        assert(self.relates@[i] == rs[i] && self.relates@[j] == rs[j]);
                    } else if i < rs.len() {
                        assert(self.relates@[i] == rs[i]);
                    } else if j < rs.len() {
                        assert(self.relates@[j] == rs[j]);
                    }
                }
                assert forall|i: int| 0 <= i < self.relates@.len() implies
                    (#[trigger] self.relates@[i]).0 < self.sboms@.len() && self.relates@[i].1 < self.refs().len()
                        && self.relates@[i].3 < self.refs().len() by {
                    if i < rs.len() {
                        assert(self.relates@[i] == rs[i]);
                    }
                }
            }
        }
    }
}

/// The assertions recorded for `id`, in order of recording.
pub open spec fn assertions_of(a: Seq<(usize, Seq<char>)>, id: usize) -> Seq<Seq<char>>
    decreases a.len(),
{
    if a.len() == 0 {
        Seq::empty()
    } else {
        let prev = assertions_of(a.drop_last(), id);
        if a.last().0 == id {
            prev.push(a.last().1)
        } else {
            prev
        }
    }
}

/// Whether `kinds` holds `k`.
fn has_kind(kinds: &Vec<Relationship>, k: Relationship) -> (r: bool)
    ensures
        r == kinds@.contains(k),
{
    let mut i: usize = 0;
    while i < kinds.len()
        invariant
            i <= kinds.len(),
            forall|j: int| 0 <= j < i ==> kinds@[j] != k,
        decreases kinds.len() - i,
    {
        if kinds[i] == k {
            return true;
        }
        i = i + 1;
    }
    false
}

impl Graph {
    /// The edges of `sbom` of the given kinds, each turned to lead from
    /// `right` to `left`.
    pub(crate) fn scoped(&self, sbom: usize, kinds: &Vec<Relationship>) -> (r: Vec<(usize, usize)>)
        requires
            self.wf(),
        ensures
            r@ == scoped_edges(self.relates(), sbom, kinds@),
            edges_within(r@, self.refs().len() as usize),
    {
        let ghost rs = self.relates@;
        let mut r: Vec<(usize, usize)> = Vec::new();
        let mut i: usize = 0;
        while i < self.relates.len()
            invariant
                self.wf(),
                rs == self.relates@,
                i <= rs.len(),
                r@ == scoped_edges(rs.subrange(0, i as int), sbom, kinds@),
                edges_within(r@, self.refs().len() as usize),
            decreases rs.len() - i,
        {
            assert(rs.subrange(0, i + 1).drop_last() =~= rs.subrange(0, i as int));
            let e = self.relates[i];
            if e.0 == sbom && has_kind(kinds, e.2) {
                let ghost before = r@;
                r.push((e.3, e.1));
                assert forall|k: int| 0 <= k < r@.len() implies (#[trigger] r@[k]).0 < self.refs().len() as usize
                    && r@[k].1 < self.refs().len() as usize by {
                    if k < before.len() {
                        assert(r@[k] == before[k]);
                    }
                }
            }
            i = i + 1;
        }
        assert(rs.subrange(0, rs.len() as int) =~= rs);
        r
    }

    /// Records a vulnerability assertion against a package identity.
    pub fn ingest_vulnerability_assertion(&mut self, pkg: usize, assertion: String)
        requires
            old(self).wf(),
            pkg < old(self).refs().len(),
        ensures
            final(self).wf(),
            final(self).assertions() == old(self).assertions().push((pkg, assertion@)),
            final(self).refs() == old(self).refs(),
            final(self).cpes() == old(self).cpes(),
            final(self).sbom_list() == old(self).sbom_list(),
            final(self).describes_package() == old(self).describes_package(),
            final(self).describes_cpe() == old(self).describes_cpe(),
            final(self).relates() == old(self).relates(),
    {
        let ghost a0 = self.assertions@;
        let ghost v0 = self.assertions();
        self.assertions.push((pkg, assertion));
        assert(self.assertions() =~= v0.push((pkg, self.assertions@[a0.len() as int].1@)));
        assert forall|i: int| 0 <= i < self.assertions@.len() implies (#[trigger] self.assertions@[i]).0 < self.refs().len() by {
            if i < a0.len() {
                assert(self.assertions@[i] == a0[i]);
            }
        }
    }

    /// The assertions recorded for a package.
    pub fn assertions_for(&self, pkg: usize) -> (r: Vec<String>)
        requires
            self.wf(),
        ensures
            strs(r@) == assertions_of(self.assertions(), pkg),
    {
        let ghost a = self.assertions();
        let mut r: Vec<String> = Vec::new();
        let mut i: usize = 0;
        while i < self.assertions.len()
            invariant
                a == self.assertions(),
                i <= a.len(),
                strs(r@) == assertions_of(a.subrange(0, i as int), pkg),
            decreases a.len() - i,
        {
            assert(a.subrange(0, i + 1).drop_last() =~= a.subrange(0, i as int));
            if self.assertions[i].0 == pkg {
                let ghost before = strs(r@);
                r.push(self.assertions[i].1.clone());
                assert(strs(r@) =~= before.push(a[i as int].1));
            }
            i = i + 1;
        }
        assert(a.subrange(0, a.len() as int) =~= a);
        r
    }

    pub(crate) fn packages_of(&self, ids: &Vec<usize>) -> (r: Vec<Package>)
        requires
            self.wf(),
            forall|k: int| 0 <= k < ids.len() ==> ids@[k] < self.refs().len(),
        ensures
            r@.map_values(|p: Package| p.id) == ids@,
            forall|i: int| 0 <= i < r.len() ==> (#[trigger] r@[i]).reference() == self.refs()[r@[i].id as int],
    {
        let mut r: Vec<Package> = Vec::new();
        let mut i: usize = 0;
        while i < ids.len()
            invariant
                self.wf(),
                forall|k: int| 0 <= k < ids.len() ==> ids@[k] < self.refs().len(),
                i <= ids.len(),
                r@.len() == i,
                forall|k: int| 0 <= k < i ==> (#[trigger] r@[k]).id == ids@[k] && r@[k].reference() == self.refs()[r@[k].id as int],
            decreases ids.len() - i,
        {
            r.push(self.packages.get(ids[i]).duplicate());
            i = i + 1;
        }
        assert(r@.map_values(|p: Package| p.id) =~= ids@);
        r
    }
}

/// Whether `v` holds the relates-to edge `e`.
fn contains_relation(v: &Vec<RelatesTo>, e: RelatesTo) -> (r: bool)
    ensures
        r == v@.contains(e),
{
    let mut i: usize = 0;
    while i < v.len()
        invariant
            i <= v.len(),
            forall|j: int| 0 <= j < i ==> v@[j] != e,
        decreases v.len() - i,
    {
        let x = v[i];
        if x.0 == e.0 && x.1 == e.1 && x.2 == e.2 && x.3 == e.3 {
            assert(v@[i as int] == e);
            return true;
        }
        i = i + 1;
    }
    false
}

} // verus!
