//! Package identities with directed "depends-on" edges between them, and the
//! reachability tree of a package's dependencies.
use vstd::prelude::*;

use crate::closure::{edges_within, lemma_distinct_ids_bounded, reachable_from, reaches};
use crate::error::GraphError;
use crate::package::{clone_qualifiers, first_match, resolved_id, resolved_refs, Package, PackageStore};
use crate::purl::{Purl, PurlView};

verus! {

/// The successors of `x` in edge order, leaving out those in `path`.
pub open spec fn kept_children(es: Seq<(usize, usize)>, x: usize, path: Seq<usize>) -> Seq<usize>
    decreases es.len(),
{
    if es.len() == 0 {
        Seq::empty()
    } else {
        let prev = kept_children(es.drop_last(), x, path);
        if es.last().0 == x && !path.contains(es.last().1) {
            prev.push(es.last().1)
        } else {
            prev
        }
    }
}

/// A package with the trees of its dependencies.
#[derive(Debug)]
pub struct PackageTree {
    pub id: usize,
    pub purl: Purl,
    pub dependencies: Vec<PackageTree>,
}

/// `t` is the dependency tree of `t.id` under the ancestors `anc`: each node
/// carries its identity's reference, and its children are its successors in
/// edge order, less any that is already on the path from the root, so that
/// a cycle is cut where it would close.
pub open spec fn tree_ok(es: Seq<(usize, usize)>, refs: Seq<PurlView>, t: PackageTree, anc: Seq<usize>) -> bool
    decreases t,
{
    &&& t.id < refs.len()
    &&& t.purl@ == refs[t.id as int]
    &&& t.dependencies@.map_values(|c: PackageTree| c.id) == kept_children(es, t.id, anc.push(t.id))
    &&& forall|i: int| 0 <= i < t.dependencies.len() ==> tree_ok(es, refs, #[trigger] t.dependencies@[i], anc.push(t.id))
}


/// Whether `v` holds `x`.
pub fn contains_id(v: &Vec<usize>, x: usize) -> (r: bool)
    ensures
        r == v@.contains(x),
{
    let mut i: usize = 0;
    while i < v.len()
        invariant
            i <= v.len(),
            forall|j: int| 0 <= j < i ==> v@[j] != x,
        decreases v.len() - i,
    {
        if v[i] == x {
            return true;
        }
        i = i + 1;
    }
    false
}

/// Whether `v` holds the edge `e`.
pub fn contains_edge(v: &Vec<(usize, usize)>, e: (usize, usize)) -> (r: bool)
    ensures
        r == v@.contains(e),
{
    let mut i: usize = 0;
    while i < v.len()
        invariant
            i <= v.len(),
            forall|j: int| 0 <= j < i ==> v@[j] != e,
        decreases v.len() - i,
    {
        if v[i].0 == e.0 && v[i].1 == e.1 {
            assert(v@[i as int] == e);
            return true;
        }
        i = i + 1;
    }
    false
}

fn copy_ids(v: &Vec<usize>) -> (r: Vec<usize>)
    ensures
        r@ == v@,
{
    let mut r: Vec<usize> = Vec::new();
    let mut i: usize = 0;
    while i < v.len()
        invariant
            i <= v.len(),
            r@ == v@.subrange(0, i as int),
        decreases v.len() - i,
    {
        r.push(v[i]);
        assert(r@ =~= v@.subrange(0, i + 1));
        i = i + 1;
    }
    assert(r@ =~= v@);
    r
}

/// The package identity store together with its dependency edges.
pub struct System {
    packages: PackageStore,
    dependencies: Vec<(usize, usize)>,
}

impl System {
    /// The references of the identities; the position of each is its id.
    pub closed spec fn refs(&self) -> Seq<PurlView> {
        self.packages.refs()
    }

    /// The dependency edges `(dependent, dependency)`, in order of insertion.
    pub closed spec fn edges(&self) -> Seq<(usize, usize)> {
        self.dependencies@
    }

    /// Identities are unique, and every edge joins two stored identities
    /// and occurs once.
    pub closed spec fn wf(&self) -> bool {
        &&& self.packages.wf()
        &&& edges_within(self.dependencies@, self.packages.refs().len() as usize)
        &&& self.packages.refs().len() < usize::MAX
        &&& self.dependencies@.no_duplicates()
    }

    pub fn new() -> (r: System)
        ensures
            r.wf(),
            r.refs() == Seq::<PurlView>::empty(),
            r.edges() == Seq::<(usize, usize)>::empty(),
    {
        System { packages: PackageStore::new(), dependencies: Vec::new() }
    }

    /// Resolves a reference given by parts to its identity, creating the
    /// identity when none matches.
    pub fn insert_or_fetch_package(
        &mut self,
        ty: &String,
        namespace: Option<&String>,
        name: &String,
        version: &String,
        qualifiers: &Vec<(String, String)>,
    ) -> (r: Package)
        requires
            old(self).wf(),
            old(self).refs().len() + 1 < usize::MAX,
        ensures
            final(self).wf(),
            final(self).edges() == old(self).edges(),
            ({
                let key = PurlView {
                    ty: ty@,
                    namespace: match namespace { Some(n) => Some(n@), None => None },
                    name: name@,
                    version: Some(version@),
                    qualifiers: crate::purl::qualifiers_view(qualifiers@),
                };
                &&& r.id == resolved_id(old(self).refs(), key)
                &&& final(self).refs() == resolved_refs(old(self).refs(), key)
                &&& r.reference() == final(self).refs()[r.id as int]
            }),
    {
        let p = Purl {
            ty: ty.clone(),
            namespace: match namespace { Some(n) => Some(n.clone()), None => None },
            name: name.clone(),
            version: Some(version.clone()),
            qualifiers: clone_qualifiers(qualifiers),
        };
        let id = self.packages.insert_or_fetch(&p);
        self.packages.get(id).duplicate()
    }

    /// Resolves a fully qualified reference to its identity, creating it
    /// when none matches; a reference without a version is rejected.
    pub fn ingest_package(&mut self, pkg: &Purl) -> (r: Result<Package, GraphError>)
        requires
            old(self).wf(),
            old(self).refs().len() + 1 < usize::MAX,
        ensures
            final(self).wf(),
            final(self).edges() == old(self).edges(),
            r is Err <==> !pkg@.fully_qualified(),
            r matches Err(e) ==> e == GraphError::InvalidReference && final(self).refs() == old(self).refs(),
            r matches Ok(p) ==> p.id == resolved_id(old(self).refs(), pkg@)
                && final(self).refs() == resolved_refs(old(self).refs(), pkg@)
                && p.id < final(self).refs().len()
                && p.reference() == final(self).refs()[p.id as int]
                && p.reference().same_reference(pkg@),
    {
        if pkg.version.is_none() {
            return Err(GraphError::InvalidReference);
        }
        let id = self.packages.insert_or_fetch(pkg);
        Ok(self.packages.get(id).duplicate())
    }

    /// The identity of a reference, if one is stored; nothing is created.
    pub fn fetch_package(&self, pkg: &Purl) -> (r: Option<Package>)
        requires
            self.wf(),
        ensures
            r is Some <==> first_match(self.refs(), pkg@) is Some,
            r matches Some(p) ==> first_match(self.refs(), pkg@) == Some(p.id as int)
                && p.reference() == self.refs()[p.id as int],
    {
        match self.packages.find(pkg) {
            Some(id) => Some(self.packages.get(id).duplicate()),
            None => None,
        }
    }

    /// Every stored identity as a reference, in order of creation.
    pub fn packages(&self) -> (r: Vec<Purl>)
        requires
            self.wf(),
        ensures
            r@.map_values(|p: Purl| p@) == self.refs(),
    {
        let mut r: Vec<Purl> = Vec::new();
        let mut i: usize = 0;
        while i < self.packages.len()
            invariant
                self.wf(),
                i <= self.refs().len(),
                r@.len() == i,
                forall|j: int| 0 <= j < i ==> (#[trigger] r@[j])@ == self.refs()[j],
            decreases self.refs().len() - i,
        {
            r.push(self.packages.get(i).to_purl());
            i = i + 1;
        }
        assert(r@.map_values(|p: Purl| p@) =~= self.refs());
        r
    }

    /// Records that `dependent` depends on `dependency`, resolving (or
    /// creating) both identities first; an edge already present is kept as
    /// it is. Fails, changing nothing, when either reference lacks a version.
    pub fn ingest_package_dependency(&mut self, dependent: &Purl, dependency: &Purl) -> (r: Result<(usize, usize), GraphError>)
        requires
            old(self).wf(),
            old(self).refs().len() + 2 < usize::MAX,
        ensures
            final(self).wf(),
            r is Err <==> !(dependent@.fully_qualified() && dependency@.fully_qualified()),
            r matches Err(e) ==> e == GraphError::InvalidReference && final(self).refs() == old(self).refs()
                && final(self).edges() == old(self).edges(),
            r matches Ok(edge) ==> ({
                let refs1 = resolved_refs(old(self).refs(), dependent@);
                &&& edge.0 == resolved_id(old(self).refs(), dependent@)
                &&& edge.1 == resolved_id(refs1, dependency@)
                &&& final(self).refs() == resolved_refs(refs1, dependency@)
                &&& final(self).edges() == if old(self).edges().contains(edge) {
                    old(self).edges()
                } else {
                    old(self).edges().push(edge)
                }
            }),
    {
        if dependent.version.is_none() || dependency.version.is_none() {
            return Err(GraphError::InvalidReference);
        }
        let ghost n0 = self.refs().len();
        let a = self.packages.insert_or_fetch(dependent);
        let b = self.packages.insert_or_fetch(dependency);
        let ghost n = self.refs().len();
        assert(n0 <= n);
        let ghost es = self.dependencies@;
        assert(edges_within(es, n as usize)) by {
            assert forall|i: int| 0 <= i < es.len() implies (#[trigger] es[i]).0 < n as usize && es[i].1 < n as usize by {
                assert(es[i].0 < n0 as usize);
            }
        }
        if !contains_edge(&self.dependencies, (a, b)) {
            self.dependencies.push((a, b));
            proof {
                assert forall|i: int| 0 <= i < self.dependencies@.len() implies (#[trigger] self.dependencies@[i]).0 < n as usize
                    && self.dependencies@[i].1 < n as usize by {
                    if i < es.len() {
                        assert(self.dependencies@[i] == es[i]);
                    }
                }
                assert forall|i: int, j: int| 0 <= i < self.dependencies@.len() && 0 <= j < self.dependencies@.len() && i != j
                    implies self.dependencies@[i] != self.dependencies@[j] by {
                    if i < es.len() && j < es.len() {
                        assert(self.dependencies@[i] == es[i] && self.dependencies@[j] == es[j]);
                    } else if i < es.len() {
                        assert(self.dependencies@[i] == es[i]);
                    } else if j < es.len() {
                        assert(self.dependencies@[j] == es[j]);
                    }
                }
            }
        }
        Ok((a, b))
    }

    /// The references of the packages that `pkg` directly depends on, in
    /// edge order; `pkg` itself is resolved (or created) first.
    pub fn direct_dependencies(&mut self, pkg: &Purl) -> (r: Result<Vec<Purl>, GraphError>)
        requires
            old(self).wf(),
            old(self).refs().len() + 1 < usize::MAX,
        ensures
            final(self).wf(),
            final(self).edges() == old(self).edges(),
            final(self).refs() == if pkg@.fully_qualified() { resolved_refs(old(self).refs(), pkg@) } else { old(self).refs() },
            r is Err <==> !pkg@.fully_qualified(),
            r matches Err(e) ==> e == GraphError::InvalidReference,
            r matches Ok(v) ==> v@.map_values(|p: Purl| p@) == kept_children(
                final(self).edges(), resolved_id(old(self).refs(), pkg@) as usize, Seq::empty()).map_values(
                |c: usize| final(self).refs()[c as int]),
    {
        let root = match self.ingest_package(pkg) {
            Ok(p) => p.id,
            Err(e) => { return Err(e); }
        };
        let ghost es = self.dependencies@;
        let ghost refs = self.refs();
        let mut r: Vec<Purl> = Vec::new();
        let mut i: usize = 0;
        while i < self.dependencies.len()
            invariant
                self.wf(),
                es == self.dependencies@,
                refs == self.refs(),
                i <= es.len(),
                r@.map_values(|p: Purl| p@) == kept_children(es.subrange(0, i as int), root, Seq::empty()).map_values(
                    |c: usize| refs[c as int]),
            decreases es.len() - i,
        {
            let (from, to) = self.dependencies[i];
            let ghost prev = r@;
            assert(es.subrange(0, i + 1).drop_last() =~= es.subrange(0, i as int));
            assert(es[i as int].1 < refs.len());
            if from == root {
                r.push(self.packages.get(to).to_purl());
                assert(r@.map_values(|p: Purl| p@) =~= prev.map_values(|p: Purl| p@).push(refs[to as int]));
            }
            i = i + 1;
        }
        assert(es.subrange(0, es.len() as int) =~= es);
        Ok(r)
    }

    /// The identities reachable from `root` by one or more dependency edges,
    /// each once; cycles are harmless.
    pub fn dependency_closure(&self, root: usize) -> (r: Vec<usize>)
        requires
            self.wf(),
            root < self.refs().len(),
        ensures
            r@.no_duplicates(),
            forall|v: usize| r@.contains(v) <==> reaches(self.edges(), root, v),
    {
        reachable_from(&self.dependencies, self.packages.len(), root)
    }

    fn build_tree(&self, x: usize, anc: &Vec<usize>) -> (r: PackageTree)
        requires
            self.wf(),
            x < self.refs().len(),
            anc@.no_duplicates(),
            !anc@.contains(x),
            forall|i: int| 0 <= i < anc.len() ==> anc@[i] < self.refs().len(),
        ensures
            tree_ok(self.edges(), self.refs(), r, anc@),
            r.id == x,
        decreases self.refs().len() - anc.len(),
    {
        let ghost es = self.dependencies@;
        let mut path = copy_ids(anc);
        path.push(x);
        proof {
            assert forall|i: int, j: int| 0 <= i < path.len() && 0 <= j < path.len() && i != j implies path@[i] != path@[j] by {
                if i < anc.len() && j < anc.len() {
                } else if i < anc.len() {
                    assert(anc@.contains(path@[i]));
                } else if j < anc.len() {
                    assert(anc@.contains(path@[j]));
                }
            }
            lemma_distinct_ids_bounded(path@, self.refs().len() as usize);
        }
        let mut children: Vec<PackageTree> = Vec::new();
        let mut i: usize = 0;
        while i < self.dependencies.len()
            invariant
                self.wf(),
                es == self.dependencies@,
                path@ == anc@.push(x),
                path@.no_duplicates(),
                path.len() <= self.refs().len(),
                forall|k: int| 0 <= k < path.len() ==> path@[k] < self.refs().len(),
                i <= es.len(),
                children@.map_values(|c: PackageTree| c.id) == kept_children(es.subrange(0, i as int), x, path@),
                forall|k: int| 0 <= k < children.len() ==> tree_ok(es, self.refs(), #[trigger] children@[k], path@),
            decreases es.len() - i,
        {
            let (from, to) = self.dependencies[i];
            let ghost prev = children@;
            assert(es.subrange(0, i + 1).drop_last() =~= es.subrange(0, i as int));
            assert(es[i as int].1 < self.refs().len());
            if from == x && !contains_id(&path, to) {
                let t = self.build_tree(to, &path);
                children.push(t);
                assert(children@.map_values(|c: PackageTree| c.id) =~= prev.map_values(|c: PackageTree| c.id).push(to));
                assert forall|k: int| 0 <= k < children.len() implies tree_ok(es, self.refs(), #[trigger] children@[k], path@) by {
                    if k < prev.len() {
                        assert(children@[k] == prev[k]);
                    }
                }
            }
            i = i + 1;
        }
        assert(es.subrange(0, es.len() as int) =~= es);
        let t = PackageTree { id: x, purl: self.packages.get(x).to_purl(), dependencies: children };
        assert(t.dependencies@ == children@);
        t
    }

    /// The full dependency tree of `root`, which is resolved (or created)
    /// first. A dependency that would close a cycle back to one of its own
    /// ancestors is left out, so the tree is always finite.
    pub fn transitive_dependencies(&mut self, root: &Purl) -> (r: Result<PackageTree, GraphError>)
        requires
            old(self).wf(),
            old(self).refs().len() + 1 < usize::MAX,
        ensures
            final(self).wf(),
            final(self).edges() == old(self).edges(),
            final(self).refs() == if root@.fully_qualified() { resolved_refs(old(self).refs(), root@) } else { old(self).refs() },
            r is Err <==> !root@.fully_qualified(),
            r matches Err(e) ==> e == GraphError::InvalidReference,
            r matches Ok(t) ==> t.id == resolved_id(old(self).refs(), root@)
                && tree_ok(final(self).edges(), final(self).refs(), t, Seq::empty()),
    {
        let id = match self.ingest_package(root) {
            Ok(p) => p.id,
            Err(e) => { return Err(e); }
        };
        let anc: Vec<usize> = Vec::new();
        Ok(self.build_tree(id, &anc))
    }

    /// At most one stored identity names a given package.
    pub proof fn lemma_identity_unique(&self, i: int, j: int)
        requires
            self.wf(),
            0 <= i < self.refs().len(),
            0 <= j < self.refs().len(),
            self.refs()[i].same_reference(self.refs()[j]),
        ensures
            i == j,
    {
        self.packages.lemma_unique(i, j);
    }

    /// The distinct package types among the stored identities.
    pub fn package_types(&self) -> (r: Vec<String>)
        requires
            self.wf(),
        ensures
            strings_view(r@).no_duplicates(),
            forall|t: Seq<char>| strings_view(r@).contains(t) <==> exists|i: int| 0 <= i < self.refs().len() && #[trigger] self.refs()[i].ty == t,
    {
        let mut r: Vec<String> = Vec::new();
        let mut i: usize = 0;
        while i < self.packages.len()
            invariant
                self.wf(),
                i <= self.refs().len(),
                strings_view(r@).no_duplicates(),
                forall|t: Seq<char>| strings_view(r@).contains(t) <==> exists|j: int| 0 <= j < i && #[trigger] self.refs()[j].ty == t,
            decreases self.refs().len() - i,
        {
            let pkg = self.packages.get(i);
            push_unique(&mut r, &pkg.ty);
            assert(self.refs()[i as int].ty == pkg.ty@);
            i = i + 1;
        }
        r
    }

    /// The distinct namespaces among the stored identities.
    pub fn package_namespaces(&self) -> (r: Vec<String>)
        requires
            self.wf(),
        ensures
            strings_view(r@).no_duplicates(),
            forall|n: Seq<char>| strings_view(r@).contains(n) <==> exists|i: int| 0 <= i < self.refs().len() && #[trigger] self.refs()[i].namespace == Some(n),
    {
        let mut r: Vec<String> = Vec::new();
        let mut i: usize = 0;
        while i < self.packages.len()
            invariant
                self.wf(),
                i <= self.refs().len(),
                strings_view(r@).no_duplicates(),
                forall|n: Seq<char>| strings_view(r@).contains(n) <==> exists|j: int| 0 <= j < i && #[trigger] self.refs()[j].namespace == Some(n),
            decreases self.refs().len() - i,
        {
            let pkg = self.packages.get(i);
            if let Some(ns) = &pkg.namespace {
                push_unique(&mut r, ns);
                assert(self.refs()[i as int].namespace == Some(ns@));
            }
            i = i + 1;
        }
        r
    }
}

pub open spec fn strings_view(v: Seq<String>) -> Seq<Seq<char>> {
    v.map_values(|s: String| s@)
}

/// Appends a copy of `s` unless an equal string is already there.
pub fn push_unique(v: &mut Vec<String>, s: &String)
    requires
        strings_view(old(v)@).no_duplicates(),
    ensures
        strings_view(final(v)@).no_duplicates(),
        forall|t: Seq<char>| strings_view(final(v)@).contains(t) <==> (strings_view(old(v)@).contains(t) || t == s@),
{
    let ghost sv = strings_view(v@);
    let mut i: usize = 0;
    let mut found = false;
    while i < v.len() && !found
        invariant
            i <= v.len(),
            sv == strings_view(v@),
            found ==> sv.contains(s@),
            !found ==> forall|j: int| 0 <= j < i ==> sv[j] != s@,
        decreases v.len() - i,
    {
        if v[i] == *s {
            assert(sv[i as int] == s@);
            found = true;
        }
        i = i + 1;
    }
    if found {
        return;
    }
    v.push(s.clone());
    assert(strings_view(v@) =~= sv.push(s@));
    assert forall|t: Seq<char>| strings_view(v@).contains(t) implies (sv.contains(t) || t == s@) by {
        let k = choose|k: int| 0 <= k < strings_view(v@).len() && strings_view(v@)[k] == t;
        if k < sv.len() {
            assert(sv[k] == t);
        }
    }
    assert forall|t: Seq<char>| sv.contains(t) implies strings_view(v@).contains(t) by {
        let k = choose|k: int| 0 <= k < sv.len() && sv[k] == t;
        assert(strings_view(v@)[k] == t);
    }
    assert(strings_view(v@)[sv.len() as int] == s@);
}

} // verus!
