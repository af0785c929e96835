//! Reading an SBOM's relationships: direct and transitive lookups, and the
//! vulnerability assertions that reach the packages it describes.
use vstd::prelude::*;

use crate::closure::{edges_within, reachable_from, reaches};
use crate::package::{first_match, Package};
use crate::purl::Purl;
use crate::sbom::{assertions_of, described_by, scoped_edges, strs, Graph, Relationship, SbomContext};
use crate::system::{contains_id, kept_children};

verus! {

/// The ids of a list of packages.
pub open spec fn package_ids(ps: Seq<Package>) -> Seq<usize> {
    ps.map_values(|p: Package| p.id)
}

/// The relationship kinds along which vulnerabilities propagate.
pub open spec fn propagating() -> Seq<Relationship> {
    seq![Relationship::DependencyOf, Relationship::ContainedBy]
}

/// Whether package `v` is reached, along the propagating kinds of this
/// SBOM's relationships, from one of the packages it describes.
pub open spec fn applicable(g: &Graph, sbom: usize, v: usize) -> bool {
    exists|d: usize| described_by(g.describes_package(), sbom).contains(d)
        && reaches(scoped_edges(g.relates(), sbom, propagating()), d, v)
}

impl SbomContext {
    /// The packages that stand in `relationship` to `pkg` in this SBOM (the
    /// left side of each edge whose right side is `pkg`), in edge order;
    /// none when `pkg` is not stored.
    pub fn related_packages(&self, graph: &Graph, relationship: Relationship, pkg: &Purl) -> (r: Vec<Package>)
        requires
            graph.wf(),
        ensures
            first_match(graph.refs(), pkg@) is None ==> r.len() == 0,
            first_match(graph.refs(), pkg@) matches Some(id) ==> r@.map_values(|p: Package| p.id) == kept_children(
                scoped_edges(graph.relates(), self.sbom.id, seq![relationship]), id as usize, Seq::empty()),
            forall|i: int| 0 <= i < r.len() ==> (#[trigger] r@[i]).reference() == graph.refs()[r@[i].id as int],
    {
        let id = match graph.get_qualified_package(pkg) {
            Some(id) => id,
            None => { return Vec::new(); }
        };
        let kinds = vec![relationship];
        let es = graph.scoped(self.sbom.id, &kinds);
        assert(kinds@ == seq![relationship]);
        let mut ids: Vec<usize> = Vec::new();
        let mut i: usize = 0;
        while i < es.len()
            invariant
                graph.wf(),
                edges_within(es@, graph.refs().len() as usize),
                i <= es.len(),
                ids@ == kept_children(es@.subrange(0, i as int), id, Seq::empty()),
                forall|k: int| 0 <= k < ids.len() ==> ids@[k] < graph.refs().len(),
            decreases es.len() - i,
        {
            assert(es@.subrange(0, i + 1).drop_last() =~= es@.subrange(0, i as int));
            assert(es@[i as int].1 < graph.refs().len());
            if es[i].0 == id {
                ids.push(es[i].1);
            }
            i = i + 1;
        }
        assert(es@.subrange(0, es.len() as int) =~= es@);
        graph.packages_of(&ids)
    }

    /// The packages reached from `pkg` by one or more of this SBOM's edges
    /// whose kind is in `relationships`, walking from right to left; each
    /// once, none when `pkg` is not stored.
    pub fn related_packages_transitively(&self, graph: &Graph, relationships: &Vec<Relationship>, pkg: &Purl) -> (r: Vec<Package>)
        requires
            graph.wf(),
        ensures
            first_match(graph.refs(), pkg@) is None ==> r.len() == 0,
            first_match(graph.refs(), pkg@) matches Some(id) ==> {
                &&& package_ids(r@).no_duplicates()
                &&& forall|v: usize| #[trigger] package_ids(r@).contains(v)
                    <==> reaches(scoped_edges(graph.relates(), self.sbom.id, relationships@), id as usize, v)
            },
            forall|i: int| 0 <= i < r.len() ==> (#[trigger] r@[i]).reference() == graph.refs()[r@[i].id as int],
    {
        let id = match graph.get_qualified_package(pkg) {
            Some(id) => id,
            None => { return Vec::new(); }
        };
        let ids = related_ids(graph, self.sbom.id, relationships, id);
        graph.packages_of(&ids)
    }

    /// As `related_packages_transitively`, along one relationship kind.
    pub fn related_packages_transitively_x(&self, graph: &Graph, relationship: Relationship, pkg: &Purl) -> (r: Vec<Package>)
        requires
            graph.wf(),
        ensures
            first_match(graph.refs(), pkg@) is None ==> r.len() == 0,
            first_match(graph.refs(), pkg@) matches Some(id) ==> {
                &&& package_ids(r@).no_duplicates()
                &&& forall|v: usize| #[trigger] package_ids(r@).contains(v)
                    <==> reaches(scoped_edges(graph.relates(), self.sbom.id, seq![relationship]), id as usize, v)
            },
            forall|i: int| 0 <= i < r.len() ==> (#[trigger] r@[i]).reference() == graph.refs()[r@[i].id as int],
    {
        let kinds = vec![relationship];
        assert(kinds@ == seq![relationship]);
        self.related_packages_transitively(graph, &kinds, pkg)
    }
}

/// The ids of the entries of an assertion map.
pub open spec fn entry_ids(es: Seq<(Package, Vec<String>)>) -> Seq<usize> {
    es.map_values(|e: (Package, Vec<String>)| e.0.id)
}

impl SbomContext {
    /// Every package that a package this SBOM describes reaches along
    /// "dependency of" and "contained by" edges, with the vulnerability
    /// assertions recorded against it; packages without any are left out.
    pub fn vulnerability_assertions(&self, graph: &Graph) -> (r: Vec<(Package, Vec<String>)>)
        requires
            graph.wf(),
        ensures
            entry_ids(r@).no_duplicates(),
            forall|i: int| 0 <= i < r.len() ==> {
                let e = #[trigger] r@[i];
                &&& e.0.reference() == graph.refs()[e.0.id as int]
                &&& applicable(graph, self.sbom.id, e.0.id)
                &&& strs(e.1@) == assertions_of(graph.assertions(), e.0.id)
                &&& e.1.len() > 0
            },
            forall|v: usize| applicable(graph, self.sbom.id, v) && assertions_of(graph.assertions(), v).len() > 0
                ==> #[trigger] entry_ids(r@).contains(v),
    {
        let sbom = self.sbom.id;
        let described = graph.described_ids(sbom);
        let kinds = vec![Relationship::DependencyOf, Relationship::ContainedBy];
        assert(kinds@ == propagating());
        let ghost es = scoped_edges(graph.relates(), sbom, propagating());
        let mut found: Vec<usize> = Vec::new();
        let mut i: usize = 0;
        while i < described.len()
            invariant
                graph.wf(),
                kinds@ == propagating(),
                es == scoped_edges(graph.relates(), sbom, propagating()),
                described@ == described_by(graph.describes_package(), sbom),
                forall|k: int| 0 <= k < described.len() ==> described@[k] < graph.refs().len(),
                i <= described.len(),
                found@.no_duplicates(),
                forall|k: int| 0 <= k < found.len() ==> found@[k] < graph.refs().len(),
                forall|v: usize| #[trigger] found@.contains(v) <==> exists|j: int| 0 <= j < i && reaches(es, #[trigger] described@[j], v),
            decreases described.len() - i,
        {
            let d = described[i];
            let reached = related_ids(graph, sbom, &kinds, d);
            let ghost before = found@;
            let mut k: usize = 0;
            while k < reached.len()
                invariant
                    graph.wf(),
                    k <= reached.len(),
                    forall|m: int| 0 <= m < reached.len() ==> reached@[m] < graph.refs().len(),
                    found@.no_duplicates(),
                    forall|m: int| 0 <= m < found.len() ==> found@[m] < graph.refs().len(),
                    forall|v: usize| #[trigger] found@.contains(v) <==> (before.contains(v) || exists|m: int| 0 <= m < k && reached@[m] == v),
                decreases reached.len() - k,
            {
                let v = reached[k];
                if !contains_id(&found, v) {
                    let ghost f0 = found@;
                    found.push(v);
                    proof {
                        assert forall|a: int, b: int| 0 <= a < found.len() && 0 <= b < found.len() && a != b
                            implies found@[a] != found@[b] by {
                            if a < f0.len() && b < f0.len() {
                                assert(found@[a] == f0[a] && found@[b] == f0[b]);
                            } else if a < f0.len() {
                                assert(found@[a] == f0[a]);
                                assert(f0.contains(found@[a]));
                            } else if b < f0.len() {
                                assert(found@[b] == f0[b]);
                                assert(f0.contains(found@[b]));
                            }
                        }
                        assert forall|w: usize| #[trigger] found@.contains(w) <==> (before.contains(w) || exists|m: int| 0 <= m < k + 1 && reached@[m] == w) by {
                            if found@.contains(w) {
                                let a = choose|a: int| 0 <= a < found.len() && found@[a] == w;
                                if a < f0.len() {
                                    assert(f0.contains(w));
                                }
                            }
                            if f0.contains(w) {
                                let a = choose|a: int| 0 <= a < f0.len() && f0[a] == w;
                                assert(found@[a] == w);
                            }
                            if exists|m: int| 0 <= m < k + 1 && reached@[m] == w {
                                let m = choose|m: int| 0 <= m < k + 1 && reached@[m] == w;
                                if m < k {
                                    assert(f0.contains(w));
                                } else {
                                    assert(found@[f0.len() as int] == w);
                                }
                            }
                            if before.contains(w) {
                                assert(f0.contains(w));
                            }
                        }
                    }
                } else {
                    proof {
                        assert forall|w: usize| #[trigger] found@.contains(w) <==> (before.contains(w) || exists|m: int| 0 <= m < k + 1 && reached@[m] == w) by {
                            if exists|m: int| 0 <= m < k + 1 && reached@[m] == w {
                                let m = choose|m: int| 0 <= m < k + 1 && reached@[m] == w;
                                if m < k {
                                    assert(found@.contains(w));
                                }
                            }
                        }
                    }
                }
                k = k + 1;
            }
            proof {
                assert forall|v: usize| #[trigger] found@.contains(v) <==> exists|j: int| 0 <= j < i + 1 && reaches(es, #[trigger] described@[j], v) by {
                    if exists|m: int| 0 <= m < reached.len() && reached@[m] == v {
                        assert(reached@.contains(v));
                        assert(reaches(es, described@[i as int], v));
                    }
                    if reaches(es, described@[i as int], v) {
                        assert(reached@.contains(v));
                        let m = choose|m: int| 0 <= m < reached.len() && reached@[m] == v;
                    }
                    if exists|j: int| 0 <= j < i + 1 && reaches(es, #[trigger] described@[j], v) {
                        let j = choose|j: int| 0 <= j < i + 1 && reaches(es, #[trigger] described@[j], v);
                        if j < i {
                            assert(before.contains(v));
                        }
                    }
                }
            }
            i = i + 1;
        }
        proof {
            assert forall|v: usize| #[trigger] found@.contains(v) <==> applicable(graph, sbom, v) by {
                if found@.contains(v) {
                    let j = choose|j: int| 0 <= j < described.len() && reaches(es, #[trigger] described@[j], v);
                    assert(described@.contains(described@[j]));
                }
                if applicable(graph, sbom, v) {
                    let d = choose|d: usize| described_by(graph.describes_package(), sbom).contains(d)
                        && reaches(scoped_edges(graph.relates(), sbom, propagating()), d, v);
                    let j = choose|j: int| 0 <= j < described.len() && described@[j] == d;
                    assert(reaches(es, described@[j], v));
                }
            }
        }
        let mut r: Vec<(Package, Vec<String>)> = Vec::new();
        let mut k: usize = 0;
        while k < found.len()
            invariant
                graph.wf(),
                found@.no_duplicates(),
                forall|m: int| 0 <= m < found.len() ==> found@[m] < graph.refs().len(),
                forall|v: usize| #[trigger] found@.contains(v) <==> applicable(graph, sbom, v),
                k <= found.len(),
                entry_ids(r@).no_duplicates(),
                forall|j: int| 0 <= j < r.len() ==> exists|m: int| 0 <= m < k && found@[m] == (#[trigger] r@[j]).0.id,
                forall|i: int| 0 <= i < r.len() ==> {
                    let e = #[trigger] r@[i];
                    &&& e.0.reference() == graph.refs()[e.0.id as int]
                    &&& applicable(graph, sbom, e.0.id)
                    &&& strs(e.1@) == assertions_of(graph.assertions(), e.0.id)
                    &&& e.1.len() > 0
                },
                forall|m: int| 0 <= m < k && assertions_of(graph.assertions(), #[trigger] found@[m]).len() > 0
                    ==> entry_ids(r@).contains(found@[m]),
            decreases found.len() - k,
        {
            let v = found[k];
            let a = graph.assertions_for(v);
            assert(found@.contains(v));
            if a.len() > 0 {
                let ghost r0 = r@;
                let p = graph.package(v);
                r.push((p, a));
                proof {
                    assert(entry_ids(r@) == entry_ids(r0).push(v));
                    assert forall|x: int, y: int| 0 <= x < r.len() && 0 <= y < r.len() && x != y
                        implies entry_ids(r@)[x] != entry_ids(r@)[y] by {
                        if x < r0.len() && y < r0.len() {
                            assert(entry_ids(r@)[x] == entry_ids(r0)[x] && entry_ids(r@)[y] == entry_ids(r0)[y]);
                        } else if x < r0.len() {
                            assert(r@[x] == r0[x]);
                            let m = choose|m: int| 0 <= m < k && found@[m] == (#[trigger] r0[x]).0.id;
                        } else if y < r0.len() {
                            assert(r@[y] == r0[y]);
                            let m = choose|m: int| 0 <= m < k && found@[m] == (#[trigger] r0[y]).0.id;
                        }
                    }
                    assert forall|j: int| 0 <= j < r.len() implies exists|m: int| 0 <= m < k + 1 && found@[m] == (#[trigger] r@[j]).0.id by {
                        if j < r0.len() {
                            assert(r@[j] == r0[j]);
                            let m = choose|m: int| 0 <= m < k && found@[m] == (#[trigger] r0[j]).0.id;
                        } else {
                            assert(found@[k as int] == r@[j].0.id);
                        }
                    }
                    assert forall|i: int| 0 <= i < r.len() implies {
                        let e = #[trigger] r@[i];
                        &&& e.0.reference() == graph.refs()[e.0.id as int]
                        &&& applicable(graph, sbom, e.0.id)
                        &&& strs(e.1@) == assertions_of(graph.assertions(), e.0.id)
                        &&& e.1.len() > 0
                    } by {
                        if i < r0.len() {
                            assert(r@[i] == r0[i]);
                        }
                    }
                    assert forall|m: int| 0 <= m < k + 1 && assertions_of(graph.assertions(), #[trigger] found@[m]).len() > 0
                        implies entry_ids(r@).contains(found@[m]) by {
                        if m < k {
                            let x = choose|x: int| 0 <= x < r0.len() && entry_ids(r0)[x] == found@[m];
                            assert(entry_ids(r@)[x] == found@[m]);
                        } else {
                            assert(entry_ids(r@)[r0.len() as int] == found@[m]);
                        }
                    }
                }
            }
            k = k + 1;
        }
        proof {
            assert forall|v: usize| applicable(graph, sbom, v) && assertions_of(graph.assertions(), v).len() > 0
                implies #[trigger] entry_ids(r@).contains(v) by {
                assert(found@.contains(v));
                let m = choose|m: int| 0 <= m < found.len() && found@[m] == v;
            }
        }
        r
    }
}

/// The ids reached from `root` along the SBOM's edges of the given kinds.
fn related_ids(graph: &Graph, sbom: usize, kinds: &Vec<Relationship>, root: usize) -> (r: Vec<usize>)
    requires
        graph.wf(),
        root < graph.refs().len(),
    ensures
        r@.no_duplicates(),
        forall|v: usize| r@.contains(v) <==> reaches(scoped_edges(graph.relates(), sbom, kinds@), root, v),
        forall|k: int| 0 <= k < r.len() ==> r@[k] < graph.refs().len(),
{
    let es = graph.scoped(sbom, kinds);
    let r = reachable_from(&es, graph.package_count(), root);
    proof {
        assert forall|k: int| 0 <= k < r.len() implies r@[k] < graph.refs().len() by {
            let v = r@[k];
            assert(r@.contains(v));
            let p = choose|p: Seq<usize>| #[trigger] crate::closure::is_walk(es@, p) && p[0] == root && p.last() == v;
            let i = p.len() - 2;
            assert(crate::closure::has_edge(es@, p[i], p[i + 1]));
            let j = choose|j: int| 0 <= j < es@.len() && es@[j] == (p[i], p[i + 1]);
            assert(es@[j].1 < graph.refs().len());
        }
    }
    r
}

} // verus!
