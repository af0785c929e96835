//! The resolution cache of one ingest, and the SBOM-scoped relationship
//! edges recorded through it.
use vstd::prelude::*;

use crate::error::GraphError;
use crate::package::{resolved_id, resolved_refs};
use crate::purl::{Purl, PurlView};
use crate::sbom::{insert_once, Graph, Relationship, SbomContext};

verus! {

/// What became of a relationship to be recorded: stored, or skipped because
/// one or both of its references could not be resolved.
#[derive(Clone, Copy, Debug, PartialEq, Eq, Structural)]
pub enum RelateOutcome {
    Related,
    UnresolvedLeft,
    UnresolvedRight,
    UnresolvedBoth,
}

/// Remembers, for one ingest, how each package reference resolved, so that
/// each distinct reference is resolved once; a failure is remembered too.
pub struct PackageCache {
    cache: Vec<(Purl, Result<usize, GraphError>)>,
    hits: usize,
}

impl PackageCache {
    /// The references looked up so far, each with its outcome.
    pub closed spec fn entries(&self) -> Seq<(PurlView, Result<usize, GraphError>)> {
        self.cache@.map_values(|e: (Purl, Result<usize, GraphError>)| (e.0@, e.1))
    }

    /// How many lookups were answered from the cache.
    pub closed spec fn hit_count(&self) -> nat {
        self.hits as nat
    }

    /// Whether some entry is for the same package as `p`.
    pub open spec fn remembers(&self, p: PurlView) -> bool {
        exists|i: int| 0 <= i < self.entries().len() && (#[trigger] self.entries()[i]).0.same_reference(p)
    }

    /// Every outcome is the one that resolving its reference against `refs`
    /// gives: the matching identity, or an error for a reference without a
    /// version.
    pub open spec fn consistent(&self, refs: Seq<PurlView>) -> bool {
        forall|i: int| 0 <= i < self.entries().len() ==> {
            let e = #[trigger] self.entries()[i];
            &&& (e.1 is Err <==> !e.0.fully_qualified())
            &&& (e.1 matches Err(x) ==> x == GraphError::InvalidReference)
            &&& (e.1 matches Ok(id) ==> id < refs.len() && refs[id as int].same_reference(e.0))
        }
    }

    pub fn new(capacity: usize) -> (r: PackageCache)
        ensures
            r.entries().len() == 0,
            r.hit_count() == 0,
    {
        let r = PackageCache { cache: Vec::with_capacity(capacity), hits: 0 };
        assert(r.entries() =~= Seq::<(PurlView, Result<usize, GraphError>)>::empty());
        r
    }

    /// The number of lookups answered from the cache.
    pub fn hits(&self) -> (r: usize)
        ensures
            r == self.hit_count(),
    {
        self.hits
    }

    /// A cache stays consistent while the identities only grow.
    pub proof fn lemma_consistent_grow(&self, refs: Seq<PurlView>, more: Seq<PurlView>)
        requires
            self.consistent(refs),
            more.len() >= refs.len(),
            more.subrange(0, refs.len() as int) == refs,
        ensures
            self.consistent(more),
    {
        assert forall|i: int| 0 <= i < self.entries().len() implies {
            let e = #[trigger] self.entries()[i];
            e.1 matches Ok(id) ==> id < more.len() && more[id as int].same_reference(e.0)
        } by {
            let e = self.entries()[i];
            if let Ok(id) = e.1 {
                assert(more.subrange(0, refs.len() as int)[id as int] == more[id as int]);
            }
        }
    }

    /// Resolves `purl` against `graph`, at most once for each distinct
    /// reference: a reference seen before gets its remembered outcome and
    /// counts a hit, without touching the graph.
    pub fn lookup(&mut self, graph: &mut Graph, purl: &Purl) -> (r: Result<usize, GraphError>)
        requires
            old(graph).wf(),
            old(graph).refs().len() + 1 < usize::MAX,
            old(self).consistent(old(graph).refs()),
        ensures
            final(graph).wf(),
            final(graph).only_packages_grew(old(graph)),
            final(self).consistent(final(graph).refs()),
            r is Err <==> !purl@.fully_qualified(),
            r matches Err(e) ==> e == GraphError::InvalidReference && final(graph).refs() == old(graph).refs(),
            r matches Ok(id) ==> id == resolved_id(old(graph).refs(), purl@)
                && final(graph).refs() == resolved_refs(old(graph).refs(), purl@)
                && id < final(graph).refs().len()
                && final(graph).refs()[id as int].same_reference(purl@),
            old(self).remembers(purl@) ==> final(graph).refs() == old(graph).refs()
                && final(self).entries() == old(self).entries()
                && final(self).hit_count() == if old(self).hit_count() < usize::MAX { old(self).hit_count() + 1 } else { old(self).hit_count() },
            !old(self).remembers(purl@) ==> final(self).entries() == old(self).entries().push((purl@, r))
                && final(self).hit_count() == old(self).hit_count(),
    {
        let ghost entries = self.entries();
        let mut i: usize = 0;
        while i < self.cache.len()
            invariant
                entries == self.entries(),
                entries == old(self).entries(),
                self.hits == old(self).hits,
                *graph == *old(graph),
                graph.wf(),
                self.consistent(graph.refs()),
                i <= self.cache@.len(),
                forall|j: int| 0 <= j < i ==> !(#[trigger] entries[j]).0.same_reference(purl@),
            decreases self.cache@.len() - i,
        {
            let hit = self.cache[i].0.same_reference(purl);
            assert(entries[i as int].0 == self.cache@[i as int].0@);
            if hit {
                let cached = &self.cache[i].1;
                assert(entries[i as int].1 == *cached);
                let r = match cached {
                    Ok(id) => Ok(*id),
                    Err(_) => Err(GraphError::InvalidReference),
                };
                if self.hits < usize::MAX {
                    self.hits = self.hits + 1;
                }
                proof {
                    assert(self.entries() =~= entries);
                    let e = entries[i as int];
                    if let Ok(id) = e.1 {
                        assert(graph.refs()[id as int].same_reference(purl@));
                        graph.lemma_only_match(id as int, purl@);
                    }
                    assert(graph.refs().subrange(0, graph.refs().len() as int) =~= graph.refs());
                }
                return r;
            }
            i = i + 1;
        }
        let ghost refs0 = graph.refs();
        let r = graph.ingest_qualified_package(purl);
        self.cache.push((crate::package::clone_purl(purl), r));
        proof {
            assert(self.entries() =~= entries.push((purl@, r)));
            assert(!self.remembers(purl@) || true);
            assert forall|j: int| 0 <= j < self.entries().len() implies {
                let e = #[trigger] self.entries()[j];
                &&& (e.1 is Err <==> !e.0.fully_qualified())
                &&& (e.1 matches Err(x) ==> x == GraphError::InvalidReference)
                &&& (e.1 matches Ok(id) ==> id < graph.refs().len() && graph.refs()[id as int].same_reference(e.0))
            } by {
                if j < entries.len() {
                    assert(self.entries()[j] == entries[j]);
                    if let Ok(id) = entries[j].1 {
                        assert(graph.refs().subrange(0, refs0.len() as int)[id as int] == graph.refs()[id as int]);
                    }
                }
            }
        }
        r
    }
}

impl SbomContext {
    /// Within this SBOM, records that `left` relates to `right`, resolving
    /// both references through `cache`. An edge already present is not
    /// stored twice; when a reference cannot be resolved the edge is skipped
    /// and the outcome says which side failed.
    pub fn ingest_package_relates_to_package(
        &self,
        graph: &mut Graph,
        cache: &mut PackageCache,
        left: &Purl,
        relationship: Relationship,
        right: &Purl,
    ) -> (r: RelateOutcome)
        requires
            old(graph).wf(),
            old(graph).refs().len() + 2 < usize::MAX,
            self.sbom.id < old(graph).sbom_list().len(),
            old(cache).consistent(old(graph).refs()),
        ensures
            final(graph).wf(),
            final(cache).consistent(final(graph).refs()),
            final(graph).refs().len() >= old(graph).refs().len(),
            final(graph).refs().subrange(0, old(graph).refs().len() as int) == old(graph).refs(),
            final(graph).cpes() == old(graph).cpes(),
            final(graph).sbom_list() == old(graph).sbom_list(),
            final(graph).describes_package() == old(graph).describes_package(),
            final(graph).describes_cpe() == old(graph).describes_cpe(),
            final(graph).assertions() == old(graph).assertions(),
            r == if left@.fully_qualified() && right@.fully_qualified() {
                RelateOutcome::Related
            } else if right@.fully_qualified() {
                RelateOutcome::UnresolvedLeft
            } else if left@.fully_qualified() {
                RelateOutcome::UnresolvedRight
            } else {
                RelateOutcome::UnresolvedBoth
            },
            r != RelateOutcome::Related ==> final(graph).relates() == old(graph).relates(),
            r == RelateOutcome::Related ==> ({
                let refs1 = resolved_refs(old(graph).refs(), left@);
                let edge = (self.sbom.id, resolved_id(old(graph).refs(), left@) as usize, relationship,
                    resolved_id(refs1, right@) as usize);
                &&& final(graph).refs() == resolved_refs(refs1, right@)
                &&& final(graph).relates() == insert_once(old(graph).relates(), edge)
            }),
    {
        let ghost g0 = *graph;
        let l = cache.lookup(graph, left);
        let ghost g1 = *graph;
        let rr = cache.lookup(graph, right);
        assert(graph.refs().subrange(0, g0.refs().len() as int) =~= g1.refs().subrange(0, g0.refs().len() as int));
        match (l, rr) {
            (Ok(a), Ok(b)) => {
                graph.insert_relation((self.sbom.id, a, relationship, b));
                RelateOutcome::Related
            },
            (Err(_), Ok(_)) => RelateOutcome::UnresolvedLeft,
            (Ok(_), Err(_)) => RelateOutcome::UnresolvedRight,
            (Err(_), Err(_)) => RelateOutcome::UnresolvedBoth,
        }
    }
}

} // verus!
