use trustify_graph::error::GraphError;
use trustify_graph::purl::Purl;
use trustify_graph::cache::{PackageCache, RelateOutcome};
use trustify_graph::sbom::{Graph, Relationship, SbomInformation, SbomLocator};

fn purl(s: &str) -> Purl {
    Purl::parse(s).unwrap()
}

fn ingest(graph: &mut Graph, location: &str, sha256: &str) -> trustify_graph::sbom::SbomContext {
    graph.ingest_sbom(
        &location.to_string(),
        &sha256.to_string(),
        &"doc".to_string(),
        SbomInformation::default(),
    )
}

#[test]
fn sbom_ingest_is_idempotent() {
    let mut graph = Graph::new();
    let first = ingest(&mut graph, "http://sbom.com/test.json", "8");
    let second = ingest(&mut graph, "http://sbom.com/test.json", "8");
    let other = ingest(&mut graph, "http://sbom.com/test.json", "9");
    assert_eq!(first.sbom.id, second.sbom.id);
    assert_ne!(first.sbom.id, other.sbom.id);
    assert_eq!(graph.sboms(0, 10).total, 2);
}

#[test]
fn sbom_lookup_by_location_hash_and_id() {
    let mut graph = Graph::new();
    let info = SbomInformation { title: Some("title".to_string()), published: Some(1_700_000_000) };
    let s = graph.ingest_sbom(&"loc".to_string(), &"abc".to_string(), &"doc-1".to_string(), info);
    let found = graph.get_sbom(&"loc".to_string(), &"abc".to_string()).unwrap();
    assert_eq!(found.sbom.id, s.sbom.id);
    assert_eq!(found.sbom.title.as_deref(), Some("title"));
    assert_eq!(found.sbom.published, Some(1_700_000_000));
    assert!(graph.get_sbom(&"loc".to_string(), &"abd".to_string()).is_none());
    assert_eq!(graph.get_sbom_by_id(s.sbom.id).unwrap().sbom.document_id, "doc-1");
    assert!(graph.get_sbom_by_id(7).is_none());
}

#[test]
fn relates_to_edge_is_stored_once() {
    let mut graph = Graph::new();
    let sbom = ingest(&mut graph, "loc", "1");
    let mut cache = PackageCache::new(4);
    let a = purl("pkg:maven/g/a@1.0");
    let b = purl("pkg:maven/g/b@1.0");
    let r1 = sbom.ingest_package_relates_to_package(&mut graph, &mut cache, &a, Relationship::DependencyOf, &b);
    let r2 = sbom.ingest_package_relates_to_package(&mut graph, &mut cache, &a, Relationship::DependencyOf, &b);
    assert_eq!(r1, RelateOutcome::Related);
    assert_eq!(r2, RelateOutcome::Related);
    let related = sbom.related_packages(&graph, Relationship::DependencyOf, &b);
    assert_eq!(related.len(), 1);
    assert_eq!(related[0].name, "a");
    assert!(sbom.related_packages(&graph, Relationship::ContainedBy, &b).is_empty());
}

#[test]
fn malformed_references_are_skipped_not_fatal() {
    let mut graph = Graph::new();
    let sbom = ingest(&mut graph, "loc", "1");
    let mut cache = PackageCache::new(16);
    let root = purl("pkg:maven/g/root@1.0");
    let mut warnings = 0;
    let mut related = 0;
    for i in 0..10 {
        let left = if i == 3 || i == 7 {
            purl(&format!("pkg:maven/g/broken{i}"))
        } else {
            purl(&format!("pkg:maven/g/dep{i}@1.0"))
        };
        match sbom.ingest_package_relates_to_package(&mut graph, &mut cache, &left, Relationship::DependencyOf, &root) {
            RelateOutcome::Related => related += 1,
            _ => warnings += 1,
        }
    }
    assert_eq!(related, 8);
    assert_eq!(warnings, 2);
    assert_eq!(sbom.related_packages(&graph, Relationship::DependencyOf, &root).len(), 8);
}

#[test]
fn relate_outcome_names_the_unresolved_side() {
    let mut graph = Graph::new();
    let sbom = ingest(&mut graph, "loc", "1");
    let mut cache = PackageCache::new(4);
    let good = purl("pkg:maven/g/a@1.0");
    let bad = purl("pkg:maven/g/b");
    let l = sbom.ingest_package_relates_to_package(&mut graph, &mut cache, &bad, Relationship::DependencyOf, &good);
    let r = sbom.ingest_package_relates_to_package(&mut graph, &mut cache, &good, Relationship::DependencyOf, &bad);
    let both = sbom.ingest_package_relates_to_package(&mut graph, &mut cache, &bad, Relationship::DependencyOf, &bad);
    assert_eq!(l, RelateOutcome::UnresolvedLeft);
    assert_eq!(r, RelateOutcome::UnresolvedRight);
    assert_eq!(both, RelateOutcome::UnresolvedBoth);
}

#[test]
fn cache_resolves_each_reference_once() {
    let mut graph = Graph::new();
    let mut cache = PackageCache::new(4);
    let a = purl("pkg:maven/g/a@1.0?type=jar");
    let first = cache.lookup(&mut graph, &a).unwrap();
    assert_eq!(cache.hits(), 0);
    let second = cache.lookup(&mut graph, &purl("pkg:maven/g/a@1.0?type=jar")).unwrap();
    assert_eq!(first, second);
    assert_eq!(cache.hits(), 1);
    let bad = purl("pkg:maven/g/b");
    assert_eq!(cache.lookup(&mut graph, &bad), Err(GraphError::InvalidReference));
    assert_eq!(cache.lookup(&mut graph, &bad), Err(GraphError::InvalidReference));
    assert_eq!(cache.hits(), 2);
}

#[test]
fn first_description_wins() {
    let mut graph = Graph::new();
    let sbom = ingest(&mut graph, "loc", "1");
    sbom.ingest_describes_package(&mut graph, &purl("pkg:maven/g/first@1.0")).unwrap();
    sbom.ingest_describes_package(&mut graph, &purl("pkg:maven/g/second@1.0")).unwrap();
    let described = sbom.describes_packages(&graph);
    assert_eq!(described.len(), 1);
    assert_eq!(described[0].name, "first");
    assert!(graph.get_qualified_package(&purl("pkg:maven/g/second@1.0")).is_none());
}

#[test]
fn describes_cpe_keeps_distinct_pairs() {
    let mut graph = Graph::new();
    let sbom = ingest(&mut graph, "loc", "1");
    sbom.ingest_describes_cpe22(&mut graph, &"cpe:/a:redhat:quarkus:2.13".to_string());
    sbom.ingest_describes_cpe22(&mut graph, &"cpe:/a:redhat:quarkus:2.13".to_string());
    sbom.ingest_describes_cpe22(&mut graph, &"cpe:/a:redhat:quarkus:3".to_string());
    assert_eq!(
        sbom.describes_cpe22s(&graph),
        vec!["cpe:/a:redhat:quarkus:2.13".to_string(), "cpe:/a:redhat:quarkus:3".to_string()]
    );
}

#[test]
fn related_transitively_follows_kinds() {
    let mut graph = Graph::new();
    let sbom = ingest(&mut graph, "loc", "1");
    let mut cache = PackageCache::new(8);
    let top = purl("pkg:maven/g/top@1");
    let mid = purl("pkg:maven/g/mid@1");
    let low = purl("pkg:maven/g/low@1");
    let dev = purl("pkg:maven/g/dev@1");
    sbom.ingest_package_relates_to_package(&mut graph, &mut cache, &mid, Relationship::DependencyOf, &top);
    sbom.ingest_package_relates_to_package(&mut graph, &mut cache, &low, Relationship::ContainedBy, &mid);
    sbom.ingest_package_relates_to_package(&mut graph, &mut cache, &dev, Relationship::DevDependencyOf, &top);

    let kinds = vec![Relationship::DependencyOf, Relationship::ContainedBy];
    let mut names: Vec<String> = sbom
        .related_packages_transitively(&graph, &kinds, &top)
        .into_iter()
        .map(|p| p.name)
        .collect();
    names.sort();
    assert_eq!(names, vec!["low".to_string(), "mid".to_string()]);

    let only_dep = sbom.related_packages_transitively_x(&graph, Relationship::DependencyOf, &top);
    assert_eq!(only_dep.len(), 1);
    assert_eq!(only_dep[0].name, "mid");
    assert!(sbom.related_packages_transitively_x(&graph, Relationship::DependencyOf, &purl("pkg:maven/g/none@1")).is_empty());
}

#[test]
fn relationships_are_scoped_to_their_sbom() {
    let mut graph = Graph::new();
    let one = ingest(&mut graph, "loc", "1");
    let two = ingest(&mut graph, "loc", "2");
    let mut cache = PackageCache::new(8);
    let a = purl("pkg:maven/g/a@1");
    let b = purl("pkg:maven/g/b@1");
    one.ingest_package_relates_to_package(&mut graph, &mut cache, &a, Relationship::DependencyOf, &b);
    assert_eq!(one.related_packages(&graph, Relationship::DependencyOf, &b).len(), 1);
    assert!(two.related_packages(&graph, Relationship::DependencyOf, &b).is_empty());
}

#[test]
fn vulnerability_assertions_follow_the_closure() {
    let mut graph = Graph::new();
    let sbom = ingest(&mut graph, "loc", "1");
    let mut cache = PackageCache::new(8);
    let product = purl("pkg:maven/g/product@1");
    let lib = purl("pkg:maven/g/lib@1");
    let inner = purl("pkg:maven/g/inner@1");
    let unrelated = purl("pkg:maven/g/unrelated@1");
    sbom.ingest_describes_package(&mut graph, &product).unwrap();
    sbom.ingest_package_relates_to_package(&mut graph, &mut cache, &lib, Relationship::DependencyOf, &product);
    sbom.ingest_package_relates_to_package(&mut graph, &mut cache, &inner, Relationship::ContainedBy, &lib);
    let inner_id = graph.ingest_qualified_package(&inner).unwrap();
    let lib_id = graph.ingest_qualified_package(&lib).unwrap();
    let unrelated_id = graph.ingest_qualified_package(&unrelated).unwrap();
    graph.ingest_vulnerability_assertion(inner_id, "CVE-2023-0001".to_string());
    graph.ingest_vulnerability_assertion(inner_id, "CVE-2023-0002".to_string());
    graph.ingest_vulnerability_assertion(unrelated_id, "CVE-2023-0003".to_string());

    let found = sbom.vulnerability_assertions(&graph);
    assert_eq!(found.len(), 1);
    assert_eq!(found[0].0.id, inner_id);
    assert_eq!(found[0].1, vec!["CVE-2023-0001".to_string(), "CVE-2023-0002".to_string()]);
    assert!(graph.assertions_for(lib_id).is_empty());
}

#[test]
fn locate_by_each_locator() {
    let mut graph = Graph::new();
    let s1 = ingest(&mut graph, "loc-a", "h1");
    let s2 = ingest(&mut graph, "loc-a", "h2");
    let s3 = ingest(&mut graph, "loc-b", "h1");
    s2.ingest_describes_package(&mut graph, &purl("pkg:maven/g/p@1")).unwrap();
    s3.ingest_describes_cpe22(&mut graph, &"cpe:/a:x:y".to_string());

    let ids = |v: Vec<trustify_graph::sbom::SbomContext>| v.into_iter().map(|c| c.sbom.id).collect::<Vec<_>>();
    assert_eq!(ids(graph.locate_sboms(&SbomLocator::Location("loc-a".to_string()))), vec![s1.sbom.id, s2.sbom.id]);
    assert_eq!(ids(graph.locate_sboms(&SbomLocator::Sha256("h1".to_string()))), vec![s1.sbom.id, s3.sbom.id]);
    assert_eq!(ids(graph.locate_sboms(&SbomLocator::Id(s3.sbom.id))), vec![s3.sbom.id]);
    assert_eq!(ids(graph.locate_sboms(&SbomLocator::Purl(purl("pkg:maven/g/p@1")))), vec![s2.sbom.id]);
    assert_eq!(ids(graph.locate_sboms(&SbomLocator::Cpe("cpe:/a:x:y".to_string()))), vec![s3.sbom.id]);
    assert!(graph.locate_sboms(&SbomLocator::Cpe("cpe:/a:x:z".to_string())).is_empty());
    assert_eq!(graph.locate_sbom(&SbomLocator::Sha256("h1".to_string())).unwrap().sbom.id, s1.sbom.id);
    assert!(graph.locate_sbom(&SbomLocator::Id(9)).is_none());
}

#[test]
fn sboms_are_paginated() {
    let mut graph = Graph::new();
    for i in 0..5 {
        ingest(&mut graph, "loc", &format!("h{i}"));
    }
    let page = graph.sboms(1, 2);
    assert_eq!(page.total, 5);
    assert_eq!(page.items.iter().map(|c| c.sbom.id).collect::<Vec<_>>(), vec![1, 2]);
    let tail = graph.sboms(4, 10);
    assert_eq!(tail.items.len(), 1);
    assert!(graph.sboms(9, 2).items.is_empty());
}
