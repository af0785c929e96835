use std::collections::HashSet;

use trustify_graph::purl::Purl;
use trustify_graph::system::System;

fn purl(s: &str) -> Purl {
    Purl::parse(s).unwrap()
}

#[test]
fn ingest_packages() {
    let mut system = System::new();

    let mut packages = vec![
        "pkg:maven/io.quarkus/quarkus-hibernate-orm@2.13.5.Final?type=jar",
        "pkg:maven/io.quarkus/quarkus-core@2.13.5.Final?type=jar",
        "pkg:maven/jakarta.el/jakarta.el-api@3.0.3?type=jar",
        "pkg:maven/org.postgresql/postgresql@42.5.0?type=jar",
        "pkg:maven/io.quarkus/quarkus-narayana-jta@2.13.5.Final?type=jar",
        "pkg:maven/jakarta.interceptor/jakarta.interceptor-api@1.2.5?type=jar",
        "pkg:maven/com.fasterxml.jackson.core/jackson-databind@2.13.1?type=jar",
        "pkg:maven/io.quarkus/quarkus-jdbc-postgresql@2.13.5.Final?type=jar",
        "pkg:maven/jakarta.enterprise/jakarta.enterprise.cdi-api@2.0.2?type=jar",
        "pkg:maven/jakarta.enterprise/jakarta.enterprise.cdi-api@2.0.2?type=jar",
        "pkg:maven/jakarta.enterprise/jakarta.enterprise.cdi-api@2.0.2?type=war",
        "pkg:maven/jakarta.enterprise/jakarta.enterprise.cdi-api@2.0.2?type=jar&cheese=cheddar",
        "pkg:maven/org.apache.logging.log4j/log4j-core@2.13.3",
    ];

    for pkg in &packages {
        system.ingest_package(&purl(pkg)).unwrap();
    }

    let package_types = system.package_types();
    let package_namespaces = system.package_namespaces();
    let fetched_packages = system.packages();

    let packages: HashSet<_> = packages.drain(..).collect();

    assert_eq!(fetched_packages.len(), packages.len());
    assert_eq!(package_types, vec!["maven".to_string()]);
    assert_eq!(package_namespaces.len(), 7);
}

#[test]
fn ingest_package_dependencies() {
    let mut system = System::new();

    system
        .ingest_package_dependency(
            &purl("pkg:maven/io.quarkus/quarkus-jdbc-postgresql@2.13.5.Final?type=jar"),
            &purl("pkg:maven/io.quarkus/quarkus-jdbc-base@1.13.5.Final?type=jar"),
        )
        .unwrap();

    system
        .ingest_package_dependency(
            &purl("pkg:maven/io.quarkus/quarkus-jdbc-postgresql@2.13.5.Final?type=jar"),
            &purl("pkg:maven/io.quarkus/quarkus-postgres@1.13.5.Final?type=jar"),
        )
        .unwrap();

    let result = system
        .direct_dependencies(&purl("pkg:maven/io.quarkus/quarkus-jdbc-postgresql@2.13.5.Final?type=jar"))
        .unwrap();

    println!("{:?}", result);
    assert_eq!(result.len(), 2);
    assert_eq!(result[0].name, "quarkus-jdbc-base");
    assert_eq!(result[1].name, "quarkus-postgres");
}

#[test]
fn transitive_dependencies() {
    let mut system = System::new();

    system
        .ingest_package_dependency(
            &purl("pkg:maven/com.test/package-a@1.0?type=jar"),
            &purl("pkg:maven/com.test/package-ab@1.0?type=jar"),
        )
        .unwrap();
    system
        .ingest_package_dependency(
            &purl("pkg:maven/com.test/package-a@1.0?type=jar"),
            &purl("pkg:maven/com.test/package-ac@1.0?type=jar"),
        )
        .unwrap();
    system
        .ingest_package_dependency(
            &purl("pkg:maven/com.test/package-ac@1.0?type=jar"),
            &purl("pkg:maven/com.test/package-acd@1.0?type=jar"),
        )
        .unwrap();
    system
        .ingest_package_dependency(
            &purl("pkg:maven/com.test/package-ab@1.0?type=jar"),
            &purl("pkg:maven/com.test/package-ac@1.0?type=jar"),
        )
        .unwrap();

    let result = system
        .transitive_dependencies(&purl("pkg:maven/com.test/package-a@1.0?type=jar"))
        .unwrap();

    assert!(result.purl.same_reference(&purl("pkg:maven/com.test/package-a@1.0?type=jar")));
    assert_eq!(2, result.dependencies.len());
}

#[test]
fn closure_of_diamond_holds_b_c_d_once_each() {
    let mut system = System::new();
    let a = purl("pkg:maven/g/a@1.0");
    let b = purl("pkg:maven/g/b@1.0");
    let c = purl("pkg:maven/g/c@1.0");
    let d = purl("pkg:maven/g/d@1.0");
    system.ingest_package_dependency(&a, &b).unwrap();
    system.ingest_package_dependency(&a, &c).unwrap();
    system.ingest_package_dependency(&c, &d).unwrap();
    system.ingest_package_dependency(&b, &c).unwrap();

    let root = system.fetch_package(&a).unwrap();
    let ids = |p: &Purl| system.fetch_package(p).unwrap().id;
    let mut closure = system.dependency_closure(root.id);
    closure.sort();
    let mut expected = vec![ids(&b), ids(&c), ids(&d)];
    expected.sort();
    assert_eq!(closure, expected);

    let tree = system.transitive_dependencies(&a).unwrap();
    assert_eq!(tree.id, root.id);
    // a -> b -> c -> d and a -> c -> d
    assert_eq!(tree.dependencies.len(), 2);
    let via_b = &tree.dependencies[0];
    assert_eq!(via_b.purl.name, "b");
    assert_eq!(via_b.dependencies.len(), 1);
    assert_eq!(via_b.dependencies[0].purl.name, "c");
    assert_eq!(via_b.dependencies[0].dependencies[0].purl.name, "d");
    let via_c = &tree.dependencies[1];
    assert_eq!(via_c.purl.name, "c");
    assert_eq!(via_c.dependencies.len(), 1);
    assert_eq!(via_c.dependencies[0].purl.name, "d");
    assert!(via_c.dependencies[0].dependencies.is_empty());
}

#[test]
fn closure_of_cycle_terminates() {
    let mut system = System::new();
    let a = purl("pkg:maven/g/a@1.0");
    let b = purl("pkg:maven/g/b@1.0");
    system.ingest_package_dependency(&a, &b).unwrap();
    system.ingest_package_dependency(&b, &a).unwrap();

    let tree = system.transitive_dependencies(&a).unwrap();
    assert_eq!(tree.purl.name, "a");
    assert_eq!(tree.dependencies.len(), 1);
    assert_eq!(tree.dependencies[0].purl.name, "b");
    assert!(tree.dependencies[0].dependencies.is_empty());

    let root = system.fetch_package(&a).unwrap();
    let mut closure = system.dependency_closure(root.id);
    closure.sort();
    assert_eq!(closure, vec![0, 1]);
}

#[test]
fn qualifiers_distinguish_identities() {
    let mut system = System::new();
    let jar = system.ingest_package(&purl("pkg:maven/g/a@1.0?type=jar")).unwrap();
    let war = system.ingest_package(&purl("pkg:maven/g/a@1.0?type=war")).unwrap();
    let jar_again = system.ingest_package(&purl("pkg:maven/g/a@1.0?type=jar")).unwrap();
    let bare = system.ingest_package(&purl("pkg:maven/g/a@1.0")).unwrap();
    assert_ne!(jar.id, war.id);
    assert_eq!(jar.id, jar_again.id);
    assert_ne!(bare.id, jar.id);
    assert_ne!(bare.id, war.id);
    assert_eq!(system.packages().len(), 3);
}

#[test]
fn qualifier_order_does_not_matter() {
    let mut system = System::new();
    let one = system.ingest_package(&purl("pkg:maven/g/a@1.0?type=jar&classifier=x")).unwrap();
    let two = system.ingest_package(&purl("pkg:maven/g/a@1.0?classifier=x&type=jar")).unwrap();
    assert_eq!(one.id, two.id);
    assert_eq!(system.packages().len(), 1);
}

#[test]
fn missing_namespace_differs_from_empty() {
    let mut system = System::new();
    let q = vec![];
    let none = system.insert_or_fetch_package(&"generic".to_string(), None, &"x".to_string(), &"1".to_string(), &q);
    let empty = system.insert_or_fetch_package(
        &"generic".to_string(),
        Some(&String::new()),
        &"x".to_string(),
        &"1".to_string(),
        &q,
    );
    let none_again = system.insert_or_fetch_package(&"generic".to_string(), None, &"x".to_string(), &"1".to_string(), &q);
    assert_ne!(none.id, empty.id);
    assert_eq!(none.id, none_again.id);
}

#[test]
fn reference_without_version_is_rejected() {
    let mut system = System::new();
    let r = system.ingest_package(&purl("pkg:maven/g/a"));
    assert_eq!(r.unwrap_err(), trustify_graph::error::GraphError::InvalidReference);
    assert!(system.packages().is_empty());
    let dep = system.ingest_package_dependency(&purl("pkg:maven/g/a@1"), &purl("pkg:maven/g/b"));
    assert!(dep.is_err());
    assert!(system.packages().is_empty());
}

#[test]
fn fetch_does_not_create() {
    let mut system = System::new();
    assert!(system.fetch_package(&purl("pkg:maven/g/a@1.0")).is_none());
    assert!(system.packages().is_empty());
    let created = system.ingest_package(&purl("pkg:maven/g/a@1.0")).unwrap();
    assert_eq!(system.fetch_package(&purl("pkg:maven/g/a@1.0")).unwrap().id, created.id);
}

#[test]
fn dependency_edge_is_idempotent() {
    let mut system = System::new();
    let a = purl("pkg:maven/g/a@1.0");
    let b = purl("pkg:maven/g/b@1.0");
    let first = system.ingest_package_dependency(&a, &b).unwrap();
    let second = system.ingest_package_dependency(&a, &b).unwrap();
    assert_eq!(first, second);
    assert_eq!(system.direct_dependencies(&a).unwrap().len(), 1);
}
