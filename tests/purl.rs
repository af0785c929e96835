use trustify_graph::purl::Purl;

#[test]
fn parse_reads_every_part() {
    let p = Purl::parse("pkg:maven/io.quarkus/quarkus-core@2.13.5.Final?type=jar").unwrap();
    assert_eq!(p.ty, "maven");
    assert_eq!(p.namespace.as_deref(), Some("io.quarkus"));
    assert_eq!(p.name, "quarkus-core");
    assert_eq!(p.version.as_deref(), Some("2.13.5.Final"));
    assert_eq!(p.qualifiers, vec![("type".to_string(), "jar".to_string())]);
}

#[test]
fn parse_rejects_malformed_reference() {
    assert_eq!(Purl::parse("not a purl").unwrap_err(), trustify_graph::error::GraphError::InvalidReference);
    assert!(Purl::parse("pkg:").is_err());
}

#[test]
fn encode_sorts_qualifiers() {
    let p = Purl::parse("pkg:maven/g/a@1.0?type=jar&classifier=sources").unwrap();
    assert_eq!(p.to_purl_string().unwrap(), "pkg:maven/g/a@1.0?classifier=sources&type=jar");
}

#[test]
fn encode_of_decode_is_an_equivalent_reference() {
    for s in [
        "pkg:maven/g/a@1.0?type=jar",
        "pkg:maven/g/a@1.0?classifier=x&type=war",
        "pkg:npm/left-pad@1.3.0",
        "pkg:generic/thing",
    ] {
        let p = Purl::parse(s).unwrap();
        let back = Purl::parse(&p.to_purl_string().unwrap()).unwrap();
        assert!(p.same_reference(&back), "{s}");
    }
}

#[test]
fn same_reference_ignores_qualifier_order() {
    let a = Purl::parse("pkg:maven/g/a@1.0?a=1&b=2").unwrap();
    let b = Purl::parse("pkg:maven/g/a@1.0?b=2&a=1").unwrap();
    let c = Purl::parse("pkg:maven/g/a@1.0?a=1&b=3").unwrap();
    assert!(a.same_reference(&b));
    assert!(!a.same_reference(&c));
}
