//! Package references (`pkg:type/namespace/name@version?key=value`).
use vstd::prelude::*;

use crate::error::GraphError;

verus! {

/// A qualifier as plain text: its key and its value.
pub type QualifierView = (Seq<char>, Seq<char>);

/// The mathematical content of a package reference.
pub struct PurlView {
    pub ty: Seq<char>,
    pub namespace: Option<Seq<char>>,
    pub name: Seq<char>,
    pub version: Option<Seq<char>>,
    pub qualifiers: Seq<QualifierView>,
}

pub open spec fn opt_view(o: Option<String>) -> Option<Seq<char>> {
    match o {
        Some(s) => Some(s@),
        None => None,
    }
}

pub open spec fn qualifiers_view(qs: Seq<(String, String)>) -> Seq<QualifierView> {
    qs.map_values(|q: (String, String)| (q.0@, q.1@))
}

/// The qualifiers of a reference, as an unordered set of pairs.
pub open spec fn qualifier_set(qs: Seq<QualifierView>) -> Set<QualifierView> {
    qs.to_set()
}

/// No key occurs twice.
pub open spec fn keys_distinct(qs: Seq<QualifierView>) -> bool {
    forall|i: int, j: int| 0 <= i < j < qs.len() ==> qs[i].0 != qs[j].0
}

impl PurlView {
    /// Two references name the same package: equal type, namespace, name and
    /// version, and equal qualifier sets (in any order).
    pub open spec fn same_reference(self, other: PurlView) -> bool {
        &&& self.ty == other.ty
        &&& self.namespace == other.namespace
        &&& self.name == other.name
        &&& self.version == other.version
        &&& qualifier_set(self.qualifiers) == qualifier_set(other.qualifiers)
    }

    /// A reference with a version: the only kind that identifies one package.
    pub open spec fn fully_qualified(self) -> bool {
        self.version is Some
    }
}

/// What `packageurl` decodes a reference string into, where it accepts it.
pub uninterp spec fn decoded_reference(s: Seq<char>) -> Option<PurlView>;

/// The canonical string that `packageurl` writes for a reference, where it
/// accepts the parts.
pub uninterp spec fn encoded_reference(p: PurlView) -> Option<Seq<char>>;

/// A package reference: type, optional namespace, name, optional version and
/// a set of key/value qualifiers.
#[derive(Debug, Clone)]
pub struct Purl {
    pub ty: String,
    pub namespace: Option<String>,
    pub name: String,
    pub version: Option<String>,
    pub qualifiers: Vec<(String, String)>,
}

impl View for Purl {
    type V = PurlView;

    open spec fn view(&self) -> PurlView {
        PurlView {
            ty: self.ty@,
            namespace: opt_view(self.namespace),
            name: self.name@,
            version: opt_view(self.version),
            qualifiers: qualifiers_view(self.qualifiers@),
        }
    }
}

#[verifier::external_type_specification]
#[verifier::external_body]
pub struct ExPurlError(packageurl::Error);

/// Relies on `packageurl::PackageUrl::from_str`: the parts of a valid
/// reference string, with its qualifiers read out of a map (so no key twice).
#[verifier::external_body]
fn decode(s: &str) -> (r: Result<Purl, packageurl::Error>)
    ensures
        r is Ok <==> decoded_reference(s@) is Some,
        r matches Ok(p) ==> decoded_reference(s@).unwrap().same_reference(p@) && keys_distinct(p@.qualifiers),
{
    let p = s.parse::<packageurl::PackageUrl>()?;
    Ok(Purl {
        ty: p.ty().to_string(),
        namespace: p.namespace().map(|n| n.to_string()),
        name: p.name().to_string(),
        version: p.version().map(|v| v.to_string()),
        qualifiers: p.qualifiers().iter().map(|(k, v)| (k.to_string(), v.to_string())).collect(),
    })
}

/// Relies on `packageurl::PackageUrl::new`, `with_namespace`, `with_version`,
/// `add_qualifier` and its `Display`: builds the reference and writes its
/// canonical string.
#[verifier::external_body]
fn encode(p: &Purl) -> (r: Result<String, packageurl::Error>)
    ensures
        r is Ok <==> encoded_reference(p@) is Some,
        r matches Ok(s) ==> encoded_reference(p@) == Some(s@),
{
    let mut u = packageurl::PackageUrl::new(p.ty.as_str(), p.name.as_str())?;
    if let Some(ns) = &p.namespace {
        u.with_namespace(ns.as_str())?;
    }
    if let Some(v) = &p.version {
        u.with_version(v.as_str())?;
    }
    for (k, v) in &p.qualifiers {
        u.add_qualifier(k.as_str(), v.as_str())?;
    }
    Ok(u.to_string())
}

/// Whether `(key, value)` is one of the qualifiers.
pub fn has_qualifier(qs: &Vec<(String, String)>, key: &String, value: &String) -> (r: bool)
    ensures
        r == qualifier_set(qualifiers_view(qs@)).contains((key@, value@)),
{
    let ghost view = qualifiers_view(qs@);
    let mut i: usize = 0;
    while i < qs.len()
        invariant
            i <= qs.len(),
            view == qualifiers_view(qs@),
            forall|j: int| 0 <= j < i ==> view[j] != (key@, value@),
        decreases qs.len() - i,
    {
        if qs[i].0 == *key && qs[i].1 == *value {
            assert(view[i as int] == (key@, value@));
            return true;
        }
        i = i + 1;
    }
    proof {
        if view.to_set().contains((key@, value@)) {
            let j = choose|j: int| 0 <= j < view.len() && view[j] == (key@, value@);
        }
    }
    false
}

/// Whether every qualifier of `a` is one of `b`.
fn qualifiers_within(a: &Vec<(String, String)>, b: &Vec<(String, String)>) -> (r: bool)
    ensures
        r == qualifier_set(qualifiers_view(a@)).subset_of(qualifier_set(qualifiers_view(b@))),
{
    let ghost va = qualifiers_view(a@);
    let mut i: usize = 0;
    while i < a.len()
        invariant
            i <= a.len(),
            va == qualifiers_view(a@),
            forall|j: int| 0 <= j < i ==> qualifier_set(qualifiers_view(b@)).contains(#[trigger] va[j]),
        decreases a.len() - i,
    {
        if !has_qualifier(b, &a[i].0, &a[i].1) {
            assert(va.to_set().contains(va[i as int]));
            return false;
        }
        i = i + 1;
    }
    proof {
        assert forall|q: QualifierView| va.to_set().contains(q) implies qualifier_set(qualifiers_view(b@)).contains(q) by {
            let j = choose|j: int| 0 <= j < va.len() && va[j] == q;
        }
    }
    true
}

/// Qualifier sets compared as sets: order and repetition do not count.
pub fn qualifiers_equal(a: &Vec<(String, String)>, b: &Vec<(String, String)>) -> (r: bool)
    ensures
        r == (qualifier_set(qualifiers_view(a@)) == qualifier_set(qualifiers_view(b@))),
{
    let ab = qualifiers_within(a, b);
    let ba = qualifiers_within(b, a);
    proof {
        if ab && ba {
            assert(qualifier_set(qualifiers_view(a@)) =~= qualifier_set(qualifiers_view(b@)));
        }
    }
    ab && ba
}

/// Equality of two optional strings.
pub fn opt_eq(a: &Option<String>, b: &Option<String>) -> (r: bool)
    ensures
        r == (opt_view(*a) == opt_view(*b)),
{
    match a {
        Some(x) => match b {
            Some(y) => x.eq(y),
            None => false,
        },
        None => b.is_none(),
    }
}

impl Purl {
    /// Decodes a reference string such as `pkg:maven/g/a@1.0?type=jar`.
    pub fn parse(s: &str) -> (r: Result<Purl, GraphError>)
        ensures
            r is Ok <==> decoded_reference(s@) is Some,
            r matches Ok(p) ==> decoded_reference(s@).unwrap().same_reference(p@) && keys_distinct(p@.qualifiers),
            r matches Err(e) ==> e == GraphError::InvalidReference,
    {
        match decode(s) {
            Ok(p) => Ok(p),
            Err(_) => Err(GraphError::InvalidReference),
        }
    }

    /// The canonical reference string, qualifiers sorted by key.
    pub fn to_purl_string(&self) -> (r: Result<String, GraphError>)
        ensures
            r is Ok <==> encoded_reference(self@) is Some,
            r matches Ok(s) ==> encoded_reference(self@) == Some(s@),
            r matches Err(e) ==> e == GraphError::InvalidReference,
    {
        match encode(self) {
            Ok(s) => Ok(s),
            Err(_) => Err(GraphError::InvalidReference),
        }
    }

    /// Whether two references name the same package (qualifiers as a set).
    pub fn same_reference(&self, other: &Purl) -> (r: bool)
        ensures
            r == self@.same_reference(other@),
    {
        self.ty == other.ty && opt_eq(&self.namespace, &other.namespace) && self.name == other.name
            && opt_eq(&self.version, &other.version) && qualifiers_equal(&self.qualifiers, &other.qualifiers)
    }
}

} // verus!
