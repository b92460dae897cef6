use custard::frontmatter_query::{FrontmatterQuery, QueryValue, Scalar};
use custard::value::{Mapping, Value};

fn s(v: &str) -> String {
    v.to_string()
}

#[test]
fn frontmatter_query_is_subset() {
    let mut query = FrontmatterQuery::new();
    query.insert(s("salty"), QueryValue::Scalar(Scalar::Str(s("pork"))));

    let mut doc = Mapping::empty();
    doc.insert(s("1"), Value::Str(s("this went in my mouth")));
    doc.insert(s("salty"), Value::Str(s("pork")));

    assert!(query.is_subset(&doc));
}

#[test]
fn frontmatter_query_is_intersect() {
    let mut query = FrontmatterQuery::new();
    query.insert(s("listed"), QueryValue::Scalar(Scalar::Bool(true)));
    query.insert(
        s("tags"),
        QueryValue::Sequence(vec![Scalar::Str(s("essay")), Scalar::Str(s("film"))]),
    );

    let mut doc = Mapping::empty();
    doc.insert(s("listed"), Value::Bool(true));
    doc.insert(s("tags"), Value::Sequence(vec![Value::Str(s("essay"))]));

    assert!(query.is_intersect(&doc));

    let mut other = Mapping::empty();
    other.insert(s("listed"), Value::Bool(true));
    other.insert(s("tags"), Value::Sequence(vec![Value::Str(s("story"))]));

    assert!(!query.is_intersect(&other));
}

fn tag_soup() -> Value {
    Value::Sequence(vec![
        Value::Str(s("dis")),
        Value::Str(s("a")),
        Value::Str(s("test")),
        Value::Str(s("gotta")),
        Value::Str(s("add")),
        Value::Str(s("more")),
        Value::Str(s("tags!")),
    ])
}

#[test]
fn query_value_is_subset() {
    let b = tag_soup();

    let a = QueryValue::Sequence(vec![Scalar::Str(s("dis"))]);
    assert!(a.is_subset(&b), "first element match");

    let a = QueryValue::Sequence(vec![Scalar::Str(s("gotta"))]);
    assert!(a.is_subset(&b), "later element match");

    let a = QueryValue::Sequence(vec![Scalar::Str(s("gotta")), Scalar::Str(s("bucks"))]);
    assert!(!a.is_subset(&b), "not all match elements match");

    let a = QueryValue::Sequence(vec![]);
    assert!(a.is_subset(&b), "empty set is subset of all other sets");
}

#[test]
fn query_value_is_intersect() {
    let b = tag_soup();

    let a = QueryValue::Sequence(vec![Scalar::Str(s("dis"))]);
    assert!(a.is_intersect(&b), "first element match");

    let a = QueryValue::Sequence(vec![Scalar::Str(s("gotta"))]);
    assert!(a.is_intersect(&b), "later element match");

    let a = QueryValue::Sequence(vec![Scalar::Str(s("gotta")), Scalar::Str(s("bucks"))]);
    assert!(a.is_intersect(&b), "match despite strange element");

    let a = QueryValue::Sequence(vec![]);
    assert!(a.is_intersect(&b), "empty set intersects with all other sets");
}

#[test]
fn scalar_matches_are_typed() {
    assert!(Scalar::Str(s("5")).matches(&Value::Str(s("5"))));
    assert!(!Scalar::Str(s("5")).matches(&Value::Num(s("5"))));
    assert!(!Scalar::Num(s("5")).matches(&Value::Str(s("5"))));
    assert!(Scalar::Num(s("5")).matches(&Value::Num(s("5"))));
    assert!(!Scalar::Num(s("5")).matches(&Value::Num(s("6"))));
    assert!(Scalar::Bool(false).matches(&Value::Bool(false)));
    assert!(!Scalar::Bool(false).matches(&Value::Bool(true)));
    assert!(Scalar::Null.matches(&Value::Null));
    assert!(!Scalar::Null.matches(&Value::Bool(false)));
}

#[test]
fn shape_mismatches_never_match() {
    let seq_query = QueryValue::Sequence(vec![Scalar::Str(s("x"))]);
    assert!(!seq_query.is_subset(&Value::Str(s("x"))), "sequence query against scalar value");
    assert!(!seq_query.is_intersect(&Value::Str(s("x"))));

    let scalar_query = QueryValue::Scalar(Scalar::Str(s("x")));
    let seq_value = Value::Sequence(vec![Value::Str(s("x"))]);
    assert!(!scalar_query.is_subset(&seq_value), "scalar query against sequence value");
    assert!(!scalar_query.is_intersect(&seq_value));
}

#[test]
fn missing_field_never_matches() {
    let mut query = FrontmatterQuery::new();
    query.insert(s("absent"), QueryValue::Scalar(Scalar::Null));

    let mut doc = Mapping::empty();
    doc.insert(s("present"), Value::Null);

    assert!(!query.is_subset(&doc));
    assert!(!query.is_intersect(&doc));
}

#[test]
fn empty_query_matches_any_mapping() {
    let query = FrontmatterQuery::new();
    assert!(query.is_empty());

    let mut doc = Mapping::empty();
    doc.insert(s("anything"), Value::Num(s("1")));

    assert!(query.is_subset(&doc));
    assert!(query.is_intersect(&doc));
    assert!(query.is_subset(&Mapping::empty()));
    assert!(query.is_intersect(&Mapping::empty()));
}
