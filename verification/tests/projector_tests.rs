use ddp_router::projector::Projector;
use ddp_router::value::{Number, Value};

fn n(x: i64) -> Value {
    Value::Number(Number::Int(x))
}

fn obj(fields: Vec<(&str, Value)>) -> Vec<(String, Value)> {
    fields.into_iter().map(|(k, v)| (k.to_owned(), v)).collect()
}

fn objv(fields: Vec<(&str, Value)>) -> Value {
    Value::Object(obj(fields))
}

fn apply(projection: Vec<(&str, Value)>, input: Vec<(&str, Value)>) -> Vec<(String, Value)> {
    let projection = obj(projection);
    let projector = Projector::compile(Some(&projection)).expect("projection should compile");
    let mut document = obj(input);
    projector.apply(&mut document);
    document
}

fn doc_eq(a: &Vec<(String, Value)>, b: Vec<(&str, Value)>) -> bool {
    ddp_router::cursor::doc_eq(a, &obj(b))
}

#[test]
fn projector_empty_projection_keeps_all() {
    let out = apply(vec![], vec![("a", n(7)), ("b", n(8))]);
    assert!(doc_eq(&out, vec![("a", n(7)), ("b", n(8))]));
}

#[test]
fn projector_exclusion() {
    let out = apply(vec![("a", n(0))], vec![("a", n(7)), ("b", n(8)), ("_id", n(9))]);
    assert!(doc_eq(&out, vec![("b", n(8)), ("_id", n(9))]));
    let out = apply(
        vec![("a", n(0)), ("_id", n(0))],
        vec![("a", n(7)), ("b", n(8)), ("_id", n(9))],
    );
    assert!(doc_eq(&out, vec![("b", n(8))]));
}

#[test]
fn projector_inclusion_keeps_id_by_default() {
    let out = apply(vec![("a", n(1))], vec![("a", n(7)), ("b", n(8)), ("_id", n(9))]);
    assert!(doc_eq(&out, vec![("a", n(7)), ("_id", n(9))]));
    let out = apply(
        vec![("a", n(1)), ("_id", n(0))],
        vec![("a", n(7)), ("b", n(8)), ("_id", n(9))],
    );
    assert!(doc_eq(&out, vec![("a", n(7))]));
}

#[test]
fn projector_nested_paths() {
    let out = apply(
        vec![("a.b.c", n(1))],
        vec![("a", objv(vec![("b", objv(vec![("c", n(7))])), ("c", n(8))])), ("d", n(9))],
    );
    assert!(doc_eq(&out, vec![("a", objv(vec![("b", objv(vec![("c", n(7))]))]))]));
    let out = apply(
        vec![("a.b.c", n(0))],
        vec![("a", objv(vec![("b", objv(vec![("c", n(7))])), ("c", n(8))])), ("d", n(9))],
    );
    assert!(doc_eq(
        &out,
        vec![("a", objv(vec![("b", objv(vec![])), ("c", n(8))])), ("d", n(9))],
    ));
}

#[test]
fn projector_recurses_into_arrays() {
    let inner = objv(vec![("b", objv(vec![("c", n(7))]))]);
    let out = apply(vec![("a.b.c", n(1))], vec![("a", Value::Array(vec![inner]))]);
    let expected_inner = objv(vec![("b", objv(vec![("c", n(7))]))]);
    assert!(doc_eq(&out, vec![("a", Value::Array(vec![expected_inner]))]));
}

#[test]
fn projector_rejects_mixed_projection() {
    let projection = obj(vec![("a", n(1)), ("b", n(0))]);
    assert!(Projector::compile(Some(&projection)).is_err());
    let projection = obj(vec![("a", n(7))]);
    assert!(Projector::compile(Some(&projection)).is_err());
}

#[test]
fn projector_apply_is_idempotent_on_samples() {
    let projection = obj(vec![("a.b", n(1)), ("d", n(1))]);
    let projector = Projector::compile(Some(&projection)).expect("projection should compile");
    let mut document = obj(vec![
        ("a", objv(vec![("b", n(1)), ("c", n(2))])),
        ("d", n(3)),
        ("e", n(4)),
        ("_id", n(5)),
    ]);
    projector.apply(&mut document);
    let once = document.clone();
    projector.apply(&mut document);
    assert!(ddp_router::cursor::doc_eq(&once, &document));
}
