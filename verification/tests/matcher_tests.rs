use ddp_router::matcher::DocumentMatcher;
use ddp_router::value::{Number, Value};

fn t(s: &str) -> Value {
    Value::Text(s.to_owned())
}

fn n(x: i64) -> Value {
    Value::Number(Number::Int(x))
}

fn obj(fields: Vec<(&str, Value)>) -> Vec<(String, Value)> {
    fields.into_iter().map(|(k, v)| (k.to_owned(), v)).collect()
}

fn objv(fields: Vec<(&str, Value)>) -> Value {
    Value::Object(obj(fields))
}

fn arr(elems: Vec<Value>) -> Value {
    Value::Array(elems)
}

fn matches(selector: Vec<(&str, Value)>, document: Vec<(&str, Value)>) -> bool {
    let matcher = DocumentMatcher::compile(&obj(selector)).expect("selector should compile");
    matcher.matches(&obj(document))
}

fn rejects(selector: Vec<(&str, Value)>) -> bool {
    DocumentMatcher::compile(&obj(selector)).is_err()
}

#[test]
fn matcher_empty_selector_matches_anything() {
    assert!(matches(vec![], vec![]));
    assert!(matches(vec![], vec![("a", Value::Null)]));
}

#[test]
fn matcher_literal_number() {
    assert!(!matches(vec![("a", n(1))], vec![]));
    assert!(!matches(vec![("a", n(1))], vec![("a", n(2))]));
    assert!(matches(vec![("a", n(1))], vec![("a", n(1))]));
    assert!(!matches(vec![("a", n(1))], vec![("b", n(1))]));
}

#[test]
fn matcher_literal_matches_array_element() {
    assert!(!matches(vec![("a", n(1))], vec![("a", arr(vec![]))]));
    assert!(matches(vec![("a", n(1))], vec![("a", arr(vec![n(1)]))]));
    assert!(matches(vec![("a", n(1))], vec![("a", arr(vec![t("bar"), n(1)]))]));
    assert!(!matches(vec![("a", n(1))], vec![("a", arr(vec![t("bar")]))]));
}

#[test]
fn matcher_null_matches_missing_field() {
    assert!(matches(vec![("a", Value::Null)], vec![]));
    assert!(matches(vec![("a", Value::Null)], vec![("a", Value::Null)]));
    assert!(matches(vec![("a", Value::Null)], vec![("a", arr(vec![Value::Null]))]));
    assert!(!matches(vec![("a", Value::Null)], vec![("a", n(1))]));
}

#[test]
fn matcher_nested_paths() {
    assert!(matches(
        vec![("a.b", n(1))],
        vec![("a", objv(vec![("b", n(1))]))],
    ));
    assert!(!matches(
        vec![("a.b", n(1))],
        vec![("a", objv(vec![("b", n(2))]))],
    ));
    assert!(matches(
        vec![("a.b", n(1))],
        vec![("a", arr(vec![objv(vec![("b", n(1))]), n(2)]))],
    ));
    assert!(matches(vec![("a.1", n(8))], vec![("a", arr(vec![n(7), n(8), n(9)]))]));
    assert!(!matches(vec![("a.1", n(7))], vec![("a", arr(vec![n(7), n(8), n(9)]))]));
}

#[test]
fn matcher_operator_in() {
    let selector = vec![("a", objv(vec![("$in", arr(vec![n(1), Value::Null]))]))];
    assert!(matches(selector.clone(), vec![]));
    assert!(matches(selector.clone(), vec![("a", n(1))]));
    assert!(matches(selector.clone(), vec![("a", Value::Null)]));
    assert!(!matches(selector, vec![("a", n(2))]));
}

#[test]
fn matcher_operator_gt_lt() {
    let selector = vec![("a", objv(vec![("$lt", n(11)), ("$gt", n(9))]))];
    assert!(!matches(selector.clone(), vec![("a", n(9))]));
    assert!(matches(selector.clone(), vec![("a", n(10))]));
    assert!(!matches(selector.clone(), vec![("a", n(11))]));
    assert!(matches(selector, vec![("a", arr(vec![n(8), n(9), n(10), n(11)]))]));
}

#[test]
fn matcher_operator_ne_on_arrays() {
    let selector = vec![("a", objv(vec![("$ne", n(1))]))];
    assert!(matches(selector.clone(), vec![("a", n(2))]));
    assert!(!matches(selector.clone(), vec![("a", arr(vec![n(1), n(2)]))]));
    assert!(matches(selector, vec![("a", arr(vec![n(2), n(3)]))]));
}

#[test]
fn matcher_operator_size() {
    let selector = vec![("a", objv(vec![("$size", n(2))]))];
    assert!(matches(selector.clone(), vec![("a", arr(vec![n(2), n(2)]))]));
    assert!(!matches(selector.clone(), vec![("a", arr(vec![n(2)]))]));
    assert!(!matches(selector, vec![("a", arr(vec![arr(vec![n(2), n(2)])]))]));
}

#[test]
fn matcher_operator_exists() {
    assert!(matches(vec![("a", objv(vec![("$exists", Value::Bool(true))]))], vec![("a", n(12))]));
    assert!(!matches(vec![("a", objv(vec![("$exists", Value::Bool(true))]))], vec![("b", n(12))]));
    assert!(!matches(vec![("a", objv(vec![("$exists", Value::Bool(false))]))], vec![("a", n(12))]));
    assert!(matches(vec![("a", objv(vec![("$exists", Value::Bool(false))]))], vec![("b", n(12))]));
}

#[test]
fn matcher_operator_mod() {
    let selector = vec![("a", objv(vec![("$mod", arr(vec![n(10), n(1)]))]))];
    assert!(matches(selector.clone(), vec![("a", n(11))]));
    assert!(!matches(selector.clone(), vec![("a", n(12))]));
    assert!(matches(selector, vec![("a", arr(vec![n(10), n(11), n(12)]))]));
    assert!(rejects(vec![("a", objv(vec![("$mod", n(5))]))]));
    assert!(rejects(vec![("a", objv(vec![("$mod", arr(vec![n(10)]))]))]));
    assert!(rejects(vec![("a", objv(vec![("$mod", arr(vec![n(10), n(1), n(2)]))]))]));
}

#[test]
fn matcher_logical_operators() {
    let and_sel = vec![("$and", arr(vec![objv(vec![("a", n(1))]), objv(vec![("b", n(2))])]))];
    assert!(matches(and_sel.clone(), vec![("a", n(1)), ("b", n(2))]));
    assert!(!matches(and_sel, vec![("a", n(1))]));
    let or_sel = vec![("$or", arr(vec![objv(vec![("a", n(1))]), objv(vec![("b", n(2))])]))];
    assert!(matches(or_sel.clone(), vec![("a", n(1))]));
    assert!(!matches(or_sel, vec![("c", n(3))]));
    let nor_sel = vec![("$nor", arr(vec![objv(vec![("a", n(1))])]))];
    assert!(!matches(nor_sel.clone(), vec![("a", n(1))]));
    assert!(matches(nor_sel, vec![("a", n(2))]));
}

#[test]
fn matcher_rejects_bad_selectors() {
    assert!(rejects(vec![("$and", arr(vec![]))]));
    assert!(rejects(vec![("$and", arr(vec![n(5)]))]));
    assert!(rejects(vec![("$unknown", n(1))]));
    let all_operand = arr(vec![objv(vec![("$gt", n(4))])]);
    assert!(rejects(vec![("a", objv(vec![("$all", all_operand)]))]));
    assert!(rejects(vec![("a", objv(vec![("$type", n(0))]))]));
    assert!(rejects(vec![("a", objv(vec![("$type", t("foo"))]))]));
}

#[test]
fn matcher_comment_is_ignored() {
    assert!(matches(vec![("a", n(5)), ("$comment", t("note"))], vec![("a", n(5))]));
    assert!(!matches(vec![("a", n(6)), ("$comment", t("note"))], vec![("a", n(5))]));
}

#[test]
fn matcher_regex_operator() {
    let selector = vec![("a", objv(vec![("$regex", t("a"))]))];
    assert!(matches(selector.clone(), vec![("a", t("cat"))]));
    assert!(!matches(selector.clone(), vec![("a", t("cut"))]));
    assert!(!matches(selector, vec![("a", t("CAT"))]));
    let insensitive = vec![(
        "a",
        objv(vec![("$regex", t("a")), ("$options", t("i"))]),
    )];
    assert!(matches(insensitive, vec![("a", t("CAT"))]));
    let flags = vec![("a", objv(vec![("$regex", t("[")), ("$options", t("i"))]))];
    assert!(rejects(flags));
    assert!(rejects(vec![("a", objv(vec![("$regex", t("a")), ("$options", t("z"))]))]));
}

#[test]
fn matcher_regex_literal_value() {
    let regex_val = objv(vec![("$regexp", t("a")), ("$flags", t(""))]);
    assert!(matches(vec![("a", regex_val.clone())], vec![("a", t("cat"))]));
    assert!(!matches(vec![("a", regex_val.clone())], vec![("a", t("dog"))]));
    let same = objv(vec![("$regexp", t("a")), ("$flags", t(""))]);
    assert!(matches(vec![("a", regex_val.clone())], vec![("a", same)]));
    let other_flags = objv(vec![("$regexp", t("a")), ("$flags", t("i"))]);
    assert!(!matches(vec![("a", regex_val)], vec![("a", other_flags)]));
}

#[test]
fn matcher_type_operator() {
    assert!(matches(vec![("a", objv(vec![("$type", n(2))]))], vec![("a", t("1"))]));
    assert!(!matches(vec![("a", objv(vec![("$type", n(2))]))], vec![("a", n(1))]));
    assert!(matches(vec![("a", objv(vec![("$type", t("bool"))]))], vec![("a", Value::Bool(true))]));
    assert!(matches(vec![("a", objv(vec![("$type", n(10))]))], vec![("a", Value::Null)]));
    assert!(!matches(vec![("a", objv(vec![("$type", n(10))]))], vec![]));
}
