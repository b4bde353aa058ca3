use core::cmp::Ordering;
use ddp_router::sorter::Sorter;
use ddp_router::value::{Number, Value};

fn n(x: i64) -> Value {
    Value::Number(Number::Int(x))
}

fn d(x: f64) -> Value {
    Value::Number(Number::Double(x.to_bits()))
}

fn obj(fields: Vec<(&str, Value)>) -> Vec<(String, Value)> {
    fields.into_iter().map(|(k, v)| (k.to_owned(), v)).collect()
}

fn objv(fields: Vec<(&str, Value)>) -> Value {
    Value::Object(obj(fields))
}

fn arr(elems: Vec<Value>) -> Value {
    Value::Array(elems)
}

fn cmp(sort: Vec<(&str, i64)>, lhs: Vec<(&str, Value)>, rhs: Vec<(&str, Value)>) -> Ordering {
    let sort: Vec<(String, Value)> = sort.into_iter().map(|(k, o)| (k.to_owned(), n(o))).collect();
    let sorter = Sorter::compile(Some(&sort)).expect("sort should compile");
    sorter.cmp(&obj(lhs), &obj(rhs))
}

#[test]
fn sorter_empty_sort_is_equal() {
    assert_eq!(cmp(vec![], vec![("a", n(1))], vec![("a", n(2))]), Ordering::Equal);
}

#[test]
fn sorter_simple_orderings() {
    assert_eq!(cmp(vec![("a", 1)], vec![], vec![("a", arr(vec![]))]), Ordering::Equal);
    assert_eq!(cmp(vec![("a", 1)], vec![("a", arr(vec![]))], vec![("a", n(1))]), Ordering::Less);
    assert_eq!(
        cmp(vec![("a", 1)], vec![("a", n(1))], vec![("a", objv(vec![]))]),
        Ordering::Less
    );
    assert_eq!(
        cmp(vec![("a", -1)], vec![("a", n(1))], vec![("a", arr(vec![]))]),
        Ordering::Less
    );
}

#[test]
fn sorter_two_keys_with_directions() {
    assert_eq!(
        cmp(
            vec![("a", 1), ("b", -1)],
            vec![("a", n(1)), ("b", n(2))],
            vec![("a", n(1)), ("b", n(1))]
        ),
        Ordering::Less
    );
    assert_eq!(
        cmp(
            vec![("a", 1), ("b", -1)],
            vec![("a", n(1)), ("b", n(1))],
            vec![("a", n(2)), ("b", n(1))]
        ),
        Ordering::Less
    );
}

#[test]
fn sorter_arrays_pick_min_or_max() {
    assert_eq!(
        cmp(
            vec![("a", 1)],
            vec![("a", arr(vec![n(1), n(10), n(20)]))],
            vec![("a", arr(vec![n(5), n(2), n(99)]))]
        ),
        Ordering::Less
    );
    assert_eq!(
        cmp(
            vec![("a", -1)],
            vec![("a", arr(vec![n(5), n(2), n(99)]))],
            vec![("a", arr(vec![n(1), n(10), n(20)]))]
        ),
        Ordering::Less
    );
}

#[test]
fn sorter_numbers_compare_as_doubles() {
    assert_eq!(cmp(vec![("a", 1)], vec![("a", n(1))], vec![("a", d(1.0))]), Ordering::Equal);
    assert_eq!(cmp(vec![("a", 1)], vec![("a", d(1.5))], vec![("a", n(2))]), Ordering::Less);
    assert_eq!(cmp(vec![("a", 1)], vec![("a", d(-0.0))], vec![("a", d(0.0))]), Ordering::Equal);
}

#[test]
fn sorter_antisymmetric_on_samples() {
    let lhs = vec![("a", arr(vec![n(1), arr(vec![n(10), n(15)]), n(20)]))];
    let rhs = vec![("a", arr(vec![n(5), arr(vec![n(-5), n(-20)]), n(18)]))];
    let forward = cmp(vec![("a", 1)], lhs.clone(), rhs.clone());
    let backward = cmp(vec![("a", 1)], rhs, lhs);
    assert_eq!(forward, Ordering::Less);
    assert_eq!(backward, Ordering::Greater);
}

#[test]
fn sorter_rejects_parallel_nested_fields() {
    let sort: Vec<(String, Value)> = vec![("a.x".to_owned(), n(1)), ("a.y".to_owned(), n(1))];
    assert!(Sorter::compile(Some(&sort)).is_err());
    let sort: Vec<(String, Value)> = vec![("a.b.x".to_owned(), n(1)), ("a.b.y".to_owned(), n(1))];
    assert!(Sorter::compile(Some(&sort)).is_err());
}

#[test]
fn sorter_rejects_bad_direction() {
    let sort: Vec<(String, Value)> = vec![("a".to_owned(), n(2))];
    assert!(Sorter::compile(Some(&sort)).is_err());
    let sort: Vec<(String, Value)> = vec![("a".to_owned(), d(1.0))];
    assert!(Sorter::compile(Some(&sort)).is_err());
}

#[test]
fn sorter_value_type_codes() {
    assert_eq!(Sorter::value_type(&n(1)), 1);
    assert_eq!(Sorter::value_type(&Value::Text("x".to_owned())), 2);
    assert_eq!(Sorter::value_type(&objv(vec![])), 3);
    assert_eq!(Sorter::value_type(&arr(vec![])), 4);
    assert_eq!(Sorter::value_type(&Value::Bool(true)), 8);
    assert_eq!(Sorter::value_type(&Value::Null), 10);
    let date = objv(vec![("$date", n(0))]);
    assert_eq!(Sorter::value_type(&date), 9);
    let regex = objv(vec![("$regexp", Value::Text("a".to_owned())), ("$flags", Value::Text(String::new()))]);
    assert_eq!(Sorter::value_type(&regex), 11);
    let oid = objv(vec![("$type", Value::Text("oid".to_owned())), ("$value", Value::Text("00".to_owned()))]);
    assert_eq!(Sorter::value_type(&oid), 7);
    assert_eq!(Sorter::value_type_order(10), 1);
    assert_eq!(Sorter::value_type_order(1), 2);
    assert_eq!(Sorter::value_type_order(11), 11);
}
