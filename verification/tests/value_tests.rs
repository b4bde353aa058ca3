use ddp_router::ejson::{into_ejson, into_ejson_document, StorageValue};
use ddp_router::lookup::parse_usize;
use ddp_router::number::i64_to_f64_bits;
use ddp_router::value::{str_concat, value_eq, Number, Value};

fn n(x: i64) -> Value {
    Value::Number(Number::Int(x))
}

fn t(s: &str) -> Value {
    Value::Text(s.to_owned())
}

fn obj(fields: Vec<(&str, Value)>) -> Vec<(String, Value)> {
    fields.into_iter().map(|(k, v)| (k.to_owned(), v)).collect()
}

fn objv(fields: Vec<(&str, Value)>) -> Value {
    Value::Object(obj(fields))
}

#[test]
fn value_structural_equality_is_order_sensitive() {
    let a = objv(vec![("b", n(12)), ("c", n(13))]);
    let b = objv(vec![("b", n(12)), ("c", n(13))]);
    let c = objv(vec![("c", n(13)), ("b", n(12))]);
    assert!(value_eq(&a, &b));
    assert!(!value_eq(&a, &c), "field order is significant");
    assert!(!value_eq(&n(1), &Value::Number(Number::Double(1f64.to_bits()))));
}

#[test]
fn integer_promotion_matches_the_native_conversion() {
    let samples: Vec<i64> = vec![
        0,
        1,
        -1,
        42,
        -1000,
        i64::MAX,
        i64::MIN,
        (1i64 << 53) + 1,
        -(1i64 << 53) - 1,
        123456789123456789,
    ];
    for x in samples {
        assert_eq!(
            i64_to_f64_bits(x),
            (x as f64).to_bits(),
            "promotion of {} must round as the platform does",
            x
        );
    }
}

#[test]
fn parse_usize_behaves_like_std() {
    assert_eq!(parse_usize("0"), "0".parse::<usize>().ok());
    assert_eq!(parse_usize("17"), "17".parse::<usize>().ok());
    assert_eq!(parse_usize("+8"), "+8".parse::<usize>().ok());
    assert_eq!(parse_usize(""), None);
    assert_eq!(parse_usize("-1"), None);
    assert_eq!(parse_usize("1x"), None);
    assert_eq!(
        parse_usize("99999999999999999999999999"),
        "99999999999999999999999999".parse::<usize>().ok()
    );
}

#[test]
fn str_concat_joins() {
    assert_eq!(str_concat("__subscription__", "tasks"), "__subscription__tasks");
    assert_eq!(str_concat("", "x"), "x");
}

#[test]
fn ejson_encodes_binary_as_base64() {
    let out = into_ejson(StorageValue::Binary(vec![77, 97, 110]));
    let expected = objv(vec![("$binary", t("TWFu"))]);
    assert!(value_eq(&out, &expected), "binary must carry its base64 text");
    let empty = into_ejson(StorageValue::Binary(vec![]));
    assert!(value_eq(&empty, &objv(vec![("$binary", t(""))])));
}

#[test]
fn ejson_encodes_object_id_as_hex() {
    let bytes = vec![0u8, 1, 2, 3, 4, 5, 6, 7, 8, 9, 10, 255];
    let out = into_ejson(StorageValue::ObjectId(bytes));
    let expected = objv(vec![
        ("$type", t("oid")),
        ("$value", t("000102030405060708090aff")),
    ]);
    assert!(value_eq(&out, &expected));
}

#[test]
fn ejson_encodes_dates_decimals_and_regexes() {
    let date = into_ejson(StorageValue::DateTime(1234));
    assert!(value_eq(&date, &objv(vec![("$date", n(1234))])));
    let decimal = into_ejson(StorageValue::Decimal("1.5".to_owned()));
    assert!(value_eq(
        &decimal,
        &objv(vec![("$type", t("Decimal")), ("$value", t("1.5"))])
    ));
    let regex = into_ejson(StorageValue::Regex {
        pattern: "a+".to_owned(),
        options: "i".to_owned(),
    });
    assert!(value_eq(
        &regex,
        &objv(vec![("$regexp", t("a+")), ("$flags", t("i"))])
    ));
}

#[test]
fn ejson_encodes_nonfinite_doubles_as_tags() {
    let inf = into_ejson(StorageValue::Double(f64::INFINITY.to_bits()));
    assert!(value_eq(&inf, &objv(vec![("$InfNaN", n(1))])));
    let neg = into_ejson(StorageValue::Double(f64::NEG_INFINITY.to_bits()));
    assert!(value_eq(&neg, &objv(vec![("$InfNaN", n(-1))])));
    let nan = into_ejson(StorageValue::Double(f64::NAN.to_bits()));
    assert!(value_eq(&nan, &objv(vec![("$InfNaN", n(0))])));
    let plain = into_ejson(StorageValue::Double(2.5f64.to_bits()));
    assert!(value_eq(&plain, &Value::Number(Number::Double(2.5f64.to_bits()))));
}

#[test]
fn ejson_encodes_containers_and_unknowns() {
    let doc = into_ejson_document(vec![
        ("a".to_owned(), StorageValue::Int32(7)),
        ("b".to_owned(), StorageValue::Array(vec![StorageValue::Null, StorageValue::Other])),
        ("c".to_owned(), StorageValue::Bool(true)),
    ]);
    let expected = obj(vec![
        ("a", n(7)),
        ("b", Value::Array(vec![Value::Null, Value::Null])),
        ("c", Value::Bool(true)),
    ]);
    assert!(ddp_router::cursor::doc_eq(&doc, &expected));
}
