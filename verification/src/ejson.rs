//! The EJSON codec: maps storage-native scalars onto tagged document
//! values. Unrecognized storage values become null rather than failing.

use vstd::prelude::*;
use crate::value::{lemma_obj_view, lemma_view_unfold, Number, SpecValue, Value};
use crate::number::{f64_exp, f64_frac, f64_sign};

verus! {

broadcast use lemma_view_unfold, lemma_obj_view;

/// A storage-native value, as the database hands it over: the shapes the
/// codec recognizes, and `Other` for everything else.
pub enum StorageValue {
    Array(Vec<StorageValue>),
    Binary(Vec<u8>),
    Bool(bool),
    DateTime(i64),
    Decimal(String),
    Document(Vec<(String, StorageValue)>),
    Double(u64),
    Int32(i32),
    Int64(i64),
    Null,
    ObjectId(Vec<u8>),
    Regex { pattern: String, options: String },
    Text(String),
    Other,
}

/// The model of a storage-native value.
pub enum SpecStorage {
    Array(Seq<SpecStorage>),
    Binary(Seq<u8>),
    Bool(bool),
    DateTime(i64),
    Decimal(Seq<char>),
    Document(Seq<(Seq<char>, SpecStorage)>),
    Double(u64),
    Int32(i32),
    Int64(i64),
    Null,
    ObjectId(Seq<u8>),
    Regex { pattern: Seq<char>, options: Seq<char> },
    Text(Seq<char>),
    Other,
}

impl View for StorageValue {
    type V = SpecStorage;

    open spec fn view(&self) -> SpecStorage
        decreases self,
    {
        match self {
            StorageValue::Array(elems) => SpecStorage::Array(
                Seq::new(elems@.len(), |i: int|
                    if 0 <= i < elems@.len() {
                        elems@[i]@
                    } else {
                        SpecStorage::Null
                    }
                ),
            ),
            StorageValue::Binary(bytes) => SpecStorage::Binary(bytes@),
            StorageValue::Bool(b) => SpecStorage::Bool(*b),
            StorageValue::DateTime(ms) => SpecStorage::DateTime(*ms),
            StorageValue::Decimal(s) => SpecStorage::Decimal(s@),
            StorageValue::Document(fields) => SpecStorage::Document(
                Seq::new(fields@.len(), |i: int|
                    if 0 <= i < fields@.len() {
                        (fields@[i].0@, fields@[i].1@)
                    } else {
                        (Seq::empty(), SpecStorage::Null)
                    }
                ),
            ),
            StorageValue::Double(bits) => SpecStorage::Double(*bits),
            StorageValue::Int32(n) => SpecStorage::Int32(*n),
            StorageValue::Int64(n) => SpecStorage::Int64(*n),
            StorageValue::Null => SpecStorage::Null,
            StorageValue::ObjectId(bytes) => SpecStorage::ObjectId(bytes@),
            StorageValue::Regex { pattern, options } => SpecStorage::Regex {
                pattern: pattern@,
                options: options@,
            },
            StorageValue::Text(s) => SpecStorage::Text(s@),
            StorageValue::Other => SpecStorage::Other,
        }
    }
}

/// The view of each storage variant, spelled out.
pub broadcast proof fn lemma_storage_view_unfold(v: StorageValue)
    ensures
        (#[trigger] v@) is Array <==> v is Array,
        v@ is Binary <==> v is Binary,
        v@ is Bool <==> v is Bool,
        v@ is DateTime <==> v is DateTime,
        v@ is Decimal <==> v is Decimal,
        v@ is Document <==> v is Document,
        v@ is Double <==> v is Double,
        v@ is Int32 <==> v is Int32,
        v@ is Int64 <==> v is Int64,
        v@ is Null <==> v is Null,
        v@ is ObjectId <==> v is ObjectId,
        v@ is Regex <==> v is Regex,
        v@ is Text <==> v is Text,
        v@ is Other <==> v is Other,
        v is Array ==> v@->Array_0.len() == v->Array_0@.len() && forall|i: int|
            0 <= i < v->Array_0@.len() ==> v@->Array_0[i] == v->Array_0@[i]@,
        v is Binary ==> v@->Binary_0 == v->Binary_0@,
        v is Bool ==> v@->Bool_0 == v->Bool_0,
        v is DateTime ==> v@->DateTime_0 == v->DateTime_0,
        v is Decimal ==> v@->Decimal_0 == v->Decimal_0@,
        v is Document ==> v@->Document_0.len() == v->Document_0@.len() && forall|i: int|
            0 <= i < v->Document_0@.len() ==> v@->Document_0[i] == (v->Document_0@[i].0@,
            v->Document_0@[i].1@),
        v is Double ==> v@->Double_0 == v->Double_0,
        v is Int32 ==> v@->Int32_0 == v->Int32_0,
        v is Int64 ==> v@->Int64_0 == v->Int64_0,
        v is ObjectId ==> v@->ObjectId_0 == v->ObjectId_0@,
        v is Regex ==> v@->Regex_pattern == v->Regex_pattern@ && v@->Regex_options
            == v->Regex_options@,
        v is Text ==> v@->Text_0 == v->Text_0@,
{
    reveal_with_fuel(<StorageValue as View>::view, 2);
}

/// What base64 encoding produces for a byte string; the result depends on
/// the bytes alone.
pub uninterp spec fn base64_of(bytes: Seq<u8>) -> Seq<char>;

/// Relies on base64's standard-alphabet engine (with padding): the
/// encoding of a byte string is four characters for each three bytes.
#[verifier::external_body]
fn base64_encode(bytes: &Vec<u8>) -> (r: String)
    ensures
        r@ == base64_of(bytes@),
{
    <base64::engine::general_purpose::GeneralPurpose as base64::Engine>::encode(
        &base64::engine::general_purpose::STANDARD,
        bytes,
    )
}

/// The lowercase hexadecimal digit of a value below sixteen.
pub open spec fn spec_hex_digit(n: u8) -> char {
    if n < 10 {
        (n + 48) as char
    } else {
        (n + 87) as char
    }
}

/// The lowercase hexadecimal spelling of a byte string, two digits per
/// byte, most significant first.
pub open spec fn spec_hex_of(bytes: Seq<u8>) -> Seq<char>
    decreases bytes.len(),
{
    if bytes.len() == 0 {
        Seq::empty()
    } else {
        spec_hex_of(bytes.drop_last()) + seq![
            spec_hex_digit(bytes.last() / 16),
            spec_hex_digit(bytes.last() % 16),
        ]
    }
}

/// Writes a byte string in lowercase hexadecimal.
#[verifier::loop_isolation(false)]
pub fn hex_of(bytes: &Vec<u8>) -> (r: Vec<char>)
    ensures
        r@ == spec_hex_of(bytes@),
{
    let mut out: Vec<char> = Vec::new();
    let mut i: usize = 0;
    proof {
        assert(bytes@.take(0) =~= Seq::<u8>::empty());
    }
    while i < bytes.len()
        invariant
            i <= bytes@.len(),
            out@ == spec_hex_of(bytes@.take(i as int)),
        decreases bytes@.len() - i,
    {
        proof {
            assert(bytes@.take(i as int + 1).drop_last() =~= bytes@.take(i as int));
            assert(bytes@.take(i as int + 1).last() == bytes@[i as int]);
        }
        let b = bytes[i];
        let hi = b / 16;
        let lo = b % 16;
        out.push(hex_digit(hi));
        out.push(hex_digit(lo));
        i = i + 1;
    }
    proof {
        assert(bytes@.take(bytes@.len() as int) =~= bytes@);
    }
    out
}

/// The lowercase hexadecimal digit of a value below sixteen.
fn hex_digit(n: u8) -> (r: char)
    requires
        n < 16,
    ensures
        r == spec_hex_digit(n),
{
    if n < 10 {
        (n + 48) as char
    } else {
        (n + 87) as char
    }
}

/// Builds a string from characters.
#[verifier::loop_isolation(false)]
fn string_of_chars(chars: Vec<char>) -> (r: String)
    ensures
        r@ == chars@,
{
    let mut out = String::new();
    let mut i: usize = 0;
    while i < chars.len()
        invariant
            i <= chars@.len(),
            out@ == chars@.take(i as int),
        decreases chars@.len() - i,
    {
        out.push(chars[i]);
        proof {
            assert(chars@.take(i as int + 1) =~= chars@.take(i as int).push(chars@[i as int]));
        }
        i = i + 1;
    }
    proof {
        assert(chars@.take(chars@.len() as int) =~= chars@);
    }
    out
}

/// A one-field tagged object.
pub open spec fn spec_tag1(k: Seq<char>, v: SpecValue) -> SpecValue {
    SpecValue::Object(seq![(k, v)])
}

/// A two-field tagged object.
pub open spec fn spec_tag2(k1: Seq<char>, v1: SpecValue, k2: Seq<char>, v2: SpecValue)
    -> SpecValue {
    SpecValue::Object(seq![(k1, v1), (k2, v2)])
}

/// The EJSON encoding of one storage value: recognized scalars become
/// tagged objects, containers are encoded element-wise, and anything the
/// codec does not recognize becomes null.
pub open spec fn spec_into_ejson(v: SpecStorage) -> SpecValue
    decreases v,
{
    match v {
        SpecStorage::Binary(bytes) => spec_tag1("$binary"@, SpecValue::Text(base64_of(bytes))),
        SpecStorage::DateTime(ms) => spec_tag1("$date"@, SpecValue::Number(Number::Int(ms))),
        SpecStorage::Decimal(s) => spec_tag2(
            "$type"@,
            SpecValue::Text("Decimal"@),
            "$value"@,
            SpecValue::Text(s),
        ),
        SpecStorage::Double(bits) => if f64_exp(bits) == 0x7FFu64 {
            if f64_frac(bits) != 0u64 {
                spec_tag1("$InfNaN"@, SpecValue::Number(Number::Int(0)))
            } else if f64_sign(bits) == 1u64 {
                spec_tag1("$InfNaN"@, SpecValue::Number(Number::Int(-1i64)))
            } else {
                spec_tag1("$InfNaN"@, SpecValue::Number(Number::Int(1)))
            }
        } else {
            SpecValue::Number(Number::Double(bits))
        },
        SpecStorage::ObjectId(bytes) => spec_tag2(
            "$type"@,
            SpecValue::Text("oid"@),
            "$value"@,
            SpecValue::Text(spec_hex_of(bytes)),
        ),
        SpecStorage::Regex { pattern, options } => spec_tag2(
            "$regexp"@,
            SpecValue::Text(pattern),
            "$flags"@,
            SpecValue::Text(options),
        ),
        SpecStorage::Array(elems) => SpecValue::Array(
            Seq::new(elems.len(), |i: int|
                if 0 <= i < elems.len() {
                    spec_into_ejson(elems[i])
                } else {
                    SpecValue::Null
                }
            ),
        ),
        SpecStorage::Bool(b) => SpecValue::Bool(b),
        SpecStorage::Document(fields) => SpecValue::Object(spec_into_ejson_document(fields)),
        SpecStorage::Int32(n) => SpecValue::Number(Number::Int(n as i64)),
        SpecStorage::Int64(n) => SpecValue::Number(Number::Int(n)),
        SpecStorage::Null => SpecValue::Null,
        SpecStorage::Text(s) => SpecValue::Text(s),
        SpecStorage::Other => SpecValue::Null,
    }
}

/// The EJSON encoding of a document's fields, in order.
pub open spec fn spec_into_ejson_document(fields: Seq<(Seq<char>, SpecStorage)>) -> Seq<
    (Seq<char>, SpecValue),
>
    decreases fields,
{
    Seq::new(fields.len(), |i: int|
        if 0 <= i < fields.len() {
            proof {
                assert(decreases_to!(fields => fields[i]));
            }
            (fields[i].0, spec_into_ejson(fields[i].1))
        } else {
            (Seq::empty(), SpecValue::Null)
        }
    )
}

/// Encodes one storage value as an EJSON document value.
#[verifier::loop_isolation(false)]
pub fn into_ejson(value: StorageValue) -> (r: Value)
    ensures
        r@ == spec_into_ejson(value@),
    decreases value, 0int,
{
    broadcast use lemma_storage_view_unfold;

    match value {
        StorageValue::Binary(bytes) => {
            let encoded = base64_encode(&bytes);
            tag1("$binary", Value::Text(encoded))
        },
        StorageValue::DateTime(ms) => tag1("$date", Value::Number(Number::Int(ms))),
        StorageValue::Decimal(s) => tag2(
            "$type",
            Value::Text("Decimal".to_owned()),
            "$value",
            Value::Text(s),
        ),
        StorageValue::Double(bits) => {
            let exp = (bits >> 52u64) & 0x7FFu64;
            let frac = bits & 0x000F_FFFF_FFFF_FFFFu64;
            let sign = bits >> 63u64;
            if exp == 0x7FF {
                if frac != 0 {
                    tag1("$InfNaN", Value::Number(Number::Int(0)))
                } else if sign == 1 {
                    tag1("$InfNaN", Value::Number(Number::Int(-1)))
                } else {
                    tag1("$InfNaN", Value::Number(Number::Int(1)))
                }
            } else {
                Value::Number(Number::Double(bits))
            }
        },
        StorageValue::ObjectId(bytes) => {
            let digits = hex_of(&bytes);
            let hex = string_of_chars(digits);
            tag2("$type", Value::Text("oid".to_owned()), "$value", Value::Text(hex))
        },
        StorageValue::Regex { pattern, options } => tag2(
            "$regexp",
            Value::Text(pattern),
            "$flags",
            Value::Text(options),
        ),
        StorageValue::Array(elems) => {
            let ghost gelems = elems;
            let mut out: Vec<Value> = Vec::new();
            let mut i: usize = 0;
            let mut rest = elems;
            let n = rest.len();
            proof {
                assert(rest@ =~= gelems@.skip(0));
            }
            while i < n
                invariant
                    i <= n,
                    n == gelems@.len(),
                    rest@ =~= gelems@.skip(i as int),
                    out@.len() == i,
                    forall|k: int| 0 <= k < i ==> out@[k]@ == spec_into_ejson(gelems@[k]@),
                decreases n - i,
            {
                let v = rest.remove(0);
                proof {
                    assert(gelems@.skip(i as int)[0] == gelems@[i as int]);
                    assert(decreases_to!(gelems => gelems@));
                    assert(decreases_to!(gelems@ => gelems@[i as int]));
                    assert(gelems@.skip(i as int).skip(1) =~= gelems@.skip(i as int + 1));
                }
                proof {
                    assert(v == gelems@[i as int]);
                }
                let e = into_ejson_inner(v, Ghost(gelems@[i as int]));
                out.push(e);
                i = i + 1;
            }
            let r = Value::Array(out);
            proof {
                assert(r@->Array_0 =~= spec_into_ejson(StorageValue::Array(gelems)@)->Array_0);
            }
            r
        },
        StorageValue::Bool(b) => Value::Bool(b),
        StorageValue::Document(fields) => {
            let r = Value::Object(into_ejson_document(fields));
            proof {
                assert(r@->Object_0 =~= spec_into_ejson(value@)->Object_0);
            }
            r
        },
        StorageValue::Int32(n) => Value::Number(Number::Int(n as i64)),
        StorageValue::Int64(n) => Value::Number(Number::Int(n)),
        StorageValue::Null => Value::Null,
        StorageValue::Text(s) => Value::Text(s),
        StorageValue::Other => Value::Null,
    }
}

/// Encodes one storage value, measured by a ghost twin of itself.
fn into_ejson_inner(v: StorageValue, measure: Ghost<StorageValue>) -> (r: Value)
    requires
        v == measure@,
    ensures
        r@ == spec_into_ejson(v@),
    decreases measure@, 1int,
{
    into_ejson(v)
}

/// Encodes a document's fields as EJSON, in order.
#[verifier::loop_isolation(false)]
pub fn into_ejson_document(fields: Vec<(String, StorageValue)>) -> (r: Vec<(String, Value)>)
    ensures
        crate::value::obj_view(r) == spec_into_ejson_document(
            StorageValue::Document(fields)@->Document_0,
        ),
    decreases fields,
{
    broadcast use lemma_storage_view_unfold;

    let ghost gfields = fields;
    let mut out: Vec<(String, Value)> = Vec::new();
    let mut i: usize = 0;
    let mut rest = fields;
    let n = rest.len();
    proof {
        assert(rest@ =~= gfields@.skip(0));
    }
    while i < n
        invariant
            i <= n,
            n == gfields@.len(),
            rest@ =~= gfields@.skip(i as int),
            out@.len() == i,
            forall|k: int| 0 <= k < i ==> (#[trigger] out@[k]).0@ == gfields@[k].0@
                && out@[k].1@ == spec_into_ejson(gfields@[k].1@),
        decreases n - i,
    {
        let (key, v) = rest.remove(0);
        proof {
            assert(gfields@.skip(i as int)[0] == gfields@[i as int]);
            assert(decreases_to!(gfields => gfields@));
            assert(decreases_to!(gfields@ => gfields@[i as int]));
            assert(decreases_to!(gfields@[i as int] => gfields@[i as int].1));
            assert(gfields@.skip(i as int).skip(1) =~= gfields@.skip(i as int + 1));
        }
        proof {
            assert(v == gfields@[i as int].1);
        }
        let e = into_ejson_inner(v, Ghost(gfields@[i as int].1));
        out.push((key, e));
        i = i + 1;
    }
    proof {
        assert(crate::value::obj_view(out) =~= spec_into_ejson_document(
            StorageValue::Document(gfields)@->Document_0,
        ));
    }
    out
}

/// A one-field tagged object value.
fn tag1(k: &str, v: Value) -> (r: Value)
    ensures
        r@ == spec_tag1(k@, v@),
{
    let ghost gv = v@;
    let mut fields: Vec<(String, Value)> = Vec::new();
    fields.push((k.to_owned(), v));
    let r = Value::Object(fields);
    proof {
        assert(r@->Object_0 =~= spec_tag1(k@, gv)->Object_0);
    }
    r
}

/// A two-field tagged object value.
fn tag2(k1: &str, v1: Value, k2: &str, v2: Value) -> (r: Value)
    ensures
        r@ == spec_tag2(k1@, v1@, k2@, v2@),
{
    let ghost gv1 = v1@;
    let ghost gv2 = v2@;
    let mut fields: Vec<(String, Value)> = Vec::new();
    fields.push((k1.to_owned(), v1));
    fields.push((k2.to_owned(), v2));
    let r = Value::Object(fields);
    proof {
        assert(r@->Object_0 =~= spec_tag2(k1@, gv1, k2@, gv2)->Object_0);
    }
    r
}

} // verus!
