//! The in-memory document value model: a tagged union of the scalar and
//! container shapes that documents carry, together with its mathematical
//! model and structural equality.

use vstd::prelude::*;
use core::cmp::Ordering;

verus! {

/// A numeric value: either a signed 64-bit integer or an IEEE 754 double
/// kept as its raw bit pattern. The two variants are distinct values even
/// when they denote the same real number.
#[derive(Clone, Copy, Debug, PartialEq, Eq, Structural)]
pub enum Number {
    Int(i64),
    Double(u64),
}

/// A document value. Objects keep their fields in insertion order, and that
/// order is significant for equality. Domain scalars (binary blobs, dates,
/// decimals, object identifiers, regular expressions, non-finite doubles)
/// are represented as tagged objects, as the EJSON codec produces them.
#[derive(Debug)]
pub enum Value {
    Null,
    Bool(bool),
    Number(Number),
    Text(String),
    Array(Vec<Value>),
    Object(Vec<(String, Value)>),
}

/// The mathematical model of a `Value`: strings become character sequences
/// and containers become sequences.
pub enum SpecValue {
    Null,
    Bool(bool),
    Number(Number),
    Text(Seq<char>),
    Array(Seq<SpecValue>),
    Object(Seq<(Seq<char>, SpecValue)>),
}

impl View for Value {
    type V = SpecValue;

    open spec fn view(&self) -> SpecValue
        decreases self,
    {
        match self {
            Value::Null => SpecValue::Null,
            Value::Bool(b) => SpecValue::Bool(*b),
            Value::Number(n) => SpecValue::Number(*n),
            Value::Text(s) => SpecValue::Text(s@),
            Value::Array(elems) => SpecValue::Array(
                Seq::new(elems@.len(), |i: int|
                    if 0 <= i < elems@.len() {
                        elems@[i]@
                    } else {
                        SpecValue::Null
                    }
                ),
            ),
            Value::Object(pairs) => SpecValue::Object(
                Seq::new(pairs@.len(), |i: int|
                    if 0 <= i < pairs@.len() {
                        (pairs@[i].0@, pairs@[i].1@)
                    } else {
                        (Seq::empty(), SpecValue::Null)
                    }
                ),
            ),
        }
    }
}

/// The view of each variant, spelled out: this is the one place that
/// unfolds the recursive view, and everything else goes through it.
pub broadcast proof fn lemma_view_unfold(v: Value)
    ensures
        (#[trigger] v@) is Null <==> v is Null,
        v@ is Bool <==> v is Bool,
        v@ is Number <==> v is Number,
        v@ is Text <==> v is Text,
        v@ is Array <==> v is Array,
        v@ is Object <==> v is Object,
        v is Bool ==> v@->Bool_0 == v->Bool_0,
        v is Number ==> v@->Number_0 == v->Number_0,
        v is Text ==> v@->Text_0 == v->Text_0@,
        v is Array ==> v@->Array_0.len() == v->Array_0@.len(),
        v is Array ==> forall|i: int|
            0 <= i < v->Array_0@.len() ==> v@->Array_0[i] == v->Array_0@[i]@,
        v is Object ==> v@->Object_0.len() == v->Object_0@.len(),
        v is Object ==> forall|i: int|
            0 <= i < v->Object_0@.len() ==> v@->Object_0[i] == (v->Object_0@[i].0@,
            v->Object_0@[i].1@),
{
    reveal_with_fuel(<Value as View>::view, 2);
}

impl Clone for Value {
    /// A clone denotes the same mathematical value.
    #[verifier::loop_isolation(false)]
    fn clone(&self) -> (r: Value)
        ensures
            r@ == self@,
        decreases self,
    {
        broadcast use lemma_view_unfold;

        match self {
            Value::Null => Value::Null,
            Value::Bool(b) => Value::Bool(*b),
            Value::Number(n) => Value::Number(*n),
            Value::Text(s) => Value::Text(s.clone()),
            Value::Array(elems) => {
                let mut out: Vec<Value> = Vec::new();
                let mut i: usize = 0;
                while i < elems.len()
                    invariant
                        i <= elems.len(),
                        out@.len() == i,
                        forall|j: int| 0 <= j < i ==> out@[j]@ == elems@[j]@,
                    decreases elems.len() - i,
                {
                    proof {
                        assert(decreases_to!(*self => *elems));
                        assert(decreases_to!(*elems => elems@));
                        assert(decreases_to!(elems@ => elems@[i as int]));
                    }
                    out.push(elems[i].clone());
                    i = i + 1;
                }
                let r = Value::Array(out);
                proof {
                    assert(r@ is Array && self@ is Array);
                    assert(r@->Array_0 =~= self@->Array_0);
                }
                r
            },
            Value::Object(pairs) => {
                let mut out: Vec<(String, Value)> = Vec::new();
                let mut i: usize = 0;
                while i < pairs.len()
                    invariant
                        i <= pairs.len(),
                        out@.len() == i,
                        forall|j: int| 0 <= j < i ==> out@[j].0@ == pairs@[j].0@
                            && out@[j].1@ == pairs@[j].1@,
                    decreases pairs.len() - i,
                {
                    proof {
                        assert(decreases_to!(*self => *pairs));
                        assert(decreases_to!(*pairs => pairs@));
                        assert(decreases_to!(pairs@ => pairs@[i as int]));
                        assert(decreases_to!(pairs@[i as int] => pairs@[i as int].1));
                    }
                    let (k, v) = &pairs[i];
                    out.push((k.clone(), v.clone()));
                    i = i + 1;
                }
                let r = Value::Object(out);
                proof {
                    assert(r@ is Object && self@ is Object);
                    assert(r@->Object_0 =~= self@->Object_0);
                }
                r
            },
        }
    }
}

/// Lexicographic order on character sequences, by code point.
pub open spec fn spec_str_cmp(a: Seq<char>, b: Seq<char>) -> Ordering
    decreases a.len(),
{
    if a.len() == 0 && b.len() == 0 {
        Ordering::Equal
    } else if a.len() == 0 {
        Ordering::Less
    } else if b.len() == 0 {
        Ordering::Greater
    } else if a[0] != b[0] {
        if (a[0] as int) < (b[0] as int) {
            Ordering::Less
        } else {
            Ordering::Greater
        }
    } else {
        spec_str_cmp(a.skip(1), b.skip(1))
    }
}

/// Compares two strings lexicographically by code point.
#[verifier::loop_isolation(false)]
pub fn str_cmp(a: &str, b: &str) -> (r: Ordering)
    ensures
        r == spec_str_cmp(a@, b@),
{
    let a_len = a.unicode_len();
    let b_len = b.unicode_len();
    let mut i: usize = 0;
    proof {
        assert(a@.skip(0) =~= a@);
        assert(b@.skip(0) =~= b@);
    }
    while i < a_len && i < b_len
        invariant
            i <= a_len,
            i <= b_len,
            spec_str_cmp(a@, b@) == spec_str_cmp(a@.skip(i as int), b@.skip(i as int)),
        decreases a_len - i,
    {
        let ca = a.get_char(i);
        let cb = b.get_char(i);
        if ca != cb {
            proof {
                assert(a@.skip(i as int)[0] == a@[i as int]);
                assert(b@.skip(i as int)[0] == b@[i as int]);
            }
            if (ca as u32) < (cb as u32) {
                return Ordering::Less;
            } else {
                return Ordering::Greater;
            }
        }
        proof {
            assert(a@.skip(i as int).skip(1) =~= a@.skip(i as int + 1));
            assert(b@.skip(i as int).skip(1) =~= b@.skip(i as int + 1));
        }
        i = i + 1;
    }
    proof {
        assert(a@.skip(i as int).len() == a@.len() - i);
        assert(b@.skip(i as int).len() == b@.len() - i);
    }
    if a_len == b_len {
        Ordering::Equal
    } else if a_len < b_len {
        Ordering::Less
    } else {
        Ordering::Greater
    }
}

/// True iff the two strings hold the same characters.
pub fn str_eq(a: &str, b: &str) -> (r: bool)
    ensures
        r == (a@ == b@),
{
    match str_cmp(a, b) {
        Ordering::Equal => {
            proof {
                lemma_str_cmp_equal(a@, b@);
            }
            true
        },
        _ => {
            proof {
                lemma_str_cmp_equal(a@, b@);
            }
            false
        },
    }
}

/// The lexicographic order calls two character sequences equal exactly when
/// they are the same sequence.
pub proof fn lemma_str_cmp_equal(a: Seq<char>, b: Seq<char>)
    ensures
        spec_str_cmp(a, b) == Ordering::Equal <==> a == b,
    decreases a.len(),
{
    if a.len() == 0 && b.len() == 0 {
        assert(a =~= b);
    } else if a.len() == 0 || b.len() == 0 {
    } else if a[0] != b[0] {
    } else {
        lemma_str_cmp_equal(a.skip(1), b.skip(1));
        if spec_str_cmp(a, b) == Ordering::Equal {
            assert(a =~= seq![a[0]] + a.skip(1));
            assert(b =~= seq![b[0]] + b.skip(1));
        } else {
            if a == b {
                assert(a.skip(1) =~= b.skip(1));
            }
        }
    }
}

/// The spec-level lookup of a key in an object's field list: the value of
/// the first field with that name.
pub open spec fn spec_obj_get(fields: Seq<(Seq<char>, SpecValue)>, key: Seq<char>) -> Option<
    SpecValue,
>
    decreases fields.len(),
{
    if fields.len() == 0 {
        Option::None
    } else if fields[0].0 == key {
        Option::Some(fields[0].1)
    } else {
        spec_obj_get(fields.skip(1), key)
    }
}

/// Looks a field up by name in an object's field list.
#[verifier::loop_isolation(false)]
pub fn obj_get<'a>(fields: &'a Vec<(String, Value)>, key: &str) -> (r: Option<&'a Value>)
    ensures
        match r {
            Option::Some(v) => spec_obj_get(obj_view(*fields), key@) == Option::Some(v@),
            Option::None => spec_obj_get(obj_view(*fields), key@) is None,
        },
{
    let mut i: usize = 0;
    proof {
        assert(obj_view(*fields).skip(0) =~= obj_view(*fields));
    }
    proof {
        assert(obj_view(*fields).len() == fields@.len());
    }
    while i < fields.len()
        invariant
            i <= fields.len(),
            spec_obj_get(obj_view(*fields), key@) == spec_obj_get(
                obj_view(*fields).skip(i as int),
                key@,
            ),
        decreases fields.len() - i,
    {
        proof {
            assert(obj_view(*fields).skip(i as int)[0] == (fields@[i as int].0@, fields@[
                i as int].1@));
            assert(obj_view(*fields).skip(i as int).skip(1) =~= obj_view(*fields).skip(
                i as int + 1));
        }
        if str_eq(fields[i].0.as_str(), key) {
            return Option::Some(&fields[i].1);
        }
        i = i + 1;
    }
    proof {
        assert(obj_view(*fields).skip(fields@.len() as int) =~= Seq::empty());
    }
    Option::None
}

/// The model of an object's field list.
pub open spec fn obj_view(fields: Vec<(String, Value)>) -> Seq<(Seq<char>, SpecValue)> {
    Seq::new(fields@.len(), |i: int|
        if 0 <= i < fields@.len() {
            (fields@[i].0@, fields@[i].1@)
        } else {
            (Seq::empty(), SpecValue::Null)
        }
    )
}

/// An object value's view carries exactly the model of its field list.
pub broadcast proof fn lemma_obj_view(fields: Vec<(String, Value)>)
    ensures
        Value::Object(fields)@->Object_0 == #[trigger] obj_view(fields),
{
    broadcast use lemma_view_unfold;

    assert(Value::Object(fields)@->Object_0 =~= obj_view(fields));
}

/// Structural equality of two values: same shapes, same characters, same
/// numbers (an integer and a double are never structurally equal), and, for
/// objects, the same fields in the same order.
#[verifier::loop_isolation(false)]
pub fn value_eq(a: &Value, b: &Value) -> (r: bool)
    ensures
        r == (a@ == b@),
    decreases a,
{
    broadcast use lemma_view_unfold;

    match (a, b) {
        (Value::Null, Value::Null) => true,
        (Value::Bool(x), Value::Bool(y)) => x == y,
        (Value::Number(x), Value::Number(y)) => x == y,
        (Value::Text(x), Value::Text(y)) => str_eq(x.as_str(), y.as_str()),
        (Value::Array(xs), Value::Array(ys)) => {
            proof {
                assert(a@->Array_0.len() == xs@.len());
                assert(b@->Array_0.len() == ys@.len());
            }
            if xs.len() != ys.len() {
                return false;
            }
            let mut i: usize = 0;
            while i < xs.len()
                invariant
                    i <= xs.len(),
                    xs.len() == ys.len(),
                    forall|j: int| 0 <= j < i ==> xs@[j]@ == ys@[j]@,
                decreases xs.len() - i,
            {
                proof {
                    assert(decreases_to!(*a => *xs));
                    assert(decreases_to!(*xs => xs@));
                    assert(decreases_to!(xs@ => xs@[i as int]));
                }
                if !value_eq(&xs[i], &ys[i]) {
                    proof {
                        assert(a@->Array_0[i as int] == xs@[i as int]@);
                        assert(b@->Array_0[i as int] == ys@[i as int]@);
                    }
                    return false;
                }
                i = i + 1;
            }
            proof {
                assert(a@->Array_0 =~= b@->Array_0);
            }
            true
        },
        (Value::Object(xs), Value::Object(ys)) => {
            proof {
                assert(a@->Object_0.len() == xs@.len());
                assert(b@->Object_0.len() == ys@.len());
            }
            if xs.len() != ys.len() {
                return false;
            }
            let mut i: usize = 0;
            while i < xs.len()
                invariant
                    i <= xs.len(),
                    xs.len() == ys.len(),
                    forall|j: int| 0 <= j < i ==> xs@[j].0@ == ys@[j].0@ && xs@[j].1@
                        == ys@[j].1@,
                decreases xs.len() - i,
            {
                proof {
                    assert(decreases_to!(*a => *xs));
                    assert(decreases_to!(*xs => xs@));
                    assert(decreases_to!(xs@ => xs@[i as int]));
                    assert(decreases_to!(xs@[i as int] => xs@[i as int].1));
                }
                if !str_eq(xs[i].0.as_str(), ys[i].0.as_str()) {
                    proof {
                        assert(a@->Object_0[i as int] == (xs@[i as int].0@, xs@[i as int].1@));
                        assert(b@->Object_0[i as int] == (ys@[i as int].0@, ys@[i as int].1@));
                    }
                    return false;
                }
                if !value_eq(&xs[i].1, &ys[i].1) {
                    proof {
                        assert(a@->Object_0[i as int] == (xs@[i as int].0@, xs@[i as int].1@));
                        assert(b@->Object_0[i as int] == (ys@[i as int].0@, ys@[i as int].1@));
                    }
                    return false;
                }
                i = i + 1;
            }
            proof {
                assert(a@->Object_0 =~= b@->Object_0);
            }
            true
        },
        _ => {
            proof {
                lemma_view_variants(a, b);
            }
            false
        },
    }
}

proof fn lemma_view_variants(a: &Value, b: &Value)
    ensures
        a@ is Null <==> *a is Null,
        a@ is Bool <==> *a is Bool,
        a@ is Number <==> *a is Number,
        a@ is Text <==> *a is Text,
        a@ is Array <==> *a is Array,
        a@ is Object <==> *a is Object,
        b@ is Null <==> *b is Null,
        b@ is Bool <==> *b is Bool,
        b@ is Number <==> *b is Number,
        b@ is Text <==> *b is Text,
        b@ is Array <==> *b is Array,
        b@ is Object <==> *b is Object,
{
}

/// A value is well formed when no double in it is a NaN and no object in
/// it repeats a field name.
pub open spec fn value_wf(v: SpecValue) -> bool
    decreases v,
{
    match v {
        SpecValue::Number(n) => crate::number::number_wf(n),
        SpecValue::Array(elems) => forall|i: int|
            0 <= i < elems.len() ==> value_wf(#[trigger] elems[i]),
        SpecValue::Object(fields) => (forall|i: int|
            0 <= i < fields.len() ==> value_wf(#[trigger] fields[i].1)) && (forall|i: int, j: int|
            0 <= i < j < fields.len() ==> fields[i].0 != fields[j].0),
        _ => true,
    }
}

/// Wraps an object's field list into an object value.
#[verifier::loop_isolation(false)]
pub fn to_object_value(fields: &Vec<(String, Value)>) -> (r: Value)
    ensures
        r@ == SpecValue::Object(obj_view(*fields)),
{
    broadcast use lemma_view_unfold, lemma_obj_view;

    let mut out: Vec<(String, Value)> = Vec::new();
    let mut i: usize = 0;
    while i < fields.len()
        invariant
            i <= fields.len(),
            out@.len() == i,
            forall|j: int| 0 <= j < i ==> out@[j].0@ == fields@[j].0@ && out@[j].1@
                == fields@[j].1@,
        decreases fields.len() - i,
    {
        let (k, v) = &fields[i];
        out.push((k.clone(), v.clone()));
        i = i + 1;
    }
    let r = Value::Object(out);
    proof {
        assert(r@->Object_0 =~= obj_view(*fields));
    }
    r
}

/// Relies on std's String::push: appends one character.
pub assume_specification[ String::push ](s: &mut String, c: char)
    ensures
        final(s)@ == old(s)@.push(c),
;

/// Joins two strings.
#[verifier::loop_isolation(false)]
pub fn str_concat(a: &str, b: &str) -> (r: String)
    ensures
        r@ == a@ + b@,
{
    let mut out = a.to_owned();
    let len = b.unicode_len();
    let mut i: usize = 0;
    proof {
        assert(out@ =~= a@ + b@.take(0));
    }
    while i < len
        invariant
            i <= len,
            len == b@.len(),
            out@ == a@ + b@.take(i as int),
        decreases len - i,
    {
        out.push(b.get_char(i));
        proof {
            assert(a@ + b@.take(i as int + 1) =~= (a@ + b@.take(i as int)).push(b@[i as int]));
        }
        i = i + 1;
    }
    proof {
        assert(b@.take(len as int) =~= b@);
    }
    out
}

/// No two fields of the list share a name.
pub open spec fn obj_keys_unique(fields: Seq<(Seq<char>, SpecValue)>) -> bool {
    forall|i: int, j: int| 0 <= i < j < fields.len() ==> (#[trigger] fields[i]).0 != (
    #[trigger] fields[j]).0
}

impl Value {
    /// True iff the value is an array.
    pub fn is_array(&self) -> (r: bool)
        ensures
            r == self@ is Array,
    {
        matches!(self, Value::Array(_))
    }

    /// True iff the value is an object.
    pub fn is_object(&self) -> (r: bool)
        ensures
            r == self@ is Object,
    {
        matches!(self, Value::Object(_))
    }

    /// True iff the value is null.
    pub fn is_null(&self) -> (r: bool)
        ensures
            r == self@ is Null,
    {
        matches!(self, Value::Null)
    }
}

} // verus!
