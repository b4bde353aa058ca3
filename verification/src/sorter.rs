//! The sort compiler and the typed value comparator. Values are ordered
//! first by canonical type rank, then by type-specific rules: numbers as
//! doubles, strings lexicographically, arrays and objects element-wise
//! with a length tie-break, objects by key then value.

use vstd::prelude::*;
use core::cmp::Ordering;
use crate::value::{
    lemma_obj_view, lemma_view_unfold, obj_view, spec_obj_get, spec_str_cmp, str_cmp, str_eq,
    Number, SpecValue, Value,
};
use crate::number::{spec_cmp_number, cmp_number};
use crate::lookup::{
    lemma_find_char, spec_expand, spec_find_char, spec_lookup, spec_split_key, Branch, Lookup,
    SpecBranch,
};

verus! {

broadcast use lemma_view_unfold, lemma_obj_view;

/// The reverse of an ordering.
pub open spec fn spec_ord_reverse(o: Ordering) -> Ordering {
    match o {
        Ordering::Less => Ordering::Greater,
        Ordering::Equal => Ordering::Equal,
        Ordering::Greater => Ordering::Less,
    }
}

/// Reverses an ordering.
pub fn ord_reverse(o: Ordering) -> (r: Ordering)
    ensures
        r == spec_ord_reverse(o),
{
    match o {
        Ordering::Less => Ordering::Greater,
        Ordering::Equal => Ordering::Equal,
        Ordering::Greater => Ordering::Less,
    }
}

/// Comparison of two integers as an ordering.
pub open spec fn spec_cmp_int(a: int, b: int) -> Ordering {
    if a < b {
        Ordering::Less
    } else if a == b {
        Ordering::Equal
    } else {
        Ordering::Greater
    }
}

/// The type code of an object value: most objects are plain documents
/// (code 3), but the tagged shapes the EJSON codec produces count as the
/// scalar they encode.
pub open spec fn spec_obj_type(fields: Seq<(Seq<char>, SpecValue)>) -> int {
    if fields.len() == 1 {
        if fields[0].0 == "$InfNaN"@ {
            1
        } else if fields[0].0 == "$binary"@ {
            5
        } else if fields[0].0 == "$date"@ {
            9
        } else {
            3
        }
    } else if fields.len() == 2 {
        if (fields[0].0 == "$flags"@ && fields[1].0 == "$regexp"@) || (fields[0].0 == "$regexp"@
            && fields[1].0 == "$flags"@) {
            11
        } else if (fields[0].0 == "$type"@ && fields[1].0 == "$value"@) || (fields[0].0
            == "$value"@ && fields[1].0 == "$type"@) {
            spec_tagged_type(if fields[0].0 == "$type"@ {
                fields[0].1
            } else {
                fields[1].1
            })
        } else {
            3
        }
    } else {
        3
    }
}

/// The type code encoded by the `$type` field of a tagged object.
pub open spec fn spec_tagged_type(tag: SpecValue) -> int {
    match tag {
        SpecValue::Text(s) => if s == "Decimal"@ {
            1
        } else if s == "oid"@ {
            7
        } else {
            3
        },
        _ => 3,
    }
}

/// The type code of a value, in the numbering the query operator `$type`
/// uses. All numeric shapes collapse to code 1.
pub open spec fn spec_value_type(v: SpecValue) -> int {
    match v {
        SpecValue::Array(_) => 4,
        SpecValue::Bool(_) => 8,
        SpecValue::Null => 10,
        SpecValue::Number(_) => 1,
        SpecValue::Object(fields) => spec_obj_type(fields),
        SpecValue::Text(_) => 2,
    }
}

/// The rank of a type code in the canonical cross-type sort order.
pub open spec fn spec_type_order(code: int) -> int {
    if code == -1 {
        0
    } else if code == 10 {
        1
    } else if code == 1 || code == 16 || code == 18 || code == 19 {
        2
    } else if code == 2 || code == 14 {
        3
    } else if code == 3 {
        4
    } else if code == 4 {
        5
    } else if code == 5 {
        6
    } else if code == 7 {
        7
    } else if code == 8 {
        8
    } else if code == 9 {
        9
    } else if code == 17 {
        10
    } else if code == 11 {
        11
    } else {
        12
    }
}

/// Comparison of two values of the same type code, element-wise for the
/// container shapes; `Err` carries the type-rank order when a nested
/// comparison crosses types.
pub open spec fn spec_cmp_value_partial(a: SpecValue, b: SpecValue) -> Result<Ordering, Ordering>
    decreases a,
{
    let ta = spec_value_type(a);
    let tb = spec_value_type(b);
    if ta != tb {
        Result::Err(spec_cmp_int(spec_type_order(ta), spec_type_order(tb)))
    } else {
        match (a, b) {
            (SpecValue::Array(x), SpecValue::Array(y)) => if x.len() != y.len() {
                Result::Ok(spec_cmp_int(x.len() as int, y.len() as int))
            } else {
                spec_cmp_elems(x, y)
            },
            (SpecValue::Bool(x), SpecValue::Bool(y)) => Result::Ok(
                if x == y {
                    Ordering::Equal
                } else if !x {
                    Ordering::Less
                } else {
                    Ordering::Greater
                },
            ),
            (SpecValue::Null, SpecValue::Null) => Result::Ok(Ordering::Equal),
            (SpecValue::Number(x), SpecValue::Number(y)) => Result::Ok(spec_cmp_number(x, y)),
            (SpecValue::Object(x), SpecValue::Object(y)) => if x.len() != y.len() {
                Result::Ok(spec_cmp_int(x.len() as int, y.len() as int))
            } else {
                spec_cmp_fields(x, y)
            },
            (SpecValue::Text(x), SpecValue::Text(y)) => Result::Ok(spec_str_cmp(x, y)),
            // A plain number and a tagged numeric object share type code 1;
            // the plain number orders first.
            (SpecValue::Number(_), SpecValue::Object(_)) => Result::Ok(Ordering::Less),
            (SpecValue::Object(_), SpecValue::Number(_)) => Result::Ok(Ordering::Greater),
            _ => Result::Ok(Ordering::Equal),
        }
    }
}

/// Element-wise comparison of two equally long arrays.
pub open spec fn spec_cmp_elems(x: Seq<SpecValue>, y: Seq<SpecValue>) -> Result<
    Ordering,
    Ordering,
>
    decreases x,
{
    if x.len() == 0 || y.len() == 0 {
        Result::Ok(Ordering::Equal)
    } else {
        match spec_cmp_value_partial(x[0], y[0]) {
            Result::Ok(Ordering::Equal) => spec_cmp_elems(x.skip(1), y.skip(1)),
            other => other,
        }
    }
}

/// Field-wise comparison of two equally long objects: by key, then by
/// value.
pub open spec fn spec_cmp_fields(
    x: Seq<(Seq<char>, SpecValue)>,
    y: Seq<(Seq<char>, SpecValue)>,
) -> Result<Ordering, Ordering>
    decreases x,
{
    if x.len() == 0 || y.len() == 0 {
        Result::Ok(Ordering::Equal)
    } else if spec_str_cmp(x[0].0, y[0].0) != Ordering::Equal {
        Result::Ok(spec_str_cmp(x[0].0, y[0].0))
    } else {
        match spec_cmp_value_partial(x[0].1, y[0].1) {
            Result::Ok(Ordering::Equal) => spec_cmp_fields(x.skip(1), y.skip(1)),
            other => other,
        }
    }
}

/// The collapse of a partial comparison: the ordering either way.
pub open spec fn spec_cmp_value(a: SpecValue, b: SpecValue) -> Ordering {
    match spec_cmp_value_partial(a, b) {
        Result::Ok(o) => o,
        Result::Err(o) => o,
    }
}

/// Comparison of two optional values: a missing value orders before any
/// present one.
pub open spec fn spec_cmp_value_option(a: Option<SpecValue>, b: Option<SpecValue>) -> Ordering {
    match (a, b) {
        (Option::None, Option::None) => Ordering::Equal,
        (Option::None, Option::Some(_)) => Ordering::Less,
        (Option::Some(_), Option::None) => Ordering::Greater,
        (Option::Some(x), Option::Some(y)) => spec_cmp_value(x, y),
    }
}

/// Why a sort specification is rejected.
#[derive(Clone, Copy, Debug, PartialEq, Eq, Structural)]
pub enum SortError {
    /// Two sort keys share a dotted first segment.
    ParallelNestedFields,
    /// A sort order is something other than 1 or -1.
    UnsupportedOrder,
}

/// Whether a dotted key's first segment is in `seen`.
pub open spec fn spec_seen_contains(seen: Seq<Seq<char>>, seg: Seq<char>) -> bool {
    exists|i: int| 0 <= i < seen.len() && seen[i] == seg
}

/// The first segment of a key, up to its first dot, and whether the key is
/// dotted at all.
pub open spec fn spec_first_seg(k: Seq<char>) -> Option<Seq<char>> {
    match spec_find_char(k, '.') {
        Option::Some(i) => Option::Some(k.take(i)),
        Option::None => Option::None,
    }
}

/// The error compiling a sort specification stops with, walking its keys
/// in order: a repeated dotted first segment is reported first, then an
/// unsupported order value.
pub open spec fn spec_compile_sort(
    fields: Seq<(Seq<char>, SpecValue)>,
    seen: Seq<Seq<char>>,
) -> Option<SortError>
    decreases fields.len(),
{
    if fields.len() == 0 {
        Option::None
    } else {
        let k = fields[0].0;
        let v = fields[0].1;
        match spec_first_seg(k) {
            Option::Some(seg) => if spec_seen_contains(seen, seg) {
                Option::Some(SortError::ParallelNestedFields)
            } else if !(v == SpecValue::Number(Number::Int(1)) || v == SpecValue::Number(
                Number::Int(-1i64),
            )) {
                Option::Some(SortError::UnsupportedOrder)
            } else {
                spec_compile_sort(fields.skip(1), seen.push(seg))
            },
            Option::None => if !(v == SpecValue::Number(Number::Int(1)) || v
                == SpecValue::Number(Number::Int(-1i64))) {
                Option::Some(SortError::UnsupportedOrder)
            } else {
                spec_compile_sort(fields.skip(1), seen)
            },
        }
    }
}

/// What a compiled sorter holds for a sort specification: one well-formed
/// sort-mode lookup per key, in order, with its direction.
pub open spec fn sorter_represents(
    lookups: Seq<(Lookup, bool)>,
    fields: Seq<(Seq<char>, SpecValue)>,
) -> bool {
    lookups.len() == fields.len() && forall|i: int|
        0 <= i < fields.len() ==> {
            &&& crate::lookup::lookup_wf((#[trigger] lookups[i]).0)
            &&& lookups[i].0.for_sort == true
            &&& crate::lookup::path_of(lookups[i].0) == spec_split_key(fields[i].0)
            &&& lookups[i].1 == (fields[i].1 == SpecValue::Number(Number::Int(-1i64)))
        }
}

/// The present values among a list of branches, in order.
pub open spec fn spec_branch_values(branches: Seq<SpecBranch>) -> Seq<SpecValue>
    decreases branches.len(),
{
    if branches.len() == 0 {
        Seq::empty()
    } else {
        (match branches[0].value {
            Option::Some(v) => seq![v],
            Option::None => Seq::<SpecValue>::empty(),
        }) + spec_branch_values(branches.skip(1))
    }
}

/// The leftmost minimum of a value list: a later value replaces the
/// running pick only when strictly smaller.
pub open spec fn spec_fold_min(vals: Seq<SpecValue>) -> Option<SpecValue>
    decreases vals.len(),
{
    if vals.len() == 0 {
        Option::None
    } else {
        match spec_fold_min(vals.drop_last()) {
            Option::None => Option::Some(vals.last()),
            Option::Some(prev) => if spec_cmp_value(vals.last(), prev) == Ordering::Less {
                Option::Some(vals.last())
            } else {
                Option::Some(prev)
            },
        }
    }
}

/// The rightmost maximum of a value list: a later value replaces the
/// running pick unless strictly smaller.
pub open spec fn spec_fold_max(vals: Seq<SpecValue>) -> Option<SpecValue>
    decreases vals.len(),
{
    if vals.len() == 0 {
        Option::None
    } else {
        match spec_fold_max(vals.drop_last()) {
            Option::None => Option::Some(vals.last()),
            Option::Some(prev) => if spec_cmp_value(vals.last(), prev) == Ordering::Less {
                Option::Some(prev)
            } else {
                Option::Some(vals.last())
            },
        }
    }
}

/// The value a document sorts by under one key: its branches, expanded
/// with leaf arrays flattened away, the minimum for an ascending key and
/// the maximum for a descending one.
pub open spec fn spec_sort_key_value(lk: Lookup, reverse: bool, doc: SpecValue) -> Option<
    SpecValue,
> {
    let vals = spec_branch_values(spec_expand(spec_lookup(lk, doc), true));
    if reverse {
        spec_fold_max(vals)
    } else {
        spec_fold_min(vals)
    }
}

/// The sorter's order on two documents: each key in turn, descending keys
/// reversed, ties broken by the next key.
pub open spec fn spec_sorter_cmp(
    lookups: Seq<(Lookup, bool)>,
    a: SpecValue,
    b: SpecValue,
) -> Ordering
    decreases lookups.len(),
{
    if lookups.len() == 0 {
        Ordering::Equal
    } else {
        let (lk, reverse) = lookups[0];
        let av = spec_sort_key_value(lk, reverse, a);
        let bv = spec_sort_key_value(lk, reverse, b);
        let o = spec_cmp_value_option(av, bv);
        if o != Ordering::Equal {
            if reverse {
                spec_ord_reverse(o)
            } else {
                o
            }
        } else {
            spec_sorter_cmp(lookups.skip(1), a, b)
        }
    }
}

/// A compiled sort specification: one lookup per key with its direction.
pub struct Sorter {
    pub lookups: Vec<(Lookup, bool)>,
}

/// The model of a sort specification: the field list of its object, or
/// empty when there is none.
pub open spec fn spec_sort_fields(sort: Option<&Vec<(String, Value)>>) -> Seq<
    (Seq<char>, SpecValue),
> {
    match sort {
        Option::Some(fields) => obj_view(*fields),
        Option::None => Seq::empty(),
    }
}

/// The views of a list of seen first segments.
pub open spec fn seen_view(seen: Vec<String>) -> Seq<Seq<char>> {
    Seq::new(seen@.len(), |i: int|
        if 0 <= i < seen@.len() {
            seen@[i]@
        } else {
            Seq::empty()
        }
    )
}

/// Reads a sort order value: 1 is ascending, -1 descending, anything else
/// unsupported.
fn sort_order_of(order: &Value) -> (r: Option<bool>)
    ensures
        match r {
            Option::Some(reverse) => (order@ == SpecValue::Number(Number::Int(1i64)) || order@
                == SpecValue::Number(Number::Int(-1i64))) && reverse == (order@
                == SpecValue::Number(Number::Int(-1i64))),
            Option::None => !(order@ == SpecValue::Number(Number::Int(1i64)) || order@
                == SpecValue::Number(Number::Int(-1i64))),
        },
{
    match order {
        Value::Number(Number::Int(n)) => {
            if *n == 1 {
                Option::Some(false)
            } else if *n == -1 {
                Option::Some(true)
            } else {
                Option::None
            }
        },
        _ => Option::None,
    }
}

proof fn lemma_branch_values_snoc(branches: Seq<SpecBranch>, i: int)
    requires
        0 <= i < branches.len(),
    ensures
        spec_branch_values(branches.take(i + 1)) == spec_branch_values(branches.take(i)) + (
        match branches[i].value {
            Option::Some(v) => seq![v],
            Option::None => Seq::<SpecValue>::empty(),
        }),
    decreases i + 1,
{
    if i == 0 {
        assert(branches.take(1) =~= seq![branches[0]]);
        assert(branches.take(1).skip(1) =~= Seq::<SpecBranch>::empty());
        assert(branches.take(0) =~= Seq::<SpecBranch>::empty());
        assert(spec_branch_values(branches.take(1)) =~= spec_branch_values(branches.take(0)) + (
        match branches[0].value {
            Option::Some(v) => seq![v],
            Option::None => Seq::<SpecValue>::empty(),
        }));
    } else {
        lemma_branch_values_snoc(branches.skip(1), i - 1);
        assert(branches.take(i + 1)[0] == branches[0]);
        assert(branches.take(i)[0] == branches[0]);
        assert(branches.take(i + 1).skip(1) =~= branches.skip(1).take(i));
        assert(branches.take(i).skip(1) =~= branches.skip(1).take(i - 1));
        assert(branches.skip(1)[i - 1] == branches[i]);
        assert(spec_branch_values(branches.take(i + 1)) =~= spec_branch_values(branches.take(i))
            + (match branches[i].value {
            Option::Some(v) => seq![v],
            Option::None => Seq::<SpecValue>::empty(),
        }));
    }
}

/// Picks the value a document sorts by from a list of expanded branches:
/// the leftmost minimum, or for a descending key the rightmost maximum.
#[verifier::loop_isolation(false)]
fn pick_branch_value(branches: &Vec<Branch>, reverse: bool) -> (r: Option<Value>)
    ensures
        match r {
            Option::Some(v) => (if reverse {
                spec_fold_max(spec_branch_values(branches.deep_view()))
            } else {
                spec_fold_min(spec_branch_values(branches.deep_view()))
            }) == Option::Some(v@),
            Option::None => (if reverse {
                spec_fold_max(spec_branch_values(branches.deep_view()))
            } else {
                spec_fold_min(spec_branch_values(branches.deep_view()))
            }) is None,
        },
{
    broadcast use crate::lookup::lemma_branches_deep_view;

    let ghost bs = branches.deep_view();
    let mut best: Option<Value> = Option::None;
    let mut i: usize = 0;
    proof {
        assert(bs.take(0) =~= Seq::<SpecBranch>::empty());
    }
    while i < branches.len()
        invariant
            i <= branches@.len(),
            match best {
                Option::Some(v) => (if reverse {
                    spec_fold_max(spec_branch_values(bs.take(i as int)))
                } else {
                    spec_fold_min(spec_branch_values(bs.take(i as int)))
                }) == Option::Some(v@),
                Option::None => (if reverse {
                    spec_fold_max(spec_branch_values(bs.take(i as int)))
                } else {
                    spec_fold_min(spec_branch_values(bs.take(i as int)))
                }) is None,
            },
        decreases branches@.len() - i,
    {
        proof {
            lemma_branch_values_snoc(bs, i as int);
            if bs[i as int].value is Some {
                assert(spec_branch_values(bs.take(i as int + 1)).drop_last()
                    =~= spec_branch_values(bs.take(i as int)));
            } else {
                assert(spec_branch_values(bs.take(i as int + 1)) =~= spec_branch_values(
                    bs.take(i as int),
                ));
            }
        }
        match &branches[i].value {
            Option::Some(v) => {
                match &best {
                    Option::None => {
                        best = Option::Some(v.clone());
                    },
                    Option::Some(b) => {
                        let o = Sorter::cmp_value(v, b);
                        let replace = if reverse {
                            !matches!(o, Ordering::Less)
                        } else {
                            matches!(o, Ordering::Less)
                        };
                        if replace {
                            best = Option::Some(v.clone());
                        }
                    },
                }
            },
            Option::None => {},
        }
        i = i + 1;
    }
    proof {
        assert(bs.take(branches@.len() as int) =~= bs);
    }
    best
}

impl Sorter {
    /// Compiles a sort specification: each key maps to 1 (ascending) or
    /// -1 (descending), and no two dotted keys may share a first segment.
    #[verifier::loop_isolation(false)]
    pub fn compile(sort: Option<&Vec<(String, Value)>>) -> (r: Result<Sorter, SortError>)
        ensures
            match r {
                Result::Ok(s) => {
                    &&& spec_compile_sort(spec_sort_fields(sort), Seq::empty()) is None
                    &&& sorter_represents(s.lookups@, spec_sort_fields(sort))
                },
                Result::Err(e) => spec_compile_sort(spec_sort_fields(sort), Seq::empty())
                    == Option::Some(e),
            },
    {
        let fields: &Vec<(String, Value)> = match sort {
            Option::Some(fields) => fields,
            Option::None => {
                let r = Sorter { lookups: Vec::new() };
                proof {
                    assert(spec_sort_fields(sort) =~= Seq::<(Seq<char>, SpecValue)>::empty());
                }
                return Result::Ok(r);
            },
        };
        let ghost gfields = spec_sort_fields(sort);
        proof {
            assert(gfields == obj_view(*fields));
        }
        let mut dotted_fields: Vec<String> = Vec::new();
        let mut lookups: Vec<(Lookup, bool)> = Vec::new();
        let mut i: usize = 0;
        proof {
            assert(gfields.skip(0) =~= gfields);
            assert(seen_view(dotted_fields) =~= Seq::<Seq<char>>::empty());
        }
        while i < fields.len()
            invariant
                i <= fields.len(),
                spec_compile_sort(gfields, Seq::empty()) == spec_compile_sort(
                    gfields.skip(i as int),
                    seen_view(dotted_fields),
                ),
                lookups@.len() == i,
                forall|j: int|
                    0 <= j < i ==> {
                        &&& crate::lookup::lookup_wf((#[trigger] lookups@[j]).0)
                        &&& lookups@[j].0.for_sort == true
                        &&& crate::lookup::path_of(lookups@[j].0) == spec_split_key(gfields[j].0)
                        &&& lookups@[j].1 == (gfields[j].1 == SpecValue::Number(Number::Int(
                            -1i64,
                        )))
                    },
            decreases fields.len() - i,
        {
            proof {
                assert(gfields.skip(i as int)[0] == (fields@[i as int].0@, fields@[i as int].1@));
                assert(gfields.skip(i as int).skip(1) =~= gfields.skip(i as int + 1));
            }
            let key = &fields[i].0;
            let order = &fields[i].1;
            let maybe_dot = crate::lookup::find_char(key.as_str(), '.');
            match maybe_dot {
                Option::Some(dot) => {
                    proof {
                        lemma_find_char(key@, '.');
                    }
                    let field = key.as_str().substring_char(0, dot);
                    proof {
                        assert(key@.subrange(0, dot as int) =~= key@.take(dot as int));
                    }
                    let mut seen = false;
                    let mut j: usize = 0;
                    while j < dotted_fields.len()
                        invariant
                            j <= dotted_fields@.len(),
                            seen <==> exists|k: int|
                                0 <= k < j && seen_view(dotted_fields)[k] == field@,
                        decreases dotted_fields@.len() - j,
                    {
                        proof {
                            assert(seen_view(dotted_fields)[j as int] == dotted_fields@[
                                j as int]@);
                        }
                        if str_eq(dotted_fields[j].as_str(), field) {
                            seen = true;
                        }
                        j = j + 1;
                    }
                    if seen {
                        proof {
                            assert(spec_seen_contains(seen_view(dotted_fields), field@));
                        }
                        return Result::Err(SortError::ParallelNestedFields);
                    }
                    proof {
                        assert(!spec_seen_contains(seen_view(dotted_fields), field@));
                    }
                    let reverse = match sort_order_of(order) {
                        Option::Some(reverse) => reverse,
                        Option::None => {
                            return Result::Err(SortError::UnsupportedOrder);
                        },
                    };
                    let lookup = Lookup::new(key.clone(), true);
                    lookups.push((lookup, reverse));
                    let ghost before = seen_view(dotted_fields);
                    dotted_fields.push(field.to_owned());
                    proof {
                        assert(seen_view(dotted_fields) =~= before.push(field@));
                    }
                },
                Option::None => {
                    let reverse = match sort_order_of(order) {
                        Option::Some(reverse) => reverse,
                        Option::None => {
                            return Result::Err(SortError::UnsupportedOrder);
                        },
                    };
                    let lookup = Lookup::new(key.clone(), true);
                    lookups.push((lookup, reverse));
                },
            }
            i = i + 1;
        }
        proof {
            assert(gfields.skip(fields@.len() as int).len() == 0);
        }
        Result::Ok(Sorter { lookups })
    }

    /// Orders two documents by this sorter's keys.
    #[verifier::loop_isolation(false)]
    pub fn cmp(&self, lhs: &Vec<(String, Value)>, rhs: &Vec<(String, Value)>) -> (r: Ordering)
        ensures
            r == spec_sorter_cmp(
                self.lookups@,
                SpecValue::Object(obj_view(*lhs)),
                SpecValue::Object(obj_view(*rhs)),
            ),
    {
        let lhs_value = crate::value::to_object_value(lhs);
        let rhs_value = crate::value::to_object_value(rhs);
        let ghost la = SpecValue::Object(obj_view(*lhs));
        let ghost lb = SpecValue::Object(obj_view(*rhs));
        let mut i: usize = 0;
        proof {
            assert(self.lookups@.skip(0) =~= self.lookups@);
        }
        while i < self.lookups.len()
            invariant
                i <= self.lookups@.len(),
                spec_sorter_cmp(self.lookups@, la, lb) == spec_sorter_cmp(
                    self.lookups@.skip(i as int),
                    la,
                    lb,
                ),
            decreases self.lookups@.len() - i,
        {
            proof {
                assert(self.lookups@.skip(i as int)[0] == self.lookups@[i as int]);
                assert(self.lookups@.skip(i as int).skip(1) =~= self.lookups@.skip(i as int + 1));
            }
            let (lookup, reverse) = &self.lookups[i];
            let lhs_branches = Branch::expand(lookup.lookup(&lhs_value), true);
            let rhs_branches = Branch::expand(lookup.lookup(&rhs_value), true);
            let lhs_pick = pick_branch_value(&lhs_branches, *reverse);
            let rhs_pick = pick_branch_value(&rhs_branches, *reverse);
            let ordering = Self::cmp_value_option(
                match &lhs_pick {
                    Option::Some(v) => Option::Some(v),
                    Option::None => Option::None,
                },
                match &rhs_pick {
                    Option::Some(v) => Option::Some(v),
                    Option::None => Option::None,
                },
            );
            match ordering {
                Ordering::Equal => {},
                o => {
                    return if *reverse {
                        ord_reverse(o)
                    } else {
                        o
                    };
                },
            }
            i = i + 1;
        }
        Ordering::Equal
    }

    /// The type code of a value.
    pub fn value_type(value: &Value) -> (r: i8)
        ensures
            r == spec_value_type(value@),
    {
        match value {
            Value::Array(_) => 4,
            Value::Bool(_) => 8,
            Value::Null => 10,
            Value::Number(_) => 1,
            Value::Text(_) => 2,
            Value::Object(fields) => {
                if fields.len() == 1 {
                    let k0 = fields[0].0.as_str();
                    if str_eq(k0, "$InfNaN") {
                        1
                    } else if str_eq(k0, "$binary") {
                        5
                    } else if str_eq(k0, "$date") {
                        9
                    } else {
                        3
                    }
                } else if fields.len() == 2 {
                    let flags_regexp = (str_eq(fields[0].0.as_str(), "$flags") && str_eq(
                        fields[1].0.as_str(),
                        "$regexp",
                    )) || (str_eq(fields[0].0.as_str(), "$regexp") && str_eq(
                        fields[1].0.as_str(),
                        "$flags",
                    ));
                    if flags_regexp {
                        11
                    } else {
                        let type_value = (str_eq(fields[0].0.as_str(), "$type") && str_eq(
                            fields[1].0.as_str(),
                            "$value",
                        )) || (str_eq(fields[0].0.as_str(), "$value") && str_eq(
                            fields[1].0.as_str(),
                            "$type",
                        ));
                        if type_value {
                            let tag = if str_eq(fields[0].0.as_str(), "$type") {
                                &fields[0].1
                            } else {
                                &fields[1].1
                            };
                            match tag {
                                Value::Text(s) => {
                                    if str_eq(s.as_str(), "Decimal") {
                                        1
                                    } else if str_eq(s.as_str(), "oid") {
                                        7
                                    } else {
                                        3
                                    }
                                },
                                _ => 3,
                            }
                        } else {
                            3
                        }
                    }
                } else {
                    3
                }
            },
        }
    }

    /// Compares two values of equal type code element-wise; across type
    /// codes the result is `Err` with the type-rank order.
    #[verifier::loop_isolation(false)]
    pub fn cmp_value_partial(lhs: &Value, rhs: &Value) -> (r: Result<Ordering, Ordering>)
        ensures
            r == spec_cmp_value_partial(lhs@, rhs@),
        decreases lhs,
    {
        let lhs_type = Self::value_type(lhs);
        let rhs_type = Self::value_type(rhs);
        if lhs_type != rhs_type {
            let lhs_order = Self::value_type_order(lhs_type);
            let rhs_order = Self::value_type_order(rhs_type);
            return Result::Err(
                if lhs_order < rhs_order {
                    Ordering::Less
                } else if lhs_order == rhs_order {
                    Ordering::Equal
                } else {
                    Ordering::Greater
                },
            );
        }
        match (lhs, rhs) {
            (Value::Array(x), Value::Array(y)) => {
                if x.len() != y.len() {
                    return Result::Ok(
                        if x.len() < y.len() {
                            Ordering::Less
                        } else {
                            Ordering::Greater
                        },
                    );
                }
                let ghost sx = lhs@->Array_0;
                let ghost sy = rhs@->Array_0;
                let mut i: usize = 0;
                proof {
                    assert(sx.skip(0) =~= sx);
                    assert(sy.skip(0) =~= sy);
                }
                while i < x.len()
                    invariant
                        i <= x.len(),
                        x@.len() == y@.len(),
                        spec_cmp_elems(sx, sy) == spec_cmp_elems(
                            sx.skip(i as int),
                            sy.skip(i as int),
                        ),
                    decreases x.len() - i,
                {
                    proof {
                        assert(decreases_to!(*lhs => *x));
                        assert(decreases_to!(*x => x@));
                        assert(decreases_to!(x@ => x@[i as int]));
                        assert(sx.skip(i as int)[0] == sx[i as int]);
                        assert(sy.skip(i as int)[0] == sy[i as int]);
                    }
                    let ordering = Self::cmp_value_partial(&x[i], &y[i]);
                    match &ordering {
                        Result::Ok(Ordering::Equal) => {},
                        _ => {
                            return ordering;
                        },
                    }
                    proof {
                        assert(sx.skip(i as int).skip(1) =~= sx.skip(i as int + 1));
                        assert(sy.skip(i as int).skip(1) =~= sy.skip(i as int + 1));
                    }
                    i = i + 1;
                }
                proof {
                    assert(sx.skip(x@.len() as int).len() == 0);
                }
                Result::Ok(Ordering::Equal)
            },
            (Value::Bool(x), Value::Bool(y)) => Result::Ok(
                if x == y {
                    Ordering::Equal
                } else if !*x {
                    Ordering::Less
                } else {
                    Ordering::Greater
                },
            ),
            (Value::Null, Value::Null) => Result::Ok(Ordering::Equal),
            (Value::Number(x), Value::Number(y)) => Result::Ok(cmp_number(x, y)),
            (Value::Object(x), Value::Object(y)) => {
                if x.len() != y.len() {
                    return Result::Ok(
                        if x.len() < y.len() {
                            Ordering::Less
                        } else {
                            Ordering::Greater
                        },
                    );
                }
                let ghost sx = lhs@->Object_0;
                let ghost sy = rhs@->Object_0;
                let mut i: usize = 0;
                proof {
                    assert(sx.skip(0) =~= sx);
                    assert(sy.skip(0) =~= sy);
                }
                while i < x.len()
                    invariant
                        i <= x.len(),
                        x@.len() == y@.len(),
                        spec_cmp_fields(sx, sy) == spec_cmp_fields(
                            sx.skip(i as int),
                            sy.skip(i as int),
                        ),
                    decreases x.len() - i,
                {
                    proof {
                        assert(decreases_to!(*lhs => *x));
                        assert(decreases_to!(*x => x@));
                        assert(decreases_to!(x@ => x@[i as int]));
                        assert(decreases_to!(x@[i as int] => x@[i as int].1));
                        assert(sx.skip(i as int)[0] == sx[i as int]);
                        assert(sy.skip(i as int)[0] == sy[i as int]);
                    }
                    let key_ordering = str_cmp(x[i].0.as_str(), y[i].0.as_str());
                    match key_ordering {
                        Ordering::Equal => {},
                        other => {
                            return Result::Ok(other);
                        },
                    }
                    let ordering = Self::cmp_value_partial(&x[i].1, &y[i].1);
                    match &ordering {
                        Result::Ok(Ordering::Equal) => {},
                        _ => {
                            return ordering;
                        },
                    }
                    proof {
                        assert(sx.skip(i as int).skip(1) =~= sx.skip(i as int + 1));
                        assert(sy.skip(i as int).skip(1) =~= sy.skip(i as int + 1));
                    }
                    i = i + 1;
                }
                proof {
                    assert(sx.skip(x@.len() as int).len() == 0);
                }
                Result::Ok(Ordering::Equal)
            },
            (Value::Text(x), Value::Text(y)) => Result::Ok(str_cmp(x.as_str(), y.as_str())),
            (Value::Number(_), Value::Object(_)) => Result::Ok(Ordering::Less),
            (Value::Object(_), Value::Number(_)) => Result::Ok(Ordering::Greater),
            _ => {
                proof {
                    assert(false);
                }
                Result::Ok(Ordering::Equal)
            },
        }
    }

    /// Compares two values, across types by type rank.
    pub fn cmp_value(lhs: &Value, rhs: &Value) -> (r: Ordering)
        ensures
            r == spec_cmp_value(lhs@, rhs@),
    {
        match Self::cmp_value_partial(lhs, rhs) {
            Result::Ok(ordering) => ordering,
            Result::Err(ordering) => ordering,
        }
    }

    /// Compares two optional values; a missing value orders first.
    pub fn cmp_value_option(lhs: Option<&Value>, rhs: Option<&Value>) -> (r: Ordering)
        ensures
            r == spec_cmp_value_option(
                match lhs {
                    Option::Some(v) => Option::Some(v@),
                    Option::None => Option::None,
                },
                match rhs {
                    Option::Some(v) => Option::Some(v@),
                    Option::None => Option::None,
                },
            ),
    {
        match (lhs, rhs) {
            (Option::None, Option::None) => Ordering::Equal,
            (Option::None, _) => Ordering::Less,
            (_, Option::None) => Ordering::Greater,
            (Option::Some(lhs), Option::Some(rhs)) => Self::cmp_value(lhs, rhs),
        }
    }

    /// The rank of a type code in the canonical cross-type sort order.
    pub fn value_type_order(value_type: i8) -> (r: u8)
        ensures
            r == spec_type_order(value_type as int),
    {
        if value_type == -1 {
            0
        } else if value_type == 10 {
            1
        } else if value_type == 1 || value_type == 16 || value_type == 18 || value_type == 19 {
            2
        } else if value_type == 2 || value_type == 14 {
            3
        } else if value_type == 3 {
            4
        } else if value_type == 4 {
            5
        } else if value_type == 5 {
            6
        } else if value_type == 7 {
            7
        } else if value_type == 8 {
            8
        } else if value_type == 9 {
            9
        } else if value_type == 17 {
            10
        } else if value_type == 11 {
            11
        } else {
            12
        }
    }
}

/// The reverse of a partial comparison, on whichever side it lies.
pub open spec fn spec_flip(r: Result<Ordering, Ordering>) -> Result<Ordering, Ordering> {
    match r {
        Result::Ok(o) => Result::Ok(spec_ord_reverse(o)),
        Result::Err(o) => Result::Err(spec_ord_reverse(o)),
    }
}

/// Swapping the sides of the lexicographic string order reverses it.
pub proof fn lemma_str_cmp_antisym(a: Seq<char>, b: Seq<char>)
    ensures
        spec_str_cmp(b, a) == spec_ord_reverse(spec_str_cmp(a, b)),
    decreases a.len(),
{
    if a.len() > 0 && b.len() > 0 {
        if a[0] == b[0] {
            lemma_str_cmp_antisym(a.skip(1), b.skip(1));
        } else {
            assert((a[0] as int) != (b[0] as int));
        }
    }
}

/// Swapping the sides of the typed value comparison reverses it.
pub proof fn lemma_cmp_partial_antisym(a: SpecValue, b: SpecValue)
    ensures
        spec_cmp_value_partial(b, a) == spec_flip(spec_cmp_value_partial(a, b)),
    decreases a, 0int,
{
    let ta = spec_value_type(a);
    let tb = spec_value_type(b);
    if ta != tb {
    } else {
        match (a, b) {
            (SpecValue::Array(x), SpecValue::Array(y)) => {
                if x.len() == y.len() {
                    lemma_cmp_elems_antisym(x, y);
                }
            },
            (SpecValue::Object(x), SpecValue::Object(y)) => {
                if x.len() == y.len() {
                    lemma_cmp_fields_antisym(x, y);
                }
            },
            (SpecValue::Text(x), SpecValue::Text(y)) => {
                lemma_str_cmp_antisym(x, y);
            },
            (SpecValue::Number(x), SpecValue::Number(y)) => {
                lemma_cmp_f64_bits_antisym(
                    crate::number::spec_number_bits(x),
                    crate::number::spec_number_bits(y),
                );
            },
            _ => {},
        }
    }
}

/// Swapping the sides of the double comparison reverses it.
pub proof fn lemma_cmp_f64_bits_antisym(a: u64, b: u64)
    ensures
        crate::number::spec_cmp_f64_bits(b, a) == spec_ord_reverse(
            crate::number::spec_cmp_f64_bits(a, b),
        ),
{
    assert((a >> 63u64) == 0u64 || (a >> 63u64) == 1u64) by (bit_vector);
    assert((b >> 63u64) == 0u64 || (b >> 63u64) == 1u64) by (bit_vector);
}

proof fn lemma_cmp_elems_antisym(x: Seq<SpecValue>, y: Seq<SpecValue>)
    ensures
        spec_cmp_elems(y, x) == spec_flip(spec_cmp_elems(x, y)),
    decreases x, 1int,
{
    if x.len() > 0 && y.len() > 0 {
        lemma_cmp_partial_antisym(x[0], y[0]);
        match spec_cmp_value_partial(x[0], y[0]) {
            Result::Ok(Ordering::Equal) => {
                lemma_cmp_elems_antisym(x.skip(1), y.skip(1));
            },
            _ => {},
        }
    }
}

proof fn lemma_cmp_fields_antisym(
    x: Seq<(Seq<char>, SpecValue)>,
    y: Seq<(Seq<char>, SpecValue)>,
)
    ensures
        spec_cmp_fields(y, x) == spec_flip(spec_cmp_fields(x, y)),
    decreases x, 1int,
{
    if x.len() > 0 && y.len() > 0 {
        lemma_str_cmp_antisym(x[0].0, y[0].0);
        lemma_str_cmp_equal_sym(x[0].0, y[0].0);
        if spec_str_cmp(x[0].0, y[0].0) == Ordering::Equal {
            lemma_cmp_partial_antisym(x[0].1, y[0].1);
            match spec_cmp_value_partial(x[0].1, y[0].1) {
                Result::Ok(Ordering::Equal) => {
                    lemma_cmp_fields_antisym(x.skip(1), y.skip(1));
                },
                _ => {},
            }
        }
    }
}

proof fn lemma_str_cmp_equal_sym(a: Seq<char>, b: Seq<char>)
    ensures
        (spec_str_cmp(a, b) == Ordering::Equal) == (spec_str_cmp(b, a) == Ordering::Equal),
{
    lemma_str_cmp_antisym(a, b);
}

/// Swapping the sides of the collapsed value comparison reverses it.
pub proof fn lemma_cmp_value_antisym(a: SpecValue, b: SpecValue)
    ensures
        spec_cmp_value(b, a) == spec_ord_reverse(spec_cmp_value(a, b)),
{
    lemma_cmp_partial_antisym(a, b);
}

/// The value comparison is total: every pair of values is ordered, one
/// way, the other, or as equal.
pub proof fn lemma_cmp_value_total(a: SpecValue, b: SpecValue)
    ensures
        spec_cmp_value(a, b) == Ordering::Less || spec_cmp_value(a, b) == Ordering::Equal
            || spec_cmp_value(a, b) == Ordering::Greater,
{
}

/// Swapping the sides of the optional-value comparison reverses it.
pub proof fn lemma_cmp_value_option_antisym(a: Option<SpecValue>, b: Option<SpecValue>)
    ensures
        spec_cmp_value_option(b, a) == spec_ord_reverse(spec_cmp_value_option(a, b)),
{
    match (a, b) {
        (Option::Some(x), Option::Some(y)) => {
            lemma_cmp_value_antisym(x, y);
        },
        _ => {},
    }
}

/// Swapping the sides of the document order reverses it: comparing `b`
/// to `a` gives the opposite of comparing `a` to `b`.
pub proof fn lemma_sorter_cmp_antisym(
    lookups: Seq<(Lookup, bool)>,
    a: SpecValue,
    b: SpecValue,
)
    ensures
        spec_sorter_cmp(lookups, b, a) == spec_ord_reverse(spec_sorter_cmp(lookups, a, b)),
    decreases lookups.len(),
{
    if lookups.len() > 0 {
        let (lk, reverse) = lookups[0];
        lemma_cmp_value_option_antisym(
            spec_sort_key_value(lk, reverse, a),
            spec_sort_key_value(lk, reverse, b),
        );
        lemma_sorter_cmp_antisym(lookups.skip(1), a, b);
    }
}

/// Transitivity of the lexicographic string order.
pub proof fn lemma_str_cmp_trans(a: Seq<char>, b: Seq<char>, c: Seq<char>)
    requires
        spec_str_cmp(a, b) != Ordering::Greater,
        spec_str_cmp(b, c) != Ordering::Greater,
    ensures
        spec_str_cmp(a, c) != Ordering::Greater,
        spec_str_cmp(a, b) == Ordering::Less || spec_str_cmp(b, c) == Ordering::Less
            ==> spec_str_cmp(a, c) == Ordering::Less,
    decreases a.len(),
{
    if a.len() > 0 && b.len() > 0 && c.len() > 0 {
        if a[0] == b[0] && b[0] == c[0] {
            lemma_str_cmp_trans(a.skip(1), b.skip(1), c.skip(1));
        }
    }
}

/// A value is a scalar: not an array and not an object.
pub open spec fn spec_is_scalar(v: SpecValue) -> bool {
    !(v is Array) && !(v is Object)
}

/// A scalar is well formed when its double, if it is one, is not a NaN.
pub open spec fn spec_scalar_wf(v: SpecValue) -> bool {
    match v {
        SpecValue::Number(n) => crate::number::number_wf(n),
        _ => true,
    }
}

/// Transitivity of the value order on well-formed scalars: strict order
/// chains stay strict, and ties compose.
pub proof fn lemma_cmp_value_trans_scalar(a: SpecValue, b: SpecValue, c: SpecValue)
    requires
        spec_is_scalar(a) && spec_scalar_wf(a),
        spec_is_scalar(b) && spec_scalar_wf(b),
        spec_is_scalar(c) && spec_scalar_wf(c),
        spec_cmp_value(a, b) != Ordering::Greater,
        spec_cmp_value(b, c) != Ordering::Greater,
    ensures
        spec_cmp_value(a, c) != Ordering::Greater,
        spec_cmp_value(a, b) == Ordering::Less || spec_cmp_value(b, c) == Ordering::Less
            ==> spec_cmp_value(a, c) == Ordering::Less,
{
    let ta = spec_value_type(a);
    let tb = spec_value_type(b);
    let tc = spec_value_type(c);
    if ta == tb && tb == tc {
        match (a, b, c) {
            (SpecValue::Number(x), SpecValue::Number(y), SpecValue::Number(z)) => {
                crate::number::lemma_int_promotion_not_nan_all();
                crate::number::lemma_cmp_f64_bits_key(
                    crate::number::spec_number_bits(x),
                    crate::number::spec_number_bits(y),
                );
                crate::number::lemma_cmp_f64_bits_key(
                    crate::number::spec_number_bits(y),
                    crate::number::spec_number_bits(z),
                );
                crate::number::lemma_cmp_f64_bits_key(
                    crate::number::spec_number_bits(x),
                    crate::number::spec_number_bits(z),
                );
            },
            (SpecValue::Text(x), SpecValue::Text(y), SpecValue::Text(z)) => {
                lemma_str_cmp_trans(x, y, z);
            },
            _ => {},
        }
    }
}

} // verus!
