//! Dotted-path lookup. A key such as `a.b.1.c` is split on dots and walked
//! segment by segment; walking through arrays branches over their object
//! elements, so one path can produce several candidate values.

use vstd::prelude::*;
use crate::value::{
    lemma_obj_view, lemma_view_unfold, obj_get, obj_view, spec_obj_get, SpecValue, Value,
};

verus! {

broadcast use lemma_view_unfold, lemma_obj_view;

/// One candidate value a path lookup produced. `dont_iterate` marks an
/// array value whose parent was itself an array: the matcher must not
/// flatten it one more level.
pub struct Branch {
    pub dont_iterate: bool,
    pub value: Option<Value>,
}

/// The model of a branch.
pub struct SpecBranch {
    pub dont_iterate: bool,
    pub value: Option<SpecValue>,
}

impl DeepView for Branch {
    type V = SpecBranch;

    open spec fn deep_view(&self) -> SpecBranch {
        SpecBranch { dont_iterate: self.dont_iterate, value: match self.value {
            Option::Some(v) => Option::Some(v@),
            Option::None => Option::None,
        } }
    }
}

impl Clone for Branch {
    /// A clone denotes the same branch.
    fn clone(&self) -> (r: Branch)
        ensures
            r.deep_view() == self.deep_view(),
    {
        Branch {
            dont_iterate: self.dont_iterate,
            value: match &self.value {
                Option::Some(v) => Option::Some(v.clone()),
                Option::None => Option::None,
            },
        }
    }
}

/// The numeric value of a decimal digit sequence, most significant first.
pub open spec fn spec_digits_val(s: Seq<char>) -> int
    decreases s.len(),
{
    if s.len() == 0 {
        0
    } else {
        spec_digits_val(s.drop_last()) * 10 + (s.last() as u32 - 48)
    }
}

/// True iff the character is a decimal digit.
pub open spec fn spec_is_digit(c: char) -> bool {
    48 <= (c as u32) <= 57
}

/// The digits of a segment: an optional leading plus sign is dropped.
pub open spec fn spec_digits_of(s: Seq<char>) -> Seq<char> {
    if s.len() > 0 && s[0] == '+' {
        s.skip(1)
    } else {
        s
    }
}

/// How a path segment parses as an index: as `str::parse::<usize>` does,
/// an optional plus sign, then at least one digit, rejecting values that
/// do not fit.
pub open spec fn spec_parse_usize(s: Seq<char>) -> Option<usize> {
    let digits = spec_digits_of(s);
    if digits.len() > 0 && (forall|i: int| 0 <= i < digits.len() ==> spec_is_digit(
        #[trigger] digits[i],
    )) && 0 <= spec_digits_val(digits) <= usize::MAX {
        Option::Some(spec_digits_val(digits) as usize)
    } else {
        Option::None
    }
}

proof fn lemma_digits_val_take(s: Seq<char>, i: int)
    requires
        0 <= i < s.len(),
    ensures
        spec_digits_val(s.take(i + 1)) == spec_digits_val(s.take(i)) * 10 + (s[i] as u32 - 48),
{
    assert(s.take(i + 1).drop_last() =~= s.take(i));
    assert(s.take(i + 1).last() == s[i]);
}

proof fn lemma_digits_val_nonneg(s: Seq<char>)
    requires
        forall|j: int| 0 <= j < s.len() ==> spec_is_digit(#[trigger] s[j]),
    ensures
        spec_digits_val(s) >= 0,
    decreases s.len(),
{
    if s.len() > 0 {
        assert(forall|j: int| 0 <= j < s.len() - 1 ==> s.drop_last()[j] == s[j]);
        lemma_digits_val_nonneg(s.drop_last());
    }
}

proof fn lemma_digits_val_grows(s: Seq<char>, i: int)
    requires
        0 <= i <= s.len(),
        forall|j: int| 0 <= j < s.len() ==> spec_is_digit(#[trigger] s[j]),
    ensures
        spec_digits_val(s) >= spec_digits_val(s.take(i)),
    decreases s.len() - i,
{
    if i == s.len() {
        assert(s.take(i) =~= s);
    } else {
        lemma_digits_val_take(s, i);
        assert(forall|j: int| 0 <= j < i ==> s.take(i)[j] == s[j]);
        lemma_digits_val_nonneg(s.take(i));
        lemma_digits_val_grows(s, i + 1);
    }
}

/// Parses a path segment as an index, as `str::parse::<usize>` would.
#[verifier::loop_isolation(false)]
pub fn parse_usize(s: &str) -> (r: Option<usize>)
    ensures
        r == spec_parse_usize(s@),
{
    let len = s.unicode_len();
    let mut start: usize = 0;
    if len > 0 && s.get_char(0) == '+' {
        start = 1;
    }
    proof {
        if start == 1 {
            assert(spec_digits_of(s@) =~= s@.skip(1));
        } else {
            assert(spec_digits_of(s@) =~= s@);
        }
    }
    if len == start {
        return Option::None;
    }
    let ghost digits = spec_digits_of(s@);
    let mut acc: usize = 0;
    let mut i: usize = start;
    proof {
        assert(digits.take(0) =~= Seq::empty());
    }
    while i < len
        invariant
            start <= i <= len,
            acc == spec_digits_val(digits.take(i - start)),
            forall|j: int| 0 <= j < i - start ==> spec_is_digit(#[trigger] digits[j]),
        decreases len - i,
    {
        let c = s.get_char(i);
        proof {
            assert(digits[i - start] == s@[i as int]);
        }
        if !('0' <= c && c <= '9') {
            proof {
                assert(!spec_is_digit(digits[i - start]));
            }
            return Option::None;
        }
        let d: usize = (c as u32 as usize) - 48;
        proof {
            lemma_digits_val_take(digits, i - start);
        }
        if acc > usize::MAX / 10 || (acc == usize::MAX / 10 && d > usize::MAX % 10) {
            proof {
                assert(spec_digits_val(digits.take(i - start + 1)) > usize::MAX);
                if forall|j: int| 0 <= j < digits.len() ==> spec_is_digit(#[trigger] digits[j]) {
                    lemma_digits_val_grows(digits, i - start + 1);
                }
            }
            return Option::None;
        }
        acc = acc * 10 + d;
        i = i + 1;
    }
    proof {
        assert(digits.take(len - start) =~= digits);
    }
    Option::Some(acc)
}

/// The deep view of a branch vector, pointwise.
pub broadcast proof fn lemma_branches_deep_view(v: Vec<Branch>)
    ensures
        (#[trigger] v.deep_view()).len() == v@.len(),
        forall|i: int| 0 <= i < v@.len() ==> v.deep_view()[i] == v@[i].deep_view(),
{
}

/// The index of the first occurrence of a character, if any.
pub open spec fn spec_find_char(s: Seq<char>, c: char) -> Option<int>
    decreases s.len(),
{
    if s.len() == 0 {
        Option::None
    } else if s[0] == c {
        Option::Some(0)
    } else {
        match spec_find_char(s.skip(1), c) {
            Option::Some(j) => Option::Some(j + 1),
            Option::None => Option::None,
        }
    }
}

pub proof fn lemma_find_char(s: Seq<char>, c: char)
    ensures
        match spec_find_char(s, c) {
            Option::Some(i) => 0 <= i < s.len() && s[i] == c && forall|j: int|
                0 <= j < i ==> s[j] != c,
            Option::None => forall|j: int| 0 <= j < s.len() ==> s[j] != c,
        },
    decreases s.len(),
{
    if s.len() > 0 && s[0] != c {
        lemma_find_char(s.skip(1), c);
        match spec_find_char(s.skip(1), c) {
            Option::Some(j) => {
                assert(s[j + 1] == s.skip(1)[j]);
                assert forall|k: int| 0 <= k < j + 1 implies s[k] != c by {
                    if k > 0 {
                        assert(s.skip(1)[k - 1] == s[k]);
                    }
                }
            },
            Option::None => {
                assert forall|k: int| 0 <= k < s.len() implies s[k] != c by {
                    if k > 0 {
                        assert(s.skip(1)[k - 1] == s[k]);
                    }
                }
            },
        }
    }
}

/// Finds the first occurrence of a character in a string.
#[verifier::loop_isolation(false)]
pub fn find_char(s: &str, c: char) -> (r: Option<usize>)
    ensures
        match r {
            Option::Some(i) => spec_find_char(s@, c) == Option::Some(i as int),
            Option::None => spec_find_char(s@, c) is None,
        },
{
    let len = s.unicode_len();
    let mut i: usize = 0;
    proof {
        lemma_find_char(s@, c);
    }
    while i < len
        invariant
            i <= len,
            forall|j: int| 0 <= j < i ==> s@[j] != c,
        decreases len - i,
    {
        if s.get_char(i) == c {
            proof {
                lemma_find_char(s@, c);
            }
            return Option::Some(i);
        }
        i = i + 1;
    }
    Option::None
}

/// The segments of a dotted key, in order.
pub open spec fn spec_split_key(key: Seq<char>) -> Seq<Seq<char>>
    decreases key.len(),
{
    match spec_find_char(key, '.') {
        Option::None => seq![key],
        Option::Some(i) => {
            proof {
                lemma_find_char(key, '.');
            }
            seq![key.take(i)] + spec_split_key(key.skip(i + 1))
        },
    }
}

/// One compiled dotted path: the head segment and the rest of the chain.
pub struct Lookup {
    pub for_sort: bool,
    pub key: String,
    pub key_as_usize: Option<usize>,
    pub rest: Option<Box<Lookup>>,
}

/// The segments a compiled path holds, in order.
pub open spec fn path_of(lk: Lookup) -> Seq<Seq<char>>
    decreases lk,
{
    match lk.rest {
        Option::Some(r) => seq![lk.key@] + path_of(*r),
        Option::None => seq![lk.key@],
    }
}

/// Well-formedness of a compiled path: every segment's index cache is the
/// parse of that segment, and the sort flag is shared by the whole chain.
pub open spec fn lookup_wf(lk: Lookup) -> bool
    decreases lk,
{
    lk.key_as_usize == spec_parse_usize(lk.key@) && match lk.rest {
        Option::Some(r) => r.for_sort == lk.for_sort && lookup_wf(*r),
        Option::None => true,
    }
}

impl Lookup {
    /// Compiles a dotted key into a segment chain.
    pub fn new(key: String, for_sort: bool) -> (r: Lookup)
        ensures
            lookup_wf(r),
            r.for_sort == for_sort,
            path_of(r) == spec_split_key(key@),
        decreases key@.len(),
    {
        let maybe_dot = find_char(key.as_str(), '.');
        let key_len = key.as_str().unicode_len();
        match maybe_dot {
            Option::Some(i) => {
                proof {
                    lemma_find_char(key@, '.');
                }
                let head = key.as_str().substring_char(0, i).to_owned();
                let rest_str = key.as_str().substring_char(i + 1, key_len).to_owned();
                proof {
                    assert(key@.subrange(0, i as int) =~= key@.take(i as int));
                    assert(key@.subrange(i + 1, key@.len() as int) =~= key@.skip(i + 1));
                }
                let rest = Lookup::new(rest_str, for_sort);
                let key_as_usize = parse_usize(head.as_str());
                Lookup {
                    for_sort,
                    key: head,
                    key_as_usize,
                    rest: Option::Some(Box::new(rest)),
                }
            },
            Option::None => {
                let key_as_usize = parse_usize(key.as_str());
                Lookup { for_sort, key, key_as_usize, rest: Option::None }
            },
        }
    }
}

/// The expansion of a branch list: each branch whose value is an array is
/// flattened into its elements (kept alongside them unless
/// `skip_the_arrays` is set); a branch marked `dont_iterate` stays as it
/// is.
pub open spec fn spec_expand(branches: Seq<SpecBranch>, skip_the_arrays: bool) -> Seq<SpecBranch>
    decreases branches.len(),
{
    if branches.len() == 0 {
        Seq::empty()
    } else {
        let b = branches[0];
        let this_is_array = b.value matches Option::Some(v) && v is Array;
        let kept: Seq<SpecBranch> = if !(skip_the_arrays && this_is_array && !b.dont_iterate) {
            seq![b]
        } else {
            Seq::empty()
        };
        let flattened: Seq<SpecBranch> = if this_is_array && !b.dont_iterate {
            Seq::new(b.value->0->Array_0.len(), |i: int|
                if 0 <= i < b.value->0->Array_0.len() {
                    SpecBranch { value: Option::Some(b.value->0->Array_0[i]), dont_iterate: false }
                } else {
                    SpecBranch { value: Option::None, dont_iterate: false }
                }
            )
        } else {
            Seq::empty()
        };
        kept + flattened + spec_expand(branches.skip(1), skip_the_arrays)
    }
}

proof fn lemma_expand_snoc(branches: Seq<SpecBranch>, skip_the_arrays: bool, i: int)
    requires
        0 <= i < branches.len(),
    ensures
        spec_expand(branches.take(i + 1), skip_the_arrays) == spec_expand(
            branches.take(i),
            skip_the_arrays,
        ) + spec_expand(seq![branches[i]], skip_the_arrays),
    decreases i + 1,
{
    if i == 0 {
        assert(branches.take(1) =~= seq![branches[0]]);
        assert(branches.take(0) =~= Seq::<SpecBranch>::empty());
        assert(spec_expand(branches.take(1), skip_the_arrays) =~= spec_expand(
            branches.take(0),
            skip_the_arrays,
        ) + spec_expand(seq![branches[0]], skip_the_arrays));
    } else {
        lemma_expand_snoc(branches.skip(1), skip_the_arrays, i - 1);
        assert(branches.take(i + 1)[0] == branches[0]);
        assert(branches.take(i)[0] == branches[0]);
        assert(branches.take(i + 1).skip(1) =~= branches.skip(1).take(i));
        assert(branches.take(i).skip(1) =~= branches.skip(1).take(i - 1));
        assert(branches.skip(1)[i - 1] == branches[i]);
        assert(spec_expand(branches.take(i + 1), skip_the_arrays) =~= spec_expand(
            branches.take(i),
            skip_the_arrays,
        ) + spec_expand(seq![branches[i]], skip_the_arrays));
    }
}

impl Branch {
    /// Expands a branch list, flattening leaf arrays.
    #[verifier::loop_isolation(false)]
    pub fn expand(branches: Vec<Branch>, skip_the_arrays: bool) -> (r: Vec<Branch>)
        ensures
            r.deep_view() == spec_expand(branches.deep_view(), skip_the_arrays),
    {
        broadcast use lemma_branches_deep_view;

        let mut branches_out: Vec<Branch> = Vec::new();
        let mut i: usize = 0;
        proof {
            assert(branches.deep_view().take(0) =~= Seq::<SpecBranch>::empty());
            assert(branches_out.deep_view() =~= spec_expand(
                branches.deep_view().take(0),
                skip_the_arrays,
            ));
        }
        while i < branches.len()
            invariant
                i <= branches.len(),
                branches_out.deep_view() == spec_expand(
                    branches.deep_view().take(i as int),
                    skip_the_arrays,
                ),
            decreases branches.len() - i,
        {
            let ghost b = branches.deep_view()[i as int];
            let ghost pre = branches_out.deep_view();
            proof {
                lemma_expand_snoc(branches.deep_view(), skip_the_arrays, i as int);
                assert(seq![b].skip(1) =~= Seq::<SpecBranch>::empty());
            }
            let branch = &branches[i];
            let this_is_array = match &branch.value {
                Option::Some(v) => v.is_array(),
                Option::None => false,
            };
            if !(skip_the_arrays && this_is_array && !branch.dont_iterate) {
                branches_out.push(branch.clone());
            }
            let ghost kept: Seq<SpecBranch> = if !(skip_the_arrays && this_is_array
                && !branch.dont_iterate) {
                seq![b]
            } else {
                Seq::empty()
            };
            let ghost mid = branches_out.deep_view();
            let ghost arr: Seq<SpecValue> = if this_is_array && !branch.dont_iterate {
                b.value->0->Array_0
            } else {
                Seq::empty()
            };
            proof {
                assert(mid =~= pre + kept);
            }
            if this_is_array && !branch.dont_iterate {
                match &branch.value {
                    Option::Some(v) => match v {
                        Value::Array(elems) => {
                            let mut j: usize = 0;
                            while j < elems.len()
                                invariant
                                    j <= elems.len(),
                                    arr.len() == elems@.len(),
                                    forall|k: int| 0 <= k < elems@.len() ==> arr[k]
                                        == elems@[k]@,
                                    branches_out.deep_view().len() == mid.len() + j,
                                    forall|k: int| 0 <= k < mid.len()
                                        ==> branches_out.deep_view()[k] == mid[k],
                                    forall|k: int| 0 <= k < j ==> branches_out.deep_view()[
                                        mid.len() + k] == (SpecBranch {
                                        value: Option::Some(arr[k]),
                                        dont_iterate: false,
                                    }),
                                decreases elems.len() - j,
                            {
                                branches_out.push(Branch {
                                    value: Option::Some(elems[j].clone()),
                                    dont_iterate: false,
                                });
                                j = j + 1;
                            }
                        },
                        _ => {
                            proof {
                                assert(false);
                            }
                        },
                    },
                    Option::None => {
                        proof {
                            assert(false);
                        }
                    },
                }
            }
            proof {
                let flattened: Seq<SpecBranch> = if b.value matches Option::Some(v) && v
                    is Array && !b.dont_iterate {
                    Seq::new(arr.len(), |k: int|
                        if 0 <= k < arr.len() {
                            SpecBranch { value: Option::Some(arr[k]), dont_iterate: false }
                        } else {
                            SpecBranch { value: Option::None, dont_iterate: false }
                        }
                    )
                } else {
                    Seq::empty()
                };
                assert(branches_out.deep_view() =~= mid + flattened);
                assert(spec_expand(seq![b], skip_the_arrays) =~= kept + flattened);
                assert(branches_out.deep_view() =~= spec_expand(
                    branches.deep_view().take(i as int + 1),
                    skip_the_arrays,
                ));
            }
            i = i + 1;
        }
        proof {
            assert(branches.deep_view().take(branches@.len() as int) =~= branches.deep_view());
        }
        branches_out
    }
}

/// The branches a compiled path produces on a value, per the branching
/// rules: a mapping descends by name, an array descends by index when the
/// segment is one, and, below the first segment, an array also branches
/// over its object elements (suppressed in sort mode when the next segment
/// is numeric).
pub open spec fn spec_lookup(lk: Lookup, v: SpecValue) -> Seq<SpecBranch>
    decreases lk, 0int,
{
    if v is Array && !(lk.key_as_usize is Some && (lk.key_as_usize->0 as int)
        < v->Array_0.len()) {
        Seq::empty()
    } else {
        let value_head: Option<SpecValue> = match v {
            SpecValue::Array(elems) => if lk.key_as_usize is Some && (lk.key_as_usize->0 as int)
                < elems.len() {
                Option::Some(elems[lk.key_as_usize->0 as int])
            } else {
                Option::None
            },
            SpecValue::Object(fields) => spec_obj_get(fields, lk.key@),
            _ => Option::None,
        };
        match lk.rest {
            Option::None => seq![
                SpecBranch {
                    value: value_head,
                    dont_iterate: v is Array && (value_head matches Option::Some(h) && h is Array),
                },
            ],
            Option::Some(rest) => {
                if !(value_head matches Option::Some(h) && (h is Array || h is Object)) {
                    if v is Array {
                        Seq::empty()
                    } else {
                        seq![SpecBranch { value: Option::None, dont_iterate: false }]
                    }
                } else {
                    let head = value_head->0;
                    let base = spec_lookup(*rest, head);
                    if (rest.key_as_usize is None || !lk.for_sort) && head is Array {
                        base + spec_lookup_elems(*rest, head->Array_0)
                    } else {
                        base
                    }
                }
            },
        }
    }
}

/// The branches the rest of a path produces on each object element of an
/// array, concatenated in order.
pub open spec fn spec_lookup_elems(lk: Lookup, elems: Seq<SpecValue>) -> Seq<SpecBranch>
    decreases lk, elems.len() + 1,
{
    if elems.len() == 0 {
        Seq::empty()
    } else {
        (if elems[0] is Object {
            spec_lookup(lk, elems[0])
        } else {
            Seq::empty()
        }) + spec_lookup_elems(lk, elems.skip(1))
    }
}

proof fn lemma_lookup_elems_snoc(lk: Lookup, elems: Seq<SpecValue>, i: int)
    requires
        0 <= i < elems.len(),
    ensures
        spec_lookup_elems(lk, elems.take(i + 1)) == spec_lookup_elems(lk, elems.take(i)) + (
        if elems[i] is Object {
            spec_lookup(lk, elems[i])
        } else {
            Seq::<SpecBranch>::empty()
        }),
    decreases i + 1,
{
    if i == 0 {
        assert(elems.take(1) =~= seq![elems[0]]);
        assert(elems.take(1).skip(1) =~= Seq::<SpecValue>::empty());
        assert(elems.take(0) =~= Seq::<SpecValue>::empty());
        assert(spec_lookup_elems(lk, elems.take(1)) =~= spec_lookup_elems(lk, elems.take(0)) + (
        if elems[0] is Object {
            spec_lookup(lk, elems[0])
        } else {
            Seq::<SpecBranch>::empty()
        }));
    } else {
        lemma_lookup_elems_snoc(lk, elems.skip(1), i - 1);
        assert(elems.take(i + 1)[0] == elems[0]);
        assert(elems.take(i)[0] == elems[0]);
        assert(elems.take(i + 1).skip(1) =~= elems.skip(1).take(i));
        assert(elems.take(i).skip(1) =~= elems.skip(1).take(i - 1));
        assert(elems.skip(1)[i - 1] == elems[i]);
        assert(spec_lookup_elems(lk, elems.take(i + 1)) =~= spec_lookup_elems(lk, elems.take(i))
            + (if elems[i] is Object {
            spec_lookup(lk, elems[i])
        } else {
            Seq::<SpecBranch>::empty()
        }));
    }
}

impl Lookup {
    /// Produces the branches this path finds in a value.
    #[verifier::loop_isolation(false)]
    pub fn lookup(&self, value: &Value) -> (r: Vec<Branch>)
        ensures
            r.deep_view() == spec_lookup(*self, value@),
        decreases self,
    {
        broadcast use lemma_branches_deep_view;

        let key_idx = self.key_as_usize;
        if let Value::Array(elems) = value {
            let in_range = match key_idx {
                Option::Some(ix) => ix < elems.len(),
                Option::None => false,
            };
            if !in_range {
                let r: Vec<Branch> = Vec::new();
                proof {
                    assert(r.deep_view() =~= spec_lookup(*self, value@));
                }
                return r;
            }
        }
        let value_head: Option<&Value> = match value {
            Value::Array(elems) => match key_idx {
                Option::Some(ix) => if ix < elems.len() {
                    Option::Some(&elems[ix])
                } else {
                    Option::None
                },
                Option::None => Option::None,
            },
            Value::Object(fields) => obj_get(fields, self.key.as_str()),
            _ => Option::None,
        };
        let ghost spec_head: Option<SpecValue> = match value_head {
            Option::Some(h) => Option::Some(h@),
            Option::None => Option::None,
        };
        match &self.rest {
            Option::None => {
                let dont_iterate = value.is_array() && (match value_head {
                    Option::Some(h) => h.is_array(),
                    Option::None => false,
                });
                let owned_head: Option<Value> = match value_head {
                    Option::Some(h) => Option::Some(h.clone()),
                    Option::None => Option::None,
                };
                let mut r: Vec<Branch> = Vec::new();
                r.push(Branch { dont_iterate, value: owned_head });
                proof {
                    assert(r.deep_view() =~= spec_lookup(*self, value@));
                }
                r
            },
            Option::Some(rest) => {
                let head_ok = match value_head {
                    Option::Some(h) => h.is_array() || h.is_object(),
                    Option::None => false,
                };
                if !head_ok {
                    let mut r: Vec<Branch> = Vec::new();
                    if !value.is_array() {
                        r.push(Branch { dont_iterate: false, value: Option::None });
                    }
                    proof {
                        assert(r.deep_view() =~= spec_lookup(*self, value@));
                    }
                    return r;
                }
                let head = match value_head {
                    Option::Some(h) => h,
                    Option::None => unreached(),
                };
                let mut result = rest.lookup(head);
                let branch_arrays = (match rest.key_as_usize {
                    Option::Some(_) => false,
                    Option::None => true,
                }) || !self.for_sort;
                if branch_arrays {
                    if let Value::Array(helems) = head {
                        let ghost base = spec_lookup(**rest, head@);
                        let mut i: usize = 0;
                        proof {
                            assert(head@->Array_0.take(0) =~= Seq::<SpecValue>::empty());
                            assert(result.deep_view() =~= base + spec_lookup_elems(
                                **rest,
                                head@->Array_0.take(0),
                            ));
                        }
                        while i < helems.len()
                            invariant
                                i <= helems.len(),
                                result.deep_view() == base + spec_lookup_elems(
                                    **rest,
                                    head@->Array_0.take(i as int),
                                ),
                            decreases helems.len() - i,
                        {
                            proof {
                                lemma_lookup_elems_snoc(**rest, head@->Array_0, i as int);
                                assert(head@->Array_0[i as int] == helems@[i as int]@);
                            }
                            if helems[i].is_object() {
                                let mut sub = rest.lookup(&helems[i]);
                                let ghost before = result.deep_view();
                                let ghost sub_view = sub.deep_view();
                                result.append(&mut sub);
                                proof {
                                    assert(result.deep_view() =~= before + sub_view);
                                }
                            }
                            proof {
                                assert(result.deep_view() =~= base + spec_lookup_elems(
                                    **rest,
                                    head@->Array_0.take(i as int + 1),
                                ));
                            }
                            i = i + 1;
                        }
                        proof {
                            assert(head@->Array_0.take(helems@.len() as int) =~= head@->Array_0);
                        }
                    }
                }
                result
            },
        }
    }
}

} // verus!
