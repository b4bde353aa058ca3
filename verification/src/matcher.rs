//! The selector compiler and evaluator. A selector document compiles into
//! a tree of predicates; evaluation looks paths up in the document and
//! tests each branch.

use vstd::prelude::*;
use core::cmp::Ordering;
use crate::value::{
    lemma_obj_view, lemma_view_unfold, obj_get, obj_view, spec_obj_get, str_eq, to_object_value,
    Number, SpecValue, Value,
};
use crate::lookup::{
    lemma_branches_deep_view, spec_expand, spec_lookup, spec_split_key, Branch, Lookup, SpecBranch,
};
use crate::sorter::{spec_cmp_value, spec_cmp_value_partial, spec_value_type, Sorter};

verus! {

broadcast use lemma_view_unfold, lemma_obj_view;

/// Whether a regular expression pattern with the given flags compiles.
pub uninterp spec fn regex_valid(
    pattern: Seq<char>,
    case_insensitive: bool,
    multi_line: bool,
    dot_matches_new_line: bool,
    ignore_whitespace: bool,
) -> bool;

/// Whether a compiled regular expression matches a text; the result
/// depends on the pattern, its flags, and the text alone.
pub uninterp spec fn regex_match_of(
    pattern: Seq<char>,
    case_insensitive: bool,
    multi_line: bool,
    dot_matches_new_line: bool,
    ignore_whitespace: bool,
    text: Seq<char>,
) -> bool;

/// Relies on regex::RegexBuilder::build: whether a pattern compiles under
/// the given flags is a function of the pattern and flags alone.
#[verifier::external_body]
fn regex_check(pattern: &str, ci: bool, ml: bool, dnl: bool, iw: bool) -> (r: bool)
    ensures
        r == regex_valid(pattern@, ci, ml, dnl, iw),
{
    regex::RegexBuilder::new(pattern)
        .case_insensitive(ci)
        .multi_line(ml)
        .dot_matches_new_line(dnl)
        .ignore_whitespace(iw)
        .build()
        .is_ok()
}

/// Relies on regex::RegexBuilder::build and regex::Regex::is_match: what a
/// valid pattern matches is a function of the pattern, its flags, and the
/// text alone.
#[verifier::external_body]
fn regex_match(pattern: &str, ci: bool, ml: bool, dnl: bool, iw: bool, text: &str) -> (r: bool)
    requires
        regex_valid(pattern@, ci, ml, dnl, iw),
    ensures
        r == regex_match_of(pattern@, ci, ml, dnl, iw, text@),
{
    let built = regex::RegexBuilder::new(pattern)
        .case_insensitive(ci)
        .multi_line(ml)
        .dot_matches_new_line(dnl)
        .ignore_whitespace(iw)
        .build();
    match built {
        Ok(re) => re.is_match(text),
        Err(_) => false,
    }
}

/// A predicate over a whole document.
pub enum DocumentMatcher {
    All(Vec<DocumentMatcher>),
    Any(Vec<DocumentMatcher>),
    Invert(Box<DocumentMatcher>),
    Lookup { lookup: Lookup, matcher: BranchedMatcher },
}

/// A predicate over the branches one path lookup produced.
pub enum BranchedMatcher {
    All(Vec<BranchedMatcher>),
    Any(Vec<BranchedMatcher>),
    Element {
        matcher: ElementMatcher,
        dont_expand_leaf_arrays: bool,
        dont_include_leaf_arrays: bool,
    },
    Invert(Box<BranchedMatcher>),
    Never,
}

/// A predicate over one candidate value.
pub enum ElementMatcher {
    Exists,
    Mod(i64, i64),
    Order { selector: Value, ordering: Ordering, is_negated: bool },
    Regex {
        pattern: String,
        case_insensitive: bool,
        multi_line: bool,
        dot_matches_new_line: bool,
        ignore_whitespace: bool,
        ejson: Value,
    },
    Size(usize),
    Type(i8),
    Value(Value),
}

/// The magnitude of a signed 64-bit integer.
pub open spec fn spec_i64_mag(n: i64) -> int {
    if n < 0 {
        -(n as int)
    } else {
        n as int
    }
}

/// Whether `n mod div == rem` under the truncated remainder (the sign
/// follows the dividend); a zero divisor matches nothing.
pub open spec fn spec_mod_matches(n: i64, div: i64, rem: i64) -> bool {
    div != 0 && {
        let mm = spec_i64_mag(n) % spec_i64_mag(div);
        mm == spec_i64_mag(rem) && (mm == 0 || ((n < 0) == (rem < 0)))
    }
}

/// What one element matcher says of one candidate value.
pub open spec fn spec_element_matches(em: ElementMatcher, maybe: Option<SpecValue>) -> bool {
    match em {
        ElementMatcher::Exists => maybe is Some,
        ElementMatcher::Mod(div, rem) => maybe matches Option::Some(SpecValue::Number(
            Number::Int(n),
        )) && spec_mod_matches(n, div, rem),
        ElementMatcher::Order { selector, ordering, is_negated } => if selector@ is Array {
            false
        } else {
            let value = match maybe {
                Option::Some(v) => v,
                Option::None => SpecValue::Null,
            };
            (spec_cmp_value_partial(value, selector@) == Result::<Ordering, Ordering>::Ok(
                ordering,
            )) != is_negated
        },
        ElementMatcher::Regex {
            pattern,
            case_insensitive,
            multi_line,
            dot_matches_new_line,
            ignore_whitespace,
            ejson,
        } => match maybe {
            Option::Some(SpecValue::Object(fields)) => SpecValue::Object(fields) == ejson@,
            Option::Some(SpecValue::Text(s)) => regex_match_of(
                pattern@,
                case_insensitive,
                multi_line,
                dot_matches_new_line,
                ignore_whitespace,
                s,
            ),
            _ => false,
        },
        ElementMatcher::Size(size) => maybe matches Option::Some(SpecValue::Array(elems))
            && elems.len() == size,
        ElementMatcher::Type(code) => maybe matches Option::Some(v) && spec_value_type(v)
            == code as int,
        ElementMatcher::Value(selector) => if selector@ is Null {
            maybe is None || maybe == Option::Some(SpecValue::Null)
        } else {
            maybe matches Option::Some(v) && spec_cmp_value(selector@, v) == Ordering::Equal
        },
    }
}

/// What a branched matcher says of a list of branches.
pub open spec fn spec_branched_matches(bm: BranchedMatcher, branches: Seq<SpecBranch>) -> bool
    decreases bm, 0int,
{
    match bm {
        BranchedMatcher::All(ms) => spec_branched_all(ms@, branches),
        BranchedMatcher::Any(ms) => spec_branched_any(ms@, branches),
        BranchedMatcher::Element {
            matcher,
            dont_expand_leaf_arrays,
            dont_include_leaf_arrays,
        } => spec_any_element(
            matcher,
            if !dont_expand_leaf_arrays {
                spec_expand(branches, dont_include_leaf_arrays)
            } else {
                branches
            },
        ),
        BranchedMatcher::Invert(inner) => !spec_branched_matches(*inner, branches),
        BranchedMatcher::Never => false,
    }
}

/// Some branch's value satisfies the element matcher.
pub open spec fn spec_any_element(em: ElementMatcher, branches: Seq<SpecBranch>) -> bool {
    exists|i: int| 0 <= i < branches.len() && spec_element_matches(em, #[trigger] branches[i].value)
}

/// All of a list of branched matchers accept.
pub open spec fn spec_branched_all(ms: Seq<BranchedMatcher>, branches: Seq<SpecBranch>) -> bool
    decreases ms, 1int,
{
    if ms.len() == 0 {
        true
    } else {
        spec_branched_matches(ms[0], branches) && spec_branched_all(ms.skip(1), branches)
    }
}

/// Any of a list of branched matchers accepts.
pub open spec fn spec_branched_any(ms: Seq<BranchedMatcher>, branches: Seq<SpecBranch>) -> bool
    decreases ms, 1int,
{
    if ms.len() == 0 {
        false
    } else {
        spec_branched_matches(ms[0], branches) || spec_branched_any(ms.skip(1), branches)
    }
}

/// What a document matcher says of a document.
pub open spec fn spec_doc_matches(m: DocumentMatcher, doc: SpecValue) -> bool
    decreases m, 0int,
{
    match m {
        DocumentMatcher::All(ms) => spec_doc_all(ms@, doc),
        DocumentMatcher::Any(ms) => spec_doc_any(ms@, doc),
        DocumentMatcher::Invert(inner) => !spec_doc_matches(*inner, doc),
        DocumentMatcher::Lookup { lookup, matcher } => spec_branched_matches(
            matcher,
            spec_lookup(lookup, doc),
        ),
    }
}

/// All of a list of document matchers accept.
pub open spec fn spec_doc_all(ms: Seq<DocumentMatcher>, doc: SpecValue) -> bool
    decreases ms, 1int,
{
    if ms.len() == 0 {
        true
    } else {
        spec_doc_matches(ms[0], doc) && spec_doc_all(ms.skip(1), doc)
    }
}

/// Any of a list of document matchers accepts.
pub open spec fn spec_doc_any(ms: Seq<DocumentMatcher>, doc: SpecValue) -> bool
    decreases ms, 1int,
{
    if ms.len() == 0 {
        false
    } else {
        spec_doc_matches(ms[0], doc) || spec_doc_any(ms.skip(1), doc)
    }
}

/// Well-formedness of an element matcher: a regular expression node holds
/// a pattern that compiles under its flags.
pub open spec fn em_wf(em: ElementMatcher) -> bool {
    match em {
        ElementMatcher::Regex {
            pattern,
            case_insensitive,
            multi_line,
            dot_matches_new_line,
            ignore_whitespace,
            ejson,
        } => regex_valid(
            pattern@,
            case_insensitive,
            multi_line,
            dot_matches_new_line,
            ignore_whitespace,
        ),
        _ => true,
    }
}

/// Well-formedness of a branched matcher.
pub open spec fn bm_wf(bm: BranchedMatcher) -> bool
    decreases bm, 0int,
{
    match bm {
        BranchedMatcher::All(ms) => bm_all_wf(ms@),
        BranchedMatcher::Any(ms) => bm_all_wf(ms@),
        BranchedMatcher::Element { matcher, .. } => em_wf(matcher),
        BranchedMatcher::Invert(inner) => bm_wf(*inner),
        BranchedMatcher::Never => true,
    }
}

/// Well-formedness of a list of branched matchers.
pub open spec fn bm_all_wf(ms: Seq<BranchedMatcher>) -> bool
    decreases ms, 1int,
{
    if ms.len() == 0 {
        true
    } else {
        bm_wf(ms[0]) && bm_all_wf(ms.skip(1))
    }
}

/// Well-formedness of a document matcher.
pub open spec fn dm_wf(m: DocumentMatcher) -> bool
    decreases m, 0int,
{
    match m {
        DocumentMatcher::All(ms) => dm_all_wf(ms@),
        DocumentMatcher::Any(ms) => dm_all_wf(ms@),
        DocumentMatcher::Invert(inner) => dm_wf(*inner),
        DocumentMatcher::Lookup { lookup, matcher } => bm_wf(matcher),
    }
}

/// Well-formedness of a list of document matchers.
pub open spec fn dm_all_wf(ms: Seq<DocumentMatcher>) -> bool
    decreases ms, 1int,
{
    if ms.len() == 0 {
        true
    } else {
        dm_wf(ms[0]) && dm_all_wf(ms.skip(1))
    }
}

impl ElementMatcher {
    /// Tests one candidate value.
    fn matches(&self, maybe_value: Option<&Value>) -> (r: bool)
        requires
            em_wf(*self),
        ensures
            r == spec_element_matches(
                *self,
                match maybe_value {
                    Option::Some(v) => Option::Some(v@),
                    Option::None => Option::None,
                },
            ),
    {
        match self {
            ElementMatcher::Exists => maybe_value.is_some(),
            ElementMatcher::Mod(div, rem) => {
                match maybe_value {
                    Option::Some(Value::Number(Number::Int(n))) => mod_matches(*n, *div, *rem),
                    _ => false,
                }
            },
            ElementMatcher::Order { selector, ordering, is_negated } => {
                if selector.is_array() {
                    return false;
                }
                let null_value = Value::Null;
                let value = match maybe_value {
                    Option::Some(v) => v,
                    Option::None => &null_value,
                };
                let result = Sorter::cmp_value_partial(value, selector);
                let is_ordered = match result {
                    Result::Ok(o) => matches!(
                        (o, ordering),
                        (Ordering::Less, Ordering::Less) | (Ordering::Equal, Ordering::Equal)
                            | (Ordering::Greater, Ordering::Greater)
                    ),
                    Result::Err(_) => false,
                };
                is_ordered != *is_negated
            },
            ElementMatcher::Regex {
                pattern,
                case_insensitive,
                multi_line,
                dot_matches_new_line,
                ignore_whitespace,
                ejson,
            } => {
                match maybe_value {
                    Option::Some(v) => match v {
                        Value::Object(_) => crate::value::value_eq(v, ejson),
                        Value::Text(s) => regex_match(
                            pattern.as_str(),
                            *case_insensitive,
                            *multi_line,
                            *dot_matches_new_line,
                            *ignore_whitespace,
                            s.as_str(),
                        ),
                        _ => false,
                    },
                    Option::None => false,
                }
            },
            ElementMatcher::Size(size) => {
                match maybe_value {
                    Option::Some(Value::Array(elems)) => elems.len() == *size,
                    _ => false,
                }
            },
            ElementMatcher::Type(code) => {
                match maybe_value {
                    Option::Some(v) => Sorter::value_type(v) == *code,
                    Option::None => false,
                }
            },
            ElementMatcher::Value(selector) => {
                if selector.is_null() {
                    match maybe_value {
                        Option::Some(v) => v.is_null(),
                        Option::None => true,
                    }
                } else {
                    match maybe_value {
                        Option::Some(v) => matches!(
                            Sorter::cmp_value(selector, v),
                            Ordering::Equal
                        ),
                        Option::None => false,
                    }
                }
            },
        }
    }
}

/// Tests a truncated remainder: the magnitudes divide and the sign follows
/// the dividend.
fn mod_matches(n: i64, div: i64, rem: i64) -> (r: bool)
    ensures
        r == spec_mod_matches(n, div, rem),
{
    if div == 0 {
        return false;
    }
    let nm = i64_mag(n);
    let dm = i64_mag(div);
    let rm = i64_mag(rem);
    let mm = nm % dm;
    mm == rm && (mm == 0 || ((n < 0) == (rem < 0)))
}

/// The magnitude of a signed 64-bit integer.
fn i64_mag(n: i64) -> (r: u64)
    ensures
        r as int == spec_i64_mag(n),
{
    if n < 0 {
        if n == i64::MIN {
            0x8000_0000_0000_0000u64
        } else {
            (-n) as u64
        }
    } else {
        n as u64
    }
}

impl BranchedMatcher {
    /// Tests a list of branches.
    #[verifier::loop_isolation(false)]
    #[verifier::rlimit(50)]
    fn matches(&self, branches: Vec<Branch>) -> (r: bool)
        requires
            bm_wf(*self),
        ensures
            r == spec_branched_matches(*self, branches.deep_view()),
        decreases self,
    {
        broadcast use lemma_branches_deep_view;

        match self {
            BranchedMatcher::All(ms) => {
                let mut i: usize = 0;
                proof {
                    assert(ms@.skip(0) =~= ms@);
                }
                while i < ms.len()
                    invariant
                        i <= ms@.len(),
                        bm_all_wf(ms@.skip(i as int)),
                        spec_branched_all(ms@, branches.deep_view()) == spec_branched_all(
                            ms@.skip(i as int),
                            branches.deep_view(),
                        ),
                    decreases ms@.len() - i,
                {
                    proof {
                        assert(decreases_to!(*self => *ms));
                        assert(decreases_to!(*ms => ms@));
                        assert(decreases_to!(ms@ => ms@[i as int]));
                        assert(ms@.skip(i as int)[0] == ms@[i as int]);
                        assert(ms@.skip(i as int).skip(1) =~= ms@.skip(i as int + 1));
                    }
                    if !ms[i].matches(clone_branches(&branches)) {
                        return false;
                    }
                    i = i + 1;
                }
                true
            },
            BranchedMatcher::Any(ms) => {
                let mut i: usize = 0;
                proof {
                    assert(ms@.skip(0) =~= ms@);
                }
                while i < ms.len()
                    invariant
                        i <= ms@.len(),
                        bm_all_wf(ms@.skip(i as int)),
                        spec_branched_any(ms@, branches.deep_view()) == spec_branched_any(
                            ms@.skip(i as int),
                            branches.deep_view(),
                        ),
                    decreases ms@.len() - i,
                {
                    proof {
                        assert(decreases_to!(*self => *ms));
                        assert(decreases_to!(*ms => ms@));
                        assert(decreases_to!(ms@ => ms@[i as int]));
                        assert(ms@.skip(i as int)[0] == ms@[i as int]);
                        assert(ms@.skip(i as int).skip(1) =~= ms@.skip(i as int + 1));
                    }
                    if ms[i].matches(clone_branches(&branches)) {
                        return true;
                    }
                    i = i + 1;
                }
                false
            },
            BranchedMatcher::Element {
                matcher,
                dont_expand_leaf_arrays,
                dont_include_leaf_arrays,
            } => {
                let ghost spec_branches = branches.deep_view();
                let expanded = if !*dont_expand_leaf_arrays {
                    Branch::expand(branches, *dont_include_leaf_arrays)
                } else {
                    branches
                };
                let ghost spec_expanded = expanded.deep_view();
                let ghost e1: Seq<SpecBranch> = if !*dont_expand_leaf_arrays {
                    spec_expand(spec_branches, *dont_include_leaf_arrays)
                } else {
                    spec_branches
                };
                proof {
                    assert(spec_expanded == e1);
                }
                let mut i: usize = 0;
                while i < expanded.len()
                    invariant
                        i <= expanded@.len(),
                        spec_expanded == expanded.deep_view(),
                        forall|j: int| 0 <= j < i ==> !spec_element_matches(
                            *matcher,
                            spec_expanded[j].value,
                        ),
                    decreases expanded@.len() - i,
                {
                    let hit = match &expanded[i].value {
                        Option::Some(v) => matcher.matches(Option::Some(v)),
                        Option::None => matcher.matches(Option::None),
                    };
                    if hit {
                        proof {
                            assert(expanded@[i as int].deep_view() == spec_expanded[i as int]);
                            assert(spec_element_matches(*matcher, spec_expanded[i as int].value));
                            assert(e1[i as int] == spec_expanded[i as int]);
                            assert(0 <= (i as int) < e1.len());
                            assert(spec_element_matches(*matcher, e1[i as int].value));
                            assert(spec_any_element(*matcher, e1));
                        }
                        return true;
                    }
                    i = i + 1;
                }
                proof {
                    assert(forall|j: int| 0 <= j < e1.len() ==> e1[j] == spec_expanded[j]);
                    assert(forall|j: int| 0 <= j < e1.len() ==> !spec_element_matches(
                        *matcher,
                        #[trigger] e1[j].value,
                    ));
                    assert(!spec_any_element(*matcher, e1));
                }
                false
            },
            BranchedMatcher::Invert(inner) => !inner.matches(branches),
            BranchedMatcher::Never => false,
        }
    }
}

/// Clones a list of branches.
#[verifier::loop_isolation(false)]
fn clone_branches(branches: &Vec<Branch>) -> (r: Vec<Branch>)
    ensures
        r.deep_view() == branches.deep_view(),
{
    broadcast use lemma_branches_deep_view;

    let mut out: Vec<Branch> = Vec::new();
    let mut i: usize = 0;
    while i < branches.len()
        invariant
            i <= branches@.len(),
            out@.len() == i,
            forall|j: int| 0 <= j < i ==> out@[j].deep_view() == branches@[j].deep_view(),
        decreases branches@.len() - i,
    {
        out.push(branches[i].clone());
        i = i + 1;
    }
    proof {
        assert(out.deep_view() =~= branches.deep_view());
    }
    out
}

impl DocumentMatcher {
    /// Tests a document.
    #[verifier::loop_isolation(false)]
    pub fn matches(&self, document: &Vec<(String, Value)>) -> (r: bool)
        requires
            dm_wf(*self),
        ensures
            r == spec_doc_matches(*self, SpecValue::Object(obj_view(*document))),
        decreases self,
    {
        match self {
            DocumentMatcher::All(ms) => {
                let mut i: usize = 0;
                proof {
                    assert(ms@.skip(0) =~= ms@);
                }
                while i < ms.len()
                    invariant
                        i <= ms@.len(),
                        dm_all_wf(ms@.skip(i as int)),
                        spec_doc_all(ms@, SpecValue::Object(obj_view(*document)))
                            == spec_doc_all(
                            ms@.skip(i as int),
                            SpecValue::Object(obj_view(*document)),
                        ),
                    decreases ms@.len() - i,
                {
                    proof {
                        assert(decreases_to!(*self => *ms));
                        assert(decreases_to!(*ms => ms@));
                        assert(decreases_to!(ms@ => ms@[i as int]));
                        assert(ms@.skip(i as int)[0] == ms@[i as int]);
                        assert(ms@.skip(i as int).skip(1) =~= ms@.skip(i as int + 1));
                    }
                    if !ms[i].matches(document) {
                        return false;
                    }
                    i = i + 1;
                }
                true
            },
            DocumentMatcher::Any(ms) => {
                let mut i: usize = 0;
                proof {
                    assert(ms@.skip(0) =~= ms@);
                }
                while i < ms.len()
                    invariant
                        i <= ms@.len(),
                        dm_all_wf(ms@.skip(i as int)),
                        spec_doc_any(ms@, SpecValue::Object(obj_view(*document)))
                            == spec_doc_any(
                            ms@.skip(i as int),
                            SpecValue::Object(obj_view(*document)),
                        ),
                    decreases ms@.len() - i,
                {
                    proof {
                        assert(decreases_to!(*self => *ms));
                        assert(decreases_to!(*ms => ms@));
                        assert(decreases_to!(ms@ => ms@[i as int]));
                        assert(ms@.skip(i as int)[0] == ms@[i as int]);
                        assert(ms@.skip(i as int).skip(1) =~= ms@.skip(i as int + 1));
                    }
                    if ms[i].matches(document) {
                        return true;
                    }
                    i = i + 1;
                }
                false
            },
            DocumentMatcher::Invert(inner) => !inner.matches(document),
            DocumentMatcher::Lookup { lookup, matcher } => {
                let value = to_object_value(document);
                matcher.matches(lookup.lookup(&value))
            },
        }
    }
}

/// Why a selector does not compile.
#[derive(Clone, Copy, Debug, PartialEq, Eq, Structural)]
pub enum MatchError {
    /// An operator key is not in the supported set.
    UnsupportedOperator,
    /// An operator expected an array operand.
    ExpectedArray,
    /// A logical operator got an empty array.
    EmptyArray,
    /// A logical operator's element is not a document.
    ExpectedDocument,
    /// An element of `$all` or `$in` is an operator document.
    OperatorInLiteralList,
    /// `$mod` did not get two numbers.
    BadMod,
    /// `$regex` got neither a regular expression nor a string, or a
    /// pattern that does not compile.
    BadRegex,
    /// `$options` is not a string.
    BadOptions,
    /// A regular expression flag is not one of i, m, s, x.
    UnknownFlag,
    /// `$size` did not get a non-negative integer in range.
    BadSize,
    /// `$type` got an unknown code or name.
    BadType,
}

/// True iff a key names an operator.
pub open spec fn spec_is_op_key(k: Seq<char>) -> bool {
    k.len() > 0 && k[0] == '$'
}

/// The flags of a regular expression options string, in order
/// (case-insensitive, multi-line, dot-matches-new-line, ignore-whitespace),
/// or nothing when a flag is unknown.
pub open spec fn spec_parse_flags(options: Seq<char>) -> Option<(bool, bool, bool, bool)>
    decreases options.len(),
{
    if options.len() == 0 {
        Option::Some((false, false, false, false))
    } else {
        match spec_parse_flags(options.drop_last()) {
            Option::None => Option::None,
            Option::Some((ci, ml, dnl, iw)) => {
                let c = options.last();
                if c == 'i' {
                    Option::Some((true, ml, dnl, iw))
                } else if c == 'm' {
                    Option::Some((ci, true, dnl, iw))
                } else if c == 's' {
                    Option::Some((ci, ml, true, iw))
                } else if c == 'x' {
                    Option::Some((ci, ml, dnl, true))
                } else {
                    Option::None
                }
            },
        }
    }
}

/// True iff a value has the shape of a regular expression scalar: exactly
/// a `$regexp` pattern and a `$flags` string.
pub open spec fn spec_regex_shape(v: SpecValue) -> bool {
    v matches SpecValue::Object(fields) && fields.len() == 2 && ((fields[0].0 == "$regexp"@
        && fields[1].0 == "$flags"@) || (fields[0].0 == "$flags"@ && fields[1].0 == "$regexp"@))
        && fields[0].1 is Text && fields[1].1 is Text
}

/// The pattern of a regular expression scalar.
pub open spec fn spec_regex_pattern(v: SpecValue) -> Seq<char> {
    let fields = v->Object_0;
    if fields[0].0 == "$regexp"@ {
        fields[0].1->Text_0
    } else {
        fields[1].1->Text_0
    }
}

/// The options of a regular expression scalar.
pub open spec fn spec_regex_options(v: SpecValue) -> Seq<char> {
    let fields = v->Object_0;
    if fields[0].0 == "$flags"@ {
        fields[0].1->Text_0
    } else {
        fields[1].1->Text_0
    }
}

/// Whether a pattern and options compile: the flags are known and the
/// pattern builds under them.
pub open spec fn spec_regex_ok(pattern: Seq<char>, options: Seq<char>) -> bool {
    match spec_parse_flags(options) {
        Option::None => false,
        Option::Some((ci, ml, dnl, iw)) => regex_valid(pattern, ci, ml, dnl, iw),
    }
}

/// What an element matcher compiled from a regular expression holds: the
/// pattern, its parsed flags, and the normalized scalar for literal
/// comparison.
pub open spec fn rem_regex(em: ElementMatcher, pattern: Seq<char>, options: Seq<char>) -> bool {
    match spec_parse_flags(options) {
        Option::None => false,
        Option::Some((ci, ml, dnl, iw)) => em matches ElementMatcher::Regex {
            pattern: p,
            case_insensitive,
            multi_line,
            dot_matches_new_line,
            ignore_whitespace,
            ejson,
        } && p@ == pattern && case_insensitive == ci && multi_line == ml
            && dot_matches_new_line == dnl && ignore_whitespace == iw && ejson@
            == SpecValue::Object(
            seq![
                ("$regexp"@, SpecValue::Text(pattern)),
                ("$flags"@, SpecValue::Text(options)),
            ],
        ),
    }
}

/// Whether a literal element selector compiles.
pub open spec fn el_ok(v: SpecValue) -> bool {
    if spec_regex_shape(v) {
        spec_regex_ok(spec_regex_pattern(v), spec_regex_options(v))
    } else {
        true
    }
}

/// What an element matcher compiled from a literal holds.
pub open spec fn el_represents(em: ElementMatcher, v: SpecValue) -> bool {
    if spec_regex_shape(v) {
        rem_regex(em, spec_regex_pattern(v), spec_regex_options(v))
    } else {
        em matches ElementMatcher::Value(sel) && sel@ == v
    }
}

/// True iff a value is an operator document: an object whose first key
/// names an operator. A regular expression scalar does not count.
pub open spec fn spec_is_operator_object(v: SpecValue) -> bool {
    !spec_regex_shape(v) && (v matches SpecValue::Object(fields) && fields.len() > 0
        && spec_is_op_key(fields[0].0))
}

/// Collapsing a matcher list: one matcher stands alone, any other number
/// is wrapped in a conjunction.
pub open spec fn bm_collapses_all(bm: BranchedMatcher, ms: Seq<BranchedMatcher>) -> bool {
    if ms.len() == 1 {
        bm == ms[0]
    } else {
        bm matches BranchedMatcher::All(v) && v@ == ms
    }
}

/// Collapsing a matcher list into a disjunction.
pub open spec fn bm_collapses_any(bm: BranchedMatcher, ms: Seq<BranchedMatcher>) -> bool {
    if ms.len() == 1 {
        bm == ms[0]
    } else {
        bm matches BranchedMatcher::Any(v) && v@ == ms
    }
}

/// Inverting a matcher: a double inversion unwraps.
pub open spec fn bm_inverts(bm: BranchedMatcher, inner: BranchedMatcher) -> bool {
    match inner {
        BranchedMatcher::Invert(x) => bm == *x,
        _ => bm matches BranchedMatcher::Invert(b) && *b == inner,
    }
}

/// An element matcher wrapped as a plain branched element test.
pub open spec fn bm_is_element(
    bm: BranchedMatcher,
    dont_expand: bool,
    dont_include: bool,
) -> bool {
    bm matches BranchedMatcher::Element {
        matcher: _,
        dont_expand_leaf_arrays,
        dont_include_leaf_arrays,
    } && dont_expand_leaf_arrays == dont_expand && dont_include_leaf_arrays == dont_include
}

/// The element matcher inside a branched element test.
pub open spec fn bm_element_of(bm: BranchedMatcher) -> ElementMatcher {
    bm->Element_matcher
}

/// Whether every element of a literal list compiles as a literal.
pub open spec fn spec_literal_list_ok(elems: Seq<SpecValue>) -> bool {
    forall|i: int|
        0 <= i < elems.len() ==> !spec_is_operator_object(#[trigger] elems[i]) && el_ok(elems[i])
}

/// What a list of element tests compiled from a literal list holds.
pub open spec fn bm_literal_list_represents(
    bs: Seq<BranchedMatcher>,
    elems: Seq<SpecValue>,
) -> bool {
    bs.len() == elems.len() && forall|i: int|
        0 <= i < elems.len() ==> bm_is_element(#[trigger] bs[i], false, false) && el_represents(
            bm_element_of(bs[i]),
            elems[i],
        )
}

/// The known type codes and names for the `$type` operator.
pub open spec fn spec_type_code_of(v: SpecValue) -> Option<i8> {
    match v {
        SpecValue::Number(Number::Int(n)) => if 1 <= n <= 5 || 7 <= n <= 11 {
            Option::Some(n as i8)
        } else {
            Option::None
        },
        SpecValue::Text(s) => if s == "double"@ {
            Option::Some(1i8)
        } else if s == "string"@ {
            Option::Some(2i8)
        } else if s == "object"@ {
            Option::Some(3i8)
        } else if s == "array"@ {
            Option::Some(4i8)
        } else if s == "binData"@ {
            Option::Some(5i8)
        } else if s == "objectId"@ {
            Option::Some(7i8)
        } else if s == "bool"@ {
            Option::Some(8i8)
        } else if s == "date"@ {
            Option::Some(9i8)
        } else if s == "null"@ {
            Option::Some(10i8)
        } else if s == "regex"@ {
            Option::Some(11i8)
        } else {
            Option::None
        },
        _ => Option::None,
    }
}

/// How a `$mod` operand parses: an integer as itself, a finite double
/// truncated toward zero (saturating at the 64-bit bounds).
pub open spec fn spec_mod_operand(v: SpecValue) -> Option<i64> {
    match v {
        SpecValue::Number(Number::Int(n)) => Option::Some(n),
        SpecValue::Number(Number::Double(bits)) => if crate::number::f64_exp(bits) == 0x7FFu64 {
            Option::None
        } else {
            Option::Some(spec_f64_trunc(bits))
        },
        _ => Option::None,
    }
}

/// The truncation of a finite double's bit pattern toward zero, saturated
/// to the 64-bit signed range.
pub open spec fn spec_f64_trunc(bits: u64) -> i64 {
    let exp = crate::number::f64_exp(bits) as int;
    let frac = crate::number::f64_frac(bits) as int;
    let neg = crate::number::f64_sign(bits) == 1u64;
    if exp < 1023 {
        0
    } else if exp >= 1086 {
        if neg {
            i64::MIN
        } else {
            i64::MAX
        }
    } else {
        let mantissa = frac + 0x10_0000_0000_0000;
        let shift = exp - 1075;
        let mag = if shift >= 0 {
            mantissa * vstd::arithmetic::power2::pow2(shift as nat)
        } else {
            mantissa / vstd::arithmetic::power2::pow2((-shift) as nat) as int
        };
        if neg {
            if mag > 0x8000_0000_0000_0000 {
                i64::MIN
            } else {
                (-mag) as i64
            }
        } else {
            if mag > 0x7FFF_FFFF_FFFF_FFFF {
                i64::MAX
            } else {
                mag as i64
            }
        }
    }
}

/// Whether one operator entry compiles. The `obj_fields` are the whole
/// operator document, consulted by `$regex` and `$options`.
pub open spec fn op_ok(
    key: Seq<char>,
    v: SpecValue,
    obj_fields: Seq<(Seq<char>, SpecValue)>,
) -> bool
    decreases v, 2int,
{
    if key == "$all"@ {
        v is Array && spec_literal_list_ok(v->Array_0)
    } else if key == "$in"@ {
        v is Array && spec_literal_list_ok(v->Array_0)
    } else if key == "$nin"@ {
        v is Array && spec_literal_list_ok(v->Array_0)
    } else if key == "$eq"@ {
        el_ok(v)
    } else if key == "$ne"@ {
        el_ok(v)
    } else if key == "$exists"@ {
        true
    } else if key == "$gt"@ || key == "$gte"@ || key == "$lt"@ || key == "$lte"@ {
        true
    } else if key == "$mod"@ {
        v is Array && v->Array_0.len() == 2 && spec_mod_operand(v->Array_0[0]) is Some
            && spec_mod_operand(v->Array_0[1]) is Some
    } else if key == "$not"@ {
        vs_ok(v, false)
    } else if key == "$regex"@ {
        &&& (v is Text || spec_regex_shape(v))
        &&& match spec_obj_get(obj_fields, "$options"@) {
            Option::Some(o) => o is Text && spec_regex_ok(spec_regex_pattern_of(v), o->Text_0),
            Option::None => spec_regex_ok(
                spec_regex_pattern_of(v),
                spec_regex_options_of(v),
            ),
        }
    } else if key == "$options"@ {
        spec_obj_get(obj_fields, "$regex"@) is Some
    } else if key == "$size"@ {
        v is Number && v->Number_0 is Int && 0 <= v->Number_0->Int_0 <= usize::MAX
    } else if key == "$type"@ {
        spec_type_code_of(v) is Some
    } else {
        false
    }
}

/// The pattern a `$regex` operand carries: a string is the pattern itself,
/// a regular expression scalar carries its own.
pub open spec fn spec_regex_pattern_of(v: SpecValue) -> Seq<char> {
    if v is Text {
        v->Text_0
    } else {
        spec_regex_pattern(v)
    }
}

/// The options a `$regex` operand carries when no `$options` stands beside
/// it: a string has none, a regular expression scalar its own.
pub open spec fn spec_regex_options_of(v: SpecValue) -> Seq<char> {
    if v is Text {
        Seq::empty()
    } else {
        spec_regex_options(v)
    }
}

/// Whether a value sub-selector compiles: a regular expression scalar and
/// a plain literal always do, and an operator document compiles when every
/// entry is a supported operator applied well.
pub open spec fn vs_ok(v: SpecValue, is_root: bool) -> bool
    decreases v, 0int,
{
    if spec_regex_shape(v) {
        el_ok(v)
    } else if spec_is_operator_object(v) {
        let fields = v->Object_0;
        forall|i: int|
            0 <= i < fields.len() ==> op_ok((#[trigger] fields[i]).0, fields[i].1, fields)
    } else {
        el_ok(v)
    }
}

/// What one compiled operator entry holds.
pub open spec fn op_rep(
    bm: BranchedMatcher,
    key: Seq<char>,
    v: SpecValue,
    obj_fields: Seq<(Seq<char>, SpecValue)>,
) -> bool
    decreases v, 2int,
{
    if key == "$all"@ {
        v is Array && (if v->Array_0.len() == 0 {
            bm is Never
        } else {
            exists|bs: Seq<BranchedMatcher>|
                bm_literal_list_represents(bs, v->Array_0) && bm_collapses_all(bm, bs)
        })
    } else if key == "$in"@ {
        v is Array && exists|bs: Seq<BranchedMatcher>|
            bm_literal_list_represents(bs, v->Array_0) && bm_collapses_any(bm, bs)
    } else if key == "$nin"@ {
        v is Array && (bm matches BranchedMatcher::Invert(b) && exists|
            bs: Seq<BranchedMatcher>,
        |
            bm_literal_list_represents(bs, v->Array_0) && bm_collapses_any(*b, bs))
    } else if key == "$eq"@ {
        bm_is_element(bm, false, false) && el_represents(bm_element_of(bm), v)
    } else if key == "$ne"@ {
        bm matches BranchedMatcher::Invert(b) && bm_is_element(*b, false, false)
            && el_represents(bm_element_of(*b), v)
    } else if key == "$exists"@ {
        if v == SpecValue::Bool(true) {
            bm_is_element(bm, false, false) && bm_element_of(bm) is Exists
        } else {
            bm matches BranchedMatcher::Invert(b) && bm_is_element(*b, false, false)
                && bm_element_of(*b) is Exists
        }
    } else if key == "$gt"@ || key == "$gte"@ || key == "$lt"@ || key == "$lte"@ {
        &&& bm_is_element(bm, false, false)
        &&& bm_element_of(bm) matches ElementMatcher::Order { selector, ordering, is_negated }
        &&& selector@ == v
        &&& if key == "$gt"@ {
            ordering == Ordering::Greater && !is_negated
        } else if key == "$gte"@ {
            ordering == Ordering::Less && is_negated
        } else if key == "$lt"@ {
            ordering == Ordering::Less && !is_negated
        } else {
            ordering == Ordering::Greater && is_negated
        }
    } else if key == "$mod"@ {
        &&& v is Array
        &&& v->Array_0.len() == 2
        &&& bm_is_element(bm, false, false)
        &&& bm_element_of(bm) matches ElementMatcher::Mod(div, rem) && Option::Some(div)
            == spec_mod_operand(v->Array_0[0]) && Option::Some(rem) == spec_mod_operand(
            v->Array_0[1],
        )
    } else if key == "$not"@ {
        exists|inner: BranchedMatcher| vs_rep(inner, v, false) && bm_inverts(bm, inner)
    } else if key == "$regex"@ {
        &&& bm_is_element(bm, false, false)
        &&& match spec_obj_get(obj_fields, "$options"@) {
            Option::Some(o) => o is Text && rem_regex(
                bm_element_of(bm),
                spec_regex_pattern_of(v),
                o->Text_0,
            ),
            Option::None => rem_regex(
                bm_element_of(bm),
                spec_regex_pattern_of(v),
                spec_regex_options_of(v),
            ),
        }
    } else if key == "$options"@ {
        bm matches BranchedMatcher::Invert(b) && *b is Never
    } else if key == "$size"@ {
        &&& v is Number && v->Number_0 is Int && 0 <= v->Number_0->Int_0
        &&& bm_is_element(bm, true, false)
        &&& bm_element_of(bm) matches ElementMatcher::Size(size) && size as int
            == v->Number_0->Int_0 as int
    } else if key == "$type"@ {
        &&& bm_is_element(bm, false, true)
        &&& bm_element_of(bm) matches ElementMatcher::Type(code) && Option::Some(code)
            == spec_type_code_of(v)
    } else {
        false
    }
}

/// What a list of compiled operator entries holds.
pub open spec fn op_list_rep(
    bs: Seq<BranchedMatcher>,
    entries: Seq<(Seq<char>, SpecValue)>,
    obj_fields: Seq<(Seq<char>, SpecValue)>,
) -> bool
    decreases entries, 3int,
{
    bs.len() == entries.len() && forall|i: int|
        0 <= i < entries.len() ==> op_rep(#[trigger] bs[i], entries[i].0, entries[i].1, obj_fields)
}

/// What a compiled value sub-selector holds.
pub open spec fn vs_rep(bm: BranchedMatcher, v: SpecValue, is_root: bool) -> bool
    decreases v, 1int,
{
    if spec_regex_shape(v) {
        bm_is_element(bm, false, false) && el_represents(bm_element_of(bm), v)
    } else if spec_is_operator_object(v) {
        let fields = v->Object_0;
        exists|bs: Seq<BranchedMatcher>| op_list_rep(bs, fields, fields) && bm_collapses_all(
            bm,
            bs,
        )
    } else {
        bm_is_element(bm, false, false) && el_represents(bm_element_of(bm), v)
    }
}

/// Whether a logical operator entry compiles.
pub open spec fn logical_ok(key: Seq<char>, v: SpecValue, in_elem: bool) -> bool
    decreases v, 1int,
{
    (key == "$and"@ || key == "$or"@ || key == "$nor"@) && many_ok(v, in_elem)
}

/// Whether an array of sub-selector documents compiles: it must be a
/// non-empty array of documents that each compile.
pub open spec fn many_ok(v: SpecValue, in_elem: bool) -> bool
    decreases v, 0int,
{
    v matches SpecValue::Array(elems) && elems.len() > 0 && forall|i: int|
        0 <= i < elems.len() ==> (#[trigger] elems[i]) is Object && dfields_ok(
            elems[i]->Object_0,
            in_elem,
            false,
        )
}

/// Whether a selector document's fields compile.
pub open spec fn dfields_ok(
    fields: Seq<(Seq<char>, SpecValue)>,
    in_elem: bool,
    is_root: bool,
) -> bool
    decreases fields, 2int,
{
    forall|i: int|
        0 <= i < fields.len() ==> {
            let key = (#[trigger] fields[i]).0;
            let sub = fields[i].1;
            key == "$comment"@ || (if spec_is_op_key(key) {
                logical_ok(key, sub, in_elem)
            } else {
                vs_ok(sub, is_root)
            })
        }
}

/// Collapsing a document matcher list into a conjunction.
pub open spec fn dm_collapses_all(m: DocumentMatcher, ms: Seq<DocumentMatcher>) -> bool {
    if ms.len() == 1 {
        m == ms[0]
    } else {
        m matches DocumentMatcher::All(v) && v@ == ms
    }
}

/// Collapsing a document matcher list into a disjunction.
pub open spec fn dm_collapses_any(m: DocumentMatcher, ms: Seq<DocumentMatcher>) -> bool {
    if ms.len() == 1 {
        m == ms[0]
    } else {
        m matches DocumentMatcher::Any(v) && v@ == ms
    }
}

/// What one compiled selector entry holds.
pub open spec fn dentry_rep(
    m: DocumentMatcher,
    key: Seq<char>,
    sub: SpecValue,
    in_elem: bool,
    is_root: bool,
) -> bool
    decreases sub, 4int,
{
    if spec_is_op_key(key) {
        logical_rep(m, key, sub, in_elem)
    } else {
        m matches DocumentMatcher::Lookup { lookup, matcher } && crate::lookup::lookup_wf(lookup)
            && !lookup.for_sort && crate::lookup::path_of(lookup) == spec_split_key(key)
            && vs_rep(matcher, sub, is_root)
    }
}

/// What a compiled logical operator holds.
pub open spec fn logical_rep(m: DocumentMatcher, key: Seq<char>, v: SpecValue, in_elem: bool) -> bool
    decreases v, 3int,
{
    if key == "$and"@ {
        exists|mss: Seq<DocumentMatcher>| many_rep(mss, v, in_elem) && dm_collapses_all(m, mss)
    } else if key == "$or"@ {
        exists|mss: Seq<DocumentMatcher>| many_rep(mss, v, in_elem) && dm_collapses_any(m, mss)
    } else if key == "$nor"@ {
        m matches DocumentMatcher::Invert(b) && exists|mss: Seq<DocumentMatcher>|
            many_rep(mss, v, in_elem) && dm_collapses_any(*b, mss)
    } else {
        false
    }
}

/// What a list of matchers compiled from sub-selector documents holds.
pub open spec fn many_rep(mss: Seq<DocumentMatcher>, v: SpecValue, in_elem: bool) -> bool
    decreases v, 2int,
{
    v matches SpecValue::Array(elems) && mss.len() == elems.len() && forall|i: int|
        0 <= i < elems.len() ==> (#[trigger] elems[i]) is Object && dm_doc_rep(
            mss[i],
            elems[i]->Object_0,
            in_elem,
            false,
        )
}

/// What a matcher compiled from a selector document holds.
pub open spec fn dm_doc_rep(
    m: DocumentMatcher,
    fields: Seq<(Seq<char>, SpecValue)>,
    in_elem: bool,
    is_root: bool,
) -> bool
    decreases fields, 4int,
{
    exists|ms: Seq<DocumentMatcher>| dlist_rep(ms, fields, in_elem, is_root) && dm_collapses_all(
        m,
        ms,
    )
}

/// What the list of per-entry matchers of a selector document holds: one
/// per entry, in order, `$comment` entries skipped.
pub open spec fn dlist_rep(
    ms: Seq<DocumentMatcher>,
    fields: Seq<(Seq<char>, SpecValue)>,
    in_elem: bool,
    is_root: bool,
) -> bool
    decreases fields, 3int,
{
    if fields.len() == 0 {
        ms.len() == 0
    } else if fields[0].0 == "$comment"@ {
        dlist_rep(ms, fields.skip(1), in_elem, is_root)
    } else {
        ms.len() > 0 && dentry_rep(ms[0], fields[0].0, fields[0].1, in_elem, is_root)
            && dlist_rep(ms.skip(1), fields.skip(1), in_elem, is_root)
    }
}

/// A list is well formed exactly when each element is.
pub proof fn lemma_bm_all_wf(ms: Seq<BranchedMatcher>)
    ensures
        bm_all_wf(ms) <==> (forall|i: int| 0 <= i < ms.len() ==> bm_wf(#[trigger] ms[i])),
    decreases ms.len(),
{
    if ms.len() > 0 {
        lemma_bm_all_wf(ms.skip(1));
        if forall|i: int| 0 <= i < ms.len() ==> bm_wf(#[trigger] ms[i]) {
            assert forall|i: int| 0 <= i < ms.skip(1).len() implies bm_wf(
                #[trigger] ms.skip(1)[i],
            ) by {
                assert(ms.skip(1)[i] == ms[i + 1]);
            }
        }
        if bm_all_wf(ms) {
            assert forall|i: int| 0 <= i < ms.len() implies bm_wf(#[trigger] ms[i]) by {
                if i > 0 {
                    assert(ms.skip(1)[i - 1] == ms[i]);
                }
            }
        }
    }
}

/// A list is well formed exactly when each element is.
pub proof fn lemma_dm_all_wf(ms: Seq<DocumentMatcher>)
    ensures
        dm_all_wf(ms) <==> (forall|i: int| 0 <= i < ms.len() ==> dm_wf(#[trigger] ms[i])),
    decreases ms.len(),
{
    if ms.len() > 0 {
        lemma_dm_all_wf(ms.skip(1));
        if forall|i: int| 0 <= i < ms.len() ==> dm_wf(#[trigger] ms[i]) {
            assert forall|i: int| 0 <= i < ms.skip(1).len() implies dm_wf(
                #[trigger] ms.skip(1)[i],
            ) by {
                assert(ms.skip(1)[i] == ms[i + 1]);
            }
        }
        if dm_all_wf(ms) {
            assert forall|i: int| 0 <= i < ms.len() implies dm_wf(#[trigger] ms[i]) by {
                if i > 0 {
                    assert(ms.skip(1)[i - 1] == ms[i]);
                }
            }
        }
    }
}

/// Collapses a one-element list to its element; wraps any other list.
pub fn one_or_wrap<T, F: Fn(Vec<T>) -> T>(list: Vec<T>, wrap: F) -> (r: T)
    requires
        list@.len() != 1 ==> call_requires(wrap, (list,)),
    ensures
        list@.len() == 1 ==> r == list@[0],
        list@.len() != 1 ==> call_ensures(wrap, (list,), r),
{
    let mut list = list;
    if list.len() == 1 {
        list.swap_remove(0)
    } else {
        wrap(list)
    }
}

/// True iff the key names an operator.
fn is_op_key(key: &str) -> (r: bool)
    ensures
        r == spec_is_op_key(key@),
{
    key.unicode_len() > 0 && key.get_char(0) == '$'
}

/// Reads the flags of a regular expression options string.
#[verifier::loop_isolation(false)]
fn parse_flags(options: &str) -> (r: Option<(bool, bool, bool, bool)>)
    ensures
        r == spec_parse_flags(options@),
{
    let len = options.unicode_len();
    let mut ci = false;
    let mut ml = false;
    let mut dnl = false;
    let mut iw = false;
    let mut i: usize = 0;
    proof {
        assert(options@.take(0) =~= Seq::<char>::empty());
    }
    while i < len
        invariant
            i <= len,
            spec_parse_flags(options@.take(i as int)) == Option::Some((ci, ml, dnl, iw)),
        decreases len - i,
    {
        proof {
            assert(options@.take(i as int + 1).drop_last() =~= options@.take(i as int));
            assert(options@.take(i as int + 1).last() == options@[i as int]);
        }
        let c = options.get_char(i);
        if c == 'i' {
            ci = true;
        } else if c == 'm' {
            ml = true;
        } else if c == 's' {
            dnl = true;
        } else if c == 'x' {
            iw = true;
        } else {
            proof {
                lemma_parse_flags_poison(options@, i as int + 1);
            }
            return Option::None;
        }
        i = i + 1;
    }
    proof {
        assert(options@.take(len as int) =~= options@);
    }
    Option::Some((ci, ml, dnl, iw))
}

proof fn lemma_parse_flags_poison(s: Seq<char>, i: int)
    requires
        0 <= i <= s.len(),
        spec_parse_flags(s.take(i)) is None,
    ensures
        spec_parse_flags(s) is None,
    decreases s.len() - i,
{
    if i == s.len() {
        assert(s.take(i) =~= s);
    } else {
        assert(s.take(i + 1).drop_last() =~= s.take(i));
        lemma_parse_flags_poison(s, i + 1);
    }
}

/// True iff the value has the shape of a regular expression scalar.
fn is_regex_shape(v: &Value) -> (r: bool)
    ensures
        r == spec_regex_shape(v@),
{
    match v {
        Value::Object(fields) => {
            if fields.len() != 2 {
                return false;
            }
            let k0 = fields[0].0.as_str();
            let k1 = fields[1].0.as_str();
            let keys_ok = (str_eq(k0, "$regexp") && str_eq(k1, "$flags")) || (str_eq(
                k0,
                "$flags",
            ) && str_eq(k1, "$regexp"));
            keys_ok && matches!(&fields[0].1, Value::Text(_)) && matches!(
                &fields[1].1,
                Value::Text(_)
            )
        },
        _ => false,
    }
}

/// The pattern and options of a regular expression scalar.
fn regex_parts(v: &Value) -> (r: (String, String))
    requires
        spec_regex_shape(v@),
    ensures
        r.0@ == spec_regex_pattern(v@),
        r.1@ == spec_regex_options(v@),
{
    proof {
        reveal_strlit("$regexp");
        reveal_strlit("$flags");
    }
    match v {
        Value::Object(fields) => {
            let first_is_pattern = str_eq(fields[0].0.as_str(), "$regexp");
            let pattern = if first_is_pattern {
                match &fields[0].1 {
                    Value::Text(s) => s.clone(),
                    _ => unreached(),
                }
            } else {
                match &fields[1].1 {
                    Value::Text(s) => s.clone(),
                    _ => unreached(),
                }
            };
            let options = if first_is_pattern {
                proof {
                    assert(v@->Object_0[0].0 == "$regexp"@);
                    assert(v@->Object_0[0].0 != "$flags"@);
                    assert(spec_regex_options(v@) == v@->Object_0[1].1->Text_0);
                }
                match &fields[1].1 {
                    Value::Text(s) => s.clone(),
                    _ => unreached(),
                }
            } else {
                proof {
                    assert(v@->Object_0[0].0 == "$flags"@);
                    assert(spec_regex_options(v@) == v@->Object_0[0].1->Text_0);
                }
                match &fields[0].1 {
                    Value::Text(s) => s.clone(),
                    _ => unreached(),
                }
            };
            (pattern, options)
        },
        _ => unreached(),
    }
}

/// Compiles a regular expression literal from a pattern and options.
fn regex_element(pattern: String, options: String) -> (r: Result<ElementMatcher, MatchError>)
    ensures
        match r {
            Result::Ok(em) => spec_regex_ok(pattern@, options@) && rem_regex(
                em,
                pattern@,
                options@,
            ) && em_wf(em),
            Result::Err(_) => !spec_regex_ok(pattern@, options@),
        },
{
    let flags = match parse_flags(options.as_str()) {
        Option::Some(flags) => flags,
        Option::None => {
            return Result::Err(MatchError::UnknownFlag);
        },
    };
    let (ci, ml, dnl, iw) = flags;
    if !regex_check(pattern.as_str(), ci, ml, dnl, iw) {
        return Result::Err(MatchError::BadRegex);
    }
    let mut ejson_fields: Vec<(String, Value)> = Vec::new();
    ejson_fields.push(("$regexp".to_owned(), Value::Text(pattern.clone())));
    ejson_fields.push(("$flags".to_owned(), Value::Text(options.clone())));
    let ejson = Value::Object(ejson_fields);
    let em = ElementMatcher::Regex {
        pattern,
        case_insensitive: ci,
        multi_line: ml,
        dot_matches_new_line: dnl,
        ignore_whitespace: iw,
        ejson,
    };
    proof {
        assert(em->Regex_ejson@->Object_0 =~= seq![
            ("$regexp"@, SpecValue::Text(em->Regex_pattern@)),
            ("$flags"@, SpecValue::Text(options@)),
        ]);
    }
    Result::Ok(em)
}

impl ElementMatcher {
    /// Compiles a literal element selector.
    fn compile(selector: &Value) -> (r: Result<ElementMatcher, MatchError>)
        ensures
            match r {
                Result::Ok(em) => el_ok(selector@) && el_represents(em, selector@) && em_wf(em),
                Result::Err(_) => !el_ok(selector@),
            },
    {
        if is_regex_shape(selector) {
            let (pattern, options) = regex_parts(selector);
            regex_element(pattern, options)
        } else {
            Result::Ok(ElementMatcher::Value(selector.clone()))
        }
    }
}

/// Truncates a finite double's bit pattern toward zero, saturating to the
/// 64-bit signed range.
fn f64_trunc(bits: u64) -> (r: i64)
    requires
        crate::number::f64_exp(bits) != 0x7FFu64,
    ensures
        r == spec_f64_trunc(bits),
{
    let exp = (bits >> 52u64) & 0x7FFu64;
    let frac = bits & 0x000F_FFFF_FFFF_FFFFu64;
    let neg = (bits >> 63u64) == 1u64;
    proof {
        assert(((bits >> 52u64) & 0x7FFu64) < 0x800u64) by (bit_vector);
        assert((bits & 0x000F_FFFF_FFFF_FFFFu64) < 0x10_0000_0000_0000u64) by (bit_vector);
        vstd::arithmetic::power2::lemma2_to64();
        vstd::arithmetic::power2::lemma2_to64_rest();
    }
    if exp < 1023 {
        0
    } else if exp >= 1086 {
        if neg {
            i64::MIN
        } else {
            i64::MAX
        }
    } else {
        let mantissa: u64 = frac + 0x10_0000_0000_0000u64;
        if exp >= 1075 {
            let shift: u64 = exp - 1075;
            proof {
                assert(vstd::arithmetic::power2::pow2(shift as nat)
                    <= vstd::arithmetic::power2::pow2(10)) by {
                    if (shift as nat) < 10 {
                        vstd::arithmetic::power2::lemma_pow2_strictly_increases(
                            shift as nat,
                            10,
                        );
                    }
                }
                assert(mantissa * vstd::arithmetic::power2::pow2(shift as nat)
                    <= 0x7FFF_FFFF_FFFF_FFFFu64) by (nonlinear_arith)
                    requires
                        mantissa < 0x20_0000_0000_0000u64,
                        vstd::arithmetic::power2::pow2(shift as nat) <= 0x400,
                ;
                vstd::bits::lemma_u64_shl_is_mul(mantissa, shift);
            }
            let mag: u64 = mantissa << shift;
            proof {
                assert(mag as int == mantissa * vstd::arithmetic::power2::pow2(shift as nat));
                assert(mag <= 0x7FFF_FFFF_FFFF_FFFFu64);
            }
            if neg {
                -(mag as i64)
            } else {
                mag as i64
            }
        } else {
            let shift: u64 = 1075 - exp;
            proof {
                vstd::bits::lemma_u64_shr_is_div(mantissa, shift);
            }
            let mag: u64 = mantissa >> shift;
            proof {
                assert(mantissa >> shift <= mantissa) by (bit_vector);
            }
            if neg {
                -(mag as i64)
            } else {
                mag as i64
            }
        }
    }
}

/// Reads a `$mod` operand: an integer as itself, a finite double
/// truncated toward zero.
fn mod_operand(v: &Value) -> (r: Option<i64>)
    ensures
        r == spec_mod_operand(v@),
{
    match v {
        Value::Number(Number::Int(n)) => Option::Some(*n),
        Value::Number(Number::Double(bits)) => {
            if ((*bits >> 52u64) & 0x7FFu64) == 0x7FF {
                Option::None
            } else {
                Option::Some(f64_trunc(*bits))
            }
        },
        _ => Option::None,
    }
}

/// Reads a `$type` operand as a type code.
fn type_code_of(v: &Value) -> (r: Option<i8>)
    ensures
        r == spec_type_code_of(v@),
{
    match v {
        Value::Number(Number::Int(n)) => {
            if (1 <= *n && *n <= 5) || (7 <= *n && *n <= 11) {
                Option::Some(*n as i8)
            } else {
                Option::None
            }
        },
        Value::Text(s) => {
            let s = s.as_str();
            if str_eq(s, "double") {
                Option::Some(1)
            } else if str_eq(s, "string") {
                Option::Some(2)
            } else if str_eq(s, "object") {
                Option::Some(3)
            } else if str_eq(s, "array") {
                Option::Some(4)
            } else if str_eq(s, "binData") {
                Option::Some(5)
            } else if str_eq(s, "objectId") {
                Option::Some(7)
            } else if str_eq(s, "bool") {
                Option::Some(8)
            } else if str_eq(s, "date") {
                Option::Some(9)
            } else if str_eq(s, "null") {
                Option::Some(10)
            } else if str_eq(s, "regex") {
                Option::Some(11)
            } else {
                Option::None
            }
        },
        _ => Option::None,
    }
}

/// True iff the value is an operator document.
fn is_operator_object(v: &Value) -> (r: bool)
    ensures
        r == spec_is_operator_object(v@),
{
    if is_regex_shape(v) {
        return false;
    }
    match v {
        Value::Object(fields) => fields.len() > 0 && is_op_key(fields[0].0.as_str()),
        _ => false,
    }
}

impl BranchedMatcher {
    /// Collapses a matcher list into a conjunction.
    pub fn all(matchers: Vec<BranchedMatcher>) -> (r: BranchedMatcher)
        ensures
            bm_collapses_all(r, matchers@),
            bm_all_wf(matchers@) ==> bm_wf(r),
    {
        proof {
            lemma_bm_all_wf(matchers@);
        }
        let ghost ms = matchers@;
        let r = one_or_wrap(matchers, wrap_branched_all);
        proof {
            if ms.len() != 1 {
                assert(r is All && r->All_0@ == ms);
            }
        }
        r
    }

    /// Collapses a matcher list into a disjunction.
    pub fn any(matchers: Vec<BranchedMatcher>) -> (r: BranchedMatcher)
        ensures
            bm_collapses_any(r, matchers@),
            bm_all_wf(matchers@) ==> bm_wf(r),
    {
        proof {
            lemma_bm_all_wf(matchers@);
        }
        let ghost ms = matchers@;
        let r = one_or_wrap(matchers, wrap_branched_any);
        proof {
            if ms.len() != 1 {
                assert(r is Any && r->Any_0@ == ms);
            }
        }
        r
    }

    /// Inverts a matcher; a double inversion unwraps.
    pub fn invert(self) -> (r: BranchedMatcher)
        ensures
            bm_inverts(r, self),
            bm_wf(self) ==> bm_wf(r),
    {
        match self {
            BranchedMatcher::Invert(inverted) => *inverted,
            not_inverted => BranchedMatcher::Invert(Box::new(not_inverted)),
        }
    }

    /// Compiles a list of literal elements, as `$all` and `$in` take them.
    #[verifier::loop_isolation(false)]
    fn compile_literal_list(elems: &Vec<Value>) -> (r: Result<Vec<BranchedMatcher>, MatchError>)
        ensures
            match r {
                Result::Ok(bs) => spec_literal_list_ok(arr_view(*elems))
                    && bm_literal_list_represents(bs@, arr_view(*elems)) && bm_all_wf(bs@),
                Result::Err(_) => !spec_literal_list_ok(arr_view(*elems)),
            },
    {
        let mut out: Vec<BranchedMatcher> = Vec::new();
        let mut i: usize = 0;
        while i < elems.len()
            invariant
                i <= elems@.len(),
                out@.len() == i,
                forall|j: int|
                    0 <= j < i ==> !spec_is_operator_object(arr_view(*elems)[j]) && el_ok(
                        arr_view(*elems)[j],
                    ),
                forall|j: int|
                    0 <= j < i ==> bm_is_element(#[trigger] out@[j], false, false)
                        && el_represents(bm_element_of(out@[j]), arr_view(*elems)[j]) && bm_wf(
                        out@[j],
                    ),
            decreases elems@.len() - i,
        {
            proof {
                assert(arr_view(*elems)[i as int] == elems@[i as int]@);
            }
            if is_operator_object(&elems[i]) {
                return Result::Err(MatchError::OperatorInLiteralList);
            }
            let em = match ElementMatcher::compile(&elems[i]) {
                Result::Ok(em) => em,
                Result::Err(e) => {
                    return Result::Err(e);
                },
            };
            out.push(BranchedMatcher::Element {
                matcher: em,
                dont_expand_leaf_arrays: false,
                dont_include_leaf_arrays: false,
            });
            i = i + 1;
        }
        proof {
            lemma_bm_all_wf(out@);
        }
        Result::Ok(out)
    }
}

/// Wraps a matcher list in a conjunction.
fn wrap_branched_all(list: Vec<BranchedMatcher>) -> (r: BranchedMatcher)
    ensures
        r == BranchedMatcher::All(list),
{
    BranchedMatcher::All(list)
}

/// Wraps a matcher list in a disjunction.
fn wrap_branched_any(list: Vec<BranchedMatcher>) -> (r: BranchedMatcher)
    ensures
        r == BranchedMatcher::Any(list),
{
    BranchedMatcher::Any(list)
}

/// The element views of an array value's backing vector.
pub open spec fn arr_view(elems: Vec<Value>) -> Seq<SpecValue> {
    Value::Array(elems)@->Array_0
}

impl BranchedMatcher {
    /// Compiles one operator entry.
    #[verifier::loop_isolation(false)]
    #[verifier::rlimit(100)]
    fn compile_operator(
        key: &str,
        operand: &Value,
        obj_fields: &Vec<(String, Value)>,
        is_root: bool,
    ) -> (r: Result<BranchedMatcher, MatchError>)
        ensures
            match r {
                Result::Ok(bm) => op_ok(key@, operand@, obj_view(*obj_fields)) && op_rep(
                    bm,
                    key@,
                    operand@,
                    obj_view(*obj_fields),
                ) && bm_wf(bm),
                Result::Err(_) => !op_ok(key@, operand@, obj_view(*obj_fields)),
            },
        decreases operand, 2int,
    {
        proof {
            reveal_strlit("$all");
            reveal_strlit("$eq");
            reveal_strlit("$exists");
            reveal_strlit("$gt");
            reveal_strlit("$gte");
            reveal_strlit("$lt");
            reveal_strlit("$lte");
            reveal_strlit("$in");
            reveal_strlit("$mod");
            reveal_strlit("$ne");
            reveal_strlit("$nin");
            reveal_strlit("$not");
            reveal_strlit("$regex");
            reveal_strlit("$options");
            reveal_strlit("$size");
            reveal_strlit("$type");
        }
        let is_all = str_eq(key, "$all");
        let is_eq_op = str_eq(key, "$eq");
        let is_exists = str_eq(key, "$exists");
        let is_gt = str_eq(key, "$gt");
        let is_gte = str_eq(key, "$gte");
        let is_lt = str_eq(key, "$lt");
        let is_lte = str_eq(key, "$lte");
        let is_in = str_eq(key, "$in");
        let is_mod = str_eq(key, "$mod");
        let is_ne = str_eq(key, "$ne");
        let is_nin = str_eq(key, "$nin");
        let is_not = str_eq(key, "$not");
        let is_regex_op = str_eq(key, "$regex");
        let is_options = str_eq(key, "$options");
        let is_size = str_eq(key, "$size");
        let is_type = str_eq(key, "$type");
        if is_all {
            let elems = match operand {
                Value::Array(elems) => elems,
                _ => {
                    return Result::Err(MatchError::ExpectedArray);
                },
            };
            let bs = match Self::compile_literal_list(elems) {
                Result::Ok(bs) => bs,
                Result::Err(e) => {
                    return Result::Err(e);
                },
            };
            if bs.len() == 0 {
                return Result::Ok(BranchedMatcher::Never);
            }
            let ghost gbs = bs@;
            let bm = Self::all(bs);
            proof {
                assert(bm_literal_list_represents(gbs, arr_view(*elems)) && bm_collapses_all(
                    bm,
                    gbs,
                ));
            }
            proof {
                assert(op_ok(key@, operand@, obj_view(*obj_fields)));
                assert(op_rep(bm, key@, operand@, obj_view(*obj_fields)));
            }
            Result::Ok(bm)
        } else if is_in {
            let elems = match operand {
                Value::Array(elems) => elems,
                _ => {
                    return Result::Err(MatchError::ExpectedArray);
                },
            };
            let bs = match Self::compile_literal_list(elems) {
                Result::Ok(bs) => bs,
                Result::Err(e) => {
                    return Result::Err(e);
                },
            };
            let ghost gbs = bs@;
            let bm = Self::any(bs);
            proof {
                assert(bm_literal_list_represents(gbs, arr_view(*elems)) && bm_collapses_any(
                    bm,
                    gbs,
                ));
            }
            proof {
                assert(op_ok(key@, operand@, obj_view(*obj_fields)));
                assert(op_rep(bm, key@, operand@, obj_view(*obj_fields)));
            }
            Result::Ok(bm)
        } else if is_nin {
            let elems = match operand {
                Value::Array(elems) => elems,
                _ => {
                    return Result::Err(MatchError::ExpectedArray);
                },
            };
            let bs = match Self::compile_literal_list(elems) {
                Result::Ok(bs) => bs,
                Result::Err(e) => {
                    return Result::Err(e);
                },
            };
            let ghost gbs = bs@;
            let inner = Self::any(bs);
            proof {
                assert(bm_literal_list_represents(gbs, arr_view(*elems)) && bm_collapses_any(
                    inner,
                    gbs,
                ));
            }
            let built = BranchedMatcher::Invert(Box::new(inner));
            proof {
                assert(bm_wf(*built->Invert_0));
                assert(bm_wf(built));
            }
            return Result::Ok(built);
        } else if is_eq_op {
            let em = match ElementMatcher::compile(operand) {
                Result::Ok(em) => em,
                Result::Err(e) => {
                    return Result::Err(e);
                },
            };
            let built = BranchedMatcher::Element {
                matcher: em,
                dont_expand_leaf_arrays: false,
                dont_include_leaf_arrays: false,
            };
            proof {
                assert(op_ok(key@, operand@, obj_view(*obj_fields)));
                assert(op_rep(built, key@, operand@, obj_view(*obj_fields)));
            }
            Result::Ok(built)
        } else if is_ne {
            let em = match ElementMatcher::compile(operand) {
                Result::Ok(em) => em,
                Result::Err(e) => {
                    return Result::Err(e);
                },
            };
            let built = BranchedMatcher::Invert(Box::new(BranchedMatcher::Element {
                matcher: em,
                dont_expand_leaf_arrays: false,
                dont_include_leaf_arrays: false,
            }));
            proof {
                assert(op_ok(key@, operand@, obj_view(*obj_fields)));
                assert(built matches BranchedMatcher::Invert(b) && bm_is_element(
                    *b,
                    false,
                    false,
                ) && el_represents(bm_element_of(*b), operand@));
                assert(op_rep(built, key@, operand@, obj_view(*obj_fields)));
                assert(bm_wf(*built->Invert_0));
                assert(bm_wf(built));
            }
            return Result::Ok(built);
        } else if is_exists {
            let base = BranchedMatcher::Element {
                matcher: ElementMatcher::Exists,
                dont_expand_leaf_arrays: false,
                dont_include_leaf_arrays: false,
            };
            match operand {
                Value::Bool(true) => {
                    return Result::Ok(base);
                },
                _ => {
                    let built = BranchedMatcher::Invert(Box::new(base));
                    proof {
                        assert(bm_wf(*built->Invert_0));
                        assert(bm_wf(built));
                    }
                    return Result::Ok(built);
                },
            }
        } else if is_gt || is_gte || is_lt || is_lte {
            let (ordering, is_negated) = if is_gt {
                (Ordering::Greater, false)
            } else if is_gte {
                (Ordering::Less, true)
            } else if is_lt {
                (Ordering::Less, false)
            } else {
                (Ordering::Greater, true)
            };
            return Result::Ok(BranchedMatcher::Element {
                matcher: ElementMatcher::Order {
                    selector: operand.clone(),
                    ordering,
                    is_negated,
                },
                dont_expand_leaf_arrays: false,
                dont_include_leaf_arrays: false,
            });
        } else if is_mod {
            let elems = match operand {
                Value::Array(elems) => elems,
                _ => {
                    proof {
                        assert(key@ == "$mod"@);
                        assert(!(key@ == "$all"@ || key@ == "$in"@ || key@ == "$nin"@));
                        assert(!(key@ == "$eq"@ || key@ == "$ne"@));
                        assert(!(key@ == "$exists"@ || key@ == "$gt"@ || key@ == "$gte"@
                            || key@ == "$lt"@ || key@ == "$lte"@));
                        assert(!(operand@ is Array));
                        assert(!op_ok(key@, operand@, obj_view(*obj_fields)));
                    }
                    return Result::Err(MatchError::ExpectedArray);
                },
            };
            if elems.len() != 2 {
                return Result::Err(MatchError::BadMod);
            }
            proof {
                assert(arr_view(*elems)[0] == elems@[0]@);
                assert(arr_view(*elems)[1] == elems@[1]@);
            }
            let div = match mod_operand(&elems[0]) {
                Option::Some(div) => div,
                Option::None => {
                    return Result::Err(MatchError::BadMod);
                },
            };
            let rem = match mod_operand(&elems[1]) {
                Option::Some(rem) => rem,
                Option::None => {
                    return Result::Err(MatchError::BadMod);
                },
            };
            return Result::Ok(BranchedMatcher::Element {
                matcher: ElementMatcher::Mod(div, rem),
                dont_expand_leaf_arrays: false,
                dont_include_leaf_arrays: false,
            });
        } else if is_not {
            let inner = match Self::compile_value_selector(operand, false) {
                Result::Ok(inner) => inner,
                Result::Err(e) => {
                    return Result::Err(e);
                },
            };
            let ghost ginner = inner;
            let bm = inner.invert();
            proof {
                assert(vs_rep(ginner, operand@, false) && bm_inverts(bm, ginner));
            }
            return Result::Ok(bm);
        } else if is_regex_op {
            let (pattern, default_options) = if is_regex_shape(operand) {
                regex_parts(operand)
            } else {
                match operand {
                    Value::Text(s) => (s.clone(), String::new()),
                    _ => {
                        return Result::Err(MatchError::BadRegex);
                    },
                }
            };
            let options = match obj_get(obj_fields, "$options") {
                Option::Some(o) => match o {
                    Value::Text(s) => s.clone(),
                    _ => {
                        return Result::Err(MatchError::BadOptions);
                    },
                },
                Option::None => default_options,
            };
            let em = match regex_element(pattern, options) {
                Result::Ok(em) => em,
                Result::Err(e) => {
                    return Result::Err(e);
                },
            };
            return Result::Ok(BranchedMatcher::Element {
                matcher: em,
                dont_expand_leaf_arrays: false,
                dont_include_leaf_arrays: false,
            });
        } else if is_options {
            match obj_get(obj_fields, "$regex") {
                Option::Some(_) => {
                    let built = BranchedMatcher::Invert(Box::new(BranchedMatcher::Never));
                    proof {
                        assert(op_ok(key@, operand@, obj_view(*obj_fields)));
                        assert(built matches BranchedMatcher::Invert(b) && *b is Never);
                        assert(op_rep(built, key@, operand@, obj_view(*obj_fields)));
                        assert(bm_wf(*built->Invert_0));
                        assert(bm_wf(built));
                    }
                    return Result::Ok(built);
                },
                Option::None => {
                    return Result::Err(MatchError::UnsupportedOperator);
                },
            }
        } else if is_size {
            let n = match operand {
                Value::Number(Number::Int(n)) => *n,
                _ => {
                    return Result::Err(MatchError::BadSize);
                },
            };
            if n < 0 {
                return Result::Err(MatchError::BadSize);
            }
            if (n as u64) > (usize::MAX as u64) {
                return Result::Err(MatchError::BadSize);
            }
            return Result::Ok(BranchedMatcher::Element {
                matcher: ElementMatcher::Size(n as usize),
                dont_expand_leaf_arrays: true,
                dont_include_leaf_arrays: false,
            });
        } else if is_type {
            let code = match type_code_of(operand) {
                Option::Some(code) => code,
                Option::None => {
                    return Result::Err(MatchError::BadType);
                },
            };
            return Result::Ok(BranchedMatcher::Element {
                matcher: ElementMatcher::Type(code),
                dont_expand_leaf_arrays: false,
                dont_include_leaf_arrays: true,
            });
        } else {
            proof {
                assert(key@ != "$all"@ && key@ != "$in"@ && key@ != "$nin"@);
                assert(key@ != "$eq"@ && key@ != "$ne"@ && key@ != "$exists"@);
                assert(key@ != "$gt"@ && key@ != "$gte"@ && key@ != "$lt"@ && key@ != "$lte"@);
                assert(key@ != "$mod"@ && key@ != "$not"@ && key@ != "$regex"@);
                assert(key@ != "$options"@ && key@ != "$size"@ && key@ != "$type"@);
                assert(!op_ok(key@, operand@, obj_view(*obj_fields)));
            }
            Result::Err(MatchError::UnsupportedOperator)
        }
    }

    /// Compiles a value sub-selector.
    #[verifier::loop_isolation(false)]
    fn compile_value_selector(selector: &Value, is_root: bool) -> (r: Result<
        BranchedMatcher,
        MatchError,
    >)
        ensures
            match r {
                Result::Ok(bm) => vs_ok(selector@, is_root) && vs_rep(bm, selector@, is_root)
                    && bm_wf(bm),
                Result::Err(_) => !vs_ok(selector@, is_root),
            },
        decreases selector, 1int,
    {
        if is_regex_shape(selector) {
            let (pattern, options) = regex_parts(selector);
            let em = match regex_element(pattern, options) {
                Result::Ok(em) => em,
                Result::Err(e) => {
                    return Result::Err(e);
                },
            };
            return Result::Ok(BranchedMatcher::Element {
                matcher: em,
                dont_expand_leaf_arrays: false,
                dont_include_leaf_arrays: false,
            });
        }
        if is_operator_object(selector) {
            let fields = match selector {
                Value::Object(fields) => fields,
                _ => unreached(),
            };
            let mut out: Vec<BranchedMatcher> = Vec::new();
            let mut i: usize = 0;
            while i < fields.len()
                invariant
                    i <= fields@.len(),
                    out@.len() == i,
                    forall|j: int|
                        0 <= j < i ==> op_ok(
                            (#[trigger] obj_view(*fields)[j]).0,
                            obj_view(*fields)[j].1,
                            obj_view(*fields),
                        ),
                    forall|j: int|
                        0 <= j < i ==> op_rep(
                            #[trigger] out@[j],
                            obj_view(*fields)[j].0,
                            obj_view(*fields)[j].1,
                            obj_view(*fields),
                        ) && bm_wf(out@[j]),
                decreases fields@.len() - i,
            {
                proof {
                    assert(decreases_to!(*selector => *fields));
                    assert(decreases_to!(*fields => fields@));
                    assert(decreases_to!(fields@ => fields@[i as int]));
                    assert(decreases_to!(fields@[i as int] => fields@[i as int].1));
                    assert(obj_view(*fields)[i as int] == (fields@[i as int].0@, fields@[
                        i as int].1@));
                }
                let (op, sub) = &fields[i];
                let bm = match Self::compile_operator(op.as_str(), sub, fields, is_root) {
                    Result::Ok(bm) => bm,
                    Result::Err(e) => {
                        return Result::Err(e);
                    },
                };
                out.push(bm);
                i = i + 1;
            }
            proof {
                lemma_bm_all_wf(out@);
            }
            let ghost gbs = out@;
            let bm = Self::all(out);
            proof {
                assert(op_list_rep(gbs, selector@->Object_0, selector@->Object_0)
                    && bm_collapses_all(bm, gbs));
            }
            return Result::Ok(bm);
        }
        let em = match ElementMatcher::compile(selector) {
            Result::Ok(em) => em,
            Result::Err(e) => {
                return Result::Err(e);
            },
        };
        Result::Ok(BranchedMatcher::Element {
            matcher: em,
            dont_expand_leaf_arrays: false,
            dont_include_leaf_arrays: false,
        })
    }
}

/// Wraps a matcher list in a conjunction.
fn wrap_doc_all(list: Vec<DocumentMatcher>) -> (r: DocumentMatcher)
    ensures
        r == DocumentMatcher::All(list),
{
    DocumentMatcher::All(list)
}

/// Wraps a matcher list in a disjunction.
fn wrap_doc_any(list: Vec<DocumentMatcher>) -> (r: DocumentMatcher)
    ensures
        r == DocumentMatcher::Any(list),
{
    DocumentMatcher::Any(list)
}

proof fn lemma_dlist_snoc_comment(
    ms: Seq<DocumentMatcher>,
    fields: Seq<(Seq<char>, SpecValue)>,
    i: int,
    in_elem: bool,
    is_root: bool,
)
    requires
        0 <= i < fields.len(),
        dlist_rep(ms, fields.take(i), in_elem, is_root),
        fields[i].0 == "$comment"@,
    ensures
        dlist_rep(ms, fields.take(i + 1), in_elem, is_root),
    decreases i + 1,
{
    if i == 0 {
        assert(fields.take(1)[0] == fields[0]);
        assert(fields.take(1).skip(1) =~= Seq::<(Seq<char>, SpecValue)>::empty());
        assert(fields.take(0) =~= Seq::<(Seq<char>, SpecValue)>::empty());
    } else {
        assert(fields.take(i).skip(1) =~= fields.skip(1).take(i - 1));
        assert(fields.take(i + 1).skip(1) =~= fields.skip(1).take(i));
        assert(fields.skip(1)[i - 1] == fields[i]);
        assert(fields.take(i + 1)[0] == fields[0]);
        assert(fields.take(i)[0] == fields[0]);
        if fields.take(i)[0].0 == "$comment"@ {
            lemma_dlist_snoc_comment(ms, fields.skip(1), i - 1, in_elem, is_root);
        } else {
            lemma_dlist_snoc_comment(ms.skip(1), fields.skip(1), i - 1, in_elem, is_root);
            assert(dlist_rep(ms, fields.take(i + 1), in_elem, is_root));
        }
    }
}

proof fn lemma_dlist_snoc_entry(
    ms: Seq<DocumentMatcher>,
    fields: Seq<(Seq<char>, SpecValue)>,
    i: int,
    m: DocumentMatcher,
    in_elem: bool,
    is_root: bool,
)
    requires
        0 <= i < fields.len(),
        dlist_rep(ms, fields.take(i), in_elem, is_root),
        fields[i].0 != "$comment"@,
        dentry_rep(m, fields[i].0, fields[i].1, in_elem, is_root),
    ensures
        dlist_rep(ms.push(m), fields.take(i + 1), in_elem, is_root),
    decreases i + 1,
{
    if i == 0 {
        assert(ms.len() == 0);
        assert(fields.take(1)[0] == fields[0]);
        assert(ms.push(m)[0] == m);
        assert(ms.push(m).skip(1) =~= Seq::<DocumentMatcher>::empty());
        assert(fields.take(1).skip(1) =~= Seq::<(Seq<char>, SpecValue)>::empty());
        assert(fields.take(0) =~= Seq::<(Seq<char>, SpecValue)>::empty());
        assert(ms.push(m).len() > 0);
        assert(dlist_rep(ms.push(m).skip(1), fields.take(1).skip(1), in_elem, is_root));
        assert(dlist_rep(ms.push(m), fields.take(1), in_elem, is_root));
    } else {
        assert(fields.take(i + 1)[0] == fields[0]);
        assert(fields.take(i)[0] == fields[0]);
        assert(fields.take(i).skip(1) =~= fields.skip(1).take(i - 1));
        assert(fields.take(i + 1).skip(1) =~= fields.skip(1).take(i));
        assert(fields.skip(1)[i - 1] == fields[i]);
        if fields[0].0 == "$comment"@ {
            lemma_dlist_snoc_entry(ms, fields.skip(1), i - 1, m, in_elem, is_root);
            assert(dlist_rep(ms.push(m), fields.skip(1).take(i), in_elem, is_root));
            assert(dlist_rep(ms.push(m), fields.take(i + 1), in_elem, is_root));
        } else {
            assert(ms.len() > 0);
            assert(ms.push(m)[0] == ms[0]);
            assert(ms.push(m).skip(1) =~= ms.skip(1).push(m));
            lemma_dlist_snoc_entry(ms.skip(1), fields.skip(1), i - 1, m, in_elem, is_root);
            assert(dlist_rep(ms.push(m), fields.take(i + 1), in_elem, is_root));
        }
    }
}

impl DocumentMatcher {
    /// Collapses a matcher list into a conjunction.
    pub fn all(matchers: Vec<DocumentMatcher>) -> (r: DocumentMatcher)
        ensures
            dm_collapses_all(r, matchers@),
            dm_all_wf(matchers@) ==> dm_wf(r),
    {
        proof {
            lemma_dm_all_wf(matchers@);
        }
        let ghost ms = matchers@;
        let r = one_or_wrap(matchers, wrap_doc_all);
        proof {
            if ms.len() != 1 {
                assert(r is All && r->All_0@ == ms);
            }
        }
        r
    }

    /// Collapses a matcher list into a disjunction.
    pub fn any(matchers: Vec<DocumentMatcher>) -> (r: DocumentMatcher)
        ensures
            dm_collapses_any(r, matchers@),
            dm_all_wf(matchers@) ==> dm_wf(r),
    {
        proof {
            lemma_dm_all_wf(matchers@);
        }
        let ghost ms = matchers@;
        let r = one_or_wrap(matchers, wrap_doc_any);
        proof {
            if ms.len() != 1 {
                assert(r is Any && r->Any_0@ == ms);
            }
        }
        r
    }

    /// Wraps a matcher in an inversion.
    pub fn invert(self) -> (r: DocumentMatcher)
        ensures
            r is Invert && *r->Invert_0 == self,
            dm_wf(self) ==> dm_wf(r),
    {
        let r = DocumentMatcher::Invert(Box::new(self));
        proof {
            if dm_wf(*r->Invert_0) {
                assert(dm_wf(r));
            }
        }
        r
    }

    /// Compiles the elements of a logical operator's array: each must be a
    /// selector document.
    #[verifier::loop_isolation(false)]
    fn compile_many(selector: &Value, is_in_elem_match: bool) -> (r: Result<
        Vec<DocumentMatcher>,
        MatchError,
    >)
        ensures
            match r {
                Result::Ok(ms) => many_ok(selector@, is_in_elem_match) && many_rep(
                    ms@,
                    selector@,
                    is_in_elem_match,
                ) && dm_all_wf(ms@),
                Result::Err(_) => !many_ok(selector@, is_in_elem_match),
            },
        decreases selector, 1int,
    {
        let elems = match selector {
            Value::Array(elems) => elems,
            _ => {
                return Result::Err(MatchError::ExpectedArray);
            },
        };
        if elems.len() == 0 {
            return Result::Err(MatchError::EmptyArray);
        }
        let mut out: Vec<DocumentMatcher> = Vec::new();
        let mut i: usize = 0;
        while i < elems.len()
            invariant
                i <= elems@.len(),
                out@.len() == i,
                forall|j: int|
                    0 <= j < i ==> (#[trigger] arr_view(*elems)[j]) is Object && dfields_ok(
                        arr_view(*elems)[j]->Object_0,
                        is_in_elem_match,
                        false,
                    ),
                forall|j: int|
                    0 <= j < i ==> dm_doc_rep(
                        #[trigger] out@[j],
                        arr_view(*elems)[j]->Object_0,
                        is_in_elem_match,
                        false,
                    ) && dm_wf(out@[j]),
            decreases elems@.len() - i,
        {
            proof {
                assert(decreases_to!(*selector => *elems));
                assert(decreases_to!(*elems => elems@));
                assert(decreases_to!(elems@ => elems@[i as int]));
                assert(arr_view(*elems)[i as int] == elems@[i as int]@);
            }
            let fields = match &elems[i] {
                Value::Object(fields) => fields,
                _ => {
                    return Result::Err(MatchError::ExpectedDocument);
                },
            };
            proof {
                assert(decreases_to!(elems@[i as int] => elems@[i as int]->Object_0));
            }
            let m = match Self::compile_inner(fields, is_in_elem_match, false) {
                Result::Ok(m) => m,
                Result::Err(e) => {
                    return Result::Err(e);
                },
            };
            out.push(m);
            i = i + 1;
        }
        proof {
            lemma_dm_all_wf(out@);
        }
        Result::Ok(out)
    }

    /// Compiles one logical operator entry.
    #[verifier::loop_isolation(false)]
    fn compile_logical_operator(operator: &str, selector: &Value, is_in_elem_match: bool) -> (r:
        Result<DocumentMatcher, MatchError>)
        requires
            spec_is_op_key(operator@),
        ensures
            match r {
                Result::Ok(m) => logical_ok(operator@, selector@, is_in_elem_match)
                    && logical_rep(m, operator@, selector@, is_in_elem_match) && dm_wf(m),
                Result::Err(_) => !logical_ok(operator@, selector@, is_in_elem_match),
            },
        decreases selector, 2int,
    {
        proof {
            reveal_strlit("$and");
            reveal_strlit("$or");
            reveal_strlit("$nor");
        }
        let is_and = str_eq(operator, "$and");
        let is_or = str_eq(operator, "$or");
        let is_nor = str_eq(operator, "$nor");
        if is_and {
            let ms = match Self::compile_many(selector, is_in_elem_match) {
                Result::Ok(ms) => ms,
                Result::Err(e) => {
                    return Result::Err(e);
                },
            };
            let ghost gms = ms@;
            let m = Self::all(ms);
            proof {
                assert(many_rep(gms, selector@, is_in_elem_match) && dm_collapses_all(m, gms));
            }
            Result::Ok(m)
        } else if is_or {
            let ms = match Self::compile_many(selector, is_in_elem_match) {
                Result::Ok(ms) => ms,
                Result::Err(e) => {
                    return Result::Err(e);
                },
            };
            let ghost gms = ms@;
            let m = Self::any(ms);
            proof {
                assert(many_rep(gms, selector@, is_in_elem_match) && dm_collapses_any(m, gms));
            }
            Result::Ok(m)
        } else if is_nor {
            let ms = match Self::compile_many(selector, is_in_elem_match) {
                Result::Ok(ms) => ms,
                Result::Err(e) => {
                    return Result::Err(e);
                },
            };
            let ghost gms = ms@;
            let inner = Self::any(ms);
            proof {
                assert(many_rep(gms, selector@, is_in_elem_match) && dm_collapses_any(
                    inner,
                    gms,
                ));
            }
            let m = inner.invert();
            Result::Ok(m)
        } else {
            Result::Err(MatchError::UnsupportedOperator)
        }
    }

    /// Compiles a selector document's fields.
    #[verifier::loop_isolation(false)]
    fn compile_inner(
        selector: &Vec<(String, Value)>,
        is_in_elem_match: bool,
        is_root: bool,
    ) -> (r: Result<DocumentMatcher, MatchError>)
        ensures
            match r {
                Result::Ok(m) => dfields_ok(obj_view(*selector), is_in_elem_match, is_root)
                    && dm_doc_rep(m, obj_view(*selector), is_in_elem_match, is_root) && dm_wf(m),
                Result::Err(_) => !dfields_ok(obj_view(*selector), is_in_elem_match, is_root),
            },
        decreases selector, 3int,
    {
        proof {
            reveal_strlit("$comment");
        }
        let ghost gfields = obj_view(*selector);
        let mut out: Vec<DocumentMatcher> = Vec::new();
        let mut i: usize = 0;
        proof {
            assert(gfields.take(0) =~= Seq::<(Seq<char>, SpecValue)>::empty());
        }
        while i < selector.len()
            invariant
                i <= selector@.len(),
                dlist_rep(out@, gfields.take(i as int), is_in_elem_match, is_root),
                forall|j: int|
                    0 <= j < i ==> {
                        let key = (#[trigger] gfields[j]).0;
                        let sub = gfields[j].1;
                        key == "$comment"@ || (if spec_is_op_key(key) {
                            logical_ok(key, sub, is_in_elem_match)
                        } else {
                            vs_ok(sub, is_root)
                        })
                    },
                forall|j: int| 0 <= j < out@.len() ==> dm_wf(#[trigger] out@[j]),
            decreases selector@.len() - i,
        {
            proof {
                assert(gfields[i as int] == (selector@[i as int].0@, selector@[i as int].1@));
                assert(decreases_to!(*selector => selector@));
                assert(decreases_to!(selector@ => selector@[i as int]));
                assert(decreases_to!(selector@[i as int] => selector@[i as int].1));
            }
            let (key, sub) = &selector[i];
            if str_eq(key.as_str(), "$comment") {
                proof {
                    lemma_dlist_snoc_comment(
                        out@,
                        gfields,
                        i as int,
                        is_in_elem_match,
                        is_root,
                    );
                }
                i = i + 1;
                continue;
            }
            let m = if is_op_key(key.as_str()) {
                match Self::compile_logical_operator(key.as_str(), sub, is_in_elem_match) {
                    Result::Ok(m) => m,
                    Result::Err(e) => {
                        return Result::Err(e);
                    },
                }
            } else {
                let bm = match BranchedMatcher::compile_value_selector(sub, is_root) {
                    Result::Ok(bm) => bm,
                    Result::Err(e) => {
                        return Result::Err(e);
                    },
                };
                let lookup = Lookup::new(key.clone(), false);
                DocumentMatcher::Lookup { lookup, matcher: bm }
            };
            proof {
                assert(dentry_rep(
                    m,
                    gfields[i as int].0,
                    gfields[i as int].1,
                    is_in_elem_match,
                    is_root,
                ));
                lemma_dlist_snoc_entry(
                    out@,
                    gfields,
                    i as int,
                    m,
                    is_in_elem_match,
                    is_root,
                );
            }
            out.push(m);
            i = i + 1;
        }
        proof {
            assert(gfields.take(selector@.len() as int) =~= gfields);
            lemma_dm_all_wf(out@);
        }
        let ghost gms = out@;
        let m = Self::all(out);
        proof {
            assert(dlist_rep(gms, gfields, is_in_elem_match, is_root) && dm_collapses_all(
                m,
                gms,
            ));
        }
        Result::Ok(m)
    }

    /// Compiles a selector document: every key is either a logical
    /// operator or a path with a value sub-selector, and `$comment` is
    /// ignored.
    pub fn compile(selector: &Vec<(String, Value)>) -> (r: Result<DocumentMatcher, MatchError>)
        ensures
            match r {
                Result::Ok(m) => dfields_ok(obj_view(*selector), false, true) && dm_doc_rep(
                    m,
                    obj_view(*selector),
                    false,
                    true,
                ) && dm_wf(m),
                Result::Err(_) => !dfields_ok(obj_view(*selector), false, true),
            },
    {
        Self::compile_inner(selector, false, true)
    }
}

/// For a selector with one dot-free path and one literal scalar, a
/// document matches exactly when it carries that field with an equal
/// value, or with an array holding an equal element.
pub proof fn lemma_literal_scalar_matches(
    m: DocumentMatcher,
    k: Seq<char>,
    v: SpecValue,
    fields: Seq<(Seq<char>, SpecValue)>,
)
    requires
        dm_doc_rep(m, seq![(k, v)], false, true),
        !spec_is_op_key(k),
        crate::lookup::spec_find_char(k, '.') is None,
        v is Bool || v is Number || v is Text,
    ensures
        spec_doc_matches(m, SpecValue::Object(fields)) <==> (match spec_obj_get(fields, k) {
            Option::Some(fv) => spec_cmp_value(v, fv) == Ordering::Equal || (fv is Array
                && exists|i: int|
                0 <= i < fv->Array_0.len() && spec_cmp_value(v, #[trigger] fv->Array_0[i])
                    == Ordering::Equal),
            Option::None => false,
        }),
{
    let sel: Seq<(Seq<char>, SpecValue)> = seq![(k, v)];
    let ms = choose|ms: Seq<DocumentMatcher>|
        dlist_rep(ms, sel, false, true) && dm_collapses_all(m, ms);
    assert(sel[0] == (k, v));
    assert(sel.skip(1) =~= Seq::<(Seq<char>, SpecValue)>::empty());
    assert(k != "$comment"@) by {
        reveal_strlit("$comment");
    }
    assert(ms.len() == 1 && dentry_rep(ms[0], k, v, false, true));
    let m0 = ms[0];
    assert(m == m0);
    let lk = m0->Lookup_lookup;
    let bm = m0->Lookup_matcher;
    assert(crate::lookup::path_of(lk) == crate::lookup::spec_split_key(k));
    assert(crate::lookup::spec_split_key(k) =~= seq![k]);
    assert(crate::lookup::path_of(lk)[0] == lk.key@);
    assert(lk.key@ == k);
    assert(lk.rest is None) by {
        if lk.rest is Some {
            assert(crate::lookup::path_of(*lk.rest->Some_0).len() >= 1);
            assert(crate::lookup::path_of(lk).len() >= 2);
        }
    }
    assert(!spec_regex_shape(v) && !spec_is_operator_object(v));
    assert(bm_is_element(bm, false, false) && el_represents(bm_element_of(bm), v));
    let em = bm_element_of(bm);
    assert(em matches ElementMatcher::Value(sv) && sv@ == v);
    let d = SpecValue::Object(fields);
    let branches = spec_lookup(lk, d);
    let value_head = spec_obj_get(fields, k);
    assert(branches =~= seq![
        crate::lookup::SpecBranch { value: value_head, dont_iterate: false },
    ]);
    assert(branches.skip(1) =~= Seq::<crate::lookup::SpecBranch>::empty());
    assert(spec_expand(branches.skip(1), false) =~= Seq::<crate::lookup::SpecBranch>::empty());
    let expanded = spec_expand(branches, false);
    assert(spec_doc_matches(m, d) == spec_any_element(em, expanded));
    match value_head {
        Option::None => {
            assert(expanded =~= branches);
            assert(!spec_element_matches(em, Option::None));
            assert(!spec_any_element(em, expanded));
        },
        Option::Some(fv) => {
            if fv is Array {
                let elems = fv->Array_0;
                assert(expanded =~= seq![branches[0]] + Seq::new(elems.len(), |i: int|
                    if 0 <= i < elems.len() {
                        crate::lookup::SpecBranch {
                            value: Option::Some(elems[i]),
                            dont_iterate: false,
                        }
                    } else {
                        crate::lookup::SpecBranch { value: Option::None, dont_iterate: false }
                    }));
                assert(!spec_element_matches(em, Option::Some(fv))) by {
                    assert(spec_value_type(v) != spec_value_type(fv));
                    assert(crate::sorter::spec_type_order(spec_value_type(v))
                        != crate::sorter::spec_type_order(spec_value_type(fv)));
                }
                if exists|i: int|
                    0 <= i < elems.len() && spec_cmp_value(v, #[trigger] elems[i])
                        == Ordering::Equal {
                    let i = choose|i: int|
                        0 <= i < elems.len() && spec_cmp_value(v, #[trigger] elems[i])
                            == Ordering::Equal;
                    assert(expanded[i + 1].value == Option::Some(elems[i]));
                    assert(spec_element_matches(em, expanded[i + 1].value));
                    assert(spec_any_element(em, expanded));
                }
                if spec_any_element(em, expanded) {
                    let j = choose|j: int|
                        0 <= j < expanded.len() && spec_element_matches(
                            em,
                            #[trigger] expanded[j].value,
                        );
                    if j == 0 {
                        assert(false);
                    } else {
                        assert(expanded[j].value == Option::Some(elems[j - 1]));
                        assert(spec_cmp_value(v, elems[j - 1]) == Ordering::Equal);
                    }
                }
            } else {
                assert(expanded =~= branches);
                assert(spec_any_element(em, expanded) == spec_element_matches(
                    em,
                    Option::Some(fv),
                )) by {
                    if spec_element_matches(em, Option::Some(fv)) {
                        assert(expanded[0].value == Option::Some(fv));
                    }
                }
            }
        },
    }
}

} // verus!
