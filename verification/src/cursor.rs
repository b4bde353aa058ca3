//! The live-query engine: a cursor holds the filtered, projected, sorted
//! and optionally bounded document set for one query description,
//! consumes change events, and hands its callers the mergebox operations
//! each event implies.

use vstd::prelude::*;
use crate::value::{
    lemma_obj_view, lemma_view_unfold, obj_keys_unique, obj_view, spec_obj_get, str_eq, value_eq,
    Number, SpecValue, Value,
};
use crate::matcher::{dfields_ok, dm_doc_rep, dm_wf, DocumentMatcher};
use crate::projector::{spec_compile_projection, Projector, TreeModel};
use crate::sorter::{sorter_represents, spec_compile_sort, spec_sorter_cmp, Sorter};

verus! {

broadcast use lemma_view_unfold, lemma_obj_view;

/// Why a description does not parse.
#[derive(Clone, Copy, Debug, PartialEq, Eq, Structural)]
pub enum DescError {
    /// The description is not an object of the required shape.
    BadShape,
    /// An unknown key stands in the description or its options.
    UnknownKey,
    /// A known key holds a value of the wrong type.
    BadField,
}

/// What a cursor watches: a collection, a selector, and the query
/// options.
#[derive(Debug)]
pub struct CursorDescription {
    pub collection: String,
    pub disable_oplog: bool,
    pub limit: Option<i64>,
    pub polling_interval_ms: Option<u64>,
    pub projection: Option<Vec<(String, Value)>>,
    pub selector: Vec<(String, Value)>,
    pub skip: Option<u64>,
    pub sort: Option<Vec<(String, Value)>>,
}

impl CursorDescription {
    /// The effective document limit: the magnitude of the signed wire
    /// value.
    pub fn limit(&self) -> (r: Option<usize>)
        ensures
            r == spec_limit_of(self.limit),
    {
        match self.limit {
            Option::Some(limit) => {
                let mag: u64 = if limit < 0 {
                    if limit == i64::MIN {
                        0x8000_0000_0000_0000u64
                    } else {
                        (-limit) as u64
                    }
                } else {
                    limit as u64
                };
                if mag > usize::MAX as u64 {
                    Option::Some(usize::MAX)
                } else {
                    Option::Some(mag as usize)
                }
            },
            Option::None => Option::None,
        }
    }
}

/// The effective document limit of a wire limit value: its magnitude,
/// clamped to the address range.
pub open spec fn spec_limit_of(limit: Option<i64>) -> Option<usize> {
    match limit {
        Option::Some(l) => {
            let mag = if l < 0 {
                -(l as int)
            } else {
                l as int
            };
            if mag > usize::MAX {
                Option::Some(usize::MAX)
            } else {
                Option::Some(mag as usize)
            }
        },
        Option::None => Option::None,
    }
}

/// Structural equality of two descriptions.
pub open spec fn spec_desc_eq(a: CursorDescription, b: CursorDescription) -> bool {
    &&& a.collection@ == b.collection@
    &&& a.disable_oplog == b.disable_oplog
    &&& a.limit == b.limit
    &&& a.polling_interval_ms == b.polling_interval_ms
    &&& (match (a.projection, b.projection) {
        (Option::Some(x), Option::Some(y)) => obj_view(x) == obj_view(y),
        (Option::None, Option::None) => true,
        _ => false,
    })
    &&& obj_view(a.selector) == obj_view(b.selector)
    &&& a.skip == b.skip
    &&& (match (a.sort, b.sort) {
        (Option::Some(x), Option::Some(y)) => obj_view(x) == obj_view(y),
        (Option::None, Option::None) => true,
        _ => false,
    })
}

/// Compares two plain documents structurally.
#[verifier::loop_isolation(false)]
pub fn doc_eq(a: &Vec<(String, Value)>, b: &Vec<(String, Value)>) -> (r: bool)
    ensures
        r == (obj_view(*a) == obj_view(*b)),
{
    if a.len() != b.len() {
        proof {
            assert(obj_view(*a).len() != obj_view(*b).len());
        }
        return false;
    }
    let mut i: usize = 0;
    while i < a.len()
        invariant
            i <= a@.len(),
            a@.len() == b@.len(),
            forall|j: int| 0 <= j < i ==> obj_view(*a)[j] == obj_view(*b)[j],
        decreases a@.len() - i,
    {
        if !str_eq(a[i].0.as_str(), b[i].0.as_str()) {
            proof {
                assert(obj_view(*a)[i as int].0 != obj_view(*b)[i as int].0);
            }
            return false;
        }
        if !value_eq(&a[i].1, &b[i].1) {
            proof {
                assert(obj_view(*a)[i as int].1 != obj_view(*b)[i as int].1);
            }
            return false;
        }
        i = i + 1;
    }
    proof {
        assert(obj_view(*a) =~= obj_view(*b));
    }
    true
}

/// Compares two optional documents structurally.
fn opt_doc_eq(a: &Option<Vec<(String, Value)>>, b: &Option<Vec<(String, Value)>>) -> (r: bool)
    ensures
        r == (match (a, b) {
            (Option::Some(x), Option::Some(y)) => obj_view(*x) == obj_view(*y),
            (Option::None, Option::None) => true,
            _ => false,
        }),
{
    match (a, b) {
        (Option::Some(x), Option::Some(y)) => doc_eq(x, y),
        (Option::None, Option::None) => true,
        _ => false,
    }
}

impl CursorDescription {
    /// Structural equality of two descriptions, as the registry
    /// deduplicates them.
    pub fn is_same_query(&self, other: &CursorDescription) -> (r: bool)
        ensures
            r == spec_desc_eq(*self, *other),
    {
        str_eq(self.collection.as_str(), other.collection.as_str()) && self.disable_oplog
            == other.disable_oplog && opt_i64_eq(&self.limit, &other.limit) && opt_u64_eq(
            &self.polling_interval_ms,
            &other.polling_interval_ms,
        ) && opt_doc_eq(&self.projection, &other.projection) && doc_eq(
            &self.selector,
            &other.selector,
        ) && opt_u64_eq(&self.skip, &other.skip) && opt_doc_eq(&self.sort, &other.sort)
    }
}

/// Compares two optional signed values.
fn opt_i64_eq(a: &Option<i64>, b: &Option<i64>) -> (r: bool)
    ensures
        r == (a == b),
{
    match (a, b) {
        (Option::Some(x), Option::Some(y)) => x == y,
        (Option::None, Option::None) => true,
        _ => false,
    }
}

/// Compares two optional unsigned values.
fn opt_u64_eq(a: &Option<u64>, b: &Option<u64>) -> (r: bool)
    ensures
        r == (a == b),
{
    match (a, b) {
        (Option::Some(x), Option::Some(y)) => x == y,
        (Option::None, Option::None) => true,
        _ => false,
    }
}

/// One field of the wire options object, read by name: absent and null
/// both mean unset.
pub open spec fn spec_opt_field(opts: Seq<(Seq<char>, SpecValue)>, k: Seq<char>) -> Option<
    SpecValue,
> {
    match spec_obj_get(opts, k) {
        Option::Some(SpecValue::Null) => Option::None,
        other => other,
    }
}

/// Whether a wire description is well shaped: exactly a string
/// `collectionName`, an object `selector`, and an `options` object whose
/// keys are the known options with values of the right types.
pub open spec fn spec_desc_ok(v: SpecValue) -> bool {
    &&& v is Object
    &&& obj_keys_unique(v->Object_0)
    &&& spec_keys_known(v->Object_0, seq!["collectionName", "selector", "options"])
    &&& spec_obj_get(v->Object_0, "collectionName"@) matches Option::Some(c) && c is Text
    &&& spec_obj_get(v->Object_0, "selector"@) matches Option::Some(s) && s is Object
    &&& spec_obj_get(v->Object_0, "options"@) matches Option::Some(o) && o is Object
        && spec_options_ok(o->Object_0)
}

/// Whether a wire options object is well shaped.
pub open spec fn spec_options_ok(opts: Seq<(Seq<char>, SpecValue)>) -> bool {
    &&& obj_keys_unique(opts)
    &&& spec_keys_known(
        opts,
        seq![
            "disableOplog",
            "limit",
            "pollingIntervalMs",
            "projection",
            "skip",
            "sort",
            "transform",
        ],
    )
    &&& (match spec_opt_field(opts, "disableOplog"@) {
        Option::None => true,
        Option::Some(b) => b is Bool,
    })
    &&& (match spec_opt_field(opts, "limit"@) {
        Option::None => true,
        Option::Some(n) => n matches SpecValue::Number(Number::Int(_)),
    })
    &&& (match spec_opt_field(opts, "pollingIntervalMs"@) {
        Option::None => true,
        Option::Some(n) => n matches SpecValue::Number(Number::Int(x)) && x >= 0,
    })
    &&& (match spec_opt_field(opts, "projection"@) {
        Option::None => true,
        Option::Some(p) => p is Object,
    })
    &&& (match spec_opt_field(opts, "skip"@) {
        Option::None => true,
        Option::Some(n) => n matches SpecValue::Number(Number::Int(x)) && x >= 0,
    })
    &&& (match spec_opt_field(opts, "sort"@) {
        Option::None => true,
        Option::Some(p) => p is Object,
    })
    &&& spec_opt_field(opts, "transform"@) is None
}

/// What a parsed description holds of a well-shaped wire value: each
/// field read from the value's object, absent options left unset.
pub open spec fn spec_desc_matches(d: CursorDescription, v: SpecValue) -> bool {
    let top = v->Object_0;
    let opts = spec_obj_get(top, "options"@)->Some_0->Object_0;
    &&& Option::Some(SpecValue::Text(d.collection@)) == spec_obj_get(top, "collectionName"@)
    &&& Option::Some(SpecValue::Object(obj_view(d.selector))) == spec_obj_get(top, "selector"@)
    &&& d.disable_oplog == (spec_opt_field(opts, "disableOplog"@) == Option::Some(
        SpecValue::Bool(true),
    ))
    &&& (match d.limit {
        Option::Some(n) => spec_opt_field(opts, "limit"@) == Option::Some(
            SpecValue::Number(Number::Int(n)),
        ),
        Option::None => spec_opt_field(opts, "limit"@) is None,
    })
    &&& (match d.polling_interval_ms {
        Option::Some(n) => spec_opt_field(opts, "pollingIntervalMs"@) == Option::Some(
            SpecValue::Number(Number::Int(n as i64)),
        ),
        Option::None => spec_opt_field(opts, "pollingIntervalMs"@) is None,
    })
    &&& (match d.projection {
        Option::Some(p) => spec_opt_field(opts, "projection"@) == Option::Some(
            SpecValue::Object(obj_view(p)),
        ),
        Option::None => spec_opt_field(opts, "projection"@) is None,
    })
    &&& (match d.skip {
        Option::Some(n) => spec_opt_field(opts, "skip"@) == Option::Some(
            SpecValue::Number(Number::Int(n as i64)),
        ),
        Option::None => spec_opt_field(opts, "skip"@) is None,
    })
    &&& (match d.sort {
        Option::Some(p) => spec_opt_field(opts, "sort"@) == Option::Some(
            SpecValue::Object(obj_view(p)),
        ),
        Option::None => spec_opt_field(opts, "sort"@) is None,
    })
}

/// A description structurally equal to one matching a wire value matches
/// it too.
pub proof fn lemma_desc_eq_matches(a: CursorDescription, b: CursorDescription, v: SpecValue)
    requires
        spec_desc_eq(a, b),
        spec_desc_matches(b, v),
    ensures
        spec_desc_matches(a, v),
{
}

/// Reads one named field of an object value, treating null as absent.
#[verifier::loop_isolation(false)]
fn opt_field<'a>(fields: &'a Vec<(String, Value)>, k: &str) -> (r: Option<&'a Value>)
    ensures
        match r {
            Option::Some(v) => spec_opt_field(obj_view(*fields), k@) == Option::Some(v@),
            Option::None => spec_opt_field(obj_view(*fields), k@) is None,
        },
{
    match crate::value::obj_get(fields, k) {
        Option::Some(v) => {
            if v.is_null() {
                Option::None
            } else {
                Option::Some(v)
            }
        },
        Option::None => Option::None,
    }
}

impl CursorDescription {
    /// Parses a wire description. Unknown or repeated keys are rejected,
    /// as are fields of the wrong type; `transform` may only be null.
    #[verifier::loop_isolation(false)]
    pub fn parse(value: &Value) -> (r: Result<CursorDescription, DescError>)
        ensures
            r is Ok <==> spec_desc_ok(value@),
            r matches Result::Ok(d) ==> spec_desc_matches(d, value@),
    {
        proof {
            reveal_strlit("collectionName");
            reveal_strlit("selector");
            reveal_strlit("options");
            reveal_strlit("disableOplog");
            reveal_strlit("limit");
            reveal_strlit("pollingIntervalMs");
            reveal_strlit("projection");
            reveal_strlit("skip");
            reveal_strlit("sort");
            reveal_strlit("transform");
        }
        let top = match value {
            Value::Object(fields) => fields,
            _ => {
                return Result::Err(DescError::BadShape);
            },
        };
        if !keys_unique_and_known(top, &["collectionName", "selector", "options"]) {
            return Result::Err(DescError::UnknownKey);
        }
        let collection = match crate::value::obj_get(top, "collectionName") {
            Option::Some(Value::Text(s)) => s.clone(),
            _ => {
                return Result::Err(DescError::BadField);
            },
        };
        let selector = match crate::value::obj_get(top, "selector") {
            Option::Some(Value::Object(fields)) => crate::mergebox::clone_document(fields),
            _ => {
                return Result::Err(DescError::BadField);
            },
        };
        let opts = match crate::value::obj_get(top, "options") {
            Option::Some(Value::Object(fields)) => fields,
            _ => {
                return Result::Err(DescError::BadField);
            },
        };
        if !keys_unique_and_known(
            opts,
            &[
                "disableOplog",
                "limit",
                "pollingIntervalMs",
                "projection",
                "skip",
                "sort",
                "transform",
            ],
        ) {
            return Result::Err(DescError::UnknownKey);
        }
        let disable_oplog = match opt_field(opts, "disableOplog") {
            Option::Some(Value::Bool(b)) => *b,
            Option::None => false,
            _ => {
                return Result::Err(DescError::BadField);
            },
        };
        let limit = match opt_field(opts, "limit") {
            Option::Some(Value::Number(Number::Int(n))) => Option::Some(*n),
            Option::None => Option::None,
            _ => {
                return Result::Err(DescError::BadField);
            },
        };
        let polling_interval_ms = match opt_field(opts, "pollingIntervalMs") {
            Option::Some(Value::Number(Number::Int(n))) => {
                if *n < 0 {
                    return Result::Err(DescError::BadField);
                }
                Option::Some(*n as u64)
            },
            Option::None => Option::None,
            _ => {
                return Result::Err(DescError::BadField);
            },
        };
        let projection = match opt_field(opts, "projection") {
            Option::Some(Value::Object(fields)) => Option::Some(
                crate::mergebox::clone_document(fields),
            ),
            Option::None => Option::None,
            _ => {
                return Result::Err(DescError::BadField);
            },
        };
        let skip = match opt_field(opts, "skip") {
            Option::Some(Value::Number(Number::Int(n))) => {
                if *n < 0 {
                    return Result::Err(DescError::BadField);
                }
                Option::Some(*n as u64)
            },
            Option::None => Option::None,
            _ => {
                return Result::Err(DescError::BadField);
            },
        };
        let sort = match opt_field(opts, "sort") {
            Option::Some(Value::Object(fields)) => Option::Some(
                crate::mergebox::clone_document(fields),
            ),
            Option::None => Option::None,
            _ => {
                return Result::Err(DescError::BadField);
            },
        };
        match opt_field(opts, "transform") {
            Option::Some(_) => {
                return Result::Err(DescError::BadField);
            },
            Option::None => {},
        }
        Result::Ok(CursorDescription {
            collection,
            disable_oplog,
            limit,
            polling_interval_ms,
            projection,
            selector,
            skip,
            sort,
        })
    }
}

/// Whether a name is among the allowed names.
pub open spec fn spec_name_allowed(k: Seq<char>, allowed: Seq<&str>) -> bool
    decreases allowed.len(),
{
    if allowed.len() == 0 {
        false
    } else {
        k == allowed[0]@ || spec_name_allowed(k, allowed.skip(1))
    }
}

/// Every key of the object is among the allowed names.
pub open spec fn spec_keys_known(fields: Seq<(Seq<char>, SpecValue)>, allowed: Seq<&str>) -> bool
    decreases fields.len(),
{
    if fields.len() == 0 {
        true
    } else {
        spec_name_allowed(fields[0].0, allowed) && spec_keys_known(fields.skip(1), allowed)
    }
}

/// Checks that an object's keys are pairwise distinct and all among the
/// allowed names.
#[verifier::loop_isolation(false)]
fn keys_unique_and_known(fields: &Vec<(String, Value)>, allowed: &[&str]) -> (r: bool)
    ensures
        r == (obj_keys_unique(obj_view(*fields)) && spec_keys_known(obj_view(*fields), allowed@)),
{
    let ghost gf = obj_view(*fields);
    let mut i: usize = 0;
    proof {
        assert(gf.skip(0) =~= gf);
    }
    while i < fields.len()
        invariant
            i <= fields@.len(),
            forall|a: int, b: int| 0 <= a < b < i ==> (#[trigger] gf[a]).0 != (
            #[trigger] gf[b]).0,
            spec_keys_known(gf, allowed@) == spec_keys_known(gf.skip(i as int), allowed@),
        decreases fields@.len() - i,
    {
        proof {
            assert(gf.skip(i as int)[0] == gf[i as int]);
            assert(gf.skip(i as int).skip(1) =~= gf.skip(i as int + 1));
        }
        let mut known = false;
        let mut l: usize = 0;
        proof {
            assert(allowed@.skip(0) =~= allowed@);
        }
        while l < allowed.len()
            invariant
                l <= allowed@.len(),
                spec_name_allowed(gf[i as int].0, allowed@) == (known || spec_name_allowed(
                    gf[i as int].0,
                    allowed@.skip(l as int),
                )),
            decreases allowed@.len() - l,
        {
            proof {
                assert(allowed@.skip(l as int)[0] == allowed@[l as int]);
                assert(allowed@.skip(l as int).skip(1) =~= allowed@.skip(l as int + 1));
            }
            if str_eq(fields[i].0.as_str(), allowed[l]) {
                known = true;
            }
            l = l + 1;
        }
        proof {
            assert(allowed@.skip(allowed@.len() as int).len() == 0);
        }
        if !known {
            return false;
        }
        let mut b: usize = 0;
        while b < i
            invariant
                b <= i <= fields@.len(),
                forall|c: int| 0 <= c < b ==> (#[trigger] gf[c]).0 != gf[i as int].0,
            decreases i - b,
        {
            if str_eq(fields[b].0.as_str(), fields[i].0.as_str()) {
                proof {
                    assert(gf[b as int].0 == gf[i as int].0);
                    assert(!obj_keys_unique(gf));
                }
                return false;
            }
            b = b + 1;
        }
        i = i + 1;
    }
    proof {
        assert(gf.skip(fields@.len() as int).len() == 0);
        assert(obj_keys_unique(gf));
    }
    true
}

/// Why the live-query engine rejects an input.
#[derive(Clone, Copy, Debug, PartialEq, Eq, Structural)]
pub enum CursorError {
    /// A document arrived without the mandatory `_id` field.
    MissingId,
}

/// One change-stream event, already decoded into document values.
pub enum Event {
    Clear,
    Delete(Vec<(String, Value)>),
    Insert(Vec<(String, Value)>),
    Update(Vec<(String, Value)>),
}

impl Clone for Event {
    /// A clone carries the same event with an equal document.
    fn clone(&self) -> (r: Event)
        ensures
            match (self, r) {
                (Event::Clear, Event::Clear) => true,
                (Event::Delete(a), Event::Delete(b)) => obj_view(*a) == obj_view(b),
                (Event::Insert(a), Event::Insert(b)) => obj_view(*a) == obj_view(b),
                (Event::Update(a), Event::Update(b)) => obj_view(*a) == obj_view(b),
                _ => false,
            },
    {
        match self {
            Event::Clear => Event::Clear,
            Event::Delete(d) => Event::Delete(crate::mergebox::clone_document(d)),
            Event::Insert(d) => Event::Insert(crate::mergebox::clone_document(d)),
            Event::Update(d) => Event::Update(crate::mergebox::clone_document(d)),
        }
    }
}

/// One operation a cursor asks the attached mergeboxes to perform.
pub enum MergeOp {
    Insert { id: Value, document: Vec<(String, Value)> },
    Remove { id: Value, document: Vec<(String, Value)> },
}

/// The compiled query triple.
pub struct CursorViewer {
    pub matcher: DocumentMatcher,
    pub projector: Projector,
    pub sorter: Sorter,
}

/// What a compiled triple holds for a description: each part compiled
/// from the description's selector, projection and sort, and the
/// real-time constraints met (no opt-out, no skip, a sort whenever there
/// is a limit).
pub open spec fn viewer_represents(v: CursorViewer, d: CursorDescription) -> bool {
    &&& dm_wf(v.matcher)
    &&& dm_doc_rep(v.matcher, obj_view(d.selector), false, true)
    &&& spec_compile_projection(crate::projector::spec_proj_fields(
        match d.projection {
            Option::Some(ref p) => Option::Some(p),
            Option::None => Option::None,
        },
    )) == Result::<(TreeModel, bool), crate::projector::ProjectError>::Ok((v.projector.0@,
    v.projector.1))
    &&& sorter_represents(v.sorter.lookups@, crate::sorter::spec_sort_fields(
        match d.sort {
            Option::Some(ref sort) => Option::Some(sort),
            Option::None => Option::None,
        },
    ))
    &&& !d.disable_oplog
    &&& d.skip is None
    &&& (d.limit is Some ==> d.sort is Some)
}

/// Whether a description admits the real-time path.
pub open spec fn spec_viewer_ok(d: CursorDescription) -> bool {
    &&& dfields_ok(obj_view(d.selector), false, true)
    &&& spec_compile_projection(crate::projector::spec_proj_fields(
        match d.projection {
            Option::Some(ref p) => Option::Some(p),
            Option::None => Option::None,
        },
    )) is Ok
    &&& spec_compile_sort(crate::sorter::spec_sort_fields(
        match d.sort {
            Option::Some(ref sort) => Option::Some(sort),
            Option::None => Option::None,
        },
    ), Seq::empty()) is None
    &&& !d.disable_oplog
    &&& d.skip is None
    &&& (d.limit is Some ==> d.sort is Some)
}

/// Why a description cannot take the real-time path; each compile error
/// carries the failing compiler's reason.
#[derive(Clone, Copy, Debug, PartialEq, Eq, Structural)]
pub enum ViewerError {
    /// The selector does not compile.
    Matcher(crate::matcher::MatchError),
    /// The projection does not compile.
    Projector(crate::projector::ProjectError),
    /// The sort does not compile.
    Sorter(crate::sorter::SortError),
    /// A limit without a sort leaves the window order undefined.
    LimitWithoutSort,
    /// Skipping is not supported in the real-time path.
    SkipUnsupported,
    /// The description opts out of the change stream.
    OplogDisabled,
}

impl CursorViewer {
    /// Compiles the query triple for the real-time path. A selector,
    /// projection or sort that does not compile, an explicit opt-out, a
    /// skip, or a limit without a sort all fall back to polling; the
    /// error names the part at fault.
    pub fn try_from(description: &CursorDescription) -> (r: Result<CursorViewer, ViewerError>)
        ensures
            r is Ok <==> spec_viewer_ok(*description),
            r matches Result::Ok(v) ==> viewer_represents(v, *description),
            r matches Result::Err(e) ==> match e {
                ViewerError::Matcher(_) => !dfields_ok(obj_view(description.selector), false, true),
                ViewerError::Projector(_) => spec_compile_projection(
                    crate::projector::spec_proj_fields(
                        match description.projection {
                            Option::Some(ref p) => Option::Some(p),
                            Option::None => Option::None,
                        },
                    ),
                ) is Err,
                ViewerError::Sorter(_) => spec_compile_sort(
                    crate::sorter::spec_sort_fields(
                        match description.sort {
                            Option::Some(ref sort) => Option::Some(sort),
                            Option::None => Option::None,
                        },
                    ),
                    Seq::empty(),
                ) is Some,
                ViewerError::LimitWithoutSort => description.limit is Some && description.sort
                    is None,
                ViewerError::SkipUnsupported => description.skip is Some,
                ViewerError::OplogDisabled => description.disable_oplog,
            },
    {
        let matcher = match DocumentMatcher::compile(&description.selector) {
            Result::Ok(matcher) => matcher,
            Result::Err(e) => {
                return Result::Err(ViewerError::Matcher(e));
            },
        };
        let projector = match Projector::compile(
            match &description.projection {
                Option::Some(p) => Option::Some(p),
                Option::None => Option::None,
            },
        ) {
            Result::Ok(projector) => projector,
            Result::Err(e) => {
                return Result::Err(ViewerError::Projector(e));
            },
        };
        let sorter = match Sorter::compile(
            match &description.sort {
                Option::Some(sort) => Option::Some(sort),
                Option::None => Option::None,
            },
        ) {
            Result::Ok(sorter) => sorter,
            Result::Err(e) => {
                return Result::Err(ViewerError::Sorter(e));
            },
        };
        if matches!(description.limit, Option::Some(_)) && matches!(
            description.sort,
            Option::None,
        ) {
            return Result::Err(ViewerError::LimitWithoutSort);
        }
        if matches!(description.skip, Option::Some(_)) {
            return Result::Err(ViewerError::SkipUnsupported);
        }
        if description.disable_oplog {
            return Result::Err(ViewerError::OplogDisabled);
        }
        Result::Ok(CursorViewer { matcher, projector, sorter })
    }
}

/// The models of a held document list.
pub open spec fn docs_view(docs: Vec<Vec<(String, Value)>>) -> Seq<Seq<(Seq<char>, SpecValue)>> {
    Seq::new(docs@.len(), |i: int|
        if 0 <= i < docs@.len() {
            obj_view(docs@[i])
        } else {
            Seq::empty()
        }
    )
}

/// A document's key and the document with the key field taken out.
pub open spec fn spec_extract_id(doc: Seq<(Seq<char>, SpecValue)>) -> Option<
    (SpecValue, Seq<(Seq<char>, SpecValue)>),
> {
    match crate::mergebox::spec_assoc_find(doc, "_id"@) {
        Option::Some(i) => Option::Some((doc[i].1, doc.remove(i))),
        Option::None => Option::None,
    }
}

/// Every held document carries a key.
pub open spec fn docs_have_id(docs: Seq<Seq<(Seq<char>, SpecValue)>>) -> bool {
    forall|i: int| 0 <= i < docs.len() ==> spec_extract_id(#[trigger] docs[i]) is Some
}

/// The first held document with the given key.
pub open spec fn spec_find_by_id(
    docs: Seq<Seq<(Seq<char>, SpecValue)>>,
    id: SpecValue,
) -> Option<int>
    decreases docs.len(),
{
    if docs.len() == 0 {
        Option::None
    } else if spec_obj_get(docs[0], "_id"@) == Option::Some(id) {
        Option::Some(0)
    } else {
        match spec_find_by_id(docs.skip(1), id) {
            Option::Some(j) => Option::Some(j + 1),
            Option::None => Option::None,
        }
    }
}

pub proof fn lemma_find_by_id(docs: Seq<Seq<(Seq<char>, SpecValue)>>, id: SpecValue)
    ensures
        match spec_find_by_id(docs, id) {
            Option::Some(i) => 0 <= i < docs.len() && spec_obj_get(docs[i], "_id"@)
                == Option::Some(id) && forall|j: int|
                0 <= j < i ==> spec_obj_get(#[trigger] docs[j], "_id"@) != Option::Some(id),
            Option::None => forall|j: int|
                0 <= j < docs.len() ==> spec_obj_get(#[trigger] docs[j], "_id"@)
                    != Option::Some(id),
        },
    decreases docs.len(),
{
    if docs.len() > 0 && spec_obj_get(docs[0], "_id"@) != Option::Some(id) {
        lemma_find_by_id(docs.skip(1), id);
        match spec_find_by_id(docs.skip(1), id) {
            Option::Some(j) => {
                assert(docs[j + 1] == docs.skip(1)[j]);
                assert forall|m: int|
                    0 <= m < j + 1 implies spec_obj_get(#[trigger] docs[m], "_id"@)
                    != Option::Some(id) by {
                    if m > 0 {
                        assert(docs.skip(1)[m - 1] == docs[m]);
                    }
                }
            },
            Option::None => {
                assert forall|m: int|
                    0 <= m < docs.len() implies spec_obj_get(#[trigger] docs[m], "_id"@)
                    != Option::Some(id) by {
                    if m > 0 {
                        assert(docs.skip(1)[m - 1] == docs[m]);
                    }
                }
            },
        }
    }
}

/// The position a document sorts into: before the first held document
/// that orders after it.
pub open spec fn spec_insert_pos(
    lookups: Seq<(crate::lookup::Lookup, bool)>,
    docs: Seq<Seq<(Seq<char>, SpecValue)>>,
    doc: Seq<(Seq<char>, SpecValue)>,
) -> int
    decreases docs.len(),
{
    if docs.len() == 0 {
        0
    } else if spec_sorter_cmp(lookups, SpecValue::Object(docs[0]), SpecValue::Object(doc))
        == core::cmp::Ordering::Greater {
        0
    } else {
        1 + spec_insert_pos(lookups, docs.skip(1), doc)
    }
}

pub proof fn lemma_insert_pos(
    lookups: Seq<(crate::lookup::Lookup, bool)>,
    docs: Seq<Seq<(Seq<char>, SpecValue)>>,
    doc: Seq<(Seq<char>, SpecValue)>,
)
    ensures
        0 <= spec_insert_pos(lookups, docs, doc) <= docs.len(),
    decreases docs.len(),
{
    if docs.len() > 0 && spec_sorter_cmp(lookups, SpecValue::Object(docs[0]), SpecValue::Object(
        doc,
    )) != core::cmp::Ordering::Greater {
        lemma_insert_pos(lookups, docs.skip(1), doc);
    }
}

/// The held documents stand in the sorter's order: no document orders
/// strictly after a later one.
pub open spec fn docs_sorted(
    lookups: Seq<(crate::lookup::Lookup, bool)>,
    docs: Seq<Seq<(Seq<char>, SpecValue)>>,
) -> bool {
    forall|i: int, j: int|
        0 <= i < j < docs.len() ==> spec_sorter_cmp(
            lookups,
            SpecValue::Object(#[trigger] docs[i]),
            SpecValue::Object(#[trigger] docs[j]),
        ) != core::cmp::Ordering::Greater
}

/// Withdrawing one document in place keeps the sorter's order of the
/// rest.
pub proof fn lemma_docs_sorted_remove(
    lookups: Seq<(crate::lookup::Lookup, bool)>,
    docs: Seq<Seq<(Seq<char>, SpecValue)>>,
    i: int,
)
    requires
        docs_sorted(lookups, docs),
        0 <= i < docs.len(),
    ensures
        docs_sorted(lookups, docs.remove(i)),
{
    let rest = docs.remove(i);
    assert forall|a: int, b: int| 0 <= a < b < rest.len() implies spec_sorter_cmp(
        lookups,
        SpecValue::Object(#[trigger] rest[a]),
        SpecValue::Object(#[trigger] rest[b]),
    ) != core::cmp::Ordering::Greater by {
        let a0 = if a < i {
            a
        } else {
            a + 1
        };
        let b0 = if b < i {
            b
        } else {
            b + 1
        };
        assert(rest[a] == docs[a0]);
        assert(rest[b] == docs[b0]);
    }
}

/// Takes the key field out of a document.
#[verifier::loop_isolation(false)]
pub fn extract_id(document: &mut Vec<(String, Value)>) -> (r: Result<Value, CursorError>)
    ensures
        match r {
            Result::Ok(id) => spec_extract_id(obj_view(*old(document))) matches Option::Some(p)
                && id@ == p.0 && obj_view(*final(document)) == p.1,
            Result::Err(e) => e == CursorError::MissingId && spec_extract_id(
                obj_view(*old(document)),
            ) is None && *final(document) == *old(document),
        },
{
    proof {
        reveal_strlit("_id");
        crate::mergebox::lemma_assoc_find(obj_view(*document), "_id"@);
    }
    let ghost gdoc = obj_view(*document);
    let mut i: usize = 0;
    while i < document.len()
        invariant
            i <= document@.len(),
            *document == *old(document),
            gdoc == obj_view(*document),
            forall|j: int| 0 <= j < i ==> obj_view(*document)[j].0 != "_id"@,
        decreases document@.len() - i,
    {
        if str_eq(document[i].0.as_str(), "_id") {
            proof {
                assert(gdoc[i as int].0 == "_id"@);
                match crate::mergebox::spec_assoc_find(gdoc, "_id"@) {
                    Option::Some(found) => {
                        if found < i {
                            assert(gdoc[found].0 == "_id"@);
                        } else if found > i {
                            assert(gdoc[i as int].0 != "_id"@);
                        }
                    },
                    Option::None => {
                        assert(gdoc[i as int].0 != "_id"@);
                    },
                }
            }
            let (_, id) = document.remove(i);
            proof {
                assert(obj_view(*document) =~= gdoc.remove(i as int));
            }
            return Result::Ok(id);
        }
        i = i + 1;
    }
    Result::Err(CursorError::MissingId)
}

/// Finds a held document by key.
#[verifier::loop_isolation(false)]
fn find_by_id(docs: &Vec<Vec<(String, Value)>>, id: &Value) -> (r: Option<usize>)
    ensures
        match r {
            Option::Some(i) => 0 <= i < docs@.len() && spec_find_by_id(docs_view(*docs), id@)
                == Option::Some(i as int),
            Option::None => spec_find_by_id(docs_view(*docs), id@) is None,
        },
{
    proof {
        reveal_strlit("_id");
        lemma_find_by_id(docs_view(*docs), id@);
    }
    let mut i: usize = 0;
    while i < docs.len()
        invariant
            i <= docs@.len(),
            forall|j: int| 0 <= j < i ==> spec_obj_get(#[trigger] docs_view(*docs)[j], "_id"@)
                != Option::Some(id@),
        decreases docs@.len() - i,
    {
        let hit = match crate::value::obj_get(&docs[i], "_id") {
            Option::Some(v) => value_eq(v, id),
            Option::None => false,
        };
        if hit {
            proof {
                let m = docs_view(*docs);
                assert(spec_obj_get(m[i as int], "_id"@) == Option::Some(id@));
                match spec_find_by_id(m, id@) {
                    Option::Some(found) => {
                        if found < i {
                            assert(spec_obj_get(m[found], "_id"@) == Option::Some(id@));
                        } else if found > i {
                            assert(spec_obj_get(m[i as int], "_id"@) != Option::Some(id@));
                        }
                    },
                    Option::None => {
                        assert(spec_obj_get(m[i as int], "_id"@) != Option::Some(id@));
                    },
                }
            }
            return Option::Some(i);
        }
        i = i + 1;
    }
    Option::None
}

/// Finds the position a document sorts into among the held documents.
#[verifier::loop_isolation(false)]
fn insert_pos(sorter: &Sorter, docs: &Vec<Vec<(String, Value)>>, doc: &Vec<(String, Value)>)
    -> (r: usize)
    ensures
        r == spec_insert_pos(sorter.lookups@, docs_view(*docs), obj_view(*doc)),
        r <= docs@.len(),
{
    let ghost m = docs_view(*docs);
    proof {
        assert(m.skip(0) =~= m);
    }
    let mut i: usize = 0;
    while i < docs.len()
        invariant
            i <= docs@.len(),
            spec_insert_pos(sorter.lookups@, m, obj_view(*doc)) == i + spec_insert_pos(
                sorter.lookups@,
                m.skip(i as int),
                obj_view(*doc),
            ),
        decreases docs@.len() - i,
    {
        proof {
            assert(m.skip(i as int)[0] == m[i as int]);
            assert(m.skip(i as int).skip(1) =~= m.skip(i as int + 1));
        }
        let ordering = sorter.cmp(&docs[i], doc);
        if matches!(ordering, core::cmp::Ordering::Greater) {
            return i;
        }
        i = i + 1;
    }
    proof {
        assert(m.skip(docs@.len() as int).len() == 0);
    }
    i
}

/// The live-query state for one description: the held documents and the
/// compiled triple, when the description admits the real-time path.
pub struct CursorFetcher {
    pub description: CursorDescription,
    pub documents: Vec<Vec<(String, Value)>>,
    pub viewer: Option<CursorViewer>,
}

impl CursorFetcher {
    /// A fresh cursor for a description: no documents, and the triple
    /// compiled when the real-time path is open.
    pub fn new(description: CursorDescription) -> (r: CursorFetcher)
        ensures
            r.description == description,
            r.documents@.len() == 0,
            r.viewer is Some <==> spec_viewer_ok(description),
            r.viewer matches Option::Some(v) ==> viewer_represents(v, description),
    {
        let viewer = match CursorViewer::try_from(&description) {
            Result::Ok(v) => Option::Some(v),
            Result::Err(_) => Option::None,
        };
        CursorFetcher { description, documents: Vec::new(), viewer }
    }

    /// True when the cursor can follow the change stream; otherwise it
    /// polls.
    pub fn is_streaming(&self) -> (r: bool)
        ensures
            r == (self.viewer is Some),
    {
        matches!(self.viewer, Option::Some(_))
    }

    /// Replaces the held set with a fetched one: every fetched document
    /// is handed to the mergeboxes, then every previously held one is
    /// withdrawn, and the held set becomes the fetched documents.
    #[verifier::loop_isolation(false)]
    pub fn fetch(&mut self, fetched: Vec<Vec<(String, Value)>>) -> (r: Result<
        Vec<MergeOp>,
        CursorError,
    >)
        requires
            docs_have_id(docs_view(old(self).documents)),
        ensures
            final(self).description == old(self).description,
            final(self).viewer == old(self).viewer,
            r is Ok <==> docs_have_id(docs_view(fetched)),
            match r {
                Result::Ok(ops) => {
                    let new0 = docs_view(fetched);
                    let old0 = docs_view(old(self).documents);
                    &&& docs_have_id(new0)
                    &&& docs_have_id(docs_view(final(self).documents))
                    &&& docs_view(final(self).documents).len() == new0.len()
                    &&& ops@.len() == new0.len() + old0.len()
                    &&& forall|i: int|
                        0 <= i < new0.len() ==> ((#[trigger] ops@[i]) matches MergeOp::Insert {
                            id,
                            document,
                        } && Option::Some((id@, obj_view(document))) == spec_extract_id(
                            new0[i],
                        ))
                    &&& forall|i: int|
                        0 <= i < new0.len() ==> #[trigger] docs_view(final(self).documents)[i]
                            == spec_extract_id(new0[i])->Some_0.1.push(
                            ("_id"@, spec_extract_id(new0[i])->Some_0.0),
                        )
                    &&& forall|i: int|
                        0 <= i < old0.len() ==> ((#[trigger] ops@[new0.len() + i])
                            matches MergeOp::Remove { id, document } && Option::Some(
                            (id@, obj_view(document)),
                        ) == spec_extract_id(old0[i]))
                },
                Result::Err(e) => e == CursorError::MissingId,
            },
    {
        proof {
            reveal_strlit("_id");
        }
        let ghost new0 = docs_view(fetched);
        let ghost old0 = docs_view(self.documents);
        let mut ops: Vec<MergeOp> = Vec::new();
        let mut stored: Vec<Vec<(String, Value)>> = Vec::new();
        let mut i: usize = 0;
        let mut rest = fetched;
        let ghost grest = rest;
        let n = rest.len();
        proof {
            assert(rest@ =~= grest@.skip(0));
            assert(forall|k: int| 0 <= k < grest@.len() ==> new0[k] == obj_view(grest@[k]));
        }
        while i < n
            invariant
                i <= n,
                n == grest@.len(),
                rest@ =~= grest@.skip(i as int),
                new0 == docs_view(grest),
                ops@.len() == i,
                stored@.len() == i,
                forall|k: int| 0 <= k < i ==> spec_extract_id(new0[k]) is Some,
                forall|k: int|
                    0 <= k < i ==> ((#[trigger] ops@[k]) matches MergeOp::Insert {
                        id,
                        document,
                    } && Option::Some((id@, obj_view(document))) == spec_extract_id(new0[k])),
                forall|k: int|
                    0 <= k < i ==> obj_view(#[trigger] stored@[k]) == spec_extract_id(
                        new0[k],
                    )->Some_0.1.push(("_id"@, spec_extract_id(new0[k])->Some_0.0)),
            decreases n - i,
        {
            proof {
                assert(grest@.skip(i as int)[0] == grest@[i as int]);
                assert(grest@.skip(i as int).skip(1) =~= grest@.skip(i as int + 1));
                assert(new0[i as int] == obj_view(grest@[i as int]));
            }
            let mut document = rest.remove(0);
            let id = match extract_id(&mut document) {
                Result::Ok(id) => id,
                Result::Err(e) => {
                    return Result::Err(e);
                },
            };
            let doc_copy = crate::mergebox::clone_document(&document);
            ops.push(MergeOp::Insert { id: id.clone(), document: doc_copy });
            let ghost before = obj_view(document);
            document.push(("_id".to_owned(), id));
            proof {
                assert(obj_view(document) =~= before.push(
                    ("_id"@, spec_extract_id(new0[i as int])->Some_0.0),
                ));
            }
            stored.push(document);
            i = i + 1;
        }
        let ghost gstored = stored;
        let mut j: usize = 0;
        let mut old_docs = stored;
        core::mem::swap(&mut self.documents, &mut old_docs);
        let ghost gold = old_docs;
        let m = old_docs.len();
        proof {
            assert(old_docs@ =~= gold@.skip(0));
            assert(forall|k: int| 0 <= k < gold@.len() ==> old0[k] == obj_view(gold@[k]));
        }
        while j < m
            invariant
                j <= m,
                m == gold@.len(),
                old_docs@ =~= gold@.skip(j as int),
                old0 == docs_view(gold),
                ops@.len() == n + j,
                forall|k: int|
                    0 <= k < n ==> ((#[trigger] ops@[k]) matches MergeOp::Insert {
                        id,
                        document,
                    } && Option::Some((id@, obj_view(document))) == spec_extract_id(new0[k])),
                forall|k: int|
                    0 <= k < j ==> ((#[trigger] ops@[n + k]) matches MergeOp::Remove {
                        id,
                        document,
                    } && Option::Some((id@, obj_view(document))) == spec_extract_id(old0[k])),
            decreases m - j,
        {
            proof {
                assert(gold@.skip(j as int)[0] == gold@[j as int]);
                assert(gold@.skip(j as int).skip(1) =~= gold@.skip(j as int + 1));
                assert(old0[j as int] == obj_view(gold@[j as int]));
            }
            let mut document = old_docs.remove(0);
            let id = match extract_id(&mut document) {
                Result::Ok(id) => id,
                Result::Err(e) => {
                    return Result::Err(e);
                },
            };
            ops.push(MergeOp::Remove { id, document });
            j = j + 1;
        }
        proof {
            assert(forall|k: int| 0 <= k < docs_view(self.documents).len()
                ==> #[trigger] docs_view(self.documents)[k] == obj_view(gstored@[k]));
            assert forall|k: int|
                0 <= k < docs_view(self.documents).len() implies spec_extract_id(
                #[trigger] docs_view(self.documents)[k],
            ) is Some by {
                let d = docs_view(self.documents)[k];
                crate::mergebox::lemma_assoc_find(d, "_id"@);
                assert(d[d.len() - 1].0 == "_id"@);
            }
            assert forall|k: int| 0 <= k < new0.len() implies spec_extract_id(
                #[trigger] new0[k],
            ) is Some by {
            }
        }
        Result::Ok(ops)
    }
}

/// The projection of a document under a compiled triple.
pub open spec fn spec_project_for(
    v: CursorViewer,
    doc: Seq<(Seq<char>, SpecValue)>,
) -> Seq<(Seq<char>, SpecValue)> {
    crate::projector::spec_project_doc(v.projector.0@, v.projector.1, doc)
}

/// Whether a document matches a compiled triple's selector.
pub open spec fn spec_matches_for(v: CursorViewer, doc: Seq<(Seq<char>, SpecValue)>) -> bool {
    crate::matcher::spec_doc_matches(v.matcher, SpecValue::Object(doc))
}

impl CursorFetcher {
    /// The operations that hand every held document to a newly attached
    /// mergebox.
    #[verifier::loop_isolation(false)]
    pub fn register(&self) -> (r: Result<Vec<MergeOp>, CursorError>)
        requires
            docs_have_id(docs_view(self.documents)),
        ensures
            r is Ok,
            match r {
                Result::Ok(ops) => {
                    let docs = docs_view(self.documents);
                    &&& ops@.len() == docs.len()
                    &&& forall|i: int|
                        0 <= i < docs.len() ==> ((#[trigger] ops@[i]) matches MergeOp::Insert {
                            id,
                            document,
                        } && Option::Some((id@, obj_view(document))) == spec_extract_id(docs[i]))
                },
                Result::Err(e) => false,
            },
    {
        let ghost docs = docs_view(self.documents);
        let mut ops: Vec<MergeOp> = Vec::new();
        let mut i: usize = 0;
        while i < self.documents.len()
            invariant
                i <= self.documents@.len(),
                ops@.len() == i,
                forall|k: int|
                    0 <= k < i ==> ((#[trigger] ops@[k]) matches MergeOp::Insert {
                        id,
                        document,
                    } && Option::Some((id@, obj_view(document))) == spec_extract_id(docs[k])),
            decreases self.documents@.len() - i,
        {
            let mut document = crate::mergebox::clone_document(&self.documents[i]);
            proof {
                assert(obj_view(document) == docs[i as int]);
            }
            let id = match extract_id(&mut document) {
                Result::Ok(id) => id,
                Result::Err(e) => {
                    return Result::Err(e);
                },
            };
            ops.push(MergeOp::Insert { id, document });
            i = i + 1;
        }
        Result::Ok(ops)
    }

    /// The operations that withdraw every held document from a detaching
    /// mergebox.
    #[verifier::loop_isolation(false)]
    pub fn unregister(&self) -> (r: Result<Vec<MergeOp>, CursorError>)
        requires
            docs_have_id(docs_view(self.documents)),
        ensures
            r is Ok,
            match r {
                Result::Ok(ops) => {
                    let docs = docs_view(self.documents);
                    &&& ops@.len() == docs.len()
                    &&& forall|i: int|
                        0 <= i < docs.len() ==> ((#[trigger] ops@[i]) matches MergeOp::Remove {
                            id,
                            document,
                        } && Option::Some((id@, obj_view(document))) == spec_extract_id(docs[i]))
                },
                Result::Err(e) => false,
            },
    {
        let ghost docs = docs_view(self.documents);
        let mut ops: Vec<MergeOp> = Vec::new();
        let mut i: usize = 0;
        while i < self.documents.len()
            invariant
                i <= self.documents@.len(),
                ops@.len() == i,
                forall|k: int|
                    0 <= k < i ==> ((#[trigger] ops@[k]) matches MergeOp::Remove {
                        id,
                        document,
                    } && Option::Some((id@, obj_view(document))) == spec_extract_id(docs[k])),
            decreases self.documents@.len() - i,
        {
            let mut document = crate::mergebox::clone_document(&self.documents[i]);
            proof {
                assert(obj_view(document) == docs[i as int]);
            }
            let id = match extract_id(&mut document) {
                Result::Ok(id) => id,
                Result::Err(e) => {
                    return Result::Err(e);
                },
            };
            ops.push(MergeOp::Remove { id, document });
            i = i + 1;
        }
        Result::Ok(ops)
    }
}

impl CursorFetcher {
    /// Applies one change event to the held set, in streaming mode.
    /// `Insert` places a matching document into the window (dropping one
    /// past the limit), `Delete` withdraws a held document (asking for a
    /// refetch when the bounded window would shrink), `Update` is an
    /// insertion of the new version followed by the withdrawal of the old
    /// one, and `Clear` empties the set. The returned operations go to
    /// every attached mergebox, and the flag asks the caller to refetch.
    #[verifier::loop_isolation(false)]
    #[verifier::rlimit(100)]
    pub fn process(&mut self, event: Event) -> (r: Result<(Vec<MergeOp>, bool), CursorError>)
        requires
            old(self).viewer is Some,
            viewer_represents(old(self).viewer->Some_0, old(self).description),
            docs_have_id(docs_view(old(self).documents)),
        ensures
            final(self).description == old(self).description,
            final(self).viewer == old(self).viewer,
            r is Ok ==> docs_have_id(docs_view(final(self).documents)),
            ({
                let docs0 = docs_view(old(self).documents);
                let limit = spec_limit_of(old(self).description.limit);
                let v = old(self).viewer->Some_0;
                (r is Ok && limit is Some && docs0.len() <= limit->Some_0)
                    ==> docs_view(final(self).documents).len() <= limit->Some_0
            }),
            ({
                let docs0 = docs_view(old(self).documents);
                let limit = spec_limit_of(old(self).description.limit);
                let v = old(self).viewer->Some_0;
                (r is Ok && docs_sorted(v.sorter.lookups@, docs0) && match event {
                    Event::Clear => true,
                    Event::Delete(_) => limit is Some,
                    Event::Insert(_) => false,
                    Event::Update(d) => limit is Some && !spec_matches_for(v, obj_view(d)),
                }) ==> docs_sorted(v.sorter.lookups@, docs_view(final(self).documents))
            }),
            ({
                let docs0 = docs_view(old(self).documents);
                let limit = spec_limit_of(old(self).description.limit);
                let v = old(self).viewer->Some_0;
                match event {
                    Event::Clear => r matches Result::Ok((ops, refetch)) && !refetch
                        && docs_view(final(self).documents).len() == 0 && ops@.len()
                        == docs0.len() && (forall|i: int|
                        0 <= i < docs0.len() ==> ((#[trigger] ops@[i])
                            matches MergeOp::Remove { id, document } && Option::Some(id@)
                            == Option::Some(spec_extract_id(docs0[i])->Some_0.0) && obj_view(
                            document,
                        ) == spec_project_for(v, spec_extract_id(docs0[i])->Some_0.1))),
                    Event::Delete(key) => match spec_extract_id(obj_view(key)) {
                        Option::None => r == Result::<(Vec<MergeOp>, bool), CursorError>::Err(
                            CursorError::MissingId,
                        ),
                        Option::Some((id, _)) => match spec_find_by_id(docs0, id) {
                            Option::None => r matches Result::Ok((ops, refetch)) && !refetch
                                && ops@.len() == 0 && docs_view(final(self).documents)
                                == docs0,
                            Option::Some(idx) => {
                                if limit is Some && docs0.len() == limit->Some_0 {
                                    r matches Result::Ok((ops, refetch)) && refetch
                                        && ops@.len() == 0 && docs_view(
                                        final(self).documents,
                                    ) == docs0
                                } else {
                                    r matches Result::Ok((ops, refetch)) && !refetch
                                        && docs_view(final(self).documents) =~= (if limit
                                        is Some {
                                        docs0.remove(idx)
                                    } else {
                                        crate::mergebox::spec_swap_remove(docs0, idx)
                                    }) && ops@.len() == 1 && (ops@[0]
                                        matches MergeOp::Remove { id: oid, document }
                                        && oid@ == id && obj_view(document)
                                        == spec_project_for(
                                        v,
                                        spec_extract_id(docs0[idx])->Some_0.1,
                                    ))
                                }
                            },
                        },
                    },
                    Event::Insert(doc) => {
                        let gdoc = obj_view(doc);
                        if !spec_matches_for(v, gdoc) {
                            r matches Result::Ok((ops, refetch)) && !refetch && ops@.len()
                                == 0 && docs_view(final(self).documents) == docs0
                        } else {
                            match spec_extract_id(gdoc) {
                                Option::None => r == Result::<
                                    (Vec<MergeOp>, bool),
                                    CursorError,
                                >::Err(CursorError::MissingId),
                                Option::Some((id, rest)) => {
                                    let pos = spec_insert_pos(v.sorter.lookups@, docs0, gdoc);
                                    if limit is Some && pos == limit->Some_0 {
                                        r matches Result::Ok((ops, refetch)) && !refetch
                                            && ops@.len() == 0 && docs_view(
                                            final(self).documents,
                                        ) == docs0
                                    } else if limit is Some && docs0.len() + 1
                                        > limit->Some_0 {
                                        r matches Result::Ok((ops, refetch)) && !refetch
                                            && docs_view(final(self).documents)
                                            =~= docs0.insert(pos, gdoc).drop_last()
                                            && ops@.len() == 2 && (ops@[0]
                                            matches MergeOp::Insert { id: i0, document: d0 }
                                            && i0@ == id && obj_view(d0) == spec_project_for(
                                            v,
                                            rest,
                                        )) && (ops@[1] matches MergeOp::Remove {
                                            id: i1,
                                            document: d1,
                                        } && Option::Some(i1@) == Option::Some(
                                            spec_extract_id(
                                                docs0.insert(pos, gdoc).last(),
                                            )->Some_0.0,
                                        ) && obj_view(d1) == spec_project_for(
                                            v,
                                            spec_extract_id(
                                                docs0.insert(pos, gdoc).last(),
                                            )->Some_0.1,
                                        ))
                                    } else {
                                        let docs2 = if limit is Some {
                                            docs0.insert(pos, gdoc)
                                        } else {
                                            docs0.push(gdoc)
                                        };
                                        r matches Result::Ok((ops, refetch)) && !refetch
                                            && docs_view(final(self).documents) =~= docs2
                                            && ops@.len() == 1 && (ops@[0]
                                            matches MergeOp::Insert { id: i0, document: d0 }
                                            && i0@ == id && obj_view(d0) == spec_project_for(
                                            v,
                                            rest,
                                        ))
                                    }
                                },
                            }
                        }
                    },
                    Event::Update(doc) => {
                        let gdoc = obj_view(doc);
                        if spec_matches_for(v, gdoc) {
                            match spec_extract_id(gdoc) {
                                Option::None => r == Result::<
                                    (Vec<MergeOp>, bool),
                                    CursorError,
                                >::Err(CursorError::MissingId),
                                Option::Some((id, rest)) => {
                                    let pos = spec_insert_pos(v.sorter.lookups@, docs0, gdoc);
                                    let docs1 = if limit is Some {
                                        docs0.insert(pos, gdoc)
                                    } else {
                                        docs0.push(gdoc)
                                    };
                                    if limit is Some && pos == limit->Some_0 {
                                        r matches Result::Ok((ops, refetch)) && !refetch
                                            && ops@.len() == 0 && docs_view(
                                            final(self).documents,
                                        ) == docs0
                                    } else {
                                        match spec_find_by_id(docs0, id) {
                                            Option::Some(old_idx) => {
                                                let adj = if limit is Some && pos
                                                    <= old_idx {
                                                    old_idx + 1
                                                } else {
                                                    old_idx
                                                };
                                                r matches Result::Ok((ops, refetch))
                                                    && !refetch && docs_view(
                                                    final(self).documents,
                                                ) =~= (if limit is Some {
                                                    docs1.remove(adj)
                                                } else {
                                                    crate::mergebox::spec_swap_remove(
                                                        docs1,
                                                        adj,
                                                    )
                                                }) && ops@.len() == 2 && (ops@[0]
                                                    matches MergeOp::Insert {
                                                    id: i0,
                                                    document: d0,
                                                } && i0@ == id && obj_view(d0)
                                                    == spec_project_for(v, rest)) && (ops@[1]
                                                    matches MergeOp::Remove {
                                                    id: i1,
                                                    document: d1,
                                                } && Option::Some((i1@, obj_view(d1)))
                                                    == spec_extract_id(docs0[old_idx]))
                                            },
                                            Option::None => {
                                                if limit is Some && docs1.len()
                                                    > limit->Some_0 {
                                                    r matches Result::Ok((ops, refetch))
                                                        && !refetch && docs_view(
                                                        final(self).documents,
                                                    ) =~= docs1.drop_last() && ops@.len()
                                                        == 2 && (ops@[0]
                                                        matches MergeOp::Insert {
                                                        id: i0,
                                                        document: d0,
                                                    } && i0@ == id && obj_view(d0)
                                                        == spec_project_for(v, rest)) && (
                                                    ops@[1] matches MergeOp::Remove {
                                                        id: i1,
                                                        document: d1,
                                                    } && Option::Some(i1@) == Option::Some(
                                                        spec_extract_id(
                                                            docs1.last(),
                                                        )->Some_0.0,
                                                    ) && obj_view(d1) == spec_project_for(
                                                        v,
                                                        spec_extract_id(
                                                            docs1.last(),
                                                        )->Some_0.1,
                                                    ))
                                                } else {
                                                    r matches Result::Ok((ops, refetch))
                                                        && !refetch && docs_view(
                                                        final(self).documents,
                                                    ) =~= docs1 && ops@.len() == 1 && (
                                                    ops@[0] matches MergeOp::Insert {
                                                        id: i0,
                                                        document: d0,
                                                    } && i0@ == id && obj_view(d0)
                                                        == spec_project_for(v, rest))
                                                }
                                            },
                                        }
                                    }
                                },
                            }
                        } else {
                            match spec_extract_id(gdoc) {
                                Option::None => r == Result::<
                                    (Vec<MergeOp>, bool),
                                    CursorError,
                                >::Err(CursorError::MissingId),
                                Option::Some((id, _)) => match spec_find_by_id(docs0, id) {
                                    Option::None => r matches Result::Ok((ops, refetch))
                                        && !refetch && ops@.len() == 0 && docs_view(
                                        final(self).documents,
                                    ) == docs0,
                                    Option::Some(idx) => {
                                        if limit is Some && docs0.len() == limit->Some_0 {
                                            r matches Result::Ok((ops, refetch)) && refetch
                                                && ops@.len() == 0 && docs_view(
                                                final(self).documents,
                                            ) == docs0
                                        } else {
                                            r matches Result::Ok((ops, refetch)) && !refetch
                                                && docs_view(final(self).documents) =~= (
                                            if limit is Some {
                                                docs0.remove(idx)
                                            } else {
                                                crate::mergebox::spec_swap_remove(docs0, idx)
                                            }) && ops@.len() == 1 && (ops@[0]
                                                matches MergeOp::Remove {
                                                id: i1,
                                                document: d1,
                                            } && Option::Some((i1@, obj_view(d1)))
                                                == spec_extract_id(docs0[idx]))
                                        }
                                    },
                                },
                            }
                        }
                    },
                }
            }),
    {
        proof {
            reveal_strlit("_id");
        }
        let ghost docs0 = docs_view(self.documents);
        let ghost v = self.viewer->Some_0;
        let limit = self.description.limit();
        match event {
            Event::Clear => {
                let mut ops: Vec<MergeOp> = Vec::new();
                let mut old_docs: Vec<Vec<(String, Value)>> = Vec::new();
                core::mem::swap(&mut self.documents, &mut old_docs);
                let ghost gold = old_docs;
                let mut i: usize = 0;
                let n = old_docs.len();
                proof {
                    assert(old_docs@ =~= gold@.skip(0));
                    assert(forall|k: int| 0 <= k < gold@.len() ==> docs0[k] == obj_view(
                        gold@[k],
                    ));
                }
                while i < n
                    invariant
                        i <= n,
                        n == gold@.len(),
                        old_docs@ =~= gold@.skip(i as int),
                        docs0 == docs_view(gold),
                        self.viewer == old(self).viewer,
                        self.viewer is Some && v == self.viewer->Some_0,
                        viewer_represents(v, self.description),
                        ops@.len() == i,
                        forall|k: int|
                            0 <= k < i ==> ((#[trigger] ops@[k]) matches MergeOp::Remove {
                                id,
                                document,
                            } && Option::Some(id@) == Option::Some(
                                spec_extract_id(docs0[k])->Some_0.0,
                            ) && obj_view(document) == spec_project_for(
                                v,
                                spec_extract_id(docs0[k])->Some_0.1,
                            )),
                    decreases n - i,
                {
                    proof {
                        assert(gold@.skip(i as int)[0] == gold@[i as int]);
                        assert(gold@.skip(i as int).skip(1) =~= gold@.skip(i as int + 1));
                        assert(docs0[i as int] == obj_view(gold@[i as int]));
                    }
                    let mut document = old_docs.remove(0);
                    let id = match extract_id(&mut document) {
                        Result::Ok(id) => id,
                        Result::Err(e) => {
                            return Result::Err(e);
                        },
                    };
                    let viewer = match &self.viewer {
                        Option::Some(viewer) => viewer,
                        Option::None => unreached(),
                    };
                    viewer.projector.apply(&mut document);
                    ops.push(MergeOp::Remove { id, document });
                    i = i + 1;
                }
                Result::Ok((ops, false))
            },
            Event::Delete(key) => {
                let mut key = key;
                let id = match extract_id(&mut key) {
                    Result::Ok(id) => id,
                    Result::Err(e) => {
                        return Result::Err(e);
                    },
                };
                let idx = match find_by_id(&self.documents, &id) {
                    Option::Some(idx) => idx,
                    Option::None => {
                        return Result::Ok((Vec::new(), false));
                    },
                };
                let at_limit = match limit {
                    Option::Some(l) => l == self.documents.len(),
                    Option::None => false,
                };
                if at_limit {
                    return Result::Ok((Vec::new(), true));
                }
                let mut document = if matches!(limit, Option::Some(_)) {
                    self.documents.remove(idx)
                } else {
                    self.documents.swap_remove(idx)
                };
                let removed_id = match extract_id(&mut document) {
                    Result::Ok(removed_id) => removed_id,
                    Result::Err(e) => {
                        return Result::Err(e);
                    },
                };
                let viewer = match &self.viewer {
                    Option::Some(viewer) => viewer,
                    Option::None => unreached(),
                };
                viewer.projector.apply(&mut document);
                let mut ops: Vec<MergeOp> = Vec::new();
                ops.push(MergeOp::Remove { id, document });
                proof {
                    lemma_find_by_id(docs0, id@);
                    assert(spec_obj_get(docs0[idx as int], "_id"@) == Option::Some(id@));
                    crate::mergebox::lemma_assoc_find(docs0[idx as int], "_id"@);
                    if spec_limit_of(old(self).description.limit) is Some {
                        assert(docs_view(self.documents) =~= docs0.remove(idx as int));
                        if docs_sorted(v.sorter.lookups@, docs0) {
                            lemma_docs_sorted_remove(v.sorter.lookups@, docs0, idx as int);
                        }
                    } else {
                        assert(docs_view(self.documents) =~= crate::mergebox::spec_swap_remove(
                            docs0,
                            idx as int,
                        ));
                    }
                }
                Result::Ok((ops, false))
            },
            Event::Insert(doc) => {
                let viewer = match &self.viewer {
                    Option::Some(viewer) => viewer,
                    Option::None => unreached(),
                };
                if !viewer.matcher.matches(&doc) {
                    return Result::Ok((Vec::new(), false));
                }
                let mut document = doc;
                let ghost gdoc = obj_view(document);
                let stored = crate::mergebox::clone_document(&document);
                let id = match extract_id(&mut document) {
                    Result::Ok(id) => id,
                    Result::Err(e) => {
                        return Result::Err(e);
                    },
                };
                let mut ops: Vec<MergeOp> = Vec::new();
                match limit {
                    Option::Some(l) => {
                        let pos = insert_pos(&viewer.sorter, &self.documents, &stored);
                        if pos == l {
                            return Result::Ok((Vec::new(), false));
                        }
                        self.documents.insert(pos, stored);
                        proof {
                            assert(docs_view(self.documents) =~= docs0.insert(
                                pos as int,
                                gdoc,
                            ));
                        }
                        viewer.projector.apply(&mut document);
                        ops.push(MergeOp::Insert { id, document });
                        if self.documents.len() > l {
                            let mut popped = match self.documents.pop() {
                                Option::Some(popped) => popped,
                                Option::None => unreached(),
                            };
                            proof {
                                assert(obj_view(popped) == docs0.insert(
                                    pos as int,
                                    gdoc,
                                ).last());
                                assert(docs_view(self.documents) =~= docs0.insert(
                                    pos as int,
                                    gdoc,
                                ).drop_last());
                            }
                            let popped_id = match extract_id(&mut popped) {
                                Result::Ok(popped_id) => popped_id,
                                Result::Err(e) => {
                                    return Result::Err(e);
                                },
                            };
                            viewer.projector.apply(&mut popped);
                            ops.push(MergeOp::Remove { id: popped_id, document: popped });
                        }
                    },
                    Option::None => {
                        self.documents.push(stored);
                        proof {
                            assert(docs_view(self.documents) =~= docs0.push(gdoc));
                        }
                        viewer.projector.apply(&mut document);
                        ops.push(MergeOp::Insert { id, document });
                    },
                }
                proof {
                    assert forall|k: int|
                        0 <= k < docs_view(self.documents).len() implies spec_extract_id(
                        #[trigger] docs_view(self.documents)[k],
                    ) is Some by {
                        let limitv = spec_limit_of(old(self).description.limit);
                        if limitv is Some {
                            let inserted = docs0.insert(
                                spec_insert_pos(v.sorter.lookups@, docs0, gdoc) as int,
                                gdoc,
                            );
                            assert(docs_view(self.documents)[k] == inserted[k]);
                        }
                    }
                }
                Result::Ok((ops, false))
            },
            Event::Update(doc) => {
                let viewer = match &self.viewer {
                    Option::Some(viewer) => viewer,
                    Option::None => unreached(),
                };
                let is_matching = viewer.matcher.matches(&doc);
                if is_matching {
                    let mut document = doc;
                    let ghost gdoc = obj_view(document);
                    let stored = crate::mergebox::clone_document(&document);
                    let id = match extract_id(&mut document) {
                        Result::Ok(id) => id,
                        Result::Err(e) => {
                            return Result::Err(e);
                        },
                    };
                    let index_before = find_by_id(&self.documents, &id);
                    let mut ops: Vec<MergeOp> = Vec::new();
                    let mut inserted_at: Option<usize> = Option::None;
                    let ghost pos0 = spec_insert_pos(v.sorter.lookups@, docs0, gdoc);
                    let ghost docs1 = if spec_limit_of(old(self).description.limit) is Some {
                        docs0.insert(pos0, gdoc)
                    } else {
                        docs0.push(gdoc)
                    };
                    match limit {
                        Option::Some(l) => {
                            let pos = insert_pos(&viewer.sorter, &self.documents, &stored);
                            if pos == l {
                                return Result::Ok((Vec::new(), false));
                            }
                            self.documents.insert(pos, stored);
                            proof {
                                assert(docs_view(self.documents) =~= docs0.insert(
                                    pos as int,
                                    gdoc,
                                ));
                            }
                            inserted_at = Option::Some(pos);
                        },
                        Option::None => {
                            self.documents.push(stored);
                            proof {
                                assert(docs_view(self.documents) =~= docs0.push(gdoc));
                            }
                        },
                    }
                    viewer.projector.apply(&mut document);
                    ops.push(MergeOp::Insert { id: id.clone(), document });
                    match index_before {
                        Option::Some(old_index) => {
                            let cur_len = self.documents.len();
                            proof {
                                assert(cur_len as int == docs0.len() + 1);
                                assert(old_index < docs0.len());
                                assert(old_index + 1 <= cur_len);
                            }
                            let adjusted = match inserted_at {
                                Option::Some(pos) => if pos <= old_index {
                                    old_index + 1
                                } else {
                                    old_index
                                },
                                Option::None => old_index,
                            };
                            let ghost mid = docs_view(self.documents);
                            proof {
                                assert(mid =~= docs1);
                                assert(mid[adjusted as int] == docs0[old_index as int]);
                                assert(forall|k: int| 0 <= k < mid.len()
                                    ==> spec_extract_id(#[trigger] mid[k]) is Some);
                            }
                            let mut old_doc = if matches!(limit, Option::Some(_)) {
                                self.documents.remove(adjusted)
                            } else {
                                self.documents.swap_remove(adjusted)
                            };
                            proof {
                                assert(obj_view(old_doc) == docs0[old_index as int]);
                                if limit is Some {
                                    assert(docs_view(self.documents) =~= mid.remove(
                                        adjusted as int,
                                    ));
                                } else {
                                    assert(docs_view(self.documents)
                                        =~= crate::mergebox::spec_swap_remove(
                                        mid,
                                        adjusted as int,
                                    ));
                                }
                            }
                            let old_id = match extract_id(&mut old_doc) {
                                Result::Ok(old_id) => old_id,
                                Result::Err(e) => {
                                    return Result::Err(e);
                                },
                            };
                            ops.push(MergeOp::Remove { id: old_id, document: old_doc });
                        },
                        Option::None => {
                            match limit {
                                Option::Some(l) => {
                                    if self.documents.len() > l {
                                        let ghost mid = docs_view(self.documents);
                                        let mut popped = match self.documents.pop() {
                                            Option::Some(popped) => popped,
                                            Option::None => unreached(),
                                        };
                                        proof {
                                            assert(mid =~= docs1);
                                            assert(obj_view(popped) == docs1.last());
                                            assert(docs_view(self.documents)
                                                =~= mid.drop_last());
                                        }
                                        let popped_id = match extract_id(&mut popped) {
                                            Result::Ok(popped_id) => popped_id,
                                            Result::Err(e) => {
                                                return Result::Err(e);
                                            },
                                        };
                                        viewer.projector.apply(&mut popped);
                                        ops.push(MergeOp::Remove {
                                            id: popped_id,
                                            document: popped,
                                        });
                                    }
                                },
                                Option::None => {},
                            }
                        },
                    }
                    proof {
                        assert forall|k: int|
                            0 <= k < docs_view(self.documents).len() implies spec_extract_id(
                            #[trigger] docs_view(self.documents)[k],
                        ) is Some by {
                        }
                    }
                    Result::Ok((ops, false))
                } else {
                    let mut key = doc;
                    let id = match extract_id(&mut key) {
                        Result::Ok(id) => id,
                        Result::Err(e) => {
                            return Result::Err(e);
                        },
                    };
                    let idx = match find_by_id(&self.documents, &id) {
                        Option::Some(idx) => idx,
                        Option::None => {
                            return Result::Ok((Vec::new(), false));
                        },
                    };
                    let at_limit = match limit {
                        Option::Some(l) => l == self.documents.len(),
                        Option::None => false,
                    };
                    if at_limit {
                        return Result::Ok((Vec::new(), true));
                    }
                    let mut old_doc = if matches!(limit, Option::Some(_)) {
                        self.documents.remove(idx)
                    } else {
                        self.documents.swap_remove(idx)
                    };
                    proof {
                        assert(obj_view(old_doc) == docs0[idx as int]);
                        if limit is Some {
                            assert(docs_view(self.documents) =~= docs0.remove(idx as int));
                            if docs_sorted(v.sorter.lookups@, docs0) {
                                lemma_docs_sorted_remove(v.sorter.lookups@, docs0, idx as int);
                            }
                        } else {
                            assert(docs_view(self.documents)
                                =~= crate::mergebox::spec_swap_remove(docs0, idx as int));
                        }
                    }
                    let old_id = match extract_id(&mut old_doc) {
                        Result::Ok(old_id) => old_id,
                        Result::Err(e) => {
                            return Result::Err(e);
                        },
                    };
                    let mut ops: Vec<MergeOp> = Vec::new();
                    ops.push(MergeOp::Remove { id: old_id, document: old_doc });
                    Result::Ok((ops, false))
                }
            },
        }
    }
}

} // verus!
