//! The projection compiler and evaluator. A projection is compiled into a
//! radix trie over dotted path segments plus one global inclusion flag,
//! and applied by walking the trie and the document in parallel.

use vstd::prelude::*;
use crate::value::{
    lemma_obj_view, lemma_view_unfold, obj_view, spec_str_cmp, str_eq, Number, SpecValue, Value,
};
use crate::lookup::{lemma_find_char, spec_find_char, spec_split_key, find_char};

verus! {

broadcast use lemma_view_unfold, lemma_obj_view;

/// A trie over dotted path segments.
pub enum Tree {
    Leaf,
    Node(Vec<(String, Tree)>),
}

/// The model of a trie.
pub enum TreeModel {
    Leaf,
    Node(Seq<(Seq<char>, TreeModel)>),
}

impl View for Tree {
    type V = TreeModel;

    open spec fn view(&self) -> TreeModel
        decreases self,
    {
        match self {
            Tree::Leaf => TreeModel::Leaf,
            Tree::Node(entries) => TreeModel::Node(
                Seq::new(entries@.len(), |i: int|
                    if 0 <= i < entries@.len() {
                        (entries@[i].0@, entries@[i].1@)
                    } else {
                        (Seq::empty(), TreeModel::Leaf)
                    }
                ),
            ),
        }
    }
}

/// The view of each trie variant, spelled out.
pub broadcast proof fn lemma_tree_view_unfold(t: Tree)
    ensures
        (#[trigger] t@) is Leaf <==> t is Leaf,
        t@ is Node <==> t is Node,
        t is Node ==> t@->Node_0.len() == t->Node_0@.len(),
        t is Node ==> forall|i: int|
            0 <= i < t->Node_0@.len() ==> t@->Node_0[i] == (t->Node_0@[i].0@, t->Node_0@[i].1@),
{
    reveal_with_fuel(<Tree as View>::view, 2);
}

/// The index of a segment among a node's entries, if present.
pub open spec fn spec_node_find(m: Seq<(Seq<char>, TreeModel)>, key: Seq<char>) -> Option<int>
    decreases m.len(),
{
    if m.len() == 0 {
        Option::None
    } else if m[0].0 == key {
        Option::Some(0)
    } else {
        match spec_node_find(m.skip(1), key) {
            Option::Some(j) => Option::Some(j + 1),
            Option::None => Option::None,
        }
    }
}

pub proof fn lemma_node_find(m: Seq<(Seq<char>, TreeModel)>, key: Seq<char>)
    ensures
        match spec_node_find(m, key) {
            Option::Some(i) => 0 <= i < m.len() && m[i].0 == key && forall|j: int|
                0 <= j < i ==> m[j].0 != key,
            Option::None => forall|j: int| 0 <= j < m.len() ==> m[j].0 != key,
        },
    decreases m.len(),
{
    if m.len() > 0 && m[0].0 != key {
        lemma_node_find(m.skip(1), key);
        match spec_node_find(m.skip(1), key) {
            Option::Some(j) => {
                assert(m[j + 1] == m.skip(1)[j]);
                assert forall|k: int| 0 <= k < j + 1 implies m[k].0 != key by {
                    if k > 0 {
                        assert(m.skip(1)[k - 1] == m[k]);
                    }
                }
            },
            Option::None => {
                assert forall|k: int| 0 <= k < m.len() implies m[k].0 != key by {
                    if k > 0 {
                        assert(m.skip(1)[k - 1] == m[k]);
                    }
                }
            },
        }
    }
}

/// Adding a dotted key to a trie: the key's first segment finds or creates
/// an entry, and the rest of the key descends into it. Adding a key that
/// stops at an existing entry leaves that entry's subtree as it is.
pub open spec fn spec_tree_add(t: TreeModel, key: Seq<char>) -> TreeModel
    decreases key.len(),
{
    let m: Seq<(Seq<char>, TreeModel)> = match t {
        TreeModel::Node(m) => m,
        TreeModel::Leaf => Seq::empty(),
    };
    match spec_find_char(key, '.') {
        Option::Some(dot) => {
            proof {
                lemma_find_char(key, '.');
            }
            let head = key.take(dot);
            let rest = key.skip(dot + 1);
            match spec_node_find(m, head) {
                Option::Some(i) => TreeModel::Node(
                    m.update(i, (head, spec_tree_add(m[i].1, rest))),
                ),
                Option::None => TreeModel::Node(
                    m.push((head, spec_tree_add(TreeModel::Leaf, rest))),
                ),
            }
        },
        Option::None => {
            match spec_node_find(m, key) {
                Option::Some(_) => TreeModel::Node(m),
                Option::None => TreeModel::Node(m.push((key, TreeModel::Leaf))),
            }
        },
    }
}

impl Tree {
    /// Adds a dotted key to the trie.
    #[verifier::loop_isolation(false)]
    pub fn add(self, key: &str) -> (r: Tree)
        ensures
            r@ == spec_tree_add(self@, key@),
        decreases key@.len(),
    {
        broadcast use lemma_tree_view_unfold;

        let mut entries: Vec<(String, Tree)> = match self {
            Tree::Leaf => Vec::new(),
            Tree::Node(entries) => entries,
        };
        let ghost m: Seq<(Seq<char>, TreeModel)> = Seq::new(entries@.len(), |i: int|
            if 0 <= i < entries@.len() {
                (entries@[i].0@, entries@[i].1@)
            } else {
                (Seq::empty(), TreeModel::Leaf)
            }
        );
        proof {
            match self@ {
                TreeModel::Node(m0) => {
                    assert(m =~= m0);
                },
                TreeModel::Leaf => {
                    assert(m =~= Seq::<(Seq<char>, TreeModel)>::empty());
                },
            }
        }
        let key_len = key.unicode_len();
        let maybe_dot = find_char(key, '.');
        match maybe_dot {
            Option::Some(dot) => {
                proof {
                    lemma_find_char(key@, '.');
                }
                let head = key.substring_char(0, dot);
                let rest = key.substring_char(dot + 1, key_len);
                proof {
                    assert(key@.subrange(0, dot as int) =~= key@.take(dot as int));
                    assert(key@.subrange(dot + 1, key@.len() as int) =~= key@.skip(dot + 1));
                }
                let idx = find_entry(&entries, head);
                proof {
                    lemma_node_find(m, head@);
                }
                match idx {
                    Option::Some(i) => {
                        let (entry_key, entry_tree) = entries.remove(i);
                        let new_tree = entry_tree.add(rest);
                        entries.insert(i, (entry_key, new_tree));
                        let r = Tree::Node(entries);
                        proof {
                            assert(r@->Node_0 =~= m.update(
                                i as int,
                                (head@, spec_tree_add(m[i as int].1, rest@)),
                            ));
                        }
                        r
                    },
                    Option::None => {
                        let new_tree = Tree::Leaf.add(rest);
                        entries.push((head.to_owned(), new_tree));
                        let r = Tree::Node(entries);
                        proof {
                            assert(r@->Node_0 =~= m.push(
                                (head@, spec_tree_add(TreeModel::Leaf, rest@)),
                            ));
                        }
                        r
                    },
                }
            },
            Option::None => {
                let idx = find_entry(&entries, key);
                proof {
                    lemma_node_find(m, key@);
                }
                match idx {
                    Option::Some(_) => {
                        let r = Tree::Node(entries);
                        proof {
                            assert(r@->Node_0 =~= m);
                        }
                        r
                    },
                    Option::None => {
                        entries.push((key.to_owned(), Tree::Leaf));
                        let r = Tree::Node(entries);
                        proof {
                            assert(r@->Node_0 =~= m.push((key@, TreeModel::Leaf)));
                        }
                        r
                    },
                }
            },
        }
    }
}

/// Finds a segment among a node's entries.
#[verifier::loop_isolation(false)]
fn find_entry(entries: &Vec<(String, Tree)>, key: &str) -> (r: Option<usize>)
    ensures
        match r {
            Option::Some(i) => 0 <= i < entries@.len() && spec_node_find(
                Seq::new(entries@.len(), |j: int|
                    if 0 <= j < entries@.len() {
                        (entries@[j].0@, entries@[j].1@)
                    } else {
                        (Seq::empty(), TreeModel::Leaf)
                    }
                ),
                key@,
            ) == Option::Some(i as int),
            Option::None => spec_node_find(
                Seq::new(entries@.len(), |j: int|
                    if 0 <= j < entries@.len() {
                        (entries@[j].0@, entries@[j].1@)
                    } else {
                        (Seq::empty(), TreeModel::Leaf)
                    }
                ),
                key@,
            ) is None,
        },
{
    let ghost m: Seq<(Seq<char>, TreeModel)> = Seq::new(entries@.len(), |j: int|
        if 0 <= j < entries@.len() {
            (entries@[j].0@, entries@[j].1@)
        } else {
            (Seq::empty(), TreeModel::Leaf)
        }
    );
    proof {
        lemma_node_find(m, key@);
    }
    let mut i: usize = 0;
    while i < entries.len()
        invariant
            i <= entries@.len(),
            forall|j: int| 0 <= j < i ==> m[j].0 != key@,
        decreases entries@.len() - i,
    {
        if str_eq(entries[i].0.as_str(), key) {
            proof {
                assert(m[i as int].0 == key@);
                match spec_node_find(m, key@) {
                    Option::Some(found) => {
                        if found < i {
                            assert(m[found].0 == key@);
                        } else if found > i {
                            assert(m[i as int].0 != key@);
                        }
                    },
                    Option::None => {
                        assert(m[i as int].0 != key@);
                    },
                }
            }
            return Option::Some(i);
        }
        i = i + 1;
    }
    Option::None
}

/// The projection of one value below a subtree: arrays are projected
/// element-wise, objects by their fields, and anything else is untouched.
pub open spec fn spec_project_value(t: TreeModel, inclusive: bool, v: SpecValue) -> SpecValue
    decreases v,
{
    match v {
        SpecValue::Array(elems) => SpecValue::Array(
            Seq::new(elems.len(), |i: int|
                if 0 <= i < elems.len() {
                    spec_project_value(t, inclusive, elems[i])
                } else {
                    SpecValue::Null
                }
            ),
        ),
        SpecValue::Object(fields) => SpecValue::Object(spec_project_doc(t, inclusive, fields)),
        other => other,
    }
}

/// The projection of a document's fields below a trie node: a field named
/// by a leaf is kept exactly when the projection is inclusive, a field
/// with a subtree is kept and projected below it, and a field the node
/// does not name is kept exactly when the projection is exclusive. Below
/// a leaf the document is untouched.
pub open spec fn spec_project_doc(
    t: TreeModel,
    inclusive: bool,
    fields: Seq<(Seq<char>, SpecValue)>,
) -> Seq<(Seq<char>, SpecValue)>
    decreases fields,
{
    match t {
        TreeModel::Leaf => fields,
        TreeModel::Node(m) => {
            if fields.len() == 0 {
                fields
            } else {
                let head = fields[0];
                let rest = spec_project_doc(t, inclusive, fields.skip(1));
                match spec_node_find(m, head.0) {
                    Option::Some(i) => {
                        if m[i].1 is Leaf {
                            if inclusive {
                                seq![head] + rest
                            } else {
                                rest
                            }
                        } else {
                            seq![(head.0, spec_project_value(m[i].1, inclusive, head.1))] + rest
                        }
                    },
                    Option::None => {
                        if inclusive {
                            rest
                        } else {
                            seq![head] + rest
                        }
                    },
                }
            }
        },
    }
}

impl Tree {
    /// Projects one value below this subtree.
    #[verifier::loop_isolation(false)]
    pub fn apply_value(&self, value: &Value, inclusive: bool) -> (r: Value)
        ensures
            r@ == spec_project_value(self@, inclusive, value@),
        decreases value,
    {
        match value {
            Value::Array(elems) => {
                let mut out: Vec<Value> = Vec::new();
                let mut i: usize = 0;
                while i < elems.len()
                    invariant
                        i <= elems@.len(),
                        out@.len() == i,
                        forall|k: int| 0 <= k < i ==> out@[k]@ == spec_project_value(
                            self@,
                            inclusive,
                            value@->Array_0[k],
                        ),
                    decreases elems@.len() - i,
                {
                    proof {
                        assert(decreases_to!(*value => *elems));
                        assert(decreases_to!(*elems => elems@));
                        assert(decreases_to!(elems@ => elems@[i as int]));
                    }
                    out.push(self.apply_value(&elems[i], inclusive));
                    i = i + 1;
                }
                let r = Value::Array(out);
                proof {
                    assert(r@->Array_0 =~= spec_project_value(self@, inclusive, value@)->Array_0);
                }
                r
            },
            Value::Object(fields) => {
                proof {
                    assert(decreases_to!(*value => *fields));
                }
                let r = Value::Object(self.apply_document(fields, inclusive));
                proof {
                    assert(r@->Object_0 =~= spec_project_value(self@, inclusive, value@)
                        ->Object_0);
                }
                r
            },
            other => other.clone(),
        }
    }

    /// Projects a document's fields below this trie node.
    #[verifier::loop_isolation(false)]
    pub fn apply_document(&self, fields: &Vec<(String, Value)>, inclusive: bool) -> (r: Vec<
        (String, Value),
    >)
        ensures
            obj_view(r) == spec_project_doc(self@, inclusive, obj_view(*fields)),
        decreases fields,
    {
        broadcast use lemma_tree_view_unfold;

        let entries: &Vec<(String, Tree)> = match self {
            Tree::Leaf => {
                let mut out: Vec<(String, Value)> = Vec::new();
                let mut i: usize = 0;
                while i < fields.len()
                    invariant
                        i <= fields@.len(),
                        out@.len() == i,
                        forall|k: int| 0 <= k < i ==> out@[k].0@ == fields@[k].0@ && out@[k].1@
                            == fields@[k].1@,
                    decreases fields@.len() - i,
                {
                    let (k, v) = &fields[i];
                    out.push((k.clone(), v.clone()));
                    i = i + 1;
                }
                proof {
                    assert(obj_view(out) =~= obj_view(*fields));
                }
                return out;
            },
            Tree::Node(entries) => entries,
        };
        let ghost m = self@->Node_0;
        let ghost full = obj_view(*fields);
        let mut out: Vec<(String, Value)> = Vec::new();
        let mut i: usize = 0;
        proof {
            assert(full.skip(0) =~= full);
            assert(obj_view(out) =~= Seq::<(Seq<char>, SpecValue)>::empty());
        }
        while i < fields.len()
            invariant
                i <= fields@.len(),
                spec_project_doc(self@, inclusive, full) == obj_view(out) + spec_project_doc(
                    self@,
                    inclusive,
                    full.skip(i as int),
                ),
            decreases fields@.len() - i,
        {
            proof {
                assert(full.skip(i as int)[0] == (fields@[i as int].0@, fields@[i as int].1@));
                assert(full.skip(i as int).skip(1) =~= full.skip(i as int + 1));
                assert(decreases_to!(*fields => fields@));
                assert(decreases_to!(fields@ => fields@[i as int]));
                assert(decreases_to!(fields@[i as int] => fields@[i as int].1));
            }
            let (key, val) = &fields[i];
            let idx = find_entry(entries, key.as_str());
            let ghost before = obj_view(out);
            let ghost head = full.skip(i as int)[0];
            proof {
                assert(m =~= Seq::new(entries@.len(), |j: int|
                    if 0 <= j < entries@.len() {
                        (entries@[j].0@, entries@[j].1@)
                    } else {
                        (Seq::empty(), TreeModel::Leaf)
                    }));
            }
            match idx {
                Option::Some(entry_idx) => {
                    let subtree = &entries[entry_idx].1;
                    proof {
                        assert(spec_node_find(m, head.0) == Option::Some(entry_idx as int));
                        assert(m[entry_idx as int].1 == entries@[entry_idx as int].1@);
                    }
                    if matches!(subtree, Tree::Leaf) {
                        if inclusive {
                            out.push((key.clone(), val.clone()));
                            proof {
                                assert(obj_view(out) =~= before + seq![head]);
                            }
                        }
                    } else {
                        let projected = subtree.apply_value_helper(val, inclusive, fields, i);
                        out.push((key.clone(), projected));
                        proof {
                            assert(obj_view(out) =~= before + seq![
                                (head.0, spec_project_value(m[entry_idx as int].1, inclusive,
                                head.1)),
                            ]);
                        }
                    }
                },
                Option::None => {
                    proof {
                        assert(spec_node_find(m, head.0) is None);
                    }
                    if !inclusive {
                        out.push((key.clone(), val.clone()));
                        proof {
                            assert(obj_view(out) =~= before + seq![head]);
                        }
                    }
                },
            }
            proof {
                assert(spec_project_doc(self@, inclusive, full) =~= obj_view(out)
                    + spec_project_doc(self@, inclusive, full.skip(i as int + 1)));
            }
            i = i + 1;
        }
        proof {
            assert(full.skip(fields@.len() as int).len() == 0);
        }
        out
    }

    /// Projects one field's value, from within a document walk; the
    /// document and index only carry the termination measure.
    fn apply_value_helper(
        &self,
        value: &Value,
        inclusive: bool,
        fields: &Vec<(String, Value)>,
        i: usize,
    ) -> (r: Value)
        requires
            i < fields@.len(),
            value == &fields@[i as int].1,
        ensures
            r@ == spec_project_value(self@, inclusive, value@),
        decreases fields, 0int,
    {
        proof {
            assert(decreases_to!(*fields => fields@));
            assert(decreases_to!(fields@ => fields@[i as int]));
            assert(decreases_to!(fields@[i as int] => fields@[i as int].1));
        }
        self.apply_value(value, inclusive)
    }
}

/// Why a projection is rejected.
#[derive(Clone, Copy, Debug, PartialEq, Eq, Structural)]
pub enum ProjectError {
    /// A leaf operand is not a boolean, 0, or 1.
    UnsupportedOperator,
    /// Inclusion and exclusion leaves are mixed (other than `_id`).
    MixedInclusionExclusion,
}

/// How a projection leaf operand reads: a boolean as itself, 1 as
/// inclusion, 0 as exclusion, anything else unsupported.
pub open spec fn spec_proj_op(v: SpecValue) -> Option<bool> {
    match v {
        SpecValue::Bool(b) => Option::Some(b),
        SpecValue::Number(Number::Int(n)) => if n == 1 {
            Option::Some(true)
        } else if n == 0 {
            Option::Some(false)
        } else {
            Option::None
        },
        _ => Option::None,
    }
}

/// The scan of a projection's fields in order, carrying the inclusion
/// flag accumulated so far and the `_id` override.
pub open spec fn spec_proj_scan(
    fields: Seq<(Seq<char>, SpecValue)>,
    inclusive_all: Option<bool>,
    inclusive_id: Option<bool>,
) -> Result<(Option<bool>, Option<bool>), ProjectError>
    decreases fields.len(),
{
    if fields.len() == 0 {
        Result::Ok((inclusive_all, inclusive_id))
    } else {
        match spec_proj_op(fields[0].1) {
            Option::None => Result::Err(ProjectError::UnsupportedOperator),
            Option::Some(op) => if fields[0].0 == "_id"@ {
                spec_proj_scan(fields.skip(1), inclusive_all, Option::Some(op))
            } else if inclusive_all is Some && inclusive_all->0 != op {
                Result::Err(ProjectError::MixedInclusionExclusion)
            } else {
                spec_proj_scan(fields.skip(1), Option::Some(op), inclusive_id)
            },
        }
    }
}

/// The keys of a projection other than `_id`, in order.
pub open spec fn spec_non_id_keys(fields: Seq<(Seq<char>, SpecValue)>) -> Seq<Seq<char>>
    decreases fields.len(),
{
    if fields.len() == 0 {
        Seq::empty()
    } else {
        spec_non_id_keys(fields.drop_last()) + (if fields.last().0 == "_id"@ {
            Seq::<Seq<char>>::empty()
        } else {
            seq![fields.last().0]
        })
    }
}

/// A trie grown by adding each key in turn.
pub open spec fn spec_tree_add_keys(t: TreeModel, keys: Seq<Seq<char>>) -> TreeModel
    decreases keys.len(),
{
    if keys.len() == 0 {
        t
    } else {
        spec_tree_add(spec_tree_add_keys(t, keys.drop_last()), keys.last())
    }
}

/// What compiling a projection produces: its trie and inclusion flag, or
/// the error its scan stops with. Inclusion projections include `_id`
/// unless it is excluded; exclusion projections keep it.
pub open spec fn spec_compile_projection(fields: Seq<(Seq<char>, SpecValue)>) -> Result<
    (TreeModel, bool),
    ProjectError,
> {
    match spec_proj_scan(fields, Option::None, Option::None) {
        Result::Err(e) => Result::Err(e),
        Result::Ok((ia0, iid0)) => {
            let iid1: Option<bool> = if ia0 == Option::Some(true) && iid0 is None {
                Option::Some(true)
            } else {
                iid0
            };
            let ia1: Option<bool> = if ia0 is None {
                iid0
            } else {
                ia0
            };
            let base = spec_tree_add_keys(TreeModel::Leaf, spec_non_id_keys(fields));
            let t = if ia1 == iid1 {
                spec_tree_add(base, "_id"@)
            } else {
                base
            };
            Result::Ok((t, ia1 == Option::Some(true)))
        },
    }
}

/// A compiled projection: a trie over the named paths and the global
/// inclusion flag.
pub struct Projector(pub Tree, pub bool);

/// The model of a projection specification: its object's field list, or
/// empty when there is none.
pub open spec fn spec_proj_fields(projection: Option<&Vec<(String, Value)>>) -> Seq<
    (Seq<char>, SpecValue),
> {
    match projection {
        Option::Some(fields) => obj_view(*fields),
        Option::None => Seq::empty(),
    }
}

/// Reads a projection leaf operand.
fn proj_op_of(v: &Value) -> (r: Option<bool>)
    ensures
        r == spec_proj_op(v@),
{
    match v {
        Value::Bool(b) => Option::Some(*b),
        Value::Number(Number::Int(n)) => {
            if *n == 1 {
                Option::Some(true)
            } else if *n == 0 {
                Option::Some(false)
            } else {
                Option::None
            }
        },
        _ => Option::None,
    }
}

impl Projector {
    /// Compiles a projection specification.
    #[verifier::loop_isolation(false)]
    pub fn compile(projection: Option<&Vec<(String, Value)>>) -> (r: Result<
        Projector,
        ProjectError,
    >)
        ensures
            match r {
                Result::Ok(p) => spec_compile_projection(spec_proj_fields(projection))
                    == Result::<(TreeModel, bool), ProjectError>::Ok((p.0@, p.1)),
                Result::Err(e) => spec_compile_projection(spec_proj_fields(projection))
                    == Result::<(TreeModel, bool), ProjectError>::Err(e),
            },
    {
        let ghost gfields = spec_proj_fields(projection);
        let fields: &Vec<(String, Value)> = match projection {
            Option::Some(fields) => fields,
            Option::None => {
                let base = Tree::Leaf;
                proof {
                    assert(gfields =~= Seq::<(Seq<char>, SpecValue)>::empty());
                    assert(spec_non_id_keys(gfields) =~= Seq::<Seq<char>>::empty());
                }
                let tree = base.add("_id");
                return Result::Ok(Projector(tree, false));
            },
        };
        proof {
            assert(gfields == obj_view(*fields));
        }
        let mut tree = Tree::Leaf;
        let mut inclusive_all: Option<bool> = Option::None;
        let mut inclusive_id: Option<bool> = Option::None;
        let mut i: usize = 0;
        proof {
            assert(gfields.skip(0) =~= gfields);
            assert(gfields.take(0) =~= Seq::<(Seq<char>, SpecValue)>::empty());
            assert(spec_non_id_keys(gfields.take(0)) =~= Seq::<Seq<char>>::empty());
        }
        while i < fields.len()
            invariant
                i <= fields@.len(),
                spec_proj_scan(gfields, Option::None, Option::None) == spec_proj_scan(
                    gfields.skip(i as int),
                    inclusive_all,
                    inclusive_id,
                ),
                tree@ == spec_tree_add_keys(
                    TreeModel::Leaf,
                    spec_non_id_keys(gfields.take(i as int)),
                ),
            decreases fields@.len() - i,
        {
            proof {
                assert(gfields.skip(i as int)[0] == (fields@[i as int].0@, fields@[i as int].1@));
                assert(gfields.skip(i as int).skip(1) =~= gfields.skip(i as int + 1));
                assert(gfields.take(i as int + 1).last() == gfields[i as int]);
                assert(gfields.take(i as int + 1).drop_last() =~= gfields.take(i as int));
            }
            let (path, operator) = &fields[i];
            let op = match proj_op_of(operator) {
                Option::Some(op) => op,
                Option::None => {
                    return Result::Err(ProjectError::UnsupportedOperator);
                },
            };
            if str_eq(path.as_str(), "_id") {
                inclusive_id = Option::Some(op);
                proof {
                    assert(spec_non_id_keys(gfields.take(i as int + 1)) =~= spec_non_id_keys(
                        gfields.take(i as int),
                    ));
                }
            } else {
                match inclusive_all {
                    Option::Some(prev) => {
                        if prev != op {
                            return Result::Err(ProjectError::MixedInclusionExclusion);
                        }
                    },
                    Option::None => {},
                }
                inclusive_all = Option::Some(op);
                tree = tree.add(path.as_str());
                proof {
                    let keys1 = spec_non_id_keys(gfields.take(i as int + 1));
                    let keys0 = spec_non_id_keys(gfields.take(i as int));
                    assert(keys1 =~= keys0.push(fields@[i as int].0@));
                    assert(keys1.drop_last() =~= keys0);
                    assert(keys1.last() == fields@[i as int].0@);
                }
            }
            i = i + 1;
        }
        proof {
            assert(gfields.skip(fields@.len() as int).len() == 0);
            assert(gfields.take(fields@.len() as int) =~= gfields);
        }
        match (inclusive_all, inclusive_id) {
            (Option::Some(true), Option::None) => {
                inclusive_id = Option::Some(true);
            },
            (Option::None, iid) => {
                inclusive_all = iid;
            },
            _ => {},
        }
        let add_id = match (&inclusive_all, &inclusive_id) {
            (Option::Some(a), Option::Some(b)) => *a == *b,
            (Option::None, Option::None) => true,
            _ => false,
        };
        if add_id {
            tree = tree.add("_id");
        }
        let inclusive = matches!(inclusive_all, Option::Some(true));
        Result::Ok(Projector(tree, inclusive))
    }

    /// Applies the projection to a document in place.
    pub fn apply(&self, document: &mut Vec<(String, Value)>)
        ensures
            obj_view(*final(document)) == spec_project_doc(self.0@, self.1, obj_view(*old(document))),
    {
        let projected = self.0.apply_document(document, self.1);
        *document = projected;
    }
}

/// Projection distributes over concatenation of field lists.
proof fn lemma_project_concat(
    t: TreeModel,
    inclusive: bool,
    a: Seq<(Seq<char>, SpecValue)>,
    b: Seq<(Seq<char>, SpecValue)>,
)
    ensures
        spec_project_doc(t, inclusive, a + b) == spec_project_doc(t, inclusive, a)
            + spec_project_doc(t, inclusive, b),
    decreases a.len(),
{
    if t is Leaf {
        assert(spec_project_doc(t, inclusive, a + b) =~= spec_project_doc(t, inclusive, a)
            + spec_project_doc(t, inclusive, b));
    } else if a.len() == 0 {
        assert(a + b =~= b);
        assert(spec_project_doc(t, inclusive, a) =~= Seq::<(Seq<char>, SpecValue)>::empty());
        assert(spec_project_doc(t, inclusive, a + b) =~= spec_project_doc(t, inclusive, a)
            + spec_project_doc(t, inclusive, b));
    } else {
        assert((a + b)[0] == a[0]);
        assert((a + b).skip(1) =~= a.skip(1) + b);
        lemma_project_concat(t, inclusive, a.skip(1), b);
        assert(spec_project_doc(t, inclusive, a + b) =~= spec_project_doc(t, inclusive, a)
            + spec_project_doc(t, inclusive, b));
    }
}

/// Applying a projection twice projects once: the kept fields are already
/// in their projected form.
pub proof fn lemma_project_doc_idempotent(
    t: TreeModel,
    inclusive: bool,
    fields: Seq<(Seq<char>, SpecValue)>,
)
    ensures
        spec_project_doc(t, inclusive, spec_project_doc(t, inclusive, fields))
            == spec_project_doc(t, inclusive, fields),
    decreases fields, 1int,
{
    if t is Leaf {
    } else if fields.len() == 0 {
    } else {
        let m = t->Node_0;
        let head = fields[0];
        let rest = fields.skip(1);
        lemma_project_doc_idempotent(t, inclusive, rest);
        let headpart: Seq<(Seq<char>, SpecValue)> = match spec_node_find(m, head.0) {
            Option::Some(i) => {
                if m[i].1 is Leaf {
                    if inclusive {
                        seq![head]
                    } else {
                        Seq::empty()
                    }
                } else {
                    seq![(head.0, spec_project_value(m[i].1, inclusive, head.1))]
                }
            },
            Option::None => {
                if inclusive {
                    Seq::empty()
                } else {
                    seq![head]
                }
            },
        };
        assert(spec_project_doc(t, inclusive, fields) == headpart + spec_project_doc(
            t,
            inclusive,
            rest,
        ));
        lemma_project_concat(
            t,
            inclusive,
            headpart,
            spec_project_doc(t, inclusive, rest),
        );
        if headpart.len() > 0 {
            assert(headpart.skip(1) =~= Seq::<(Seq<char>, SpecValue)>::empty());
            assert(spec_project_doc(t, inclusive, headpart.skip(1))
                =~= Seq::<(Seq<char>, SpecValue)>::empty());
            match spec_node_find(m, head.0) {
                Option::Some(i) => {
                    if m[i].1 is Leaf {
                        assert(headpart[0] == head);
                        assert(inclusive);
                        assert(spec_project_doc(t, inclusive, headpart) == seq![head]
                            + spec_project_doc(t, inclusive, headpart.skip(1)));
                        assert(spec_project_doc(t, inclusive, headpart) =~= headpart);
                    } else {
                        lemma_project_value_idempotent_helper(
                            m[i].1,
                            inclusive,
                            head.1,
                            fields,
                        );
                        assert(headpart[0] == (head.0, spec_project_value(
                            m[i].1,
                            inclusive,
                            head.1,
                        )));
                        assert(spec_project_doc(t, inclusive, headpart) == seq![
                            (head.0, spec_project_value(
                                m[i].1,
                                inclusive,
                                spec_project_value(m[i].1, inclusive, head.1),
                            )),
                        ] + spec_project_doc(t, inclusive, headpart.skip(1)));
                        assert(spec_project_doc(t, inclusive, headpart) =~= headpart);
                    }
                },
                Option::None => {
                    assert(headpart[0] == head);
                    assert(!inclusive);
                    assert(spec_project_doc(t, inclusive, headpart) == seq![head]
                        + spec_project_doc(t, inclusive, headpart.skip(1)));
                    assert(spec_project_doc(t, inclusive, headpart) =~= headpart);
                },
            }
        } else {
            assert(spec_project_doc(t, inclusive, headpart)
                =~= Seq::<(Seq<char>, SpecValue)>::empty());
        }
    }
}

/// Helper carrying the termination measure of the enclosing document.
proof fn lemma_project_value_idempotent_helper(
    t: TreeModel,
    inclusive: bool,
    v: SpecValue,
    fields: Seq<(Seq<char>, SpecValue)>,
)
    requires
        v == fields[0].1,
        fields.len() > 0,
    ensures
        spec_project_value(t, inclusive, spec_project_value(t, inclusive, v))
            == spec_project_value(t, inclusive, v),
    decreases fields, 0int,
{
    assert(decreases_to!(fields => fields[0]));
    assert(decreases_to!(fields[0] => fields[0].1));
    lemma_project_value_idempotent(t, inclusive, v);
}

/// Applying a projection twice to one value projects once.
pub proof fn lemma_project_value_idempotent(t: TreeModel, inclusive: bool, v: SpecValue)
    ensures
        spec_project_value(t, inclusive, spec_project_value(t, inclusive, v))
            == spec_project_value(t, inclusive, v),
    decreases v, 1int,
{
    match v {
        SpecValue::Array(elems) => {
            assert forall|i: int| 0 <= i < elems.len() implies spec_project_value(
                t,
                inclusive,
                spec_project_value(t, inclusive, #[trigger] elems[i]),
            ) == spec_project_value(t, inclusive, elems[i]) by {
                lemma_project_value_idempotent(t, inclusive, elems[i]);
            }
            assert(spec_project_value(t, inclusive, v) is Array);
            assert(spec_project_value(t, inclusive, spec_project_value(t, inclusive, v))
                is Array);
            assert(spec_project_value(t, inclusive, spec_project_value(t, inclusive, v))
                ->Array_0 =~= spec_project_value(t, inclusive, v)->Array_0);
            assert(spec_project_value(t, inclusive, spec_project_value(t, inclusive, v))
                == spec_project_value(t, inclusive, v));
        },
        SpecValue::Object(fields) => {
            lemma_project_doc_idempotent_obj(t, inclusive, fields, v);
        },
        _ => {},
    }
}

/// Helper tying the object's fields to the enclosing value's measure.
proof fn lemma_project_doc_idempotent_obj(
    t: TreeModel,
    inclusive: bool,
    fields: Seq<(Seq<char>, SpecValue)>,
    v: SpecValue,
)
    requires
        v == SpecValue::Object(fields),
    ensures
        spec_project_doc(t, inclusive, spec_project_doc(t, inclusive, fields))
            == spec_project_doc(t, inclusive, fields),
    decreases v, 0int,
{
    assert(v->Object_0 == fields);
    assert(decreases_to!(v => v->Object_0));
    lemma_project_doc_idempotent(t, inclusive, fields);
}

} // verus!
