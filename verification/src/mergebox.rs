//! The per-session reconciliation buffer: a keyed, reference-counted
//! union of the document versions its contributors assert, emitting
//! minimal deltas. Emitted messages are returned to the caller, who owns
//! the outbound channel.

use vstd::prelude::*;
use crate::value::{
    lemma_obj_view, lemma_view_unfold, obj_keys_unique, obj_view, str_eq, value_eq, SpecValue,
    Value,
};
use crate::ddp::DDPMessage;

verus! {

broadcast use lemma_view_unfold, lemma_obj_view;

/// Why a mergebox operation is rejected.
#[derive(Clone, Copy, Debug, PartialEq, Eq, Structural)]
pub enum MergeError {
    /// The collection is not held.
    CollectionNotFound,
    /// The document is not held in the collection.
    DocumentNotFound,
    /// A removed field was never asserted.
    FieldNotFound,
}

/// One field a contributor asserted: how many contributors hold it, and
/// the value asserted last.
pub struct MergeboxField {
    pub count: usize,
    pub value: Value,
}

/// One reconciled document: its key, how many contributors assert it, and
/// its fields.
pub struct MergeboxDocument {
    pub id: Value,
    pub count: usize,
    pub fields: Vec<(String, MergeboxField)>,
}

/// The model of a field entry.
pub struct MbField {
    pub count: int,
    pub value: SpecValue,
}

/// The model of a reconciled document.
pub struct MbDoc {
    pub id: SpecValue,
    pub count: int,
    pub fields: Seq<(Seq<char>, MbField)>,
}

/// The model of a document's field table.
pub open spec fn mb_fields_view(fields: Vec<(String, MergeboxField)>) -> Seq<
    (Seq<char>, MbField),
> {
    Seq::new(fields@.len(), |i: int|
        if 0 <= i < fields@.len() {
            (fields@[i].0@, MbField {
                count: fields@[i].1.count as int,
                value: fields@[i].1.value@,
            })
        } else {
            (Seq::empty(), MbField { count: 0, value: SpecValue::Null })
        }
    )
}

/// The model of a reconciled document.
pub open spec fn mb_doc_view(doc: MergeboxDocument) -> MbDoc {
    MbDoc { id: doc.id@, count: doc.count as int, fields: mb_fields_view(doc.fields) }
}

/// The model of one collection's document list.
pub open spec fn mb_docs_view(docs: Vec<MergeboxDocument>) -> Seq<MbDoc> {
    Seq::new(docs@.len(), |i: int|
        if 0 <= i < docs@.len() {
            mb_doc_view(docs@[i])
        } else {
            MbDoc { id: SpecValue::Null, count: 0, fields: Seq::empty() }
        }
    )
}

/// Well-formedness of a reconciled document: at least one contributor,
/// every field asserted by at least one, and no repeated field name.
pub open spec fn mb_doc_wf(d: MbDoc) -> bool {
    &&& d.count >= 1
    &&& forall|i: int| 0 <= i < d.fields.len() ==> 1 <= (#[trigger] d.fields[i]).1.count
    &&& forall|i: int, j: int| 0 <= i < j < d.fields.len() ==> (#[trigger] d.fields[i]).0 != (
    #[trigger] d.fields[j]).0
}

/// Every contributor count in the document is below the bound.
pub open spec fn mb_doc_lt(d: MbDoc, b: int) -> bool {
    d.count < b && forall|i: int| 0 <= i < d.fields.len() ==> (#[trigger] d.fields[i]).1.count
        < b
}

/// The index of a key in an association list, if present.
pub open spec fn spec_assoc_find<T>(s: Seq<(Seq<char>, T)>, k: Seq<char>) -> Option<int>
    decreases s.len(),
{
    if s.len() == 0 {
        Option::None
    } else if s[0].0 == k {
        Option::Some(0)
    } else {
        match spec_assoc_find(s.skip(1), k) {
            Option::Some(j) => Option::Some(j + 1),
            Option::None => Option::None,
        }
    }
}

pub proof fn lemma_assoc_find<T>(s: Seq<(Seq<char>, T)>, k: Seq<char>)
    ensures
        match spec_assoc_find(s, k) {
            Option::Some(i) => 0 <= i < s.len() && s[i].0 == k && forall|j: int|
                0 <= j < i ==> s[j].0 != k,
            Option::None => forall|j: int| 0 <= j < s.len() ==> s[j].0 != k,
        },
    decreases s.len(),
{
    if s.len() > 0 && s[0].0 != k {
        lemma_assoc_find(s.skip(1), k);
        match spec_assoc_find(s.skip(1), k) {
            Option::Some(j) => {
                assert(s[j + 1] == s.skip(1)[j]);
                assert forall|m: int| 0 <= m < j + 1 implies s[m].0 != k by {
                    if m > 0 {
                        assert(s.skip(1)[m - 1] == s[m]);
                    }
                }
            },
            Option::None => {
                assert forall|m: int| 0 <= m < s.len() implies s[m].0 != k by {
                    if m > 0 {
                        assert(s.skip(1)[m - 1] == s[m]);
                    }
                }
            },
        }
    }
}

/// The index of a document with a structurally equal key, if present.
pub open spec fn spec_find_doc(docs: Seq<MbDoc>, id: SpecValue) -> Option<int>
    decreases docs.len(),
{
    if docs.len() == 0 {
        Option::None
    } else if docs[0].id == id {
        Option::Some(0)
    } else {
        match spec_find_doc(docs.skip(1), id) {
            Option::Some(j) => Option::Some(j + 1),
            Option::None => Option::None,
        }
    }
}

pub proof fn lemma_find_doc(docs: Seq<MbDoc>, id: SpecValue)
    ensures
        match spec_find_doc(docs, id) {
            Option::Some(i) => 0 <= i < docs.len() && docs[i].id == id && forall|j: int|
                0 <= j < i ==> docs[j].id != id,
            Option::None => forall|j: int| 0 <= j < docs.len() ==> docs[j].id != id,
        },
    decreases docs.len(),
{
    if docs.len() > 0 && docs[0].id != id {
        lemma_find_doc(docs.skip(1), id);
        match spec_find_doc(docs.skip(1), id) {
            Option::Some(j) => {
                assert(docs[j + 1] == docs.skip(1)[j]);
                assert forall|m: int| 0 <= m < j + 1 implies docs[m].id != id by {
                    if m > 0 {
                        assert(docs.skip(1)[m - 1] == docs[m]);
                    }
                }
            },
            Option::None => {
                assert forall|m: int| 0 <= m < docs.len() implies docs[m].id != id by {
                    if m > 0 {
                        assert(docs.skip(1)[m - 1] == docs[m]);
                    }
                }
            },
        }
    }
}

/// The change of a document's field table when a contributor asserts a
/// document, walked field by field: a known field's count rises (its value
/// replaced when it differs), an unknown field enters with count one. The
/// second component is the changed subset.
pub open spec fn spec_change_fields(
    fields: Seq<(Seq<char>, MbField)>,
    doc: Seq<(Seq<char>, SpecValue)>,
) -> (Seq<(Seq<char>, MbField)>, Seq<(Seq<char>, SpecValue)>)
    decreases doc.len(),
{
    if doc.len() == 0 {
        (fields, Seq::empty())
    } else {
        let (f1, ch1) = spec_change_fields(fields, doc.drop_last());
        let (k, v) = doc.last();
        match spec_assoc_find(f1, k) {
            Option::Some(i) => {
                if f1[i].1.value == v {
                    (f1.update(i, (k, MbField { count: f1[i].1.count + 1, value: v })), ch1)
                } else {
                    (
                        f1.update(i, (k, MbField { count: f1[i].1.count + 1, value: v })),
                        ch1.push((k, v)),
                    )
                }
            },
            Option::None => (f1.push((k, MbField { count: 1, value: v })), ch1.push((k, v))),
        }
    }
}

/// The field table a first assertion creates: every field with count one.
pub open spec fn spec_new_fields(doc: Seq<(Seq<char>, SpecValue)>) -> Seq<(Seq<char>, MbField)> {
    Seq::new(doc.len(), |i: int|
        if 0 <= i < doc.len() {
            (doc[i].0, MbField { count: 1, value: doc[i].1 })
        } else {
            (Seq::empty(), MbField { count: 0, value: SpecValue::Null })
        }
    )
}

/// The change of a document's field table when a contributor withdraws a
/// document, walked field by field: each field's count falls, and a field
/// whose count reaches zero leaves and is reported cleared. A field the
/// table does not hold is an error.
pub open spec fn spec_remove_fields(
    fields: Seq<(Seq<char>, MbField)>,
    doc: Seq<(Seq<char>, SpecValue)>,
) -> Option<(Seq<(Seq<char>, MbField)>, Seq<Seq<char>>)>
    decreases doc.len(),
{
    if doc.len() == 0 {
        Option::Some((fields, Seq::empty()))
    } else {
        match spec_remove_fields(fields, doc.drop_last()) {
            Option::None => Option::None,
            Option::Some((f1, cl1)) => {
                let k = doc.last().0;
                match spec_assoc_find(f1, k) {
                    Option::None => Option::None,
                    Option::Some(i) => {
                        if f1[i].1.count == 1 {
                            Option::Some((f1.remove(i), cl1.push(k)))
                        } else {
                            Option::Some(
                                (
                                    f1.update(
                                        i,
                                        (
                                            k,
                                            MbField {
                                                count: f1[i].1.count - 1,
                                                value: f1[i].1.value,
                                            },
                                        ),
                                    ),
                                    cl1,
                                ),
                            )
                        }
                    },
                }
            },
        }
    }
}

impl MergeboxDocument {
    /// A first assertion of a document: one contributor, every field with
    /// count one.
    pub fn new(id: Value, document: Vec<(String, Value)>) -> (r: MergeboxDocument)
        ensures
            mb_doc_view(r) == (MbDoc {
                id: id@,
                count: 1,
                fields: spec_new_fields(obj_view(document)),
            }),
    {
        let ghost gdoc = obj_view(document);
        let mut fields: Vec<(String, MergeboxField)> = Vec::new();
        let mut i: usize = 0;
        let mut rest = document;
        let n = rest.len();
        proof {
            assert(rest@ =~= rest@.skip(0));
        }
        let ghost grest = rest;
        while i < n
            invariant
                i <= n,
                n == grest@.len(),
                rest@ =~= grest@.skip(i as int),
                gdoc == obj_view(grest),
                fields@.len() == i,
                forall|j: int| 0 <= j < i ==> (#[trigger] fields@[j]).0@ == gdoc[j].0
                    && fields@[j].1.count == 1 && fields@[j].1.value@ == gdoc[j].1,
            decreases n - i,
        {
            let (k, v) = rest.remove(0);
            proof {
                assert(grest@.skip(i as int)[0] == grest@[i as int]);
                assert(grest@.skip(i as int).skip(1) =~= grest@.skip(i as int + 1));
                assert(gdoc[i as int] == (grest@[i as int].0@, grest@[i as int].1@));
            }
            fields.push((k, MergeboxField { count: 1, value: v }));
            i = i + 1;
        }
        let r = MergeboxDocument { id, count: 1, fields };
        proof {
            assert(mb_fields_view(r.fields) =~= spec_new_fields(gdoc));
        }
        r
    }

    /// One more contributor asserts this document; the returned fields are
    /// the changed subset.
    #[verifier::loop_isolation(false)]
    pub fn change(&mut self, document: Vec<(String, Value)>) -> (r: Vec<(String, Value)>)
        requires
            mb_doc_wf(mb_doc_view(*old(self))),
            mb_doc_lt(mb_doc_view(*old(self)), usize::MAX as int),
            obj_keys_unique(obj_view(document)),
        ensures
            final(self).id == old(self).id,
            final(self).count as int == old(self).count as int + 1,
            ({
                let (f2, ch) = spec_change_fields(
                    mb_fields_view(old(self).fields),
                    obj_view(document),
                );
                mb_fields_view(final(self).fields) == f2 && obj_view(r) == ch
            }),
    {
        let ghost gdoc = obj_view(document);
        self.count = self.count + 1;
        let mut changed: Vec<(String, Value)> = Vec::new();
        let mut i: usize = 0;
        let mut rest = document;
        let n = rest.len();
        let ghost grest = rest;
        proof {
            assert(rest@ =~= grest@.skip(0));
            assert(gdoc.take(0) =~= Seq::<(Seq<char>, SpecValue)>::empty());
            assert(spec_change_fields(mb_fields_view(self.fields), gdoc.take(0)) == (
            mb_fields_view(self.fields),
            Seq::<(Seq<char>, SpecValue)>::empty(),
            ));
            assert(obj_view(changed) =~= Seq::<(Seq<char>, SpecValue)>::empty());
        }
        while i < n
            invariant
                i <= n,
                n == grest@.len(),
                rest@ =~= grest@.skip(i as int),
                gdoc == obj_view(grest),
                self.id == old(self).id,
                self.count == old(self).count + 1,
                ({
                    let (f2, ch) = spec_change_fields(
                        mb_fields_view(old(self).fields),
                        gdoc.take(i as int),
                    );
                    mb_fields_view(self.fields) == f2 && obj_view(changed) == ch
                }),
                mb_fields_view(self.fields).len() >= mb_fields_view(old(self).fields).len(),
                forall|j: int|
                    0 <= j < mb_fields_view(old(self).fields).len() && (forall|l: int|
                        0 <= l < i ==> gdoc[l].0 != mb_fields_view(old(self).fields)[j].0)
                        ==> #[trigger] mb_fields_view(self.fields)[j] == mb_fields_view(
                        old(self).fields,
                    )[j],
                forall|j: int|
                    0 <= j < mb_fields_view(self.fields).len() ==> mb_fields_view(self.fields)[
                        j].0 == mb_fields_view(old(self).fields)[j].0 || j
                        >= mb_fields_view(old(self).fields).len(),
                forall|j: int|
                    mb_fields_view(old(self).fields).len() <= j < mb_fields_view(
                        self.fields,
                    ).len() ==> exists|l: int|
                        0 <= l < i && gdoc[l].0 == (#[trigger] mb_fields_view(self.fields)[
                        j]).0,
            decreases n - i,
        {
            proof {
                assert(grest@.skip(i as int)[0] == grest@[i as int]);
                assert(grest@.skip(i as int).skip(1) =~= grest@.skip(i as int + 1));
                assert(gdoc[i as int] == (grest@[i as int].0@, grest@[i as int].1@));
                assert(gdoc.take(i as int + 1).drop_last() =~= gdoc.take(i as int));
                assert(gdoc.take(i as int + 1).last() == gdoc[i as int]);
                lemma_assoc_find(mb_fields_view(self.fields), gdoc[i as int].0);
            }
            let (k, v) = rest.remove(0);
            let idx = assoc_find_field(&self.fields, k.as_str());
            match idx {
                Option::Some(fi) => {
                    let ghost before = mb_fields_view(self.fields);
                    let same = value_eq(&self.fields[fi].1.value, &v);
                    let (entry_key, entry) = self.fields.remove(fi);
                    let new_count = entry.count + 1;
                    self.fields.insert(
                        fi,
                        (entry_key, MergeboxField { count: new_count, value: v.clone() }),
                    );
                    proof {
                        assert(mb_fields_view(self.fields) =~= before.update(
                            fi as int,
                            (
                                gdoc[i as int].0,
                                MbField {
                                    count: before[fi as int].1.count + 1,
                                    value: gdoc[i as int].1,
                                },
                            ),
                        ));
                    }
                    if !same {
                        let ghost chbefore = obj_view(changed);
                        changed.push((k, v));
                        proof {
                            assert(obj_view(changed) =~= chbefore.push(
                                (gdoc[i as int].0, gdoc[i as int].1),
                            ));
                        }
                    }
                },
                Option::None => {
                    let ghost before = mb_fields_view(self.fields);
                    let ghost chbefore = obj_view(changed);
                    self.fields.push(
                        (k.clone(), MergeboxField { count: 1, value: v.clone() }),
                    );
                    changed.push((k, v));
                    proof {
                        assert(mb_fields_view(self.fields) =~= before.push(
                            (gdoc[i as int].0, MbField { count: 1, value: gdoc[i as int].1 }),
                        ));
                        assert(obj_view(changed) =~= chbefore.push(
                            (gdoc[i as int].0, gdoc[i as int].1),
                        ));
                    }
                },
            }
            i = i + 1;
        }
        proof {
            assert(gdoc.take(n as int) =~= gdoc);
        }
        changed
    }

    /// One contributor withdraws this document; the returned field names
    /// are the ones whose count reached zero.
    #[verifier::loop_isolation(false)]
    pub fn remove(&mut self, document: &Vec<(String, Value)>) -> (r: Result<
        Vec<String>,
        MergeError,
    >)
        requires
            old(self).count >= 1,
            mb_doc_wf(mb_doc_view(*old(self))),
        ensures
            final(self).id == old(self).id,
            final(self).count as int == old(self).count as int - 1,
            match r {
                Result::Ok(cleared) => {
                    &&& spec_remove_fields(
                        mb_fields_view(old(self).fields),
                        obj_view(*document),
                    ) matches Option::Some((f2, cl))
                    &&& mb_fields_view(final(self).fields) == spec_remove_fields(
                        mb_fields_view(old(self).fields),
                        obj_view(*document),
                    )->Some_0.0
                    &&& cleared_view(cleared) == spec_remove_fields(
                        mb_fields_view(old(self).fields),
                        obj_view(*document),
                    )->Some_0.1
                },
                Result::Err(e) => e == MergeError::FieldNotFound && spec_remove_fields(
                    mb_fields_view(old(self).fields),
                    obj_view(*document),
                ) is None,
            },
    {
        let ghost gdoc = obj_view(*document);
        self.count = self.count - 1;
        let mut cleared: Vec<String> = Vec::new();
        let mut i: usize = 0;
        let n = document.len();
        proof {
            assert(gdoc.take(0) =~= Seq::<(Seq<char>, SpecValue)>::empty());
            assert(cleared_view(cleared) =~= Seq::<Seq<char>>::empty());
        }
        while i < n
            invariant
                i <= n,
                n == document@.len(),
                self.id == old(self).id,
                self.count == old(self).count - 1,
                spec_remove_fields(mb_fields_view(old(self).fields), gdoc.take(i as int))
                    matches Option::Some(p) && mb_fields_view(self.fields) == p.0
                    && cleared_view(cleared) == p.1,
                forall|j: int|
                    0 <= j < mb_fields_view(self.fields).len() ==> (
                    #[trigger] mb_fields_view(self.fields)[j]).1.count >= 1,
            decreases n - i,
        {
            proof {
                assert(gdoc[i as int] == (document@[i as int].0@, document@[i as int].1@));
                assert(gdoc.take(i as int + 1).drop_last() =~= gdoc.take(i as int));
                assert(gdoc.take(i as int + 1).last() == gdoc[i as int]);
                lemma_assoc_find(mb_fields_view(self.fields), gdoc[i as int].0);
            }
            let k = &document[i].0;
            let idx = assoc_find_field(&self.fields, k.as_str());
            match idx {
                Option::Some(fi) => {
                    let ghost before = mb_fields_view(self.fields);
                    if self.fields[fi].1.count == 1 {
                        let ghost clbefore = cleared_view(cleared);
                        self.fields.remove(fi);
                        cleared.push(k.clone());
                        proof {
                            assert(mb_fields_view(self.fields) =~= before.remove(fi as int));
                            assert(cleared_view(cleared) =~= clbefore.push(gdoc[i as int].0));
                        }
                    } else {
                        let (entry_key, entry) = self.fields.remove(fi);
                        let new_count = entry.count - 1;
                        self.fields.insert(
                            fi,
                            (entry_key, MergeboxField { count: new_count, value: entry.value }),
                        );
                        proof {
                            assert(mb_fields_view(self.fields) =~= before.update(
                                fi as int,
                                (
                                    gdoc[i as int].0,
                                    MbField {
                                        count: before[fi as int].1.count - 1,
                                        value: before[fi as int].1.value,
                                    },
                                ),
                            ));
                        }
                    }
                },
                Option::None => {
                    proof {
                        assert(spec_remove_fields(
                            mb_fields_view(old(self).fields),
                            gdoc.take(i as int + 1),
                        ) is None);
                        lemma_remove_fields_poison(
                            mb_fields_view(old(self).fields),
                            gdoc,
                            i as int + 1,
                        );
                    }
                    return Result::Err(MergeError::FieldNotFound);
                },
            }
            i = i + 1;
        }
        proof {
            assert(gdoc.take(n as int) =~= gdoc);
        }
        Result::Ok(cleared)
    }
}

/// The views of a cleared-field name list.
pub open spec fn cleared_view(cleared: Vec<String>) -> Seq<Seq<char>> {
    Seq::new(cleared@.len(), |i: int|
        if 0 <= i < cleared@.len() {
            cleared@[i]@
        } else {
            Seq::empty()
        }
    )
}

proof fn lemma_remove_fields_poison(
    fields: Seq<(Seq<char>, MbField)>,
    doc: Seq<(Seq<char>, SpecValue)>,
    i: int,
)
    requires
        0 <= i <= doc.len(),
        spec_remove_fields(fields, doc.take(i)) is None,
    ensures
        spec_remove_fields(fields, doc) is None,
    decreases doc.len() - i,
{
    if i == doc.len() {
        assert(doc.take(i) =~= doc);
    } else {
        assert(doc.take(i + 1).drop_last() =~= doc.take(i));
        lemma_remove_fields_poison(fields, doc, i + 1);
    }
}

/// Finds a field by name in a field table.
#[verifier::loop_isolation(false)]
fn assoc_find_field(fields: &Vec<(String, MergeboxField)>, key: &str) -> (r: Option<usize>)
    ensures
        match r {
            Option::Some(i) => 0 <= i < fields@.len() && spec_assoc_find(
                mb_fields_view(*fields),
                key@,
            ) == Option::Some(i as int),
            Option::None => spec_assoc_find(mb_fields_view(*fields), key@) is None,
        },
{
    proof {
        lemma_assoc_find(mb_fields_view(*fields), key@);
    }
    let mut i: usize = 0;
    while i < fields.len()
        invariant
            i <= fields@.len(),
            forall|j: int| 0 <= j < i ==> mb_fields_view(*fields)[j].0 != key@,
        decreases fields@.len() - i,
    {
        if str_eq(fields[i].0.as_str(), key) {
            proof {
                let m = mb_fields_view(*fields);
                assert(m[i as int].0 == key@);
                match spec_assoc_find(m, key@) {
                    Option::Some(found) => {
                        if found < i {
                            assert(m[found].0 == key@);
                        } else if found > i {
                            assert(m[i as int].0 != key@);
                        }
                    },
                    Option::None => {
                        assert(m[i as int].0 != key@);
                    },
                }
            }
            return Option::Some(i);
        }
        i = i + 1;
    }
    Option::None
}

/// The model of a collection table.
pub open spec fn mb_collections_view(cols: Vec<(String, Vec<MergeboxDocument>)>) -> Seq<
    (Seq<char>, Seq<MbDoc>),
> {
    Seq::new(cols@.len(), |i: int|
        if 0 <= i < cols@.len() {
            (cols@[i].0@, mb_docs_view(cols@[i].1))
        } else {
            (Seq::empty(), Seq::empty())
        }
    )
}

/// The model of the upstream server's last-told view.
pub open spec fn sv_view(sv: Vec<(String, Vec<(Value, Vec<(String, Value)>)>)>) -> Seq<
    (Seq<char>, Seq<(SpecValue, Seq<(Seq<char>, SpecValue)>)>),
> {
    Seq::new(sv@.len(), |i: int|
        if 0 <= i < sv@.len() {
            (sv@[i].0@, Seq::new(sv@[i].1@.len(), |j: int|
                if 0 <= j < sv@[i].1@.len() {
                    (sv@[i].1@[j].0@, obj_view(sv@[i].1@[j].1))
                } else {
                    (SpecValue::Null, Seq::empty())
                }
            ))
        } else {
            (Seq::empty(), Seq::empty())
        }
    )
}

/// Well-formedness of the whole buffer: unique collection names, unique
/// document keys per collection, and well-formed documents.
pub open spec fn mb_wf(cols: Seq<(Seq<char>, Seq<MbDoc>)>) -> bool {
    &&& forall|i: int, j: int| 0 <= i < j < cols.len() ==> (#[trigger] cols[i]).0 != (
    #[trigger] cols[j]).0
    &&& forall|i: int, d: int, e: int|
        0 <= i < cols.len() && 0 <= d < e < cols[i].1.len() ==> (#[trigger] cols[i].1[d]).id
            != (#[trigger] cols[i].1[e]).id
    &&& forall|i: int, d: int|
        0 <= i < cols.len() && 0 <= d < cols[i].1.len() ==> mb_doc_wf(#[trigger] cols[i].1[d])
}

/// Every contributor count in the buffer is below the bound.
pub open spec fn mb_lt(cols: Seq<(Seq<char>, Seq<MbDoc>)>, b: int) -> bool {
    forall|i: int, d: int|
        0 <= i < cols.len() && 0 <= d < cols[i].1.len() ==> mb_doc_lt(
            #[trigger] cols[i].1[d],
            b,
        )
}

/// How an insertion changes the collection table: a new collection enters
/// empty; a new document key enters with one contributor; a known key
/// gains a contributor and its fields merge.
pub open spec fn spec_mb_insert(
    cols: Seq<(Seq<char>, Seq<MbDoc>)>,
    c: Seq<char>,
    id: SpecValue,
    doc: Seq<(Seq<char>, SpecValue)>,
) -> (Seq<(Seq<char>, Seq<MbDoc>)>, bool, Seq<(Seq<char>, SpecValue)>) {
    let cols1 = if spec_assoc_find(cols, c) is Some {
        cols
    } else {
        cols.push((c, Seq::empty()))
    };
    let ci = spec_assoc_find(cols1, c)->Some_0;
    let docs = cols1[ci].1;
    match spec_find_doc(docs, id) {
        Option::None => (
            cols1.update(
                ci,
                (c, docs.push(MbDoc { id, count: 1, fields: spec_new_fields(doc) })),
            ),
            true,
            Seq::empty(),
        ),
        Option::Some(di) => {
            let (f2, ch) = spec_change_fields(docs[di].fields, doc);
            (
                cols1.update(
                    ci,
                    (
                        c,
                        docs.update(
                            di,
                            MbDoc { id, count: docs[di].count + 1, fields: f2 },
                        ),
                    ),
                ),
                false,
                ch,
            )
        },
    }
}

/// The removal of one element with the last one moved into its place.
pub open spec fn spec_swap_remove<T>(s: Seq<T>, i: int) -> Seq<T> {
    s.update(i, s.last()).drop_last()
}

/// How a withdrawal changes the collection table: the contributor count
/// falls; at zero the document leaves (the last one taking its place) and
/// the second component reports it; otherwise the third component names
/// the fields whose count reached zero.
pub open spec fn spec_mb_remove(
    cols: Seq<(Seq<char>, Seq<MbDoc>)>,
    c: Seq<char>,
    id: SpecValue,
    doc: Seq<(Seq<char>, SpecValue)>,
) -> Result<(Seq<(Seq<char>, Seq<MbDoc>)>, bool, Seq<Seq<char>>), MergeError> {
    match spec_assoc_find(cols, c) {
        Option::None => Result::Err(MergeError::CollectionNotFound),
        Option::Some(ci) => {
            let docs = cols[ci].1;
            match spec_find_doc(docs, id) {
                Option::None => Result::Err(MergeError::DocumentNotFound),
                Option::Some(di) => {
                    match spec_remove_fields(docs[di].fields, doc) {
                        Option::None => Result::Err(MergeError::FieldNotFound),
                        Option::Some((f2, cl)) => {
                            if docs[di].count == 1 {
                                Result::Ok(
                                    (
                                        cols.update(ci, (c, spec_swap_remove(docs, di))),
                                        true,
                                        cl,
                                    ),
                                )
                            } else {
                                Result::Ok(
                                    (
                                        cols.update(
                                            ci,
                                            (
                                                c,
                                                docs.update(
                                                    di,
                                                    MbDoc {
                                                        id,
                                                        count: docs[di].count - 1,
                                                        fields: f2,
                                                    },
                                                ),
                                            ),
                                        ),
                                        false,
                                        cl,
                                    ),
                                )
                            }
                        },
                    }
                },
            }
        },
    }
}

/// The messages one insertion emits, in shape: `Added` for a new key
/// with the document's fields (or nothing for an empty document), a
/// minimal `Changed` otherwise, nothing when nothing changed.
pub open spec fn spec_insert_msgs_shape(
    msgs: Seq<DDPMessage>,
    c: Seq<char>,
    id: SpecValue,
    doc: Seq<(Seq<char>, SpecValue)>,
    is_new: bool,
    ch: Seq<(Seq<char>, SpecValue)>,
) -> bool {
    if is_new {
        &&& msgs.len() == 1
        &&& msgs[0] matches DDPMessage::Added { collection: mc, id: mi, fields: f } && mc@ == c
            && mi@ == id && (if doc.len() == 0 {
            f is None
        } else {
            f matches Option::Some(d) && obj_view(d) == doc
        })
    } else if ch.len() > 0 {
        &&& msgs.len() == 1
        &&& msgs[0] matches DDPMessage::Changed { collection: mc, id: mi, fields: f, cleared: cl }
            && mc@ == c && mi@ == id && (f matches Option::Some(d) && obj_view(d) == ch) && cl
            is None
    } else {
        msgs.len() == 0
    }
}

/// The messages one withdrawal emits, in shape: `Removed` when the last
/// contributor leaves, a clearing `Changed` when fields lost their last
/// contributor, nothing otherwise.
pub open spec fn spec_remove_msgs_shape(
    msgs: Seq<DDPMessage>,
    c: Seq<char>,
    id: SpecValue,
    removed: bool,
    cl: Seq<Seq<char>>,
) -> bool {
    if removed {
        msgs.len() == 1 && (msgs[0] matches DDPMessage::Removed { collection: mc, id: mi } && mc@
            == c && mi@ == id)
    } else if cl.len() > 0 {
        msgs.len() == 1 && (msgs[0] matches DDPMessage::Changed {
            collection: mc,
            id: mi,
            fields: f,
            cleared: gcl,
        } && mc@ == c && mi@ == id && f is None && (gcl matches Option::Some(names)
            && cleared_view(names) == cl))
    } else {
        msgs.len() == 0
    }
}

/// The upstream view is covered by the buffer: every version the
/// upstream last told can be withdrawn — its collection and document are
/// held and every field of it has a live contribution. This ties
/// `server_view` to `collections`: the upstream's contribution is one of
/// the counted contributors.
pub open spec fn sv_covered(
    cols: Seq<(Seq<char>, Seq<MbDoc>)>,
    sv: Seq<(Seq<char>, Seq<(SpecValue, Seq<(Seq<char>, SpecValue)>)>)>,
) -> bool {
    forall|ci: int, di: int|
        0 <= ci < sv.len() && 0 <= di < sv[ci].1.len() ==> spec_mb_remove(
            cols,
            sv[ci].0,
            (#[trigger] sv[ci].1[di]).0,
            sv[ci].1[di].1,
        ) is Ok
}

/// Appending an entry leaves every present key where it was.
proof fn lemma_assoc_find_present_push<T>(s: Seq<(Seq<char>, T)>, e: (Seq<char>, T), x: Seq<char>)
    requires
        spec_assoc_find(s, x) is Some,
    ensures
        spec_assoc_find(s.push(e), x) == spec_assoc_find(s, x),
    decreases s.len(),
{
    if s.len() > 0 && s[0].0 != x {
        assert(s.push(e).skip(1) =~= s.skip(1).push(e));
        lemma_assoc_find_present_push(s.skip(1), e, x);
    }
}

/// Lookup depends on the keys alone.
proof fn lemma_assoc_find_same_keys<T>(f: Seq<(Seq<char>, T)>, g: Seq<(Seq<char>, T)>, x: Seq<char>)
    requires
        f.len() == g.len(),
        forall|i: int| 0 <= i < f.len() ==> (#[trigger] f[i]).0 == g[i].0,
    ensures
        spec_assoc_find(f, x) == spec_assoc_find(g, x),
    decreases f.len(),
{
    if f.len() > 0 {
        assert(f[0].0 == g[0].0);
        if f[0].0 != x {
            assert forall|i: int| 0 <= i < f.skip(1).len() implies (#[trigger] f.skip(1)[i]).0
                == g.skip(1)[i].0 by {
                assert(f.skip(1)[i] == f[i + 1]);
                assert(g.skip(1)[i] == g[i + 1]);
            }
            lemma_assoc_find_same_keys(f.skip(1), g.skip(1), x);
        }
    }
}

/// Removing an entry with another key leaves a present key present.
proof fn lemma_assoc_find_present_remove<T>(f: Seq<(Seq<char>, T)>, i: int, x: Seq<char>)
    requires
        0 <= i < f.len(),
        f[i].0 != x,
        spec_assoc_find(f, x) is Some,
    ensures
        spec_assoc_find(f.remove(i), x) is Some,
    decreases f.len(),
{
    if i == 0 {
        assert(f.remove(0) =~= f.skip(1));
        assert(f[0].0 != x);
    } else {
        assert(f.remove(i)[0] == f[0]);
        if f[0].0 != x {
            assert(f.skip(1)[i - 1] == f[i]);
            lemma_assoc_find_present_remove(f.skip(1), i - 1, x);
            assert(f.remove(i).skip(1) =~= f.skip(1).remove(i - 1));
        }
    }
}

/// A key present before a removal was present in the original table.
proof fn lemma_assoc_find_remove_origin<T>(f: Seq<(Seq<char>, T)>, i: int, x: Seq<char>)
    requires
        0 <= i < f.len(),
        spec_assoc_find(f.remove(i), x) is Some,
    ensures
        spec_assoc_find(f, x) is Some,
    decreases f.len(),
{
    if i == 0 {
        assert(f.remove(0) =~= f.skip(1));
    } else {
        assert(f.remove(i)[0] == f[0]);
        if f[0].0 != x {
            assert(f.remove(i).skip(1) =~= f.skip(1).remove(i - 1));
            lemma_assoc_find_remove_origin(f.skip(1), i - 1, x);
        }
    }
}

/// Merging a contributor's fields keeps every present key present.
proof fn lemma_change_fields_keeps_key(
    f: Seq<(Seq<char>, MbField)>,
    ins: Seq<(Seq<char>, SpecValue)>,
    x: Seq<char>,
)
    requires
        spec_assoc_find(f, x) is Some,
    ensures
        spec_assoc_find(spec_change_fields(f, ins).0, x) is Some,
    decreases ins.len(),
{
    if ins.len() > 0 {
        lemma_change_fields_keeps_key(f, ins.drop_last(), x);
        let (f1, ch1) = spec_change_fields(f, ins.drop_last());
        let (k, v) = ins.last();
        match spec_assoc_find(f1, k) {
            Option::Some(i) => {
                lemma_assoc_find(f1, k);
                let f2 = f1.update(i, (k, MbField { count: f1[i].1.count + 1, value: v }));
                assert forall|m: int| 0 <= m < f1.len() implies (#[trigger] f1[m]).0
                    == f2[m].0 by {}
                lemma_assoc_find_same_keys(f1, f2, x);
            },
            Option::None => {
                lemma_assoc_find_present_push(f1, (k, MbField { count: 1, value: v }), x);
            },
        }
    }
}

/// Withdrawing fields with other keys keeps an untouched key present.
proof fn lemma_remove_fields_keeps_other_key(
    f: Seq<(Seq<char>, MbField)>,
    doc: Seq<(Seq<char>, SpecValue)>,
    x: Seq<char>,
)
    requires
        spec_remove_fields(f, doc) is Some,
        spec_assoc_find(f, x) is Some,
        forall|i: int| 0 <= i < doc.len() ==> (#[trigger] doc[i]).0 != x,
    ensures
        spec_assoc_find(spec_remove_fields(f, doc)->Some_0.0, x) is Some,
    decreases doc.len(),
{
    if doc.len() > 0 {
        assert forall|i: int| 0 <= i < doc.drop_last().len() implies (
        #[trigger] doc.drop_last()[i]).0 != x by {
            assert(doc.drop_last()[i] == doc[i]);
        }
        lemma_remove_fields_keeps_other_key(f, doc.drop_last(), x);
        let (f1, cl1) = spec_remove_fields(f, doc.drop_last())->Some_0;
        let k = doc.last().0;
        assert(k != x);
        match spec_assoc_find(f1, k) {
            Option::Some(i) => {
                lemma_assoc_find(f1, k);
                if f1[i].1.count == 1 {
                    lemma_assoc_find_present_remove(f1, i, x);
                } else {
                    let f2 = f1.update(
                        i,
                        (k, MbField { count: f1[i].1.count - 1, value: f1[i].1.value }),
                    );
                    assert forall|m: int| 0 <= m < f1.len() implies (#[trigger] f1[m]).0
                        == f2[m].0 by {}
                    lemma_assoc_find_same_keys(f1, f2, x);
                }
            },
            Option::None => {},
        }
    }
}

/// A key present after a withdrawal was present before it.
proof fn lemma_remove_fields_key_origin(
    f: Seq<(Seq<char>, MbField)>,
    doc: Seq<(Seq<char>, SpecValue)>,
    x: Seq<char>,
)
    requires
        spec_remove_fields(f, doc) is Some,
        spec_assoc_find(spec_remove_fields(f, doc)->Some_0.0, x) is Some,
    ensures
        spec_assoc_find(f, x) is Some,
    decreases doc.len(),
{
    if doc.len() > 0 {
        let (f1, cl1) = spec_remove_fields(f, doc.drop_last())->Some_0;
        let k = doc.last().0;
        match spec_assoc_find(f1, k) {
            Option::Some(i) => {
                lemma_assoc_find(f1, k);
                if f1[i].1.count == 1 {
                    lemma_assoc_find_remove_origin(f1, i, x);
                } else {
                    let f2 = f1.update(
                        i,
                        (k, MbField { count: f1[i].1.count - 1, value: f1[i].1.value }),
                    );
                    assert forall|m: int| 0 <= m < f1.len() implies (#[trigger] f1[m]).0
                        == f2[m].0 by {}
                    lemma_assoc_find_same_keys(f1, f2, x);
                }
            },
            Option::None => {},
        }
        lemma_remove_fields_key_origin(f, doc.drop_last(), x);
    }
}

/// A withdrawal that succeeds found every key of its document.
proof fn lemma_remove_fields_keys_present(
    f: Seq<(Seq<char>, MbField)>,
    doc: Seq<(Seq<char>, SpecValue)>,
)
    requires
        spec_remove_fields(f, doc) is Some,
    ensures
        forall|i: int|
            0 <= i < doc.len() ==> spec_assoc_find(f, (#[trigger] doc[i]).0) is Some,
    decreases doc.len(),
{
    if doc.len() > 0 {
        lemma_remove_fields_keys_present(f, doc.drop_last());
        let (f1, cl1) = spec_remove_fields(f, doc.drop_last())->Some_0;
        let k = doc.last().0;
        lemma_remove_fields_key_origin(f, doc.drop_last(), k);
        assert forall|i: int| 0 <= i < doc.len() implies spec_assoc_find(
            f,
            (#[trigger] doc[i]).0,
        ) is Some by {
            if i < doc.len() - 1 {
                assert(doc.drop_last()[i] == doc[i]);
            }
        }
    }
}

/// A withdrawal succeeds whenever the document's keys are distinct and
/// each is present in the field table.
proof fn lemma_remove_fields_some(
    f: Seq<(Seq<char>, MbField)>,
    doc: Seq<(Seq<char>, SpecValue)>,
)
    requires
        obj_keys_unique(doc),
        forall|i: int|
            0 <= i < doc.len() ==> spec_assoc_find(f, (#[trigger] doc[i]).0) is Some,
    ensures
        spec_remove_fields(f, doc) is Some,
    decreases doc.len(),
{
    if doc.len() > 0 {
        assert forall|i: int| 0 <= i < doc.drop_last().len() implies spec_assoc_find(
            f,
            (#[trigger] doc.drop_last()[i]).0,
        ) is Some by {
            assert(doc.drop_last()[i] == doc[i]);
        }
        assert(obj_keys_unique(doc.drop_last())) by {
            assert forall|a: int, b: int|
                0 <= a < b < doc.drop_last().len() implies (#[trigger] doc.drop_last()[a]).0
                != (#[trigger] doc.drop_last()[b]).0 by {
                assert(doc.drop_last()[a] == doc[a]);
                assert(doc.drop_last()[b] == doc[b]);
            }
        }
        lemma_remove_fields_some(f, doc.drop_last());
        let (f1, cl1) = spec_remove_fields(f, doc.drop_last())->Some_0;
        let k = doc.last().0;
        assert forall|i: int| 0 <= i < doc.drop_last().len() implies (
        #[trigger] doc.drop_last()[i]).0 != k by {
            assert(doc.drop_last()[i] == doc[i]);
        }
        lemma_remove_fields_keeps_other_key(f, doc.drop_last(), k);
    }
}

/// Merging one more contribution never breaks a withdrawal that would
/// have succeeded.
proof fn lemma_remove_fields_after_change(
    f: Seq<(Seq<char>, MbField)>,
    ins: Seq<(Seq<char>, SpecValue)>,
    doc: Seq<(Seq<char>, SpecValue)>,
)
    requires
        obj_keys_unique(doc),
        spec_remove_fields(f, doc) is Some,
    ensures
        spec_remove_fields(spec_change_fields(f, ins).0, doc) is Some,
{
    lemma_remove_fields_keys_present(f, doc);
    assert forall|i: int| 0 <= i < doc.len() implies spec_assoc_find(
        spec_change_fields(f, ins).0,
        (#[trigger] doc[i]).0,
    ) is Some by {
        lemma_change_fields_keeps_key(f, ins, doc[i].0);
    }
    lemma_remove_fields_some(spec_change_fields(f, ins).0, doc);
}

/// Document lookup depends on the keys alone.
proof fn lemma_find_doc_same_ids(a: Seq<MbDoc>, b: Seq<MbDoc>, id: SpecValue)
    requires
        a.len() == b.len(),
        forall|i: int| 0 <= i < a.len() ==> (#[trigger] a[i]).id == b[i].id,
    ensures
        spec_find_doc(a, id) == spec_find_doc(b, id),
    decreases a.len(),
{
    if a.len() > 0 {
        assert(a[0].id == b[0].id);
        if a[0].id != id {
            assert forall|i: int| 0 <= i < a.skip(1).len() implies (#[trigger] a.skip(1)[i]).id
                == b.skip(1)[i].id by {
                assert(a.skip(1)[i] == a[i + 1]);
                assert(b.skip(1)[i] == b[i + 1]);
            }
            lemma_find_doc_same_ids(a.skip(1), b.skip(1), id);
        }
    }
}

/// Merging one more contribution for a key keeps every withdrawal of a
/// last-told version possible: the collection stays, the document stays,
/// and the merged field table still holds every field of the version.
pub proof fn lemma_mb_insert_keeps_remove_ok(
    cols: Seq<(Seq<char>, Seq<MbDoc>)>,
    c: Seq<char>,
    id: SpecValue,
    ins: Seq<(Seq<char>, SpecValue)>,
    doc: Seq<(Seq<char>, SpecValue)>,
)
    requires
        obj_keys_unique(doc),
        spec_mb_remove(cols, c, id, doc) is Ok,
    ensures
        spec_mb_remove(spec_mb_insert(cols, c, id, ins).0, c, id, doc) is Ok,
{
    let ci = spec_assoc_find(cols, c)->Some_0;
    lemma_assoc_find(cols, c);
    let docs = cols[ci].1;
    let di = spec_find_doc(docs, id)->Some_0;
    lemma_find_doc(docs, id);
    let (f2, ch) = spec_change_fields(docs[di].fields, ins);
    let docs2 = docs.update(di, MbDoc { id, count: docs[di].count + 1, fields: f2 });
    let cols2 = spec_mb_insert(cols, c, id, ins).0;
    assert(cols2 == cols.update(ci, (c, docs2)));
    assert forall|m: int| 0 <= m < cols.len() implies (#[trigger] cols[m]).0
        == cols2[m].0 by {}
    lemma_assoc_find_same_keys(cols, cols2, c);
    assert forall|m: int| 0 <= m < docs.len() implies (#[trigger] docs[m]).id
        == docs2[m].id by {}
    lemma_find_doc_same_ids(docs, docs2, id);
    lemma_remove_fields_after_change(docs[di].fields, ins, doc);
}

/// The per-session reconciliation buffer.
pub struct Mergebox {
    pub collections: Vec<(String, Vec<MergeboxDocument>)>,
    pub server_view: Vec<(String, Vec<(Value, Vec<(String, Value)>)>)>,
}

impl Mergebox {
    /// An empty buffer.
    pub fn new() -> (r: Mergebox)
        ensures
            mb_collections_view(r.collections) =~= Seq::<(Seq<char>, Seq<MbDoc>)>::empty(),
            sv_view(r.server_view) =~= Seq::<
                (Seq<char>, Seq<(SpecValue, Seq<(Seq<char>, SpecValue)>)>),
            >::empty(),
    {
        Mergebox { collections: Vec::new(), server_view: Vec::new() }
    }

    /// A contributor asserts a document version. The returned messages are
    /// the delta a client must see: `Added` for a new key, a minimal
    /// `Changed` otherwise, nothing when nothing changed.
    #[verifier::loop_isolation(false)]
    pub fn insert(&mut self, collection: String, id: Value, document: Vec<(String, Value)>) -> (r:
        Vec<DDPMessage>)
        requires
            mb_wf(mb_collections_view(old(self).collections)),
            mb_lt(mb_collections_view(old(self).collections), usize::MAX as int),
            obj_keys_unique(obj_view(document)),
        ensures
            ({
                let (cols2, is_new, ch) = spec_mb_insert(
                    mb_collections_view(old(self).collections),
                    collection@,
                    id@,
                    obj_view(document),
                );
                &&& mb_collections_view(final(self).collections) == cols2
                &&& final(self).server_view == old(self).server_view
                &&& if is_new {
                    &&& r@.len() == 1
                    &&& r@[0] matches DDPMessage::Added { collection: c, id: i, fields: f }
                        && c@ == collection@ && i@ == id@ && (if obj_view(document).len() == 0 {
                        f is None
                    } else {
                        f matches Option::Some(d) && obj_view(d) == obj_view(document)
                    })
                } else if ch.len() > 0 {
                    &&& r@.len() == 1
                    &&& r@[0] matches DDPMessage::Changed {
                        collection: c,
                        id: i,
                        fields: f,
                        cleared: cl,
                    } && c@ == collection@ && i@ == id@ && (f matches Option::Some(d)
                        && obj_view(d) == ch) && cl is None
                } else {
                    r@.len() == 0
                }
            }),
    {
        let ghost cols0 = mb_collections_view(self.collections);
        let ghost gdoc = obj_view(document);
        let ghost gcol = collection@;
        let ghost gid = id@;
        proof {
            lemma_assoc_find(mb_collections_view(self.collections), collection@);
        }
        let maybe_ci = find_collection(&self.collections, collection.as_str());
        let ci = match maybe_ci {
            Option::Some(ci) => ci,
            Option::None => {
                let ghost before = mb_collections_view(self.collections);
                let n = self.collections.len();
                self.collections.push((collection.clone(), Vec::new()));
                proof {
                    assert(mb_collections_view(self.collections) =~~= before.push(
                        (collection@, Seq::<MbDoc>::empty()),
                    ));
                    lemma_assoc_find_push(
                        before,
                        collection@,
                        Seq::<MbDoc>::empty(),
                    );
                    assert(mb_docs_view(self.collections@[n as int].1)
                        =~~= Seq::<MbDoc>::empty());
                }
                n
            },
        };
        let ghost cols1 = mb_collections_view(self.collections);
        proof {
            assert(spec_assoc_find(cols1, collection@) == Option::Some(ci as int));
        }
        let ghost docs = cols1[ci as int].1;
        proof {
            lemma_find_doc(docs, id@);
        }
        let maybe_di = find_document(&self.collections[ci].1, &id);
        let mut messages: Vec<DDPMessage> = Vec::new();
        match maybe_di {
            Option::None => {
                let ghost before_docs = mb_docs_view(self.collections@[ci as int].1);
                let new_doc = MergeboxDocument::new(id.clone(), document);
                let is_empty = new_doc.fields.len() == 0;
                let fields_arg: Option<Vec<(String, Value)>> = if is_empty {
                    Option::None
                } else {
                    let rebuilt = rebuild_fields(&new_doc);
                    proof {
                        assert(mb_fields_view(new_doc.fields) == spec_new_fields(gdoc));
                        assert(obj_view(rebuilt) =~= gdoc);
                    }
                    Option::Some(rebuilt)
                };
                proof {
                    assert(mb_doc_view(new_doc).fields == spec_new_fields(gdoc));
                    assert(mb_fields_view(new_doc.fields).len() == new_doc.fields@.len());
                    assert(spec_new_fields(gdoc).len() == gdoc.len());
                    assert(is_empty <==> gdoc.len() == 0);
                    if !is_empty {
                        assert(fields_arg matches Option::Some(d) && obj_view(d) == gdoc);
                    }
                }
                let (col_key, mut col_docs) = self.collections.remove(ci);
                col_docs.push(new_doc);
                self.collections.insert(ci, (col_key, col_docs));
                messages.push(DDPMessage::Added { collection, id, fields: fields_arg });
                proof {
                    assert(mb_docs_view(self.collections@[ci as int].1) =~~= before_docs.push(
                        MbDoc { id: id@, count: 1, fields: spec_new_fields(gdoc) },
                    ));
                    assert(mb_collections_view(self.collections) =~~= cols1.update(
                        ci as int,
                        (collection@, before_docs.push(
                            MbDoc { id: id@, count: 1, fields: spec_new_fields(gdoc) },
                        )),
                    ));
                }
            },
            Option::Some(di) => {
                let ghost before_docs = mb_docs_view(self.collections@[ci as int].1);
                let (col_key, mut col_docs) = self.collections.remove(ci);
                let mut doc_entry = col_docs.remove(di);
                proof {
                    assert(mb_doc_view(doc_entry) == before_docs[di as int]);
                }
                let changed = doc_entry.change(document);
                col_docs.insert(di, doc_entry);
                self.collections.insert(ci, (col_key, col_docs));
                proof {
                    let (f2, ch) = spec_change_fields(before_docs[di as int].fields, gdoc);
                    assert(mb_docs_view(self.collections@[ci as int].1) =~~= before_docs.update(
                        di as int,
                        MbDoc {
                            id: id@,
                            count: before_docs[di as int].count + 1,
                            fields: f2,
                        },
                    ));
                    assert(mb_collections_view(self.collections) =~~= cols1.update(
                        ci as int,
                        (collection@, before_docs.update(
                            di as int,
                            MbDoc {
                                id: id@,
                                count: before_docs[di as int].count + 1,
                                fields: f2,
                            },
                        )),
                    ));
                }
                if changed.len() > 0 {
                    messages.push(DDPMessage::Changed {
                        collection,
                        id,
                        fields: Option::Some(changed),
                        cleared: Option::None,
                    });
                }
            },
        }
        proof {
            let (cols2, is_new, ch) = spec_mb_insert(cols0, gcol, gid, gdoc);
            assert(mb_collections_view(self.collections) == cols2);
            if is_new {
                assert(messages@.len() == 1);
                assert(messages@[0] is Added);
                assert(messages@[0]->Added_collection@ == gcol);
                assert(messages@[0]->Added_id@ == gid);
                if gdoc.len() == 0 {
                    assert(messages@[0]->Added_fields is None);
                } else {
                    assert(messages@[0]->Added_fields matches Option::Some(d) && obj_view(d)
                        == gdoc);
                }
            } else if ch.len() > 0 {
                assert(messages@.len() == 1);
                assert(messages@[0] matches DDPMessage::Changed {
                    collection: c,
                    id: i,
                    fields: f,
                    cleared: cl,
                } && c@ == gcol && i@ == gid && (f matches Option::Some(d) && obj_view(d) == ch)
                    && cl is None);
            } else {
                assert(messages@.len() == 0);
            }
        }
        messages
    }

    /// A contributor withdraws the document version it last asserted. The
    /// returned messages are the delta a client must see: `Removed` when
    /// the last contributor leaves, a clearing `Changed` when some fields
    /// lost their last contributor, nothing otherwise.
    #[verifier::loop_isolation(false)]
    pub fn remove(&mut self, collection: String, id: Value, document: &Vec<(String, Value)>) -> (r:
        Result<Vec<DDPMessage>, MergeError>)
        requires
            mb_wf(mb_collections_view(old(self).collections)),
        ensures
            match r {
                Result::Ok(msgs) => {
                    &&& spec_mb_remove(
                        mb_collections_view(old(self).collections),
                        collection@,
                        id@,
                        obj_view(*document),
                    ) matches Result::Ok((cols2, removed, cl))
                    &&& mb_collections_view(final(self).collections) == cols2
                    &&& final(self).server_view == old(self).server_view
                    &&& if removed {
                        msgs@.len() == 1 && (msgs@[0] matches DDPMessage::Removed {
                            collection: c,
                            id: i,
                        } && c@ == collection@ && i@ == id@)
                    } else if cl.len() > 0 {
                        msgs@.len() == 1 && (msgs@[0] matches DDPMessage::Changed {
                            collection: c,
                            id: i,
                            fields: f,
                            cleared: gcl,
                        } && c@ == collection@ && i@ == id@ && f is None && (gcl
                            matches Option::Some(names) && cleared_view(names) == cl))
                    } else {
                        msgs@.len() == 0
                    }
                },
                Result::Err(e) => {
                    &&& spec_mb_remove(
                        mb_collections_view(old(self).collections),
                        collection@,
                        id@,
                        obj_view(*document),
                    ) == Result::<(Seq<(Seq<char>, Seq<MbDoc>)>, bool, Seq<Seq<char>>),
                        MergeError,
                    >::Err(e)
                    &&& e != MergeError::FieldNotFound ==> *final(self) == *old(self)
                    &&& final(self).server_view == old(self).server_view
                },
            },
    {
        let ghost cols0 = mb_collections_view(self.collections);
        let ghost gdoc = obj_view(*document);
        let ghost gcol = collection@;
        let ghost gid = id@;
        proof {
            lemma_assoc_find(cols0, gcol);
        }
        let ci = match find_collection(&self.collections, collection.as_str()) {
            Option::Some(ci) => ci,
            Option::None => {
                return Result::Err(MergeError::CollectionNotFound);
            },
        };
        let ghost docs = cols0[ci as int].1;
        proof {
            lemma_find_doc(docs, gid);
        }
        let di = match find_document(&self.collections[ci].1, &id) {
            Option::Some(di) => di,
            Option::None => {
                return Result::Err(MergeError::DocumentNotFound);
            },
        };
        let (col_key, mut col_docs) = self.collections.remove(ci);
        let mut doc_entry = col_docs.remove(di);
        proof {
            assert(mb_doc_view(doc_entry) == docs[di as int]);
        }
        let cleared = match doc_entry.remove(document) {
            Result::Ok(cleared) => cleared,
            Result::Err(e) => {
                col_docs.insert(di, doc_entry);
                self.collections.insert(ci, (col_key, col_docs));
                return Result::Err(e);
            },
        };
        let mut messages: Vec<DDPMessage> = Vec::new();
        if doc_entry.count == 0 {
            col_docs.insert(di, doc_entry);
            col_docs.swap_remove(di);
            self.collections.insert(ci, (col_key, col_docs));
            messages.push(DDPMessage::Removed { collection, id });
            proof {
                let (f2, cl) = spec_remove_fields(docs[di as int].fields, gdoc)->Some_0;
                assert(mb_docs_view(self.collections@[ci as int].1) =~~= spec_swap_remove(
                    docs,
                    di as int,
                ));
                assert(mb_collections_view(self.collections) =~~= cols0.update(
                    ci as int,
                    (gcol, spec_swap_remove(docs, di as int)),
                ));
            }
        } else {
            col_docs.insert(di, doc_entry);
            self.collections.insert(ci, (col_key, col_docs));
            proof {
                let (f2, cl) = spec_remove_fields(docs[di as int].fields, gdoc)->Some_0;
                assert(mb_docs_view(self.collections@[ci as int].1) =~~= docs.update(
                    di as int,
                    MbDoc { id: gid, count: docs[di as int].count - 1, fields: f2 },
                ));
                assert(mb_collections_view(self.collections) =~~= cols0.update(
                    ci as int,
                    (gcol, docs.update(
                        di as int,
                        MbDoc { id: gid, count: docs[di as int].count - 1, fields: f2 },
                    )),
                ));
            }
            if cleared.len() > 0 {
                messages.push(DDPMessage::Changed {
                    collection,
                    id,
                    fields: Option::None,
                    cleared: Option::Some(cleared),
                });
            }
        }
        Result::Ok(messages)
    }
}

/// Finding a key in a pushed list: when no earlier entry matches, the new
/// entry is found at the end.
proof fn lemma_assoc_find_push<T>(s: Seq<(Seq<char>, T)>, k: Seq<char>, t: T)
    requires
        spec_assoc_find(s, k) is None,
    ensures
        spec_assoc_find(s.push((k, t)), k) == Option::Some(s.len() as int),
    decreases s.len(),
{
    lemma_assoc_find(s, k);
    if s.len() == 0 {
        assert(s.push((k, t))[0].0 == k);
    } else {
        assert(s.push((k, t))[0] == s[0]);
        assert(s.push((k, t)).skip(1) =~= s.skip(1).push((k, t)));
        lemma_assoc_find_push(s.skip(1), k, t);
    }
}

/// Finds a collection by name.
#[verifier::loop_isolation(false)]
fn find_collection(cols: &Vec<(String, Vec<MergeboxDocument>)>, key: &str) -> (r: Option<usize>)
    ensures
        match r {
            Option::Some(i) => 0 <= i < cols@.len() && spec_assoc_find(
                mb_collections_view(*cols),
                key@,
            ) == Option::Some(i as int),
            Option::None => spec_assoc_find(mb_collections_view(*cols), key@) is None,
        },
{
    proof {
        lemma_assoc_find(mb_collections_view(*cols), key@);
    }
    let mut i: usize = 0;
    while i < cols.len()
        invariant
            i <= cols@.len(),
            forall|j: int| 0 <= j < i ==> mb_collections_view(*cols)[j].0 != key@,
        decreases cols@.len() - i,
    {
        if str_eq(cols[i].0.as_str(), key) {
            proof {
                let m = mb_collections_view(*cols);
                assert(m[i as int].0 == key@);
                match spec_assoc_find(m, key@) {
                    Option::Some(found) => {
                        if found < i {
                            assert(m[found].0 == key@);
                        } else if found > i {
                            assert(m[i as int].0 != key@);
                        }
                    },
                    Option::None => {
                        assert(m[i as int].0 != key@);
                    },
                }
            }
            return Option::Some(i);
        }
        i = i + 1;
    }
    Option::None
}

/// Finds a document by key.
#[verifier::loop_isolation(false)]
fn find_document(docs: &Vec<MergeboxDocument>, id: &Value) -> (r: Option<usize>)
    ensures
        match r {
            Option::Some(i) => 0 <= i < docs@.len() && spec_find_doc(mb_docs_view(*docs), id@)
                == Option::Some(i as int),
            Option::None => spec_find_doc(mb_docs_view(*docs), id@) is None,
        },
{
    proof {
        lemma_find_doc(mb_docs_view(*docs), id@);
    }
    let mut i: usize = 0;
    while i < docs.len()
        invariant
            i <= docs@.len(),
            forall|j: int| 0 <= j < i ==> mb_docs_view(*docs)[j].id != id@,
        decreases docs@.len() - i,
    {
        if value_eq(&docs[i].id, id) {
            proof {
                let m = mb_docs_view(*docs);
                assert(m[i as int].id == id@);
                match spec_find_doc(m, id@) {
                    Option::Some(found) => {
                        if found < i {
                            assert(m[found].id == id@);
                        } else if found > i {
                            assert(m[i as int].id != id@);
                        }
                    },
                    Option::None => {
                        assert(m[i as int].id != id@);
                    },
                }
            }
            return Option::Some(i);
        }
        i = i + 1;
    }
    Option::None
}

/// Rebuilds the plain document a freshly created entry holds, for the
/// `Added` message.
#[verifier::loop_isolation(false)]
fn rebuild_fields(doc: &MergeboxDocument) -> (r: Vec<(String, Value)>)
    ensures
        obj_view(r).len() == mb_fields_view(doc.fields).len(),
        forall|i: int| 0 <= i < obj_view(r).len() ==> (#[trigger] obj_view(r)[i]).0
            == mb_fields_view(doc.fields)[i].0 && obj_view(r)[i].1 == mb_fields_view(
            doc.fields,
        )[i].1.value,
{
    let mut out: Vec<(String, Value)> = Vec::new();
    let mut i: usize = 0;
    while i < doc.fields.len()
        invariant
            i <= doc.fields@.len(),
            out@.len() == i,
            forall|j: int| 0 <= j < i ==> (#[trigger] out@[j]).0@ == doc.fields@[j].0@
                && out@[j].1@ == doc.fields@[j].1.value@,
        decreases doc.fields@.len() - i,
    {
        let (k, f) = &doc.fields[i];
        out.push((k.clone(), f.value.clone()));
        i = i + 1;
    }
    out
}

/// The upstream view with one version appended under a collection.
pub open spec fn spec_sv_push(
    sv: Seq<(Seq<char>, Seq<(SpecValue, Seq<(Seq<char>, SpecValue)>)>)>,
    c: Seq<char>,
    id: SpecValue,
    doc: Seq<(Seq<char>, SpecValue)>,
) -> Seq<(Seq<char>, Seq<(SpecValue, Seq<(Seq<char>, SpecValue)>)>)> {
    let sv1 = if spec_assoc_find(sv, c) is Some {
        sv
    } else {
        sv.push((c, Seq::empty()))
    };
    let ci = spec_assoc_find(sv1, c)->Some_0;
    sv1.update(ci, (c, sv1[ci].1.push((id, doc))))
}

impl Mergebox {
    /// The upstream server asserts a document: record it in the upstream
    /// view and merge it as one more contribution.
    #[verifier::loop_isolation(false)]
    pub fn server_added(
        &mut self,
        collection: String,
        id: Value,
        fields: Option<Vec<(String, Value)>>,
    ) -> (r: Vec<DDPMessage>)
        requires
            mb_wf(mb_collections_view(old(self).collections)),
            mb_lt(mb_collections_view(old(self).collections), usize::MAX as int),
            match fields {
                Option::Some(d) => obj_keys_unique(obj_view(d)),
                Option::None => true,
            },
        ensures
            ({
                let doc = match fields {
                    Option::Some(d) => obj_view(d),
                    Option::None => Seq::empty(),
                };
                let (cols2, is_new, ch) = spec_mb_insert(
                    mb_collections_view(old(self).collections),
                    collection@,
                    id@,
                    doc,
                );
                &&& mb_collections_view(final(self).collections) == cols2
                &&& sv_view(final(self).server_view) =~~= spec_sv_push(
                    sv_view(old(self).server_view),
                    collection@,
                    id@,
                    doc,
                )
                &&& spec_insert_msgs_shape(r@, collection@, id@, doc, is_new, ch)
            }),
    {
        let document: Vec<(String, Value)> = match fields {
            Option::Some(d) => d,
            Option::None => Vec::new(),
        };
        let ghost gdoc = obj_view(document);
        proof {
            assert(match fields {
                Option::Some(d) => gdoc == obj_view(d),
                Option::None => gdoc =~= Seq::<(Seq<char>, SpecValue)>::empty(),
            });
        }
        let copy_for_view = clone_document(&document);
        self.push_server_view(collection.clone(), id.clone(), copy_for_view);
        self.insert(collection, id, document)
    }

    /// Records one version in the upstream view.
    #[verifier::loop_isolation(false)]
    fn push_server_view(&mut self, collection: String, id: Value, document: Vec<(String, Value)>)
        ensures
            sv_view(final(self).server_view) =~~= spec_sv_push(
                sv_view(old(self).server_view),
                collection@,
                id@,
                obj_view(document),
            ),
            final(self).collections == old(self).collections,
    {
        let ghost sv0 = sv_view(self.server_view);
        let ghost gdoc = obj_view(document);
        proof {
            lemma_assoc_find(sv0, collection@);
        }
        let ci = match find_server_collection(&self.server_view, collection.as_str()) {
            Option::Some(ci) => ci,
            Option::None => {
                let ghost before = sv_view(self.server_view);
                let n = self.server_view.len();
                self.server_view.push((collection.clone(), Vec::new()));
                proof {
                    assert(sv_view(self.server_view) =~~= before.push(
                        (collection@, Seq::empty()),
                    ));
                    lemma_assoc_find_push(
                        before,
                        collection@,
                        Seq::<(SpecValue, Seq<(Seq<char>, SpecValue)>)>::empty(),
                    );
                }
                n
            },
        };
        let ghost sv1 = sv_view(self.server_view);
        proof {
            assert(spec_assoc_find(sv1, collection@) == Option::Some(ci as int));
        }
        let (key, mut docs) = self.server_view.remove(ci);
        docs.push((id, document));
        self.server_view.insert(ci, (key, docs));
        proof {
            assert(sv_view(self.server_view) =~~= sv1.update(
                ci as int,
                (collection@, sv1[ci as int].1.push((id@, gdoc))),
            ));
        }
    }
}

impl Mergebox {
    /// The upstream server withdraws a document: drop its last-told
    /// version and withdraw that contribution.
    #[verifier::loop_isolation(false)]
    pub fn server_removed(&mut self, collection: String, id: Value) -> (r: Result<
        Vec<DDPMessage>,
        MergeError,
    >)
        requires
            mb_wf(mb_collections_view(old(self).collections)),
        ensures
            sv_covered(
                mb_collections_view(old(self).collections),
                sv_view(old(self).server_view),
            ) ==> (r is Err <==> ({
                let sv0 = sv_view(old(self).server_view);
                match spec_assoc_find(sv0, collection@) {
                    Option::None => true,
                    Option::Some(ci) => spec_sv_find(sv0[ci].1, id@) is None,
                }
            })),
            ({
                let sv0 = sv_view(old(self).server_view);
                match spec_assoc_find(sv0, collection@) {
                    Option::None => r == Result::<Vec<DDPMessage>, MergeError>::Err(
                        MergeError::CollectionNotFound,
                    ) && *final(self) == *old(self),
                    Option::Some(ci) => match spec_sv_find(sv0[ci].1, id@) {
                        Option::None => r == Result::<Vec<DDPMessage>, MergeError>::Err(
                            MergeError::DocumentNotFound,
                        ) && *final(self) == *old(self),
                        Option::Some(di) => {
                            let old_doc = sv0[ci].1[di].1;
                            &&& sv_view(final(self).server_view) == sv0.update(
                                ci,
                                (collection@, spec_swap_remove(sv0[ci].1, di)),
                            )
                            &&& match r {
                                Result::Ok(msgs) => {
                                    &&& spec_mb_remove(
                                        mb_collections_view(old(self).collections),
                                        collection@,
                                        id@,
                                        old_doc,
                                    ) matches Result::Ok((cols2, removed, cl))
                                    &&& mb_collections_view(final(self).collections) == cols2
                                    &&& spec_remove_msgs_shape(
                                        msgs@,
                                        collection@,
                                        id@,
                                        removed,
                                        cl,
                                    )
                                },
                                Result::Err(e) => spec_mb_remove(
                                    mb_collections_view(old(self).collections),
                                    collection@,
                                    id@,
                                    old_doc,
                                ) is Err,
                            }
                        },
                    },
                }
            }),
    {
        let ghost sv0 = sv_view(self.server_view);
        proof {
            lemma_assoc_find(sv0, collection@);
        }
        let ci = match find_server_collection(&self.server_view, collection.as_str()) {
            Option::Some(ci) => ci,
            Option::None => {
                return Result::Err(MergeError::CollectionNotFound);
            },
        };
        let di = match find_sv_doc(&self.server_view[ci].1, &id) {
            Option::Some(di) => di,
            Option::None => {
                return Result::Err(MergeError::DocumentNotFound);
            },
        };
        let (key, mut list) = self.server_view.remove(ci);
        let (_, old_doc) = list.swap_remove(di);
        self.server_view.insert(ci, (key, list));
        proof {
            assert(sv_view(self.server_view) =~~= sv0.update(
                ci as int,
                (collection@, spec_swap_remove(sv0[ci as int].1, di as int)),
            ));
            assert(obj_view(old_doc) == sv0[ci as int].1[di as int].1);
            lemma_sv_find(sv0[ci as int].1, id@);
            if sv_covered(mb_collections_view(old(self).collections), sv0) {
                assert(spec_mb_remove(
                    mb_collections_view(old(self).collections),
                    sv0[ci as int].0,
                    sv0[ci as int].1[di as int].0,
                    sv0[ci as int].1[di as int].1,
                ) is Ok);
                assert(sv0[ci as int].0 == collection@);
                assert(sv0[ci as int].1[di as int].0 == id@);
            }
        }
        self.remove(collection, id, &old_doc)
    }
}

impl Mergebox {
    /// The upstream server changes a document: patch its last-told
    /// version with the cleared names and changed fields, merge the new
    /// version in, then withdraw the old one, moving the upstream
    /// contribution over.
    #[verifier::loop_isolation(false)]
    pub fn server_changed(
        &mut self,
        collection: String,
        id: Value,
        fields: Option<Vec<(String, Value)>>,
        cleared: Option<Vec<String>>,
    ) -> (r: Result<Vec<DDPMessage>, MergeError>)
        requires
            mb_wf(mb_collections_view(old(self).collections)),
            mb_lt(mb_collections_view(old(self).collections), usize::MAX as int - 1),
            sv_wf(sv_view(old(self).server_view)),
        ensures
            sv_covered(
                mb_collections_view(old(self).collections),
                sv_view(old(self).server_view),
            ) ==> (r is Err <==> ({
                let sv0 = sv_view(old(self).server_view);
                match spec_assoc_find(sv0, collection@) {
                    Option::None => true,
                    Option::Some(ci) => spec_sv_find(sv0[ci].1, id@) is None,
                }
            })),
            ({
                let sv0 = sv_view(old(self).server_view);
                let gfields = match fields {
                    Option::Some(d) => obj_view(d),
                    Option::None => Seq::empty(),
                };
                let gcleared = match cleared {
                    Option::Some(names) => cleared_view(names),
                    Option::None => Seq::empty(),
                };
                match spec_assoc_find(sv0, collection@) {
                    Option::None => r == Result::<Vec<DDPMessage>, MergeError>::Err(
                        MergeError::CollectionNotFound,
                    ) && *final(self) == *old(self),
                    Option::Some(ci) => match spec_sv_find(sv0[ci].1, id@) {
                        Option::None => r == Result::<Vec<DDPMessage>, MergeError>::Err(
                            MergeError::DocumentNotFound,
                        ) && *final(self) == *old(self),
                        Option::Some(di) => {
                            let old_doc = sv0[ci].1[di].1;
                            let patched = spec_apply_fields(
                                spec_apply_cleared(old_doc, gcleared),
                                gfields,
                            );
                            let (cols2, is_new, ch) = spec_mb_insert(
                                mb_collections_view(old(self).collections),
                                collection@,
                                id@,
                                patched,
                            );
                            &&& sv_view(final(self).server_view) =~~= spec_sv_push(
                                sv0.update(
                                    ci,
                                    (collection@, spec_swap_remove(sv0[ci].1, di)),
                                ),
                                collection@,
                                id@,
                                patched,
                            )
                            &&& match r {
                                Result::Ok(msgs) => {
                                    let n1: int = if is_new || ch.len() > 0 {
                                        1
                                    } else {
                                        0
                                    };
                                    &&& spec_mb_remove(cols2, collection@, id@, old_doc)
                                        matches Result::Ok((cols3, removed, cl))
                                    &&& mb_collections_view(final(self).collections) == cols3
                                    &&& spec_insert_msgs_shape(
                                        msgs@.take(n1),
                                        collection@,
                                        id@,
                                        patched,
                                        is_new,
                                        ch,
                                    )
                                    &&& spec_remove_msgs_shape(
                                        msgs@.skip(n1),
                                        collection@,
                                        id@,
                                        removed,
                                        cl,
                                    )
                                },
                                Result::Err(e) => spec_mb_remove(
                                    cols2,
                                    collection@,
                                    id@,
                                    old_doc,
                                ) is Err,
                            }
                        },
                    },
                }
            }),
    {
        let ghost sv0 = sv_view(self.server_view);
        let ghost cols0 = mb_collections_view(self.collections);
        let ghost gfields0: Seq<(Seq<char>, SpecValue)> = match fields {
            Option::Some(ref d) => obj_view(*d),
            Option::None => Seq::empty(),
        };
        let ghost gcleared0: Seq<Seq<char>> = match cleared {
            Option::Some(ref names) => cleared_view(*names),
            Option::None => Seq::empty(),
        };
        proof {
            lemma_assoc_find(sv0, collection@);
        }
        let ci = match find_server_collection(&self.server_view, collection.as_str()) {
            Option::Some(ci) => ci,
            Option::None => {
                return Result::Err(MergeError::CollectionNotFound);
            },
        };
        let di = match find_sv_doc(&self.server_view[ci].1, &id) {
            Option::Some(di) => di,
            Option::None => {
                return Result::Err(MergeError::DocumentNotFound);
            },
        };
        let (key, mut list) = self.server_view.remove(ci);
        let (_, old_doc) = list.swap_remove(di);
        self.server_view.insert(ci, (key, list));
        proof {
            assert(sv_view(self.server_view) =~~= sv0.update(
                ci as int,
                (collection@, spec_swap_remove(sv0[ci as int].1, di as int)),
            ));
            assert(obj_view(old_doc) == sv0[ci as int].1[di as int].1);
            assert(obj_keys_unique(obj_view(old_doc)));
            lemma_sv_find(sv0[ci as int].1, id@);
            if sv_covered(cols0, sv0) {
                assert(spec_mb_remove(
                    cols0,
                    sv0[ci as int].0,
                    sv0[ci as int].1[di as int].0,
                    sv0[ci as int].1[di as int].1,
                ) is Ok);
                assert(sv0[ci as int].0 == collection@);
                assert(sv0[ci as int].1[di as int].0 == id@);
            }
        }
        let cleared_names: Vec<String> = match cleared {
            Option::Some(names) => names,
            Option::None => Vec::new(),
        };
        let new_fields: Vec<(String, Value)> = match fields {
            Option::Some(d) => d,
            Option::None => Vec::new(),
        };
        proof {
            assert(cleared_view(cleared_names) =~= gcleared0);
            assert(obj_view(new_fields) =~= gfields0);
        }
        let stripped = apply_cleared(clone_document(&old_doc), &cleared_names);
        let patched = apply_fields(stripped, new_fields);
        let ghost gpatched = obj_view(patched);
        proof {
            lemma_apply_cleared_unique(obj_view(old_doc), cleared_view(cleared_names));
            lemma_apply_fields_unique(
                spec_apply_cleared(obj_view(old_doc), cleared_view(cleared_names)),
                gpatched,
            );
            lemma_apply_fields_unique(
                spec_apply_cleared(obj_view(old_doc), cleared_view(cleared_names)),
                gfields0,
            );
        }
        let patched_copy = clone_document(&patched);
        self.push_server_view(collection.clone(), id.clone(), patched);
        proof {
            lemma_mb_insert_preserves(
                cols0,
                collection@,
                id@,
                gpatched,
                usize::MAX as int - 1,
            );
            if sv_covered(cols0, sv0) {
                lemma_mb_insert_keeps_remove_ok(
                    cols0,
                    collection@,
                    id@,
                    gpatched,
                    obj_view(old_doc),
                );
            }
        }
        let mut messages = self.insert(collection.clone(), id.clone(), patched_copy);
        let more = match self.remove(collection, id, &old_doc) {
            Result::Ok(more) => more,
            Result::Err(e) => {
                return Result::Err(e);
            },
        };
        let ghost first = messages@;
        let ghost second = more@;
        let mut more = more;
        messages.append(&mut more);
        proof {
            assert(messages@.take(first.len() as int) =~= first);
            assert(messages@.skip(first.len() as int) =~= second);
        }
        Result::Ok(messages)
    }
}

/// Finds a collection by name in the upstream view.
#[verifier::loop_isolation(false)]
fn find_server_collection(
    sv: &Vec<(String, Vec<(Value, Vec<(String, Value)>)>)>,
    key: &str,
) -> (r: Option<usize>)
    ensures
        match r {
            Option::Some(i) => 0 <= i < sv@.len() && spec_assoc_find(sv_view(*sv), key@)
                == Option::Some(i as int),
            Option::None => spec_assoc_find(sv_view(*sv), key@) is None,
        },
{
    proof {
        lemma_assoc_find(sv_view(*sv), key@);
    }
    let mut i: usize = 0;
    while i < sv.len()
        invariant
            i <= sv@.len(),
            forall|j: int| 0 <= j < i ==> sv_view(*sv)[j].0 != key@,
        decreases sv@.len() - i,
    {
        if str_eq(sv[i].0.as_str(), key) {
            proof {
                let m = sv_view(*sv);
                assert(m[i as int].0 == key@);
                match spec_assoc_find(m, key@) {
                    Option::Some(found) => {
                        if found < i {
                            assert(m[found].0 == key@);
                        } else if found > i {
                            assert(m[i as int].0 != key@);
                        }
                    },
                    Option::None => {
                        assert(m[i as int].0 != key@);
                    },
                }
            }
            return Option::Some(i);
        }
        i = i + 1;
    }
    Option::None
}

/// Clones a plain document.
#[verifier::loop_isolation(false)]
pub fn clone_document(doc: &Vec<(String, Value)>) -> (r: Vec<(String, Value)>)
    ensures
        obj_view(r) == obj_view(*doc),
{
    let mut out: Vec<(String, Value)> = Vec::new();
    let mut i: usize = 0;
    while i < doc.len()
        invariant
            i <= doc@.len(),
            out@.len() == i,
            forall|j: int| 0 <= j < i ==> (#[trigger] out@[j]).0@ == doc@[j].0@ && out@[j].1@
                == doc@[j].1@,
        decreases doc@.len() - i,
    {
        let (k, v) = &doc[i];
        out.push((k.clone(), v.clone()));
        i = i + 1;
    }
    proof {
        assert(obj_view(out) =~= obj_view(*doc));
    }
    out
}

/// The per-cursor table of attached sessions: a reference count per
/// session, so an attach is idempotent per session.
pub struct Mergeboxes {
    pub entries: Vec<(usize, usize)>,
}

/// The index of a session in the table.
pub open spec fn spec_session_find(entries: Seq<(usize, usize)>, session: usize) -> Option<int>
    decreases entries.len(),
{
    if entries.len() == 0 {
        Option::None
    } else if entries[0].0 == session {
        Option::Some(0)
    } else {
        match spec_session_find(entries.skip(1), session) {
            Option::Some(j) => Option::Some(j + 1),
            Option::None => Option::None,
        }
    }
}

pub proof fn lemma_session_find(entries: Seq<(usize, usize)>, session: usize)
    ensures
        match spec_session_find(entries, session) {
            Option::Some(i) => 0 <= i < entries.len() && entries[i].0 == session && forall|
                j: int,
            | 0 <= j < i ==> entries[j].0 != session,
            Option::None => forall|j: int| 0 <= j < entries.len() ==> entries[j].0 != session,
        },
    decreases entries.len(),
{
    if entries.len() > 0 && entries[0].0 != session {
        lemma_session_find(entries.skip(1), session);
        match spec_session_find(entries.skip(1), session) {
            Option::Some(j) => {
                assert(entries[j + 1] == entries.skip(1)[j]);
                assert forall|m: int| 0 <= m < j + 1 implies entries[m].0 != session by {
                    if m > 0 {
                        assert(entries.skip(1)[m - 1] == entries[m]);
                    }
                }
            },
            Option::None => {
                assert forall|m: int| 0 <= m < entries.len() implies entries[m].0 != session by {
                    if m > 0 {
                        assert(entries.skip(1)[m - 1] == entries[m]);
                    }
                }
            },
        }
    }
}

impl Mergeboxes {
    /// An empty table.
    pub fn new() -> (r: Mergeboxes)
        ensures
            r.entries@.len() == 0,
    {
        Mergeboxes { entries: Vec::new() }
    }

    /// Registers one attachment of a session; the result says whether the
    /// table was empty before, which starts the cursor's task. A counter
    /// at the type's ceiling stays there.
    #[verifier::loop_isolation(false)]
    pub fn insert_mergebox(&mut self, session_id: usize) -> (r: bool)
        ensures
            r == (old(self).entries@.len() == 0),
            match spec_session_find(old(self).entries@, session_id) {
                Option::Some(i) => final(self).entries@ == old(self).entries@.update(
                    i,
                    (
                        session_id,
                        if old(self).entries@[i].1 < usize::MAX {
                            (old(self).entries@[i].1 + 1) as usize
                        } else {
                            old(self).entries@[i].1
                        },
                    ),
                ),
                Option::None => final(self).entries@ == old(self).entries@.push((session_id, 0)),
            },
    {
        let is_first = self.entries.len() == 0;
        proof {
            lemma_session_find(self.entries@, session_id);
        }
        let mut i: usize = 0;
        while i < self.entries.len()
            invariant
                i <= self.entries@.len(),
                self.entries == old(self).entries,
                forall|j: int| 0 <= j < i ==> self.entries@[j].0 != session_id,
            decreases self.entries@.len() - i,
        {
            if self.entries[i].0 == session_id {
                proof {
                    match spec_session_find(self.entries@, session_id) {
                        Option::Some(found) => {
                            if found < i {
                                assert(self.entries@[found].0 == session_id);
                            } else if found > i {
                                assert(self.entries@[i as int].0 != session_id);
                            }
                        },
                        Option::None => {
                            assert(self.entries@[i as int].0 != session_id);
                        },
                    }
                }
                let (sid, count) = self.entries.remove(i);
                let bumped = if count < usize::MAX {
                    count + 1
                } else {
                    count
                };
                self.entries.insert(i, (sid, bumped));
                proof {
                    assert(self.entries@ =~= old(self).entries@.update(
                        i as int,
                        (
                            session_id,
                            if old(self).entries@[i as int].1 < usize::MAX {
                                (old(self).entries@[i as int].1 + 1) as usize
                            } else {
                                old(self).entries@[i as int].1
                            },
                        ),
                    ));
                }
                return is_first;
            }
            i = i + 1;
        }
        self.entries.push((session_id, 0));
        is_first
    }

    /// Releases one attachment of a session. The first result says
    /// whether the session's last attachment left, which withdraws its
    /// documents; the second whether the table became empty, which stops
    /// the cursor's task.
    #[verifier::loop_isolation(false)]
    pub fn remove_mergebox(&mut self, session_id: usize) -> (r: (bool, bool))
        ensures
            match spec_session_find(old(self).entries@, session_id) {
                Option::Some(i) => if old(self).entries@[i].1 == 0 {
                    final(self).entries@ == old(self).entries@.remove(i) && r.0 == true && r.1
                        == (old(self).entries@.len() == 1)
                } else {
                    final(self).entries@ == old(self).entries@.update(
                        i,
                        (session_id, (old(self).entries@[i].1 - 1) as usize),
                    ) && r == (false, false)
                },
                Option::None => final(self).entries@ == old(self).entries@ && r == (
                false,
                false,
                ),
            },
    {
        proof {
            lemma_session_find(self.entries@, session_id);
        }
        let mut i: usize = 0;
        while i < self.entries.len()
            invariant
                i <= self.entries@.len(),
                self.entries == old(self).entries,
                forall|j: int| 0 <= j < i ==> self.entries@[j].0 != session_id,
            decreases self.entries@.len() - i,
        {
            if self.entries[i].0 == session_id {
                proof {
                    match spec_session_find(self.entries@, session_id) {
                        Option::Some(found) => {
                            if found < i {
                                assert(self.entries@[found].0 == session_id);
                            } else if found > i {
                                assert(self.entries@[i as int].0 != session_id);
                            }
                        },
                        Option::None => {
                            assert(self.entries@[i as int].0 != session_id);
                        },
                    }
                }
                if self.entries[i].1 == 0 {
                    let was_len = self.entries.len();
                    self.entries.remove(i);
                    return (true, was_len == 1);
                } else {
                    let (sid, count) = self.entries.remove(i);
                    self.entries.insert(i, (sid, count - 1));
                    proof {
                        assert(self.entries@ =~= old(self).entries@.update(
                            i as int,
                            (session_id, (old(self).entries@[i as int].1 - 1) as usize),
                        ));
                    }
                    return (false, false);
                }
            }
            i = i + 1;
        }
        (false, false)
    }
}

/// The index of an upstream-view version with a structurally equal key.
pub open spec fn spec_sv_find(
    list: Seq<(SpecValue, Seq<(Seq<char>, SpecValue)>)>,
    id: SpecValue,
) -> Option<int>
    decreases list.len(),
{
    if list.len() == 0 {
        Option::None
    } else if list[0].0 == id {
        Option::Some(0)
    } else {
        match spec_sv_find(list.skip(1), id) {
            Option::Some(j) => Option::Some(j + 1),
            Option::None => Option::None,
        }
    }
}

pub proof fn lemma_sv_find(list: Seq<(SpecValue, Seq<(Seq<char>, SpecValue)>)>, id: SpecValue)
    ensures
        match spec_sv_find(list, id) {
            Option::Some(i) => 0 <= i < list.len() && list[i].0 == id && forall|j: int|
                0 <= j < i ==> list[j].0 != id,
            Option::None => forall|j: int| 0 <= j < list.len() ==> list[j].0 != id,
        },
    decreases list.len(),
{
    if list.len() > 0 && list[0].0 != id {
        lemma_sv_find(list.skip(1), id);
        match spec_sv_find(list.skip(1), id) {
            Option::Some(j) => {
                assert(list[j + 1] == list.skip(1)[j]);
                assert forall|m: int| 0 <= m < j + 1 implies list[m].0 != id by {
                    if m > 0 {
                        assert(list.skip(1)[m - 1] == list[m]);
                    }
                }
            },
            Option::None => {
                assert forall|m: int| 0 <= m < list.len() implies list[m].0 != id by {
                    if m > 0 {
                        assert(list.skip(1)[m - 1] == list[m]);
                    }
                }
            },
        }
    }
}

/// Finds a version by key in one collection's upstream view.
#[verifier::loop_isolation(false)]
fn find_sv_doc(list: &Vec<(Value, Vec<(String, Value)>)>, id: &Value) -> (r: Option<usize>)
    ensures
        match r {
            Option::Some(i) => 0 <= i < list@.len() && spec_sv_find(
                Seq::new(list@.len(), |j: int|
                    if 0 <= j < list@.len() {
                        (list@[j].0@, obj_view(list@[j].1))
                    } else {
                        (SpecValue::Null, Seq::empty())
                    }
                ),
                id@,
            ) == Option::Some(i as int),
            Option::None => spec_sv_find(
                Seq::new(list@.len(), |j: int|
                    if 0 <= j < list@.len() {
                        (list@[j].0@, obj_view(list@[j].1))
                    } else {
                        (SpecValue::Null, Seq::empty())
                    }
                ),
                id@,
            ) is None,
        },
{
    let ghost m = Seq::new(list@.len(), |j: int|
        if 0 <= j < list@.len() {
            (list@[j].0@, obj_view(list@[j].1))
        } else {
            (SpecValue::Null, Seq::empty())
        }
    );
    proof {
        lemma_sv_find(m, id@);
    }
    let mut i: usize = 0;
    while i < list.len()
        invariant
            i <= list@.len(),
            forall|j: int| 0 <= j < i ==> m[j].0 != id@,
        decreases list@.len() - i,
    {
        if value_eq(&list[i].0, id) {
            proof {
                assert(m[i as int].0 == id@);
                match spec_sv_find(m, id@) {
                    Option::Some(found) => {
                        if found < i {
                            assert(m[found].0 == id@);
                        } else if found > i {
                            assert(m[i as int].0 != id@);
                        }
                    },
                    Option::None => {
                        assert(m[i as int].0 != id@);
                    },
                }
            }
            return Option::Some(i);
        }
        i = i + 1;
    }
    Option::None
}

/// Whether a key is among a list of names.
pub open spec fn spec_name_in(names: Seq<Seq<char>>, k: Seq<char>) -> bool {
    exists|l: int| 0 <= l < names.len() && names[l] == k
}

/// A document with the named fields removed.
pub open spec fn spec_apply_cleared(
    doc: Seq<(Seq<char>, SpecValue)>,
    names: Seq<Seq<char>>,
) -> Seq<(Seq<char>, SpecValue)>
    decreases doc.len(),
{
    if doc.len() == 0 {
        Seq::empty()
    } else if spec_name_in(names, doc.last().0) {
        spec_apply_cleared(doc.drop_last(), names)
    } else {
        spec_apply_cleared(doc.drop_last(), names).push(doc.last())
    }
}

/// A document with one field written: replaced in place when the name is
/// known, appended otherwise.
pub open spec fn spec_upsert(
    doc: Seq<(Seq<char>, SpecValue)>,
    k: Seq<char>,
    v: SpecValue,
) -> Seq<(Seq<char>, SpecValue)> {
    match spec_assoc_find(doc, k) {
        Option::Some(i) => doc.update(i, (k, v)),
        Option::None => doc.push((k, v)),
    }
}

/// A document with a set of fields written, in order.
pub open spec fn spec_apply_fields(
    doc: Seq<(Seq<char>, SpecValue)>,
    fields: Seq<(Seq<char>, SpecValue)>,
) -> Seq<(Seq<char>, SpecValue)>
    decreases fields.len(),
{
    if fields.len() == 0 {
        doc
    } else {
        spec_upsert(
            spec_apply_fields(doc, fields.drop_last()),
            fields.last().0,
            fields.last().1,
        )
    }
}

proof fn lemma_apply_cleared_unique(doc: Seq<(Seq<char>, SpecValue)>, names: Seq<Seq<char>>)
    requires
        obj_keys_unique(doc),
    ensures
        obj_keys_unique(spec_apply_cleared(doc, names)),
        forall|j: int| 0 <= j < spec_apply_cleared(doc, names).len() ==> exists|l: int|
            0 <= l < doc.len() && doc[l] == #[trigger] spec_apply_cleared(doc, names)[j],
    decreases doc.len(),
{
    if doc.len() > 0 {
        assert(forall|i: int| 0 <= i < doc.len() - 1 ==> doc.drop_last()[i] == doc[i]);
        lemma_apply_cleared_unique(doc.drop_last(), names);
    }
}

proof fn lemma_upsert_unique(doc: Seq<(Seq<char>, SpecValue)>, k: Seq<char>, v: SpecValue)
    requires
        obj_keys_unique(doc),
    ensures
        obj_keys_unique(spec_upsert(doc, k, v)),
{
    lemma_assoc_find(doc, k);
    match spec_assoc_find(doc, k) {
        Option::Some(i) => {
            assert(forall|j: int| 0 <= j < doc.len() && j != i ==> doc.update(i, (k, v))[j]
                == doc[j]);
            assert forall|a: int, b: int|
                0 <= a < b < doc.len() implies (#[trigger] doc.update(i, (k, v))[a]).0 != (
                #[trigger] doc.update(i, (k, v))[b]).0 by {
                if a == i {
                    assert(doc[a].0 == k);
                } else if b == i {
                    assert(doc[b].0 == k);
                }
            }
        },
        Option::None => {},
    }
}

pub proof fn lemma_apply_fields_unique(
    doc: Seq<(Seq<char>, SpecValue)>,
    fields: Seq<(Seq<char>, SpecValue)>,
)
    requires
        obj_keys_unique(doc),
    ensures
        obj_keys_unique(spec_apply_fields(doc, fields)),
    decreases fields.len(),
{
    if fields.len() > 0 {
        lemma_apply_fields_unique(doc, fields.drop_last());
        lemma_upsert_unique(
            spec_apply_fields(doc, fields.drop_last()),
            fields.last().0,
            fields.last().1,
        );
    }
}

/// Every stored upstream version has unique field names.
pub open spec fn sv_wf(sv: Seq<(Seq<char>, Seq<(SpecValue, Seq<(Seq<char>, SpecValue)>)>)>)
    -> bool {
    forall|i: int, d: int|
        0 <= i < sv.len() && 0 <= d < sv[i].1.len() ==> obj_keys_unique(
            (#[trigger] sv[i].1[d]).1,
        )
}

/// Removes the named fields from a document.
#[verifier::loop_isolation(false)]
fn apply_cleared(doc: Vec<(String, Value)>, names: &Vec<String>) -> (r: Vec<(String, Value)>)
    ensures
        obj_view(r) == spec_apply_cleared(obj_view(doc), cleared_view(*names)),
{
    let ghost gdoc = obj_view(doc);
    let ghost gnames = cleared_view(*names);
    let mut out: Vec<(String, Value)> = Vec::new();
    let mut i: usize = 0;
    let mut rest = doc;
    let ghost grest = rest;
    let n = rest.len();
    proof {
        assert(gdoc.take(0) =~= Seq::<(Seq<char>, SpecValue)>::empty());
        assert(obj_view(out) =~= spec_apply_cleared(gdoc.take(0), gnames));
    }
    while i < n
        invariant
            i <= n,
            n == grest@.len(),
            rest@ =~= grest@.skip(i as int),
            gdoc == obj_view(grest),
            obj_view(out) == spec_apply_cleared(gdoc.take(i as int), gnames),
        decreases n - i,
    {
        proof {
            assert(grest@.skip(i as int)[0] == grest@[i as int]);
            assert(grest@.skip(i as int).skip(1) =~= grest@.skip(i as int + 1));
            assert(gdoc[i as int] == (grest@[i as int].0@, grest@[i as int].1@));
            assert(gdoc.take(i as int + 1).drop_last() =~= gdoc.take(i as int));
            assert(gdoc.take(i as int + 1).last() == gdoc[i as int]);
        }
        let (k, v) = rest.remove(0);
        let mut hit = false;
        let mut j: usize = 0;
        while j < names.len()
            invariant
                j <= names@.len(),
                hit <==> exists|l: int| 0 <= l < j && gnames[l] == k@,
            decreases names@.len() - j,
        {
            proof {
                assert(gnames[j as int] == names@[j as int]@);
            }
            if str_eq(names[j].as_str(), k.as_str()) {
                hit = true;
            }
            j = j + 1;
        }
        if !hit {
            let ghost before = obj_view(out);
            out.push((k, v));
            proof {
                assert(obj_view(out) =~= before.push(gdoc[i as int]));
            }
        }
        i = i + 1;
    }
    proof {
        assert(gdoc.take(n as int) =~= gdoc);
    }
    out
}

/// Writes a set of fields into a document, replacing known names in place
/// and appending new ones.
#[verifier::loop_isolation(false)]
fn apply_fields(doc: Vec<(String, Value)>, fields: Vec<(String, Value)>) -> (r: Vec<
    (String, Value),
>)
    ensures
        obj_view(r) == spec_apply_fields(obj_view(doc), obj_view(fields)),
{
    let ghost gfields = obj_view(fields);
    let mut out = doc;
    let mut i: usize = 0;
    let mut rest = fields;
    let ghost grest = rest;
    let n = rest.len();
    proof {
        assert(rest@ =~= grest@.skip(0));
        assert(gfields.take(0) =~= Seq::<(Seq<char>, SpecValue)>::empty());
    }
    while i < n
        invariant
            i <= n,
            n == grest@.len(),
            rest@ =~= grest@.skip(i as int),
            gfields == obj_view(grest),
            obj_view(out) == spec_apply_fields(obj_view(doc), gfields.take(i as int)),
        decreases n - i,
    {
        proof {
            assert(grest@.skip(i as int)[0] == grest@[i as int]);
            assert(grest@.skip(i as int).skip(1) =~= grest@.skip(i as int + 1));
            assert(gfields[i as int] == (grest@[i as int].0@, grest@[i as int].1@));
            assert(gfields.take(i as int + 1).drop_last() =~= gfields.take(i as int));
            assert(gfields.take(i as int + 1).last() == gfields[i as int]);
            lemma_assoc_find(obj_view(out), gfields[i as int].0);
        }
        let (k, v) = rest.remove(0);
        let idx = find_doc_field(&out, k.as_str());
        match idx {
            Option::Some(fi) => {
                let ghost before = obj_view(out);
                out.remove(fi);
                out.insert(fi, (k, v));
                proof {
                    assert(obj_view(out) =~= before.update(
                        fi as int,
                        (gfields[i as int].0, gfields[i as int].1),
                    ));
                }
            },
            Option::None => {
                let ghost before = obj_view(out);
                out.push((k, v));
                proof {
                    assert(obj_view(out) =~= before.push(
                        (gfields[i as int].0, gfields[i as int].1),
                    ));
                }
            },
        }
        i = i + 1;
    }
    proof {
        assert(gfields.take(n as int) =~= gfields);
    }
    out
}

/// Finds a field by name in a plain document.
#[verifier::loop_isolation(false)]
fn find_doc_field(doc: &Vec<(String, Value)>, key: &str) -> (r: Option<usize>)
    ensures
        match r {
            Option::Some(i) => 0 <= i < doc@.len() && spec_assoc_find(obj_view(*doc), key@)
                == Option::Some(i as int),
            Option::None => spec_assoc_find(obj_view(*doc), key@) is None,
        },
{
    proof {
        lemma_assoc_find(obj_view(*doc), key@);
    }
    let mut i: usize = 0;
    while i < doc.len()
        invariant
            i <= doc@.len(),
            forall|j: int| 0 <= j < i ==> obj_view(*doc)[j].0 != key@,
        decreases doc@.len() - i,
    {
        if str_eq(doc[i].0.as_str(), key) {
            proof {
                let m = obj_view(*doc);
                assert(m[i as int].0 == key@);
                match spec_assoc_find(m, key@) {
                    Option::Some(found) => {
                        if found < i {
                            assert(m[found].0 == key@);
                        } else if found > i {
                            assert(m[i as int].0 != key@);
                        }
                    },
                    Option::None => {
                        assert(m[i as int].0 != key@);
                    },
                }
            }
            return Option::Some(i);
        }
        i = i + 1;
    }
    Option::None
}

/// An insertion announces a document exactly when its key was not held:
/// the `Added` message appears for a fresh key and never otherwise.
pub proof fn lemma_insert_adds_iff_absent(
    cols: Seq<(Seq<char>, Seq<MbDoc>)>,
    c: Seq<char>,
    id: SpecValue,
    doc: Seq<(Seq<char>, SpecValue)>,
)
    ensures
        ({
            let (cols2, is_new, ch) = spec_mb_insert(cols, c, id, doc);
            is_new <==> (spec_assoc_find(cols, c) is None || spec_find_doc(
                cols[spec_assoc_find(cols, c)->Some_0].1,
                id,
            ) is None)
        }),
{
    lemma_assoc_find(cols, c);
    if spec_assoc_find(cols, c) is None {
        lemma_assoc_find_push(cols, c, Seq::<MbDoc>::empty());
    }
}

/// A withdrawal retires a document exactly when its last contributor
/// leaves: the `Removed` message appears at count one and never
/// otherwise.
pub proof fn lemma_remove_retires_iff_last(
    cols: Seq<(Seq<char>, Seq<MbDoc>)>,
    c: Seq<char>,
    id: SpecValue,
    doc: Seq<(Seq<char>, SpecValue)>,
)
    ensures
        spec_mb_remove(cols, c, id, doc) matches Result::Ok((cols2, removed, cl)) ==> {
            let ci = spec_assoc_find(cols, c)->Some_0;
            let di = spec_find_doc(cols[ci].1, id)->Some_0;
            removed <==> cols[ci].1[di].count == 1
        },
{
}

/// A single fresh contribution reconstructs the contributor's document:
/// the one emitted message is `Added` carrying it whole.
pub proof fn lemma_single_contribution_reconstructs(
    cols: Seq<(Seq<char>, Seq<MbDoc>)>,
    c: Seq<char>,
    id: SpecValue,
    doc: Seq<(Seq<char>, SpecValue)>,
    msgs: Seq<DDPMessage>,
)
    requires
        spec_mb_insert(cols, c, id, doc).1,
        doc.len() > 0,
        spec_insert_msgs_shape(msgs, c, id, doc, spec_mb_insert(cols, c, id, doc).1, spec_mb_insert(
            cols,
            c,
            id,
            doc,
        ).2),
    ensures
        msgs.len() == 1,
        msgs[0] matches DDPMessage::Added { collection, id: mid, fields } && collection@ == c
            && mid@ == id && (fields matches Option::Some(d) && obj_view(d) == doc),
{
}

/// Asserting a document preserves field well-formedness: names stay
/// unique, every count stays at least one, counts rise by at most one,
/// fields the document does not name are untouched, and new entries carry
/// count one and a name from the document.
pub proof fn lemma_change_fields_wf(
    fields: Seq<(Seq<char>, MbField)>,
    doc: Seq<(Seq<char>, SpecValue)>,
)
    requires
        forall|i: int, j: int| 0 <= i < j < fields.len() ==> (#[trigger] fields[i]).0 != (
        #[trigger] fields[j]).0,
        forall|i: int| 0 <= i < fields.len() ==> (#[trigger] fields[i]).1.count >= 1,
        obj_keys_unique(doc),
    ensures
        ({
            let (f2, ch) = spec_change_fields(fields, doc);
            &&& f2.len() >= fields.len()
            &&& forall|j: int| 0 <= j < fields.len() ==> (#[trigger] f2[j]).0 == fields[j].0
            &&& forall|j: int|
                0 <= j < fields.len() ==> fields[j].1.count <= (#[trigger] f2[j]).1.count
                    <= fields[j].1.count + 1
            &&& forall|j: int|
                0 <= j < fields.len() && (forall|l: int|
                    0 <= l < doc.len() ==> (#[trigger] doc[l]).0 != fields[j].0) ==> (
                #[trigger] f2[j]) == fields[j]
            &&& forall|j: int|
                fields.len() <= j < f2.len() ==> (#[trigger] f2[j]).1.count == 1 && exists|
                    l: int,
                |
                    0 <= l < doc.len() && doc[l].0 == f2[j].0
            &&& forall|i: int, j: int| 0 <= i < j < f2.len() ==> (#[trigger] f2[i]).0 != (
            #[trigger] f2[j]).0
            &&& forall|j: int| 0 <= j < f2.len() ==> (#[trigger] f2[j]).1.count >= 1
        }),
    decreases doc.len(),
{
    if doc.len() > 0 {
        assert(forall|i: int, j: int|
            0 <= i < j < doc.len() - 1 ==> (#[trigger] doc.drop_last()[i]).0 != (
            #[trigger] doc.drop_last()[j]).0) by {
            assert(forall|i: int| 0 <= i < doc.len() - 1 ==> doc.drop_last()[i] == doc[i]);
        }
        lemma_change_fields_wf(fields, doc.drop_last());
        let (f1, ch1) = spec_change_fields(fields, doc.drop_last());
        let (k, v) = doc.last();
        lemma_assoc_find(f1, k);
        assert(forall|l: int| 0 <= l < doc.len() - 1 ==> doc.drop_last()[l] == doc[l]);
        match spec_assoc_find(f1, k) {
            Option::Some(i) => {
                if i < fields.len() {
                    assert(fields[i].0 == k);
                    assert(forall|l: int| 0 <= l < doc.len() - 1 ==> (#[trigger] doc[l]).0
                        != k);
                    assert(f1[i] == fields[i]);
                }
            },
            Option::None => {},
        }
    }
}

/// Withdrawing a document preserves field well-formedness: names stay
/// unique, every count stays at least one and never rises.
pub proof fn lemma_remove_fields_wf(
    fields: Seq<(Seq<char>, MbField)>,
    doc: Seq<(Seq<char>, SpecValue)>,
    b: int,
)
    requires
        forall|i: int, j: int| 0 <= i < j < fields.len() ==> (#[trigger] fields[i]).0 != (
        #[trigger] fields[j]).0,
        forall|i: int| 0 <= i < fields.len() ==> 1 <= (#[trigger] fields[i]).1.count < b,
    ensures
        spec_remove_fields(fields, doc) matches Option::Some((f2, cl)) ==> (forall|i: int, j: int|
            0 <= i < j < f2.len() ==> (#[trigger] f2[i]).0 != (#[trigger] f2[j]).0) && (forall|
            i: int,
        |
            0 <= i < f2.len() ==> 1 <= (#[trigger] f2[i]).1.count < b),
    decreases doc.len(),
{
    if doc.len() > 0 {
        lemma_remove_fields_wf(fields, doc.drop_last(), b);
        match spec_remove_fields(fields, doc.drop_last()) {
            Option::None => {},
            Option::Some((f1, cl1)) => {
                let k = doc.last().0;
                lemma_assoc_find(f1, k);
                match spec_assoc_find(f1, k) {
                    Option::None => {},
                    Option::Some(i) => {
                        if f1[i].1.count == 1 {
                            assert(forall|m: int| 0 <= m < f1.remove(i).len()
                                ==> f1.remove(i)[m] == (if m < i {
                                f1[m]
                            } else {
                                f1[m + 1]
                            }));
                        }
                    },
                }
            },
        }
    }
}

/// An insertion preserves the buffer invariants, and every contributor
/// count stays below one more than its old bound.
pub proof fn lemma_mb_insert_preserves(
    cols: Seq<(Seq<char>, Seq<MbDoc>)>,
    c: Seq<char>,
    id: SpecValue,
    doc: Seq<(Seq<char>, SpecValue)>,
    b: int,
)
    requires
        mb_wf(cols),
        mb_lt(cols, b),
        obj_keys_unique(doc),
        b >= 1,
    ensures
        mb_wf(spec_mb_insert(cols, c, id, doc).0),
        mb_lt(spec_mb_insert(cols, c, id, doc).0, b + 1),
{
    lemma_assoc_find(cols, c);
    let cols1: Seq<(Seq<char>, Seq<MbDoc>)> = if spec_assoc_find(cols, c) is Some {
        cols
    } else {
        cols.push((c, Seq::empty()))
    };
    if spec_assoc_find(cols, c) is None {
        lemma_assoc_find_push(cols, c, Seq::<MbDoc>::empty());
        assert(mb_wf(cols1));
        assert(mb_lt(cols1, b));
    }
    let ci = spec_assoc_find(cols1, c)->Some_0;
    lemma_assoc_find(cols1, c);
    let docs = cols1[ci].1;
    lemma_find_doc(docs, id);
    match spec_find_doc(docs, id) {
        Option::None => {
            let nd = MbDoc { id, count: 1, fields: spec_new_fields(doc) };
            assert(mb_doc_wf(nd) && mb_doc_lt(nd, b + 1)) by {
                assert(forall|i: int| 0 <= i < doc.len() ==> (#[trigger] spec_new_fields(doc)[
                    i]) == (doc[i].0, MbField { count: 1, value: doc[i].1 }));
            }
            let docs2 = docs.push(nd);
            assert(forall|d: int| 0 <= d < docs.len() ==> docs2[d] == docs[d]);
            let cols2 = cols1.update(ci, (c, docs2));
            assert(mb_wf(cols2) && mb_lt(cols2, b + 1)) by {
                assert(forall|i: int| 0 <= i < cols2.len() && i != ci ==> cols2[i] == cols1[
                    i]);
                assert(cols2[ci].0 == cols1[ci].0);
            }
        },
        Option::Some(di) => {
            let d0 = docs[di];
            lemma_change_fields_wf(d0.fields, doc);
            let (f2, ch) = spec_change_fields(d0.fields, doc);
            let nd = MbDoc { id, count: d0.count + 1, fields: f2 };
            assert(mb_doc_wf(nd));
            assert(mb_doc_lt(nd, b + 1)) by {
                assert(forall|j: int| 0 <= j < d0.fields.len() ==> (#[trigger] f2[j]).1.count
                    <= d0.fields[j].1.count + 1);
            }
            let docs2 = docs.update(di, nd);
            let cols2 = cols1.update(ci, (c, docs2));
            assert(mb_wf(cols2) && mb_lt(cols2, b + 1)) by {
                assert(forall|i: int| 0 <= i < cols2.len() && i != ci ==> cols2[i] == cols1[
                    i]);
                assert(forall|d: int| 0 <= d < docs2.len() && d != di ==> docs2[d] == docs[d]);
                assert(cols2[ci].0 == cols1[ci].0);
            }
        },
    }
}

/// A withdrawal preserves the buffer invariants and raises no count.
pub proof fn lemma_mb_remove_preserves(
    cols: Seq<(Seq<char>, Seq<MbDoc>)>,
    c: Seq<char>,
    id: SpecValue,
    doc: Seq<(Seq<char>, SpecValue)>,
    b: int,
)
    requires
        mb_wf(cols),
        mb_lt(cols, b),
    ensures
        spec_mb_remove(cols, c, id, doc) matches Result::Ok((cols2, removed, cl)) ==> mb_wf(
            cols2,
        ) && mb_lt(cols2, b),
{
    lemma_assoc_find(cols, c);
    match spec_assoc_find(cols, c) {
        Option::None => {},
        Option::Some(ci) => {
            let docs = cols[ci].1;
            lemma_find_doc(docs, id);
            match spec_find_doc(docs, id) {
                Option::None => {},
                Option::Some(di) => {
                    let d0 = docs[di];
                    lemma_remove_fields_wf(d0.fields, doc, b);
                    match spec_remove_fields(d0.fields, doc) {
                        Option::None => {},
                        Option::Some((f2, cl)) => {
                            if d0.count == 1 {
                                let docs2 = spec_swap_remove(docs, di);
                                assert(forall|d: int|
                                    0 <= d < docs2.len() ==> docs2[d] == (if d == di
                                        && di < docs.len() - 1 {
                                        docs[docs.len() - 1]
                                    } else {
                                        docs[d]
                                    }));
                                let cols2 = cols.update(ci, (c, docs2));
                                assert(mb_wf(cols2) && mb_lt(cols2, b)) by {
                                    assert(forall|i: int|
                                        0 <= i < cols2.len() && i != ci ==> cols2[i]
                                            == cols[i]);
                                    assert(cols2[ci].0 == cols[ci].0);
                                }
                            } else {
                                let nd = MbDoc { id, count: d0.count - 1, fields: f2 };
                                let docs2 = docs.update(di, nd);
                                let cols2 = cols.update(ci, (c, docs2));
                                assert(mb_wf(cols2) && mb_lt(cols2, b)) by {
                                    assert(forall|i: int|
                                        0 <= i < cols2.len() && i != ci ==> cols2[i]
                                            == cols[i]);
                                    assert(forall|d: int|
                                        0 <= d < docs2.len() && d != di ==> docs2[d]
                                            == docs[d]);
                                    assert(cols2[ci].0 == cols[ci].0);
                                }
                            }
                        },
                    }
                },
            }
        },
    }
}

} // verus!
