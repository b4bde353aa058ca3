//! The table of rewritten subscription requests awaiting their reply.
//! The upstream answers a method call twice — a result and an update —
//! in either order; the table unwinds the pair into one completion.

use vstd::prelude::*;

verus! {

/// One in-flight rewritten request.
pub struct Inflight {
    pub name: String,
    pub params: Option<Vec<crate::value::Value>>,
    pub update_received: bool,
}

impl Inflight {
    /// A fresh entry: no update seen yet.
    pub fn new(name: String, params: Option<Vec<crate::value::Value>>) -> (r: Inflight)
        ensures
            r.name == name,
            r.params == params,
            !r.update_received,
    {
        Inflight { name, params, update_received: false }
    }
}

/// The in-flight table: an entry per request id, and a tombstone (an
/// emptied entry) once the result was consumed before the update.
pub struct Inflights {
    pub entries: Vec<(String, Option<Inflight>)>,
}

/// How consuming the update half of one id changes the table, and
/// whether the id was claimed: a live entry is marked, a tombstone
/// leaves, an unknown id changes nothing.
pub open spec fn spec_claim(entries: Seq<(String, Option<Inflight>)>, id: Seq<char>) -> (
    Seq<(String, Option<Inflight>)>,
    bool,
) {
    match spec_inflight_find(entries, id) {
        Option::None => (entries, false),
        Option::Some(i) => (
            match entries[i].1 {
                Option::None => entries.remove(i),
                Option::Some(inf) => entries.update(
                    i,
                    (
                        entries[i].0,
                        Option::Some(
                            Inflight {
                                name: inf.name,
                                params: inf.params,
                                update_received: true,
                            },
                        ),
                    ),
                ),
            },
            true,
        ),
    }
}

/// The table after consuming the update half of each listed id in turn,
/// and the ids the table did not claim, in order.
pub open spec fn spec_claim_all(
    entries: Seq<(String, Option<Inflight>)>,
    ids: Seq<Seq<char>>,
) -> (Seq<(String, Option<Inflight>)>, Seq<Seq<char>>)
    decreases ids.len(),
{
    if ids.len() == 0 {
        (entries, Seq::empty())
    } else {
        let (e1, claimed) = spec_claim(entries, ids[0]);
        let (e2, kept) = spec_claim_all(e1, ids.skip(1));
        (
            e2,
            (if claimed {
                Seq::empty()
            } else {
                seq![ids[0]]
            }) + kept,
        )
    }
}

/// The index of an id in the table.
pub open spec fn spec_inflight_find(
    entries: Seq<(String, Option<Inflight>)>,
    id: Seq<char>,
) -> Option<int>
    decreases entries.len(),
{
    if entries.len() == 0 {
        Option::None
    } else if entries[0].0@ == id {
        Option::Some(0)
    } else {
        match spec_inflight_find(entries.skip(1), id) {
            Option::Some(j) => Option::Some(j + 1),
            Option::None => Option::None,
        }
    }
}

pub proof fn lemma_inflight_find(entries: Seq<(String, Option<Inflight>)>, id: Seq<char>)
    ensures
        match spec_inflight_find(entries, id) {
            Option::Some(i) => 0 <= i < entries.len() && entries[i].0@ == id && forall|j: int|
                0 <= j < i ==> entries[j].0@ != id,
            Option::None => forall|j: int| 0 <= j < entries.len() ==> entries[j].0@ != id,
        },
    decreases entries.len(),
{
    if entries.len() > 0 && entries[0].0@ != id {
        lemma_inflight_find(entries.skip(1), id);
        match spec_inflight_find(entries.skip(1), id) {
            Option::Some(j) => {
                assert(entries[j + 1] == entries.skip(1)[j]);
                assert forall|m: int| 0 <= m < j + 1 implies entries[m].0@ != id by {
                    if m > 0 {
                        assert(entries.skip(1)[m - 1] == entries[m]);
                    }
                }
            },
            Option::None => {
                assert forall|m: int| 0 <= m < entries.len() implies entries[m].0@ != id by {
                    if m > 0 {
                        assert(entries.skip(1)[m - 1] == entries[m]);
                    }
                }
            },
        }
    }
}

impl Inflights {
    /// An empty table.
    pub fn new() -> (r: Inflights)
        ensures
            r.entries@.len() == 0,
    {
        Inflights { entries: Vec::new() }
    }

    /// Finds an id in the table.
    #[verifier::loop_isolation(false)]
    fn find(&self, id: &str) -> (r: Option<usize>)
        ensures
            match r {
                Option::Some(i) => 0 <= i < self.entries@.len() && spec_inflight_find(
                    self.entries@,
                    id@,
                ) == Option::Some(i as int),
                Option::None => spec_inflight_find(self.entries@, id@) is None,
            },
    {
        proof {
            lemma_inflight_find(self.entries@, id@);
        }
        let mut i: usize = 0;
        while i < self.entries.len()
            invariant
                i <= self.entries@.len(),
                forall|j: int| 0 <= j < i ==> self.entries@[j].0@ != id@,
            decreases self.entries@.len() - i,
        {
            if crate::value::str_eq(self.entries[i].0.as_str(), id) {
                proof {
                    match spec_inflight_find(self.entries@, id@) {
                        Option::Some(found) => {
                            if found < i {
                                assert(self.entries@[found].0@ == id@);
                            } else if found > i {
                                assert(self.entries@[i as int].0@ != id@);
                            }
                        },
                        Option::None => {
                            assert(self.entries@[i as int].0@ != id@);
                        },
                    }
                }
                return Option::Some(i);
            }
            i = i + 1;
        }
        Option::None
    }

    /// Registers a rewritten request.
    pub fn register(&mut self, id: String, inflight: Inflight)
        ensures
            final(self).entries@ == old(self).entries@.push(
                (id, Option::<Inflight>::Some(inflight)),
            ),
    {
        self.entries.push((id, Option::Some(inflight)));
    }

    /// Consumes the result half of a completion: hands the entry out, and
    /// removes it when the update half already arrived, leaving a
    /// tombstone otherwise. An unknown id returns nothing.
    pub fn process_result(&mut self, id: &str) -> (r: Option<Inflight>)
        ensures
            match spec_inflight_find(old(self).entries@, id@) {
                Option::None => r is None && *final(self) == *old(self),
                Option::Some(i) => match old(self).entries@[i].1 {
                    Option::None => r is None && *final(self) == *old(self),
                    Option::Some(inflight) => r == Option::Some(inflight) && (
                    if inflight.update_received {
                        final(self).entries@ == old(self).entries@.remove(i)
                    } else {
                        final(self).entries@ == old(self).entries@.update(
                            i,
                            (old(self).entries@[i].0, Option::<Inflight>::None),
                        )
                    }),
                },
            },
    {
        let i = match self.find(id) {
            Option::Some(i) => i,
            Option::None => {
                return Option::None;
            },
        };
        let update_received = match &self.entries[i].1 {
            Option::Some(inflight) => inflight.update_received,
            Option::None => {
                return Option::None;
            },
        };
        if update_received {
            let (_, entry) = self.entries.remove(i);
            entry
        } else {
            let (key, entry) = self.entries.remove(i);
            self.entries.insert(i, (key, Option::None));
            proof {
                assert(self.entries@ =~= old(self).entries@.update(
                    i as int,
                    (old(self).entries@[i as int].0, Option::<Inflight>::None),
                ));
            }
            entry
        }
    }

    /// Consumes the update half of a completion: marks a live entry,
    /// clears a tombstone, and says whether the id was claimed at all.
    pub fn process_update(&mut self, id: &str) -> (r: bool)
        ensures
            match spec_inflight_find(old(self).entries@, id@) {
                Option::None => !r && *final(self) == *old(self),
                Option::Some(i) => r && match old(self).entries@[i].1 {
                    Option::None => final(self).entries@ == old(self).entries@.remove(i),
                    Option::Some(inflight) => final(self).entries@ == old(self).entries@.update(
                        i,
                        (
                            old(self).entries@[i].0,
                            Option::Some(
                                Inflight {
                                    name: inflight.name,
                                    params: inflight.params,
                                    update_received: true,
                                },
                            ),
                        ),
                    ),
                },
            },
    {
        let i = match self.find(id) {
            Option::Some(i) => i,
            Option::None => {
                return false;
            },
        };
        let (key, entry) = self.entries.remove(i);
        match entry {
            Option::Some(inflight) => {
                self.entries.insert(
                    i,
                    (
                        key,
                        Option::Some(
                            Inflight {
                                name: inflight.name,
                                params: inflight.params,
                                update_received: true,
                            },
                        ),
                    ),
                );
                proof {
                    assert(self.entries@ =~= old(self).entries@.update(
                        i as int,
                        (
                            old(self).entries@[i as int].0,
                            Option::Some(
                                Inflight {
                                    name: old(self).entries@[i as int].1->Some_0.name,
                                    params: old(self).entries@[i as int].1->Some_0.params,
                                    update_received: true,
                                },
                            ),
                        ),
                    ));
                }
            },
            Option::None => {},
        }
        true
    }
}

} // verus!
