//! The subscriptions registry: one shared cursor per distinct query
//! description, reference-counted attachments per session, and the set of
//! publication names the upstream admitted no local handler for.

use vstd::prelude::*;
use crate::value::{
    lemma_obj_view, lemma_view_unfold, obj_get, spec_obj_get, str_concat, str_eq, SpecValue,
    Value,
};
use crate::cursor::{spec_desc_eq, CursorDescription, DescError};
use crate::mergebox::{spec_session_find, Mergeboxes};

verus! {

broadcast use lemma_view_unfold, lemma_obj_view;

/// One live cursor: its handle, its description, and the sessions
/// attached to it.
pub struct CursorSlot {
    pub id: u64,
    pub description: CursorDescription,
    pub attached: Mergeboxes,
}

/// What the registry asks its caller to do for one started description.
pub struct StartAction {
    pub cursor_id: u64,
    pub is_new: bool,
    pub is_first_attach: bool,
}

/// The cursor ids of a list of start actions, in order.
pub open spec fn action_ids(actions: Seq<StartAction>) -> Seq<u64> {
    actions.map_values(|a: StartAction| a.cursor_id)
}

/// Some live slot carries this action's cursor, under a description read
/// from the given wire value.
pub open spec fn action_covers(slots: Seq<CursorSlot>, a: StartAction, d: SpecValue) -> bool {
    exists|j: int|
        0 <= j < slots.len() && (#[trigger] slots[j]).id == a.cursor_id
            && crate::cursor::spec_desc_matches(slots[j].description, d)
}

/// The registry.
pub struct Subscriptions {
    pub slots: Vec<CursorSlot>,
    pub next_id: u64,
    pub by_session: Vec<(usize, Vec<(String, Vec<u64>)>)>,
    pub server_subscriptions: Vec<String>,
}

/// Whether a name is among the recorded upstream-only publications.
pub open spec fn spec_server_sub(names: Seq<String>, name: Seq<char>) -> bool
    decreases names.len(),
{
    if names.len() == 0 {
        false
    } else {
        names[0]@ == name || spec_server_sub(names.skip(1), name)
    }
}

/// The model of the slot table: each cursor's id, its description, and
/// its per-session attachment counts.
pub open spec fn slots_view(slots: Vec<CursorSlot>) -> Seq<
    (u64, CursorDescription, Seq<(usize, usize)>),
> {
    Seq::new(slots@.len(), |i: int|
        if 0 <= i < slots@.len() {
            (slots@[i].id, slots@[i].description, slots@[i].attached.entries@)
        } else {
            (slots@[i].id, slots@[i].description, Seq::empty())
        }
    )
}

/// The model of one session's subscription records.
pub open spec fn subs_view(subs: Vec<(String, Vec<u64>)>) -> Seq<(Seq<char>, Seq<u64>)> {
    Seq::new(subs@.len(), |i: int|
        if 0 <= i < subs@.len() {
            (subs@[i].0@, subs@[i].1@)
        } else {
            (Seq::empty(), Seq::empty())
        }
    )
}

/// The model of the per-session table.
pub open spec fn bs_view(bs: Vec<(usize, Vec<(String, Vec<u64>)>)>) -> Seq<
    (usize, Seq<(Seq<char>, Seq<u64>)>),
> {
    Seq::new(bs@.len(), |i: int|
        if 0 <= i < bs@.len() {
            (bs@[i].0, subs_view(bs@[i].1))
        } else {
            (0, Seq::empty())
        }
    )
}

/// The index of a session's entry in the per-session table.
pub open spec fn spec_bs_find(bs: Seq<(usize, Seq<(Seq<char>, Seq<u64>)>)>, session: usize)
    -> Option<int>
    decreases bs.len(),
{
    if bs.len() == 0 {
        Option::None
    } else if bs[0].0 == session {
        Option::Some(0)
    } else {
        match spec_bs_find(bs.skip(1), session) {
            Option::Some(j) => Option::Some(j + 1),
            Option::None => Option::None,
        }
    }
}

pub proof fn lemma_bs_find(bs: Seq<(usize, Seq<(Seq<char>, Seq<u64>)>)>, session: usize)
    ensures
        match spec_bs_find(bs, session) {
            Option::Some(i) => 0 <= i < bs.len() && bs[i].0 == session && forall|j: int|
                0 <= j < i ==> bs[j].0 != session,
            Option::None => forall|j: int| 0 <= j < bs.len() ==> bs[j].0 != session,
        },
    decreases bs.len(),
{
    if bs.len() > 0 && bs[0].0 != session {
        lemma_bs_find(bs.skip(1), session);
        match spec_bs_find(bs.skip(1), session) {
            Option::Some(j) => {
                assert(bs[j + 1] == bs.skip(1)[j]);
                assert forall|m: int| 0 <= m < j + 1 implies bs[m].0 != session by {
                    if m > 0 {
                        assert(bs.skip(1)[m - 1] == bs[m]);
                    }
                }
            },
            Option::None => {
                assert forall|m: int| 0 <= m < bs.len() implies bs[m].0 != session by {
                    if m > 0 {
                        assert(bs.skip(1)[m - 1] == bs[m]);
                    }
                }
            },
        }
    }
}

/// The index of a cursor's slot, by id.
pub open spec fn spec_find_slot(
    sl: Seq<(u64, CursorDescription, Seq<(usize, usize)>)>,
    id: u64,
) -> Option<int>
    decreases sl.len(),
{
    if sl.len() == 0 {
        Option::None
    } else if sl[0].0 == id {
        Option::Some(0)
    } else {
        match spec_find_slot(sl.skip(1), id) {
            Option::Some(j) => Option::Some(j + 1),
            Option::None => Option::None,
        }
    }
}

pub proof fn lemma_find_slot(sl: Seq<(u64, CursorDescription, Seq<(usize, usize)>)>, id: u64)
    ensures
        match spec_find_slot(sl, id) {
            Option::Some(i) => 0 <= i < sl.len() && sl[i].0 == id && forall|j: int|
                0 <= j < i ==> sl[j].0 != id,
            Option::None => forall|j: int| 0 <= j < sl.len() ==> sl[j].0 != id,
        },
    decreases sl.len(),
{
    if sl.len() > 0 && sl[0].0 != id {
        lemma_find_slot(sl.skip(1), id);
        match spec_find_slot(sl.skip(1), id) {
            Option::Some(j) => {
                assert(sl[j + 1] == sl.skip(1)[j]);
                assert forall|m: int| 0 <= m < j + 1 implies sl[m].0 != id by {
                    if m > 0 {
                        assert(sl.skip(1)[m - 1] == sl[m]);
                    }
                }
            },
            Option::None => {
                assert forall|m: int| 0 <= m < sl.len() implies sl[m].0 != id by {
                    if m > 0 {
                        assert(sl.skip(1)[m - 1] == sl[m]);
                    }
                }
            },
        }
    }
}

/// One cursor's detachment for a session: the session's attachment count
/// falls; at zero the session leaves the cursor (reported detached), and
/// a cursor with no session left leaves the table (reported stopped).
pub open spec fn spec_detach_one(
    sl: Seq<(u64, CursorDescription, Seq<(usize, usize)>)>,
    session: usize,
    cursor_id: u64,
) -> (Seq<(u64, CursorDescription, Seq<(usize, usize)>)>, bool, bool) {
    match spec_find_slot(sl, cursor_id) {
        Option::None => (sl, false, false),
        Option::Some(j) => {
            let entries = sl[j].2;
            match crate::mergebox::spec_session_find(entries, session) {
                Option::None => (sl, false, false),
                Option::Some(e) => {
                    if entries[e].1 == 0 {
                        if entries.len() == 1 {
                            (sl.remove(j), true, true)
                        } else {
                            (sl.update(j, (sl[j].0, sl[j].1, entries.remove(e))), true, false)
                        }
                    } else {
                        (
                            sl.update(
                                j,
                                (
                                    sl[j].0,
                                    sl[j].1,
                                    entries.update(e, (session, (entries[e].1 - 1) as usize)),
                                ),
                            ),
                            false,
                            false,
                        )
                    }
                },
            }
        },
    }
}

/// The detachment of a session from each listed cursor in turn, with the
/// cursors it fully left and the cursors that lost their last session.
pub open spec fn spec_detach_list(
    sl: Seq<(u64, CursorDescription, Seq<(usize, usize)>)>,
    session: usize,
    ids: Seq<u64>,
) -> (Seq<(u64, CursorDescription, Seq<(usize, usize)>)>, Seq<u64>, Seq<u64>)
    decreases ids.len(),
{
    if ids.len() == 0 {
        (sl, Seq::empty(), Seq::empty())
    } else {
        let (sl1, det1, stp1) = spec_detach_one(sl, session, ids[0]);
        let (sl2, det2, stp2) = spec_detach_list(sl1, session, ids.skip(1));
        (
            sl2,
            (if det1 {
                seq![ids[0]]
            } else {
                Seq::empty()
            }) + det2,
            (if stp1 {
                seq![ids[0]]
            } else {
                Seq::empty()
            }) + stp2,
        )
    }
}

/// The detachment of a session from every cursor of every listed
/// subscription record.
pub open spec fn spec_detach_subs(
    sl: Seq<(u64, CursorDescription, Seq<(usize, usize)>)>,
    session: usize,
    subs: Seq<(Seq<char>, Seq<u64>)>,
) -> (Seq<(u64, CursorDescription, Seq<(usize, usize)>)>, Seq<u64>, Seq<u64>)
    decreases subs.len(),
{
    if subs.len() == 0 {
        (sl, Seq::empty(), Seq::empty())
    } else {
        let (sl1, det1, stp1) = spec_detach_list(sl, session, subs[0].1);
        let (sl2, det2, stp2) = spec_detach_subs(sl1, session, subs.skip(1));
        (sl2, det1 + det2, stp1 + stp2)
    }
}

/// How recording a subscription changes the per-session table: the
/// session's entry gains the record, an earlier record under the same
/// subscription id leaving first; a new session enters at the end.
pub open spec fn spec_record(
    bs: Seq<(usize, Seq<(Seq<char>, Seq<u64>)>)>,
    session: usize,
    sub: Seq<char>,
    ids: Seq<u64>,
) -> Seq<(usize, Seq<(Seq<char>, Seq<u64>)>)> {
    match spec_bs_find(bs, session) {
        Option::None => bs.push((session, seq![(sub, ids)])),
        Option::Some(si) => {
            let subs = bs[si].1;
            let subs1 = match crate::mergebox::spec_assoc_find(subs, sub) {
                Option::None => subs,
                Option::Some(f) => subs.remove(f),
            };
            bs.update(si, (session, subs1.push((sub, ids))))
        },
    }
}

/// The sentinel the upstream answers for a publication it does not know:
/// an error object whose reason reads exactly
/// `Method '__subscription__<name>' not found`.
pub open spec fn spec_is_not_found_error(error: SpecValue, name: Seq<char>) -> bool {
    error matches SpecValue::Object(fields) && spec_obj_get(fields, "reason"@)
        == Option::Some(
        SpecValue::Text(
            "Method '__subscription__"@ + name + "' not found"@,
        ),
    )
}

impl Subscriptions {
    /// An empty registry.
    pub fn new() -> (r: Subscriptions)
        ensures
            r.slots@.len() == 0,
            r.by_session@.len() == 0,
            r.server_subscriptions@.len() == 0,
    {
        Subscriptions {
            slots: Vec::new(),
            next_id: 0,
            by_session: Vec::new(),
            server_subscriptions: Vec::new(),
        }
    }

    /// How many live cursors the registry holds.
    pub fn cursor_count(&self) -> (r: usize)
        ensures
            r == self.slots@.len(),
    {
        self.slots.len()
    }

    /// Whether a publication name is known to be served by the upstream
    /// alone.
    #[verifier::loop_isolation(false)]
    pub fn is_server_subscription(&self, subscription: &str) -> (r: bool)
        ensures
            r == spec_server_sub(self.server_subscriptions@, subscription@),
    {
        let ghost g = self.server_subscriptions@;
        let mut i: usize = 0;
        proof {
            assert(g.skip(0) =~= g);
        }
        while i < self.server_subscriptions.len()
            invariant
                i <= g.len(),
                g == self.server_subscriptions@,
                spec_server_sub(g, subscription@) == spec_server_sub(
                    g.skip(i as int),
                    subscription@,
                ),
            decreases g.len() - i,
        {
            proof {
                assert(g.skip(i as int)[0] == g[i as int]);
                assert(g.skip(i as int).skip(1) =~= g.skip(i as int + 1));
            }
            if str_eq(self.server_subscriptions[i].as_str(), subscription) {
                return true;
            }
            i = i + 1;
        }
        proof {
            assert(g.skip(g.len() as int).len() == 0);
        }
        false
    }

    /// Records a publication name as upstream-only.
    pub fn record_server_subscription(&mut self, name: String)
        ensures
            final(self).server_subscriptions@ == old(self).server_subscriptions@.push(name),
            final(self).slots == old(self).slots,
            final(self).by_session == old(self).by_session,
            final(self).next_id == old(self).next_id,
    {
        self.server_subscriptions.push(name);
    }

    /// Tests the upstream's not-found sentinel for a publication name.
    pub fn is_not_found_error(error: &Value, name: &str) -> (r: bool)
        ensures
            r == spec_is_not_found_error(error@, name@),
    {
        let fields = match error {
            Value::Object(fields) => fields,
            _ => {
                return false;
            },
        };
        let reason = match obj_get(fields, "reason") {
            Option::Some(Value::Text(reason)) => reason,
            _ => {
                proof {
                    match spec_obj_get(error@->Object_0, "reason"@) {
                        Option::Some(v) => {
                            assert(!(v is Text));
                        },
                        Option::None => {},
                    }
                }
                return false;
            },
        };
        let expected = str_concat(
            str_concat("Method '__subscription__", name).as_str(),
            "' not found",
        );
        str_eq(reason.as_str(), expected.as_str())
    }

    /// Starts one parsed description for a session: an existing cursor
    /// with a structurally equal description is reused, otherwise a fresh
    /// one is created; either way the session's attachment is counted.
    #[verifier::loop_isolation(false)]
    pub fn start_cursor(&mut self, session_id: usize, description: CursorDescription) -> (r:
        StartAction)
        requires
            old(self).next_id < u64::MAX,
        ensures
            final(self).by_session == old(self).by_session,
            final(self).server_subscriptions == old(self).server_subscriptions,
            final(self).next_id as int <= old(self).next_id as int + 1,
            final(self).slots@.len() >= old(self).slots@.len(),
            forall|j: int|
                0 <= j < old(self).slots@.len() ==> (#[trigger] final(self).slots@[j]).id == old(
                    self,
                ).slots@[j].id && final(self).slots@[j].description == old(
                    self,
                ).slots@[j].description,
            exists|j: int|
                0 <= j < final(self).slots@.len() && (#[trigger] final(self).slots@[j]).id
                    == r.cursor_id && spec_desc_eq(final(self).slots@[j].description, description),
            r.is_new ==> {
                &&& final(self).slots@.len() == old(self).slots@.len() + 1
                &&& final(self).slots@.last().id == r.cursor_id
                &&& spec_desc_eq(final(self).slots@.last().description, description)
                &&& r.is_first_attach
                &&& forall|j: int|
                    0 <= j < old(self).slots@.len() ==> !spec_desc_eq(
                        (#[trigger] old(self).slots@[j]).description,
                        description,
                    )
            },
            !r.is_new ==> {
                &&& final(self).slots@.len() == old(self).slots@.len()
                &&& exists|j: int|
                    0 <= j < old(self).slots@.len() && (#[trigger] old(self).slots@[j]).id
                        == r.cursor_id && spec_desc_eq(
                        old(self).slots@[j].description,
                        description,
                    )
            },
    {
        let mut i: usize = 0;
        while i < self.slots.len()
            invariant
                i <= self.slots@.len(),
                *self == *old(self),
                forall|j: int|
                    0 <= j < i ==> !spec_desc_eq(
                        (#[trigger] old(self).slots@[j]).description,
                        description,
                    ),
            decreases self.slots@.len() - i,
        {
            if self.slots[i].description.is_same_query(&description) {
                let (slot_key, mut slot) = (i, self.slots.remove(i));
                let is_first_attach = slot.attached.insert_mergebox(session_id);
                let cursor_id = slot.id;
                self.slots.insert(slot_key, slot);
                proof {
                    assert(old(self).slots@[i as int].id == cursor_id && spec_desc_eq(
                        old(self).slots@[i as int].description,
                        description,
                    ));
                    assert forall|j: int| 0 <= j < old(self).slots@.len() implies (
                    #[trigger] self.slots@[j]).id == old(self).slots@[j].id
                        && self.slots@[j].description == old(self).slots@[j].description by {
                        if j < i {
                            assert(self.slots@[j] == old(self).slots@[j]);
                        } else if j > i {
                            assert(self.slots@[j] == old(self).slots@[j]);
                        }
                    }
                    assert(self.slots@[i as int].id == cursor_id && spec_desc_eq(
                        self.slots@[i as int].description,
                        description,
                    ));
                }
                return StartAction { cursor_id, is_new: false, is_first_attach };
            }
            i = i + 1;
        }
        let cursor_id = self.next_id;
        self.next_id = self.next_id + 1;
        let mut attached = Mergeboxes::new();
        let is_first_attach = attached.insert_mergebox(session_id);
        let ghost gdesc = description;
        self.slots.push(CursorSlot { id: cursor_id, description, attached });
        proof {
            assert(spec_desc_eq(self.slots@.last().description, gdesc));
        }
        StartAction { cursor_id, is_new: true, is_first_attach }
    }

    /// Starts every description of a subscription for a session: each is
    /// parsed, deduplicated against the live cursors, and attached; the
    /// resulting cursor list is recorded under the subscription id. The
    /// first description that does not parse fails the whole call.
    #[verifier::loop_isolation(false)]
    pub fn start(
        &mut self,
        session_id: usize,
        subscription_id: String,
        descriptions: &Vec<Value>,
    ) -> (r: Result<Vec<StartAction>, DescError>)
        requires
            old(self).next_id as int + descriptions@.len() <= u64::MAX,
        ensures
            final(self).server_subscriptions == old(self).server_subscriptions,
            r matches Result::Ok(actions) ==> actions@.len() == descriptions@.len(),
            r is Ok ==> forall|i: int|
                0 <= i < descriptions@.len() ==> crate::cursor::spec_desc_ok(
                    #[trigger] descriptions@[i]@,
                ),
            r matches Result::Ok(actions) ==> forall|i: int|
                0 <= i < actions@.len() ==> #[trigger] action_covers(
                    final(self).slots@,
                    actions@[i],
                    descriptions@[i]@,
                ),
            r matches Result::Ok(actions) ==> bs_view(final(self).by_session) =~~= spec_record(
                bs_view(old(self).by_session),
                session_id,
                subscription_id@,
                action_ids(actions@),
            ),
            r is Err ==> exists|i: int|
                0 <= i < descriptions@.len() && !crate::cursor::spec_desc_ok(
                    #[trigger] descriptions@[i]@,
                ),
    {
        let ghost gsub = subscription_id@;
        let mut actions: Vec<StartAction> = Vec::new();
        let mut cursor_ids: Vec<u64> = Vec::new();
        let mut i: usize = 0;
        while i < descriptions.len()
            invariant
                i <= descriptions@.len(),
                actions@.len() == i,
                cursor_ids@ =~= action_ids(actions@),
                self.next_id as int <= old(self).next_id as int + i,
                self.by_session == old(self).by_session,
                self.server_subscriptions == old(self).server_subscriptions,
                forall|j: int| 0 <= j < i ==> crate::cursor::spec_desc_ok(
                    #[trigger] descriptions@[j]@,
                ),
                forall|k: int|
                    0 <= k < i ==> #[trigger] action_covers(
                        self.slots@,
                        actions@[k],
                        descriptions@[k]@,
                    ),
            decreases descriptions@.len() - i,
        {
            let description = match CursorDescription::parse(&descriptions[i]) {
                Result::Ok(description) => description,
                Result::Err(e) => {
                    return Result::Err(e);
                },
            };
            let ghost gslots = self.slots@;
            let ghost gdesc = description;
            let ghost acts_pre = actions@;
            proof {
                assert forall|k: int| 0 <= k < i implies #[trigger] action_covers(
                    gslots,
                    acts_pre[k],
                    descriptions@[k]@,
                ) by {
                    assert(action_covers(self.slots@, actions@[k], descriptions@[k]@));
                }
            }
            let action = self.start_cursor(session_id, description);
            cursor_ids.push(action.cursor_id);
            actions.push(action);
            proof {
                assert forall|k: int| 0 <= k < i + 1 implies #[trigger] action_covers(
                    self.slots@,
                    actions@[k],
                    descriptions@[k]@,
                ) by {
                    if k < i {
                        assert(action_covers(gslots, acts_pre[k], descriptions@[k]@));
                        assert(acts_pre[k] == actions@[k]);
                        let j0 = choose|j: int|
                            0 <= j < gslots.len() && (#[trigger] gslots[j]).id
                                == acts_pre[k].cursor_id && crate::cursor::spec_desc_matches(
                                gslots[j].description,
                                descriptions@[k]@,
                            );
                        assert(0 <= j0 < self.slots@.len() && (self.slots@[j0]).id
                            == actions@[k].cursor_id && crate::cursor::spec_desc_matches(
                            self.slots@[j0].description,
                            descriptions@[k]@,
                        ));
                    } else {
                        let j0 = choose|j: int|
                            0 <= j < self.slots@.len() && (#[trigger] self.slots@[j]).id
                                == actions@[k].cursor_id && spec_desc_eq(
                                self.slots@[j].description,
                                gdesc,
                            );
                        crate::cursor::lemma_desc_eq_matches(
                            self.slots@[j0].description,
                            gdesc,
                            descriptions@[k]@,
                        );
                        assert(0 <= j0 < self.slots@.len() && (self.slots@[j0]).id
                            == actions@[k].cursor_id && crate::cursor::spec_desc_matches(
                            self.slots@[j0].description,
                            descriptions@[k]@,
                        ));
                    }
                }
                assert(cursor_ids@ =~= action_ids(actions@));
            }
            i = i + 1;
        }
        let ghost gids = cursor_ids@;
        let ghost slots_before = self.slots@;
        self.record_subscription(session_id, subscription_id, cursor_ids);
        proof {
            assert(bs_view(self.by_session) =~~= spec_record(
                bs_view(old(self).by_session),
                session_id,
                gsub,
                action_ids(actions@),
            ));
            assert(self.slots@ == slots_before);
            assert forall|k: int| 0 <= k < actions@.len() implies #[trigger] action_covers(
                self.slots@,
                actions@[k],
                descriptions@[k]@,
            ) by {
                assert(action_covers(slots_before, actions@[k], descriptions@[k]@));
            }
        }
        Result::Ok(actions)
    }

    /// Records which cursors a subscription of a session holds; an
    /// earlier record under the same subscription id is replaced.
    #[verifier::loop_isolation(false)]
    pub fn record_subscription(
        &mut self,
        session_id: usize,
        subscription_id: String,
        cursor_ids: Vec<u64>,
    )
        ensures
            final(self).slots == old(self).slots,
            final(self).server_subscriptions == old(self).server_subscriptions,
            final(self).next_id == old(self).next_id,
            bs_view(final(self).by_session) =~~= spec_record(
                bs_view(old(self).by_session),
                session_id,
                subscription_id@,
                cursor_ids@,
            ),
    {
        let ghost bs0 = bs_view(self.by_session);
        let ghost gsub = subscription_id@;
        let ghost gids = cursor_ids@;
        proof {
            lemma_bs_find(bs0, session_id);
        }
        let mut i: usize = 0;
        let n = self.by_session.len();
        while i < n
            invariant
                i <= n,
                n == self.by_session@.len(),
                *self == *old(self),
                bs0 == bs_view(self.by_session),
                forall|k: int| 0 <= k < i ==> bs0[k].0 != session_id,
            decreases n - i,
        {
            if self.by_session[i].0 == session_id {
                proof {
                    assert(bs0[i as int].0 == session_id);
                    match spec_bs_find(bs0, session_id) {
                        Option::Some(f) => {
                            if f < i {
                                assert(bs0[f].0 == session_id);
                            } else if f > i {
                                assert(bs0[i as int].0 != session_id);
                            }
                        },
                        Option::None => {
                            assert(bs0[i as int].0 != session_id);
                        },
                    }
                }
                let (sid, mut subs) = self.by_session.remove(i);
                let ghost gsubs = subs_view(subs);
                proof {
                    assert(gsubs == bs0[i as int].1);
                    crate::mergebox::lemma_assoc_find(gsubs, subscription_id@);
                }
                let mut j: usize = 0;
                let mut found: Option<usize> = Option::None;
                while j < subs.len()
                    invariant
                        j <= subs@.len(),
                        i < n,
                        self.by_session@.len() == n - 1,
                        self.slots == old(self).slots,
                        self.server_subscriptions == old(self).server_subscriptions,
                        self.next_id == old(self).next_id,
                        gsubs == subs_view(subs),
                        forall|k: int|
                            0 <= k < self.by_session@.len() ==> #[trigger] bs_view(
                                self.by_session,
                            )[k] == bs0.remove(i as int)[k],
                        match found {
                            Option::Some(f) => f < j && crate::mergebox::spec_assoc_find(
                                gsubs,
                                subscription_id@,
                            ) == Option::Some(f as int),
                            Option::None => forall|k: int|
                                0 <= k < j ==> gsubs[k].0 != subscription_id@,
                        },
                    decreases subs@.len() - j,
                {
                    if matches!(found, Option::None) && str_eq(
                        subs[j].0.as_str(),
                        subscription_id.as_str(),
                    ) {
                        proof {
                            assert(gsubs[j as int].0 == subscription_id@);
                            match crate::mergebox::spec_assoc_find(gsubs, subscription_id@) {
                                Option::Some(f) => {
                                    if f < j {
                                        assert(gsubs[f].0 == subscription_id@);
                                    } else if f > j {
                                        assert(gsubs[j as int].0 != subscription_id@);
                                    }
                                },
                                Option::None => {
                                    assert(gsubs[j as int].0 != subscription_id@);
                                },
                            }
                        }
                        found = Option::Some(j);
                    }
                    j = j + 1;
                }
                let ghost subs1 = match crate::mergebox::spec_assoc_find(
                    gsubs,
                    subscription_id@,
                ) {
                    Option::None => gsubs,
                    Option::Some(f) => gsubs.remove(f),
                };
                match found {
                    Option::Some(f) => {
                        subs.remove(f);
                        proof {
                            assert(subs_view(subs) =~~= gsubs.remove(f as int));
                        }
                    },
                    Option::None => {},
                }
                proof {
                    assert(subs_view(subs) =~~= subs1);
                }
                subs.push((subscription_id, cursor_ids));
                proof {
                    assert(subs_view(subs) =~~= subs1.push((gsub, gids)));
                }
                self.by_session.insert(i, (sid, subs));
                proof {
                    assert(bs_view(self.by_session) =~~= bs0.update(
                        i as int,
                        (session_id, subs1.push((gsub, gids))),
                    ));
                }
                return ;
            }
            i = i + 1;
        }
        let mut subs: Vec<(String, Vec<u64>)> = Vec::new();
        subs.push((subscription_id, cursor_ids));
        let ghost gsubs = subs_view(subs);
        self.by_session.push((session_id, subs));
        proof {
            assert(gsubs =~~= seq![(gsub, gids)]);
            assert(bs_view(self.by_session) =~~= bs0.push((session_id, gsubs)));
        }
    }

    /// Releases one subscription of a session: its record leaves the
    /// per-session table and each of its cursors loses one attachment.
    /// The result is the subscription id when it was known, with the
    /// cursors the session fully left and the cursors whose tasks must
    /// stop; a missing record is not an error.
    #[verifier::loop_isolation(false)]
    pub fn stop(&mut self, session_id: usize, subscription_id: &str) -> (r: Option<
        (String, Vec<u64>, Vec<u64>),
    >)
        ensures
            final(self).server_subscriptions == old(self).server_subscriptions,
            final(self).next_id == old(self).next_id,
            ({
                let bs0 = bs_view(old(self).by_session);
                match spec_bs_find(bs0, session_id) {
                    Option::None => r is None && *final(self) == *old(self),
                    Option::Some(si) => match crate::mergebox::spec_assoc_find(
                        bs0[si].1,
                        subscription_id@,
                    ) {
                        Option::None => r is None && bs_view(final(self).by_session) =~~= bs0
                            && final(self).slots == old(self).slots,
                        Option::Some(sj) => {
                            let (sl2, det, stp) = spec_detach_list(
                                slots_view(old(self).slots),
                                session_id,
                                bs0[si].1[sj].1,
                            );
                            &&& r matches Option::Some((name, detached, stopped)) && name@
                                == subscription_id@ && detached@ == det && stopped@ == stp
                            &&& bs_view(final(self).by_session) =~~= bs0.update(
                                si,
                                (session_id, bs0[si].1.remove(sj)),
                            )
                            &&& slots_view(final(self).slots) =~~= sl2
                        },
                    },
                }
            }),
    {
        let ghost bs0 = bs_view(self.by_session);
        proof {
            lemma_bs_find(bs0, session_id);
        }
        let mut i: usize = 0;
        let n = self.by_session.len();
        while i < n
            invariant
                i <= n,
                n == self.by_session@.len(),
                *self == *old(self),
                bs0 == bs_view(self.by_session),
                forall|k: int| 0 <= k < i ==> bs0[k].0 != session_id,
            decreases n - i,
        {
            if self.by_session[i].0 == session_id {
                proof {
                    assert(bs0[i as int].0 == session_id);
                    match spec_bs_find(bs0, session_id) {
                        Option::Some(f) => {
                            if f < i {
                                assert(bs0[f].0 == session_id);
                            } else if f > i {
                                assert(bs0[i as int].0 != session_id);
                            }
                        },
                        Option::None => {
                            assert(bs0[i as int].0 != session_id);
                        },
                    }
                }
                let (sid, mut subs) = self.by_session.remove(i);
                let ghost gsubs = subs_view(subs);
                proof {
                    assert(gsubs == bs0[i as int].1);
                    crate::mergebox::lemma_assoc_find(gsubs, subscription_id@);
                }
                let mut j: usize = 0;
                while j < subs.len()
                    invariant
                        j <= subs@.len(),
                        i < n,
                        self.by_session@.len() == n - 1,
                        self.slots == old(self).slots,
                        self.server_subscriptions == old(self).server_subscriptions,
                        self.next_id == old(self).next_id,
                        gsubs == subs_view(subs),
                        forall|k: int| 0 <= k < j ==> gsubs[k].0 != subscription_id@,
                        forall|k: int|
                            0 <= k < self.by_session@.len() ==> #[trigger] bs_view(
                                self.by_session,
                            )[k] == bs0.remove(i as int)[k],
                    decreases subs@.len() - j,
                {
                    if str_eq(subs[j].0.as_str(), subscription_id) {
                        proof {
                            assert(gsubs[j as int].0 == subscription_id@);
                            match crate::mergebox::spec_assoc_find(gsubs, subscription_id@) {
                                Option::Some(f) => {
                                    if f < j {
                                        assert(gsubs[f].0 == subscription_id@);
                                    } else if f > j {
                                        assert(gsubs[j as int].0 != subscription_id@);
                                    }
                                },
                                Option::None => {
                                    assert(gsubs[j as int].0 != subscription_id@);
                                },
                            }
                        }
                        let (sub_id, cursor_ids) = subs.remove(j);
                        proof {
                            assert(subs_view(subs) =~~= gsubs.remove(j as int));
                            assert(cursor_ids@ == gsubs[j as int].1);
                            assert(sid == session_id);
                        }
                        let ghost pre_bs = bs_view(self.by_session);
                        self.by_session.insert(i, (sid, subs));
                        proof {
                            let post = bs_view(self.by_session);
                            let target = bs0.update(
                                i as int,
                                (session_id, gsubs.remove(j as int)),
                            );
                            assert(post.len() == target.len());
                            assert forall|k: int| 0 <= k < post.len() implies post[k]
                                =~~= target[k] by {
                                if k < i {
                                    assert(pre_bs[k] == bs0.remove(i as int)[k]);
                                    assert(post[k] == pre_bs[k]);
                                } else if k > i {
                                    assert(pre_bs[k - 1] == bs0.remove(i as int)[k - 1]);
                                    assert(post[k] == pre_bs[k - 1]);
                                }
                            }
                            assert(bs_view(self.by_session) =~~= target);
                        }
                        let (detached, stopped) = self.detach_all(session_id, &cursor_ids);
                        return Option::Some((sub_id, detached, stopped));
                    }
                    j = j + 1;
                }
                proof {
                    assert(sid == session_id);
                }
                let ghost pre_bs = bs_view(self.by_session);
                self.by_session.insert(i, (sid, subs));
                proof {
                    let post = bs_view(self.by_session);
                    assert(post.len() == bs0.len());
                    assert forall|k: int| 0 <= k < post.len() implies post[k] =~~= bs0[k] by {
                        if k < i {
                            assert(pre_bs[k] == bs0.remove(i as int)[k]);
                            assert(post[k] == pre_bs[k]);
                        } else if k > i {
                            assert(pre_bs[k - 1] == bs0.remove(i as int)[k - 1]);
                            assert(post[k] == pre_bs[k - 1]);
                        } else {
                            assert(bs0[k].0 == session_id);
                            assert(bs0[k].1 == gsubs);
                        }
                    }
                    assert(bs_view(self.by_session) =~~= bs0);
                }
                return Option::None;
            }
            i = i + 1;
        }
        Option::None
    }

    /// Releases every subscription of a session, as its teardown does:
    /// the session's entry leaves the per-session table and every
    /// recorded cursor loses one attachment per record. The results list
    /// the cursors the session fully left and the cursors whose tasks
    /// must stop.
    #[verifier::loop_isolation(false)]
    pub fn stop_all(&mut self, session_id: usize) -> (r: (Vec<u64>, Vec<u64>))
        ensures
            final(self).server_subscriptions == old(self).server_subscriptions,
            final(self).next_id == old(self).next_id,
            ({
                let bs0 = bs_view(old(self).by_session);
                match spec_bs_find(bs0, session_id) {
                    Option::None => r.0@.len() == 0 && r.1@.len() == 0 && *final(self) == *old(
                        self,
                    ),
                    Option::Some(si) => {
                        let (sl2, det, stp) = spec_detach_subs(
                            slots_view(old(self).slots),
                            session_id,
                            bs0[si].1,
                        );
                        &&& bs_view(final(self).by_session) =~~= bs0.remove(si)
                        &&& slots_view(final(self).slots) =~~= sl2
                        &&& r.0@ == det
                        &&& r.1@ == stp
                    },
                }
            }),
    {
        let ghost bs0 = bs_view(self.by_session);
        proof {
            lemma_bs_find(bs0, session_id);
        }
        let mut detached: Vec<u64> = Vec::new();
        let mut stopped: Vec<u64> = Vec::new();
        let mut i: usize = 0;
        let n = self.by_session.len();
        while i < n
            invariant
                i <= n,
                n == self.by_session@.len(),
                *self == *old(self),
                bs0 == bs_view(self.by_session),
                detached@.len() == 0,
                stopped@.len() == 0,
                forall|k: int| 0 <= k < i ==> bs0[k].0 != session_id,
            decreases n - i,
        {
            if self.by_session[i].0 == session_id {
                proof {
                    assert(bs0[i as int].0 == session_id);
                    match spec_bs_find(bs0, session_id) {
                        Option::Some(f) => {
                            if f < i {
                                assert(bs0[f].0 == session_id);
                            } else if f > i {
                                assert(bs0[i as int].0 != session_id);
                            }
                        },
                        Option::None => {
                            assert(bs0[i as int].0 != session_id);
                        },
                    }
                }
                let (_, subs) = self.by_session.remove(i);
                let ghost gsubs = subs_view(subs);
                let ghost sl0 = slots_view(self.slots);
                proof {
                    assert(gsubs == bs0[i as int].1);
                    assert(bs_view(self.by_session) =~~= bs0.remove(i as int));
                    assert(gsubs.skip(0) =~= gsubs);
                }
                let mut j: usize = 0;
                while j < subs.len()
                    invariant
                        j <= subs@.len(),
                        self.server_subscriptions == old(self).server_subscriptions,
                        self.next_id == old(self).next_id,
                        bs_view(self.by_session) =~~= bs0.remove(
                            spec_bs_find(bs0, session_id)->Some_0,
                        ),
                        gsubs == subs_view(subs),
                        ({
                            let (slf, detf, stpf) = spec_detach_subs(sl0, session_id, gsubs);
                            let (sl2, det2, stp2) = spec_detach_subs(
                                slots_view(self.slots),
                                session_id,
                                gsubs.skip(j as int),
                            );
                            &&& slf == sl2
                            &&& detf == detached@ + det2
                            &&& stpf == stopped@ + stp2
                        }),
                    decreases subs@.len() - j,
                {
                    proof {
                        assert(gsubs.skip(j as int)[0] == gsubs[j as int]);
                        assert(gsubs.skip(j as int).skip(1) =~= gsubs.skip(j as int + 1));
                    }
                    let ghost det_pre = detached@;
                    let ghost stp_pre = stopped@;
                    let ghost sl_j = slots_view(self.slots);
                    let (mut more_det, mut more_stp) = self.detach_all(session_id, &subs[j].1);
                    detached.append(&mut more_det);
                    stopped.append(&mut more_stp);
                    proof {
                        let one = spec_detach_list(sl_j, session_id, gsubs[j as int].1);
                        assert(subs@[j as int].1@ == gsubs[j as int].1);
                        assert(detached@ == det_pre + one.1);
                        assert(stopped@ == stp_pre + one.2);
                        let (sl2, det2, stp2) = spec_detach_subs(
                            slots_view(self.slots),
                            session_id,
                            gsubs.skip(j as int + 1),
                        );
                        assert(det_pre + (one.1 + det2) =~= detached@ + det2);
                        assert(stp_pre + (one.2 + stp2) =~= stopped@ + stp2);
                    }
                    j = j + 1;
                }
                proof {
                    assert(gsubs.skip(subs@.len() as int).len() == 0);
                    let (sl2, det2, stp2) = spec_detach_subs(
                        slots_view(self.slots),
                        session_id,
                        gsubs.skip(subs@.len() as int),
                    );
                    assert(detached@ + det2 =~= detached@);
                    assert(stopped@ + stp2 =~= stopped@);
                }
                return (detached, stopped);
            }
            i = i + 1;
        }
        (detached, stopped)
    }

    /// Detaches a session once from each listed cursor: a cursor the
    /// session fully left is reported detached, and one with no session
    /// left leaves the table and is also reported stopped.
    #[verifier::loop_isolation(false)]
    fn detach_all(&mut self, session_id: usize, cursor_ids: &Vec<u64>) -> (r: (Vec<u64>, Vec<
        u64,
    >))
        ensures
            final(self).server_subscriptions == old(self).server_subscriptions,
            final(self).next_id == old(self).next_id,
            final(self).by_session == old(self).by_session,
            ({
                let (sl2, det, stp) = spec_detach_list(
                    slots_view(old(self).slots),
                    session_id,
                    cursor_ids@,
                );
                &&& slots_view(final(self).slots) =~~= sl2
                &&& r.0@ == det
                &&& r.1@ == stp
            }),
    {
        let mut detached: Vec<u64> = Vec::new();
        let mut stopped: Vec<u64> = Vec::new();
        let mut i: usize = 0;
        proof {
            assert(cursor_ids@.skip(0) =~= cursor_ids@);
        }
        while i < cursor_ids.len()
            invariant
                i <= cursor_ids@.len(),
                self.server_subscriptions == old(self).server_subscriptions,
                self.next_id == old(self).next_id,
                self.by_session == old(self).by_session,
                ({
                    let (slf, detf, stpf) = spec_detach_list(
                        slots_view(old(self).slots),
                        session_id,
                        cursor_ids@,
                    );
                    let (sl2, det2, stp2) = spec_detach_list(
                        slots_view(self.slots),
                        session_id,
                        cursor_ids@.skip(i as int),
                    );
                    &&& slf == sl2
                    &&& detf == detached@ + det2
                    &&& stpf == stopped@ + stp2
                }),
            decreases cursor_ids@.len() - i,
        {
            let ghost sl_i = slots_view(self.slots);
            proof {
                assert(cursor_ids@.skip(i as int)[0] == cursor_ids@[i as int]);
                assert(cursor_ids@.skip(i as int).skip(1) =~= cursor_ids@.skip(i as int + 1));
                lemma_find_slot(sl_i, cursor_ids@[i as int]);
            }
            let cursor_id = cursor_ids[i];
            let mut j: usize = 0;
            let mut found: Option<usize> = Option::None;
            while j < self.slots.len()
                invariant
                    j <= self.slots@.len(),
                    sl_i == slots_view(self.slots),
                    self.server_subscriptions == old(self).server_subscriptions,
                    self.next_id == old(self).next_id,
                    self.by_session == old(self).by_session,
                    match found {
                        Option::Some(f) => f < j && spec_find_slot(sl_i, cursor_id)
                            == Option::Some(f as int),
                        Option::None => forall|k: int| 0 <= k < j ==> sl_i[k].0 != cursor_id,
                    },
                decreases self.slots@.len() - j,
            {
                if matches!(found, Option::None) && self.slots[j].id == cursor_id {
                    proof {
                        assert(sl_i[j as int].0 == cursor_id);
                        match spec_find_slot(sl_i, cursor_id) {
                            Option::Some(f) => {
                                if f < j {
                                    assert(sl_i[f].0 == cursor_id);
                                } else if f > j {
                                    assert(sl_i[j as int].0 != cursor_id);
                                }
                            },
                            Option::None => {
                                assert(sl_i[j as int].0 != cursor_id);
                            },
                        }
                    }
                    found = Option::Some(j);
                }
                j = j + 1;
            }
            let ghost det_pre = detached@;
            let ghost stp_pre = stopped@;
            match found {
                Option::Some(slot_key) => {
                    let mut slot = self.slots.remove(slot_key);
                    let ghost entries0 = slot.attached.entries@;
                    proof {
                        assert(entries0 == sl_i[slot_key as int].2);
                        crate::mergebox::lemma_session_find(entries0, session_id);
                    }
                    let (left, is_last) = slot.attached.remove_mergebox(session_id);
                    if left {
                        detached.push(cursor_id);
                    }
                    if is_last {
                        stopped.push(cursor_id);
                    } else {
                        self.slots.insert(slot_key, slot);
                    }
                    proof {
                        let one = spec_detach_one(sl_i, session_id, cursor_id);
                        match crate::mergebox::spec_session_find(entries0, session_id) {
                            Option::Some(e) => {
                                if entries0[e].1 == 0 {
                                    if entries0.len() == 1 {
                                        assert(slots_view(self.slots) =~~= sl_i.remove(
                                            slot_key as int,
                                        ));
                                    } else {
                                        assert(slots_view(self.slots) =~~= sl_i.update(
                                            slot_key as int,
                                            (
                                                sl_i[slot_key as int].0,
                                                sl_i[slot_key as int].1,
                                                entries0.remove(e),
                                            ),
                                        ));
                                    }
                                } else {
                                    assert(slots_view(self.slots) =~~= sl_i.update(
                                        slot_key as int,
                                        (
                                            sl_i[slot_key as int].0,
                                            sl_i[slot_key as int].1,
                                            entries0.update(
                                                e,
                                                (session_id, (entries0[e].1 - 1) as usize),
                                            ),
                                        ),
                                    ));
                                }
                            },
                            Option::None => {
                                assert(slots_view(self.slots) =~~= sl_i);
                            },
                        }
                        assert(slots_view(self.slots) =~~= one.0);
                    }
                },
                Option::None => {
                    proof {
                        assert(spec_find_slot(sl_i, cursor_id) is None);
                        assert(slots_view(self.slots) =~~= spec_detach_one(
                            sl_i,
                            session_id,
                            cursor_id,
                        ).0);
                    }
                },
            }
            proof {
                let one = spec_detach_one(sl_i, session_id, cursor_id);
                let (slf, detf, stpf) = spec_detach_list(
                    slots_view(old(self).slots),
                    session_id,
                    cursor_ids@,
                );
                let (sl2, det2, stp2) = spec_detach_list(
                    slots_view(self.slots),
                    session_id,
                    cursor_ids@.skip(i as int + 1),
                );
                let (slp, detp, stpp) = spec_detach_list(
                    sl_i,
                    session_id,
                    cursor_ids@.skip(i as int),
                );
                assert(slp == sl2);
                assert(detp == (if one.1 {
                    seq![cursor_id]
                } else {
                    Seq::<u64>::empty()
                }) + det2);
                assert(stpp == (if one.2 {
                    seq![cursor_id]
                } else {
                    Seq::<u64>::empty()
                }) + stp2);
                if one.1 {
                    assert(detached@ == det_pre.push(cursor_id));
                    assert(det_pre + detp =~= detached@ + det2);
                } else {
                    assert(detached@ == det_pre);
                    assert(det_pre + detp =~= detached@ + det2);
                }
                if one.2 {
                    assert(stopped@ == stp_pre.push(cursor_id));
                    assert(stp_pre + stpp =~= stopped@ + stp2);
                } else {
                    assert(stopped@ == stp_pre);
                    assert(stp_pre + stpp =~= stopped@ + stp2);
                }
            }
            i = i + 1;
        }
        proof {
            assert(cursor_ids@.skip(cursor_ids@.len() as int).len() == 0);
            let (sl2, det2, stp2) = spec_detach_list(
                slots_view(self.slots),
                session_id,
                cursor_ids@.skip(cursor_ids@.len() as int),
            );
            assert(detached@ + det2 =~= detached@);
            assert(stopped@ + stp2 =~= stopped@);
        }
        (detached, stopped)
    }
}

} // verus!
