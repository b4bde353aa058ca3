//! The per-client orchestration rules: how one inbound message from the
//! client or the upstream server is rewritten, routed, or answered. The
//! sockets and tasks live outside the library; these functions decide.

use vstd::prelude::*;
use crate::ddp::DDPMessage;
use crate::inflights::{spec_claim, spec_claim_all, spec_inflight_find, Inflight, Inflights};
use crate::mergebox::{
    cleared_view, mb_lt, mb_wf, mb_collections_view, spec_apply_cleared, spec_apply_fields,
    spec_assoc_find, spec_insert_msgs_shape, spec_mb_insert, spec_mb_remove,
    spec_remove_msgs_shape, spec_sv_find, spec_sv_push, spec_swap_remove, sv_covered, sv_view,
    sv_wf, Mergebox, MergeError,
};
use crate::subscriptions::{
    bs_view, slots_view, spec_bs_find, spec_detach_list, spec_server_sub, Subscriptions,
};
use crate::value::{obj_view, str_concat, SpecValue, Value};

verus! {

/// What the orchestrator asks its caller to do with one message.
pub enum SessionAction {
    /// Send a message to the client.
    SendClient(DDPMessage),
    /// Send a message to the upstream server.
    SendServer(DDPMessage),
    /// The upstream answered a rewritten subscription: parse its result
    /// into descriptions and hand them back to the registry.
    BeginSubscription {
        id: String,
        name: String,
        params: Option<Vec<Value>>,
        error: Option<Value>,
        result: Option<Value>,
    },
    /// Withdraw this session's documents for each detached cursor, and
    /// stop the tasks of the cursors no session holds any more.
    DetachCursors { detached: Vec<u64>, stopped: Vec<u64> },
}

/// The model of a parameter list: each value's model, when one is there.
pub open spec fn params_view(params: Option<Vec<Value>>) -> Option<Seq<SpecValue>> {
    match params {
        Option::Some(values) => Option::Some(values@.map_values(|v: Value| v@)),
        Option::None => Option::None,
    }
}

/// Decides one message from the client. A subscription for a name the
/// upstream alone serves passes through; any other subscription is
/// rewritten into a remote call and recorded as in flight. An
/// unsubscription of a locally served subscription is answered directly,
/// its cursors detached; everything else passes through.
pub fn process_message_client(
    subscriptions: &mut Subscriptions,
    inflights: &mut Inflights,
    session_id: usize,
    message: DDPMessage,
) -> (r: Vec<SessionAction>)
    ensures
        match message {
            DDPMessage::Sub { id, name, params } => {
                &&& *final(subscriptions) == *old(subscriptions)
                &&& if spec_server_sub(old(subscriptions).server_subscriptions@, name@) {
                    &&& r@.len() == 1
                    &&& r@[0] matches SessionAction::SendServer(DDPMessage::Sub {
                        id: rid,
                        name: rname,
                        params: rparams,
                    }) && rid == id && rname == name && rparams == params
                    &&& *final(inflights) == *old(inflights)
                } else {
                    &&& r@.len() == 1
                    &&& r@[0] matches SessionAction::SendServer(DDPMessage::Method {
                        id: rid,
                        method,
                        params: rparams,
                        random_seed,
                    }) && rid == id && method@ == "__subscription__"@ + name@ && rparams
                        == params && random_seed is None
                    &&& final(inflights).entries@.len() == old(inflights).entries@.len() + 1
                    &&& final(inflights).entries@.last().0 == id
                    &&& final(inflights).entries@.last().1 matches Option::Some(inf)
                        && inf.name == name && !inf.update_received && params_view(inf.params)
                        == params_view(params)
                }
            },
            DDPMessage::Unsub { id } => {
                &&& *final(inflights) == *old(inflights)
                &&& final(subscriptions).server_subscriptions == old(
                    subscriptions,
                ).server_subscriptions
                &&& ({
                    let bs0 = bs_view(old(subscriptions).by_session);
                    match spec_bs_find(bs0, session_id) {
                        Option::None => {
                            &&& r@.len() == 1
                            &&& r@[0] matches SessionAction::SendServer(DDPMessage::Unsub {
                                id: rid,
                            }) && rid == id
                            &&& *final(subscriptions) == *old(subscriptions)
                        },
                        Option::Some(si) => match spec_assoc_find(bs0[si].1, id@) {
                            Option::None => {
                                &&& r@.len() == 1
                                &&& r@[0] matches SessionAction::SendServer(DDPMessage::Unsub {
                                    id: rid,
                                }) && rid == id
                                &&& bs_view(final(subscriptions).by_session) =~~= bs0
                                &&& final(subscriptions).slots == old(subscriptions).slots
                            },
                            Option::Some(sj) => {
                                let (sl2, det, stp) = spec_detach_list(
                                    slots_view(old(subscriptions).slots),
                                    session_id,
                                    bs0[si].1[sj].1,
                                );
                                &&& r@.len() == 2
                                &&& r@[0] matches SessionAction::SendClient(DDPMessage::Nosub {
                                    id: nid,
                                    error,
                                }) && nid@ == id@ && error is None
                                &&& r@[1] matches SessionAction::DetachCursors {
                                    detached,
                                    stopped,
                                } && detached@ == det && stopped@ == stp
                                &&& bs_view(final(subscriptions).by_session) =~~= bs0.update(
                                    si,
                                    (session_id, bs0[si].1.remove(sj)),
                                )
                                &&& slots_view(final(subscriptions).slots) =~~= sl2
                            },
                        },
                    }
                })
            },
            _ => {
                &&& r@.len() == 1
                &&& r@[0] matches SessionAction::SendServer(m) && m == message
                &&& *final(inflights) == *old(inflights)
                &&& *final(subscriptions) == *old(subscriptions)
            },
        },
{
    let mut actions: Vec<SessionAction> = Vec::new();
    match message {
        DDPMessage::Sub { id, name, params } => {
            if subscriptions.is_server_subscription(name.as_str()) {
                actions.push(SessionAction::SendServer(DDPMessage::Sub { id, name, params }));
            } else {
                let method = str_concat("__subscription__", name.as_str());
                let params_copy = clone_params(&params);
                actions.push(
                    SessionAction::SendServer(
                        DDPMessage::Method {
                            id: id.clone(),
                            method,
                            params,
                            random_seed: Option::None,
                        },
                    ),
                );
                inflights.register(id, Inflight::new(name, params_copy));
            }
        },
        DDPMessage::Unsub { id } => {
            match subscriptions.stop(session_id, id.as_str()) {
                Option::Some((sub_id, detached, stopped)) => {
                    actions.push(
                        SessionAction::SendClient(
                            DDPMessage::Nosub { id: sub_id, error: Option::None },
                        ),
                    );
                    actions.push(SessionAction::DetachCursors { detached, stopped });
                },
                Option::None => {
                    actions.push(SessionAction::SendServer(DDPMessage::Unsub { id }));
                },
            }
        },
        other => {
            actions.push(SessionAction::SendServer(other));
        },
    }
    actions
}

/// Clones a parameter list: the copy holds equal values.
#[verifier::loop_isolation(false)]
fn clone_params(params: &Option<Vec<Value>>) -> (r: Option<Vec<Value>>)
    ensures
        params_view(r) == params_view(*params),
{
    match params {
        Option::Some(values) => {
            let mut out: Vec<Value> = Vec::new();
            let mut i: usize = 0;
            while i < values.len()
                invariant
                    i <= values@.len(),
                    out@.len() == i,
                    forall|k: int| 0 <= k < i ==> (#[trigger] out@[k])@ == values@[k]@,
                decreases values@.len() - i,
            {
                out.push(values[i].clone());
                i = i + 1;
            }
            proof {
                assert(out@.map_values(|v: Value| v@) =~= values@.map_values(|v: Value| v@));
            }
            Option::Some(out)
        },
        Option::None => Option::None,
    }
}

/// Decides one message from the upstream server. A result for an
/// in-flight rewritten subscription is taken over; an update for one is
/// swallowed, the rest forwarded; data messages feed the reconciliation
/// buffer, whose deltas go to the client; everything else passes through.
pub fn process_message_server(
    inflights: &mut Inflights,
    mergebox: &mut Mergebox,
    message: DDPMessage,
) -> (r: Result<Vec<SessionAction>, MergeError>)
    requires
        mb_wf(mb_collections_view(old(mergebox).collections)),
        mb_lt(mb_collections_view(old(mergebox).collections), usize::MAX as int - 1),
        sv_wf(sv_view(old(mergebox).server_view)),
        match message {
            DDPMessage::Added { ref fields, .. } => match fields {
                Option::Some(d) => crate::value::obj_keys_unique(crate::value::obj_view(*d)),
                Option::None => true,
            },
            _ => true,
        },
    ensures
        match message {
            DDPMessage::Result { id, error, result } => {
                &&& *final(mergebox) == *old(mergebox)
                &&& match spec_inflight_find(old(inflights).entries@, id@) {
                    Option::None => r matches Result::Ok(acts) && acts@.len() == 1 && (acts@[0]
                        matches SessionAction::SendClient(m) && m == message),
                    Option::Some(i) => match old(inflights).entries@[i].1 {
                        Option::None => r matches Result::Ok(acts) && acts@.len() == 1 && (
                        acts@[0] matches SessionAction::SendClient(m) && m == message),
                        Option::Some(inflight) => r matches Result::Ok(acts) && acts@.len()
                            == 1 && (acts@[0] matches SessionAction::BeginSubscription {
                            id: rid,
                            name,
                            params,
                            error: rerr,
                            result: rres,
                        } && rid == id && name == inflight.name && params == inflight.params
                            && rerr == error && rres == result),
                    },
                }
            },
            DDPMessage::Updated { methods } => {
                &&& *final(mergebox) == *old(mergebox)
                &&& ({
                    let (e2, kept) = spec_claim_all(
                        old(inflights).entries@,
                        methods@.map_values(|s: String| s@),
                    );
                    &&& final(inflights).entries@ == e2
                    &&& if kept.len() == 0 {
                        r matches Result::Ok(acts) && acts@.len() == 0
                    } else {
                        r matches Result::Ok(acts) && acts@.len() == 1 && (acts@[0]
                            matches SessionAction::SendClient(DDPMessage::Updated {
                            methods: m,
                        }) && m@.map_values(|s: String| s@) == kept)
                    }
                })
            },
            DDPMessage::Added { collection, id, fields } => {
                &&& *final(inflights) == *old(inflights)
                &&& ({
                    let doc = match fields {
                        Option::Some(d) => obj_view(d),
                        Option::None => Seq::empty(),
                    };
                    let (cols2, is_new, ch) = spec_mb_insert(
                        mb_collections_view(old(mergebox).collections),
                        collection@,
                        id@,
                        doc,
                    );
                    &&& mb_collections_view(final(mergebox).collections) == cols2
                    &&& sv_view(final(mergebox).server_view) =~~= spec_sv_push(
                        sv_view(old(mergebox).server_view),
                        collection@,
                        id@,
                        doc,
                    )
                    &&& r matches Result::Ok(acts) && (forall|k: int|
                        0 <= k < acts@.len() ==> (#[trigger] acts@[k]) is SendClient)
                        && spec_insert_msgs_shape(
                        acts@.map_values(|a: SessionAction| a->SendClient_0),
                        collection@,
                        id@,
                        doc,
                        is_new,
                        ch,
                    )
                })
            },
            DDPMessage::Changed { collection, id, fields, cleared } => {
                &&& *final(inflights) == *old(inflights)
                &&& (sv_covered(
                    mb_collections_view(old(mergebox).collections),
                    sv_view(old(mergebox).server_view),
                ) ==> (r is Err <==> ({
                    let sv0 = sv_view(old(mergebox).server_view);
                    match spec_assoc_find(sv0, collection@) {
                        Option::None => true,
                        Option::Some(ci) => spec_sv_find(sv0[ci].1, id@) is None,
                    }
                })))
                &&& ({
                    let sv0 = sv_view(old(mergebox).server_view);
                    let gfields = match fields {
                        Option::Some(d) => obj_view(d),
                        Option::None => Seq::empty(),
                    };
                    let gcleared = match cleared {
                        Option::Some(names) => cleared_view(names),
                        Option::None => Seq::empty(),
                    };
                    match spec_assoc_find(sv0, collection@) {
                        Option::None => r == Result::<Vec<SessionAction>, MergeError>::Err(
                            MergeError::CollectionNotFound,
                        ) && *final(mergebox) == *old(mergebox),
                        Option::Some(ci) => match spec_sv_find(sv0[ci].1, id@) {
                            Option::None => r == Result::<Vec<SessionAction>, MergeError>::Err(
                                MergeError::DocumentNotFound,
                            ) && *final(mergebox) == *old(mergebox),
                            Option::Some(di) => {
                                let old_doc = sv0[ci].1[di].1;
                                let patched = spec_apply_fields(
                                    spec_apply_cleared(old_doc, gcleared),
                                    gfields,
                                );
                                let (cols2, is_new, ch) = spec_mb_insert(
                                    mb_collections_view(old(mergebox).collections),
                                    collection@,
                                    id@,
                                    patched,
                                );
                                &&& sv_view(final(mergebox).server_view) =~~= spec_sv_push(
                                    sv0.update(
                                        ci,
                                        (collection@, spec_swap_remove(sv0[ci].1, di)),
                                    ),
                                    collection@,
                                    id@,
                                    patched,
                                )
                                &&& match r {
                                    Result::Ok(acts) => {
                                        let msgs = acts@.map_values(
                                            |a: SessionAction| a->SendClient_0,
                                        );
                                        let n1: int = if is_new || ch.len() > 0 {
                                            1
                                        } else {
                                            0
                                        };
                                        &&& forall|k: int|
                                            0 <= k < acts@.len() ==> (#[trigger] acts@[k])
                                                is SendClient
                                        &&& spec_mb_remove(cols2, collection@, id@, old_doc)
                                            matches Result::Ok((cols3, removed, cl))
                                        &&& mb_collections_view(final(mergebox).collections)
                                            == cols3
                                        &&& spec_insert_msgs_shape(
                                            msgs.take(n1),
                                            collection@,
                                            id@,
                                            patched,
                                            is_new,
                                            ch,
                                        )
                                        &&& spec_remove_msgs_shape(
                                            msgs.skip(n1),
                                            collection@,
                                            id@,
                                            removed,
                                            cl,
                                        )
                                    },
                                    Result::Err(e) => spec_mb_remove(
                                        cols2,
                                        collection@,
                                        id@,
                                        old_doc,
                                    ) is Err,
                                }
                            },
                        },
                    }
                })
            },
            DDPMessage::Removed { collection, id } => {
                &&& *final(inflights) == *old(inflights)
                &&& (sv_covered(
                    mb_collections_view(old(mergebox).collections),
                    sv_view(old(mergebox).server_view),
                ) ==> (r is Err <==> ({
                    let sv0 = sv_view(old(mergebox).server_view);
                    match spec_assoc_find(sv0, collection@) {
                        Option::None => true,
                        Option::Some(ci) => spec_sv_find(sv0[ci].1, id@) is None,
                    }
                })))
                &&& ({
                    let sv0 = sv_view(old(mergebox).server_view);
                    match spec_assoc_find(sv0, collection@) {
                        Option::None => r == Result::<Vec<SessionAction>, MergeError>::Err(
                            MergeError::CollectionNotFound,
                        ) && *final(mergebox) == *old(mergebox),
                        Option::Some(ci) => match spec_sv_find(sv0[ci].1, id@) {
                            Option::None => r == Result::<Vec<SessionAction>, MergeError>::Err(
                                MergeError::DocumentNotFound,
                            ) && *final(mergebox) == *old(mergebox),
                            Option::Some(di) => {
                                let old_doc = sv0[ci].1[di].1;
                                &&& sv_view(final(mergebox).server_view) == sv0.update(
                                    ci,
                                    (collection@, spec_swap_remove(sv0[ci].1, di)),
                                )
                                &&& match r {
                                    Result::Ok(acts) => {
                                        &&& forall|k: int|
                                            0 <= k < acts@.len() ==> (#[trigger] acts@[k])
                                                is SendClient
                                        &&& spec_mb_remove(
                                            mb_collections_view(old(mergebox).collections),
                                            collection@,
                                            id@,
                                            old_doc,
                                        ) matches Result::Ok((cols2, removed, cl))
                                        &&& mb_collections_view(final(mergebox).collections)
                                            == cols2
                                        &&& spec_remove_msgs_shape(
                                            acts@.map_values(
                                                |a: SessionAction| a->SendClient_0,
                                            ),
                                            collection@,
                                            id@,
                                            removed,
                                            cl,
                                        )
                                    },
                                    Result::Err(e) => spec_mb_remove(
                                        mb_collections_view(old(mergebox).collections),
                                        collection@,
                                        id@,
                                        old_doc,
                                    ) is Err,
                                }
                            },
                        },
                    }
                })
            },
            _ => {
                &&& r matches Result::Ok(acts) && acts@.len() == 1 && (acts@[0]
                    matches SessionAction::SendClient(m) && m == message)
                &&& *final(inflights) == *old(inflights)
                &&& *final(mergebox) == *old(mergebox)
            },
        },
{
    let mut actions: Vec<SessionAction> = Vec::new();
    match message {
        DDPMessage::Result { id, error, result } => {
            match inflights.process_result(id.as_str()) {
                Option::Some(inflight) => {
                    actions.push(SessionAction::BeginSubscription {
                        id,
                        name: inflight.name,
                        params: inflight.params,
                        error,
                        result,
                    });
                },
                Option::None => {
                    actions.push(
                        SessionAction::SendClient(DDPMessage::Result { id, error, result }),
                    );
                },
            }
            Result::Ok(actions)
        },
        DDPMessage::Updated { methods } => {
            let mut kept: Vec<String> = Vec::new();
            let mut i: usize = 0;
            let rest = methods;
            let ghost mv = rest@.map_values(|s: String| s@);
            proof {
                assert(mv.skip(0) =~= mv);
            }
            while i < rest.len()
                invariant
                    i <= rest@.len(),
                    mv == rest@.map_values(|s: String| s@),
                    *mergebox == *old(mergebox),
                    ({
                        let (ef, keptf) = spec_claim_all(old(inflights).entries@, mv);
                        let (e2, kept2) = spec_claim_all(
                            inflights.entries@,
                            mv.skip(i as int),
                        );
                        &&& ef == e2
                        &&& keptf == kept@.map_values(|s: String| s@) + kept2
                    }),
                decreases rest@.len() - i,
            {
                proof {
                    assert(mv.skip(i as int)[0] == mv[i as int]);
                    assert(mv.skip(i as int).skip(1) =~= mv.skip(i as int + 1));
                    assert(mv[i as int] == rest@[i as int]@);
                }
                let ghost kept_pre = kept@.map_values(|s: String| s@);
                let ghost entries_pre = inflights.entries@;
                let claimed = inflights.process_update(rest[i].as_str());
                if !claimed {
                    kept.push(rest[i].clone());
                }
                proof {
                    let one = spec_claim(entries_pre, mv[i as int]);
                    crate::inflights::lemma_inflight_find(entries_pre, mv[i as int]);
                    assert(inflights.entries@ == one.0);
                    assert(claimed == one.1);
                    let (e2, kept2) = spec_claim_all(
                        inflights.entries@,
                        mv.skip(i as int + 1),
                    );
                    if claimed {
                        assert(kept@.map_values(|s: String| s@) =~= kept_pre);
                        assert(kept_pre + (Seq::<Seq<char>>::empty() + kept2) =~= kept@.map_values(
                            |s: String| s@,
                        ) + kept2);
                    } else {
                        assert(kept@.map_values(|s: String| s@) =~= kept_pre.push(
                            mv[i as int],
                        ));
                        assert(kept_pre + (seq![mv[i as int]] + kept2) =~= kept@.map_values(
                            |s: String| s@,
                        ) + kept2);
                    }
                }
                i = i + 1;
            }
            proof {
                assert(mv.skip(rest@.len() as int).len() == 0);
                let (e2, kept2) = spec_claim_all(
                    inflights.entries@,
                    mv.skip(rest@.len() as int),
                );
                assert(kept@.map_values(|s: String| s@) + kept2 =~= kept@.map_values(
                    |s: String| s@,
                ));
            }
            if kept.len() > 0 {
                actions.push(SessionAction::SendClient(DDPMessage::Updated { methods: kept }));
            } else {
                proof {
                    assert(kept@.map_values(|s: String| s@).len() == 0);
                }
            }
            Result::Ok(actions)
        },
        DDPMessage::Added { collection, id, fields } => {
            let messages = mergebox.server_added(collection, id, fields);
            let ghost msgs0 = messages@;
            let mut rest = messages;
            while rest.len() > 0
                invariant
                    *inflights == *old(inflights),
                    actions@.len() + rest@.len() == msgs0.len(),
                    rest@ =~= msgs0.skip(actions@.len() as int),
                    forall|k: int|
                        0 <= k < actions@.len() ==> (#[trigger] actions@[k]) is SendClient
                            && actions@[k]->SendClient_0 == msgs0[k],
                decreases rest@.len(),
            {
                proof {
                    assert(rest@[0] == msgs0[actions@.len() as int]);
                }
                actions.push(SessionAction::SendClient(rest.remove(0)));
            }
            proof {
                assert(actions@.map_values(|a: SessionAction| a->SendClient_0) =~= msgs0);
            }
            Result::Ok(actions)
        },
        DDPMessage::Changed { collection, id, fields, cleared } => {
            let messages = match mergebox.server_changed(collection, id, fields, cleared) {
                Result::Ok(messages) => messages,
                Result::Err(e) => {
                    return Result::Err(e);
                },
            };
            let ghost msgs0 = messages@;
            let mut rest = messages;
            while rest.len() > 0
                invariant
                    *inflights == *old(inflights),
                    actions@.len() + rest@.len() == msgs0.len(),
                    rest@ =~= msgs0.skip(actions@.len() as int),
                    forall|k: int|
                        0 <= k < actions@.len() ==> (#[trigger] actions@[k]) is SendClient
                            && actions@[k]->SendClient_0 == msgs0[k],
                decreases rest@.len(),
            {
                proof {
                    assert(rest@[0] == msgs0[actions@.len() as int]);
                }
                actions.push(SessionAction::SendClient(rest.remove(0)));
            }
            proof {
                assert(actions@.map_values(|a: SessionAction| a->SendClient_0) =~= msgs0);
                assert(actions@.map_values(|a: SessionAction| a->SendClient_0).take(
                    msgs0.len() as int,
                ) =~= msgs0.take(msgs0.len() as int));
            }
            Result::Ok(actions)
        },
        DDPMessage::Removed { collection, id } => {
            let messages = match mergebox.server_removed(collection, id) {
                Result::Ok(messages) => messages,
                Result::Err(e) => {
                    return Result::Err(e);
                },
            };
            let ghost msgs0 = messages@;
            let mut rest = messages;
            while rest.len() > 0
                invariant
                    *inflights == *old(inflights),
                    actions@.len() + rest@.len() == msgs0.len(),
                    rest@ =~= msgs0.skip(actions@.len() as int),
                    forall|k: int|
                        0 <= k < actions@.len() ==> (#[trigger] actions@[k]) is SendClient
                            && actions@[k]->SendClient_0 == msgs0[k],
                decreases rest@.len(),
            {
                proof {
                    assert(rest@[0] == msgs0[actions@.len() as int]);
                }
                actions.push(SessionAction::SendClient(rest.remove(0)));
            }
            proof {
                assert(actions@.map_values(|a: SessionAction| a->SendClient_0) =~= msgs0);
            }
            Result::Ok(actions)
        },
        other => {
            actions.push(SessionAction::SendClient(other));
            Result::Ok(actions)
        },
    }
}

} // verus!
