use ddp_router::ddp::DDPMessage;
use ddp_router::inflights::{Inflight, Inflights};
use ddp_router::mergebox::Mergebox;
use ddp_router::session::{process_message_client, process_message_server, SessionAction};
use ddp_router::subscriptions::Subscriptions;
use ddp_router::value::{Number, Value};
use ddp_router::watcher::Watcher;

fn n(x: i64) -> Value {
    Value::Number(Number::Int(x))
}

fn t(s: &str) -> Value {
    Value::Text(s.to_owned())
}

fn obj(fields: Vec<(&str, Value)>) -> Vec<(String, Value)> {
    fields.into_iter().map(|(k, v)| (k.to_owned(), v)).collect()
}

fn objv(fields: Vec<(&str, Value)>) -> Value {
    Value::Object(obj(fields))
}

fn description_value() -> Value {
    objv(vec![
        ("collectionName", t("x")),
        ("selector", objv(vec![])),
        ("options", objv(vec![])),
    ])
}

#[test]
fn registry_deduplicates_equal_descriptions_across_sessions() {
    let mut subs = Subscriptions::new();
    let descriptions = vec![description_value()];
    let a = subs
        .start(1, "subA".to_owned(), &descriptions)
        .expect("session one should start");
    assert_eq!(a.len(), 1);
    assert!(a[0].is_new);
    assert!(a[0].is_first_attach);

    let b = subs
        .start(2, "subB".to_owned(), &descriptions)
        .expect("session two should start");
    assert_eq!(b.len(), 1);
    assert!(!b[0].is_new, "the same description must reuse the cursor");
    assert_eq!(a[0].cursor_id, b[0].cursor_id);
    assert_eq!(subs.cursor_count(), 1, "exactly one cursor for one description");
}

#[test]
fn registry_stop_releases_and_destroys_on_last_detach() {
    let mut subs = Subscriptions::new();
    let descriptions = vec![description_value()];
    let a = subs.start(1, "subA".to_owned(), &descriptions).expect("start");
    let _b = subs.start(2, "subB".to_owned(), &descriptions).expect("start");
    let stopped = subs.stop(1, "subA").expect("subscription should be known");
    assert_eq!(stopped.0, "subA");
    assert_eq!(
        stopped.1,
        vec![a[0].cursor_id],
        "session one fully left the cursor and must withdraw its documents"
    );
    assert!(stopped.2.is_empty(), "session two still holds the cursor");
    assert_eq!(subs.cursor_count(), 1);
    let stopped = subs.stop(2, "subB").expect("subscription should be known");
    assert_eq!(stopped.1, vec![a[0].cursor_id]);
    assert_eq!(stopped.2, vec![a[0].cursor_id], "the last detach stops the cursor");
    assert_eq!(subs.cursor_count(), 0);
    assert!(subs.stop(1, "missing").is_none());
}

#[test]
fn registry_rejects_bad_description() {
    let mut subs = Subscriptions::new();
    let descriptions = vec![t("nope")];
    assert!(subs.start(1, "subA".to_owned(), &descriptions).is_err());
}

#[test]
fn registry_not_found_sentinel() {
    let error = objv(vec![(
        "reason",
        t("Method '__subscription__tasks' not found"),
    )]);
    assert!(Subscriptions::is_not_found_error(&error, "tasks"));
    assert!(!Subscriptions::is_not_found_error(&error, "other"));
    let other = objv(vec![("reason", t("boom"))]);
    assert!(!Subscriptions::is_not_found_error(&other, "tasks"));
    assert!(!Subscriptions::is_not_found_error(&t("boom"), "tasks"));
}

#[test]
fn session_sub_is_rewritten_to_method_call() {
    let mut subs = Subscriptions::new();
    let mut inflights = Inflights::new();
    let actions = process_message_client(
        &mut subs,
        &mut inflights,
        1,
        DDPMessage::Sub { id: "7".to_owned(), name: "tasks".to_owned(), params: None },
    );
    assert_eq!(actions.len(), 1);
    match &actions[0] {
        SessionAction::SendServer(DDPMessage::Method { id, method, random_seed, .. }) => {
            assert_eq!(id, "7");
            assert_eq!(method, "__subscription__tasks");
            assert!(random_seed.is_none());
        }
        _ => panic!("expected a rewritten method call"),
    }
    assert_eq!(inflights.entries.len(), 1);
}

#[test]
fn session_sub_for_server_only_name_passes_through() {
    let mut subs = Subscriptions::new();
    subs.record_server_subscription("tasks".to_owned());
    let mut inflights = Inflights::new();
    let actions = process_message_client(
        &mut subs,
        &mut inflights,
        1,
        DDPMessage::Sub { id: "7".to_owned(), name: "tasks".to_owned(), params: None },
    );
    assert_eq!(actions.len(), 1);
    assert!(matches!(
        &actions[0],
        SessionAction::SendServer(DDPMessage::Sub { .. })
    ));
    assert_eq!(inflights.entries.len(), 0);
}

#[test]
fn session_unsub_of_local_subscription_is_answered() {
    let mut subs = Subscriptions::new();
    let mut inflights = Inflights::new();
    subs.start(1, "s1".to_owned(), &vec![description_value()]).expect("start");
    let actions = process_message_client(
        &mut subs,
        &mut inflights,
        1,
        DDPMessage::Unsub { id: "s1".to_owned() },
    );
    assert_eq!(actions.len(), 2);
    match &actions[0] {
        SessionAction::SendClient(DDPMessage::Nosub { id, error }) => {
            assert_eq!(id, "s1");
            assert!(error.is_none());
        }
        _ => panic!("expected a synthesized Nosub"),
    }
    match &actions[1] {
        SessionAction::DetachCursors { detached, stopped } => {
            assert_eq!(detached.len(), 1, "the session fully left its only cursor");
            assert_eq!(
                stopped, detached,
                "no other session holds the cursor, so its task stops too"
            );
        }
        _ => panic!("expected the detached cursors"),
    }
    assert_eq!(subs.cursor_count(), 0);
    let actions = process_message_client(
        &mut subs,
        &mut inflights,
        1,
        DDPMessage::Unsub { id: "other".to_owned() },
    );
    assert!(matches!(
        &actions[0],
        SessionAction::SendServer(DDPMessage::Unsub { .. })
    ));
}

#[test]
fn session_result_for_inflight_begins_subscription() {
    let mut inflights = Inflights::new();
    let mut mergebox = Mergebox::new();
    inflights.register("7".to_owned(), Inflight::new("tasks".to_owned(), None));
    let actions = process_message_server(
        &mut inflights,
        &mut mergebox,
        DDPMessage::Result { id: "7".to_owned(), error: None, result: Some(t("[]")) },
    )
    .expect("result should process");
    assert_eq!(actions.len(), 1);
    match &actions[0] {
        SessionAction::BeginSubscription { id, name, .. } => {
            assert_eq!(id, "7");
            assert_eq!(name, "tasks");
        }
        _ => panic!("expected the subscription handoff"),
    }
    let actions = process_message_server(
        &mut inflights,
        &mut mergebox,
        DDPMessage::Result { id: "9".to_owned(), error: None, result: None },
    )
    .expect("unknown result should pass through");
    assert!(matches!(
        &actions[0],
        SessionAction::SendClient(DDPMessage::Result { .. })
    ));
}

#[test]
fn session_updated_swallows_claimed_methods() {
    let mut inflights = Inflights::new();
    let mut mergebox = Mergebox::new();
    inflights.register("7".to_owned(), Inflight::new("tasks".to_owned(), None));
    let actions = process_message_server(
        &mut inflights,
        &mut mergebox,
        DDPMessage::Updated { methods: vec!["7".to_owned()] },
    )
    .expect("updated should process");
    assert!(actions.is_empty(), "a claimed update is swallowed");
    let actions = process_message_server(
        &mut inflights,
        &mut mergebox,
        DDPMessage::Updated { methods: vec!["9".to_owned()] },
    )
    .expect("updated should process");
    assert_eq!(actions.len(), 1);
    match &actions[0] {
        SessionAction::SendClient(DDPMessage::Updated { methods }) => {
            assert_eq!(methods, &vec!["9".to_owned()]);
        }
        _ => panic!("expected the update to pass through"),
    }
}

#[test]
fn session_data_messages_feed_the_mergebox() {
    let mut inflights = Inflights::new();
    let mut mergebox = Mergebox::new();
    let actions = process_message_server(
        &mut inflights,
        &mut mergebox,
        DDPMessage::Added { collection: "x".to_owned(), id: n(1), fields: Some(obj(vec![("a", n(1))])) },
    )
    .expect("added should process");
    assert_eq!(actions.len(), 1);
    assert!(matches!(
        &actions[0],
        SessionAction::SendClient(DDPMessage::Added { .. })
    ));
    let actions = process_message_server(
        &mut inflights,
        &mut mergebox,
        DDPMessage::Removed { collection: "x".to_owned(), id: n(1) },
    )
    .expect("removed should process");
    assert!(matches!(
        &actions[0],
        SessionAction::SendClient(DDPMessage::Removed { .. })
    ));
}

#[test]
fn inflights_result_and_update_in_either_order() {
    let mut inflights = Inflights::new();
    inflights.register("7".to_owned(), Inflight::new("tasks".to_owned(), None));
    let got = inflights.process_result("7").expect("entry expected");
    assert_eq!(got.name, "tasks");
    assert_eq!(inflights.entries.len(), 1, "a tombstone remains");
    assert!(inflights.process_update("7"));
    assert_eq!(inflights.entries.len(), 0, "the tombstone is cleared");

    inflights.register("8".to_owned(), Inflight::new("tasks".to_owned(), None));
    assert!(inflights.process_update("8"));
    assert_eq!(inflights.entries.len(), 1);
    let got = inflights.process_result("8").expect("entry expected");
    assert!(got.update_received);
    assert_eq!(inflights.entries.len(), 0);
    assert!(inflights.process_result("8").is_none());
    assert!(!inflights.process_update("8"));
}

#[test]
fn watcher_shares_publishers_per_collection() {
    let mut watcher = Watcher::new();
    assert!(watcher.watch("x".to_owned()), "the first watch starts a publisher");
    assert!(!watcher.watch("x".to_owned()), "a second watch shares it");
    assert!(watcher.watch("y".to_owned()));
}
