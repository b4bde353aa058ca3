use ddp_router::cursor::{
    CursorDescription, CursorFetcher, CursorViewer, DescError, Event, MergeOp, ViewerError,
};
use ddp_router::ddp::DDPMessage;
use ddp_router::mergebox::Mergebox;
use ddp_router::value::{Number, Value};

fn n(x: i64) -> Value {
    Value::Number(Number::Int(x))
}

fn t(s: &str) -> Value {
    Value::Text(s.to_owned())
}

fn obj(fields: Vec<(&str, Value)>) -> Vec<(String, Value)> {
    fields.into_iter().map(|(k, v)| (k.to_owned(), v)).collect()
}

fn objv(fields: Vec<(&str, Value)>) -> Value {
    Value::Object(obj(fields))
}

fn description(fields: Vec<(&str, Value)>) -> CursorDescription {
    CursorDescription::parse(&objv(fields)).expect("description should parse")
}

/// Runs events through a cursor and feeds the resulting operations into
/// one mergebox, returning the emitted messages.
fn simulate(desc: CursorDescription, events: Vec<Event>) -> (CursorFetcher, Vec<DDPMessage>) {
    let mut fetcher = CursorFetcher::new(desc);
    assert!(fetcher.is_streaming());
    let mut mergebox = Mergebox::new();
    let mut messages = Vec::new();
    for event in events {
        let (ops, refetch) = fetcher.process(event).expect("event should process");
        assert!(!refetch);
        for op in ops {
            match op {
                MergeOp::Insert { id, document } => {
                    messages.extend(mergebox.insert("x".to_owned(), id, document));
                }
                MergeOp::Remove { id, document } => {
                    messages.extend(
                        mergebox
                            .remove("x".to_owned(), id, &document)
                            .expect("remove should succeed"),
                    );
                }
            }
        }
    }
    (fetcher, messages)
}

#[test]
fn cursor_empty_description_no_events_no_messages() {
    let desc = description(vec![
        ("collectionName", t("x")),
        ("selector", objv(vec![])),
        ("options", objv(vec![])),
    ]);
    let (fetcher, messages) = simulate(desc, vec![]);
    assert!(messages.is_empty());
    assert_eq!(fetcher.documents.len(), 0);
}

#[test]
fn cursor_insert_insert_clear_emits_adds_then_removes() {
    let desc = description(vec![
        ("collectionName", t("x")),
        ("selector", objv(vec![])),
        ("options", objv(vec![])),
    ]);
    let events = vec![
        Event::Insert(obj(vec![("_id", n(1))])),
        Event::Insert(obj(vec![("_id", n(2)), ("a", n(3))])),
        Event::Clear,
    ];
    let (fetcher, messages) = simulate(desc, events);
    assert!(fetcher.documents.is_empty());
    assert_eq!(messages.len(), 4);
    match &messages[0] {
        DDPMessage::Added { collection, id, fields } => {
            assert_eq!(collection, "x");
            assert!(ddp_router::value::value_eq(id, &n(1)));
            assert!(fields.is_none());
        }
        other => panic!("expected Added, got {:?}", message_kind(other)),
    }
    match &messages[1] {
        DDPMessage::Added { id, fields, .. } => {
            assert!(ddp_router::value::value_eq(id, &n(2)));
            let fields = fields.as_ref().expect("fields should be present");
            assert!(ddp_router::cursor::doc_eq(fields, &obj(vec![("a", n(3))])));
        }
        other => panic!("expected Added, got {:?}", message_kind(other)),
    }
    match &messages[2] {
        DDPMessage::Removed { id, .. } => assert!(ddp_router::value::value_eq(id, &n(1))),
        other => panic!("expected Removed, got {:?}", message_kind(other)),
    }
    match &messages[3] {
        DDPMessage::Removed { id, .. } => assert!(ddp_router::value::value_eq(id, &n(2))),
        other => panic!("expected Removed, got {:?}", message_kind(other)),
    }
}

fn message_kind(message: &DDPMessage) -> &'static str {
    match message {
        DDPMessage::Added { .. } => "added",
        DDPMessage::Changed { .. } => "changed",
        DDPMessage::Removed { .. } => "removed",
        _ => "other",
    }
}

#[test]
fn cursor_selector_filters_inserts() {
    let desc = description(vec![
        ("collectionName", t("x")),
        (
            "selector",
            objv(vec![("a", objv(vec![("$in", Value::Array(vec![n(1), Value::Null]))]))]),
        ),
        ("options", objv(vec![])),
    ]);
    let events = vec![
        Event::Insert(obj(vec![("_id", n(1)), ("a", n(1))])),
        Event::Insert(obj(vec![("_id", n(2)), ("a", n(2))])),
    ];
    let (_, messages) = simulate(desc, events);
    assert_eq!(messages.len(), 1);
    match &messages[0] {
        DDPMessage::Added { id, fields, .. } => {
            assert!(ddp_router::value::value_eq(id, &n(1)));
            let fields = fields.as_ref().expect("fields should be present");
            assert!(ddp_router::cursor::doc_eq(fields, &obj(vec![("a", n(1))])));
        }
        other => panic!("expected Added, got {:?}", message_kind(other)),
    }
}

#[test]
fn cursor_projection_trims_added_fields() {
    let desc = description(vec![
        ("collectionName", t("x")),
        ("selector", objv(vec![])),
        ("options", objv(vec![("projection", objv(vec![("a", n(1)), ("_id", n(0))]))])),
    ]);
    let events = vec![Event::Insert(obj(vec![("_id", n(7)), ("a", t("x")), ("b", t("y"))]))];
    let (_, messages) = simulate(desc, events);
    assert_eq!(messages.len(), 1);
    match &messages[0] {
        DDPMessage::Added { id, fields, .. } => {
            assert!(ddp_router::value::value_eq(id, &n(7)));
            let fields = fields.as_ref().expect("fields should be present");
            assert!(ddp_router::cursor::doc_eq(fields, &obj(vec![("a", t("x"))])));
        }
        other => panic!("expected Added, got {:?}", message_kind(other)),
    }
}

#[test]
fn cursor_limit_shrink_asks_for_refetch() {
    let desc = description(vec![
        ("collectionName", t("x")),
        ("selector", objv(vec![])),
        ("options", objv(vec![("limit", n(2)), ("sort", objv(vec![("a", n(1))]))])),
    ]);
    let mut fetcher = CursorFetcher::new(desc);
    assert!(fetcher.is_streaming());

    let initial = vec![
        obj(vec![("_id", n(1)), ("a", n(1))]),
        obj(vec![("_id", n(2)), ("a", n(2))]),
    ];
    let ops = fetcher.fetch(initial).expect("fetch should succeed");
    let added: Vec<_> = ops
        .iter()
        .filter(|op| matches!(op, MergeOp::Insert { .. }))
        .collect();
    assert_eq!(added.len(), 2);
    assert_eq!(fetcher.documents.len(), 2);

    let (ops, refetch) = fetcher
        .process(Event::Delete(obj(vec![("_id", n(1))])))
        .expect("delete should process");
    assert!(refetch, "a full window must refetch on delete");
    assert!(ops.is_empty());
    assert_eq!(fetcher.documents.len(), 2);

    let refreshed = vec![
        obj(vec![("_id", n(2)), ("a", n(2))]),
        obj(vec![("_id", n(3)), ("a", n(3))]),
    ];
    let ops = fetcher.fetch(refreshed).expect("refetch should succeed");
    assert_eq!(ops.len(), 4);
    assert!(matches!(&ops[0], MergeOp::Insert { id, .. } if ddp_router::value::value_eq(id, &n(2))));
    assert!(matches!(&ops[1], MergeOp::Insert { id, .. } if ddp_router::value::value_eq(id, &n(3))));
    assert!(matches!(&ops[2], MergeOp::Remove { id, .. } if ddp_router::value::value_eq(id, &n(1))));
    assert!(matches!(&ops[3], MergeOp::Remove { id, .. } if ddp_router::value::value_eq(id, &n(2))));
}

#[test]
fn cursor_limit_bounds_documents_on_insert() {
    let desc = description(vec![
        ("collectionName", t("x")),
        ("selector", objv(vec![])),
        ("options", objv(vec![("limit", n(2)), ("sort", objv(vec![("a", n(1))]))])),
    ]);
    let mut fetcher = CursorFetcher::new(desc);
    for i in 0..4 {
        let (_, refetch) = fetcher
            .process(Event::Insert(obj(vec![("_id", n(i)), ("a", n(i))])))
            .expect("insert should process");
        assert!(!refetch);
        assert!(fetcher.documents.len() <= 2, "window must stay within the limit");
    }
}

#[test]
fn cursor_polling_fallbacks() {
    let with_skip = description(vec![
        ("collectionName", t("x")),
        ("selector", objv(vec![])),
        ("options", objv(vec![("skip", n(1))])),
    ]);
    assert!(!CursorFetcher::new(with_skip).is_streaming());
    let disabled = description(vec![
        ("collectionName", t("x")),
        ("selector", objv(vec![])),
        ("options", objv(vec![("disableOplog", Value::Bool(true))])),
    ]);
    assert!(!CursorFetcher::new(disabled).is_streaming());
    let limit_without_sort = description(vec![
        ("collectionName", t("x")),
        ("selector", objv(vec![])),
        ("options", objv(vec![("limit", n(2))])),
    ]);
    assert!(!CursorFetcher::new(limit_without_sort).is_streaming());
    let bad_selector = description(vec![
        ("collectionName", t("x")),
        ("selector", objv(vec![("a", objv(vec![("$nope", n(1))]))])),
        ("options", objv(vec![])),
    ]);
    assert!(!CursorFetcher::new(bad_selector).is_streaming());
}

#[test]
fn cursor_description_parse_rejections() {
    let missing = objv(vec![("collectionName", t("x")), ("options", objv(vec![]))]);
    assert!(CursorDescription::parse(&missing).is_err());
    let unknown = objv(vec![
        ("collectionName", t("x")),
        ("selector", objv(vec![])),
        ("options", objv(vec![("nope", n(1))])),
    ]);
    assert_eq!(CursorDescription::parse(&unknown).unwrap_err(), DescError::UnknownKey);
    let bad_field = objv(vec![
        ("collectionName", t("x")),
        ("selector", objv(vec![])),
        ("options", objv(vec![("limit", t("two"))])),
    ]);
    assert_eq!(CursorDescription::parse(&bad_field).unwrap_err(), DescError::BadField);
    let not_object = t("nope");
    assert_eq!(CursorDescription::parse(&not_object).unwrap_err(), DescError::BadShape);
    let transform = objv(vec![
        ("collectionName", t("x")),
        ("selector", objv(vec![])),
        ("options", objv(vec![("transform", objv(vec![]))])),
    ]);
    assert_eq!(CursorDescription::parse(&transform).unwrap_err(), DescError::BadField);
    let with_null_transform = objv(vec![
        ("collectionName", t("x")),
        ("selector", objv(vec![])),
        ("options", objv(vec![("transform", Value::Null)])),
    ]);
    assert!(CursorDescription::parse(&with_null_transform).is_ok());
}

#[test]
fn cursor_delete_below_limit_keeps_sorter_order() {
    let desc = description(vec![
        ("collectionName", t("x")),
        ("selector", objv(vec![])),
        ("options", objv(vec![("limit", n(5)), ("sort", objv(vec![("a", n(1))]))])),
    ]);
    let mut fetcher = CursorFetcher::new(desc);
    assert!(fetcher.is_streaming());
    for i in [1i64, 2, 3] {
        fetcher
            .process(Event::Insert(obj(vec![("_id", n(i)), ("a", n(i))])))
            .expect("insert should process");
    }
    let (ops, refetch) = fetcher
        .process(Event::Delete(obj(vec![("_id", n(1))])))
        .expect("delete should process");
    assert!(!refetch, "the window was not full");
    assert_eq!(ops.len(), 1);
    let order: Vec<i64> = fetcher
        .documents
        .iter()
        .map(|d| match d.iter().find(|(k, _)| k == "a") {
            Some((_, Value::Number(Number::Int(x)))) => *x,
            _ => panic!("sort key missing"),
        })
        .collect();
    assert_eq!(order, vec![2, 3], "the bounded window must stay in sorter order");
}

#[test]
fn cursor_update_replaces_old_version_in_order() {
    let desc = description(vec![
        ("collectionName", t("x")),
        ("selector", objv(vec![])),
        ("options", objv(vec![("limit", n(5)), ("sort", objv(vec![("a", n(1))]))])),
    ]);
    let mut fetcher = CursorFetcher::new(desc);
    for i in [1i64, 2, 3] {
        fetcher
            .process(Event::Insert(obj(vec![("_id", n(i)), ("a", n(i))])))
            .expect("insert should process");
    }
    let (ops, refetch) = fetcher
        .process(Event::Update(obj(vec![("_id", n(1)), ("a", n(9))])))
        .expect("update should process");
    assert!(!refetch);
    assert_eq!(ops.len(), 2, "an update inserts the new version and removes the old");
    assert!(matches!(&ops[0], MergeOp::Insert { id, .. } if ddp_router::value::value_eq(id, &n(1))));
    assert!(matches!(&ops[1], MergeOp::Remove { id, .. } if ddp_router::value::value_eq(id, &n(1))));
    let order: Vec<i64> = fetcher
        .documents
        .iter()
        .map(|d| match d.iter().find(|(k, _)| k == "a") {
            Some((_, Value::Number(Number::Int(x)))) => *x,
            _ => panic!("sort key missing"),
        })
        .collect();
    assert_eq!(order, vec![2, 3, 9]);
}

#[test]
fn cursor_viewer_errors_name_the_failing_part() {
    let bad_selector = description(vec![
        ("collectionName", t("x")),
        ("selector", objv(vec![("a", objv(vec![("$nope", n(1))]))])),
        ("options", objv(vec![])),
    ]);
    assert!(matches!(
        CursorViewer::try_from(&bad_selector),
        Err(ViewerError::Matcher(_))
    ));
    let limit_without_sort = description(vec![
        ("collectionName", t("x")),
        ("selector", objv(vec![])),
        ("options", objv(vec![("limit", n(2))])),
    ]);
    assert!(matches!(
        CursorViewer::try_from(&limit_without_sort),
        Err(ViewerError::LimitWithoutSort)
    ));
    let with_skip = description(vec![
        ("collectionName", t("x")),
        ("selector", objv(vec![])),
        ("options", objv(vec![("skip", n(1))])),
    ]);
    assert!(matches!(
        CursorViewer::try_from(&with_skip),
        Err(ViewerError::SkipUnsupported)
    ));
    let disabled = description(vec![
        ("collectionName", t("x")),
        ("selector", objv(vec![])),
        ("options", objv(vec![("disableOplog", Value::Bool(true))])),
    ]);
    assert!(matches!(
        CursorViewer::try_from(&disabled),
        Err(ViewerError::OplogDisabled)
    ));
    let plain = description(vec![
        ("collectionName", t("x")),
        ("selector", objv(vec![])),
        ("options", objv(vec![])),
    ]);
    assert!(CursorViewer::try_from(&plain).is_ok());
}
