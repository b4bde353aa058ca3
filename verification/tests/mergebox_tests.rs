use ddp_router::ddp::DDPMessage;
use ddp_router::mergebox::{Mergebox, MergeError, Mergeboxes};
use ddp_router::value::{Number, Value};

fn n(x: i64) -> Value {
    Value::Number(Number::Int(x))
}

fn t(s: &str) -> Value {
    Value::Text(s.to_owned())
}

fn obj(fields: Vec<(&str, Value)>) -> Vec<(String, Value)> {
    fields.into_iter().map(|(k, v)| (k.to_owned(), v)).collect()
}

#[test]
fn mergebox_two_contributors_one_added_one_removed() {
    let mut mb = Mergebox::new();
    let doc = obj(vec![("a", n(1))]);
    let first = mb.insert("x".to_owned(), n(1), doc.clone());
    assert_eq!(first.len(), 1);
    assert!(matches!(first[0], DDPMessage::Added { .. }));

    let second = mb.insert("x".to_owned(), n(1), doc.clone());
    assert!(second.is_empty(), "an identical assertion changes nothing");

    let third = mb.remove("x".to_owned(), n(1), &doc).expect("remove should succeed");
    assert!(third.is_empty(), "one contributor remains");

    let fourth = mb.remove("x".to_owned(), n(1), &doc).expect("remove should succeed");
    assert_eq!(fourth.len(), 1);
    assert!(matches!(fourth[0], DDPMessage::Removed { .. }));
}

#[test]
fn mergebox_changed_fields_are_minimal() {
    let mut mb = Mergebox::new();
    let v1 = obj(vec![("a", n(1)), ("b", n(2))]);
    let v2 = obj(vec![("a", n(1)), ("b", n(3)), ("c", n(4))]);
    mb.insert("x".to_owned(), n(1), v1);
    let msgs = mb.insert("x".to_owned(), n(1), v2);
    assert_eq!(msgs.len(), 1);
    match &msgs[0] {
        DDPMessage::Changed { fields, cleared, .. } => {
            let fields = fields.as_ref().expect("changed fields expected");
            assert!(ddp_router::cursor::doc_eq(
                fields,
                &obj(vec![("b", n(3)), ("c", n(4))])
            ));
            assert!(cleared.is_none());
        }
        _ => panic!("expected a Changed message"),
    }
}

#[test]
fn mergebox_cleared_fields_on_partial_withdrawal() {
    let mut mb = Mergebox::new();
    let full = obj(vec![("a", n(1)), ("b", n(2))]);
    let partial = obj(vec![("a", n(1))]);
    mb.insert("x".to_owned(), n(1), full.clone());
    mb.insert("x".to_owned(), n(1), partial);
    let msgs = mb.remove("x".to_owned(), n(1), &full).expect("remove should succeed");
    assert_eq!(msgs.len(), 1);
    match &msgs[0] {
        DDPMessage::Changed { fields, cleared, .. } => {
            assert!(fields.is_none());
            let cleared = cleared.as_ref().expect("cleared names expected");
            assert_eq!(cleared.len(), 1);
            assert_eq!(cleared[0], "b");
        }
        _ => panic!("expected a clearing Changed message"),
    }
}

#[test]
fn mergebox_single_contributor_stream_reconstructs_document() {
    let mut mb = Mergebox::new();
    let doc = obj(vec![("a", n(1)), ("b", t("x"))]);
    let msgs = mb.insert("x".to_owned(), n(9), doc.clone());
    assert_eq!(msgs.len(), 1);
    match &msgs[0] {
        DDPMessage::Added { collection, id, fields } => {
            assert_eq!(collection, "x");
            assert!(ddp_router::value::value_eq(id, &n(9)));
            let fields = fields.as_ref().expect("fields expected");
            assert!(ddp_router::cursor::doc_eq(fields, &doc));
        }
        _ => panic!("expected an Added message"),
    }
}

#[test]
fn mergebox_remove_errors() {
    let mut mb = Mergebox::new();
    let doc = obj(vec![("a", n(1))]);
    assert_eq!(
        mb.remove("x".to_owned(), n(1), &doc).unwrap_err(),
        MergeError::CollectionNotFound
    );
    mb.insert("x".to_owned(), n(1), doc.clone());
    assert_eq!(
        mb.remove("x".to_owned(), n(2), &doc).unwrap_err(),
        MergeError::DocumentNotFound
    );
    let unknown_field = obj(vec![("zz", n(1))]);
    assert_eq!(
        mb.remove("x".to_owned(), n(1), &unknown_field).unwrap_err(),
        MergeError::FieldNotFound
    );
}

#[test]
fn mergebox_server_changed_patches_last_version() {
    let mut mb = Mergebox::new();
    let msgs = mb.server_added("x".to_owned(), n(1), Some(obj(vec![("a", n(1)), ("b", n(2))])));
    assert_eq!(msgs.len(), 1);
    let msgs = mb
        .server_changed(
            "x".to_owned(),
            n(1),
            Some(obj(vec![("a", n(5))])),
            Some(vec!["b".to_owned()]),
        )
        .expect("server change should succeed");
    let mut saw_changed_a = false;
    let mut saw_cleared_b = false;
    for m in &msgs {
        match m {
            DDPMessage::Changed { fields, cleared, .. } => {
                if let Some(fields) = fields {
                    if ddp_router::cursor::doc_eq(fields, &obj(vec![("a", n(5))])) {
                        saw_changed_a = true;
                    }
                }
                if let Some(cleared) = cleared {
                    if cleared.len() == 1 && cleared[0] == "b" {
                        saw_cleared_b = true;
                    }
                }
            }
            _ => panic!("only Changed messages expected"),
        }
    }
    assert!(saw_changed_a, "the patched field must be reported");
    assert!(saw_cleared_b, "the cleared field must be reported");
}

#[test]
fn mergebox_server_removed_withdraws_contribution() {
    let mut mb = Mergebox::new();
    mb.server_added("x".to_owned(), n(1), Some(obj(vec![("a", n(1))])));
    let msgs = mb.server_removed("x".to_owned(), n(1)).expect("server remove should succeed");
    assert_eq!(msgs.len(), 1);
    assert!(matches!(msgs[0], DDPMessage::Removed { .. }));
    assert_eq!(
        mb.server_removed("x".to_owned(), n(1)).unwrap_err(),
        MergeError::DocumentNotFound
    );
}

#[test]
fn mergeboxes_attach_counts_are_per_session() {
    let mut table = Mergeboxes::new();
    assert!(table.insert_mergebox(7), "the first attach starts the task");
    assert!(!table.insert_mergebox(7), "a repeated attach is counted, not started");
    assert!(!table.insert_mergebox(8));
    assert_eq!(table.remove_mergebox(7), (false, false), "one reference remains");
    assert_eq!(
        table.remove_mergebox(7),
        (true, false),
        "session seven leaves; session eight still holds the cursor"
    );
    assert_eq!(table.remove_mergebox(8), (true, true), "the last detach stops the task");
}
