//! The sync-protocol message set. Messages are plain data; the wire codec
//! lives outside the library.

use vstd::prelude::*;
use crate::value::Value;

verus! {

/// One sync-protocol message.
#[derive(Debug)]
pub enum DDPMessage {
    Connect { session: Option<String>, version: String, support: Vec<String> },
    Connected { session: String },
    Failed { version: String },
    Ping { id: Option<String> },
    Pong { id: Option<String> },
    Added { collection: String, id: Value, fields: Option<Vec<(String, Value)>> },
    AddedBefore {
        collection: String,
        id: Value,
        fields: Option<Vec<(String, Value)>>,
        before: Option<String>,
    },
    Changed {
        collection: String,
        id: Value,
        fields: Option<Vec<(String, Value)>>,
        cleared: Option<Vec<String>>,
    },
    MovedBefore { collection: String, id: Value, before: Option<String> },
    Removed { collection: String, id: Value },
    Nosub { id: String, error: Option<Value> },
    Ready { subs: Vec<String> },
    Sub { id: String, name: String, params: Option<Vec<Value>> },
    Unsub { id: String },
    Method { id: String, method: String, params: Option<Vec<Value>>, random_seed: Option<String> },
    Result { id: String, error: Option<Value>, result: Option<Value> },
    Updated { methods: Vec<String> },
}

} // verus!
