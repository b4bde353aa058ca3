//! A verified core for a reactive data-sync proxy: a document value model,
//! query selector matching, projection, sorting, and per-session
//! reconciliation of live query results.

pub mod cursor;
pub mod ddp;
pub mod ejson;
pub mod inflights;
pub mod watcher;
pub mod mergebox;
pub mod lookup;
pub mod matcher;
pub mod number;
pub mod projector;
pub mod session;
pub mod settings;
pub mod sorter;
pub mod subscriptions;
pub mod value;

use vstd::prelude::*;

verus! {

} // verus!
