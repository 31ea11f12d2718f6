//! The few calls into outside crates that the broker leans on: duplicating
//! an opaque JSON payload, and the one-shot wake primitive handed to
//! blocked GET requests.
use vstd::prelude::*;
use std::sync::Arc;
use serde_json::Value;
use tokio::sync::Notify;

verus! {

/// Relies on serde_json::Value being an ordinary data type; the broker
/// carries payloads of this type through without reading them.
#[verifier::external_type_specification]
#[verifier::external_body]
pub struct ExValue(Value);

/// Relies on tokio::sync::Notify being an ordinary data type; a handle to
/// one is held by each session blocked in a GET.
#[verifier::external_type_specification]
#[verifier::external_body]
pub struct ExNotify(Notify);

/// Relies on serde_json::Value's derived Clone: the copy is structurally
/// equal to the original payload.
#[verifier::external_body]
pub fn dup_data(v: &Box<Value>) -> (r: Box<Value>)
    ensures
        r == v,
{
    v.clone()
}

/// Relies on tokio::sync::Notify::new: a fresh notifier, wrapped in an Arc
/// so that the waiter registry and the suspended session share it.
#[verifier::external_body]
pub fn new_notifier() -> (r: Arc<Notify>)
{
    Arc::new(Notify::new())
}

/// Relies on std::sync::Arc::clone: the clone is a handle to the same
/// notifier as the original.
#[verifier::external_body]
pub fn dup_notifier(n: &Arc<Notify>) -> (r: Arc<Notify>)
    ensures
        r == n,
{
    n.clone()
}

/// Relies on tokio::sync::Notify::notify_one: stores a wakeup permit that
/// the next (or current) waiter on this notifier will consume.
#[verifier::external_body]
pub fn notify_waiter(n: &Arc<Notify>)
{
    n.notify_one();
}

} // verus!
