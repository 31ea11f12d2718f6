//! The shapes of requests and responses on the wire, and the total order on
//! jobs. Turning these records into JSON text and back is left to the
//! unverified rim around the library.
use vstd::prelude::*;
use serde_json::Value;

verus! {

/// Broker-assigned job identifier: monotone, unique, never reused.
pub type Id = u32;

/// Scheduling weight; larger is served first.
pub type Priority = u32;

/// A job as it travels through the broker. The payload is carried verbatim.
pub struct Job {
    pub priority: Priority,
    pub id: Id,
    pub data: Box<Value>,
}

/// Strict total order on jobs: by priority, ties broken by id. Two jobs
/// with distinct ids are always strictly ordered.
pub open spec fn job_lt(a: Job, b: Job) -> bool {
    a.priority < b.priority || (a.priority == b.priority && a.id < b.id)
}

/// `a` comes no later than `b` under the (priority, id) order.
pub open spec fn job_le(a: Job, b: Job) -> bool {
    job_lt(a, b) || (a.priority == b.priority && a.id == b.id)
}

/// Runtime comparison matching `job_lt`.
pub fn job_before(a: &Job, b: &Job) -> (r: bool)
    ensures
        r == job_lt(*a, *b),
{
    a.priority < b.priority || (a.priority == b.priority && a.id < b.id)
}

/// Deposit a job on the named queue.
pub struct PutRequest {
    pub queue: String,
    pub job: Value,
    pub pri: u32,
}

/// Take the highest-priority job across the named queues, optionally
/// blocking until one appears.
pub struct GetRequest {
    pub queues: Vec<String>,
    pub wait: bool,
}

/// Delete a job anywhere in the broker by id.
pub struct DeleteRequest {
    pub id: u32,
}

/// Return a job this client holds to its origin queue.
pub struct AbortRequest {
    pub id: u32,
}

/// One parsed request line.
pub enum Request {
    Put(PutRequest),
    Get(GetRequest),
    Delete(DeleteRequest),
    Abort(AbortRequest),
}

/// The `wait` field of a GET defaults to false when absent on the wire.
pub fn default_wait() -> (r: bool)
    ensures
        r == false,
{
    false
}

/// The status word every response carries; `Okay` reaches the wire as
/// `"ok"`, `NoJob` as `"no-job"`, `Error` as `"error"`.
pub enum Status {
    NoJob,
    Okay,
    Error,
}

/// What a response carries besides its status.
pub enum ResponseSpecifics {
    JobResponse { job: Job, queue: String },
    IdResponse { id: Id },
    Empty,
}

/// True exactly when the response carries nothing but its status.
pub fn is_empty(resp: &ResponseSpecifics) -> (r: bool)
    ensures
        r == (resp is Empty),
{
    if let ResponseSpecifics::Empty = resp {
        true
    } else {
        false
    }
}

/// One response line: a status, plus the fields the status calls for.
pub struct Response {
    pub status: Status,
    pub rest: ResponseSpecifics,
}

impl Response {
    /// A response that carries its status and nothing else.
    pub fn error(status: Status) -> (r: Response)
        ensures
            r.status == status,
            r.rest is Empty,
    {
        Response { status, rest: ResponseSpecifics::Empty }
    }
}

} // verus!
