use job_broker::logic::State;
use job_broker::parser::{
    default_wait, is_empty, job_before, AbortRequest, DeleteRequest, GetRequest, Job, PutRequest,
    Request, Response, ResponseSpecifics, Status,
};
use job_broker::session::{
    handle_abort_req, handle_delete_req, handle_get_req, handle_put_req, Client, MaybeRetry,
};

fn empty_obj() -> serde_json::Value {
    serde_json::Value::Object(serde_json::Map::new())
}

fn now(r: MaybeRetry<Response>) -> Response {
    match r {
        MaybeRetry::Now(resp) => resp,
        MaybeRetry::Retry(_, _) => panic!("expected an immediate response"),
    }
}

fn put(state: &mut State, queue: &str, pri: u32, job: serde_json::Value) -> u32 {
    let resp = now(handle_put_req(
        state,
        PutRequest { queue: queue.to_owned(), job, pri },
    ));
    assert!(matches!(resp.status, Status::Okay));
    match resp.rest {
        ResponseSpecifics::IdResponse { id } => id,
        _ => panic!("a put answers with the new id"),
    }
}

fn get(state: &mut State, client: &mut Client, queues: &[&str]) -> Response {
    let queues: Vec<String> = queues.iter().map(|q| (*q).to_owned()).collect();
    now(handle_get_req(state, GetRequest { queues, wait: false }, client))
}

#[test]
fn put_then_get_round_trips_the_payload() {
    let mut state = State::new();
    let mut client = Client::new();
    let mut payload = serde_json::Map::new();
    payload.insert(
        "x".to_owned(),
        serde_json::Value::Number(serde_json::Number::from(1u32)),
    );
    let payload = serde_json::Value::Object(payload);
    let id = put(&mut state, "q", 10, payload.clone());
    assert_eq!(id, 0);
    let resp = get(&mut state, &mut client, &["q"]);
    assert!(matches!(resp.status, Status::Okay));
    match resp.rest {
        ResponseSpecifics::JobResponse { job, queue } => {
            assert_eq!(job.id, 0);
            assert_eq!(job.priority, 10);
            assert_eq!(*job.data, payload);
            assert_eq!(queue, "q".to_owned());
        },
        _ => panic!("a successful get carries the job"),
    }
}

#[test]
fn get_serves_higher_priority_first() {
    let mut state = State::new();
    let mut client = Client::new();
    put(&mut state, "q", 5, empty_obj());
    put(&mut state, "q", 1, empty_obj());
    let first = now(handle_get_req(
        &mut state,
        GetRequest { queues: vec!["q".to_owned()], wait: false },
        &mut client,
    ));
    match first.rest {
        ResponseSpecifics::JobResponse { job, .. } => assert_eq!(job.priority, 5),
        _ => panic!("expected a job"),
    }
    let second = get(&mut state, &mut client, &["q"]);
    match second.rest {
        ResponseSpecifics::JobResponse { job, .. } => assert_eq!(job.priority, 1),
        _ => panic!("expected a job"),
    }
}

#[test]
fn get_on_empty_queue_without_wait_is_no_job() {
    let mut state = State::new();
    let mut client = Client::new();
    let resp = get(&mut state, &mut client, &["empty"]);
    assert!(matches!(resp.status, Status::NoJob));
    assert!(is_empty(&resp.rest));
}

#[test]
fn get_with_wait_registers_and_retries_after_put() {
    let mut state = State::new();
    let mut waiter = Client::new();
    let retry = handle_get_req(
        &mut state,
        GetRequest { queues: vec!["q".to_owned()], wait: true },
        &mut waiter,
    );
    let req = match retry {
        MaybeRetry::Retry(_notifier, req) => req,
        MaybeRetry::Now(_) => panic!("an empty queue with wait=true suspends"),
    };
    put(&mut state, "q", 4, empty_obj());
    let req = match req {
        Request::Get(req) => req,
        _ => panic!("the suspended request is the original get"),
    };
    let resp = now(handle_get_req(&mut state, req, &mut waiter));
    assert!(matches!(resp.status, Status::Okay));
    match resp.rest {
        ResponseSpecifics::JobResponse { job, queue } => {
            assert_eq!(job.priority, 4);
            assert_eq!(queue, "q".to_owned());
        },
        _ => panic!("the woken get receives the job"),
    }
}

#[test]
fn abort_without_ownership_is_an_error() {
    let mut state = State::new();
    let mut owner = Client::new();
    let mut intruder = Client::new();
    let id = put(&mut state, "q", 9, empty_obj());
    let resp = get(&mut state, &mut owner, &["q"]);
    assert!(matches!(resp.status, Status::Okay));
    let resp = now(handle_abort_req(&mut state, AbortRequest { id }, &mut intruder));
    assert!(matches!(resp.status, Status::Error));
    // the job is still with its owner: the owner's abort succeeds
    let resp = now(handle_abort_req(&mut state, AbortRequest { id }, &mut owner));
    assert!(matches!(resp.status, Status::Okay));
}

#[test]
fn delete_while_held_leaves_a_dangling_ledger_entry() {
    let mut state = State::new();
    let mut holder = Client::new();
    let id = put(&mut state, "q", 3, empty_obj());
    let resp = get(&mut state, &mut holder, &["q"]);
    assert!(matches!(resp.status, Status::Okay));
    let resp = now(handle_delete_req(&mut state, DeleteRequest { id }));
    assert!(matches!(resp.status, Status::Okay));
    // the holder's later abort finds the job gone
    let resp = now(handle_abort_req(&mut state, AbortRequest { id }, &mut holder));
    assert!(matches!(resp.status, Status::NoJob));
}

#[test]
fn delete_of_unknown_id_is_no_job() {
    let mut state = State::new();
    let resp = now(handle_delete_req(&mut state, DeleteRequest { id: 77 }));
    assert!(matches!(resp.status, Status::NoJob));
    assert!(is_empty(&resp.rest));
}

#[test]
fn disconnect_returns_held_jobs_to_their_queues() {
    let mut state = State::new();
    let mut c1 = Client::new();
    let mut c2 = Client::new();
    let mut payload = serde_json::Map::new();
    payload.insert("k".to_owned(), serde_json::Value::String("v".to_owned()));
    let payload = serde_json::Value::Object(payload);
    let id = put(&mut state, "q", 6, payload.clone());
    let resp = get(&mut state, &mut c1, &["q"]);
    assert!(matches!(resp.status, Status::Okay));
    // the queue is now empty for everyone else
    let resp = get(&mut state, &mut c2, &["q"]);
    assert!(matches!(resp.status, Status::NoJob));
    // c1 goes away without aborting; its job returns to the queue
    c1.drop_cleanup(&mut state);
    let resp = get(&mut state, &mut c2, &["q"]);
    match resp.rest {
        ResponseSpecifics::JobResponse { job, queue } => {
            assert_eq!(job.id, id);
            assert_eq!(*job.data, payload);
            assert_eq!(queue, "q".to_owned());
        },
        _ => panic!("the re-queued job is served again"),
    }
}

#[test]
fn cleanup_after_delete_swallows_the_error() {
    let mut state = State::new();
    let mut holder = Client::new();
    let id = put(&mut state, "q", 2, empty_obj());
    let resp = get(&mut state, &mut holder, &["q"]);
    assert!(matches!(resp.status, Status::Okay));
    let resp = now(handle_delete_req(&mut state, DeleteRequest { id }));
    assert!(matches!(resp.status, Status::Okay));
    holder.drop_cleanup(&mut state);
    let mut other = Client::new();
    let resp = get(&mut state, &mut other, &["q"]);
    assert!(matches!(resp.status, Status::NoJob));
}

#[test]
fn wire_helpers_behave() {
    assert_eq!(default_wait(), false);
    let resp = Response::error(Status::Error);
    assert!(matches!(resp.status, Status::Error));
    assert!(is_empty(&resp.rest));
    assert!(!is_empty(&ResponseSpecifics::IdResponse { id: 1 }));
    let a = Job { priority: 1, id: 5, data: Box::new(empty_obj()) };
    let b = Job { priority: 1, id: 6, data: Box::new(empty_obj()) };
    assert!(job_before(&a, &b));
    assert!(!job_before(&b, &a));
}
