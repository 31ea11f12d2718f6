use job_broker::logic::State;
use job_broker::parser::Job;

fn empty_obj() -> serde_json::Value {
    serde_json::Value::Object(serde_json::Map::new())
}

fn boxed(v: serde_json::Value) -> Box<serde_json::Value> {
    Box::new(v)
}

#[test]
fn testit() {
    let mut state = State::new();
    state.add_job(
        "foo".to_owned(),
        Job { priority: 5, id: 42, data: boxed(empty_obj()) },
    );
    state.add_job(
        "foo".to_owned(),
        Job { priority: 1, id: 43, data: boxed(empty_obj()) },
    );
    let job = state.take_job(&"foo".to_owned()).unwrap();
    assert_eq!(job.priority, 5);
    let job = state.take_job(&"foo".to_owned()).unwrap();
    assert_eq!(job.priority, 1);
}

#[test]
fn testit_delete() {
    let mut state = State::new();
    let id1 = state.add_job(
        "foo".to_owned(),
        Job { priority: 5, id: 0, data: boxed(empty_obj()) },
    );
    state.add_job(
        "foo".to_owned(),
        Job { priority: 1, id: 0, data: boxed(empty_obj()) },
    );
    state.delete_job(id1).unwrap();
    let job = state.take_job(&"foo".to_owned()).unwrap();
    assert_eq!(job.priority, 1);
}

#[test]
fn fresh_ids_are_monotone() {
    let mut state = State::new();
    let a = state.add_job("q".to_owned(), Job { priority: 1, id: 0, data: boxed(empty_obj()) });
    let b = state.add_job("q".to_owned(), Job { priority: 2, id: 0, data: boxed(empty_obj()) });
    let c = state.add_job("r".to_owned(), Job { priority: 3, id: 0, data: boxed(empty_obj()) });
    assert_eq!(a, 0);
    assert_eq!(b, 1);
    assert_eq!(c, 2);
}

#[test]
fn equal_priorities_come_out_newest_first() {
    let mut state = State::new();
    let first = state.add_job("q".to_owned(), Job { priority: 7, id: 0, data: boxed(empty_obj()) });
    let second = state.add_job("q".to_owned(), Job { priority: 7, id: 0, data: boxed(empty_obj()) });
    let j1 = state.take_job(&"q".to_owned()).unwrap();
    let j2 = state.take_job(&"q".to_owned()).unwrap();
    assert_eq!(j1.id, second);
    assert_eq!(j2.id, first);
    assert!(state.take_job(&"q".to_owned()).is_none());
}

#[test]
fn find_job_picks_highest_across_queues() {
    let mut state = State::new();
    state.add_job("a".to_owned(), Job { priority: 3, id: 0, data: boxed(empty_obj()) });
    state.add_job("b".to_owned(), Job { priority: 7, id: 0, data: boxed(empty_obj()) });
    let names = vec!["a".to_owned(), "b".to_owned()];
    let (job, queue) = state.find_job(names.as_slice()).unwrap();
    assert_eq!(job.priority, 7);
    assert_eq!(queue, "b".to_owned());
    let (job, queue) = state.find_job(names.as_slice()).unwrap();
    assert_eq!(job.priority, 3);
    assert_eq!(queue, "a".to_owned());
    assert!(state.find_job(names.as_slice()).is_none());
}

#[test]
fn take_from_unknown_queue_is_none() {
    let mut state = State::new();
    assert!(state.take_job(&"nowhere".to_owned()).is_none());
}

#[test]
fn delete_is_terminal() {
    let mut state = State::new();
    let id = state.add_job("q".to_owned(), Job { priority: 4, id: 0, data: boxed(empty_obj()) });
    assert!(state.delete_job(id).is_ok());
    assert!(state.delete_job(id).is_err());
    assert!(state.abort_job(id, "q".to_owned()).is_err());
    assert!(state.take_job(&"q".to_owned()).is_none());
}

#[test]
fn delete_reaches_in_progress_jobs() {
    let mut state = State::new();
    let id = state.add_job("q".to_owned(), Job { priority: 4, id: 0, data: boxed(empty_obj()) });
    let taken = state.take_job(&"q".to_owned()).unwrap();
    assert_eq!(taken.id, id);
    assert!(state.delete_job(id).is_ok());
    assert!(state.abort_job(id, "q".to_owned()).is_err());
}

#[test]
fn delete_of_unknown_id_reports_not_found() {
    let mut state = State::new();
    assert!(state.delete_job(12345).is_err());
}

#[test]
fn abort_returns_job_with_original_id_and_data() {
    let mut state = State::new();
    let mut payload = serde_json::Map::new();
    payload.insert(
        "x".to_owned(),
        serde_json::Value::Number(serde_json::Number::from(1u32)),
    );
    let payload = serde_json::Value::Object(payload);
    let id = state.add_job(
        "q".to_owned(),
        Job { priority: 10, id: 0, data: boxed(payload.clone()) },
    );
    let taken = state.take_job(&"q".to_owned()).unwrap();
    assert_eq!(taken.id, id);
    assert_eq!(*taken.data, payload);
    assert!(state.abort_job(id, "q".to_owned()).is_ok());
    let again = state.take_job(&"q".to_owned()).unwrap();
    assert_eq!(again.id, id);
    assert_eq!(again.priority, 10);
    assert_eq!(*again.data, payload);
}
