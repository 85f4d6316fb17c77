use kvs::server::{client_report, response_for_get, response_for_rm, response_for_set};
use kvs::thread_pool::{join_budget, shutdown_outcome};
use kvs::{KvsError, Request, Response};

fn ok(result: &str) -> Response {
    Response { error: None, result: result.to_string() }
}

fn not_found() -> Response {
    Response { error: Some("Key not found".to_string()), result: String::new() }
}

#[test]
fn get_responses() {
    assert_eq!(response_for_get(Ok(Some("value1".to_string()))), Some(ok("value1")));
    assert_eq!(response_for_get(Ok(None)), Some(not_found()));
    assert_eq!(response_for_get(Err(KvsError::IO("disk".to_string()))), None);
}

#[test]
fn set_responses() {
    assert_eq!(response_for_set(Ok(())), Some(ok("")));
    assert_eq!(response_for_set(Err(KvsError::IO("disk".to_string()))), None);
}

#[test]
fn rm_responses() {
    assert_eq!(response_for_rm(Ok(())), Some(ok("")));
    assert_eq!(response_for_rm(Err(KvsError::KeyNotFound)), Some(not_found()));
    assert_eq!(response_for_rm(Err(KvsError::LogInit)), None);
}

#[test]
fn client_reports_a_get() {
    let get = Request::Get { key: "key1".to_string() };
    let r = client_report(&get, &ok("value1"));
    assert_eq!((r.stdout.as_deref(), r.stderr.as_deref(), r.success), (Some("value1"), None, true));
    let r = client_report(&get, &not_found());
    assert_eq!(
        (r.stdout.as_deref(), r.stderr.as_deref(), r.success),
        (Some("Key not found"), None, true)
    );
}

#[test]
fn client_reports_a_set_and_an_rm() {
    let set = Request::Put { key: "k".to_string(), val: "v".to_string() };
    let r = client_report(&set, &ok(""));
    assert_eq!((r.stdout, r.stderr, r.success), (None, None, true));
    let rm = Request::Rm { key: "key2".to_string() };
    let r = client_report(&rm, &not_found());
    assert_eq!(
        (r.stdout.as_deref(), r.stderr.as_deref(), r.success),
        (None, Some("Key not found"), false)
    );
}

#[test]
fn shutdown_budget() {
    assert_eq!(join_budget(2000, 500), Ok(1500));
    assert_eq!(join_budget(2000, 2000), Err(KvsError::Pooling));
    assert_eq!(shutdown_outcome(2000, 2000), Ok(()));
    assert_eq!(shutdown_outcome(2000, 2001), Err(KvsError::Pooling));
}
