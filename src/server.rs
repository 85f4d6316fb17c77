//! The decisions of the request server and of its client: which response
//! answers the outcome of a request, what a client prints for a response,
//! and when the compactor acts on a signal.
use vstd::prelude::*;

use crate::codec::Request;
use crate::error::KvsError;

verus! {

/// The reply to one request: an error message, or the result.
#[derive(Debug, Clone, PartialEq, Eq)]
pub struct Response {
    pub error: Option<String>,
    pub result: String,
}

/// A signal to the compactor, sent by a write that found compaction due
/// while the active file had generation `log_idx`.
#[derive(Debug, Clone, Copy, PartialEq, Eq)]
pub struct TxMessage {
    pub log_idx: u32,
}

/// `Key not found`
pub open spec fn key_not_found_text() -> Seq<char> {
    seq!['K', 'e', 'y', ' ', 'n', 'o', 't', ' ', 'f', 'o', 'u', 'n', 'd']
}

fn key_not_found() -> (r: String)
    ensures
        r@ == key_not_found_text(),
{
    let r = "Key not found".to_owned();
    proof {
        reveal_strlit("Key not found");
        assert(r@ =~= key_not_found_text());
    }
    r
}

fn empty_string() -> (r: String)
    ensures
        r@ == Seq::<char>::empty(),
{
    String::new()
}

/// A response that carries a result.
pub open spec fn is_result(r: Response, v: Seq<char>) -> bool {
    r.error is None && r.result@ == v
}

/// A response that says that the key was not found.
pub open spec fn is_not_found(r: Response) -> bool {
    r.error matches Some(e) && e@ == key_not_found_text() && r.result@ == Seq::<char>::empty()
}

/// The response to a `get`: its value, or `Key not found`. An error of the
/// engine gets no response.
pub fn response_for_get(outcome: Result<Option<String>, KvsError>) -> (r: Option<Response>)
    ensures
        outcome matches Ok(Some(v)) ==> (r matches Some(resp) && is_result(resp, v@)),
        outcome matches Ok(None) ==> (r matches Some(resp) && is_not_found(resp)),
        outcome is Err ==> r is None,
{
    match outcome {
        Ok(Some(v)) => Some(Response { error: None, result: v }),
        Ok(None) => Some(Response { error: Some(key_not_found()), result: empty_string() }),
        Err(_) => None,
    }
}

/// The response to a `set`: an empty result. An error of the engine gets
/// no response.
pub fn response_for_set(outcome: Result<(), KvsError>) -> (r: Option<Response>)
    ensures
        outcome is Ok ==> (r matches Some(resp) && is_result(resp, Seq::empty())),
        outcome is Err ==> r is None,
{
    match outcome {
        Ok(()) => Some(Response { error: None, result: empty_string() }),
        Err(_) => None,
    }
}

/// The response to an `rm`: an empty result, or `Key not found` when the
/// key was absent. Any other error of the engine gets no response.
pub fn response_for_rm(outcome: Result<(), KvsError>) -> (r: Option<Response>)
    ensures
        outcome is Ok ==> (r matches Some(resp) && is_result(resp, Seq::empty())),
        outcome == Err::<(), KvsError>(KvsError::KeyNotFound) ==> (r matches Some(resp)
            && is_not_found(resp)),
        outcome is Err && outcome != Err::<(), KvsError>(KvsError::KeyNotFound) ==> r is None,
{
    match outcome {
        Ok(()) => Some(Response { error: None, result: empty_string() }),
        Err(KvsError::KeyNotFound) => Some(
            Response { error: Some(key_not_found()), result: empty_string() },
        ),
        Err(_) => None,
    }
}

/// What a client reports for a response: a line for standard output, a
/// line for standard error, and whether it succeeded.
#[derive(Debug, Clone, PartialEq, Eq)]
pub struct ClientReport {
    pub stdout: Option<String>,
    pub stderr: Option<String>,
    pub success: bool,
}

/// What a client reports for the response to its request. A `get` always
/// succeeds: a miss prints `Key not found` to standard output. A `set` or an
/// `rm` that got an error prints it to standard error and fails; otherwise
/// it prints nothing.
pub fn client_report(req: &Request, resp: &Response) -> (r: ClientReport)
    ensures
        req is Get ==> r.success && r.stderr is None && (match resp.error {
            Some(_) => r.stdout matches Some(o) && o@ == key_not_found_text(),
            None => r.stdout matches Some(o) && o@ == resp.result@,
        }),
        !(req is Get) ==> r.stdout is None && (match resp.error {
            Some(e) => !r.success && (r.stderr matches Some(o) && o@ == e@),
            None => r.success && r.stderr is None,
        }),
{
    match req {
        Request::Get { .. } => {
            let line = match &resp.error {
                Some(_) => key_not_found(),
                None => resp.result.clone(),
            };
            ClientReport { stdout: Some(line), stderr: None, success: true }
        },
        _ => match &resp.error {
            Some(e) => ClientReport { stdout: None, stderr: Some(e.clone()), success: false },
            None => ClientReport { stdout: None, stderr: None, success: true },
        },
    }
}

} // verus!
