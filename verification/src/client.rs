//! The request/response halves of the two typed helpers. A `RequestPlan`
//! says everything a transport must send — method, URL, headers, body — and
//! the completion functions turn the transport's outcome into a typed
//! record or a classified error. The transport itself stays outside the
//! library: it receives a plan and hands back plain bytes, or reports that
//! the host could not be reached.

use crate::records::{
    JsonRecord, Payload, SocialMediaPost, Task, encode_payload, spec_encode_payload,
    spec_parse_post, spec_parse_task,
};
use vstd::prelude::*;

verus! {

/// HTTP method of a request plan.
#[derive(Debug, Clone, Copy, PartialEq, Eq, Structural)]
pub enum HttpMethod {
    Get,
    Post,
}

/// One outbound request, fully determined: what to send and where. The
/// transport must send exactly these headers; in particular the POST
/// content-type header is mandatory, or the remote service misreads the
/// body boundary and answers with a truncated record.
pub struct RequestPlan {
    pub method: HttpMethod,
    pub url: String,
    pub headers: Vec<(String, String)>,
    pub body: Vec<u8>,
}

/// How a helper failed: the host could not be reached, or the response
/// body did not denote the expected record.
#[derive(Debug, Clone, Copy, PartialEq, Eq, Structural)]
pub enum ClientError {
    Network,
    Decode,
}

/// The plan of the typed GET helper: a GET with an `accept` header asking
/// for JSON, and an empty body.
pub fn build_get_plan(url: String) -> (p: RequestPlan)
    ensures
        p.method == HttpMethod::Get,
        p.url@ == url@,
        p.headers@.len() == 1,
        p.headers@[0].0@ == "accept"@,
        p.headers@[0].1@ == "application/json"@,
        p.body@ == Seq::<u8>::empty(),
{
    let mut headers: Vec<(String, String)> = Vec::new();
    headers.push(("accept".to_owned(), "application/json".to_owned()));
    RequestPlan { method: HttpMethod::Get, url, headers, body: Vec::new() }
}

/// The plan of the typed POST helper: a POST carrying the payload's
/// canonical JSON encoding, with both the `accept` and the mandatory
/// `content-type` headers.
pub fn build_post_plan(url: String, payload: &Payload) -> (p: RequestPlan)
    ensures
        p.method == HttpMethod::Post,
        p.url@ == url@,
        p.headers@.len() == 2,
        p.headers@[0].0@ == "accept"@,
        p.headers@[0].1@ == "application/json"@,
        p.headers@[1].0@ == "content-type"@,
        p.headers@[1].1@ == "application/json; charset=UTF-8"@,
        p.body@ == spec_encode_payload(payload@),
{
    let mut headers: Vec<(String, String)> = Vec::new();
    headers.push(("accept".to_owned(), "application/json".to_owned()));
    headers.push(("content-type".to_owned(), "application/json; charset=UTF-8".to_owned()));
    RequestPlan { method: HttpMethod::Post, url, headers, body: encode_payload(payload) }
}

/// Turns a transport outcome into the caller-chosen record type.
/// `outcome` is what the transport produced: the full response body, or
/// `Err` when the host could not be reached. A body that does not denote
/// a record of the target type is a decode failure, never a default value.
pub fn complete<T: JsonRecord>(outcome: Result<Vec<u8>, ()>) -> (r: Result<T, ClientError>)
    ensures
        match outcome {
            Ok(b) => match T::spec_parse(b@) {
                Some(t) => r matches Ok(x) && x@ == t,
                None => r matches Err(e) && e == ClientError::Decode,
            },
            Err(_) => r matches Err(e) && e == ClientError::Network,
        },
{
    match outcome {
        Ok(b) => match T::decode_json(&b) {
            Some(t) => Ok(t),
            None => Err(ClientError::Decode),
        },
        Err(_) => Err(ClientError::Network),
    }
}

/// Completes the GET helper: `complete` at the `Task` schema.
pub fn complete_get(outcome: Result<Vec<u8>, ()>) -> (r: Result<Task, ClientError>)
    ensures
        match outcome {
            Ok(b) => match spec_parse_task(b@) {
                Some(t) => r matches Ok(x) && x@ == t,
                None => r == Err::<Task, ClientError>(ClientError::Decode),
            },
            Err(_) => r == Err::<Task, ClientError>(ClientError::Network),
        },
{
    complete::<Task>(outcome)
}

/// Completes the POST helper: `complete` at the `SocialMediaPost` schema —
/// the payload echoed back with an assigned id.
pub fn complete_post(outcome: Result<Vec<u8>, ()>) -> (r: Result<SocialMediaPost, ClientError>)
    ensures
        match outcome {
            Ok(b) => match spec_parse_post(b@) {
                Some(t) => r matches Ok(x) && x@ == t,
                None => r == Err::<SocialMediaPost, ClientError>(ClientError::Decode),
            },
            Err(_) => r == Err::<SocialMediaPost, ClientError>(ClientError::Network),
        },
{
    complete::<SocialMediaPost>(outcome)
}

} // verus!
