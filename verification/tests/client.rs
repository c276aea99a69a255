//! The request plans and the completion step, driven by in-process
//! fixtures standing in for the remote service.

use typed_fetch::client::{
    build_get_plan, build_post_plan, complete_get, complete_post, ClientError, HttpMethod,
};
use typed_fetch::records::{encode_post, Payload, SocialMediaPost};

fn sample_payload() -> Payload {
    Payload {
        user_id: 1,
        title: b"here are my thoughts".to_vec(),
        body: b"some idea here".to_vec(),
    }
}

#[test]
fn get_plan_carries_accept_header_and_empty_body() {
    let plan = build_get_plan("http://example.invalid/todos/10".to_string());
    assert_eq!(plan.method, HttpMethod::Get);
    assert_eq!(plan.url, "http://example.invalid/todos/10");
    assert_eq!(plan.headers.len(), 1);
    assert_eq!(plan.headers[0].0, "accept");
    assert_eq!(plan.headers[0].1, "application/json");
    assert!(plan.body.is_empty());
}

#[test]
fn post_plan_carries_both_headers_and_encoded_payload() {
    let plan = build_post_plan("http://example.invalid/posts".to_string(), &sample_payload());
    assert_eq!(plan.method, HttpMethod::Post);
    assert_eq!(plan.headers.len(), 2);
    assert_eq!(plan.headers[0].0, "accept");
    assert_eq!(plan.headers[0].1, "application/json");
    // the mandatory header, byte for byte: without it the service answers
    // with a truncated record
    assert_eq!(plan.headers[1].0, "content-type");
    assert_eq!(plan.headers[1].1, "application/json; charset=UTF-8");
    assert_eq!(
        plan.body,
        b"{\"userId\":1,\"title\":\"here are my thoughts\",\"body\":\"some idea here\"}".to_vec()
    );
}

#[test]
fn get_against_fixture_returns_matching_record() {
    let body = b"{\"id\":10,\"userId\":1,\"title\":\"x\",\"completed\":true}".to_vec();
    let task = complete_get(Ok(body)).expect("fixture must decode");
    assert_eq!(task.id, 10);
    assert_eq!(task.user_id, 1);
    assert_eq!(task.title, b"x".to_vec());
    assert!(task.completed);
}

#[test]
fn post_echo_fixture_returns_payload_plus_id() {
    let payload = sample_payload();
    let plan = build_post_plan("http://example.invalid/posts".to_string(), &payload);
    // the fixture server echoes the payload it was sent and assigns an id
    let sent = typed_fetch::records::decode_payload(&plan.body).expect("sent body is canonical");
    let echoed = SocialMediaPost {
        user_id: sent.user_id,
        title: sent.title,
        body: sent.body,
        id: 101,
    };
    let response = encode_post(&echoed);
    let got = complete_post(Ok(response)).expect("echoed response must decode");
    assert_eq!(got.user_id, payload.user_id);
    assert_eq!(got.title, payload.title);
    assert_eq!(got.body, payload.body);
    assert_eq!(got.id, 101);
}

#[test]
fn partial_response_is_a_decode_error() {
    let got = complete_post(Ok(b"{\"userId\":1}".to_vec()));
    assert_eq!(got, Err(ClientError::Decode));
}

#[test]
fn malformed_response_is_a_decode_error() {
    assert_eq!(complete_get(Ok(b"<html>".to_vec())), Err(ClientError::Decode));
    assert_eq!(complete_post(Ok(b"".to_vec())), Err(ClientError::Decode));
}

#[test]
fn unreachable_host_is_a_network_error() {
    assert_eq!(complete_get(Err(())), Err(ClientError::Network));
    assert_eq!(complete_post(Err(())), Err(ClientError::Network));
}
