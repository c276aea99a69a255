//! The JSON codec on concrete records and byte strings.

use typed_fetch::records::{
    decode_payload, decode_post, decode_task, encode_payload, encode_post, encode_task, Payload,
    SocialMediaPost, Task,
};

fn sample_task() -> Task {
    Task { id: 10, user_id: 1, title: b"x".to_vec(), completed: true }
}

#[test]
fn get_fixture_decodes_to_matching_record() {
    let body = b"{\"id\":10,\"userId\":1,\"title\":\"x\",\"completed\":true}".to_vec();
    let task = decode_task(&body).expect("fixture must decode");
    assert_eq!(task.id, 10);
    assert_eq!(task.user_id, 1);
    assert_eq!(task.title, b"x".to_vec());
    assert!(task.completed);
}

#[test]
fn task_encoding_is_canonical() {
    let bytes = encode_task(&sample_task());
    assert_eq!(bytes, b"{\"id\":10,\"userId\":1,\"title\":\"x\",\"completed\":true}".to_vec());
}

#[test]
fn whitespace_between_tokens_is_accepted() {
    let body = b"  { \"id\" : 10 ,\t\"userId\" : 1 , \"title\" : \"x\" , \"completed\" : false }\r\n"
        .to_vec();
    let task = decode_task(&body).expect("whitespace-laden fixture must decode");
    assert_eq!(task.id, 10);
    assert!(!task.completed);
}

#[test]
fn round_trip_task() {
    let task = Task {
        id: i32::MIN,
        user_id: i32::MAX,
        title: b"quote \" backslash \\ newline \n tab \t bell \x07 utf8 \xc3\xa9".to_vec(),
        completed: false,
    };
    let decoded = decode_task(&encode_task(&task)).expect("canonical encoding must decode");
    assert_eq!(decoded, task);
}

#[test]
fn round_trip_payload() {
    let payload = Payload {
        user_id: 0,
        title: b"".to_vec(),
        body: b"control \x01\x1f and slash / end".to_vec(),
    };
    let decoded = decode_payload(&encode_payload(&payload)).expect("encoding must decode");
    assert_eq!(decoded, payload);
}

#[test]
fn round_trip_post() {
    let post = SocialMediaPost {
        user_id: -7,
        title: b"here are my thoughts".to_vec(),
        body: b"some idea here".to_vec(),
        id: 101,
    };
    let decoded = decode_post(&encode_post(&post)).expect("encoding must decode");
    assert_eq!(decoded, post);
}

#[test]
fn escapes_decode_to_expected_bytes() {
    let body = b"{\"userId\":1,\"title\":\"a\\nb\\u0041\\\\\\\"\",\"body\":\"\\t\"}".to_vec();
    let payload = decode_payload(&body).expect("escapes must decode");
    assert_eq!(payload.title, b"a\nbA\\\"".to_vec());
    assert_eq!(payload.body, b"\t".to_vec());
}

#[test]
fn non_ascii_unicode_escape_is_rejected() {
    let body = b"{\"userId\":1,\"title\":\"\\u0080\",\"body\":\"x\"}".to_vec();
    assert!(decode_payload(&body).is_none());
}

#[test]
fn raw_control_byte_in_string_is_rejected() {
    let body = b"{\"userId\":1,\"title\":\"a\x01b\",\"body\":\"x\"}".to_vec();
    assert!(decode_payload(&body).is_none());
}

#[test]
fn malformed_json_fails_not_defaults() {
    assert!(decode_task(&b"".to_vec()).is_none());
    assert!(decode_task(&b"not json at all".to_vec()).is_none());
    assert!(decode_task(&b"{\"id\":".to_vec()).is_none());
    assert!(decode_task(&b"{\"id\":10,\"userId\":1,\"title\":\"x\",\"completed\":true".to_vec())
        .is_none());
}

#[test]
fn partially_populated_record_is_rejected() {
    // only the first field present: the truncated answer the service gives
    // when the content-type header is missing
    assert!(decode_post(&b"{\"userId\":1}".to_vec()).is_none());
    assert!(decode_task(&b"{\"id\":10}".to_vec()).is_none());
}

#[test]
fn fields_in_any_order_are_accepted() {
    let body = b"{\"completed\":true,\"title\":\"x\",\"id\":10,\"userId\":1}".to_vec();
    let task = decode_task(&body).expect("reordered fields must decode");
    assert_eq!(task.id, 10);
    assert_eq!(task.user_id, 1);
    assert_eq!(task.title, b"x".to_vec());
    assert!(task.completed);
}

#[test]
fn unknown_key_is_rejected() {
    assert!(decode_task(&b"{\"id\":10,\"user\":1,\"title\":\"x\",\"completed\":true}".to_vec())
        .is_none());
    assert!(decode_task(
        &b"{\"id\":10,\"userId\":1,\"title\":\"x\",\"completed\":true,\"extra\":0}".to_vec()
    )
    .is_none());
}

#[test]
fn repeated_field_is_rejected() {
    assert!(decode_task(&b"{\"id\":10,\"id\":11,\"title\":\"x\",\"completed\":true}".to_vec())
        .is_none());
    assert!(decode_payload(&b"{\"userId\":1,\"title\":\"a\",\"title\":\"b\",\"body\":\"c\"}".to_vec())
        .is_none());
}

#[test]
fn missing_field_is_rejected() {
    assert!(decode_task(&b"{\"id\":10,\"userId\":1,\"title\":\"x\"}".to_vec()).is_none());
    assert!(decode_task(&b"{}".to_vec()).is_none());
}

#[test]
fn trailing_garbage_is_rejected() {
    let body = b"{\"id\":10,\"userId\":1,\"title\":\"x\",\"completed\":true}zzz".to_vec();
    assert!(decode_task(&body).is_none());
    let ws = b"{\"id\":10,\"userId\":1,\"title\":\"x\",\"completed\":true}  ".to_vec();
    assert!(decode_task(&ws).is_some());
}

#[test]
fn number_edge_cases() {
    let max = decode_task(
        &b"{\"id\":2147483647,\"userId\":-2147483648,\"title\":\"x\",\"completed\":true}".to_vec(),
    )
    .expect("extreme values fit i32");
    assert_eq!(max.id, i32::MAX);
    assert_eq!(max.user_id, i32::MIN);
    // one past either end of the range
    assert!(decode_task(
        &b"{\"id\":2147483648,\"userId\":1,\"title\":\"x\",\"completed\":true}".to_vec()
    )
    .is_none());
    assert!(decode_task(
        &b"{\"id\":1,\"userId\":-2147483649,\"title\":\"x\",\"completed\":true}".to_vec()
    )
    .is_none());
    // leading zeros are not JSON; minus zero is zero
    assert!(decode_task(&b"{\"id\":01,\"userId\":1,\"title\":\"x\",\"completed\":true}".to_vec())
        .is_none());
    let zero =
        decode_task(&b"{\"id\":-0,\"userId\":0,\"title\":\"x\",\"completed\":false}".to_vec())
            .expect("minus zero is zero");
    assert_eq!(zero.id, 0);
}

#[test]
fn escaped_key_matches() {
    // a key may itself use escapes: \u0069\u0064 spells id
    let body = b"{\"\\u0069\\u0064\":10,\"userId\":1,\"title\":\"x\",\"completed\":true}".to_vec();
    let task = decode_task(&body).expect("escaped key must match");
    assert_eq!(task.id, 10);
}

#[test]
fn control_bytes_encode_as_escapes() {
    let payload = Payload { user_id: 1, title: b"\x08\x0c\r\x1f".to_vec(), body: b"".to_vec() };
    let bytes = encode_payload(&payload);
    let text = String::from_utf8(bytes).expect("encoding is UTF-8 for UTF-8 content");
    assert_eq!(text, "{\"userId\":1,\"title\":\"\\b\\f\\r\\u001f\",\"body\":\"\"}");
}
