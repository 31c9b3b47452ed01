use core_app_web::models::ResponseIntent;
use core_app_web::response::dec_string;
use core_app_web::response::decide_response;
use core_app_web::response::default_body;
use core_app_web::response::generate_default_response;
use core_app_web::response::generate_error_response;
use core_app_web::response::generate_ping_response;
use core_app_web::strmap::StrMap;

fn split_response(resp: &str) -> (&str, &str) {
    let idx = resp.find("\r\n\r\n").expect("response has a blank line");
    (&resp[..idx], &resp[idx + 4..])
}

fn content_length_of(head: &str) -> usize {
    for line in head.split("\r\n") {
        if let Some(v) = line.strip_prefix("Content-Length: ") {
            return v.parse().unwrap();
        }
    }
    panic!("no Content-Length header");
}

#[test]
fn default_response_is_greeting_with_exact_frame() {
    let resp = generate_default_response();
    let (head, body) = split_response(resp.as_str());
    assert!(head.starts_with("HTTP/1.1 200 OK\r\n"));
    assert!(head.contains("Content-Type: text/plain"));
    assert_eq!(body, default_body());
    assert!(body.contains("HELLO, HACKER!"));
    assert_eq!(content_length_of(head), body.len());
    assert_eq!(content_length_of(head), 182);
}

#[test]
fn ping_response_carries_captured_output() {
    let out = "PING 127.0.0.1: 2 packets transmitted";
    let resp = generate_ping_response(out);
    let (head, body) = split_response(resp.as_str());
    assert!(head.starts_with("HTTP/1.1 200 OK\r\n"));
    assert_eq!(body, out);
    assert_eq!(content_length_of(head), out.len());
}

#[test]
fn content_length_counts_bytes_not_characters() {
    let out = "réponse — ✓";
    assert_ne!(out.len(), out.chars().count());
    let resp = generate_ping_response(out);
    let (head, body) = split_response(resp.as_str());
    assert_eq!(body, out);
    assert_eq!(content_length_of(head), out.len());
    assert_ne!(content_length_of(head), out.chars().count());
}

#[test]
fn error_response_is_400_with_message() {
    let resp = generate_error_response("Failed to parse request: Invalid request line");
    let (head, body) = split_response(resp.as_str());
    assert!(head.starts_with("HTTP/1.1 400 Bad Request\r\n"));
    assert_eq!(body, "Failed to parse request: Invalid request line");
    assert_eq!(content_length_of(head), body.len());
}

#[test]
fn dec_string_renders_exact_decimals() {
    assert_eq!(dec_string(0).as_str(), "0");
    assert_eq!(dec_string(7).as_str(), "7");
    assert_eq!(dec_string(10).as_str(), "10");
    assert_eq!(dec_string(182).as_str(), "182");
    assert_eq!(dec_string(123456).as_str(), "123456");
    assert_eq!(dec_string(usize::MAX), format!("{}", usize::MAX));
}

#[test]
fn query_with_ping_key_selects_probe() {
    let mut q = StrMap::new();
    q.insert("ping".to_owned(), "127.0.0.1".to_owned());
    match decide_response(&q) {
        ResponseIntent::Probe(t) => assert_eq!(t.as_str(), "127.0.0.1"),
        ResponseIntent::Greeting => panic!("expected the probe intent"),
    }
}

#[test]
fn query_without_ping_key_selects_greeting() {
    let q = StrMap::new();
    assert!(matches!(decide_response(&q), ResponseIntent::Greeting));
    let mut q2 = StrMap::new();
    q2.insert("other".to_owned(), "x".to_owned());
    assert!(matches!(decide_response(&q2), ResponseIntent::Greeting));
}

#[test]
fn strmap_insert_get_and_order() {
    let mut m = StrMap::new();
    assert!(m.is_empty());
    m.insert("a".to_owned(), "1".to_owned());
    m.insert("b".to_owned(), "2".to_owned());
    m.insert("a".to_owned(), "3".to_owned());
    assert_eq!(m.len(), 2);
    assert_eq!(m.get("a").unwrap().as_str(), "3");
    assert_eq!(m.get("b").unwrap().as_str(), "2");
    assert!(m.get("c").is_none());
    assert!(m.contains_key("a"));
    assert!(!m.contains_key("c"));
    assert_eq!(m.key_at(0).as_str(), "a");
    assert_eq!(m.val_at(0).as_str(), "3");
    assert_eq!(m.key_at(1).as_str(), "b");
}
