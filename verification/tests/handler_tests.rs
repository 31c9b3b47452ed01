use core_app_web::handler::handle_request;
use core_app_web::handler::handle_request_at;
use core_app_web::handler::HandleOutcome;
use core_app_web::models::ResponseIntent;
use core_app_web::response::generate_default_response;

const TS: &str = "2024-01-02T03:04:05+00:00";

#[test]
fn zero_bytes_means_no_action() {
    let out = handle_request_at(TS.to_owned(), b"", "1.2.3.4:5");
    assert!(matches!(out, HandleOutcome::NoData));
}

#[test]
fn plain_request_logs_and_greets() {
    let out = handle_request_at(
        TS.to_owned(),
        b"GET / VERSION\r\nHost: x\r\n\r\n",
        "1.2.3.4:5",
    );
    match out {
        HandleOutcome::Proceed(rec, intent) => {
            assert!(matches!(intent, ResponseIntent::Greeting));
            assert_eq!(rec.entry.timestamp.as_str(), TS);
            assert_eq!(rec.entry.peer_addr.as_str(), "1.2.3.4:5");
            assert_eq!(rec.entry.body.as_str(), "");
            assert_eq!(rec.entry.headers.len(), 1);
            assert_eq!(rec.entry.headers.get("Host").unwrap().as_str(), "x");
            assert_eq!(rec.filename.as_str(), "connections-2024-01-02.json");
            let v: serde_json::Value = serde_json::from_str(rec.line.trim_end()).unwrap();
            assert_eq!(v["body"].as_str().unwrap(), "");
            assert_eq!(v["headers"]["Host"].as_str().unwrap(), "x");
            let resp = generate_default_response();
            assert!(resp.starts_with("HTTP/1.1 200 OK\r\n"));
        },
        _ => panic!("expected a logged greeting"),
    }
}

#[test]
fn ping_query_requests_probe_against_target() {
    let out = handle_request_at(
        TS.to_owned(),
        b"GET /?ping=127.0.0.1 VERSION\r\n\r\n",
        "1.2.3.4:5",
    );
    match out {
        HandleOutcome::Proceed(rec, intent) => {
            match intent {
                ResponseIntent::Probe(t) => assert_eq!(t.as_str(), "127.0.0.1"),
                ResponseIntent::Greeting => panic!("expected the probe intent"),
            }
            assert_eq!(rec.entry.body.as_str(), "");
        },
        _ => panic!("expected a logged probe"),
    }
}

#[test]
fn malformed_request_is_rejected_with_400() {
    let out = handle_request_at(TS.to_owned(), b"GET\r\n\r\n", "1.2.3.4:5");
    match out {
        HandleOutcome::Rejected(resp) => {
            assert!(resp.starts_with("HTTP/1.1 400 Bad Request\r\n"));
            assert!(resp.ends_with("Failed to parse request: Invalid request line"));
        },
        _ => panic!("expected a rejection"),
    }
}

#[test]
fn invalid_bytes_are_replaced_not_fatal() {
    let mut req = b"GET / VERSION\r\nA: ".to_vec();
    req.push(0xFF);
    req.extend_from_slice(b"\r\n\r\n");
    let out = handle_request_at(TS.to_owned(), &req, "p");
    match out {
        HandleOutcome::Proceed(rec, _) => {
            assert_eq!(
                rec.entry.headers.get("A").unwrap().as_str(),
                "\u{FFFD}"
            );
        },
        _ => panic!("expected the replaced text to parse"),
    }
}

#[test]
fn identical_requests_twice_same_timestamp_same_decision() {
    let req = b"GET /x?k=v VERSION\r\nH: V\r\n\r\nBODY";
    let a = handle_request_at(TS.to_owned(), req, "p");
    let b = handle_request_at(TS.to_owned(), req, "p");
    match (a, b) {
        (HandleOutcome::Proceed(r1, i1), HandleOutcome::Proceed(r2, i2)) => {
            assert_eq!(r1.line, r2.line);
            assert!(matches!(i1, ResponseIntent::Greeting));
            assert!(matches!(i2, ResponseIntent::Greeting));
        },
        _ => panic!("expected both to proceed"),
    }
}

#[test]
fn clock_stamped_handler_smoke() {
    let out = handle_request(b"", "p");
    assert!(matches!(out, HandleOutcome::NoData));
    let out2 = handle_request(b"GET / VERSION\r\n\r\n", "p");
    match out2 {
        HandleOutcome::Proceed(rec, intent) => {
            assert!(matches!(intent, ResponseIntent::Greeting));
            assert!(rec.entry.timestamp.len() >= 10);
        },
        _ => panic!("expected a logged greeting"),
    }
}
