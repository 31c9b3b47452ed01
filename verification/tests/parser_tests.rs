use core_app_web::error::AppError;
use core_app_web::parser::parse_request;

#[test]
fn simple_request_parses_fully() {
    let r = parse_request("GET /x?k=v VERSION\r\nH: V\r\n\r\nBODY").unwrap();
    let (headers, body, query) = r;
    assert_eq!(headers.len(), 1);
    assert_eq!(headers.get("H").unwrap().as_str(), "V");
    assert_eq!(body.as_str(), "BODY");
    assert_eq!(query.len(), 1);
    assert_eq!(query.get("k").unwrap().as_str(), "v");
}

#[test]
fn zero_headers_empty_body() {
    let (headers, body, query) = parse_request("GET / VERSION\r\n\r\n").unwrap();
    assert_eq!(headers.len(), 0);
    assert_eq!(body.as_str(), "");
    assert_eq!(query.len(), 0);
}

#[test]
fn missing_target_is_parse_failure() {
    let e = parse_request("GET\r\nHost: x\r\n\r\n").unwrap_err();
    match e {
        AppError::ParseError(m) => assert_eq!(m.as_str(), "Invalid request line"),
        _ => panic!("expected a parse error"),
    }
}

#[test]
fn bare_method_is_parse_failure() {
    let e = parse_request("GET").unwrap_err();
    assert_eq!(
        e.message().as_str(),
        "Failed to parse request: Invalid request line"
    );
}

#[test]
fn invalid_header_is_parse_failure_with_line() {
    let e = parse_request("GET / VERSION\r\nBadHeader\r\n\r\n").unwrap_err();
    assert_eq!(
        e.message().as_str(),
        "Failed to parse request: Invalid header format: BadHeader"
    );
}

#[test]
fn empty_input_parses_to_empty_result() {
    let (headers, body, query) = parse_request("").unwrap();
    assert_eq!(headers.len(), 0);
    assert_eq!(body.as_str(), "");
    assert_eq!(query.len(), 0);
}

#[test]
fn duplicate_query_keys_last_wins() {
    let (_, _, query) = parse_request("GET /?a=1&a=2&b=3 VERSION\r\n\r\n").unwrap();
    assert_eq!(query.len(), 2);
    assert_eq!(query.get("a").unwrap().as_str(), "2");
    assert_eq!(query.get("b").unwrap().as_str(), "3");
}

#[test]
fn duplicate_header_keys_last_wins() {
    let (headers, _, _) = parse_request("GET / VERSION\r\nH: 1\r\nH: 2\r\n\r\n").unwrap();
    assert_eq!(headers.len(), 1);
    assert_eq!(headers.get("H").unwrap().as_str(), "2");
}

#[test]
fn query_pair_without_equals_is_discarded() {
    let (_, _, query) = parse_request("GET /?a&b=2 VERSION\r\n\r\n").unwrap();
    assert_eq!(query.len(), 1);
    assert!(query.get("a").is_none());
    assert_eq!(query.get("b").unwrap().as_str(), "2");
}

#[test]
fn body_keeps_inner_line_breaks() {
    let (_, body, _) = parse_request("GET / VERSION\r\nA: B\r\n\r\nline1\r\nline2").unwrap();
    assert_eq!(body.as_str(), "line1\r\nline2");
}

#[test]
fn header_value_splits_at_first_separator() {
    let (headers, _, _) = parse_request("GET / VERSION\r\nA: x: y\r\n\r\n").unwrap();
    assert_eq!(headers.get("A").unwrap().as_str(), "x: y");
}

#[test]
fn repeated_spaces_in_request_line_are_one_separator() {
    let (headers, body, query) = parse_request("GET   /x   HTTP/1.1\r\n\r\n").unwrap();
    assert_eq!(headers.len(), 0);
    assert_eq!(body.as_str(), "");
    assert_eq!(query.len(), 0);
}

#[test]
fn no_blank_line_means_empty_body() {
    let (headers, body, _) = parse_request("GET / VERSION\r\nA: B").unwrap();
    assert_eq!(headers.get("A").unwrap().as_str(), "B");
    assert_eq!(body.as_str(), "");
}

#[test]
fn error_variants_describe_themselves() {
    let p = AppError::ParseError("Invalid request line".to_owned());
    assert_eq!(
        p.message().as_str(),
        "Failed to parse request: Invalid request line"
    );
    let io = AppError::IoError("connection reset".to_owned());
    assert_eq!(io.message().as_str(), "I/O error: connection reset");
    let u = AppError::Unexpected("oops".to_owned());
    assert_eq!(u.message().as_str(), "Unexpected error: oops");
}
