use core_app_web::json::log_entry_json;
use core_app_web::logging::log_filename;
use core_app_web::logging::log_line;
use core_app_web::logging::make_log_record;
use core_app_web::logging::make_log_record_at;
use core_app_web::models::LogEntry;
use core_app_web::strmap::StrMap;

fn entry(ts: &str, peer: &str, pairs: &[(&str, &str)], body: &str) -> LogEntry {
    let mut headers = StrMap::new();
    for (k, v) in pairs {
        headers.insert((*k).to_owned(), (*v).to_owned());
    }
    LogEntry {
        timestamp: ts.to_owned(),
        peer_addr: peer.to_owned(),
        headers,
        body: body.to_owned(),
    }
}

#[test]
fn log_entry_serializes_to_exact_json() {
    let e = entry(
        "2024-01-02T03:04:05+00:00",
        "1.2.3.4:5678",
        &[("H", "V")],
        "B",
    );
    let line = log_entry_json(&e);
    assert_eq!(
        line.as_str(),
        "{\"timestamp\":\"2024-01-02T03:04:05+00:00\",\"peer_addr\":\"1.2.3.4:5678\",\"headers\":{\"H\":\"V\"},\"body\":\"B\"}"
    );
}

#[test]
fn log_entry_escapes_special_characters() {
    let e = entry("t", "p", &[], "a\"b\\c\nd\te\rf\u{1}g");
    let line = log_entry_json(&e);
    assert_eq!(
        line.as_str(),
        "{\"timestamp\":\"t\",\"peer_addr\":\"p\",\"headers\":{},\"body\":\"a\\\"b\\\\c\\nd\\te\\rf\\u0001g\"}"
    );
}

#[test]
fn serialized_entry_parses_back_field_for_field() {
    let body = "héllo\u{7} \"quoted\" \\slash\nnew";
    let e = entry(
        "2024-06-07T08:09:10+02:00",
        "[::1]:9999",
        &[("Host", "x"), ("User-Agent", "probe/1.0")],
        body,
    );
    let line = log_entry_json(&e);
    let v: serde_json::Value = serde_json::from_str(line.as_str()).expect("line is valid JSON");
    assert_eq!(
        v["timestamp"].as_str().unwrap(),
        "2024-06-07T08:09:10+02:00"
    );
    assert_eq!(v["peer_addr"].as_str().unwrap(), "[::1]:9999");
    assert_eq!(v["headers"]["Host"].as_str().unwrap(), "x");
    assert_eq!(v["headers"]["User-Agent"].as_str().unwrap(), "probe/1.0");
    assert_eq!(v["headers"].as_object().unwrap().len(), 2);
    assert_eq!(v["body"].as_str().unwrap(), body);
}

#[test]
fn log_line_is_exactly_one_line() {
    let e = entry("t", "p", &[("A", "1")], "multi\nline\r\nbody");
    let line = log_line(&e);
    assert!(line.ends_with('\n'));
    assert_eq!(line.bytes().filter(|b| *b == b'\n').count(), 1);
}

#[test]
fn k_records_make_k_lines() {
    let mut all = String::new();
    let k = 5;
    for i in 0..k {
        let e = entry("t", "p", &[], &format!("body {}\nwith newline", i));
        all.push_str(log_line(&e).as_str());
    }
    assert_eq!(all.bytes().filter(|b| *b == b'\n').count(), k);
    assert_eq!(all.lines().count(), k);
    for (i, line) in all.lines().enumerate() {
        let v: serde_json::Value = serde_json::from_str(line).expect("each line is valid JSON");
        assert_eq!(
            v["body"].as_str().unwrap(),
            format!("body {}\nwith newline", i)
        );
    }
}

#[test]
fn log_filename_is_date_partitioned() {
    let name = log_filename("2024-01-02T03:04:05+00:00");
    assert_eq!(name.as_str(), "connections-2024-01-02.json");
    let short = log_filename("abc");
    assert_eq!(short.as_str(), "connections-abc.json");
}

#[test]
fn identical_requests_with_distinct_timestamps_make_distinct_lines() {
    let mut h1 = StrMap::new();
    h1.insert("H".to_owned(), "V".to_owned());
    let mut h2 = StrMap::new();
    h2.insert("H".to_owned(), "V".to_owned());
    let r1 = make_log_record_at(
        "2024-01-02T03:04:05.000000001+00:00".to_owned(),
        "peer".to_owned(),
        h1,
        "B".to_owned(),
    );
    let r2 = make_log_record_at(
        "2024-01-02T03:04:05.000000002+00:00".to_owned(),
        "peer".to_owned(),
        h2,
        "B".to_owned(),
    );
    assert_ne!(r1.line, r2.line);
    assert_eq!(r1.filename, r2.filename);
}

#[test]
fn make_log_record_stamps_current_time() {
    let r = make_log_record("peer".to_owned(), StrMap::new(), "".to_owned());
    assert!(r.entry.timestamp.len() >= 10);
    assert!(r.filename.starts_with("connections-"));
    assert!(r.filename.ends_with(".json"));
    assert!(r.line.ends_with('\n'));
    let v: serde_json::Value = serde_json::from_str(r.line.trim_end()).unwrap();
    assert_eq!(v["peer_addr"].as_str().unwrap(), "peer");
}
