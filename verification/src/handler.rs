//! The per-connection decision: one read's bytes in, the actions out.
//!
//! The handler decodes the bytes as text (invalid sequences replaced),
//! parses them, and decides: nothing for an empty read, a status-400 reply
//! without logging for a malformed request, or a log record to append and a
//! reply intent for a well-formed one.  The surrounding application
//! performs the actions: it appends the record's line and sends the reply,
//! running the reachability probe first when the intent asks for it.

use vstd::prelude::*;

use crate::error::AppError;
use crate::logging::LogRecord;
use crate::logging::make_log_record_at;
use crate::logging::now_rfc3339;
use crate::models::ResponseIntent;
use crate::parser::parse_request;
use crate::parser::spec_parse;
use crate::response::decide_response;
use crate::response::generate_error_response;
use crate::response::spec_http_bad_request;
use crate::strmap::map_of;
use vstd::utf8::decode_utf8;
use vstd::utf8::valid_utf8;

verus! {

/// What the handler decides for one connection.
pub enum HandleOutcome {
    /// The peer closed without sending: no reply, no log.
    NoData,
    /// Parse failure: the status-400 reply to send; nothing is logged.
    Rejected(String),
    /// Success: the record to append, then the reply to produce.
    Proceed(LogRecord, ResponseIntent),
}

/// Names what `String::from_utf8_lossy` yields: the decoding depends on the
/// bytes alone.
pub uninterp spec fn lossy_of(bytes: Seq<u8>) -> Seq<char>;

/// Relies on `String::from_utf8_lossy`: decodes the bytes as UTF-8 with
/// invalid sequences replaced; valid UTF-8 decodes to its exact text.
#[verifier::external_body]
fn decode_lossy(bytes: &[u8]) -> (r: String)
    ensures
        r@ == lossy_of(bytes@),
        valid_utf8(bytes@) ==> r@ == decode_utf8(bytes@),
{
    String::from_utf8_lossy(bytes).into_owned()
}

/// The decision for one connection's read, with the record's timestamp
/// handed in, so that the outcome is determined by the arguments alone.
pub fn handle_request_at(timestamp: String, data: &[u8], peer_addr: &str) -> (r: HandleOutcome)
    ensures
        ({
            let text = lossy_of(data@);
            match r {
                HandleOutcome::NoData => data@.len() == 0,
                HandleOutcome::Rejected(resp) => data@.len() > 0 && (spec_parse(
                    text,
                ) matches Err(m) && resp@ == spec_http_bad_request(
                    "Failed to parse request: "@ + m,
                )),
                HandleOutcome::Proceed(rec, intent) => data@.len() > 0 && (spec_parse(
                    text,
                ) matches Ok(p) && {
                    &&& rec.wf()
                    &&& rec.entry@.timestamp == timestamp@
                    &&& rec.entry@.peer_addr == peer_addr@
                    &&& rec.entry@.headers == p.headers
                    &&& rec.entry@.body == p.body
                    &&& (map_of(p.query).contains_key("ping"@) ==> (
                    intent matches ResponseIntent::Probe(t) && t@ == map_of(p.query)["ping"@]))
                    &&& (!map_of(p.query).contains_key("ping"@) ==> intent
                        == ResponseIntent::Greeting)
                }),
            }
        }),
{
    if data.len() == 0 {
        return HandleOutcome::NoData;
    }
    let text = decode_lossy(data);
    let parsed = parse_request(text.as_str());
    match parsed {
        Err(e) => {
            let msg = e.message();
            let resp = generate_error_response(msg.as_str());
            HandleOutcome::Rejected(resp)
        },
        Ok((headers, body, query)) => {
            let intent = decide_response(&query);
            let record = make_log_record_at(timestamp, peer_addr.to_owned(), headers, body);
            HandleOutcome::Proceed(record, intent)
        },
    }
}

/// The decision for one connection's read, stamped with the current time.
pub fn handle_request(data: &[u8], peer_addr: &str) -> (r: HandleOutcome)
    ensures
        ({
            let text = lossy_of(data@);
            match r {
                HandleOutcome::NoData => data@.len() == 0,
                HandleOutcome::Rejected(resp) => data@.len() > 0 && (spec_parse(
                    text,
                ) matches Err(m) && resp@ == spec_http_bad_request(
                    "Failed to parse request: "@ + m,
                )),
                HandleOutcome::Proceed(rec, intent) => data@.len() > 0 && (spec_parse(
                    text,
                ) matches Ok(p) && {
                    &&& rec.wf()
                    &&& rec.entry@.peer_addr == peer_addr@
                    &&& rec.entry@.headers == p.headers
                    &&& rec.entry@.body == p.body
                    &&& (map_of(p.query).contains_key("ping"@) ==> (
                    intent matches ResponseIntent::Probe(t) && t@ == map_of(p.query)["ping"@]))
                    &&& (!map_of(p.query).contains_key("ping"@) ==> intent
                        == ResponseIntent::Greeting)
                }),
            }
        }),
{
    let timestamp = now_rfc3339();
    handle_request_at(timestamp, data, peer_addr)
}

} // verus!
