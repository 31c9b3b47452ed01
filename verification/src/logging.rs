//! Building the persisted log record: the current timestamp, the
//! date-partitioned file name and the one-line JSON record.  The append to
//! the log file itself is the surrounding application's work; what it
//! appends is built and proved here.

use vstd::prelude::*;

use crate::json::lemma_log_json_injective;
use crate::json::lemma_log_json_printable;
use crate::json::log_entry_json;
use crate::json::spec_log_json;
use crate::models::LogEntry;
use crate::models::LogEntryV;
use crate::strmap::StrMap;

verus! {

/// The date prefix of an RFC 3339 timestamp: its first ten characters.
pub open spec fn spec_date_of(ts: Seq<char>) -> Seq<char> {
    if ts.len() >= 10 {
        ts.take(10)
    } else {
        ts
    }
}

/// The name of the log file for `date`.
pub open spec fn spec_log_filename(date: Seq<char>) -> Seq<char> {
    "connections-"@ + date + ".json"@
}

/// One request as one persisted line: the JSON record and a trailing newline.
pub open spec fn spec_log_line(e: LogEntryV) -> Seq<char> {
    spec_log_json(e) + "\n"@
}

/// Relies on chrono's `Local::now` and `DateTime::to_rfc3339`: the current
/// local time as an RFC 3339 date-time string, which always begins with its
/// ten-character date.
#[verifier::external_body]
pub(crate) fn now_rfc3339() -> (r: String)
    ensures
        r@.len() >= 10,
{
    chrono::Local::now().to_rfc3339()
}

/// The name of the log file for the day of `timestamp`.
pub fn log_filename(timestamp: &str) -> (r: String)
    ensures
        r@ == spec_log_filename(spec_date_of(timestamp@)),
{
    let n = timestamp.unicode_len();
    let date: &str = if n >= 10 {
        timestamp.substring_char(0, 10)
    } else {
        timestamp
    };
    let mut s: String = "connections-".to_owned();
    s.append(date);
    s.append(".json");
    proof {
        assert(s@ =~= spec_log_filename(spec_date_of(timestamp@)));
    }
    s
}

/// Renders one entry as the line to append, as [`spec_log_line`] describes.
pub fn log_line(e: &LogEntry) -> (r: String)
    ensures
        r@ == spec_log_line(e@),
{
    let mut s = log_entry_json(e);
    s.append("\n");
    s
}

/// A record ready to append: the entry, the file it belongs in and the
/// serialized line.
pub struct LogRecord {
    pub entry: LogEntry,
    pub filename: String,
    pub line: String,
}

impl LogRecord {
    /// Well-formedness: the line and the file name are the ones the entry
    /// serializes to.
    pub open spec fn wf(&self) -> bool {
        &&& self.entry.wf()
        &&& self.line@ == spec_log_line(self.entry@)
        &&& self.filename@ == spec_log_filename(spec_date_of(self.entry@.timestamp))
    }
}

/// Builds the record for one request with the given timestamp: the entry,
/// its one-line serialization and its file name, all pinned by the
/// arguments.
pub fn make_log_record_at(
    timestamp: String,
    peer_addr: String,
    headers: StrMap,
    body: String,
) -> (r: LogRecord)
    requires
        headers.wf(),
    ensures
        r.wf(),
        r.entry@.timestamp == timestamp@,
        r.entry@.peer_addr == peer_addr@,
        r.entry@.headers == headers.pairs(),
        r.entry@.body == body@,
{
    let filename = log_filename(timestamp.as_str());
    let entry = LogEntry { timestamp, peer_addr, headers, body };
    let line = log_line(&entry);
    LogRecord { entry, filename, line }
}

/// Builds the record for one request, stamped with the current time.
pub fn make_log_record(peer_addr: String, headers: StrMap, body: String) -> (r: LogRecord)
    requires
        headers.wf(),
    ensures
        r.wf(),
        r.entry@.peer_addr == peer_addr@,
        r.entry@.headers == headers.pairs(),
        r.entry@.body == body@,
        r.entry@.timestamp.len() >= 10,
{
    let timestamp = now_rfc3339();
    make_log_record_at(timestamp, peer_addr, headers, body)
}

/// A log line ends with its one newline and holds no other: however many
/// requests are appended, each record is exactly one line of the file.
pub proof fn lemma_log_line_single_newline(e: LogEntryV)
    ensures
        spec_log_line(e).len() > 0,
        spec_log_line(e).last() == '\n',
        forall|j: int| 0 <= j < spec_log_line(e).len() - 1 ==> spec_log_line(e)[j] != '\n',
{
    lemma_log_json_printable(e);
    reveal_strlit("\n");
    assert("\n"@ =~= seq!['\n']);
    assert(spec_log_line(e).last() == '\n');
    assert forall|j: int| 0 <= j < spec_log_line(e).len() - 1 implies spec_log_line(e)[j]
        != '\n' by {
        assert(spec_log_line(e)[j] == spec_log_json(e)[j]);
    }
}

/// Two records that differ in their timestamp serialize to two different
/// lines: a repeated request still yields its own log line.
pub proof fn lemma_distinct_timestamps_distinct_lines(e1: LogEntryV, e2: LogEntryV)
    requires
        e1.timestamp != e2.timestamp,
    ensures
        spec_log_line(e1) != spec_log_line(e2),
{
    if spec_log_line(e1) == spec_log_line(e2) {
        let l1 = spec_log_json(e1);
        let l2 = spec_log_json(e2);
        assert(l1 + "\n"@ == l2 + "\n"@);
        assert((l1 + "\n"@).len() == l1.len() + "\n"@.len());
        assert((l2 + "\n"@).len() == l2.len() + "\n"@.len());
        assert(l1.len() == l2.len());
        assert(l1 =~= (l1 + "\n"@).take(l1.len() as int));
        assert(l2 =~= (l2 + "\n"@).take(l2.len() as int));
        lemma_log_json_injective(e1, e2);
    }
}

} // verus!
