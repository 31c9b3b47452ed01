//! The data the library works with: one connection's log record fields and
//! the response decision.

use vstd::prelude::*;

use crate::strmap::StrMap;
use crate::strmap::unique_keys;

verus! {

/// The mathematical content of a [`LogEntry`]: its four fields as character
/// sequences, the headers as key/value pairs in storage order.
pub struct LogEntryV {
    pub timestamp: Seq<char>,
    pub peer_addr: Seq<char>,
    pub headers: Seq<(Seq<char>, Seq<char>)>,
    pub body: Seq<char>,
}

/// One request as it is persisted: a timestamp, the peer's address, the
/// parsed headers and the body.  Built once per request and then only
/// serialized, never mutated.
pub struct LogEntry {
    pub timestamp: String,
    pub peer_addr: String,
    pub headers: StrMap,
    pub body: String,
}

impl View for LogEntry {
    type V = LogEntryV;

    open spec fn view(&self) -> LogEntryV {
        LogEntryV {
            timestamp: self.timestamp@,
            peer_addr: self.peer_addr@,
            headers: self.headers.pairs(),
            body: self.body@,
        }
    }
}

impl LogEntry {
    /// Well-formedness: the header keys are pairwise distinct.
    pub open spec fn wf(&self) -> bool {
        unique_keys(self@.headers)
    }
}

/// Which of the two replies a request receives, decided once from the query
/// parameters: the fixed greeting, or the output of the reachability probe
/// run against the carried target.
pub enum ResponseIntent {
    Greeting,
    Probe(String),
}

} // verus!
