//! A small library for a one-shot text protocol server: a request parser,
//! canned response framing, and a newline-delimited JSON connection log.
//!
//! The library holds the pure logic: parsing raw request text into headers,
//! body and query parameters; deciding between the default greeting and the
//! reachability-probe reply; framing responses with an exact byte length; and
//! building one JSON log line per request.  Sockets, the log file and the
//! probe subprocess are driven by the surrounding application.

pub mod error;
pub mod handler;
pub mod logging;
pub mod json;
pub mod models;
pub mod parser;
pub mod response;
pub mod strmap;
pub mod text;
