//! Response framing and dispatch: the fixed greeting, the probe reply and
//! the parse-failure reply, each framed with a `Content-Length` that counts
//! the exact bytes of the body, and the decision between greeting and probe.

use vstd::prelude::*;

use crate::models::ResponseIntent;
use crate::strmap::StrMap;
use vstd::utf8::encode_utf8;

verus! {

/// The decimal digit character for `d` (0 through 9).
pub open spec fn digit_char(d: nat) -> char {
    if d == 0 {
        '0'
    } else if d == 1 {
        '1'
    } else if d == 2 {
        '2'
    } else if d == 3 {
        '3'
    } else if d == 4 {
        '4'
    } else if d == 5 {
        '5'
    } else if d == 6 {
        '6'
    } else if d == 7 {
        '7'
    } else if d == 8 {
        '8'
    } else {
        '9'
    }
}

/// The decimal rendering of `n`, most significant digit first, no leading
/// zeros (a single `'0'` for zero).
pub open spec fn spec_dec(n: nat) -> Seq<char>
    decreases n,
{
    if n < 10 {
        seq![digit_char(n)]
    } else {
        spec_dec(n / 10).push(digit_char(n % 10))
    }
}

/// The number of bytes the UTF-8 encoding of `s` takes.
pub open spec fn byte_len(s: Seq<char>) -> nat {
    encode_utf8(s).len()
}

/// A status-200 response around `body`: status line, `text/plain` content
/// type, `Content-Length` counting the bytes of `body`, blank line, body.
pub open spec fn spec_http_ok(body: Seq<char>) -> Seq<char> {
    "HTTP/1.1 200 OK\r\nContent-Type: text/plain\r\nContent-Length: "@ + spec_dec(byte_len(body))
        + "\r\n\r\n"@ + body
}

/// A status-400 response around `body`, framed like [`spec_http_ok`].
pub open spec fn spec_http_bad_request(body: Seq<char>) -> Seq<char> {
    "HTTP/1.1 400 Bad Request\r\nContent-Type: text/plain\r\nContent-Length: "@ + spec_dec(
        byte_len(body),
    ) + "\r\n\r\n"@ + body
}

/// The fixed greeting body of the default response.
pub open spec fn spec_default_body() -> Seq<char> {
    "\n    .-\"\"\"\"\"\"-.\n  .'          '.\n /   O      O   \\\n:                :\n|    \\      /    |\n:     '.__..'     :\n \\     .-\"\"-.    /\n  '.          .'\n    '-......-\n    HELLO, HACKER!\n    "@
}

/// The single digit `d` as a string slice.
fn digit_str(d: usize) -> (r: &'static str)
    requires
        d < 10,
    ensures
        r@ =~= seq![digit_char(d as nat)],
{
    if d == 0 {
        proof {
            reveal_strlit("0");
        }
        "0"
    } else if d == 1 {
        proof {
            reveal_strlit("1");
        }
        "1"
    } else if d == 2 {
        proof {
            reveal_strlit("2");
        }
        "2"
    } else if d == 3 {
        proof {
            reveal_strlit("3");
        }
        "3"
    } else if d == 4 {
        proof {
            reveal_strlit("4");
        }
        "4"
    } else if d == 5 {
        proof {
            reveal_strlit("5");
        }
        "5"
    } else if d == 6 {
        proof {
            reveal_strlit("6");
        }
        "6"
    } else if d == 7 {
        proof {
            reveal_strlit("7");
        }
        "7"
    } else if d == 8 {
        proof {
            reveal_strlit("8");
        }
        "8"
    } else {
        proof {
            reveal_strlit("9");
        }
        "9"
    }
}

/// Renders `n` in decimal, as [`spec_dec`] describes.
pub fn dec_string(n: usize) -> (r: String)
    ensures
        r@ == spec_dec(n as nat),
    decreases n,
{
    if n < 10 {
        digit_str(n).to_owned()
    } else {
        let mut s = dec_string(n / 10);
        s.append(digit_str(n % 10));
        proof {
            assert(s@ =~= spec_dec((n / 10) as nat).push(digit_char((n % 10) as nat)));
        }
        s
    }
}

/// Frames `body` as a status-200 response, as [`spec_http_ok`] describes.
fn frame_ok(body: &str) -> (r: String)
    ensures
        r@ == spec_http_ok(body@),
{
    let mut s: String = "HTTP/1.1 200 OK\r\nContent-Type: text/plain\r\nContent-Length: "
        .to_owned();
    let bytes: &[u8] = body.as_bytes();
    proof {
        broadcast use vstd::slice::axiom_spec_len;

        assert(bytes@.len() == byte_len(body@));
    }
    let lenstr = dec_string(bytes.len());
    s.append(lenstr.as_str());
    s.append("\r\n\r\n");
    s.append(body);
    proof {
        assert(s@ =~= spec_http_ok(body@));
    }
    s
}

/// The fixed greeting body.
pub fn default_body() -> (r: &'static str)
    ensures
        r@ == spec_default_body(),
{
    "\n    .-\"\"\"\"\"\"-.\n  .'          '.\n /   O      O   \\\n:                :\n|    \\      /    |\n:     '.__..'     :\n \\     .-\"\"-.    /\n  '.          .'\n    '-......-\n    HELLO, HACKER!\n    "
}

/// The default response: the fixed greeting behind a status-200 frame.
pub fn generate_default_response() -> (r: String)
    ensures
        r@ == spec_http_ok(spec_default_body()),
{
    frame_ok(default_body())
}

/// The probe response: the captured output of the reachability probe,
/// handed in by the caller, behind a status-200 frame.
pub fn generate_ping_response(ping_result: &str) -> (r: String)
    ensures
        r@ == spec_http_ok(ping_result@),
{
    frame_ok(ping_result)
}

/// The parse-failure response: the violation's description behind a
/// status-400 frame.
pub fn generate_error_response(message: &str) -> (r: String)
    ensures
        r@ == spec_http_bad_request(message@),
{
    let mut s: String = "HTTP/1.1 400 Bad Request\r\nContent-Type: text/plain\r\nContent-Length: "
        .to_owned();
    let bytes: &[u8] = message.as_bytes();
    proof {
        broadcast use vstd::slice::axiom_spec_len;

        assert(bytes@.len() == byte_len(message@));
    }
    let lenstr = dec_string(bytes.len());
    s.append(lenstr.as_str());
    s.append("\r\n\r\n");
    s.append(message);
    proof {
        assert(s@ =~= spec_http_bad_request(message@));
    }
    s
}

/// Decides the response: a query that carries the probe key selects the
/// probe against its value; any other query selects the greeting.
pub fn decide_response(query: &StrMap) -> (r: ResponseIntent)
    requires
        query.wf(),
    ensures
        query.as_map().contains_key("ping"@) ==> (r matches ResponseIntent::Probe(t) && t@
            == query.as_map()["ping"@]),
        !query.as_map().contains_key("ping"@) ==> r == ResponseIntent::Greeting,
{
    let v = query.get("ping");
    match v {
        Some(t) => ResponseIntent::Probe(t.clone()),
        None => ResponseIntent::Greeting,
    }
}

} // verus!
