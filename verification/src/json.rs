//! The JSON framing of a log record: string escaping, the one-line object a
//! request is persisted as, and the proof that the line determines the
//! record (scanning it back yields the fields unchanged).

use vstd::prelude::*;

use crate::models::LogEntry;
use crate::models::LogEntryV;
use crate::strmap::StrMap;
use vstd::utf8::char_u32_cast;

verus! {

/// A character JSON string escaping replaces: the quote, the backslash and
/// the control characters.
pub open spec fn is_json_special(c: char) -> bool {
    c == '"' || c == '\\' || (c as u32) < 32
}

/// The lower-case hexadecimal digit character for `d` (0 through 15).
pub open spec fn hex_digit(d: nat) -> char {
    if d == 0 {
        '0'
    } else if d == 1 {
        '1'
    } else if d == 2 {
        '2'
    } else if d == 3 {
        '3'
    } else if d == 4 {
        '4'
    } else if d == 5 {
        '5'
    } else if d == 6 {
        '6'
    } else if d == 7 {
        '7'
    } else if d == 8 {
        '8'
    } else if d == 9 {
        '9'
    } else if d == 10 {
        'a'
    } else if d == 11 {
        'b'
    } else if d == 12 {
        'c'
    } else if d == 13 {
        'd'
    } else if d == 14 {
        'e'
    } else {
        'f'
    }
}

/// Whether `c` is a lower-case hexadecimal digit.
pub open spec fn is_hex(c: char) -> bool {
    ('0' <= c && c <= '9') || ('a' <= c && c <= 'f')
}

/// The value of the hexadecimal digit `c`.
pub open spec fn hex_val(c: char) -> nat {
    if '0' <= c && c <= '9' {
        (c as u32 - 48) as nat
    } else {
        (c as u32 - 87) as nat
    }
}

/// What escaping emits for one character.
pub open spec fn esc_char(c: char) -> Seq<char> {
    if c == '"' {
        seq!['\\', '"']
    } else if c == '\\' {
        seq!['\\', '\\']
    } else if c == '\n' {
        seq!['\\', 'n']
    } else if c == '\r' {
        seq!['\\', 'r']
    } else if c == '\t' {
        seq!['\\', 't']
    } else if (c as u32) < 32 {
        seq!['\\', 'u', '0', '0', hex_digit((c as u32 / 16) as nat), hex_digit(
            (c as u32 % 16) as nat,
        )]
    } else {
        seq![c]
    }
}

/// The JSON escaping of `s`.
pub open spec fn escape(s: Seq<char>) -> Seq<char>
    decreases s.len(),
{
    if s.len() == 0 {
        Seq::empty()
    } else {
        esc_char(s.first()) + escape(s.drop_first())
    }
}

/// The JSON string literal for `s`: quote, escaped text, quote.
pub open spec fn json_str(s: Seq<char>) -> Seq<char> {
    seq!['"'] + escape(s) + seq!['"']
}

/// One object member: `"key":"value"`.
pub open spec fn json_member(p: (Seq<char>, Seq<char>)) -> Seq<char> {
    json_str(p.0) + seq![':'] + json_str(p.1)
}

/// The members of an object, comma-separated.
pub open spec fn json_members(ps: Seq<(Seq<char>, Seq<char>)>) -> Seq<char>
    decreases ps.len(),
{
    if ps.len() == 0 {
        Seq::empty()
    } else if ps.len() == 1 {
        json_member(ps.first())
    } else {
        json_member(ps.first()) + seq![','] + json_members(ps.drop_first())
    }
}

/// The object holding the pairs `ps`, in order.
pub open spec fn json_obj(ps: Seq<(Seq<char>, Seq<char>)>) -> Seq<char> {
    seq!['{'] + json_members(ps) + seq!['}']
}

/// The JSON object a log entry is persisted as, on one line.
pub open spec fn spec_log_json(e: LogEntryV) -> Seq<char> {
    "{\"timestamp\":"@ + json_str(e.timestamp) + ",\"peer_addr\":"@ + json_str(e.peer_addr)
        + ",\"headers\":"@ + json_obj(e.headers) + ",\"body\":"@ + json_str(e.body) + "}"@
}

/// Escaping distributes over concatenation.
pub proof fn lemma_escape_concat(a: Seq<char>, b: Seq<char>)
    ensures
        escape(a + b) == escape(a) + escape(b),
    decreases a.len(),
{
    if a.len() == 0 {
        assert(a + b =~= b);
        assert(escape(a) + escape(b) =~= escape(b));
    } else {
        lemma_escape_concat(a.drop_first(), b);
        assert((a + b).first() == a.first());
        assert((a + b).drop_first() =~= a.drop_first() + b);
        assert(escape(a + b) =~= escape(a) + escape(b));
    }
}

/// Text without special characters escapes to itself.
pub proof fn lemma_escape_plain(s: Seq<char>)
    requires
        forall|j: int| 0 <= j < s.len() ==> !is_json_special(#[trigger] s[j]),
    ensures
        escape(s) == s,
    decreases s.len(),
{
    if s.len() == 0 {
        assert(escape(s) =~= s);
    } else {
        assert(!is_json_special(s[0]));
        assert(esc_char(s.first()) =~= seq![s.first()]);
        lemma_escape_plain(s.drop_first());
        assert(escape(s) =~= s);
    }
}

/// Escaped text holds no control characters: every character of it has a
/// code of at least 32.
pub proof fn lemma_escape_printable(s: Seq<char>)
    ensures
        forall|j: int| 0 <= j < escape(s).len() ==> (#[trigger] escape(s)[j] as u32) >= 32,
    decreases s.len(),
{
    if s.len() > 0 {
        lemma_escape_printable(s.drop_first());
        let e = esc_char(s.first());
        assert(forall|j: int| 0 <= j < e.len() ==> (#[trigger] e[j] as u32) >= 32);
        assert forall|j: int| 0 <= j < escape(s).len() implies (#[trigger] escape(s)[j] as u32)
            >= 32 by {
            if j < e.len() {
                assert(escape(s)[j] == e[j]);
            } else {
                assert(escape(s)[j] == escape(s.drop_first())[j - e.len()]);
            }
        }
    }
}

/// Appending one more pair appends one more member.
pub proof fn lemma_json_members_snoc(ps: Seq<(Seq<char>, Seq<char>)>, p: (Seq<char>, Seq<char>))
    requires
        ps.len() >= 1,
    ensures
        json_members(ps.push(p)) == json_members(ps) + seq![','] + json_member(p),
    decreases ps.len(),
{
    if ps.len() == 1 {
        assert(ps.push(p).first() == ps.first());
        assert(ps.push(p).drop_first() =~= seq![p]);
        assert(json_members(seq![p]) == json_member(p));
        assert(json_members(ps.push(p)) =~= json_members(ps) + seq![','] + json_member(p));
    } else {
        lemma_json_members_snoc(ps.drop_first(), p);
        assert(ps.push(p).first() == ps.first());
        assert(ps.push(p).drop_first() =~= ps.drop_first().push(p));
        assert(json_members(ps.push(p)) =~= json_members(ps) + seq![','] + json_member(p));
    }
}

/// The single hexadecimal digit `d` as a string slice.
fn hex_digit_str(d: u32) -> (r: &'static str)
    requires
        d < 16,
    ensures
        r@ =~= seq![hex_digit(d as nat)],
{
    if d == 0 {
        proof {
            reveal_strlit("0");
        }
        "0"
    } else if d == 1 {
        proof {
            reveal_strlit("1");
        }
        "1"
    } else if d == 2 {
        proof {
            reveal_strlit("2");
        }
        "2"
    } else if d == 3 {
        proof {
            reveal_strlit("3");
        }
        "3"
    } else if d == 4 {
        proof {
            reveal_strlit("4");
        }
        "4"
    } else if d == 5 {
        proof {
            reveal_strlit("5");
        }
        "5"
    } else if d == 6 {
        proof {
            reveal_strlit("6");
        }
        "6"
    } else if d == 7 {
        proof {
            reveal_strlit("7");
        }
        "7"
    } else if d == 8 {
        proof {
            reveal_strlit("8");
        }
        "8"
    } else if d == 9 {
        proof {
            reveal_strlit("9");
        }
        "9"
    } else if d == 10 {
        proof {
            reveal_strlit("a");
        }
        "a"
    } else if d == 11 {
        proof {
            reveal_strlit("b");
        }
        "b"
    } else if d == 12 {
        proof {
            reveal_strlit("c");
        }
        "c"
    } else if d == 13 {
        proof {
            reveal_strlit("d");
        }
        "d"
    } else if d == 14 {
        proof {
            reveal_strlit("e");
        }
        "e"
    } else {
        proof {
            reveal_strlit("f");
        }
        "f"
    }
}

/// Appends the JSON escaping of `s` to `out`.
fn append_escaped(out: &mut String, s: &str)
    ensures
        final(out)@ == old(out)@ + escape(s@),
{
    let ghost base = out@;
    let n = s.unicode_len();
    let mut start: usize = 0;
    let mut i: usize = 0;
    proof {
        assert(escape(s@.take(0)) =~= Seq::<char>::empty());
        assert(out@ =~= base + escape(s@.take(0)));
    }
    while i < n
        invariant
            n == s@.len(),
            0 <= start <= i <= n,
            forall|j: int| start <= j < i ==> !is_json_special(#[trigger] s@[j]),
            out@ == base + escape(s@.take(start as int)),
        decreases n - i,
    {
        let c = s.get_char(i);
        if c == '"' || c == '\\' || (c as u32) < 32 {
            let run: &str = s.substring_char(start, i);
            out.append(run);
            if c == '"' {
                out.append("\\\"");
                proof {
                    reveal_strlit("\\\"");
                    assert("\\\""@ =~= seq!['\\', '"']);
                }
            } else if c == '\\' {
                out.append("\\\\");
                proof {
                    reveal_strlit("\\\\");
                    assert("\\\\"@ =~= seq!['\\', '\\']);
                }
            } else if c == '\n' {
                out.append("\\n");
                proof {
                    reveal_strlit("\\n");
                    assert("\\n"@ =~= seq!['\\', 'n']);
                }
            } else if c == '\r' {
                out.append("\\r");
                proof {
                    reveal_strlit("\\r");
                    assert("\\r"@ =~= seq!['\\', 'r']);
                }
            } else if c == '\t' {
                out.append("\\t");
                proof {
                    reveal_strlit("\\t");
                    assert("\\t"@ =~= seq!['\\', 't']);
                }
            } else {
                out.append("\\u00");
                let v: u32 = c as u32;
                out.append(hex_digit_str(v / 16));
                out.append(hex_digit_str(v % 16));
                proof {
                    reveal_strlit("\\u00");
                    assert("\\u00"@ =~= seq!['\\', 'u', '0', '0']);
                }
            }
            proof {
                assert(run@ =~= s@.subrange(start as int, i as int));
                assert(s@.take(i as int) =~= s@.take(start as int) + s@.subrange(
                    start as int,
                    i as int,
                ));
                lemma_escape_concat(s@.take(start as int), s@.subrange(start as int, i as int));
                lemma_escape_plain(s@.subrange(start as int, i as int));
                assert(s@.take(i + 1) =~= s@.take(i as int) + seq![s@[i as int]]);
                lemma_escape_concat(s@.take(i as int), seq![s@[i as int]]);
                assert(escape(seq![s@[i as int]]) =~= esc_char(s@[i as int])) by {
                    reveal_with_fuel(escape, 2);
                }
                assert(out@ =~= base + escape(s@.take(i + 1)));
            }
            start = i + 1;
        }
        i += 1;
    }
    let run: &str = s.substring_char(start, n);
    out.append(run);
    proof {
        assert(run@ =~= s@.subrange(start as int, n as int));
        assert(s@ =~= s@.take(start as int) + s@.subrange(start as int, n as int));
        lemma_escape_concat(s@.take(start as int), s@.subrange(start as int, n as int));
        lemma_escape_plain(s@.subrange(start as int, n as int));
        assert(out@ =~= base + escape(s@));
    }
}

/// Appends the JSON string literal for `s` to `out`.
fn append_json_str(out: &mut String, s: &str)
    ensures
        final(out)@ == old(out)@ + json_str(s@),
{
    out.append("\"");
    append_escaped(out, s);
    out.append("\"");
    proof {
        reveal_strlit("\"");
        assert("\""@ =~= seq!['"']);
        assert(out@ =~= old(out)@ + json_str(s@));
    }
}

/// Appends the JSON object holding the pairs of `m`, in storage order, to `out`.
fn append_json_obj(out: &mut String, m: &StrMap)
    ensures
        final(out)@ == old(out)@ + json_obj(m.pairs()),
{
    let ghost base = out@;
    out.append("{");
    proof {
        reveal_strlit("{");
        assert("{"@ =~= seq!['{']);
        assert(json_members(m.pairs().take(0)) =~= Seq::<char>::empty());
        assert(out@ =~= base + seq!['{'] + json_members(m.pairs().take(0)));
    }
    let n = m.len();
    let mut i: usize = 0;
    while i < n
        invariant
            n == m.pairs().len(),
            0 <= i <= n,
            out@ == base + seq!['{'] + json_members(m.pairs().take(i as int)),
        decreases n - i,
    {
        if i > 0 {
            out.append(",");
            proof {
                reveal_strlit(",");
                assert(","@ =~= seq![',']);
            }
        }
        append_json_str(out, m.key_at(i).as_str());
        out.append(":");
        append_json_str(out, m.val_at(i).as_str());
        proof {
            reveal_strlit(":");
            assert(":"@ =~= seq![':']);
            let ps = m.pairs();
            assert(ps.take(i + 1) =~= ps.take(i as int).push(ps[i as int]));
            if i == 0 {
                assert(ps.take(1).first() == ps[0]);
                assert(json_members(ps.take(1)) == json_member(ps[0]));
            } else {
                lemma_json_members_snoc(ps.take(i as int), ps[i as int]);
            }
            assert(json_member(ps[i as int]) =~= json_str(ps[i as int].0) + seq![':'] + json_str(
                ps[i as int].1,
            ));
            assert(out@ =~= base + seq!['{'] + json_members(ps.take(i + 1)));
        }
        i += 1;
    }
    out.append("}");
    proof {
        reveal_strlit("}");
        assert("}"@ =~= seq!['}']);
        assert(m.pairs().take(n as int) =~= m.pairs());
        assert(out@ =~= base + json_obj(m.pairs()));
    }
}

/// Serializes a log entry as its one-line JSON object, exactly as
/// [`spec_log_json`] describes.
pub fn log_entry_json(e: &LogEntry) -> (r: String)
    ensures
        r@ == spec_log_json(e@),
{
    let mut out: String = "{\"timestamp\":".to_owned();
    append_json_str(&mut out, e.timestamp.as_str());
    out.append(",\"peer_addr\":");
    append_json_str(&mut out, e.peer_addr.as_str());
    out.append(",\"headers\":");
    append_json_obj(&mut out, &e.headers);
    out.append(",\"body\":");
    append_json_str(&mut out, e.body.as_str());
    out.append("}");
    proof {
        assert(out@ =~= spec_log_json(e@));
    }
    out
}

/// Scans a JSON string body, after its opening quote: the decoded text and
/// what follows the closing quote.  Strict to the canonical form the
/// serializer emits: short escapes and `\u00` escapes of control characters.
pub open spec fn scan_string(s: Seq<char>) -> Option<(Seq<char>, Seq<char>)>
    decreases s.len(),
{
    if s.len() == 0 {
        None
    } else if s.first() == '"' {
        Some((Seq::empty(), s.drop_first()))
    } else if s.first() == '\\' {
        if s.len() < 2 {
            None
        } else if s[1] == '"' || s[1] == '\\' {
            match scan_string(s.skip(2)) {
                None => None,
                Some(p) => Some((seq![s[1]] + p.0, p.1)),
            }
        } else if s[1] == 'n' {
            match scan_string(s.skip(2)) {
                None => None,
                Some(p) => Some((seq!['\n'] + p.0, p.1)),
            }
        } else if s[1] == 'r' {
            match scan_string(s.skip(2)) {
                None => None,
                Some(p) => Some((seq!['\r'] + p.0, p.1)),
            }
        } else if s[1] == 't' {
            match scan_string(s.skip(2)) {
                None => None,
                Some(p) => Some((seq!['\t'] + p.0, p.1)),
            }
        } else if s[1] == 'u' {
            if s.len() < 6 {
                None
            } else if s[2] == '0' && s[3] == '0' && is_hex(s[4]) && is_hex(s[5]) && hex_val(s[4])
                * 16 + hex_val(s[5]) < 32 {
                match scan_string(s.skip(6)) {
                    None => None,
                    Some(p) => Some(
                        (seq![((hex_val(s[4]) * 16 + hex_val(s[5])) as u32) as char] + p.0, p.1),
                    ),
                }
            } else {
                None
            }
        } else {
            None
        }
    } else {
        match scan_string(s.drop_first()) {
            None => None,
            Some(p) => Some((seq![s.first()] + p.0, p.1)),
        }
    }
}

/// Scans the members of an object, after its opening brace, collecting the
/// pairs onto `acc`; yields the pairs and what follows the closing brace.
pub open spec fn scan_members(
    s: Seq<char>,
    acc: Seq<(Seq<char>, Seq<char>)>,
) -> Option<(Seq<(Seq<char>, Seq<char>)>, Seq<char>)>
    decreases s.len(),
{
    if s.len() == 0 {
        None
    } else if s.first() == '}' && acc.len() == 0 {
        Some((acc, s.drop_first()))
    } else if s.first() == '"' {
        match scan_string(s.drop_first()) {
            None => None,
            Some(kp) => if kp.1.len() >= 2 && kp.1[0] == ':' && kp.1[1] == '"' {
                match scan_string(kp.1.skip(2)) {
                    None => None,
                    Some(vp) => if vp.1.len() >= 1 && vp.1[0] == ',' {
                        if vp.1.drop_first().len() < s.len() {
                            scan_members(vp.1.drop_first(), acc.push((kp.0, vp.0)))
                        } else {
                            None
                        }
                    } else if vp.1.len() >= 1 && vp.1[0] == '}' {
                        Some((acc.push((kp.0, vp.0)), vp.1.drop_first()))
                    } else {
                        None
                    },
                }
            } else {
                None
            },
        }
    } else {
        None
    }
}

/// Consumes an expected prefix.
pub open spec fn eat(prefix: Seq<char>, s: Seq<char>) -> Option<Seq<char>> {
    if prefix.len() <= s.len() && s.take(prefix.len() as int) == prefix {
        Some(s.skip(prefix.len() as int))
    } else {
        None
    }
}

/// Scans a whole log line back into its fields: the strict inverse of
/// [`spec_log_json`].
pub open spec fn spec_parse_log(s: Seq<char>) -> Option<LogEntryV> {
    match eat("{\"timestamp\":\""@, s) {
        None => None,
        Some(s1) => match scan_string(s1) {
            None => None,
            Some(ts) => match eat(",\"peer_addr\":\""@, ts.1) {
                None => None,
                Some(s2) => match scan_string(s2) {
                    None => None,
                    Some(pa) => match eat(",\"headers\":{"@, pa.1) {
                        None => None,
                        Some(s3) => match scan_members(s3, Seq::empty()) {
                            None => None,
                            Some(hs) => match eat(",\"body\":\""@, hs.1) {
                                None => None,
                                Some(s4) => match scan_string(s4) {
                                    None => None,
                                    Some(b) => if b.1 == "}"@ {
                                        Some(
                                            LogEntryV {
                                                timestamp: ts.0,
                                                peer_addr: pa.0,
                                                headers: hs.0,
                                                body: b.0,
                                            },
                                        )
                                    } else {
                                        None
                                    },
                                },
                            },
                        },
                    },
                },
            },
        },
    }
}

/// Encoding and decoding a hexadecimal digit round-trips.
pub proof fn lemma_hex_roundtrip(d: nat)
    requires
        d < 16,
    ensures
        is_hex(hex_digit(d)),
        hex_val(hex_digit(d)) == d,
{
}

/// Scanning what escaping emitted yields the original text and leaves the
/// trailing text untouched.
pub proof fn lemma_scan_escape(s: Seq<char>, rest: Seq<char>)
    ensures
        scan_string(escape(s) + seq!['"'] + rest) == Some((s, rest)),
    decreases s.len(),
{
    let t = escape(s) + seq!['"'] + rest;
    if s.len() == 0 {
        assert(t =~= seq!['"'] + rest);
        assert(t.first() == '"');
        assert(t.drop_first() =~= rest);
        assert(s =~= Seq::<char>::empty());
    } else {
        lemma_scan_escape(s.drop_first(), rest);
        let c = s.first();
        let e = esc_char(c);
        let t2 = escape(s.drop_first()) + seq!['"'] + rest;
        assert(escape(s) == e + escape(s.drop_first()));
        assert(t =~= e + t2);
        if c == '"' || c == '\\' {
            assert(t[0] == '\\');
            assert(t[1] == c);
            assert(t.len() >= 2);
            assert(t.skip(2) =~= t2);
            assert(seq![c] + s.drop_first() =~= s);
        } else if c == '\n' {
            assert(t[0] == '\\' && t[1] == 'n');
            assert(t.skip(2) =~= t2);
            assert(seq!['\n'] + s.drop_first() =~= s);
        } else if c == '\r' {
            assert(t[0] == '\\' && t[1] == 'r');
            assert(t.skip(2) =~= t2);
            assert(seq!['\r'] + s.drop_first() =~= s);
        } else if c == '\t' {
            assert(t[0] == '\\' && t[1] == 't');
            assert(t.skip(2) =~= t2);
            assert(seq!['\t'] + s.drop_first() =~= s);
        } else if (c as u32) < 32 {
            let v = c as u32;
            assert(e == seq!['\\', 'u', '0', '0', hex_digit((v / 16) as nat), hex_digit(
                (v % 16) as nat,
            )]);
            assert(t.len() >= 6);
            assert(t[0] == '\\' && t[1] == 'u' && t[2] == '0' && t[3] == '0');
            assert(t[4] == hex_digit((v / 16) as nat));
            assert(t[5] == hex_digit((v % 16) as nat));
            lemma_hex_roundtrip((v / 16) as nat);
            lemma_hex_roundtrip((v % 16) as nat);
            assert(hex_val(t[4]) * 16 + hex_val(t[5]) == v);
            assert(t.skip(6) =~= t2);
            char_u32_cast(c, v);
            assert(((hex_val(t[4]) * 16 + hex_val(t[5])) as u32) as char == c);
            assert(seq![c] + s.drop_first() =~= s);
        } else {
            assert(e == seq![c]);
            assert(t.first() == c);
            assert(c != '"' && c != '\\');
            assert(t.drop_first() =~= t2);
            assert(seq![c] + s.drop_first() =~= s);
        }
    }
}

/// Scanning what the member writer emitted yields the pairs and leaves the
/// trailing text untouched.
pub proof fn lemma_scan_members(
    ps: Seq<(Seq<char>, Seq<char>)>,
    acc: Seq<(Seq<char>, Seq<char>)>,
    rest: Seq<char>,
)
    requires
        ps.len() >= 1,
    ensures
        scan_members(json_members(ps) + seq!['}'] + rest, acc) == Some((acc + ps, rest)),
    decreases ps.len(),
{
    let p0 = ps.first();
    let t = json_members(ps) + seq!['}'] + rest;
    if ps.len() == 1 {
        let after_k = seq![':'] + json_str(p0.1) + seq!['}'] + rest;
        let after_v = seq!['}'] + rest;
        assert(json_members(ps) == json_member(p0));
        assert(t[0] == '"');
        assert(t.first() != '}');
        assert(t.drop_first() =~= escape(p0.0) + seq!['"'] + after_k);
        lemma_scan_escape(p0.0, after_k);
        assert(after_k.len() >= 2);
        assert(after_k[0] == ':');
        assert(after_k[1] == '"');
        assert(after_k.skip(2) =~= escape(p0.1) + seq!['"'] + after_v);
        lemma_scan_escape(p0.1, after_v);
        assert(after_v[0] == '}');
        assert(after_v.drop_first() =~= rest);
        assert(acc.push(p0) =~= acc + ps);
    } else {
        let tail = seq![','] + json_members(ps.drop_first()) + seq!['}'] + rest;
        let after_k = seq![':'] + json_str(p0.1) + tail;
        assert(json_members(ps) == json_member(p0) + seq![','] + json_members(ps.drop_first()));
        assert(t[0] == '"');
        assert(t.first() != '}');
        assert(t.drop_first() =~= escape(p0.0) + seq!['"'] + after_k);
        lemma_scan_escape(p0.0, after_k);
        assert(after_k.len() >= 2);
        assert(after_k[0] == ':');
        assert(after_k[1] == '"');
        assert(after_k.skip(2) =~= escape(p0.1) + seq!['"'] + tail);
        lemma_scan_escape(p0.1, tail);
        assert(tail[0] == ',');
        let next = json_members(ps.drop_first()) + seq!['}'] + rest;
        assert(tail.drop_first() =~= next);
        assert(next.len() < t.len());
        lemma_scan_members(ps.drop_first(), acc.push(p0), rest);
        assert(acc.push(p0) + ps.drop_first() =~= acc + ps);
    }
}

/// Scanning a serialized log entry yields its fields unchanged: the log
/// line determines the record.
#[verifier::rlimit(100)]
pub proof fn lemma_parse_log_roundtrip(e: LogEntryV)
    ensures
        spec_parse_log(spec_log_json(e)) == Some(e),
{
    reveal_strlit("{\"timestamp\":");
    reveal_strlit("{\"timestamp\":\"");
    reveal_strlit(",\"peer_addr\":");
    reveal_strlit(",\"peer_addr\":\"");
    reveal_strlit(",\"headers\":");
    reveal_strlit(",\"headers\":{");
    reveal_strlit(",\"body\":");
    reveal_strlit(",\"body\":\"");
    reveal_strlit("}");
    let l = spec_log_json(e);
    let p1 = "{\"timestamp\":\""@;
    let r1 = ",\"peer_addr\":"@ + json_str(e.peer_addr) + ",\"headers\":"@ + json_obj(e.headers)
        + ",\"body\":"@ + json_str(e.body) + "}"@;
    assert(l =~= p1 + (escape(e.timestamp) + seq!['"'] + r1));
    assert(l.take(p1.len() as int) =~= p1);
    assert(l.skip(p1.len() as int) =~= escape(e.timestamp) + seq!['"'] + r1);
    lemma_scan_escape(e.timestamp, r1);
    let p2 = ",\"peer_addr\":\""@;
    let r2 = ",\"headers\":"@ + json_obj(e.headers) + ",\"body\":"@ + json_str(e.body) + "}"@;
    assert(r1 =~= p2 + (escape(e.peer_addr) + seq!['"'] + r2));
    assert(r1.take(p2.len() as int) =~= p2);
    assert(r1.skip(p2.len() as int) =~= escape(e.peer_addr) + seq!['"'] + r2);
    lemma_scan_escape(e.peer_addr, r2);
    let p3 = ",\"headers\":{"@;
    let r3 = ",\"body\":"@ + json_str(e.body) + "}"@;
    assert(r2 =~= p3 + (json_members(e.headers) + seq!['}'] + r3));
    assert(r2.take(p3.len() as int) =~= p3);
    assert(r2.skip(p3.len() as int) =~= json_members(e.headers) + seq!['}'] + r3);
    if e.headers.len() == 0 {
        let s3 = json_members(e.headers) + seq!['}'] + r3;
        assert(s3 =~= seq!['}'] + r3);
        assert(s3.first() == '}');
        assert(s3.drop_first() =~= r3);
        assert(scan_members(s3, Seq::empty()) == Some((Seq::<(Seq<char>, Seq<char>)>::empty(), r3)));
        assert(Seq::<(Seq<char>, Seq<char>)>::empty() =~= e.headers);
    } else {
        lemma_scan_members(e.headers, Seq::empty(), r3);
        assert(Seq::<(Seq<char>, Seq<char>)>::empty() + e.headers =~= e.headers);
    }
    let p4 = ",\"body\":\""@;
    let r4 = "}"@;
    assert(r3 =~= p4 + (escape(e.body) + seq!['"'] + r4));
    assert(r3.take(p4.len() as int) =~= p4);
    assert(r3.skip(p4.len() as int) =~= escape(e.body) + seq!['"'] + r4);
    lemma_scan_escape(e.body, r4);
}

/// The serialized form is injective: equal lines come from equal records.
pub proof fn lemma_log_json_injective(e1: LogEntryV, e2: LogEntryV)
    requires
        spec_log_json(e1) == spec_log_json(e2),
    ensures
        e1 == e2,
{
    lemma_parse_log_roundtrip(e1);
    lemma_parse_log_roundtrip(e2);
}

/// Text whose characters all have codes of at least 32: one line, no
/// control characters.
pub open spec fn all_printable(s: Seq<char>) -> bool {
    forall|j: int| 0 <= j < s.len() ==> (#[trigger] s[j] as u32) >= 32
}

proof fn lemma_printable_concat(a: Seq<char>, b: Seq<char>)
    requires
        all_printable(a),
        all_printable(b),
    ensures
        all_printable(a + b),
{
    assert forall|j: int| 0 <= j < (a + b).len() implies (#[trigger] (a + b)[j] as u32) >= 32 by {
        if j < a.len() {
            assert((a + b)[j] == a[j]);
        } else {
            assert((a + b)[j] == b[j - a.len()]);
        }
    }
}

proof fn lemma_json_str_printable(s: Seq<char>)
    ensures
        all_printable(json_str(s)),
{
    lemma_escape_printable(s);
    lemma_printable_concat(seq!['"'], escape(s));
    lemma_printable_concat(seq!['"'] + escape(s), seq!['"']);
}

proof fn lemma_json_members_printable(ps: Seq<(Seq<char>, Seq<char>)>)
    ensures
        all_printable(json_members(ps)),
    decreases ps.len(),
{
    if ps.len() == 0 {
    } else if ps.len() == 1 {
        lemma_json_str_printable(ps.first().0);
        lemma_json_str_printable(ps.first().1);
        lemma_printable_concat(json_str(ps.first().0), seq![':']);
        lemma_printable_concat(json_str(ps.first().0) + seq![':'], json_str(ps.first().1));
    } else {
        lemma_json_members_printable(ps.drop_first());
        lemma_json_str_printable(ps.first().0);
        lemma_json_str_printable(ps.first().1);
        lemma_printable_concat(json_str(ps.first().0), seq![':']);
        lemma_printable_concat(json_str(ps.first().0) + seq![':'], json_str(ps.first().1));
        lemma_printable_concat(json_member(ps.first()), seq![',']);
        lemma_printable_concat(json_member(ps.first()) + seq![','], json_members(ps.drop_first()));
    }
}

/// A serialized log record holds no control character: in particular it
/// spans exactly one line, whatever the request held.
pub proof fn lemma_log_json_printable(e: LogEntryV)
    ensures
        all_printable(spec_log_json(e)),
        forall|j: int| 0 <= j < spec_log_json(e).len() ==> (#[trigger] spec_log_json(e)[j]) != '\n',
{
    reveal_strlit("{\"timestamp\":");
    reveal_strlit(",\"peer_addr\":");
    reveal_strlit(",\"headers\":");
    reveal_strlit(",\"body\":");
    reveal_strlit("}");
    assert(all_printable("{\"timestamp\":"@));
    assert(all_printable(",\"peer_addr\":"@));
    assert(all_printable(",\"headers\":"@));
    assert(all_printable(",\"body\":"@));
    assert(all_printable("}"@));
    lemma_json_str_printable(e.timestamp);
    lemma_json_str_printable(e.peer_addr);
    lemma_json_str_printable(e.body);
    lemma_json_members_printable(e.headers);
    lemma_printable_concat(seq!['{'], json_members(e.headers));
    lemma_printable_concat(seq!['{'] + json_members(e.headers), seq!['}']);
    let a1 = "{\"timestamp\":"@ + json_str(e.timestamp);
    lemma_printable_concat("{\"timestamp\":"@, json_str(e.timestamp));
    let a2 = a1 + ",\"peer_addr\":"@;
    lemma_printable_concat(a1, ",\"peer_addr\":"@);
    let a3 = a2 + json_str(e.peer_addr);
    lemma_printable_concat(a2, json_str(e.peer_addr));
    let a4 = a3 + ",\"headers\":"@;
    lemma_printable_concat(a3, ",\"headers\":"@);
    let a5 = a4 + json_obj(e.headers);
    lemma_printable_concat(a4, json_obj(e.headers));
    let a6 = a5 + ",\"body\":"@;
    lemma_printable_concat(a5, ",\"body\":"@);
    let a7 = a6 + json_str(e.body);
    lemma_printable_concat(a6, json_str(e.body));
    lemma_printable_concat(a7, "}"@);
    assert forall|j: int| 0 <= j < spec_log_json(e).len() implies (#[trigger] spec_log_json(
        e,
    )[j]) != '\n' by {
        assert((spec_log_json(e)[j] as u32) >= 32);
        assert(('\n' as u32) < 32);
    }
}

} // verus!
