//! The request parser: raw request text to headers, body and query
//! parameters, or a parse failure with a description.
//!
//! The wire format is a request line `METHOD TARGET[?QUERY] VERSION`, then
//! header lines `Key: Value` up to the first empty line, then the body
//! verbatim.  Query pairs split at `&` and `=`; pairs without `=` are
//! discarded; repeated keys resolve last-write-wins.  A request line with
//! fewer than two tokens, or a header line without a `": "` separator, is a
//! parse failure.

use vstd::prelude::*;

use crate::error::AppError;
use crate::strmap::StrMap;
use crate::strmap::insert_pair;
use crate::strmap::find_key;
use crate::text::chop_cr;
use crate::text::find_ch;
use crate::text::is_ws;
use crate::text::lemma_spec_lines_step;
use crate::text::lemma_spec_lines_tail;
use crate::text::lemma_spec_tokens_word;
use crate::text::find_sub2;
use crate::text::join_crlf;
use crate::text::lemma_find_ch_none;
use crate::text::lemma_find_ch_some;
use crate::text::lemma_find_sub2_none;
use crate::text::lemma_find_sub2_some;
use crate::text::join_from;
use crate::text::spec_lines;
use crate::text::spec_tokens;
use crate::text::split_ch;
use crate::text::split_lines;
use crate::text::ws_tokens;

verus! {

/// What a well-formed request parses to.
pub struct ParsedV {
    pub headers: Seq<(Seq<char>, Seq<char>)>,
    pub body: Seq<char>,
    pub query: Seq<(Seq<char>, Seq<char>)>,
}

/// Folds the `&`-separated pieces of a query string into key/value pairs:
/// a piece with an `=` splits at its first one, a piece without is discarded.
pub open spec fn fold_query(
    pieces: Seq<Seq<char>>,
    acc: Seq<(Seq<char>, Seq<char>)>,
) -> Seq<(Seq<char>, Seq<char>)>
    decreases pieces.len(),
{
    if pieces.len() == 0 {
        acc
    } else {
        let p = pieces.first();
        let acc2 = match find_ch(p, '=') {
            None => acc,
            Some(e) => insert_pair(acc, p.take(e), p.skip(e + 1)),
        };
        fold_query(pieces.drop_first(), acc2)
    }
}

/// The query pairs of a request target: empty without a `?`, otherwise the
/// fold of the text after the first `?` split at `&`.
pub open spec fn spec_query(target: Seq<char>) -> Seq<(Seq<char>, Seq<char>)> {
    match find_ch(target, '?') {
        None => Seq::empty(),
        Some(q) => fold_query(split_ch(target.skip(q + 1), '&'), Seq::empty()),
    }
}

/// Folds the lines after the request line: header lines up to the first
/// empty line, then the remaining lines rejoined as the body.  A header line
/// without a `": "` separator is the failure, carried as the offending line.
pub open spec fn fold_headers(
    rest: Seq<Seq<char>>,
    acc: Seq<(Seq<char>, Seq<char>)>,
) -> Result<(Seq<(Seq<char>, Seq<char>)>, Seq<char>), Seq<char>>
    decreases rest.len(),
{
    if rest.len() == 0 {
        Ok((acc, Seq::empty()))
    } else if rest.first().len() == 0 {
        Ok((acc, join_crlf(rest.drop_first())))
    } else {
        match find_sub2(rest.first(), ':', ' ') {
            None => Err(rest.first()),
            Some(e) => fold_headers(
                rest.drop_first(),
                insert_pair(acc, rest.first().take(e), rest.first().skip(e + 2)),
            ),
        }
    }
}

/// What parsing yields on any request text: empty text parses to an empty
/// result; otherwise the first line must carry at least two whitespace
/// tokens (the second is the target), and the remaining lines fold into
/// headers and body.
pub open spec fn spec_parse(s: Seq<char>) -> Result<ParsedV, Seq<char>> {
    let lines = spec_lines(s);
    if lines.len() == 0 {
        Ok(ParsedV { headers: Seq::empty(), body: Seq::empty(), query: Seq::empty() })
    } else {
        let toks = spec_tokens(lines.first());
        if toks.len() < 2 {
            Err("Invalid request line"@)
        } else {
            match fold_headers(lines.drop_first(), Seq::empty()) {
                Ok(hb) => Ok(ParsedV { headers: hb.0, body: hb.1, query: spec_query(toks[1]) }),
                Err(line) => Err("Invalid header format: "@ + line),
            }
        }
    }
}

/// Finds the first occurrence of `c` in `s`, as [`find_ch`] describes.
fn find_char(s: &str, c: char) -> (r: Option<usize>)
    ensures
        match r {
            Some(i) => i < s@.len() && s@[i as int] == c && find_ch(s@, c) == Some(i as int),
            None => find_ch(s@, c) is None,
        },
{
    let n = s.unicode_len();
    let mut i: usize = 0;
    while i < n
        invariant
            n == s@.len(),
            0 <= i <= n,
            forall|j: int| 0 <= j < i ==> s@[j] != c,
        decreases n - i,
    {
        if s.get_char(i) == c {
            proof {
                lemma_find_ch_some(s@, c, i as int);
            }
            return Some(i);
        }
        i += 1;
    }
    proof {
        lemma_find_ch_none(s@, c);
    }
    None
}

/// Finds the first `": "` separator of a header line, as [`find_sub2`] describes.
fn find_header_sep(line: &str) -> (r: Option<usize>)
    ensures
        match r {
            Some(i) => i + 2 <= line@.len() && find_sub2(line@, ':', ' ') == Some(i as int),
            None => find_sub2(line@, ':', ' ') is None,
        },
{
    let n = line.unicode_len();
    if n < 2 {
        proof {
            lemma_find_sub2_none(line@, ':', ' ');
        }
        return None;
    }
    let mut i: usize = 0;
    while i + 1 < n
        invariant
            n == line@.len(),
            n >= 2,
            0 <= i <= n - 1,
            forall|j: int| 0 <= j < i ==> !(#[trigger] line@[j] == ':' && line@[j + 1] == ' '),
        decreases n - i,
    {
        if line.get_char(i) == ':' && line.get_char(i + 1) == ' ' {
            proof {
                lemma_find_sub2_some(line@, ':', ' ', i as int);
            }
            return Some(i);
        }
        i += 1;
    }
    proof {
        lemma_find_sub2_none(line@, ':', ' ');
    }
    None
}

/// Splits `s` at every occurrence of `c`, keeping empty pieces, as
/// [`split_ch`] describes.
fn split_plain(s: &str, c: char) -> (r: Vec<String>)
    ensures
        r.deep_view() == split_ch(s@, c),
{
    let n = s.unicode_len();
    let mut out: Vec<String> = Vec::new();
    let mut start: usize = 0;
    let mut i: usize = 0;
    proof {
        assert(s@.skip(0) =~= s@);
    }
    while i < n
        invariant
            n == s@.len(),
            0 <= start <= i <= n,
            forall|j: int| start <= j < i ==> s@[j] != c,
            split_ch(s@, c) =~= out.deep_view() + split_ch(s@.skip(start as int), c),
        decreases n - i,
    {
        if s.get_char(i) == c {
            let piece: &str = s.substring_char(start, i);
            proof {
                let rem = s@.skip(start as int);
                let rel = i - start;
                assert forall|j: int| 0 <= j < rel implies rem[j] != c by {
                    assert(rem[j] == s@[start + j]);
                }
                assert(rem[rel] == c);
                lemma_find_ch_some(rem, c, rel);
                assert(rem.take(rel) =~= s@.subrange(start as int, i as int));
                assert(rem.skip(rel + 1) =~= s@.skip(i + 1));
            }
            let owned: String = piece.to_owned();
            out.push(owned);
            proof {
                assert(out.deep_view() =~= out.deep_view().drop_last().push(piece@));
                assert(split_ch(s@, c) =~= out.deep_view() + split_ch(s@.skip(i + 1), c));
            }
            start = i + 1;
        }
        i += 1;
    }
    proof {
        let rem = s@.skip(start as int);
        assert forall|j: int| 0 <= j < rem.len() implies rem[j] != c by {
            assert(rem[j] == s@[start + j]);
        }
        lemma_find_ch_none(rem, c);
        assert(split_ch(rem, c) =~= seq![rem]);
    }
    let piece: &str = s.substring_char(start, n);
    proof {
        assert(piece@ =~= s@.skip(start as int));
    }
    let owned: String = piece.to_owned();
    out.push(owned);
    proof {
        assert(out.deep_view() =~= out.deep_view().drop_last().push(piece@));
        assert(out.deep_view() =~= split_ch(s@, c));
    }
    out
}

/// Extracts the query parameters of a request target, as [`spec_query`]
/// describes.
fn parse_query(target: &str) -> (q: StrMap)
    ensures
        q.wf(),
        q.pairs() == spec_query(target@),
{
    let found = find_char(target, '?');
    match found {
        None => StrMap::new(),
        Some(p) => {
            let n = target.unicode_len();
            let qs: &str = target.substring_char(p + 1, n);
            proof {
                assert(qs@ =~= target@.skip(p + 1));
            }
            let pieces = split_plain(qs, '&');
            let ghost piecesV = split_ch(target@.skip(p + 1), '&');
            let mut q = StrMap::new();
            let m = pieces.len();
            let mut i: usize = 0;
            proof {
                assert(piecesV.skip(0) =~= piecesV);
            }
            while i < m
                invariant
                    m == pieces.len(),
                    0 <= i <= m,
                    pieces.deep_view() == piecesV,
                    q.wf(),
                    fold_query(piecesV, Seq::empty()) == fold_query(
                        piecesV.skip(i as int),
                        q.pairs(),
                    ),
                decreases m - i,
            {
                let piece: &str = pieces[i].as_str();
                proof {
                    assert(piece@ == piecesV[i as int]);
                    assert(piecesV.skip(i as int).first() == piecesV[i as int]);
                    assert(piecesV.skip(i as int).drop_first() =~= piecesV.skip(i + 1));
                }
                let eq_pos = find_char(piece, '=');
                match eq_pos {
                    None => {},
                    Some(e) => {
                        let len = piece.unicode_len();
                        let key: String = piece.substring_char(0, e).to_owned();
                        let val: String = piece.substring_char(e + 1, len).to_owned();
                        proof {
                            assert(key@ =~= piece@.take(e as int));
                            assert(val@ =~= piece@.skip(e + 1));
                        }
                        q.insert(key, val);
                    },
                }
                i += 1;
            }
            proof {
                assert(piecesV.skip(m as int).len() == 0);
            }
            q
        },
    }
}

/// Parses raw request text into its header map, body and query-parameter
/// map, exactly as [`spec_parse`] describes; a malformed request line or
/// header line yields a `ParseError` carrying the description that
/// [`spec_parse`] gives.
pub fn parse_request(request: &str) -> (r: Result<(StrMap, String, StrMap), AppError>)
    ensures
        ({
            let sp = spec_parse(request@);
            match r {
                Ok(t) => sp matches Ok(p) && t.0.wf() && t.0.pairs() == p.headers && t.1@ == p.body
                    && t.2.wf() && t.2.pairs() == p.query,
                Err(e) => sp matches Err(m) && (match e {
                    AppError::ParseError(d) => d@ == m,
                    _ => false,
                }),
            }
        }),
{
    let lines = split_lines(request);
    let ghost linesV = spec_lines(request@);
    if lines.len() == 0 {
        let hs = StrMap::new();
        let qs = StrMap::new();
        return Ok((hs, String::new(), qs));
    }
    let toks = ws_tokens(lines[0].as_str());
    proof {
        assert(lines.deep_view()[0] == linesV.first());
        assert(toks.deep_view() == spec_tokens(linesV.first()));
    }
    if toks.len() < 2 {
        return Err(AppError::ParseError("Invalid request line".to_owned()));
    }
    let query = parse_query(toks[1].as_str());
    proof {
        assert(toks[1]@ == spec_tokens(linesV.first())[1]);
    }
    let mut headers = StrMap::new();
    let n = lines.len();
    let mut i: usize = 1;
    proof {
        assert(linesV.skip(1) =~= linesV.drop_first());
    }
    while i < n
        invariant_except_break
            n == lines.len(),
            1 <= i <= n,
            lines.deep_view() == linesV,
            linesV.len() == n,
            headers.wf(),
            fold_headers(linesV.drop_first(), Seq::empty()) == fold_headers(
                linesV.skip(i as int),
                headers.pairs(),
            ),
            query.wf(),
            query.pairs() == spec_query(spec_tokens(linesV.first())[1]),
            spec_tokens(linesV.first()).len() >= 2,
            spec_lines(request@) == linesV,
        ensures
            n == lines.len(),
            1 <= i <= n,
            lines.deep_view() == linesV,
            linesV.len() == n,
            headers.wf(),
            query.wf(),
            query.pairs() == spec_query(spec_tokens(linesV.first())[1]),
            spec_tokens(linesV.first()).len() >= 2,
            spec_lines(request@) == linesV,
            i == n ==> fold_headers(linesV.drop_first(), Seq::empty()) == fold_headers(
                linesV.skip(i as int),
                headers.pairs(),
            ),
            i < n ==> linesV[i as int].len() == 0 && fold_headers(
                linesV.drop_first(),
                Seq::empty(),
            ) == Ok::<_, Seq<char>>((headers.pairs(), join_crlf(linesV.skip(i + 1)))),
        decreases n - i,
    {
        proof {
            assert(linesV.skip(i as int).first() == linesV[i as int]);
            assert(linesV.skip(i as int).drop_first() =~= linesV.skip(i + 1));
        }
        let line: &str = lines[i].as_str();
        if line.is_empty() {
            break ;
        }
        let sep = find_header_sep(line);
        match sep {
            None => {
                let mut msg: String = "Invalid header format: ".to_owned();
                msg.append(line);
                return Err(AppError::ParseError(msg));
            },
            Some(e) => {
                let len = line.unicode_len();
                let key: String = line.substring_char(0, e).to_owned();
                let val: String = line.substring_char(e + 2, len).to_owned();
                proof {
                    assert(key@ =~= linesV[i as int].take(e as int));
                    assert(val@ =~= linesV[i as int].skip(e + 2));
                }
                headers.insert(key, val);
            },
        }
        i += 1;
    }
    let body: String = if i < n {
        join_from(&lines, i + 1)
    } else {
        String::new()
    };
    proof {
        if i < n {
            assert(lines.deep_view().skip(i + 1) == linesV.skip(i + 1));
        } else {
            assert(linesV.skip(i as int).len() == 0);
            assert(fold_headers(linesV.skip(i as int), headers.pairs()) == Ok::<_, Seq<char>>((
                headers.pairs(),
                Seq::<char>::empty(),
            )));
        }
    }
    Ok((headers, body, query))
}

/// The request line of a simple probe-style request: `GET /x?k=v VERSION`.
pub open spec fn simple_request_line(k: Seq<char>, v: Seq<char>) -> Seq<char> {
    "GET /x?"@ + k + "="@ + v + " VERSION"@
}

/// The target of that request line: `/x?k=v`.
pub open spec fn simple_target(k: Seq<char>, v: Seq<char>) -> Seq<char> {
    "GET /x?"@.skip(4) + k + "="@ + v
}

/// One header line: `h: hv`.
pub open spec fn simple_header_line(h: Seq<char>, hv: Seq<char>) -> Seq<char> {
    h + ": "@ + hv
}

/// A whole simple request: request line, one header line, blank line, body.
pub open spec fn simple_request(
    k: Seq<char>,
    v: Seq<char>,
    h: Seq<char>,
    hv: Seq<char>,
    body: Seq<char>,
) -> Seq<char> {
    simple_request_line(k, v) + "\r\n"@ + simple_header_line(h, hv) + "\r\n\r\n"@ + body
}

/// A query key free of the characters that delimit it: whitespace, `=`, `&`.
pub open spec fn plain_query_key(k: Seq<char>) -> bool {
    forall|j: int|
        0 <= j < k.len() ==> !is_ws(#[trigger] k[j]) && k[j] != '=' && k[j] != '&'
}

/// A query value free of whitespace and `&`.
pub open spec fn plain_query_value(v: Seq<char>) -> bool {
    forall|j: int| 0 <= j < v.len() ==> !is_ws(#[trigger] v[j]) && v[j] != '&'
}

/// A header key free of newlines and of the `": "` separator.
pub open spec fn plain_header_key(h: Seq<char>) -> bool {
    &&& forall|j: int| 0 <= j < h.len() ==> (#[trigger] h[j]) != '\n'
    &&& forall|j: int| 0 <= j && j + 1 < h.len() ==> !(#[trigger] h[j] == ':' && h[j + 1] == ' ')
}

/// Text that stays on one line: no newline characters.
pub open spec fn single_line(s: Seq<char>) -> bool {
    forall|j: int| 0 <= j < s.len() ==> (#[trigger] s[j]) != '\n'
}

proof fn lemma_simple_request_lines(
    k: Seq<char>,
    v: Seq<char>,
    h: Seq<char>,
    hv: Seq<char>,
    body: Seq<char>,
)
    requires
        plain_query_key(k),
        plain_query_value(v),
        plain_header_key(h),
        single_line(hv),
        single_line(body),
    ensures
        spec_lines(simple_request(k, v, h, hv, body)) =~= seq![
            simple_request_line(k, v),
            simple_header_line(h, hv),
            Seq::<char>::empty(),
        ] + if body.len() == 0 {
            Seq::<Seq<char>>::empty()
        } else {
            seq![body]
        },
{
    reveal_strlit("GET /x?");
    reveal_strlit("=");
    reveal_strlit(" VERSION");
    reveal_strlit("\r\n");
    reveal_strlit("\r\n\r\n");
    reveal_strlit(": ");
    let l0 = simple_request_line(k, v);
    let l1 = simple_header_line(h, hv);
    let req = simple_request(k, v, h, hv, body);
    assert(is_ws('\n'));
    assert forall|j: int| 0 <= j < l0.len() implies l0[j] != '\n' by {
        let a = "GET /x?"@.len() as int;
        let b = a + k.len();
        let c = b + 1;
        let d = c + v.len();
        if j < a {
            assert(l0[j] == "GET /x?"@[j]);
        } else if j < b {
            assert(l0[j] == k[j - a]);
        } else if j < c {
            assert(l0[j] == "="@[0]);
        } else if j < d {
            assert(l0[j] == v[j - c]);
        } else {
            assert(l0[j] == " VERSION"@[j - d]);
        }
    }
    assert forall|j: int| 0 <= j < l1.len() implies l1[j] != '\n' by {
        if j < h.len() {
            assert(l1[j] == h[j]);
        } else if j < h.len() + 2 {
            assert(l1[j] == ": "@[j - h.len()]);
        } else {
            assert(l1[j] == hv[j - h.len() - 2]);
        }
    }
    let i0 = l0.len() as int;
    assert(req[i0] == '\r');
    assert(req[i0 + 1] == '\n');
    assert forall|j: int| 0 <= j < i0 + 1 implies req[j] != '\n' by {
        if j < i0 {
            assert(req[j] == l0[j]);
        }
    }
    lemma_spec_lines_step(req, i0 + 1);
    assert(req.take(i0 + 1) =~= l0 + seq!['\r']);
    assert(chop_cr(req.take(i0 + 1)) =~= l0);
    let rest1 = req.skip(i0 + 2);
    assert(rest1 =~= l1 + "\r\n\r\n"@ + body);
    let i1 = l1.len() as int;
    assert(rest1[i1] == '\r');
    assert(rest1[i1 + 1] == '\n');
    assert forall|j: int| 0 <= j < i1 + 1 implies rest1[j] != '\n' by {
        if j < i1 {
            assert(rest1[j] == l1[j]);
        }
    }
    lemma_spec_lines_step(rest1, i1 + 1);
    assert(rest1.take(i1 + 1) =~= l1 + seq!['\r']);
    assert(chop_cr(rest1.take(i1 + 1)) =~= l1);
    let rest2 = rest1.skip(i1 + 2);
    assert(rest2 =~= seq!['\r', '\n'] + body);
    assert(rest2[0] == '\r');
    assert(rest2[1] == '\n');
    lemma_spec_lines_step(rest2, 1);
    assert(rest2.take(1) =~= seq!['\r']);
    assert(chop_cr(rest2.take(1)) =~= Seq::<char>::empty());
    let rest3 = rest2.skip(2);
    assert(rest3 =~= body);
    lemma_spec_lines_tail(rest3);
    assert(req.skip(i0 + 1 + 1) == rest1);
}

proof fn lemma_simple_request_tokens(k: Seq<char>, v: Seq<char>)
    requires
        plain_query_key(k),
        plain_query_value(v),
    ensures
        spec_tokens(simple_request_line(k, v)).len() >= 2,
        spec_tokens(simple_request_line(k, v))[1] == simple_target(k, v),
{
    reveal_strlit("GET /x?");
    reveal_strlit("=");
    reveal_strlit(" VERSION");
    let l0 = simple_request_line(k, v);
    let target = simple_target(k, v);
    assert forall|j: int| 0 <= j < 3 implies !is_ws(l0[j]) by {
        assert(l0[j] == "GET /x?"@[j]);
    }
    assert(l0[3] == ' ');
    assert(is_ws(' '));
    lemma_spec_tokens_word(l0, 3);
    let s1 = l0.skip(3);
    assert(s1[0] == ' ');
    assert(spec_tokens(s1) == spec_tokens(s1.drop_first()));
    assert(s1.drop_first() =~= l0.skip(4));
    let s2 = l0.skip(4);
    assert(s2 =~= target + " VERSION"@);
    let tl = target.len() as int;
    assert(tl == 3 + k.len() + 1 + v.len());
    assert forall|j: int| 0 <= j < tl implies !is_ws(s2[j]) by {
        if j < 3 {
            assert(s2[j] == "GET /x?"@[j + 4]);
        } else if j < 3 + k.len() {
            assert(s2[j] == k[j - 3]);
        } else if j < 3 + k.len() + 1 {
            assert(s2[j] == "="@[0]);
        } else {
            assert(s2[j] == v[j - 3 - k.len() - 1]);
        }
    }
    assert(s2[tl] == ' ');
    lemma_spec_tokens_word(s2, tl);
    assert(s2.take(tl) =~= target);
    assert(spec_tokens(l0) == seq![l0.take(3)] + (seq![target] + spec_tokens(s2.skip(tl))));
    assert(spec_tokens(l0)[1] == target);
}

proof fn lemma_simple_request_query(k: Seq<char>, v: Seq<char>)
    requires
        plain_query_key(k),
        plain_query_value(v),
    ensures
        spec_query(simple_target(k, v)) =~= seq![(k, v)],
{
    reveal_strlit("GET /x?");
    reveal_strlit("=");
    let target = simple_target(k, v);
    assert(target[0] == '/');
    assert(target[1] == 'x');
    assert(target[2] == '?');
    lemma_find_ch_some(target, '?', 2);
    let qs = target.skip(3);
    assert(qs =~= k + "="@ + v);
    assert forall|j: int| 0 <= j < qs.len() implies qs[j] != '&' by {
        if j < k.len() {
            assert(qs[j] == k[j]);
        } else if j < k.len() + 1 {
            assert(qs[j] == "="@[0]);
        } else {
            assert(qs[j] == v[j - k.len() - 1]);
        }
    }
    lemma_find_ch_none(qs, '&');
    assert(split_ch(qs, '&') == seq![qs]);
    let kl = k.len() as int;
    assert(qs[kl] == '=');
    assert forall|j: int| 0 <= j < kl implies qs[j] != '=' by {
        assert(qs[j] == k[j]);
    }
    lemma_find_ch_some(qs, '=', kl);
    assert(qs.take(kl) =~= k);
    assert(qs.skip(kl + 1) =~= v);
    assert(seq![qs].first() == qs);
    assert(insert_pair(Seq::empty(), k, v) =~= seq![(k, v)]) by {
        assert(find_key(Seq::empty(), k) is None);
        assert(Seq::<(Seq<char>, Seq<char>)>::empty().push((k, v)) =~= seq![(k, v)]);
    }
    assert(seq![qs].drop_first() =~= Seq::<Seq<char>>::empty());
    assert(fold_query(seq![qs], Seq::empty()) =~= seq![(k, v)]) by {
        reveal_with_fuel(fold_query, 3);
    }
}

proof fn lemma_simple_request_headers(
    h: Seq<char>,
    hv: Seq<char>,
    tail: Seq<Seq<char>>,
)
    requires
        plain_header_key(h),
    ensures
        fold_headers(seq![simple_header_line(h, hv), Seq::<char>::empty()] + tail, Seq::empty())
            == Ok::<_, Seq<char>>((seq![(h, hv)], join_crlf(tail))),
{
    reveal_strlit(": ");
    reveal_with_fuel(fold_headers, 3);
    let l1 = simple_header_line(h, hv);
    let rest = seq![l1, Seq::<char>::empty()] + tail;
    assert(rest.first() == l1);
    assert(l1.len() >= 2);
    let hl = h.len() as int;
    assert(l1[hl] == ':');
    assert(l1[hl + 1] == ' ');
    assert forall|j: int| 0 <= j < hl implies !(#[trigger] l1[j] == ':' && l1[j + 1] == ' ') by {
        assert(l1[j] == h[j]);
        if j + 1 < hl {
            assert(l1[j + 1] == h[j + 1]);
        } else {
            assert(l1[j + 1] == ':');
        }
    }
    lemma_find_sub2_some(l1, ':', ' ', hl);
    assert(l1.take(hl) =~= h);
    assert(l1.skip(hl + 2) =~= hv);
    assert(insert_pair(Seq::empty(), h, hv) =~= seq![(h, hv)]) by {
        assert(find_key(Seq::empty(), h) is None);
        assert(Seq::<(Seq<char>, Seq<char>)>::empty().push((h, hv)) =~= seq![(h, hv)]);
    }
    let rest2 = rest.drop_first();
    assert(rest2 =~= seq![Seq::<char>::empty()] + tail);
    assert(rest2.first().len() == 0);
    assert(rest2.drop_first() =~= tail);
}

/// The parser on a well-formed simple request: for any query pair, header
/// and single-line body, `GET /x?k=v VERSION`, one `h: hv` header line, a
/// blank line and the body parse to exactly that header, that query pair
/// and that body.
pub proof fn lemma_parse_simple_request(
    k: Seq<char>,
    v: Seq<char>,
    h: Seq<char>,
    hv: Seq<char>,
    body: Seq<char>,
)
    requires
        plain_query_key(k),
        plain_query_value(v),
        plain_header_key(h),
        single_line(hv),
        single_line(body),
    ensures
        spec_parse(simple_request(k, v, h, hv, body)) == Ok::<ParsedV, Seq<char>>(
            ParsedV { headers: seq![(h, hv)], body: body, query: seq![(k, v)] },
        ),
{
    lemma_simple_request_lines(k, v, h, hv, body);
    lemma_simple_request_tokens(k, v);
    lemma_simple_request_query(k, v);
    let lines = spec_lines(simple_request(k, v, h, hv, body));
    let tail = if body.len() == 0 {
        Seq::<Seq<char>>::empty()
    } else {
        seq![body]
    };
    assert(lines.first() == simple_request_line(k, v));
    assert(lines.drop_first() =~= seq![simple_header_line(h, hv), Seq::<char>::empty()] + tail);
    lemma_simple_request_headers(h, hv, tail);
    if body.len() == 0 {
        assert(join_crlf(tail) =~= body);
    } else {
        assert(join_crlf(tail) == body);
    }
    let r = spec_parse(simple_request(k, v, h, hv, body));
    assert(r matches Ok(p) && p.headers =~= seq![(h, hv)] && p.body =~= body && p.query =~= seq![
        (k, v),
    ]);
    assert(r == Ok::<ParsedV, Seq<char>>(
        ParsedV { headers: seq![(h, hv)], body: body, query: seq![(k, v)] },
    ));
}

} // verus!
