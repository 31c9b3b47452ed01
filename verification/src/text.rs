//! Character-sequence models of the text operations the parser relies on:
//! searching for a character, splitting into lines, whitespace tokenization
//! and joining lines back together, each with a verified executable
//! counterpart.

use vstd::prelude::*;

verus! {

/// A whitespace character, following the Unicode `White_Space` property.
pub open spec fn is_ws(c: char) -> bool {
    ||| c == ' '
    ||| c == '\t'
    ||| c == '\n'
    ||| c == '\u{b}'
    ||| c == '\u{c}'
    ||| c == '\r'
    ||| c == '\u{85}'
    ||| c == '\u{a0}'
    ||| c == '\u{1680}'
    ||| ('\u{2000}' <= c && c <= '\u{200a}')
    ||| c == '\u{2028}'
    ||| c == '\u{2029}'
    ||| c == '\u{202f}'
    ||| c == '\u{205f}'
    ||| c == '\u{3000}'
}

/// Runtime test for [`is_ws`].
pub fn is_ws_char(c: char) -> (r: bool)
    ensures
        r == is_ws(c),
{
    c == ' ' || c == '\t' || c == '\n' || c == '\u{b}' || c == '\u{c}' || c == '\r' || c == '\u{85}'
        || c == '\u{a0}' || c == '\u{1680}' || ('\u{2000}' <= c && c <= '\u{200a}') || c
        == '\u{2028}' || c == '\u{2029}' || c == '\u{202f}' || c == '\u{205f}' || c == '\u{3000}'
}

/// Index of the first occurrence of `c` in `s`, if any.
pub open spec fn find_ch(s: Seq<char>, c: char) -> Option<int>
    decreases s.len(),
{
    if s.len() == 0 {
        None
    } else if s[0] == c {
        Some(0int)
    } else {
        match find_ch(s.drop_first(), c) {
            None => None,
            Some(i) => Some(i + 1),
        }
    }
}

/// An index that carries `c` and has no earlier occurrence is what `find_ch` returns.
pub proof fn lemma_find_ch_some(s: Seq<char>, c: char, i: int)
    requires
        0 <= i < s.len(),
        s[i] == c,
        forall|j: int| 0 <= j < i ==> s[j] != c,
    ensures
        find_ch(s, c) == Some(i),
    decreases i,
{
    if i > 0 {
        lemma_find_ch_some(s.drop_first(), c, i - 1);
    }
}

/// When `c` occurs nowhere in `s`, `find_ch` returns `None`.
pub proof fn lemma_find_ch_none(s: Seq<char>, c: char)
    requires
        forall|j: int| 0 <= j < s.len() ==> s[j] != c,
    ensures
        find_ch(s, c) is None,
    decreases s.len(),
{
    if s.len() > 0 {
        lemma_find_ch_none(s.drop_first(), c);
    }
}

/// Index of the first occurrence of the two-character pattern `c0 c1` in `s`.
pub open spec fn find_sub2(s: Seq<char>, c0: char, c1: char) -> Option<int>
    decreases s.len(),
{
    if s.len() < 2 {
        None
    } else if s[0] == c0 && s[1] == c1 {
        Some(0int)
    } else {
        match find_sub2(s.drop_first(), c0, c1) {
            None => None,
            Some(i) => Some(i + 1),
        }
    }
}

/// An index where the pattern matches, with no earlier match, is what `find_sub2` returns.
pub proof fn lemma_find_sub2_some(s: Seq<char>, c0: char, c1: char, i: int)
    requires
        0 <= i,
        i + 1 < s.len(),
        s[i] == c0,
        s[i + 1] == c1,
        forall|j: int| 0 <= j < i ==> !(#[trigger] s[j] == c0 && s[j + 1] == c1),
    ensures
        find_sub2(s, c0, c1) == Some(i),
    decreases i,
{
    if i > 0 {
        assert forall|j: int| 0 <= j < i - 1 implies !(#[trigger] s.drop_first()[j] == c0
            && s.drop_first()[j + 1] == c1) by {
            assert(s.drop_first()[j] == s[j + 1]);
            assert(s.drop_first()[j + 1] == s[j + 2]);
        }
        lemma_find_sub2_some(s.drop_first(), c0, c1, i - 1);
    }
}

/// When the pattern matches nowhere, `find_sub2` returns `None`.
pub proof fn lemma_find_sub2_none(s: Seq<char>, c0: char, c1: char)
    requires
        forall|j: int| 0 <= j && j + 1 < s.len() ==> !(#[trigger] s[j] == c0 && s[j + 1] == c1),
    ensures
        find_sub2(s, c0, c1) is None,
    decreases s.len(),
{
    if s.len() >= 2 {
        assert forall|j: int| 0 <= j && j + 1 < s.drop_first().len() implies !(#[trigger] s.drop_first()[j]
            == c0 && s.drop_first()[j + 1] == c1) by {
            assert(s.drop_first()[j] == s[j + 1]);
            assert(s.drop_first()[j + 1] == s[j + 2]);
        }
        lemma_find_sub2_none(s.drop_first(), c0, c1);
    }
}

/// The pieces of `s` between occurrences of `c`; always at least one piece.
pub open spec fn split_ch(s: Seq<char>, c: char) -> Seq<Seq<char>>
    decreases s.len(),
{
    match find_ch(s, c) {
        None => seq![s],
        Some(i) => if 0 <= i < s.len() {
            seq![s.take(i)] + split_ch(s.skip(i + 1), c)
        } else {
            seq![s]
        },
    }
}

pub proof fn lemma_split_ch_len(s: Seq<char>, c: char)
    ensures
        split_ch(s, c).len() >= 1,
    decreases s.len(),
{
    match find_ch(s, c) {
        None => {},
        Some(i) => {
            if 0 <= i < s.len() {
                lemma_split_ch_len(s.skip(i + 1), c);
            }
        },
    }
}

/// A line with its trailing carriage return removed, if it has one.
pub open spec fn chop_cr(l: Seq<char>) -> Seq<char> {
    if l.len() > 0 && l[l.len() - 1] == '\r' {
        l.drop_last()
    } else {
        l
    }
}

/// The lines of `s`: pieces split at `'\n'`, each inner piece stripped of one
/// trailing `'\r'`; a final empty piece (text ending in a newline) yields no line.
pub open spec fn spec_lines(s: Seq<char>) -> Seq<Seq<char>> {
    let raw = split_ch(s, '\n');
    let main = raw.take(raw.len() - 1).map_values(|l: Seq<char>| chop_cr(l));
    if raw.last().len() == 0 {
        main
    } else {
        main.push(raw.last())
    }
}

/// Splitting off the first line: when the first `'\n'` of `s` stands at `i`,
/// the lines of `s` are the chopped prefix followed by the lines of the rest.
pub proof fn lemma_spec_lines_step(s: Seq<char>, i: int)
    requires
        0 <= i < s.len(),
        s[i] == '\n',
        forall|j: int| 0 <= j < i ==> s[j] != '\n',
    ensures
        spec_lines(s) =~= seq![chop_cr(s.take(i))] + spec_lines(s.skip(i + 1)),
{
    lemma_find_ch_some(s, '\n', i);
    let rest = s.skip(i + 1);
    let raw2 = split_ch(rest, '\n');
    lemma_split_ch_len(rest, '\n');
    let raw = split_ch(s, '\n');
    assert(raw =~= seq![s.take(i)] + raw2);
    assert(raw.last() == raw2.last());
    assert(raw.take(raw.len() - 1) =~= seq![s.take(i)] + raw2.take(raw2.len() - 1));
    let main = raw.take(raw.len() - 1).map_values(|l: Seq<char>| chop_cr(l));
    let main2 = raw2.take(raw2.len() - 1).map_values(|l: Seq<char>| chop_cr(l));
    assert(main =~= seq![chop_cr(s.take(i))] + main2);
}

/// When `s` holds no newline, it is its own single line, or no line at all if empty.
pub proof fn lemma_spec_lines_tail(s: Seq<char>)
    requires
        forall|j: int| 0 <= j < s.len() ==> s[j] != '\n',
    ensures
        spec_lines(s) =~= if s.len() == 0 {
            Seq::<Seq<char>>::empty()
        } else {
            seq![s]
        },
{
    lemma_find_ch_none(s, '\n');
    let raw = split_ch(s, '\n');
    assert(raw =~= seq![s]);
}

/// The maximal runs of non-whitespace characters of `s`, in order.
pub open spec fn spec_tokens(s: Seq<char>) -> Seq<Seq<char>>
    decreases s.len(),
{
    if s.len() == 0 {
        Seq::empty()
    } else if is_ws(s[0]) {
        spec_tokens(s.drop_first())
    } else if s.len() == 1 || is_ws(s[1]) {
        seq![seq![s[0]]] + spec_tokens(s.drop_first())
    } else {
        let rest = spec_tokens(s.drop_first());
        seq![seq![s[0]] + rest.first()] + rest.drop_first()
    }
}

/// Splitting off the first token: a non-whitespace run of length `k` at the
/// front of `s`, ended by whitespace or the end of `s`, is the first token.
pub proof fn lemma_spec_tokens_word(s: Seq<char>, k: int)
    requires
        0 < k <= s.len(),
        forall|j: int| 0 <= j < k ==> !is_ws(s[j]),
        k == s.len() || is_ws(s[k]),
    ensures
        spec_tokens(s) =~= seq![s.take(k)] + spec_tokens(s.skip(k)),
    decreases k,
{
    let d = s.drop_first();
    if k == 1 {
        assert(s.take(1) =~= seq![s[0]]);
        assert(s.skip(1) =~= d);
    } else {
        assert forall|j: int| 0 <= j < k - 1 implies !is_ws(d[j]) by {
            assert(d[j] == s[j + 1]);
        }
        lemma_spec_tokens_word(d, k - 1);
        let rest = spec_tokens(d);
        assert(rest.first() == d.take(k - 1));
        assert(rest.drop_first() =~= spec_tokens(d.skip(k - 1)));
        assert(seq![s[0]] + d.take(k - 1) =~= s.take(k));
        assert(d.skip(k - 1) =~= s.skip(k));
    }
}

/// The lines joined back with a CRLF separator between them.
pub open spec fn join_crlf(ls: Seq<Seq<char>>) -> Seq<char>
    decreases ls.len(),
{
    if ls.len() == 0 {
        Seq::empty()
    } else if ls.len() == 1 {
        ls[0]
    } else {
        join_crlf(ls.drop_last()) + seq!['\r', '\n'] + ls.last()
    }
}

/// Character-for-character equality of two string slices.
pub fn str_eq(a: &str, b: &str) -> (r: bool)
    ensures
        r == (a@ == b@),
{
    let na = a.unicode_len();
    let nb = b.unicode_len();
    if na != nb {
        return false;
    }
    let mut i: usize = 0;
    while i < na
        invariant
            na == a@.len(),
            na == b@.len(),
            0 <= i <= na,
            forall|j: int| 0 <= j < i ==> a@[j] == b@[j],
        decreases na - i,
    {
        if a.get_char(i) != b.get_char(i) {
            return false;
        }
        i += 1;
    }
    proof {
        assert(a@ =~= b@);
    }
    true
}

/// Splits `s` into its lines, as [`spec_lines`] describes.
pub fn split_lines(s: &str) -> (r: Vec<String>)
    ensures
        r.deep_view() == spec_lines(s@),
{
    let n = s.unicode_len();
    let mut out: Vec<String> = Vec::new();
    let mut start: usize = 0;
    let mut i: usize = 0;
    proof {
        assert(s@.skip(0) =~= s@);
        assert(out.deep_view() + spec_lines(s@) =~= spec_lines(s@));
    }
    while i < n
        invariant
            n == s@.len(),
            0 <= start <= i <= n,
            forall|j: int| start <= j < i ==> s@[j] != '\n',
            spec_lines(s@) =~= out.deep_view() + spec_lines(s@.skip(start as int)),
        decreases n - i,
    {
        if s.get_char(i) == '\n' {
            let piece: &str = if i > start && s.get_char(i - 1) == '\r' {
                s.substring_char(start, i - 1)
            } else {
                s.substring_char(start, i)
            };
            proof {
                let rem = s@.skip(start as int);
                let rel = i - start;
                assert forall|j: int| 0 <= j < rel implies rem[j] != '\n' by {
                    assert(rem[j] == s@[start + j]);
                }
                assert(rem[rel] == '\n');
                lemma_spec_lines_step(rem, rel);
                assert(rem.take(rel) =~= s@.subrange(start as int, i as int));
                assert(rem.skip(rel + 1) =~= s@.skip(i + 1));
                if i > start && s@[i - 1] == '\r' {
                    assert(chop_cr(rem.take(rel)) =~= s@.subrange(start as int, i - 1));
                } else {
                    assert(chop_cr(rem.take(rel)) =~= s@.subrange(start as int, i as int));
                }
            }
            let owned: String = piece.to_owned();
            out.push(owned);
            proof {
                assert(out.deep_view() =~= out.deep_view().drop_last().push(piece@));
                assert(spec_lines(s@) =~= out.deep_view() + spec_lines(s@.skip(i + 1)));
            }
            start = i + 1;
        }
        i += 1;
    }
    proof {
        let rem = s@.skip(start as int);
        assert forall|j: int| 0 <= j < rem.len() implies rem[j] != '\n' by {
            assert(rem[j] == s@[start + j]);
        }
        lemma_spec_lines_tail(rem);
    }
    if start < n {
        let piece: &str = s.substring_char(start, n);
        proof {
            assert(piece@ =~= s@.skip(start as int));
        }
        let owned: String = piece.to_owned();
        out.push(owned);
        proof {
            assert(out.deep_view() =~= out.deep_view().drop_last().push(piece@));
            assert(out.deep_view() =~= spec_lines(s@));
        }
    } else {
        proof {
            assert(s@.skip(start as int).len() == 0);
            assert(out.deep_view() =~= spec_lines(s@));
        }
    }
    out
}

/// Splits `s` into whitespace-separated tokens, as [`spec_tokens`] describes.
pub fn ws_tokens(s: &str) -> (r: Vec<String>)
    ensures
        r.deep_view() == spec_tokens(s@),
{
    let n = s.unicode_len();
    let mut out: Vec<String> = Vec::new();
    let mut i: usize = 0;
    proof {
        assert(s@.skip(0) =~= s@);
        assert(out.deep_view() + spec_tokens(s@) =~= spec_tokens(s@));
    }
    while i < n
        invariant
            n == s@.len(),
            0 <= i <= n,
            spec_tokens(s@) =~= out.deep_view() + spec_tokens(s@.skip(i as int)),
        decreases n - i,
    {
        let c = s.get_char(i);
        if is_ws_char(c) {
            proof {
                let rem = s@.skip(i as int);
                assert(rem[0] == s@[i as int]);
                assert(spec_tokens(rem) == spec_tokens(rem.drop_first()));
                assert(rem.drop_first() =~= s@.skip(i + 1));
            }
            i += 1;
        } else {
            let start = i;
            i += 1;
            while i < n
                invariant_except_break
                    n == s@.len(),
                    0 <= start < i <= n,
                    forall|j: int| start <= j < i ==> !is_ws(s@[j]),
                ensures
                    n == s@.len(),
                    0 <= start < i <= n,
                    forall|j: int| start <= j < i ==> !is_ws(s@[j]),
                    i == n || is_ws(s@[i as int]),
                decreases n - i,
            {
                if is_ws_char(s.get_char(i)) {
                    break;
                }
                i += 1;
            }
            let tok: &str = s.substring_char(start, i);
            proof {
                let rem = s@.skip(start as int);
                let k = i - start;
                assert forall|j: int| 0 <= j < k implies !is_ws(rem[j]) by {
                    assert(rem[j] == s@[start + j]);
                }
                if (i as int) < n {
                    assert(rem[k] == s@[i as int]);
                }
                lemma_spec_tokens_word(rem, k);
                assert(rem.take(k) =~= s@.subrange(start as int, i as int));
                assert(rem.skip(k) =~= s@.skip(i as int));
            }
            let owned: String = tok.to_owned();
            out.push(owned);
            proof {
                assert(out.deep_view() =~= out.deep_view().drop_last().push(tok@));
                assert(spec_tokens(s@) =~= out.deep_view() + spec_tokens(s@.skip(i as int)));
            }
        }
    }
    proof {
        assert(s@.skip(i as int).len() == 0);
        assert(spec_tokens(s@.skip(i as int)) =~= Seq::<Seq<char>>::empty());
        assert(out.deep_view() =~= spec_tokens(s@));
    }
    out
}

/// Joins `lines[start..]` with CRLF separators, as [`join_crlf`] describes.
pub fn join_from(lines: &Vec<String>, start: usize) -> (r: String)
    requires
        start <= lines.len(),
    ensures
        r@ == join_crlf(lines.deep_view().skip(start as int)),
{
    let n = lines.len();
    let mut out = String::new();
    let mut i: usize = start;
    while i < n
        invariant
            start <= i <= n,
            n == lines.len(),
            out@ =~= join_crlf(lines.deep_view().skip(start as int).take(i - start)),
        decreases n - i,
    {
        if i > start {
            out.append("\r\n");
        }
        out.append(lines[i].as_str());
        proof {
            let sub = lines.deep_view().skip(start as int);
            let m = i - start;
            assert(sub.take(m + 1).drop_last() =~= sub.take(m));
            assert(sub.take(m + 1).last() == lines.deep_view()[i as int]);
            if m > 0 {
                assert(join_crlf(sub.take(m + 1)) == join_crlf(sub.take(m)) + seq!['\r', '\n']
                    + sub[m]);
            } else {
                assert(join_crlf(sub.take(1)) == sub[0]);
            }
            assert("\r\n"@ =~= seq!['\r', '\n']) by {
                reveal_strlit("\r\n");
            }
        }
        i += 1;
    }
    proof {
        assert(lines.deep_view().skip(start as int).take(n - start) =~= lines.deep_view().skip(
            start as int,
        ));
    }
    out
}

} // verus!
