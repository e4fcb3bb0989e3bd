use vstd::prelude::*;
use vstd::utf8::{decode_utf8, decode_utf8_encode_utf8, encode_utf8, pop_first_scalar, valid_utf8};

use crate::http_request::{
    after_line, decoded, find_byte, line_at, parse_head, parse_request, scan_headers, Head, start_line_bytes, start_line_parts,
    RequestView, CR, LF, SP, COLON, find_separator, all_digits, digits_value, is_digit,
    content_length_name, last_value, length_of, unsigned_part,
};
use crate::http_response::{content_length_prefix, decimal};
use crate::http_utils::{protocol_bytes, protocol_of, verb_bytes, verb_of, HttpProtocol, HttpVerb, ParseError};

verus! {

/// Whether `s` holds no byte `b`.
pub open spec fn free_of(s: Seq<u8>, b: u8) -> bool {
    forall|k: int| 0 <= k < s.len() ==> #[trigger] s[k] != b
}

/// A search that passes only other bytes stops at the first `b`, or at the end.
proof fn lemma_find_byte_at(s: Seq<u8>, b: u8, i: int, j: int)
    requires
        0 <= i <= j <= s.len(),
        forall|k: int| i <= k < j ==> #[trigger] s[k] != b,
        j == s.len() || s[j] == b,
    ensures
        find_byte(s, b, i) == j,
    decreases j - i,
{
    if i < j {
        lemma_find_byte_at(s, b, i + 1, j);
    }
}

/// A line followed by a carriage return and a line feed is read back as that line.
proof fn lemma_line_at(s: Seq<u8>, p: int, line: Seq<u8>)
    requires
        0 <= p,
        p + line.len() + 2 <= s.len(),
        s.subrange(p, p + line.len() + 2) == line + seq![CR, LF],
        free_of(line, LF),
        line.len() == 0 || line.last() != CR,
    ensures
        line_at(s, p) == line,
        after_line(s, p) == p + line.len() + 2,
{
    let e = p + line.len() + 1;
    assert forall|k: int| p <= k < e implies #[trigger] s[k] != LF by {
        assert(s[k] == s.subrange(p, p + line.len() + 2)[k - p]);
        if k - p < line.len() {
            assert(line[k - p] != LF);
        }
    }
    assert(s[e] == s.subrange(p, p + line.len() + 2)[e - p]);
    lemma_find_byte_at(s, LF, p, e);
    assert(s.subrange(p, e) =~= line.push(CR));
    assert(line.push(CR).drop_last() =~= line);
}

/// A line of three tokens without spaces, separated by single spaces, splits into those tokens.
proof fn lemma_start_line(vt: Seq<u8>, path: Seq<u8>, pt: Seq<u8>)
    requires
        free_of(vt, SP),
        free_of(path, SP),
        free_of(pt, SP),
    ensures
        start_line_parts(vt + seq![SP] + path + seq![SP] + pt) == match verb_of(vt) {
            None => Err(ParseError::InvalidVerb),
            Some(v) => match protocol_of(pt) {
                None => Err(ParseError::InvalidProtocol),
                Some(p) => if valid_utf8(path) {
                    Ok((v, path, p))
                } else {
                    Err(ParseError::MalformedStartLine)
                },
            },
        },
{
    let line = vt + seq![SP] + path + seq![SP] + pt;
    let a = vt.len() as int;
    let b = a + 1 + path.len();
    assert forall|k: int| 0 <= k < a implies #[trigger] line[k] != SP by {
        assert(line[k] == vt[k]);
    }
    lemma_find_byte_at(line, SP, 0, a);
    assert forall|k: int| a + 1 <= k < b implies #[trigger] line[k] != SP by {
        assert(line[k] == path[k - a - 1]);
    }
    lemma_find_byte_at(line, SP, a + 1, b);
    assert forall|k: int| b + 1 <= k < line.len() implies #[trigger] line[k] != SP by {
        assert(line[k] == pt[k - b - 1]);
    }
    lemma_find_byte_at(line, SP, b + 1, line.len() as int);
    assert(line.subrange(0, a) =~= vt);
    assert(line.subrange(a + 1, b) =~= path);
    assert(line.subrange(b + 1, line.len() as int) =~= pt);
}

/// Each verb's name reads back as that verb.
proof fn lemma_verb_name(v: HttpVerb)
    ensures
        verb_of(verb_bytes(v)) == Some(v),
        free_of(verb_bytes(v), SP),
        free_of(verb_bytes(v), CR),
        free_of(verb_bytes(v), LF),
{
    assert(verb_bytes(HttpVerb::Get)[0] != verb_bytes(HttpVerb::Put)[0]);
    assert(verb_bytes(HttpVerb::Get)[0] != verb_bytes(HttpVerb::Post)[0]);
    assert(verb_bytes(HttpVerb::Post).len() != verb_bytes(HttpVerb::Put).len());
}

/// The version's name holds no space, carriage return or line feed.
proof fn lemma_protocol_name(p: HttpProtocol)
    ensures
        protocol_of(protocol_bytes(p)) == Some(p),
        free_of(protocol_bytes(p), SP),
        free_of(protocol_bytes(p), CR),
        free_of(protocol_bytes(p), LF),
{
}

/// A start line of a known verb, a path without spaces or line feeds, and
/// `HTTP/1.1` is read back as exactly those parts; writing the parts out again
/// gives the same line. A request of just that line and an empty line has no
/// headers and no body.
pub proof fn lemma_start_line_round_trip(verb: HttpVerb, path: Seq<u8>)
    requires
        valid_utf8(path),
        free_of(path, SP),
        free_of(path, LF),
    ensures
        start_line_parts(start_line_bytes(verb, path, HttpProtocol::OnePointOne)) == Ok::<
            (HttpVerb, Seq<u8>, HttpProtocol),
            ParseError,
        >((verb, path, HttpProtocol::OnePointOne)),
        parse_request(start_line_bytes(verb, path, HttpProtocol::OnePointOne) + seq![CR, LF, CR, LF])
            == Ok::<RequestView, ParseError>(
            RequestView {
                verb,
                protocol: HttpProtocol::OnePointOne,
                path: decode_utf8(path),
                headers: seq![],
                body: None,
            },
        ),
        start_line_bytes(verb, encode_utf8(decode_utf8(path)), HttpProtocol::OnePointOne)
            == start_line_bytes(verb, path, HttpProtocol::OnePointOne),
{
    reveal(parse_head);
    let p = HttpProtocol::OnePointOne;
    decode_utf8_encode_utf8(path);
    let line = start_line_bytes(verb, path, p);
    let s = line + seq![CR, LF, CR, LF];
    assert(s =~= line + seq![CR, LF] + seq![CR, LF]);
    lemma_first_line(verb, path, seq![CR, LF]);
    let q = line.len() + 2int;
    assert(s.subrange(q, q + 2) =~= Seq::<u8>::empty() + seq![CR, LF]);
    lemma_line_at(s, q, Seq::<u8>::empty());
    assert(scan_headers(s, q, seq![]) == Ok::<(Seq<(Seq<u8>, Seq<u8>)>, int), ParseError>(
        (seq![], q + 2),
    ));
    assert(parse_head(s) == Ok::<Head, ParseError>(
        Head {
            verb,
            path,
            protocol: p,
            headers: seq![],
            body_start: q + 2,
            body_len: None,
        },
    ));
    assert(decoded(seq![]) =~= Seq::<(Seq<char>, Seq<char>)>::empty());
}

/// Two byte sequences without `x` make one without `x`.
proof fn lemma_concat_free_of(a: Seq<u8>, b: Seq<u8>, x: u8)
    requires
        free_of(a, x),
        free_of(b, x),
    ensures
        free_of(a + b, x),
{
    assert forall|k: int| 0 <= k < (a + b).len() implies #[trigger] (a + b)[k] != x by {
        if k < a.len() {
            assert((a + b)[k] == a[k]);
        } else {
            assert((a + b)[k] == b[k - a.len()]);
        }
    }
}

/// A first line of three tokens decides the error before anything after it is
/// read: no known verb gives `InvalidVerb`; a known verb and no known version
/// gives `InvalidProtocol`. Neither is ever read as a default.
pub proof fn lemma_start_line_decides(s: Seq<u8>, vt: Seq<u8>, path: Seq<u8>, pt: Seq<u8>)
    requires
        line_at(s, 0) == vt + seq![SP] + path + seq![SP] + pt,
        free_of(vt, SP),
        free_of(path, SP),
        free_of(pt, SP),
    ensures
        verb_of(vt) is None ==> parse_request(s) == Err::<RequestView, ParseError>(
            ParseError::InvalidVerb,
        ),
        verb_of(vt) is Some && protocol_of(pt) is None ==> parse_request(s) == Err::<
            RequestView,
            ParseError,
        >(ParseError::InvalidProtocol),
{
    reveal(parse_head);
    lemma_start_line(vt, path, pt);
    if s.len() == 0 {
        assert(line_at(s, 0).len() == 0);
    }
}

/// The first line of `line` followed by `ending` and `rest` is `line` itself,
/// where `line` holds no line feed and `ending` is a carriage return and a line
/// feed, or a bare line feed after a line that does not end in a carriage
/// return, or nothing at the end of the input.
proof fn lemma_line_endings(line: Seq<u8>, ending: Seq<u8>, rest: Seq<u8>)
    requires
        free_of(line, LF),
        ending == seq![CR, LF] || (ending == seq![LF] && (line.len() == 0 || line.last() != CR))
            || (ending.len() == 0 && rest.len() == 0),
    ensures
        line_at(line + ending + rest, 0) == line,
{
    let s = line + ending + rest;
    let n = line.len() as int;
    assert forall|k: int| 0 <= k < n implies #[trigger] s[k] != LF by {
        assert(s[k] == line[k]);
    }
    if ending == seq![CR, LF] {
        assert(s[n] == CR && s[n + 1] == LF);
        assert forall|k: int| 0 <= k < n + 1 implies #[trigger] s[k] != LF by {
            if k < n {
                assert(s[k] == line[k]);
            }
        }
        lemma_find_byte_at(s, LF, 0, n + 1);
        assert(s.subrange(0, n + 1) =~= line.push(CR));
        assert(line.push(CR).drop_last() =~= line);
    } else if ending == seq![LF] {
        assert(s[n] == LF);
        lemma_find_byte_at(s, LF, 0, n);
        assert(s.subrange(0, n) =~= line);
    } else {
        assert(s =~= line);
        lemma_find_byte_at(s, LF, 0, n);
        assert(s.subrange(0, n) =~= line);
    }
}

/// A start line of three tokens whose first names no known verb is refused
/// with `InvalidVerb`; with a known verb and a last token that names no known
/// version (`HTTP/1.1` followed by a carriage return that no line feed
/// follows included), with `InvalidProtocol`. Neither is ever read as a
/// default, whatever follows the line, and whether the line ends in a carriage
/// return and line feed, in a bare line feed, or with the input.
pub proof fn lemma_unknown_tokens_rejected(
    vt: Seq<u8>,
    path: Seq<u8>,
    pt: Seq<u8>,
    ending: Seq<u8>,
    rest: Seq<u8>,
)
    requires
        free_of(vt, SP) && free_of(vt, LF),
        free_of(path, SP) && free_of(path, LF),
        free_of(pt, SP) && free_of(pt, LF),
        ending == seq![CR, LF] || (ending == seq![LF] && (pt.len() == 0 || pt.last() != CR))
            || (ending.len() == 0 && rest.len() == 0),
    ensures
        verb_of(vt) is None ==> parse_request(
            vt + seq![SP] + path + seq![SP] + pt + ending + rest,
        ) == Err::<RequestView, ParseError>(ParseError::InvalidVerb),
        verb_of(vt) is Some && protocol_of(pt) is None ==> parse_request(
            vt + seq![SP] + path + seq![SP] + pt + ending + rest,
        ) == Err::<RequestView, ParseError>(ParseError::InvalidProtocol),
{
    let line = vt + seq![SP] + path + seq![SP] + pt;
    lemma_concat_free_of(vt, seq![SP], LF);
    lemma_concat_free_of(vt + seq![SP], path, LF);
    lemma_concat_free_of(vt + seq![SP] + path, seq![SP], LF);
    lemma_concat_free_of(vt + seq![SP] + path + seq![SP], pt, LF);
    if pt.len() > 0 {
        assert(line.last() == pt.last());
    }
    lemma_line_endings(line, ending, rest);
    lemma_start_line_decides(line + ending + rest, vt, path, pt);
}

/// A search for `": "` that passes no such pair stops at the first one.
proof fn lemma_find_separator_at(s: Seq<u8>, i: int, j: int)
    requires
        0 <= i <= j,
        j + 1 < s.len(),
        forall|k: int| i <= k < j ==> !(#[trigger] s[k] == COLON && s[k + 1] == SP),
        s[j] == COLON,
        s[j + 1] == SP,
    ensures
        find_separator(s, i) == j,
    decreases j - i,
{
    if i < j {
        lemma_find_separator_at(s, i + 1, j);
    }
}

/// Bytes below 0x80 are UTF-8 text, one character each.
proof fn lemma_ascii_valid(b: Seq<u8>)
    requires
        forall|k: int| 0 <= k < b.len() ==> #[trigger] b[k] < 0x80,
    ensures
        valid_utf8(b),
    decreases b.len(),
{
    if b.len() > 0 {
        let x = b[0];
        assert(x & 0x7f == x) by (bit_vector)
            requires
                x < 0x80,
        ;
        assert(pop_first_scalar(b) =~= b.drop_first());
        lemma_ascii_valid(b.drop_first());
    }
}

/// The decimal digits of `n` are digits, and read back as `n`.
proof fn lemma_decimal(n: nat)
    ensures
        decimal(n).len() > 0,
        all_digits(decimal(n)),
        digits_value(decimal(n)) == n,
    decreases n,
{
    let d = decimal(n);
    assert(n % 10 < 10);
    assert(d.last() == (0x30 + n % 10) as u8);
    assert(d.last() - 0x30 == n % 10);
    assert(digits_value(d) == digits_value(d.drop_last()) * 10 + (d.last() - 0x30) as nat);
    if n >= 10 {
        lemma_decimal(n / 10);
        assert(d.drop_last() =~= decimal(n / 10));
        assert(digits_value(d.drop_last()) == n / 10);
        assert(n == (n / 10) * 10 + n % 10);
        assert forall|i: int| 0 <= i < d.len() implies is_digit(#[trigger] d[i]) by {
            if i < d.len() - 1 {
                assert(d[i] == decimal(n / 10)[i]);
            }
        }
    } else {
        assert(d.drop_last() =~= Seq::<u8>::empty());
    }
}

/// The line `Content-Length: n` splits into that name and the digits of `n`,
/// both text, and holds no line break.
proof fn lemma_length_header(n: nat)
    requires
        n <= usize::MAX,
    ensures
        ({
            let hl = content_length_prefix() + decimal(n);
            &&& free_of(hl, LF)
            &&& hl.last() != CR
            &&& hl.len() >= 16
            &&& find_separator(hl, 0) == 14
            &&& hl.subrange(0, 14) == content_length_name()
            &&& hl.subrange(16, hl.len() as int) == decimal(n)
            &&& valid_utf8(content_length_name())
            &&& valid_utf8(decimal(n))
            &&& length_of(decimal(n)) == Some(n)
        }),
{
    let dec = decimal(n);
    lemma_decimal(n);
    let prefix = content_length_prefix();
    let hl = prefix + dec;
    assert(free_of(prefix, LF));
    assert(free_of(dec, LF)) by {
        assert forall|k: int| 0 <= k < dec.len() implies #[trigger] dec[k] != LF by {
            assert(is_digit(dec[k]));
        }
    }
    lemma_concat_free_of(prefix, dec, LF);
    assert(hl.last() == dec.last());
    assert(is_digit(dec[dec.len() - 1]));
    assert forall|k: int| 0 <= k < 14 implies !(#[trigger] hl[k] == COLON && hl[k + 1] == SP) by {
        assert(hl[k] == prefix[k]);
    }
    lemma_find_separator_at(hl, 0, 14);
    assert(hl.subrange(0, 14) =~= content_length_name());
    assert(hl.subrange(16, hl.len() as int) =~= dec);
    lemma_ascii_valid(content_length_name());
    assert forall|k: int| 0 <= k < dec.len() implies #[trigger] dec[k] < 0x80 by {
        assert(is_digit(dec[k]));
    }
    lemma_ascii_valid(dec);
    assert(is_digit(dec[0]));
    assert(unsigned_part(dec) == dec);
    assert(length_of(dec) == Some(n));
    assert(free_of(hl, LF));
    assert(hl.last() != CR);
}

/// A request whose first line is a known verb, a path without spaces or line
/// feeds and `HTTP/1.1` reads that line as exactly those parts, whatever follows it.
proof fn lemma_first_line(verb: HttpVerb, path: Seq<u8>, tail: Seq<u8>)
    requires
        valid_utf8(path),
        free_of(path, SP),
        free_of(path, LF),
    ensures
        ({
            let line = start_line_bytes(verb, path, HttpProtocol::OnePointOne);
            let s = line + seq![CR, LF] + tail;
            &&& line_at(s, 0) == line
            &&& after_line(s, 0) == line.len() + 2
            &&& start_line_parts(line) == Ok::<(HttpVerb, Seq<u8>, HttpProtocol), ParseError>(
                (verb, path, HttpProtocol::OnePointOne),
            )
        }),
{
    let p = HttpProtocol::OnePointOne;
    lemma_verb_name(verb);
    lemma_protocol_name(p);
    lemma_start_line(verb_bytes(verb), path, protocol_bytes(p));
    let line = start_line_bytes(verb, path, p);
    lemma_concat_free_of(verb_bytes(verb), seq![SP], LF);
    lemma_concat_free_of(verb_bytes(verb) + seq![SP], path, LF);
    lemma_concat_free_of(verb_bytes(verb) + seq![SP] + path, seq![SP], LF);
    lemma_concat_free_of(verb_bytes(verb) + seq![SP] + path + seq![SP], protocol_bytes(p), LF);
    assert(line.last() == protocol_bytes(p).last());
    let s = line + seq![CR, LF] + tail;
    assert(s.subrange(0, line.len() + 2int) =~= line + seq![CR, LF]);
    lemma_line_at(s, 0, line);
}

/// A header block of one line `Content-Length: n` and an empty line holds that
/// one pair and declares a body of `n` bytes.
proof fn lemma_length_block(s: Seq<u8>, q: int, n: nat)
    requires
        n <= usize::MAX,
        0 <= q,
        q + content_length_prefix().len() + decimal(n).len() + 4 <= s.len(),
        s.subrange(q, q + content_length_prefix().len() + decimal(n).len() + 4)
            == content_length_prefix() + decimal(n) + seq![CR, LF, CR, LF],
    ensures
        scan_headers(s, q, seq![]) == Ok::<(Seq<(Seq<u8>, Seq<u8>)>, int), ParseError>(
            (
                seq![(content_length_name(), decimal(n))],
                q + content_length_prefix().len() + decimal(n).len() + 4,
            ),
        ),
        last_value(seq![(content_length_name(), decimal(n))], content_length_name()) == Some(
            decimal(n),
        ),
        length_of(decimal(n)) == Some(n),
{
    let hl = content_length_prefix() + decimal(n);
    lemma_length_header(n);
    let block = hl + seq![CR, LF, CR, LF];
    let h = hl.len() as int;
    assert(s.subrange(q, q + hl.len() + 2) =~= block.subrange(0, h + 2));
    assert(block.subrange(0, h + 2) =~= hl + seq![CR, LF]);
    lemma_line_at(s, q, hl);
    let q2 = q + hl.len() + 2;
    assert(s.subrange(q2, q2 + 2) =~= block.subrange(h + 2, h + 4));
    assert(block.subrange(h + 2, h + 4) =~= Seq::<u8>::empty() + seq![CR, LF]);
    lemma_line_at(s, q2, Seq::<u8>::empty());
    let pairs = seq![(content_length_name(), decimal(n))];
    assert(seq![].push((content_length_name(), decimal(n))) =~= pairs);
    assert(scan_headers(s, q2, pairs) == Ok::<(Seq<(Seq<u8>, Seq<u8>)>, int), ParseError>(
        (pairs, q2 + 2),
    ));
    assert(pairs.drop_last() =~= Seq::<(Seq<u8>, Seq<u8>)>::empty());
}

/// The start line and header block of a request with one header,
/// `Content-Length: n`.
pub open spec fn length_request_head(verb: HttpVerb, path: Seq<u8>, n: nat) -> Seq<u8> {
    start_line_bytes(verb, path, HttpProtocol::OnePointOne) + seq![CR, LF]
        + content_length_prefix() + decimal(n) + seq![CR, LF, CR, LF]
}

/// The head of a request with one `Content-Length: n` header: the body starts
/// just after its empty line and is declared `n` bytes long.
proof fn lemma_length_head(verb: HttpVerb, path: Seq<u8>, n: nat, rest: Seq<u8>)
    requires
        valid_utf8(path),
        free_of(path, SP),
        free_of(path, LF),
        n <= usize::MAX,
    ensures
        parse_head(length_request_head(verb, path, n) + rest) == Ok::<Head, ParseError>(
            Head {
                verb,
                path,
                protocol: HttpProtocol::OnePointOne,
                headers: seq![(content_length_name(), decimal(n))],
                body_start: length_request_head(verb, path, n).len() as int,
                body_len: Some(n),
            },
        ),
{
    reveal(parse_head);
    let line = start_line_bytes(verb, path, HttpProtocol::OnePointOne);
    let block = content_length_prefix() + decimal(n) + seq![CR, LF, CR, LF];
    let tail = block + rest;
    let s = length_request_head(verb, path, n) + rest;
    assert(s =~= line + seq![CR, LF] + tail);
    lemma_first_line(verb, path, tail);
    let q = line.len() + 2int;
    assert(s.subrange(q, q + block.len()) =~= block);
    lemma_length_block(s, q, n);
}

/// Whatever the header block, where it declares a body of `n` bytes the body
/// is exactly the `n` bytes after its empty line: an input that ends sooner is
/// refused with `TruncatedBody` rather than read as a shorter body, and no byte
/// beyond the `n` is taken.
pub proof fn lemma_body_of_head(s: Seq<u8>, h: Head, n: nat)
    requires
        parse_head(s) == Ok::<Head, ParseError>(h),
        h.body_len == Some(n),
    ensures
        0 <= h.body_start <= s.len(),
        s.len() - h.body_start < n ==> parse_request(s) == Err::<RequestView, ParseError>(
            ParseError::TruncatedBody,
        ),
        s.len() - h.body_start >= n && valid_utf8(s.subrange(h.body_start, h.body_start + n))
            ==> parse_request(s) is Ok && parse_request(s)->Ok_0.body == Some(
            decode_utf8(s.subrange(h.body_start, h.body_start + n)),
        ),
{
    reveal(parse_head);
    lemma_scan_headers_end(s, after_line(s, 0), seq![]);
}

/// A header block ends within the input.
proof fn lemma_scan_headers_end(s: Seq<u8>, p: int, acc: Seq<(Seq<u8>, Seq<u8>)>)
    requires
        0 <= p,
    ensures
        scan_headers(s, p, acc) is Ok ==> 0 <= scan_headers(s, p, acc)->Ok_0.1 <= s.len(),
    decreases s.len() - p,
{
    if p < s.len() {
        let line = line_at(s, p);
        if line.len() != 0 {
            let k = find_separator(line, 0);
            if k >= line.len() {
                lemma_scan_headers_end(s, after_line(s, p), acc);
            } else {
                let name = line.subrange(0, k);
                let value = line.subrange(k + 2, line.len() as int);
                lemma_scan_headers_end(s, after_line(s, p), acc.push((name, value)));
            }
        }
    }
}

/// With a `Content-Length` header of `n`, the body is exactly the `n` bytes
/// after the empty line: an input that ends sooner is refused with
/// `TruncatedBody` rather than read as a shorter body, and no byte beyond the
/// `n` is taken.
pub proof fn lemma_declared_body(verb: HttpVerb, path: Seq<u8>, n: nat, rest: Seq<u8>)
    requires
        valid_utf8(path),
        free_of(path, SP),
        free_of(path, LF),
        n <= usize::MAX,
    ensures
        rest.len() < n ==> parse_request(length_request_head(verb, path, n) + rest) == Err::<
            RequestView,
            ParseError,
        >(ParseError::TruncatedBody),
        rest.len() >= n && valid_utf8(rest.subrange(0, n as int)) ==> parse_request(
            length_request_head(verb, path, n) + rest,
        ) is Ok && parse_request(length_request_head(verb, path, n) + rest)->Ok_0.body == Some(
            decode_utf8(rest.subrange(0, n as int)),
        ),
{
    let head = length_request_head(verb, path, n);
    let s = head + rest;
    lemma_length_head(verb, path, n, rest);
    let h = Head {
        verb,
        path,
        protocol: HttpProtocol::OnePointOne,
        headers: seq![(content_length_name(), decimal(n))],
        body_start: head.len() as int,
        body_len: Some(n),
    };
    lemma_body_of_head(s, h, n);
    if rest.len() >= n {
        assert(s.subrange(head.len() as int, head.len() + n as int) =~= rest.subrange(0, n as int));
    }
}

} // verus!
