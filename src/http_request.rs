use vstd::prelude::*;
use vstd::utf8::{decode_utf8, encode_utf8, valid_utf8};

use crate::http_utils::{
    bytes_equal, protocol_bytes, protocol_of, verb_bytes, verb_of, HttpProtocol, HttpVerb,
    ParseError,
};

verus! {

pub const LF: u8 = 0x0a;

pub const CR: u8 = 0x0d;

pub const SP: u8 = 0x20;

pub const COLON: u8 = 0x3a;

/// The first index at or after `i` where `s` holds `b`, or `s.len()` if there is none.
pub open spec fn find_byte(s: Seq<u8>, b: u8, i: int) -> int
    decreases s.len() - i,
{
    if i < 0 || i >= s.len() {
        s.len() as int
    } else if s[i] == b {
        i
    } else {
        find_byte(s, b, i + 1)
    }
}

/// The first index at or after `i` where `s` holds `": "`, or `s.len()` if there is none.
pub open spec fn find_separator(s: Seq<u8>, i: int) -> int
    decreases s.len() - i,
{
    if i < 0 || i + 1 >= s.len() {
        s.len() as int
    } else if s[i] == COLON && s[i + 1] == SP {
        i
    } else {
        find_separator(s, i + 1)
    }
}

/// `l` without one trailing carriage return.
pub open spec fn without_cr(l: Seq<u8>) -> Seq<u8> {
    if l.len() > 0 && l.last() == CR {
        l.drop_last()
    } else {
        l
    }
}

/// The line that starts at `p`: up to the next line feed or the end of input.
/// Where a line feed ends it, one carriage return just before that line feed is
/// removed too; one at the very end of input stays.
pub open spec fn line_at(s: Seq<u8>, p: int) -> Seq<u8> {
    let e = find_byte(s, LF, p);
    if e < s.len() {
        without_cr(s.subrange(p, e))
    } else {
        s.subrange(p, e)
    }
}

/// Where the line after the one at `p` starts (the end of input if there is none).
pub open spec fn after_line(s: Seq<u8>, p: int) -> int {
    let e = find_byte(s, LF, p);
    if p <= e < s.len() {
        e + 1
    } else {
        s.len() as int
    }
}

/// The verb, raw path and protocol of a start line: exactly three tokens
/// separated by single spaces.
pub open spec fn start_line_parts(line: Seq<u8>) -> Result<(HttpVerb, Seq<u8>, HttpProtocol), ParseError> {
    let sp1 = find_byte(line, SP, 0);
    let sp2 = find_byte(line, SP, sp1 + 1);
    if sp1 >= line.len() || sp2 >= line.len() || find_byte(line, SP, sp2 + 1) < line.len() {
        Err(ParseError::MalformedStartLine)
    } else {
        match verb_of(line.subrange(0, sp1)) {
            None => Err(ParseError::InvalidVerb),
            Some(v) => match protocol_of(line.subrange(sp2 + 1, line.len() as int)) {
                None => Err(ParseError::InvalidProtocol),
                Some(p) => {
                    let path = line.subrange(sp1 + 1, sp2);
                    if valid_utf8(path) {
                        Ok((v, path, p))
                    } else {
                        Err(ParseError::MalformedStartLine)
                    }
                },
            },
        }
    }
}

/// Reads header lines from `p` on, after those already in `acc`: up to an empty
/// line or the end of input. A line without `": "` is skipped. The result holds
/// every (name, value) pair in order and where the header block ends.
pub open spec fn scan_headers(s: Seq<u8>, p: int, acc: Seq<(Seq<u8>, Seq<u8>)>) -> Result<
    (Seq<(Seq<u8>, Seq<u8>)>, int),
    ParseError,
>
    decreases s.len() - p,
{
    if p < 0 || p >= s.len() {
        Ok((acc, s.len() as int))
    } else {
        let line = line_at(s, p);
        if line.len() == 0 {
            Ok((acc, after_line(s, p)))
        } else {
            let k = find_separator(line, 0);
            if k >= line.len() {
                scan_headers(s, after_line(s, p), acc)
            } else {
                let name = line.subrange(0, k);
                let value = line.subrange(k + 2, line.len() as int);
                if valid_utf8(name) && valid_utf8(value) {
                    scan_headers(s, after_line(s, p), acc.push((name, value)))
                } else {
                    Err(ParseError::InvalidHeaderEncoding)
                }
            }
        }
    }
}

/// The value of the last pair named `name`: a later header overrides an earlier one.
pub open spec fn last_value<K, V>(pairs: Seq<(K, V)>, name: K) -> Option<V>
    decreases pairs.len(),
{
    if pairs.len() == 0 {
        None
    } else if pairs.last().0 == name {
        Some(pairs.last().1)
    } else {
        last_value(pairs.drop_last(), name)
    }
}

/// The bytes of `Content-Length`.
pub open spec fn content_length_name() -> Seq<u8> {
    seq![0x43u8, 0x6f, 0x6e, 0x74, 0x65, 0x6e, 0x74, 0x2d, 0x4c, 0x65, 0x6e, 0x67, 0x74, 0x68]
}

pub open spec fn is_digit(b: u8) -> bool {
    0x30 <= b <= 0x39
}

/// The number that the decimal digits `d` write.
pub open spec fn digits_value(d: Seq<u8>) -> nat
    decreases d.len(),
{
    if d.len() == 0 {
        0
    } else {
        digits_value(d.drop_last()) * 10 + (d.last() - 0x30) as nat
    }
}

/// `t` without one leading `+`.
pub open spec fn unsigned_part(t: Seq<u8>) -> Seq<u8> {
    if t.len() > 0 && t[0] == 0x2b {
        t.drop_first()
    } else {
        t
    }
}

pub open spec fn all_digits(d: Seq<u8>) -> bool {
    forall|i: int| 0 <= i < d.len() ==> is_digit(#[trigger] d[i])
}

/// A length written as an optional `+` and one or more decimal digits, whose
/// value fits in `usize`.
pub open spec fn length_of(t: Seq<u8>) -> Option<nat> {
    let d = unsigned_part(t);
    if d.len() > 0 && all_digits(d) && digits_value(d) <= usize::MAX {
        Some(digits_value(d))
    } else {
        None
    }
}

/// What the start line and header block of a request hold.
pub struct Head {
    pub verb: HttpVerb,
    pub path: Seq<u8>,
    pub protocol: HttpProtocol,
    pub headers: Seq<(Seq<u8>, Seq<u8>)>,
    /// Where the body starts: just after the header block.
    pub body_start: int,
    /// The declared body length, if a `Content-Length` header is present.
    pub body_len: Option<nat>,
}

/// Reads the start line and the header block of `s`.
#[verifier::opaque]
pub open spec fn parse_head(s: Seq<u8>) -> Result<Head, ParseError> {
    if s.len() == 0 {
        Err(ParseError::MalformedStartLine)
    } else {
        match start_line_parts(line_at(s, 0)) {
            Err(e) => Err(e),
            Ok((verb, path, protocol)) => match scan_headers(s, after_line(s, 0), seq![]) {
                Err(e) => Err(e),
                Ok((headers, body_start)) => match last_value(headers, content_length_name()) {
                    None => Ok(
                        Head { verb, path, protocol, headers, body_start, body_len: None },
                    ),
                    Some(t) => match length_of(t) {
                        None => Err(ParseError::InvalidContentLength),
                        Some(n) => Ok(
                            Head { verb, path, protocol, headers, body_start, body_len: Some(n) },
                        ),
                    },
                },
            },
        }
    }
}


/// Each (name, value) pair of bytes as the text it encodes.
pub open spec fn decoded(pairs: Seq<(Seq<u8>, Seq<u8>)>) -> Seq<(Seq<char>, Seq<char>)> {
    pairs.map_values(|p: (Seq<u8>, Seq<u8>)| (decode_utf8(p.0), decode_utf8(p.1)))
}

/// Each (name, value) pair of strings as its text.
pub open spec fn text_pairs(pairs: Seq<(String, String)>) -> Seq<(Seq<char>, Seq<char>)> {
    pairs.map_values(|p: (String, String)| (p.0@, p.1@))
}

/// A request as text: what the parser produces.
pub struct RequestView {
    pub verb: HttpVerb,
    pub protocol: HttpProtocol,
    pub path: Seq<char>,
    /// Every header pair in the order received.
    pub headers: Seq<(Seq<char>, Seq<char>)>,
    pub body: Option<Seq<char>>,
}

impl RequestView {
    /// The headers as a mapping: a later header of the same name overrides an earlier one.
    pub open spec fn header_map(self) -> Map<Seq<char>, Seq<char>> {
        Map::new(
            |k: Seq<char>| last_value(self.headers, k) is Some,
            |k: Seq<char>| last_value(self.headers, k)->0,
        )
    }
}

/// Reads a whole request: the start line, the header block and, where a
/// `Content-Length` header declares one, a body of exactly that many bytes.
pub open spec fn parse_request(s: Seq<u8>) -> Result<RequestView, ParseError> {
    match parse_head(s) {
        Err(e) => Err(e),
        Ok(h) => match h.body_len {
            None => Ok(
                RequestView {
                    verb: h.verb,
                    protocol: h.protocol,
                    path: decode_utf8(h.path),
                    headers: decoded(h.headers),
                    body: None,
                },
            ),
            Some(n) => if h.body_start + n > s.len() {
                Err(ParseError::TruncatedBody)
            } else {
                let b = s.subrange(h.body_start, h.body_start + n);
                if valid_utf8(b) {
                    Ok(
                        RequestView {
                            verb: h.verb,
                            protocol: h.protocol,
                            path: decode_utf8(h.path),
                            headers: decoded(h.headers),
                            body: Some(decode_utf8(b)),
                        },
                    )
                } else {
                    Err(ParseError::InvalidBodyEncoding)
                }
            },
        },
    }
}

/// An HTTP request.
#[derive(Debug)]
pub struct HttpRequest {
    pub verb: HttpVerb,
    pub protocol: HttpProtocol,
    pub path: String,
    /// Every header pair in the order received; a later one of the same name
    /// overrides an earlier one.
    pub headers: Vec<(String, String)>,
    pub body: Option<String>,
}

impl View for HttpRequest {
    type V = RequestView;

    open spec fn view(&self) -> RequestView {
        RequestView {
            verb: self.verb,
            protocol: self.protocol,
            path: self.path@,
            headers: text_pairs(self.headers@),
            body: match &self.body {
                Some(b) => Some(b@),
                None => None,
            },
        }
    }
}

/// The bytes of a start line: verb, path and protocol separated by single spaces.
pub open spec fn start_line_bytes(verb: HttpVerb, path: Seq<u8>, protocol: HttpProtocol) -> Seq<u8> {
    verb_bytes(verb) + seq![SP] + path + seq![SP] + protocol_bytes(protocol)
}

/// The header lines of `headers`, each `name: value` and a line break.
pub open spec fn header_lines(headers: Seq<(Seq<char>, Seq<char>)>) -> Seq<u8>
    decreases headers.len(),
{
    if headers.len() == 0 {
        seq![]
    } else {
        header_lines(headers.drop_last()) + encode_utf8(headers.last().0) + seq![COLON, SP]
            + encode_utf8(headers.last().1) + seq![CR, LF]
    }
}

/// The bytes of a request on the wire: start line, header lines, an empty
/// line, then the body if there is one.
pub open spec fn request_bytes(r: RequestView) -> Seq<u8> {
    start_line_bytes(r.verb, encode_utf8(r.path), r.protocol) + seq![CR, LF] + header_lines(
        r.headers,
    ) + seq![CR, LF] + match r.body {
        Some(b) => encode_utf8(b),
        None => seq![],
    }
}

/// Reading digits from the left never lowers the value.
proof fn lemma_digits_prefix(d: Seq<u8>, i: int)
    requires
        0 <= i <= d.len(),
    ensures
        digits_value(d.subrange(0, i)) <= digits_value(d),
    decreases d.len(),
{
    if i < d.len() {
        lemma_digits_prefix(d.drop_last(), i);
        assert(d.drop_last().subrange(0, i) =~= d.subrange(0, i));
    } else {
        assert(d.subrange(0, i) =~= d);
    }
}

/// Relies on std::str::from_utf8: it succeeds exactly when the bytes are UTF-8,
/// and then gives the text they encode.
#[verifier::external_body]
fn utf8_text(b: &[u8]) -> (r: Option<String>)
    ensures
        r is Some <==> valid_utf8(b@),
        r is Some ==> r->0@ == decode_utf8(b@),
{
    match std::str::from_utf8(b) {
        Ok(t) => Some(t.to_string()),
        Err(_) => None,
    }
}

/// The first index at or after `i` where `s` holds `b`, or `s.len()`.
fn find_byte_from(s: &[u8], b: u8, i: usize) -> (r: usize)
    requires
        i <= s@.len(),
    ensures
        r == find_byte(s@, b, i as int),
        i <= r <= s@.len(),
{
    let mut j: usize = i;
    while j < s.len()
        invariant
            i <= j <= s@.len(),
            find_byte(s@, b, i as int) == find_byte(s@, b, j as int),
        decreases s@.len() - j,
    {
        if s[j] == b {
            return j;
        }
        j = j + 1;
    }
    j
}

/// The first index where `s` holds `": "`, or `s.len()`.
fn find_separator_from(s: &[u8]) -> (r: usize)
    ensures
        r == find_separator(s@, 0),
        r <= s@.len(),
        r < s@.len() ==> r + 1 < s@.len(),
{
    let mut j: usize = 0;
    while s.len() - j >= 2
        invariant
            j <= s@.len(),
            find_separator(s@, 0) == find_separator(s@, j as int),
        decreases s@.len() - j,
    {
        if s[j] == COLON && s[j + 1] == SP {
            return j;
        }
        j = j + 1;
    }
    s.len()
}

/// The line that starts at `p`, and where the next one starts.
fn line_from(s: &[u8], p: usize) -> (r: (Vec<u8>, usize))
    requires
        p < s@.len(),
    ensures
        r.0@ == line_at(s@, p as int),
        r.1 == after_line(s@, p as int),
        p < r.1 <= s@.len(),
{
    let e = find_byte_from(s, LF, p);
    let mut end: usize = e;
    if e < s.len() && end > p && s[end - 1] == CR {
        end = end - 1;
    }
    let line = vstd::slice::slice_to_vec(&s[p..end]);
    assert(line@ =~= line_at(s@, p as int));
    let next = if e < s.len() {
        e + 1
    } else {
        s.len()
    };
    (line, next)
}

/// Reads a start line into its verb, path and protocol.
fn parse_start_line(line: &[u8]) -> (r: Result<(HttpVerb, String, HttpProtocol), ParseError>)
    ensures
        match start_line_parts(line@) {
            Ok((v, path, p)) => r is Ok && r->Ok_0.0 == v && r->Ok_0.1@ == decode_utf8(path)
                && r->Ok_0.2 == p,
            Err(e) => r == Err::<(HttpVerb, String, HttpProtocol), ParseError>(e),
        },
{
    let sp1 = find_byte_from(line, SP, 0);
    if sp1 >= line.len() {
        return Err(ParseError::MalformedStartLine);
    }
    let sp2 = find_byte_from(line, SP, sp1 + 1);
    if sp2 >= line.len() {
        return Err(ParseError::MalformedStartLine);
    }
    let sp3 = find_byte_from(line, SP, sp2 + 1);
    if sp3 < line.len() {
        return Err(ParseError::MalformedStartLine);
    }
    let verb = HttpVerb::from_bytes(&line[0..sp1])?;
    let protocol = HttpProtocol::from_bytes(&line[sp2 + 1..line.len()])?;
    match utf8_text(&line[sp1 + 1..sp2]) {
        Some(path) => Ok((verb, path, protocol)),
        None => Err(ParseError::MalformedStartLine),
    }
}


/// The bytes of `Content-Length`.
fn content_length_bytes() -> (r: Vec<u8>)
    ensures
        r@ == content_length_name(),
{
    let r = vec![
        0x43u8, 0x6f, 0x6e, 0x74, 0x65, 0x6e, 0x74, 0x2d, 0x4c, 0x65, 0x6e, 0x67, 0x74, 0x68,
    ];
    assert(r@ =~= content_length_name());
    r
}

/// Reads a body length: an optional `+` and decimal digits that fit in `usize`.
pub fn parse_length(t: &[u8]) -> (r: Option<usize>)
    ensures
        match length_of(t@) {
            Some(n) => r == Some(n as usize),
            None => r is None,
        },
{
    let start: usize = if t.len() > 0 && t[0] == 0x2b {
        1
    } else {
        0
    };
    let ghost d = unsigned_part(t@);
    assert(d =~= t@.subrange(start as int, t@.len() as int));
    if start >= t.len() {
        return None;
    }
    let mut v: usize = 0;
    let mut i: usize = start;
    while i < t.len()
        invariant
            start <= i <= t@.len(),
            d == t@.subrange(start as int, t@.len() as int),
            d == unsigned_part(t@),
            v as nat == digits_value(d.subrange(0, i - start)),
            forall|k: int| 0 <= k < i - start ==> is_digit(#[trigger] d[k]),
        decreases t@.len() - i,
    {
        let c = t[i];
        assert(d[i - start] == c);
        if c < 0x30 || c > 0x39 {
            assert(!is_digit(d[i - start]));
            return None;
        }
        let digit = (c - 0x30) as usize;
        let ghost x = d.subrange(0, i + 1 - start);
        proof {
            assert(x.drop_last() =~= d.subrange(0, i - start));
            assert(x.last() == c);
            assert(digits_value(x) == v * 10 + digit);
            lemma_digits_prefix(d, i + 1 - start);
        }
        match v.checked_mul(10) {
            None => {
                return None;
            },
            Some(m) => match m.checked_add(digit) {
                None => {
                    return None;
                },
                Some(next) => {
                    v = next;
                },
            },
        }
        i = i + 1;
    }
    assert(d.subrange(0, i - start) =~= d);
    Some(v)
}

/// A header block read from a request: its pairs as text, the raw value of its
/// last `Content-Length` header, and where the block ends.
type HeaderBlock = (Vec<(String, String)>, Option<Vec<u8>>, usize);

/// Reads the header block that starts at `p0`.
fn read_headers(s: &[u8], p0: usize) -> (r: Result<HeaderBlock, ParseError>)
    requires
        p0 <= s@.len(),
    ensures
        match scan_headers(s@, p0 as int, seq![]) {
            Ok((pairs, end)) => r is Ok && text_pairs(r->Ok_0.0@) == decoded(pairs) && r->Ok_0.2
                == end && match last_value(pairs, content_length_name()) {
                None => r->Ok_0.1 is None,
                Some(v) => r->Ok_0.1 is Some && r->Ok_0.1->0@ == v,
            },
            Err(e) => r is Err && r->Err_0 == e,
        },
        r is Ok ==> r->Ok_0.2 <= s@.len(),
{
    let name = content_length_bytes();
    let mut p: usize = p0;
    let mut out: Vec<(String, String)> = Vec::new();
    let mut length: Option<Vec<u8>> = None;
    let ghost mut acc: Seq<(Seq<u8>, Seq<u8>)> = seq![];
    while p < s.len()
        invariant
            p0 <= p <= s@.len(),
            name@ == content_length_name(),
            scan_headers(s@, p0 as int, seq![]) == scan_headers(s@, p as int, acc),
            text_pairs(out@) == decoded(acc),
            match last_value(acc, content_length_name()) {
                None => length is None,
                Some(v) => length is Some && length->0@ == v,
            },
        decreases s@.len() - p,
    {
        let (line, next) = line_from(s, p);
        if line.len() == 0 {
            return Ok((out, length, next));
        }
        let k = find_separator_from(line.as_slice());
        if k < line.len() {
            let key = &line[0..k];
            let value = &line[k + 2..line.len()];
            let key_text = utf8_text(key);
            let value_text = utf8_text(value);
            if key_text.is_none() || value_text.is_none() {
                return Err(ParseError::InvalidHeaderEncoding);
            }
            if bytes_equal(key, name.as_slice()) {
                length = Some(vstd::slice::slice_to_vec(value));
            }
            let ghost pair = (key@, value@);
            let ghost before = out@;
            proof {
                assert(acc.push(pair).drop_last() =~= acc);
            }
            let entry = (key_text.unwrap(), value_text.unwrap());
            assert(entry.0@ == decode_utf8(pair.0) && entry.1@ == decode_utf8(pair.1));
            out.push(entry);
            proof {
                assert(text_pairs(out@) =~= text_pairs(before).push((entry.0@, entry.1@)));
                assert(decoded(acc.push(pair)) =~= decoded(acc).push(
                    (decode_utf8(pair.0), decode_utf8(pair.1)),
                ));
                acc = acc.push(pair);
            }
        }
        p = next;
    }
    Ok((out, length, s.len()))
}


/// The start line and header block of a request, read.
struct RequestHead {
    verb: HttpVerb,
    path: String,
    protocol: HttpProtocol,
    headers: Vec<(String, String)>,
    body_start: usize,
    body_len: Option<usize>,
}

/// Whether `r` holds what `h` describes.
spec fn head_matches(r: RequestHead, h: Head) -> bool {
    &&& r.verb == h.verb
    &&& r.path@ == decode_utf8(h.path)
    &&& r.protocol == h.protocol
    &&& text_pairs(r.headers@) == decoded(h.headers)
    &&& r.body_start == h.body_start
    &&& match h.body_len {
        None => r.body_len is None,
        Some(n) => r.body_len is Some && r.body_len->0 == n,
    }
}

/// Reads the start line and the header block of `s`.
fn read_head(s: &[u8]) -> (r: Result<RequestHead, ParseError>)
    ensures
        match parse_head(s@) {
            Ok(h) => r is Ok && head_matches(r->Ok_0, h),
            Err(e) => r is Err && r->Err_0 == e,
        },
        r is Ok ==> r->Ok_0.body_start <= s@.len(),
{
    reveal(parse_head);
    if s.len() == 0 {
        return Err(ParseError::MalformedStartLine);
    }
    let (line, next) = line_from(s, 0);
    let (verb, path, protocol) = match parse_start_line(line.as_slice()) {
        Ok(parts) => parts,
        Err(e) => {
            return Err(e);
        },
    };
    let (headers, length, body_start) = match read_headers(s, next) {
        Ok(block) => block,
        Err(e) => {
            return Err(e);
        },
    };
    let body_len = match length {
        None => None,
        Some(t) => match parse_length(t.as_slice()) {
            None => {
                return Err(ParseError::InvalidContentLength);
            },
            Some(n) => Some(n),
        },
    };
    Ok(RequestHead { verb, path, protocol, headers, body_start, body_len })
}

impl HttpRequest {
    /// Reads a request from the bytes of `request`. A body is read only where a
    /// `Content-Length` header declares one, and then exactly that many bytes;
    /// anything after them is left alone.
    pub fn build(request: &[u8]) -> (r: Result<HttpRequest, ParseError>)
        ensures
            match parse_request(request@) {
                Ok(v) => r is Ok && r->Ok_0@ == v,
                Err(e) => r is Err && r->Err_0 == e,
            },
    {
        let head = read_head(request)?;
        let body = match head.body_len {
            None => None,
            Some(n) => {
                if n > request.len() - head.body_start {
                    return Err(ParseError::TruncatedBody);
                }
                match utf8_text(&request[head.body_start..head.body_start + n]) {
                    Some(text) => Some(text),
                    None => {
                        return Err(ParseError::InvalidBodyEncoding);
                    },
                }
            },
        };
        Ok(
            HttpRequest {
                verb: head.verb,
                protocol: head.protocol,
                path: head.path,
                headers: head.headers,
                body,
            },
        )
    }

    /// How many body bytes follow the start line and header block held in
    /// `head`: the declared `Content-Length`, or zero where there is none.
    pub fn body_length(head: &[u8]) -> (r: Result<usize, ParseError>)
        ensures
            match parse_head(head@) {
                Ok(h) => match h.body_len {
                    Some(n) => r is Ok && r->Ok_0 == n,
                    None => r == Ok::<usize, ParseError>(0),
                },
                Err(e) => r == Err::<usize, ParseError>(e),
            },
    {
        let parts = read_head(head)?;
        match parts.body_len {
            Some(n) => Ok(n),
            None => Ok(0),
        }
    }
    /// The value of the header named exactly `name` (names are case-sensitive);
    /// where several have that name, the last one.
    pub fn header(&self, name: &str) -> (r: Option<&String>)
        ensures
            match last_value(self@.headers, name@) {
                Some(v) => r is Some && r->0@ == v,
                None => r is None,
            },
            r is Some <==> self@.header_map().contains_key(name@),
            r is Some ==> self@.header_map()[name@] == r->0@,
    {
        let key = name.to_owned();
        let ghost h = self@.headers;
        let mut i: usize = self.headers.len();
        assert(h.subrange(0, i as int) =~= h);
        while i > 0
            invariant
                i <= self.headers@.len(),
                h == text_pairs(self.headers@),
                key@ == name@,
                last_value(h, name@) == last_value(h.subrange(0, i as int), name@),
            decreases i,
        {
            assert(h.subrange(0, i as int).drop_last() =~= h.subrange(0, i - 1));
            i = i - 1;
            if self.headers[i].0 == key {
                return Some(&self.headers[i].1);
            }
        }
        assert(h.subrange(0, 0) =~= Seq::<(Seq<char>, Seq<char>)>::empty());
        None
    }

    /// The bytes of this request's start line.
    pub fn start_line(&self) -> (r: Vec<u8>)
        ensures
            r@ == start_line_bytes(self.verb, encode_utf8(self.path@), self.protocol),
    {
        let mut r = self.verb.to_bytes();
        r.push(SP);
        r.extend_from_slice(self.path.as_str().as_bytes());
        r.push(SP);
        let p = self.protocol.to_bytes();
        r.extend_from_slice(p.as_slice());
        assert(r@ =~= start_line_bytes(self.verb, encode_utf8(self.path@), self.protocol));
        r
    }

    /// The bytes of this request on the wire.
    pub fn to_bytes(&self) -> (r: Vec<u8>)
        ensures
            r@ == request_bytes(self@),
    {
        let mut r = self.start_line();
        r.push(CR);
        r.push(LF);
        let ghost h = self@.headers;
        let ghost first = r@;
        let mut i: usize = 0;
        while i < self.headers.len()
            invariant
                i <= self.headers@.len(),
                h == text_pairs(self.headers@),
                r@ == first + header_lines(h.subrange(0, i as int)),
            decreases self.headers@.len() - i,
        {
            let ghost before = r@;
            r.extend_from_slice(self.headers[i].0.as_str().as_bytes());
            r.push(COLON);
            r.push(SP);
            r.extend_from_slice(self.headers[i].1.as_str().as_bytes());
            r.push(CR);
            r.push(LF);
            proof {
                assert(h.subrange(0, i + 1).drop_last() =~= h.subrange(0, i as int));
                assert(r@ =~= first + header_lines(h.subrange(0, i + 1)));
            }
            i = i + 1;
        }
        assert(h.subrange(0, i as int) =~= h);
        r.push(CR);
        r.push(LF);
        match &self.body {
            Some(b) => r.extend_from_slice(b.as_str().as_bytes()),
            None => {},
        }
        assert(r@ =~= request_bytes(self@));
        r
    }
}

} // verus!
