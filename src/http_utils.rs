use vstd::prelude::*;

verus! {

/// The protocol versions a request line may name.
#[derive(Debug, PartialEq, Eq, Structural, Clone, Copy)]
pub enum HttpProtocol {
    OnePointOne,
}

/// The request methods this server understands.
#[derive(Debug, PartialEq, Eq, Structural, Clone, Copy)]
pub enum HttpVerb {
    Get,
    Post,
    Put,
}

/// The status codes this server answers with.
#[derive(Debug, PartialEq, Eq, Structural, Clone, Copy)]
pub enum HttpCode {
    Okay,
    NotFound,
    BadRequest,
}

/// Why a request could not be read.
#[derive(Debug, PartialEq, Eq, Structural, Clone, Copy)]
pub enum ParseError {
    /// The start line is missing, does not hold exactly three tokens
    /// separated by single spaces, or its path is not UTF-8 text.
    MalformedStartLine,
    InvalidVerb,
    InvalidProtocol,
    /// A header line holds `": "` but its name or value is not UTF-8 text.
    InvalidHeaderEncoding,
    InvalidContentLength,
    TruncatedBody,
    InvalidBodyEncoding,
}

/// The bytes of `GET`, `POST` and `PUT`.
pub open spec fn verb_bytes(v: HttpVerb) -> Seq<u8> {
    match v {
        HttpVerb::Get => seq![0x47u8, 0x45, 0x54],
        HttpVerb::Post => seq![0x50u8, 0x4f, 0x53, 0x54],
        HttpVerb::Put => seq![0x50u8, 0x55, 0x54],
    }
}

/// The bytes of `HTTP/1.1`.
pub open spec fn protocol_bytes(p: HttpProtocol) -> Seq<u8> {
    match p {
        HttpProtocol::OnePointOne => seq![0x48u8, 0x54, 0x54, 0x50, 0x2f, 0x31, 0x2e, 0x31],
    }
}

/// The verb whose name is exactly `token`, if there is one.
pub open spec fn verb_of(token: Seq<u8>) -> Option<HttpVerb> {
    if token == verb_bytes(HttpVerb::Get) {
        Some(HttpVerb::Get)
    } else if token == verb_bytes(HttpVerb::Post) {
        Some(HttpVerb::Post)
    } else if token == verb_bytes(HttpVerb::Put) {
        Some(HttpVerb::Put)
    } else {
        None
    }
}

/// The protocol whose name is exactly `token`, if there is one.
pub open spec fn protocol_of(token: Seq<u8>) -> Option<HttpProtocol> {
    if token == protocol_bytes(HttpProtocol::OnePointOne) {
        Some(HttpProtocol::OnePointOne)
    } else {
        None
    }
}

/// The numeric code of a status.
pub open spec fn code_number(c: HttpCode) -> nat {
    match c {
        HttpCode::Okay => 200,
        HttpCode::NotFound => 404,
        HttpCode::BadRequest => 400,
    }
}

/// The status line text after the version: the code, a space and the reason phrase.
pub open spec fn code_bytes(c: HttpCode) -> Seq<u8> {
    match c {
        HttpCode::Okay => seq![0x32u8, 0x30, 0x30, 0x20, 0x4f, 0x4b],
        HttpCode::NotFound => seq![
            0x34u8, 0x30, 0x34, 0x20, 0x4e, 0x4f, 0x54, 0x20, 0x46, 0x4f, 0x55, 0x4e, 0x44,
        ],
        HttpCode::BadRequest => seq![
            0x34u8, 0x30, 0x30, 0x20, 0x42, 0x41, 0x44, 0x20, 0x52, 0x45, 0x51, 0x55, 0x45, 0x53,
            0x54,
        ],
    }
}

/// Whether `a` and `b` hold the same bytes.
pub fn bytes_equal(a: &[u8], b: &[u8]) -> (r: bool)
    ensures
        r == (a@ == b@),
{
    if a.len() != b.len() {
        return false;
    }
    let mut i: usize = 0;
    while i < a.len()
        invariant
            a@.len() == b@.len(),
            0 <= i <= a@.len(),
            forall|k: int| 0 <= k < i ==> a@[k] == b@[k],
        decreases a@.len() - i,
    {
        if a[i] != b[i] {
            return false;
        }
        i = i + 1;
    }
    assert(a@ =~= b@);
    true
}

impl HttpVerb {
    /// The bytes of this method's name.
    pub fn to_bytes(&self) -> (r: Vec<u8>)
        ensures
            r@ == verb_bytes(*self),
    {
        let r = match self {
            HttpVerb::Get => vec![0x47u8, 0x45, 0x54],
            HttpVerb::Post => vec![0x50u8, 0x4f, 0x53, 0x54],
            HttpVerb::Put => vec![0x50u8, 0x55, 0x54],
        };
        assert(r@ =~= verb_bytes(*self));
        r
    }

    /// The method named exactly by `token`; any other token is refused,
    /// never mapped to a default.
    pub fn from_bytes(token: &[u8]) -> (r: Result<HttpVerb, ParseError>)
        ensures
            match verb_of(token@) {
                Some(v) => r == Ok::<HttpVerb, ParseError>(v),
                None => r == Err::<HttpVerb, ParseError>(ParseError::InvalidVerb),
            },
    {
        let candidates = [HttpVerb::Get, HttpVerb::Post, HttpVerb::Put];
        let mut i: usize = 0;
        while i < 3
            invariant
                0 <= i <= 3,
                candidates@ == seq![HttpVerb::Get, HttpVerb::Post, HttpVerb::Put],
                forall|k: int| 0 <= k < i ==> token@ != verb_bytes(#[trigger] candidates@[k]),
            decreases 3 - i,
        {
            let name = candidates[i].to_bytes();
            if bytes_equal(token, name.as_slice()) {
                return Ok(candidates[i]);
            }
            i = i + 1;
        }
        assert(token@ != verb_bytes(candidates@[0]));
        assert(token@ != verb_bytes(candidates@[1]));
        assert(token@ != verb_bytes(candidates@[2]));
        Err(ParseError::InvalidVerb)
    }
}


impl HttpProtocol {
    /// The bytes of this version's name.
    pub fn to_bytes(&self) -> (r: Vec<u8>)
        ensures
            r@ == protocol_bytes(*self),
    {
        let r = vec![0x48u8, 0x54, 0x54, 0x50, 0x2f, 0x31, 0x2e, 0x31];
        assert(r@ =~= protocol_bytes(*self));
        r
    }

    /// The version named exactly by `token`; any other token is refused,
    /// never mapped to a default.
    pub fn from_bytes(token: &[u8]) -> (r: Result<HttpProtocol, ParseError>)
        ensures
            match protocol_of(token@) {
                Some(p) => r == Ok::<HttpProtocol, ParseError>(p),
                None => r == Err::<HttpProtocol, ParseError>(ParseError::InvalidProtocol),
            },
    {
        let name = HttpProtocol::OnePointOne.to_bytes();
        if bytes_equal(token, name.as_slice()) {
            Ok(HttpProtocol::OnePointOne)
        } else {
            Err(ParseError::InvalidProtocol)
        }
    }
}

impl HttpCode {
    /// The code and reason phrase, as they follow the version in a status line.
    pub fn to_bytes(&self) -> (r: Vec<u8>)
        ensures
            r@ == code_bytes(*self),
    {
        let r = match self {
            HttpCode::Okay => vec![0x32u8, 0x30, 0x30, 0x20, 0x4f, 0x4b],
            HttpCode::NotFound => vec![
                0x34u8, 0x30, 0x34, 0x20, 0x4e, 0x4f, 0x54, 0x20, 0x46, 0x4f, 0x55, 0x4e, 0x44,
            ],
            HttpCode::BadRequest => vec![
                0x34u8, 0x30, 0x30, 0x20, 0x42, 0x41, 0x44, 0x20, 0x52, 0x45, 0x51, 0x55, 0x45,
                0x53, 0x54,
            ],
        };
        assert(r@ =~= code_bytes(*self));
        r
    }

    /// The numeric code.
    pub fn number(&self) -> (r: u16)
        ensures
            r as nat == code_number(*self),
    {
        match self {
            HttpCode::Okay => 200,
            HttpCode::NotFound => 404,
            HttpCode::BadRequest => 400,
        }
    }
}

} // verus!
