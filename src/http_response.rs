use vstd::prelude::*;
use vstd::utf8::encode_utf8;

use crate::http_request::{CR, LF, SP};
use crate::http_utils::{code_bytes, protocol_bytes, HttpCode, HttpProtocol};

verus! {

/// The decimal digits of `n`, most significant first, without leading zeros.
pub open spec fn decimal(n: nat) -> Seq<u8>
    decreases n,
{
    if n < 10 {
        seq![(0x30 + n) as u8]
    } else {
        decimal(n / 10).push((0x30 + n % 10) as u8)
    }
}

/// The bytes of `Content-Length`, a colon and a space.
pub open spec fn content_length_prefix() -> Seq<u8> {
    seq![
        0x43u8, 0x6f, 0x6e, 0x74, 0x65, 0x6e, 0x74, 0x2d, 0x4c, 0x65, 0x6e, 0x67, 0x74, 0x68, 0x3a,
        0x20,
    ]
}

/// A response on the wire: the status line, one `Content-Length` header giving
/// the body's length in bytes, an empty line, and the body.
pub open spec fn response_bytes(code: HttpCode, body: Seq<u8>) -> Seq<u8> {
    protocol_bytes(HttpProtocol::OnePointOne) + seq![SP] + code_bytes(code) + seq![CR, LF]
        + content_length_prefix() + decimal(body.len()) + seq![CR, LF, CR, LF] + body
}

/// Appends the decimal digits of `n` to `out`.
pub fn push_decimal(n: usize, out: &mut Vec<u8>)
    ensures
        final(out)@ == old(out)@ + decimal(n as nat),
    decreases n,
{
    if n >= 10 {
        push_decimal(n / 10, out);
    }
    out.push(0x30u8 + (n % 10) as u8);
    assert(final(out)@ =~= old(out)@ + decimal(n as nat));
}

/// The body of every answer to a request that cannot be read.
pub open spec fn bad_request_body() -> Seq<char> {
    seq!['B', 'a', 'd', ' ', 'R', 'e', 'q', 'u', 'e', 's', 't']
}

/// An HTTP response: a status and a body.
pub struct HttpResponse {
    pub code: HttpCode,
    pub body: String,
}

impl HttpResponse {
    /// The answer to a request that cannot be read: 400 with a fixed body.
    pub fn bad_request() -> (r: HttpResponse)
        ensures
            r.code == HttpCode::BadRequest,
            r.body@ == bad_request_body(),
    {
        let body = "Bad Request".to_owned();
        proof {
            reveal_strlit("Bad Request");
        }
        assert(body@ =~= bad_request_body());
        HttpResponse { code: HttpCode::BadRequest, body }
    }

    /// The answer where no route matches: 404 with the given body.
    pub fn not_found(body: String) -> (r: HttpResponse)
        ensures
            r.code == HttpCode::NotFound,
            r.body == body,
    {
        HttpResponse { code: HttpCode::NotFound, body }
    }

    /// The bytes of this response on the wire.
    pub fn to_bytes(&self) -> (r: Vec<u8>)
        ensures
            r@ == response_bytes(self.code, encode_utf8(self.body@)),
    {
        let body = self.body.as_str().as_bytes();
        let mut r = HttpProtocol::OnePointOne.to_bytes();
        r.push(SP);
        let code = self.code.to_bytes();
        r.extend_from_slice(code.as_slice());
        r.push(CR);
        r.push(LF);
        let prefix = vec![
            0x43u8, 0x6f, 0x6e, 0x74, 0x65, 0x6e, 0x74, 0x2d, 0x4c, 0x65, 0x6e, 0x67, 0x74, 0x68,
            0x3a, 0x20,
        ];
        assert(prefix@ =~= content_length_prefix());
        r.extend_from_slice(prefix.as_slice());
        push_decimal(body.len(), &mut r);
        r.push(CR);
        r.push(LF);
        r.push(CR);
        r.push(LF);
        r.extend_from_slice(body);
        assert(r@ =~= response_bytes(self.code, encode_utf8(self.body@)));
        r
    }
}

} // verus!
