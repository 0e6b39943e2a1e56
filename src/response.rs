//! Responses and their wire form.
use vstd::prelude::*;
use vstd::string::StringSliceAdditionalSpecFns;
use crate::byte_map::ByteMap;
use crate::request::{error_text, HttpError};
use crate::text::{append_bytes, ascii_lower, bytes_eq, copy_range, to_ascii_lower};

verus! {

/// Reply statuses.
#[derive(Debug, PartialEq, Eq, Structural, Clone, Copy)]
pub enum HttpStatus {
    Success,
    BadRequest,
    NotFound,
    InternalServerError,
}

/// The code and reason phrase of a status.
pub open spec fn status_text(s: HttpStatus) -> Seq<u8> {
    match s {
        HttpStatus::Success => "200 OK".spec_bytes(),
        HttpStatus::BadRequest => "400 Bad Request".spec_bytes(),
        HttpStatus::NotFound => "404 Not Found".spec_bytes(),
        HttpStatus::InternalServerError => "500 Internal Server Error".spec_bytes(),
    }
}

impl HttpStatus {
    pub fn to_str(&self) -> (r: &'static str)
        ensures
            r.spec_bytes() == status_text(*self),
    {
        match self {
            HttpStatus::Success => "200 OK",
            HttpStatus::BadRequest => "400 Bad Request",
            HttpStatus::NotFound => "404 Not Found",
            HttpStatus::InternalServerError => "500 Internal Server Error",
        }
    }
}

/// Decimal digits of `n`, most significant first.
pub open spec fn decimal(n: nat) -> Seq<u8>
    decreases n,
{
    if n < 10 {
        seq![(48 + n) as u8]
    } else {
        decimal(n / 10).push((48 + n % 10) as u8)
    }
}

/// Appends the decimal digits of `n` to `out`.
pub fn push_decimal(out: &mut Vec<u8>, n: usize)
    ensures
        final(out)@ == old(out)@ + decimal(n as nat),
    decreases n,
{
    if n < 10 {
        out.push(48 + n as u8);
        assert(final(out)@ =~= old(out)@ + decimal(n as nat));
    } else {
        push_decimal(out, n / 10);
        out.push(48 + (n % 10) as u8);
        assert(final(out)@ =~= old(out)@ + decimal(n as nat));
    }
}

/// The header name that is always computed and never taken from the caller.
pub open spec fn length_key() -> Seq<u8> {
    "content-length".spec_bytes()
}

pub open spec fn line_end() -> Seq<u8> {
    "\r\n".spec_bytes()
}

/// Header lines `key: value\r\n` for the first `n` entries, in key order,
/// leaving out any `Content-Length` entry.
pub open spec fn headers_wire(ps: Seq<(Seq<u8>, Seq<u8>)>, n: int) -> Seq<u8>
    decreases n,
{
    if n <= 0 || n > ps.len() {
        Seq::empty()
    } else if ascii_lower(ps[n - 1].0) == length_key() {
        headers_wire(ps, n - 1)
    } else {
        headers_wire(ps, n - 1) + ps[n - 1].0 + ": ".spec_bytes() + ps[n - 1].1 + line_end()
    }
}

/// The `Content-Length` line for a body of `n` bytes.
pub open spec fn length_line(n: nat) -> Seq<u8> {
    "Content-Length: ".spec_bytes() + decimal(n) + line_end()
}

/// A reply under construction.
pub struct HttpResponse {
    version: Vec<u8>,
    status: HttpStatus,
    headers: ByteMap,
    body: Option<Vec<u8>>,
}

impl HttpResponse {
    pub closed spec fn spec_status(&self) -> HttpStatus {
        self.status
    }

    pub closed spec fn spec_version(&self) -> Seq<u8> {
        self.version@
    }

    pub closed spec fn spec_headers(&self) -> ByteMap {
        self.headers
    }

    pub closed spec fn spec_body(&self) -> Option<Seq<u8>> {
        match self.body {
            Some(b) => Some(b@),
            None => None,
        }
    }

    pub closed spec fn wf(&self) -> bool {
        self.headers.wf()
    }

    /// The body bytes, empty when there is no body.
    pub open spec fn body_bytes(&self) -> Seq<u8> {
        match self.spec_body() {
            Some(b) => b,
            None => Seq::empty(),
        }
    }

    /// Status line and header lines, without the `Content-Length` line.
    pub open spec fn head_wire(&self) -> Seq<u8> {
        self.spec_version() + " ".spec_bytes() + status_text(self.spec_status()) + line_end()
            + headers_wire(
            self.spec_headers().pairs(),
            self.spec_headers().pairs().len() as int,
        )
    }

    /// The bytes that go on the wire.
    pub open spec fn wire(&self) -> Seq<u8> {
        self.head_wire() + length_line(self.body_bytes().len()) + line_end() + self.body_bytes()
    }

    /// A `200` reply with the default headers and no body.
    fn base() -> (r: HttpResponse)
        ensures
            r.wf(),
            r.spec_status() == HttpStatus::Success,
            r.spec_version() == "HTTP/1.1".spec_bytes(),
            r.spec_headers()@ == default_headers(),
            r.spec_body().is_none(),
    {
        let mut headers = ByteMap::new();
        headers.insert(owned("Content-Type"), owned("text/plain"));
        headers.insert(owned("Server"), owned("FlapyPan/my-http-server"));
        HttpResponse { version: owned("HTTP/1.1"), status: HttpStatus::Success, headers, body: None }
    }

    /// A reply with the given status and body; the given headers are added to
    /// (and may replace) the defaults.
    pub fn new(status: HttpStatus, headers: Option<ByteMap>, body: Option<Vec<u8>>) -> (r:
        HttpResponse)
        requires
            headers.is_some() ==> headers.unwrap().wf(),
        ensures
            r.wf(),
            r.spec_status() == status,
            r.spec_version() == "HTTP/1.1".spec_bytes(),
            r.spec_headers()@ == (match headers {
                Some(h) => default_headers().union_prefer_right(h@),
                None => default_headers(),
            }),
            r.spec_body() == opt_bytes(body),
    {
        let mut response = HttpResponse::base();
        response.status = status;
        match headers {
            Some(hs) => {
                let mut i: usize = 0;
                while i < hs.len()
                    invariant
                        hs.wf(),
                        i <= hs.pairs().len(),
                        response.status == status,
                        response.version@ == "HTTP/1.1".spec_bytes(),
                        response.headers.wf(),
                        response.headers@ == default_headers().union_prefer_right(
                            crate::byte_map::map_of(hs.pairs().take(i as int)),
                        ),
                    decreases hs.pairs().len() - i,
                {
                    let (k, v) = hs.entry(i);
                    let kc = copy_range(k.as_slice(), 0, k.len());
                    let vc = copy_range(v.as_slice(), 0, v.len());
                    assert(kc@ =~= k@);
                    assert(vc@ =~= v@);
                    response.headers.insert(kc, vc);
                    proof {
                        crate::byte_map::lemma_map_of_take(hs.pairs(), i as int);
                        assert(default_headers().union_prefer_right(
                            crate::byte_map::map_of(hs.pairs().take(i + 1)),
                        ) =~= default_headers().union_prefer_right(
                            crate::byte_map::map_of(hs.pairs().take(i as int)),
                        ).insert(k@, v@));
                    }
                    i = i + 1;
                }
                assert(hs.pairs().take(hs.pairs().len() as int) =~= hs.pairs());
            },
            None => {},
        }
        response.body = body;
        response
    }

    /// A `404` reply with an HTML content type and the given body.
    pub fn not_found(body: Option<Vec<u8>>) -> (r: HttpResponse)
        ensures
            r.wf(),
            r.spec_status() == HttpStatus::NotFound,
            r.spec_version() == "HTTP/1.1".spec_bytes(),
            r.spec_headers()@ == default_headers().insert(
                "Content-Type".spec_bytes(),
                "text/html".spec_bytes(),
            ),
            r.spec_body() == opt_bytes(body),
    {
        let mut response = HttpResponse::base();
        response.status = HttpStatus::NotFound;
        response.headers.insert(owned("Content-Type"), owned("text/html"));
        response.body = body;
        response
    }

    /// The `400` reply for a request that failed, with the error's description as its body.
    pub fn bad_request(error: HttpError) -> (r: HttpResponse)
        ensures
            r.wf(),
            r.spec_status() == HttpStatus::BadRequest,
            r.spec_version() == "HTTP/1.1".spec_bytes(),
            r.spec_headers()@ == default_headers(),
            r.spec_body() == Some(error_text(error)),
    {
        let m = error.message().as_bytes();
        let body = copy_range(m, 0, m.len());
        assert(body@ =~= m@);
        HttpResponse::new(HttpStatus::BadRequest, None, Some(body))
    }

    /// The header lines, in key order, without any `Content-Length` entry.
    fn headers(&self) -> (r: Vec<u8>)
        ensures
            r@ == headers_wire(self.spec_headers().pairs(), self.spec_headers().pairs().len() as int),
    {
        let hs = &self.headers;
        let mut out: Vec<u8> = Vec::new();
        let mut i: usize = 0;
        while i < hs.len()
            invariant
                hs == self.spec_headers(),
                i <= hs.pairs().len(),
                out@ == headers_wire(hs.pairs(), i as int),
            decreases hs.pairs().len() - i,
        {
            let (k, v) = hs.entry(i);
            let lk = to_ascii_lower(k.as_slice());
            if !bytes_eq(lk.as_slice(), "content-length".as_bytes()) {
                append_bytes(&mut out, k.as_slice());
                append_bytes(&mut out, ": ".as_bytes());
                append_bytes(&mut out, v.as_slice());
                append_bytes(&mut out, "\r\n".as_bytes());
                assert(out@ =~= headers_wire(hs.pairs(), i + 1));
            }
            i = i + 1;
        }
        out
    }

    /// The reply as wire bytes: status line, header lines in key order, a
    /// `Content-Length` line computed from the body, a blank line, the body.
    pub fn to_vec(&self) -> (r: Vec<u8>)
        ensures
            r@ == self.wire(),
    {
        let mut out: Vec<u8> = Vec::new();
        append_bytes(&mut out, self.version.as_slice());
        append_bytes(&mut out, " ".as_bytes());
        append_bytes(&mut out, self.status.to_str().as_bytes());
        append_bytes(&mut out, "\r\n".as_bytes());
        let hs = self.headers();
        append_bytes(&mut out, hs.as_slice());
        append_bytes(&mut out, "Content-Length: ".as_bytes());
        let n: usize = match &self.body {
            Some(b) => b.len(),
            None => 0,
        };
        push_decimal(&mut out, n);
        append_bytes(&mut out, "\r\n".as_bytes());
        append_bytes(&mut out, "\r\n".as_bytes());
        match &self.body {
            Some(b) => append_bytes(&mut out, b.as_slice()),
            None => {},
        }
        assert(out@ =~= self.wire());
        out
    }
}

/// The headers every reply starts with.
pub open spec fn default_headers() -> Map<Seq<u8>, Seq<u8>> {
    Map::empty().insert("Content-Type".spec_bytes(), "text/plain".spec_bytes()).insert(
        "Server".spec_bytes(),
        "FlapyPan/my-http-server".spec_bytes(),
    )
}

pub open spec fn opt_bytes(o: Option<Vec<u8>>) -> Option<Seq<u8>> {
    match o {
        Some(b) => Some(b@),
        None => None,
    }
}

/// The bytes of a string literal.
fn owned(s: &str) -> (r: Vec<u8>)
    ensures
        r@ == s.spec_bytes(),
{
    let b = s.as_bytes();
    let r = copy_range(b, 0, b.len());
    assert(r@ =~= b@);
    r
}

/// Whatever headers a reply declares, its wire form ends with one
/// `Content-Length` line giving the body's length in bytes, a blank line and
/// the body; declared `Content-Length` entries are left out of the header lines.
pub proof fn lemma_length_matches_body(r: HttpResponse, i: int)
    requires
        0 <= i < r.spec_headers().pairs().len(),
        ascii_lower(r.spec_headers().pairs()[i].0) == length_key(),
    ensures
        r.wire() == r.head_wire() + "Content-Length: ".spec_bytes() + decimal(r.body_bytes().len())
            + line_end() + line_end() + r.body_bytes(),
        headers_wire(r.spec_headers().pairs(), i + 1) == headers_wire(r.spec_headers().pairs(), i),
{
    assert(r.wire() =~= r.head_wire() + "Content-Length: ".spec_bytes() + decimal(
        r.body_bytes().len(),
    ) + line_end() + line_end() + r.body_bytes());
}

} // verus!
