//! Decoding of a request: request line, headers, query parameters and body.
use vstd::prelude::*;
use vstd::string::StringSliceAdditionalSpecFns;
use crate::byte_map::ByteMap;
use crate::text::{
    after_first, before_first, bytes_eq, copy_range, split_all, words, words_of, split_once, split_pattern, lower_text, lower_of, trim_text, trim_of,
    starts_with, ends_with, has_prefix, has_suffix, append_bytes, is_utf8, opt_view,
    lemma_find_byte, split_from,
};
use vstd::utf8::valid_utf8;

verus! {

/// Request methods that the engine tells apart.
#[derive(Debug, PartialEq, Eq, Structural, Clone, Copy)]
pub enum HttpMethod {
    Unknown,
    Options,
    Get,
    Post,
}

pub open spec fn method_of(t: Seq<u8>) -> HttpMethod {
    if t == "OPTIONS".spec_bytes() {
        HttpMethod::Options
    } else if t == "GET".spec_bytes() {
        HttpMethod::Get
    } else if t == "POST".spec_bytes() {
        HttpMethod::Post
    } else {
        HttpMethod::Unknown
    }
}

impl HttpMethod {
    /// The method named by a request-line token; any other token is `Unknown`.
    pub fn from_token(t: &[u8]) -> (r: HttpMethod)
        ensures
            r == method_of(t@),
    {
        if bytes_eq(t, "OPTIONS".as_bytes()) {
            HttpMethod::Options
        } else if bytes_eq(t, "GET".as_bytes()) {
            HttpMethod::Get
        } else if bytes_eq(t, "POST".as_bytes()) {
            HttpMethod::Post
        } else {
            HttpMethod::Unknown
        }
    }
}

/// Protocol versions that the engine tells apart.
#[derive(Debug, PartialEq, Eq, Structural, Clone, Copy)]
pub enum HttpVersion {
    Unknown,
    V1_1,
    V2_0,
}

pub open spec fn version_of(t: Seq<u8>) -> HttpVersion {
    if t == "HTTP/1.1".spec_bytes() {
        HttpVersion::V1_1
    } else if t == "HTTP/2.0".spec_bytes() {
        HttpVersion::V2_0
    } else {
        HttpVersion::Unknown
    }
}

impl HttpVersion {
    /// The version named by a request-line token; any other token is `Unknown`.
    pub fn from_token(t: &[u8]) -> (r: HttpVersion)
        ensures
            r == version_of(t@),
    {
        if bytes_eq(t, "HTTP/1.1".as_bytes()) {
            HttpVersion::V1_1
        } else if bytes_eq(t, "HTTP/2.0".as_bytes()) {
            HttpVersion::V2_0
        } else {
            HttpVersion::Unknown
        }
    }
}

/// Why a request could not be read or decoded.
#[derive(Debug, PartialEq, Eq, Structural, Clone, Copy)]
pub enum HttpError {
    MissingMethod,
    MissingUrl,
    MissingVersion,
    InvalidUtf8,
    MissingBoundary,
    MissingPartName,
    CorruptedPart,
    HeaderTooLarge,
    HeaderReadFailed,
    BodyTooLarge,
    BodyReadFailed,
}

/// The description of an error.
pub open spec fn error_text(e: HttpError) -> Seq<u8> {
    match e {
        HttpError::MissingMethod => "cannot parse the request method".spec_bytes(),
        HttpError::MissingUrl => "cannot parse the request url".spec_bytes(),
        HttpError::MissingVersion => "cannot parse the http version".spec_bytes(),
        HttpError::InvalidUtf8 => "content is not valid utf-8".spec_bytes(),
        HttpError::MissingBoundary => "no valid multipart boundary".spec_bytes(),
        HttpError::MissingPartName => "form part has no name attribute".spec_bytes(),
        HttpError::CorruptedPart => "corrupted form content".spec_bytes(),
        HttpError::HeaderTooLarge => "request header exceeds the size limit".spec_bytes(),
        HttpError::HeaderReadFailed => "failed to read the request header".spec_bytes(),
        HttpError::BodyTooLarge => "request body exceeds the size limit".spec_bytes(),
        HttpError::BodyReadFailed => "failed to read the request body".spec_bytes(),
    }
}

impl HttpError {
    /// A human-readable description, sent back as the body of a `400` reply.
    pub fn message(&self) -> (r: &'static str)
        ensures
            r.spec_bytes() == error_text(*self),
    {
        match self {
            HttpError::MissingMethod => "cannot parse the request method",
            HttpError::MissingUrl => "cannot parse the request url",
            HttpError::MissingVersion => "cannot parse the http version",
            HttpError::InvalidUtf8 => "content is not valid utf-8",
            HttpError::MissingBoundary => "no valid multipart boundary",
            HttpError::MissingPartName => "form part has no name attribute",
            HttpError::CorruptedPart => "corrupted form content",
            HttpError::HeaderTooLarge => "request header exceeds the size limit",
            HttpError::HeaderReadFailed => "failed to read the request header",
            HttpError::BodyTooLarge => "request body exceeds the size limit",
            HttpError::BodyReadFailed => "failed to read the request body",
        }
    }
}

/// A line without the carriage return that ends it.
pub open spec fn strip_cr(l: Seq<u8>) -> Seq<u8> {
    if l.len() > 0 && l.last() == 13 {
        l.drop_last()
    } else {
        l
    }
}

/// The lines of a header block, split at line feeds.
pub open spec fn header_lines(h: Seq<u8>) -> Seq<Seq<u8>> {
    split_all(h, seq![10u8]).map_values(|l: Seq<u8>| strip_cr(l))
}

/// The key of a `key<d>value` piece: trimmed and lower-cased.
pub open spec fn kv_key(p: Seq<u8>, d: u8) -> Seq<u8> {
    lower_of(trim_of(before_first(p, d)))
}

/// The value of a `key<d>value` piece: trimmed, empty when there is no `d`.
pub open spec fn kv_value(p: Seq<u8>, d: u8) -> Seq<u8> {
    match after_first(p, d) {
        Some(v) => trim_of(v),
        None => Seq::empty(),
    }
}

/// Headers given by lines `1..n` (line 0 is the request line); lines without `:` are skipped.
pub open spec fn headers_upto(ls: Seq<Seq<u8>>, n: int) -> Map<Seq<u8>, Seq<u8>>
    decreases n,
{
    if n <= 1 || n > ls.len() {
        Map::empty()
    } else if after_first(ls[n - 1], 58).is_some() {
        headers_upto(ls, n - 1).insert(kv_key(ls[n - 1], 58), kv_value(ls[n - 1], 58))
    } else {
        headers_upto(ls, n - 1)
    }
}

pub open spec fn headers_of(h: Seq<u8>) -> Map<Seq<u8>, Seq<u8>> {
    headers_upto(header_lines(h), header_lines(h).len() as int)
}

/// Parameters given by the first `n` pieces of a `&`-separated list.
pub open spec fn params_upto(ps: Seq<Seq<u8>>, n: int) -> Map<Seq<u8>, Seq<u8>>
    decreases n,
{
    if n <= 0 || n > ps.len() {
        Map::empty()
    } else {
        params_upto(ps, n - 1).insert(kv_key(ps[n - 1], 61), kv_value(ps[n - 1], 61))
    }
}

/// The parameters of `a=1&b=2` text; the last of equal keys wins.
pub open spec fn params_of(raw: Seq<u8>) -> Map<Seq<u8>, Seq<u8>> {
    params_upto(split_all(raw, seq![38u8]), split_all(raw, seq![38u8]).len() as int)
}

/// The query parameters of a url: those after its first `?`, none without one.
pub open spec fn query_params_of(url: Seq<u8>) -> Map<Seq<u8>, Seq<u8>> {
    match after_first(url, 63) {
        Some(q) => params_of(q),
        None => Map::empty(),
    }
}

/// A copy of line `i` of `lines` without its carriage return.
pub(crate) fn line_at(lines: &Vec<Vec<u8>>, i: usize) -> (r: Vec<u8>)
    requires
        i < lines@.len(),
    ensures
        r@ == strip_cr(lines@[i as int]@),
{
    let l = lines[i].as_slice();
    if l.len() > 0 && l[l.len() - 1] == 13 {
        let r = copy_range(l, 0, l.len() - 1);
        assert(r@ =~= l@.drop_last());
        r
    } else {
        copy_range(l, 0, l.len())
    }
}

/// Splits a header block into its raw lines (carriage returns kept).
pub(crate) fn raw_lines(h: &[u8]) -> (r: Vec<Vec<u8>>)
    ensures
        r@.map_values(|v: Vec<u8>| v@) == split_all(h@, seq![10u8]),
        r@.len() == header_lines(h@).len(),
        forall|i: int| 0 <= i < r@.len() ==> strip_cr(#[trigger] r@[i]@) == header_lines(h@)[i],
{
    let nl: Vec<u8> = vec![10u8];
    assert(nl@ =~= seq![10u8]);
    let r = split_pattern(h, nl.as_slice());
    proof {
        assert forall|i: int| 0 <= i < r@.len() implies strip_cr(#[trigger] r@[i]@)
            == header_lines(h@)[i] by {
            assert(r@.map_values(|v: Vec<u8>| v@)[i] == r@[i]@);
        }
    }
    r
}

/// The headers of a header block: each line after the first that holds a `:`
/// gives its trimmed, lower-cased key and its trimmed value.
pub fn parse_headers(h: &[u8]) -> (r: ByteMap)
    ensures
        r.wf(),
        r@ == headers_of(h@),
{
    let lines = raw_lines(h);
    let ghost ls = header_lines(h@);
    let mut m = ByteMap::new();
    let mut i: usize = 1;
    if lines.len() == 0 {
        return m;
    }
    while i < lines.len()
        invariant
            1 <= i <= lines@.len(),
            lines@.len() == ls.len(),
            forall|k: int| 0 <= k < lines@.len() ==> strip_cr(#[trigger] lines@[k]@) == ls[k],
            m.wf(),
            m@ == headers_upto(ls, i as int),
        decreases lines@.len() - i,
    {
        let l = line_at(&lines, i);
        let (k, v) = split_once(l.as_slice(), 58);
        match v {
            Some(v) => {
                let key = lower_text(trim_text(k.as_slice()).as_slice());
                let value = trim_text(v.as_slice());
                m.insert(key, value);
            },
            None => {},
        }
        i = i + 1;
    }
    m
}

/// Parses `a=1&b=2` text: each `&`-separated piece gives its trimmed,
/// lower-cased key and its trimmed value (empty without `=`); the last of
/// equal keys wins.
pub fn parse_parameters(raw: &[u8]) -> (r: ByteMap)
    ensures
        r.wf(),
        r@ == params_of(raw@),
{
    let amp: Vec<u8> = vec![38u8];
    assert(amp@ =~= seq![38u8]);
    let pieces = split_pattern(raw, amp.as_slice());
    let ghost ps = split_all(raw@, seq![38u8]);
    let mut m = ByteMap::new();
    let mut i: usize = 0;
    while i < pieces.len()
        invariant
            i <= pieces@.len(),
            pieces@.map_values(|v: Vec<u8>| v@) == ps,
            m.wf(),
            m@ == params_upto(ps, i as int),
        decreases pieces@.len() - i,
    {
        assert(pieces@.map_values(|v: Vec<u8>| v@)[i as int] == pieces@[i as int]@);
        let (k, v) = split_once(pieces[i].as_slice(), 61);
        let key = lower_text(trim_text(k.as_slice()).as_slice());
        let value = match v {
            Some(v) => trim_text(v.as_slice()),
            None => Vec::new(),
        };
        m.insert(key, value);
        i = i + 1;
    }
    m
}

/// The query parameters of `url`.
pub fn parse_query(url: &[u8]) -> (r: ByteMap)
    ensures
        r.wf(),
        r@ == query_params_of(url@),
{
    let (_path, q) = split_once(url, 63);
    match q {
        Some(q) => parse_parameters(q.as_slice()),
        None => ByteMap::new(),
    }
}

/// The name of a `Content-Disposition` attribute among `parts[i..]`: the first
/// one of the shape `name=` followed by at least two bytes, with its first and
/// last byte (the quotes) removed and lower-cased.
pub open spec fn name_in(parts: Seq<Seq<u8>>, i: int) -> Option<Seq<u8>>
    decreases parts.len() - i,
{
    if i < 0 || i >= parts.len() {
        None
    } else {
        let p = trim_of(parts[i]);
        let v = before_first(p.skip("name=".spec_bytes().len() as int), 61);
        if starts_with(p, "name=".spec_bytes()) && v.len() >= 2 {
            Some(lower_of(v.subrange(1, v.len() - 1)))
        } else {
            name_in(parts, i + 1)
        }
    }
}

pub open spec fn disposition_name(l: Seq<u8>) -> Option<Seq<u8>> {
    name_in(split_all(l, seq![59u8]), 0)
}

/// The name given by the last `Content-Disposition:` line among `ls[..n]`.
pub open spec fn name_upto(ls: Seq<Seq<u8>>, n: int) -> Option<Seq<u8>>
    decreases n,
{
    if n <= 0 || n > ls.len() {
        None
    } else if starts_with(ls[n - 1], "Content-Disposition:".spec_bytes()) {
        disposition_name(ls[n - 1])
    } else {
        name_upto(ls, n - 1)
    }
}

/// Index of the first empty line at or after `i`, or the number of lines.
pub open spec fn first_empty(ls: Seq<Seq<u8>>, i: int) -> int
    decreases ls.len() - i,
{
    if 0 <= i < ls.len() && ls[i].len() != 0 {
        first_empty(ls, i + 1)
    } else {
        i
    }
}

/// `\r\n`
pub open spec fn crlf() -> Seq<u8> {
    seq![13u8, 10u8]
}

/// `--`
pub open spec fn dashes() -> Seq<u8> {
    seq![45u8, 45u8]
}

/// The delimiter that opens each part: `--{boundary}\r\n`.
pub open spec fn part_delimiter(b: Seq<u8>) -> Seq<u8> {
    dashes() + b + crlf()
}

/// The delimiter that closes the body: `--{boundary}--\r\n`.
pub open spec fn closing_delimiter(b: Seq<u8>) -> Seq<u8> {
    dashes() + b + dashes() + crlf()
}

/// A section without the closing delimiter and the line break before it, when it ends with them.
pub open spec fn part_content(sec: Seq<u8>, closing: Seq<u8>) -> Seq<u8> {
    if ends_with(sec, closing) {
        let c = sec.take(sec.len() - closing.len());
        if ends_with(c, crlf()) {
            c.take(c.len() - 2)
        } else {
            c
        }
    } else {
        sec
    }
}

/// The field that one multipart section gives: its name and the line after
/// the first empty line.
pub open spec fn part_of(sec: Seq<u8>, b: Seq<u8>) -> Result<(Seq<u8>, Seq<u8>), HttpError> {
    let ls = split_all(part_content(sec, closing_delimiter(b)), crlf());
    let e = first_empty(ls, 0);
    match name_upto(ls, e) {
        None => Err(HttpError::MissingPartName),
        Some(n) => if e + 1 < ls.len() {
            Ok((n, ls[e + 1]))
        } else {
            Err(HttpError::CorruptedPart)
        },
    }
}

/// The fields of sections `1..n` (section 0 is the preamble); the first bad section fails.
pub open spec fn multipart_upto(secs: Seq<Seq<u8>>, b: Seq<u8>, n: int) -> Result<
    Map<Seq<u8>, Seq<u8>>,
    HttpError,
>
    decreases n,
{
    if n <= 1 || n > secs.len() {
        Ok(Map::empty())
    } else {
        match multipart_upto(secs, b, n - 1) {
            Err(e) => Err(e),
            Ok(m) => match part_of(secs[n - 1], b) {
                Err(e) => Err(e),
                Ok(kv) => Ok(m.insert(kv.0, kv.1)),
            },
        }
    }
}

pub open spec fn multipart_of(body: Seq<u8>, b: Seq<u8>) -> Result<Map<Seq<u8>, Seq<u8>>, HttpError> {
    let secs = split_all(body, part_delimiter(b));
    multipart_upto(secs, b, secs.len() as int)
}

/// A copy of `s` without its last `n` bytes.
fn drop_tail(s: &[u8], n: usize) -> (r: Vec<u8>)
    requires
        n <= s@.len(),
    ensures
        r@ == s@.take(s@.len() - n),
{
    let r = copy_range(s, 0, s.len() - n);
    assert(r@ =~= s@.take(s@.len() - n));
    r
}

fn name_attribute(l: &[u8]) -> (r: Option<Vec<u8>>)
    ensures
        r.is_some() == disposition_name(l@).is_some(),
        r.is_some() ==> r.unwrap()@ == disposition_name(l@).unwrap(),
{
    let semi: Vec<u8> = vec![59u8];
    assert(semi@ =~= seq![59u8]);
    let parts = split_pattern(l, semi.as_slice());
    let ghost ps = split_all(l@, seq![59u8]);
    let mut i: usize = 0;
    while i < parts.len()
        invariant
            i <= parts@.len(),
            parts@.map_values(|v: Vec<u8>| v@) == ps,
            ps == split_all(l@, seq![59u8]),
            name_in(ps, 0) == name_in(ps, i as int),
        decreases parts@.len() - i,
    {
        assert(parts@.map_values(|v: Vec<u8>| v@)[i as int] == parts@[i as int]@);
        let p = trim_text(parts[i].as_slice());
        if has_prefix(p.as_slice(), "name=".as_bytes()) {
            let rest = copy_range(p.as_slice(), "name=".len(), p.len());
            assert(rest@ == p@.skip("name=".spec_bytes().len() as int));
            let (v, _more) = split_once(rest.as_slice(), 61);
            if v.len() >= 2 {
                let inner = copy_range(v.as_slice(), 1, v.len() - 1);
                assert(p@ == trim_of(ps[i as int]));
                assert(v@ == before_first(p@.skip("name=".spec_bytes().len() as int), 61));
                assert(name_in(ps, i as int) == Some(lower_of(inner@)));
                return Some(lower_text(inner.as_slice()));
            }
        }
        i = i + 1;
    }
    None
}

/// Decodes one multipart section into its field name and value.
fn parse_part(sec: &[u8], b: &[u8], closing: &[u8]) -> (r: Result<(Vec<u8>, Vec<u8>), HttpError>)
    requires
        closing@ == closing_delimiter(b@),
    ensures
        match r {
            Ok(kv) => part_of(sec@, b@) == Ok::<(Seq<u8>, Seq<u8>), HttpError>((kv.0@, kv.1@)),
            Err(e) => part_of(sec@, b@) == Err::<(Seq<u8>, Seq<u8>), HttpError>(e),
        },
{
    let line_end: Vec<u8> = vec![13u8, 10u8];
    assert(line_end@ =~= crlf());
    let content = if has_suffix(sec, closing) {
        let c = drop_tail(sec, closing.len());
        if has_suffix(c.as_slice(), line_end.as_slice()) {
            drop_tail(c.as_slice(), 2)
        } else {
            c
        }
    } else {
        copy_range(sec, 0, sec.len())
    };
    assert(sec@.subrange(0, sec@.len() as int) =~= sec@);
    assert(content@ == part_content(sec@, closing@));
    let lines = split_pattern(content.as_slice(), line_end.as_slice());
    let ghost ls = split_all(content@, crlf());
    let mut name: Option<Vec<u8>> = None;
    let mut i: usize = 0;
    while i < lines.len() && lines[i].len() != 0
        invariant
            i <= lines@.len(),
            lines@.map_values(|v: Vec<u8>| v@) == ls,
            first_empty(ls, 0) == first_empty(ls, i as int),
            opt_view(name) == name_upto(ls, i as int),
        decreases lines@.len() - i,
    {
        assert(lines@.map_values(|v: Vec<u8>| v@)[i as int] == lines@[i as int]@);
        let l = lines[i].as_slice();
        if has_prefix(l, "Content-Disposition:".as_bytes()) {
            name = name_attribute(l);
        }
        i = i + 1;
    }
    proof {
        if i < lines@.len() {
            assert(lines@.map_values(|v: Vec<u8>| v@)[i as int] == lines@[i as int]@);
        }
    }
    match name {
        None => Err(HttpError::MissingPartName),
        Some(n) => {
            if lines.len() > 0 && i < lines.len() - 1 {
                assert(lines@.map_values(|v: Vec<u8>| v@)[i + 1] == lines@[i + 1]@);
                let v = copy_range(lines[i + 1].as_slice(), 0, lines[i + 1].len());
                assert(lines@[i + 1]@.subrange(0, lines@[i + 1]@.len() as int) =~= lines@[i + 1]@);
                Ok((n, v))
            } else {
                Err(HttpError::CorruptedPart)
            }
        },
    }
}

proof fn lemma_multipart_error_stays(secs: Seq<Seq<u8>>, b: Seq<u8>, k: int, n: int)
    requires
        multipart_upto(secs, b, k).is_err(),
        k <= n <= secs.len(),
    ensures
        multipart_upto(secs, b, n) == multipart_upto(secs, b, k),
    decreases n - k,
{
    if n > k {
        lemma_multipart_error_stays(secs, b, k, n - 1);
    }
}

/// Decodes a `multipart/form-data` body with the given boundary: the body is
/// split at `--{boundary}\r\n`, the preamble dropped, and each section gives
/// one field (a later field of the same name replaces an earlier one).
pub fn parse_multipart_form(body: &[u8], boundary: &[u8]) -> (r: Result<ByteMap, HttpError>)
    ensures
        match r {
            Ok(m) => m.wf() && multipart_of(body@, boundary@) == Ok::<
                Map<Seq<u8>, Seq<u8>>,
                HttpError,
            >(m@),
            Err(e) => multipart_of(body@, boundary@) == Err::<Map<Seq<u8>, Seq<u8>>, HttpError>(e),
        },
{
    let mut delim: Vec<u8> = vec![45u8, 45u8];
    append_bytes(&mut delim, boundary);
    delim.push(13u8);
    delim.push(10u8);
    let mut closing: Vec<u8> = vec![45u8, 45u8];
    append_bytes(&mut closing, boundary);
    closing.push(45u8);
    closing.push(45u8);
    closing.push(13u8);
    closing.push(10u8);
    assert(delim@ =~= part_delimiter(boundary@));
    assert(closing@ =~= closing_delimiter(boundary@));
    let secs = split_pattern(body, delim.as_slice());
    let ghost ss = split_all(body@, part_delimiter(boundary@));
    let mut m = ByteMap::new();
    let mut i: usize = 1;
    while i < secs.len()
        invariant
            1 <= i,
            i <= secs@.len() || secs@.len() == 0,
            secs@.map_values(|v: Vec<u8>| v@) == ss,
            ss == split_all(body@, part_delimiter(boundary@)),
            closing@ == closing_delimiter(boundary@),
            m.wf(),
            multipart_upto(ss, boundary@, i as int) == Ok::<Map<Seq<u8>, Seq<u8>>, HttpError>(m@),
        decreases secs@.len() - i,
    {
        assert(secs@.map_values(|v: Vec<u8>| v@)[i as int] == secs@[i as int]@);
        match parse_part(secs[i].as_slice(), boundary, closing.as_slice()) {
            Err(e) => {
                assert(multipart_upto(ss, boundary@, i + 1) == Err::<Map<Seq<u8>, Seq<u8>>, HttpError>(e));
                proof {
                    lemma_multipart_error_stays(ss, boundary@, i + 1, ss.len() as int);
                }
                return Err(e);
            },
            Ok(kv) => {
                let (k, v) = kv;
                m.insert(k, v);
            },
        }
        i = i + 1;
    }
    Ok(m)
}

/// The `boundary=` attribute among the first `n` `;`-separated pieces; the last one wins.
pub open spec fn boundary_upto(parts: Seq<Seq<u8>>, n: int) -> Option<Seq<u8>>
    decreases n,
{
    if n <= 0 || n > parts.len() {
        None
    } else if starts_with(trim_of(parts[n - 1]), "boundary=".spec_bytes()) {
        Some(
            before_first(trim_of(parts[n - 1]).skip("boundary=".spec_bytes().len() as int), 61),
        )
    } else {
        boundary_upto(parts, n - 1)
    }
}

/// The multipart boundary named in a `Content-Type` value.
pub open spec fn boundary_of(ct: Seq<u8>) -> Option<Seq<u8>> {
    boundary_upto(split_all(ct, seq![59u8]), split_all(ct, seq![59u8]).len() as int)
}

/// The key under which a body of any other content type is kept whole.
pub open spec fn raw_key() -> Seq<u8> {
    "__raw".spec_bytes()
}

/// The `Content-Type` value of a request, `text/plain` when absent.
pub open spec fn content_type_of(headers: Map<Seq<u8>, Seq<u8>>) -> Seq<u8> {
    if headers.contains_key("content-type".spec_bytes()) {
        headers["content-type".spec_bytes()]
    } else {
        "text/plain".spec_bytes()
    }
}

/// The decoded body: form fields for url-encoded and multipart bodies, the
/// whole body under `__raw` otherwise (nothing for an empty body).
pub open spec fn body_of(headers: Map<Seq<u8>, Seq<u8>>, body: Seq<u8>) -> Result<
    Map<Seq<u8>, Seq<u8>>,
    HttpError,
> {
    let ctv = content_type_of(headers);
    let ct = lower_of(trim_of(ctv));
    if starts_with(ct, "application/x-www-form-urlencoded".spec_bytes()) {
        if valid_utf8(body) {
            Ok(params_of(body))
        } else {
            Err(HttpError::InvalidUtf8)
        }
    } else if starts_with(ct, "multipart/form-data".spec_bytes()) {
        match boundary_of(ctv) {
            None => Err(HttpError::MissingBoundary),
            Some(b) => multipart_of(body, b),
        }
    } else if body.len() == 0 {
        Ok(Map::empty())
    } else {
        Ok(Map::empty().insert(raw_key(), body))
    }
}

fn find_boundary(ct: &[u8]) -> (r: Option<Vec<u8>>)
    ensures
        opt_view(r) == boundary_of(ct@),
{
    let semi: Vec<u8> = vec![59u8];
    assert(semi@ =~= seq![59u8]);
    let parts = split_pattern(ct, semi.as_slice());
    let ghost ps = split_all(ct@, seq![59u8]);
    let mut b: Option<Vec<u8>> = None;
    let mut i: usize = 0;
    while i < parts.len()
        invariant
            i <= parts@.len(),
            parts@.map_values(|v: Vec<u8>| v@) == ps,
            ps == split_all(ct@, seq![59u8]),
            opt_view(b) == boundary_upto(ps, i as int),
        decreases parts@.len() - i,
    {
        assert(parts@.map_values(|v: Vec<u8>| v@)[i as int] == parts@[i as int]@);
        let p = trim_text(parts[i].as_slice());
        if has_prefix(p.as_slice(), "boundary=".as_bytes()) {
            let rest = copy_range(p.as_slice(), "boundary=".len(), p.len());
            assert(rest@ == p@.skip("boundary=".spec_bytes().len() as int));
            let (v, _more) = split_once(rest.as_slice(), 61);
            b = Some(v);
        }
        i = i + 1;
    }
    b
}

/// Decodes a request body by its content type.
pub fn parse_body(headers: &ByteMap, body: &[u8]) -> (r: Result<ByteMap, HttpError>)
    requires
        headers.wf(),
    ensures
        match r {
            Ok(m) => m.wf() && body_of(headers@, body@) == Ok::<Map<Seq<u8>, Seq<u8>>, HttpError>(
                m@,
            ),
            Err(e) => body_of(headers@, body@) == Err::<Map<Seq<u8>, Seq<u8>>, HttpError>(e),
        },
{
    let key = "content-type".as_bytes();
    let ctv: Vec<u8> = match headers.get(key) {
        Some(v) => {
            let c = copy_range(v.as_slice(), 0, v.len());
            assert(c@ =~= v@);
            c
        },
        None => {
            let d = "text/plain".as_bytes();
            let c = copy_range(d, 0, d.len());
            assert(c@ =~= d@);
            c
        },
    };
    assert(ctv@ == content_type_of(headers@));
    let ct = lower_text(trim_text(ctv.as_slice()).as_slice());
    if has_prefix(ct.as_slice(), "application/x-www-form-urlencoded".as_bytes()) {
        if is_utf8(body) {
            Ok(parse_parameters(body))
        } else {
            Err(HttpError::InvalidUtf8)
        }
    } else if has_prefix(ct.as_slice(), "multipart/form-data".as_bytes()) {
        match find_boundary(ctv.as_slice()) {
            None => Err(HttpError::MissingBoundary),
            Some(b) => parse_multipart_form(body, b.as_slice()),
        }
    } else {
        let mut m = ByteMap::new();
        if body.len() > 0 {
            let d = "__raw".as_bytes();
            let raw = copy_range(d, 0, d.len());
            let v = copy_range(body, 0, body.len());
            assert(raw@ =~= raw_key());
            assert(v@ =~= body@);
            m.insert(raw, v);
        }
        Ok(m)
    }
}

/// Method, url and version read from the first three words of a request line.
pub open spec fn decode_line(l: Seq<u8>) -> Result<(HttpMethod, Seq<u8>, HttpVersion), HttpError> {
    let w = words_of(l);
    if w.len() < 1 {
        Err(HttpError::MissingMethod)
    } else if w.len() < 2 {
        Err(HttpError::MissingUrl)
    } else if w.len() < 3 {
        Err(HttpError::MissingVersion)
    } else {
        Ok((method_of(w[0]), w[1], version_of(w[2])))
    }
}

/// The text that lossy UTF-8 decoding gives for some bytes.
pub uninterp spec fn lossy_text(b: Seq<u8>) -> Seq<char>;

/// Relies on `String::from_utf8_lossy`: the result depends on the bytes alone,
/// and valid UTF-8 is decoded as it stands.
#[verifier::external_body]
fn lossy(b: &[u8]) -> (r: String)
    ensures
        r@ == lossy_text(b@),
        valid_utf8(b@) ==> r@ == vstd::utf8::decode_utf8(b@),
{
    String::from_utf8_lossy(b).into_owned()
}

/// A decoded request.
pub struct HttpRequest {
    method: HttpMethod,
    url: Vec<u8>,
    version: HttpVersion,
    ip: String,
    headers: ByteMap,
    search_params: ByteMap,
    body: ByteMap,
}

impl HttpRequest {
    pub closed spec fn spec_method(&self) -> HttpMethod {
        self.method
    }

    pub closed spec fn spec_url(&self) -> Seq<u8> {
        self.url@
    }

    pub closed spec fn spec_version(&self) -> HttpVersion {
        self.version
    }

    pub closed spec fn spec_ip(&self) -> Seq<char> {
        self.ip@
    }

    pub closed spec fn spec_headers(&self) -> ByteMap {
        self.headers
    }

    pub closed spec fn spec_search_params(&self) -> ByteMap {
        self.search_params
    }

    pub closed spec fn spec_body(&self) -> ByteMap {
        self.body
    }

    pub closed spec fn wf(&self) -> bool {
        self.headers.wf() && self.search_params.wf() && self.body.wf()
    }

    /// Decodes a request from its header block (request line and header
    /// lines), its body bytes and the peer's address.
    pub fn from(raw_header: &str, raw_body: Vec<u8>, ip: &str) -> (r: Result<HttpRequest, HttpError>)
        ensures
            match r {
                Ok(req) => {
                    &&& req.wf()
                    &&& decode_line(header_lines(raw_header.spec_bytes())[0]) == Ok::<
                        (HttpMethod, Seq<u8>, HttpVersion),
                        HttpError,
                    >((req.spec_method(), req.spec_url(), req.spec_version()))
                    &&& req.spec_ip() == ip@
                    &&& req.spec_headers()@ == headers_of(raw_header.spec_bytes())
                    &&& req.spec_search_params()@ == query_params_of(req.spec_url())
                    &&& body_of(headers_of(raw_header.spec_bytes()), raw_body@) == Ok::<
                        Map<Seq<u8>, Seq<u8>>,
                        HttpError,
                    >(req.spec_body()@)
                },
                Err(e) => {
                    ||| decode_line(header_lines(raw_header.spec_bytes())[0]) == Err::<
                        (HttpMethod, Seq<u8>, HttpVersion),
                        HttpError,
                    >(e)
                    ||| (decode_line(header_lines(raw_header.spec_bytes())[0]).is_ok() && body_of(
                        headers_of(raw_header.spec_bytes()),
                        raw_body@,
                    ) == Err::<Map<Seq<u8>, Seq<u8>>, HttpError>(e))
                },
            },
    {
        let h = raw_header.as_bytes();
        let lines = raw_lines(h);
        let line = line_at(&lines, 0);
        let l = line.as_slice();
        let w = words(l);
        if w.len() < 1 {
            return Err(HttpError::MissingMethod);
        }
        if w.len() < 2 {
            return Err(HttpError::MissingUrl);
        }
        if w.len() < 3 {
            return Err(HttpError::MissingVersion);
        }
        assert(w@.map_values(|v: Vec<u8>| v@)[0] == w@[0]@);
        assert(w@.map_values(|v: Vec<u8>| v@)[1] == w@[1]@);
        assert(w@.map_values(|v: Vec<u8>| v@)[2] == w@[2]@);
        let method = HttpMethod::from_token(w[0].as_slice());
        let url = copy_range(w[1].as_slice(), 0, w[1].len());
        assert(url@ =~= w@[1]@);
        let version = HttpVersion::from_token(w[2].as_slice());
        let headers = parse_headers(h);
        let search_params = parse_query(url.as_slice());
        let body = parse_body(&headers, raw_body.as_slice());
        match body {
            Err(e) => Err(e),
            Ok(body) => Ok(
                HttpRequest {
                    method,
                    url,
                    version,
                    ip: ip.to_owned(),
                    headers,
                    search_params,
                    body,
                },
            ),
        }
    }

    pub fn method(&self) -> (r: &HttpMethod)
        ensures
            *r == self.spec_method(),
    {
        &self.method
    }

    pub fn url(&self) -> (r: &[u8])
        ensures
            r@ == self.spec_url(),
    {
        self.url.as_slice()
    }

    pub fn version(&self) -> (r: &HttpVersion)
        ensures
            *r == self.spec_version(),
    {
        &self.version
    }

    pub fn ip(&self) -> (r: &str)
        ensures
            r@ == self.spec_ip(),
    {
        self.ip.as_str()
    }

    pub fn headers(&self) -> (r: &ByteMap)
        ensures
            *r == self.spec_headers(),
    {
        &self.headers
    }

    pub fn search_params(&self) -> (r: &ByteMap)
        ensures
            *r == self.spec_search_params(),
    {
        &self.search_params
    }

    pub fn body(&self) -> (r: &ByteMap)
        ensures
            *r == self.spec_body(),
    {
        &self.body
    }

    /// The body fields in key order, each value read as UTF-8 with invalid
    /// sequences replaced.
    pub fn body_utf8(&self) -> (r: Vec<(Vec<u8>, String)>)
        ensures
            r@.len() == self.spec_body().pairs().len(),
            forall|i: int|
                0 <= i < r@.len() ==> (#[trigger] r@[i]).0@ == self.spec_body().pairs()[i].0
                    && r@[i].1@ == lossy_text(self.spec_body().pairs()[i].1),
    {
        let mut form: Vec<(Vec<u8>, String)> = Vec::new();
        let mut i: usize = 0;
        while i < self.body.len()
            invariant
                i <= self.body.pairs().len(),
                form@.len() == i,
                forall|j: int|
                    0 <= j < i ==> (#[trigger] form@[j]).0@ == self.body.pairs()[j].0
                        && form@[j].1@ == lossy_text(self.body.pairs()[j].1),
            decreases self.body.pairs().len() - i,
        {
            let (k, v) = self.body.entry(i);
            let kc = copy_range(k.as_slice(), 0, k.len());
            assert(kc@ =~= k@);
            form.push((kc, lossy(v.as_slice())));
            i = i + 1;
        }
        form
    }
}

/// Splitting `k<d>v` at its first `d` gives `k` and `v` when `k` holds no `d`.
pub proof fn lemma_split_at_first(k: Seq<u8>, d: u8, v: Seq<u8>)
    requires
        forall|j: int| 0 <= j < k.len() ==> k[j] != d,
    ensures
        before_first(k + seq![d] + v, d) == k,
        after_first(k + seq![d] + v, d) == Some(v),
{
    let s = k + seq![d] + v;
    assert forall|j: int| 0 <= j < k.len() implies s[j] != d by {
        assert(s[j] == k[j]);
    }
    assert(s[k.len() as int] == d);
    lemma_find_byte(s, d, 0, k.len() as int);
    assert(s.take(k.len() as int) =~= k);
    assert(s.skip(k.len() as int + 1) =~= v);
}

/// A query without `&` or `=` is one key with an empty value.
pub proof fn lemma_bare_key(k: Seq<u8>)
    requires
        forall|j: int| 0 <= j < k.len() ==> k[j] != 38 && k[j] != 61,
    ensures
        params_of(k) == Map::<Seq<u8>, Seq<u8>>::empty().insert(lower_of(trim_of(k)), Seq::empty()),
{
    lemma_find_byte(k, 38, 0, k.len() as int);
    assert(k.subrange(0, k.len() as int) =~= k);
    assert(split_all(k, seq![38u8]) =~= seq![k]);
    lemma_find_byte(k, 61, 0, k.len() as int);
    assert(k.take(k.len() as int) =~= k);
    let ps = split_all(k, seq![38u8]);
    assert(ps[0] == k);
    assert(kv_key(k, 61) == lower_of(trim_of(k)));
    assert(kv_value(k, 61) == Seq::<u8>::empty());
    assert(params_upto(ps, 0) == Map::<Seq<u8>, Seq<u8>>::empty());
    assert(params_upto(ps, 1) == params_upto(ps, 0).insert(kv_key(k, 61), kv_value(k, 61)));
}

/// `k1=v1&k2=v2` gives both pairs, keys trimmed and lower-cased, values
/// trimmed; keys hold no `&` or `=`, values no `&`.
pub proof fn lemma_two_pairs(k1: Seq<u8>, v1: Seq<u8>, k2: Seq<u8>, v2: Seq<u8>)
    requires
        forall|j: int| 0 <= j < k1.len() ==> k1[j] != 38 && k1[j] != 61,
        forall|j: int| 0 <= j < k2.len() ==> k2[j] != 38 && k2[j] != 61,
        forall|j: int| 0 <= j < v1.len() ==> v1[j] != 38,
        forall|j: int| 0 <= j < v2.len() ==> v2[j] != 38,
    ensures
        params_of(k1 + seq![61u8] + v1 + seq![38u8] + k2 + seq![61u8] + v2) == Map::<
            Seq<u8>,
            Seq<u8>,
        >::empty().insert(lower_of(trim_of(k1)), trim_of(v1)).insert(
            lower_of(trim_of(k2)),
            trim_of(v2),
        ),
{
    let p1 = k1 + seq![61u8] + v1;
    let p2 = k2 + seq![61u8] + v2;
    let s = k1 + seq![61u8] + v1 + seq![38u8] + k2 + seq![61u8] + v2;
    assert(s =~= p1 + seq![38u8] + p2);
    let n = p1.len() as int;
    assert forall|j: int| 0 <= j < n implies s[j] != 38 by {
        assert(s[j] == p1[j]);
        if j < k1.len() {
            assert(p1[j] == k1[j]);
        } else if j > k1.len() {
            assert(p1[j] == v1[j - k1.len() - 1]);
        }
    }
    assert(s[n] == 38);
    lemma_find_byte(s, 38, 0, n);
    assert forall|j: int| n + 1 <= j < s.len() implies s[j] != 38 by {
        assert(s[j] == p2[j - n - 1]);
        if j - n - 1 < k2.len() {
            assert(p2[j - n - 1] == k2[j - n - 1]);
        } else if j - n - 1 > k2.len() {
            assert(p2[j - n - 1] == v2[j - n - 1 - k2.len() - 1]);
        }
    }
    lemma_find_byte(s, 38, n + 1, s.len() as int);
    assert(s.subrange(0, n) =~= p1);
    assert(s.subrange(n + 1, s.len() as int) =~= p2);
    assert(split_from(s, n + 1, seq![38u8]) =~= seq![p2]);
    assert(split_all(s, seq![38u8]) =~= seq![p1, p2]);
    lemma_split_at_first(k1, 61, v1);
    lemma_split_at_first(k2, 61, v2);
    let ps = split_all(s, seq![38u8]);
    assert(ps[0] == p1 && ps[1] == p2 && ps.len() == 2);
    assert(params_upto(ps, 0) == Map::<Seq<u8>, Seq<u8>>::empty());
    assert(params_upto(ps, 1) == params_upto(ps, 0).insert(kv_key(p1, 61), kv_value(p1, 61)));
    assert(params_upto(ps, 2) == params_upto(ps, 1).insert(kv_key(p2, 61), kv_value(p2, 61)));
}

/// A header line `name:value` (the name without `:`) is stored under the
/// lower-cased, trimmed name, whatever the case it was written in, with the
/// trimmed value; names with the same lower-case form share one key.
pub proof fn lemma_header_key_ignores_case(a: Seq<u8>, v1: Seq<u8>, b: Seq<u8>, v2: Seq<u8>)
    requires
        lower_of(trim_of(a)) == lower_of(trim_of(b)),
        forall|j: int| 0 <= j < a.len() ==> a[j] != 58,
        forall|j: int| 0 <= j < b.len() ==> b[j] != 58,
    ensures
        kv_key(a + seq![58u8] + v1, 58) == lower_of(trim_of(a)),
        kv_value(a + seq![58u8] + v1, 58) == trim_of(v1),
        kv_key(a + seq![58u8] + v1, 58) == kv_key(b + seq![58u8] + v2, 58),
{
    lemma_split_at_first(a, 58, v1);
    lemma_split_at_first(b, 58, v2);
}

} // verus!
