//! Framing of the incoming byte stream: finding the end of the header block
//! and collecting a body of a declared length. The connection is read
//! elsewhere; each read is handed to a step function here, which decides
//! whether to go on, stop with the result, or fail.
use vstd::prelude::*;
use vstd::string::StringSliceAdditionalSpecFns;
use vstd::utf8::valid_utf8;
use crate::request::{header_lines, kv_key, kv_value, HttpError};
use crate::text::{
    after_first, append_bytes, bytes_eq, copy_range, find_from, find_pattern, is_utf8,
    split_once, lower_text, trim_text,
};

verus! {

/// Size limits and read policy, fixed for the life of a listener.
#[derive(Clone, Debug)]
pub struct HttpSettings {
    pub max_header_size: usize,
    pub max_body_size: usize,
    pub header_buffer: usize,
    pub body_buffer: usize,
    pub header_read_attempts: usize,
    pub body_read_attempts: usize,
}

impl HttpSettings {
    pub fn new() -> (r: HttpSettings)
        ensures
            r.max_header_size == 8192,
            r.max_body_size == 8192 * 1024,
            r.header_buffer == 8192,
            r.body_buffer == 8192,
            r.header_read_attempts == 3,
            r.body_read_attempts == 3,
    {
        HttpSettings {
            max_header_size: 8192,
            max_body_size: 8192 * 1024,
            header_buffer: 8192,
            body_buffer: 8192,
            header_read_attempts: 3,
            body_read_attempts: 3,
        }
    }
}

pub open spec fn is_digit(c: u8) -> bool {
    48 <= c <= 57
}

/// The number written by the decimal digits `s`.
pub open spec fn digits_value(s: Seq<u8>) -> nat
    decreases s.len(),
{
    if s.len() == 0 {
        0
    } else {
        digits_value(s.drop_last()) * 10 + (s.last() - 48) as nat
    }
}

/// The value of a `Content-Length` field: its number when it is a non-empty
/// run of digits, after at most one leading `+`, that fits in `usize`; else 0.
pub open spec fn length_value(s: Seq<u8>) -> nat {
    if s.len() > 0 && s[0] == 43 {
        digits_length(s.skip(1))
    } else {
        digits_length(s)
    }
}

/// The number a non-empty run of digits writes when it fits in `usize`, else 0.
pub open spec fn digits_length(s: Seq<u8>) -> nat {
    if s.len() > 0 && (forall|i: int| 0 <= i < s.len() ==> is_digit(#[trigger] s[i]))
        && digits_value(s) <= usize::MAX {
        digits_value(s)
    } else {
        0
    }
}

proof fn lemma_digits_prefix(s: Seq<u8>, k: int)
    requires
        0 <= k <= s.len(),
        forall|i: int| 0 <= i < s.len() ==> is_digit(#[trigger] s[i]),
    ensures
        digits_value(s.take(k)) <= digits_value(s),
    decreases s.len() - k,
{
    if k < s.len() {
        lemma_digits_prefix(s, k + 1);
        assert(s.take(k + 1).drop_last() =~= s.take(k));
    } else {
        assert(s.take(k) =~= s);
    }
}

/// Reads a `Content-Length` value.
fn parse_length(s: &[u8]) -> (r: usize)
    ensures
        r == length_value(s@),
{
    if s.len() > 0 && s[0] == 43 {
        let rest = copy_range(s, 1, s.len());
        assert(rest@ =~= s@.skip(1));
        parse_digits(rest.as_slice())
    } else {
        parse_digits(s)
    }
}

/// Reads a run of decimal digits.
fn parse_digits(s: &[u8]) -> (r: usize)
    ensures
        r == digits_length(s@),
{
    if s.len() == 0 {
        return 0;
    }
    let mut acc: usize = 0;
    let mut i: usize = 0;
    while i < s.len()
        invariant
            i <= s@.len(),
            s@.len() > 0,
            acc == digits_value(s@.take(i as int)),
            forall|j: int| 0 <= j < i ==> is_digit(#[trigger] s@[j]),
        decreases s@.len() - i,
    {
        let c = s[i];
        if c < 48 || c > 57 {
            return 0;
        }
        let d = (c - 48) as usize;
        assert(s@.take(i + 1).drop_last() =~= s@.take(i as int));
        if acc > (usize::MAX - d) / 10 {
            proof {
                assert(acc * 10 + d > usize::MAX) by (nonlinear_arith)
                    requires
                        acc > (usize::MAX - d) / 10,
                        d <= 9,
                ;
                assert(digits_value(s@.take(i + 1)) == acc * 10 + d);
                if forall|j: int| 0 <= j < s@.len() ==> is_digit(#[trigger] s@[j]) {
                    lemma_digits_prefix(s@, i + 1);
                }
            }
            return 0;
        }
        proof {
            assert(acc * 10 + d <= usize::MAX) by (nonlinear_arith)
                requires
                    acc <= (usize::MAX - d) / 10,
                    d <= 9,
            ;
        }
        acc = acc * 10 + d;
        i = i + 1;
    }
    assert(s@.take(s@.len() as int) =~= s@);
    acc
}

/// The `Content-Length` of lines `0..n` of a header block: the last line
/// whose key is `content-length` decides; 0 when there is none.
pub open spec fn content_length_upto(ls: Seq<Seq<u8>>, n: int) -> nat
    decreases n,
{
    if n <= 0 || n > ls.len() {
        0
    } else if after_first(ls[n - 1], 58).is_some() && kv_key(ls[n - 1], 58)
        == "content-length".spec_bytes() {
        length_value(kv_value(ls[n - 1], 58))
    } else {
        content_length_upto(ls, n - 1)
    }
}

pub open spec fn content_length_of(head: Seq<u8>) -> nat {
    content_length_upto(header_lines(head), header_lines(head).len() as int)
}

/// The body length that a header block declares.
pub fn get_content_length(head: &[u8]) -> (r: usize)
    ensures
        r == content_length_of(head@),
{
    let lines = crate::request::raw_lines(head);
    let ghost ls = header_lines(head@);
    let mut size: usize = 0;
    let mut i: usize = 0;
    while i < lines.len()
        invariant
            i <= lines@.len(),
            lines@.len() == ls.len(),
            ls == header_lines(head@),
            forall|k: int|
                0 <= k < lines@.len() ==> crate::request::strip_cr(#[trigger] lines@[k]@) == ls[k],
            size == content_length_upto(ls, i as int),
        decreases lines@.len() - i,
    {
        let l = crate::request::line_at(&lines, i);
        let (k, v) = split_once(l.as_slice(), 58);
        match v {
            Some(v) => {
                let key = lower_text(trim_text(k.as_slice()).as_slice());
                if bytes_eq(key.as_slice(), "content-length".as_bytes()) {
                    size = parse_length(trim_text(v.as_slice()).as_slice());
                }
            },
            None => {},
        }
        i = i + 1;
    }
    size
}

/// `\r\n\r\n`, the end of a header block.
pub open spec fn head_end() -> Seq<u8> {
    seq![13u8, 10u8, 13u8, 10u8]
}

/// Where the header phase stands, as a mathematical value.
pub enum HeadState {
    Reading { acc: Seq<u8>, fails: nat },
    Done { head: Seq<u8>, rest: Seq<u8> },
    Failed { error: HttpError },
}

/// One read of the header phase: `acc` read so far, `fails` short reads so far.
pub open spec fn head_step(s: HttpSettings, acc: Seq<u8>, fails: nat, chunk: Seq<u8>) -> HeadState {
    let all = acc + chunk;
    let p = find_from(all, 0, head_end());
    let short = chunk.len() < s.header_buffer;
    if chunk.len() == 0 {
        HeadState::Failed { error: HttpError::HeaderReadFailed }
    } else if acc.len() + chunk.len() > s.max_header_size {
        HeadState::Failed { error: HttpError::HeaderTooLarge }
    } else if p < all.len() {
        if valid_utf8(all.take(p + 4)) {
            HeadState::Done { head: all.take(p + 4), rest: all.skip(p + 4) }
        } else {
            HeadState::Failed { error: HttpError::InvalidUtf8 }
        }
    } else if short && fails + 1 > s.header_read_attempts {
        HeadState::Failed { error: HttpError::HeaderReadFailed }
    } else {
        HeadState::Reading {
            acc: all,
            fails: if short {
                fails + 1
            } else {
                fails
            },
        }
    }
}

/// The header phase after a sequence of reads.
pub open spec fn head_run(s: HttpSettings, chunks: Seq<Seq<u8>>) -> HeadState
    decreases chunks.len(),
{
    if chunks.len() == 0 {
        HeadState::Reading { acc: Seq::empty(), fails: 0 }
    } else {
        match head_run(s, chunks.drop_last()) {
            HeadState::Reading { acc, fails } => head_step(s, acc, fails, chunks.last()),
            other => other,
        }
    }
}

/// All bytes of a sequence of reads.
pub open spec fn joined(chunks: Seq<Seq<u8>>) -> Seq<u8>
    decreases chunks.len(),
{
    if chunks.len() == 0 {
        Seq::empty()
    } else {
        joined(chunks.drop_last()) + chunks.last()
    }
}

/// How many reads of a sequence are shorter than the header buffer.
pub open spec fn short_reads(s: HttpSettings, chunks: Seq<Seq<u8>>) -> nat
    decreases chunks.len(),
{
    if chunks.len() == 0 {
        0
    } else {
        short_reads(s, chunks.drop_last()) + if chunks.last().len() < s.header_buffer {
            1nat
        } else {
            0nat
        }
    }
}

/// The first `m` reads: none empty, none seeing `\r\n\r\n`, none going over
/// the size limit, and at most `header_read_attempts` short ones.
pub open spec fn quiet_prefix(s: HttpSettings, chunks: Seq<Seq<u8>>, m: int) -> bool {
    forall|k: int|
        0 < k <= m ==> {
            &&& #[trigger] chunks[k - 1].len() > 0
            &&& joined(chunks.take(k)).len() <= s.max_header_size
            &&& find_from(joined(chunks.take(k)), 0, head_end()) == joined(chunks.take(k)).len()
            &&& short_reads(s, chunks.take(k)) <= s.header_read_attempts
        }
}

/// While no read has ended the header phase, it holds all bytes read and
/// counts the short reads.
pub proof fn lemma_head_run_reading(s: HttpSettings, chunks: Seq<Seq<u8>>, m: int)
    requires
        0 <= m <= chunks.len(),
        quiet_prefix(s, chunks, m),
    ensures
        head_run(s, chunks.take(m)) == (HeadState::Reading {
            acc: joined(chunks.take(m)),
            fails: short_reads(s, chunks.take(m)),
        }),
    decreases m,
{
    if m > 0 {
        lemma_head_run_reading(s, chunks, m - 1);
        assert(chunks.take(m).drop_last() =~= chunks.take(m - 1));
        assert(chunks.take(m).last() == chunks[m - 1]);
        assert(chunks[m - 1].len() > 0);
    } else {
        assert(chunks.take(0) =~= Seq::<Seq<u8>>::empty());
    }
}

/// Short reads within the budget do not stop the header phase: once a read
/// brings `\r\n\r\n` (within the size limit), the header block is returned.
pub proof fn lemma_short_reads_within_budget(s: HttpSettings, chunks: Seq<Seq<u8>>)
    requires
        chunks.len() > 0,
        quiet_prefix(s, chunks, chunks.len() - 1),
        chunks.last().len() > 0,
        joined(chunks).len() <= s.max_header_size,
        find_from(joined(chunks), 0, head_end()) < joined(chunks).len(),
        valid_utf8(joined(chunks).take(find_from(joined(chunks), 0, head_end()) + 4)),
    ensures
        head_run(s, chunks) is Done,
{
    let n = chunks.len() as int;
    lemma_head_run_reading(s, chunks, n - 1);
    assert(chunks.drop_last() =~= chunks.take(n - 1));
}

/// One short read more than `header_read_attempts`, with no `\r\n\r\n` yet,
/// fails the header phase.
pub proof fn lemma_short_reads_over_budget(s: HttpSettings, chunks: Seq<Seq<u8>>)
    requires
        chunks.len() > 0,
        quiet_prefix(s, chunks, chunks.len() - 1),
        short_reads(s, chunks.drop_last()) == s.header_read_attempts,
        0 < chunks.last().len() < s.header_buffer,
        joined(chunks).len() <= s.max_header_size,
        find_from(joined(chunks), 0, head_end()) == joined(chunks).len(),
    ensures
        head_run(s, chunks) == (HeadState::Failed { error: HttpError::HeaderReadFailed }),
{
    let n = chunks.len() as int;
    lemma_head_run_reading(s, chunks, n - 1);
    assert(chunks.drop_last() =~= chunks.take(n - 1));
}

/// A read that takes the header past `max_header_size` fails at once, even
/// when it would complete the header block, so no body is read.
pub proof fn lemma_header_over_limit(s: HttpSettings, chunks: Seq<Seq<u8>>)
    requires
        chunks.len() > 0,
        quiet_prefix(s, chunks, chunks.len() - 1),
        chunks.last().len() > 0,
        joined(chunks).len() > s.max_header_size,
    ensures
        head_run(s, chunks) == (HeadState::Failed { error: HttpError::HeaderTooLarge }),
{
    let n = chunks.len() as int;
    lemma_head_run_reading(s, chunks, n - 1);
    assert(chunks.drop_last() =~= chunks.take(n - 1));
}

/// What one read of the header phase leads to.
pub enum HeadStep {
    /// Keep reading.
    Continue,
    /// The header block (up to and with `\r\n\r\n`) and the bytes read past it.
    Done { head: Vec<u8>, rest: Vec<u8> },
    Failed { error: HttpError },
}

/// The header phase: what has been read so far and how many short reads there were.
pub struct HeadReader {
    header: Vec<u8>,
    read_fails: usize,
}

impl HeadReader {
    pub closed spec fn spec_header(&self) -> Seq<u8> {
        self.header@
    }

    pub closed spec fn spec_read_fails(&self) -> nat {
        self.read_fails as nat
    }

    pub fn new() -> (r: HeadReader)
        ensures
            r.spec_header() == Seq::<u8>::empty(),
            r.spec_read_fails() == 0,
    {
        HeadReader { header: Vec::new(), read_fails: 0 }
    }

    /// Takes the bytes of one read (`chunk`, empty when the stream has ended).
    /// An empty read fails; so does one that takes the header past
    /// `max_header_size`. Once `\r\n\r\n` has been read the header block is
    /// returned (it must be UTF-8) with the bytes after it. A read shorter
    /// than `header_buffer` counts as a failed attempt, and more than
    /// `header_read_attempts` of them fail.
    pub fn feed(&mut self, settings: &HttpSettings, chunk: &[u8]) -> (r: HeadStep)
        ensures
            match head_step(*settings, old(self).spec_header(), old(self).spec_read_fails(), chunk@) {
                HeadState::Reading { acc, fails } => {
                    &&& r == HeadStep::Continue
                    &&& final(self).spec_header() == acc
                    &&& final(self).spec_read_fails() == fails
                },
                HeadState::Done { head, rest } => match r {
                    HeadStep::Done { head: h, rest: t } => h@ == head && t@ == rest,
                    _ => false,
                },
                HeadState::Failed { error } => r == HeadStep::Failed { error },
            },
    {
        if chunk.len() == 0 {
            return HeadStep::Failed { error: HttpError::HeaderReadFailed };
        }
        if self.header.len() > settings.max_header_size || chunk.len() > settings.max_header_size
            - self.header.len() {
            return HeadStep::Failed { error: HttpError::HeaderTooLarge };
        }
        append_bytes(&mut self.header, chunk);
        let end: Vec<u8> = vec![13u8, 10u8, 13u8, 10u8];
        assert(end@ =~= head_end());
        let p = find_pattern(self.header.as_slice(), 0, end.as_slice());
        if p < self.header.len() {
            let head = copy_range(self.header.as_slice(), 0, p + 4);
            let rest = copy_range(self.header.as_slice(), p + 4, self.header.len());
            assert(head@ =~= self.header@.take(p + 4));
            assert(rest@ =~= self.header@.skip(p + 4));
            if is_utf8(head.as_slice()) {
                return HeadStep::Done { head, rest };
            } else {
                return HeadStep::Failed { error: HttpError::InvalidUtf8 };
            }
        }
        if chunk.len() < settings.header_buffer {
            if self.read_fails >= settings.header_read_attempts {
                return HeadStep::Failed { error: HttpError::HeaderReadFailed };
            }
            self.read_fails = self.read_fails + 1;
        }
        HeadStep::Continue
    }
}

/// How many bytes a body read asks for: the rest of the body, at most
/// `body_buffer`; nothing once the body is complete.
pub open spec fn body_request(s: HttpSettings, have: nat, content_len: nat) -> int {
    if have >= content_len {
        0
    } else if content_len - have > s.body_buffer {
        s.body_buffer as int
    } else {
        content_len - have
    }
}

/// The body phase: the bytes collected so far toward a declared length.
pub struct BodyReader {
    body: Vec<u8>,
    content_len: usize,
    read_fails: usize,
}

impl BodyReader {
    pub closed spec fn spec_body(&self) -> Seq<u8> {
        self.body@
    }

    pub closed spec fn spec_content_len(&self) -> nat {
        self.content_len as nat
    }

    pub closed spec fn spec_read_fails(&self) -> nat {
        self.read_fails as nat
    }

    /// Starts collecting a body of `content_len` bytes from the bytes already
    /// read past the header; fails at once when `content_len` is over
    /// `max_body_size`, before anything more is read.
    pub fn start(settings: &HttpSettings, leftover: Vec<u8>, content_len: usize) -> (r: Result<
        BodyReader,
        HttpError,
    >)
        ensures
            content_len > settings.max_body_size ==> r == Err::<BodyReader, HttpError>(
                HttpError::BodyTooLarge,
            ),
            content_len <= settings.max_body_size ==> r.is_ok() && r.unwrap().spec_body()
                == leftover@ && r.unwrap().spec_content_len() == content_len
                && r.unwrap().spec_read_fails() == 0,
    {
        if content_len > settings.max_body_size {
            return Err(HttpError::BodyTooLarge);
        }
        Ok(BodyReader { body: leftover, content_len, read_fails: 0 })
    }

    /// Whether the declared length has been reached.
    pub fn is_complete(&self) -> (r: bool)
        ensures
            r == (self.spec_body().len() >= self.spec_content_len()),
    {
        self.body.len() >= self.content_len
    }

    /// How many bytes the next read asks for: the rest of the body, at most `body_buffer`.
    pub fn next_read_len(&self, settings: &HttpSettings) -> (r: usize)
        requires
            self.spec_body().len() < self.spec_content_len(),
        ensures
            r == (if self.spec_content_len() - self.spec_body().len() > settings.body_buffer {
                settings.body_buffer as int
            } else {
                self.spec_content_len() - self.spec_body().len()
            }),
    {
        let rest = self.content_len - self.body.len();
        if rest > settings.body_buffer {
            settings.body_buffer
        } else {
            rest
        }
    }

    /// Takes the bytes of one read. A read that returns fewer bytes than
    /// were asked for (`next_read_len`) and does not complete the body counts
    /// as a failed attempt, and more than `body_read_attempts` of them fail.
    pub fn feed(&mut self, settings: &HttpSettings, chunk: &[u8]) -> (r: Result<(), HttpError>)
        ensures
            final(self).spec_body() == old(self).spec_body() + chunk@,
            final(self).spec_content_len() == old(self).spec_content_len(),
            ({
                let short = chunk@.len() < body_request(
                    *settings,
                    old(self).spec_body().len(),
                    old(self).spec_content_len(),
                ) && old(self).spec_body().len() + chunk@.len() < old(self).spec_content_len();
                if short && old(self).spec_read_fails() + 1 > settings.body_read_attempts {
                    r == Err::<(), HttpError>(HttpError::BodyReadFailed)
                } else {
                    &&& r == Ok::<(), HttpError>(())
                    &&& final(self).spec_read_fails() == old(self).spec_read_fails() + (if short {
                        1nat
                    } else {
                        0nat
                    })
                }
            }),
    {
        let requested: usize = if self.body.len() >= self.content_len {
            0
        } else {
            self.next_read_len(settings)
        };
        append_bytes(&mut self.body, chunk);
        let completes = self.body.len() >= self.content_len;
        if chunk.len() < requested && !completes {
            if self.read_fails >= settings.body_read_attempts {
                return Err(HttpError::BodyReadFailed);
            }
            self.read_fails = self.read_fails + 1;
        }
        Ok(())
    }

    /// The bytes collected.
    pub fn into_body(self) -> (r: Vec<u8>)
        ensures
            r@ == self.spec_body(),
    {
        self.body
    }
}

} // verus!
