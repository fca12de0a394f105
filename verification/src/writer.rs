//! The response write state machine with Content-Length framing: status
//! line, headers, body, complete, in that order; at completion the declared
//! Content-Length must equal the byte length of the body actually held, or
//! nothing is emitted at all.

use vstd::prelude::*;

use crate::ascii::{eq_ci, lower_seq, parse_dec, split_byte, trim};
use crate::headers::{spec_get_ci, spec_remove_ci, HeaderMap};
use crate::request::{content_length_key, crlf, serialize_headers, version_bytes, HttpVersion};
use crate::response::{HttpStatusCode, ResponseStatusLine};

verus! {

/// A response body: UTF-8 text or raw bytes.
#[derive(Debug, Clone, PartialEq)]
pub enum HttpBody {
    Text(Vec<u8>),
    Binary(Vec<u8>),
}

impl HttpBody {
    /// The bytes the body puts on the wire.
    pub open spec fn spec_bytes(&self) -> Seq<u8> {
        match self {
            HttpBody::Text(t) => t@,
            HttpBody::Binary(b) => b@,
        }
    }

    /// Returns the byte length of the body.
    pub fn byte_len(&self) -> (r: usize)
        ensures
            r == self.spec_bytes().len(),
    {
        match self {
            HttpBody::Text(t) => t.len(),
            HttpBody::Binary(b) => b.len(),
        }
    }

    /// A copy of the body.
    pub fn duplicate(&self) -> (r: HttpBody)
        ensures
            r.spec_bytes() == self.spec_bytes(),
            r is Text <==> self is Text,
    {
        match self {
            HttpBody::Text(t) => {
                let c = crate::ascii::subrange_to_vec(t.as_slice(), 0, t.len());
                proof {
                    assert(c@ =~= t@);
                }
                HttpBody::Text(c)
            },
            HttpBody::Binary(b) => {
                let c = crate::ascii::subrange_to_vec(b.as_slice(), 0, b.len());
                proof {
                    assert(c@ =~= b@);
                }
                HttpBody::Binary(c)
            },
        }
    }

    /// The body bytes, consuming the body.
    pub fn into_bytes(self) -> (r: Vec<u8>)
        ensures
            r@ == self.spec_bytes(),
    {
        match self {
            HttpBody::Text(t) => t,
            HttpBody::Binary(b) => b,
        }
    }

    /// The body bytes, as a slice.
    pub fn as_bytes(&self) -> (r: &Vec<u8>)
        ensures
            r@ == self.spec_bytes(),
    {
        match self {
            HttpBody::Text(t) => t,
            HttpBody::Binary(b) => b,
        }
    }
}

/// Writable HTTP entity: what the writers consume.
pub trait HttpWritable {
    /// The version and status of the status line.
    spec fn spec_status(&self) -> (HttpVersion, HttpStatusCode);

    /// The header entries, in order.
    spec fn spec_headers(&self) -> Seq<(Seq<u8>, Seq<u8>)>;

    /// The body bytes.
    spec fn spec_body(&self) -> Seq<u8>;

    fn status_line(&self) -> (r: &ResponseStatusLine)
        ensures
            (r.version, r.status) == self.spec_status(),
    ;

    fn headers(&self) -> (r: HeaderMap)
        ensures
            r@ == self.spec_headers(),
    ;

    fn body(&self) -> (r: HttpBody)
        ensures
            r.spec_bytes() == self.spec_body(),
    ;
}

/// The states of a response writer.
#[derive(Debug, Clone, Copy, PartialEq, Eq, Structural)]
pub enum WriterState {
    Initial,
    StatusWritten,
    HeadersOpen,
    HeadersClosed,
    BodyWritten,
    Failed,
}

/// An error from the response writer. A state violation or a
/// Content-Length mismatch means a bug in handler code; no bytes are
/// produced for it.
#[derive(Debug, Clone, Copy, PartialEq, Eq, Structural)]
pub enum WriterError {
    InvalidState,
    IoError,
    MissingHeader,
    InvalidHeader,
    ContentLengthMismatch { declared: usize, actual: usize },
}

/// The framing the arbiter chose.
#[derive(Debug, Clone, PartialEq, Eq, Structural)]
pub struct ChunkedDecision {
    pub use_chunked: bool,
    pub use_content_length: bool,
    pub warning: bool,
}

/// The header name `titlecase` produces for a given name; a function of
/// the input alone.
pub uninterp spec fn titlecase_of(name: Seq<u8>) -> Seq<u8>;

/// Every byte is visible ASCII: no whitespace, no control, no high bit.
pub open spec fn all_graphic(s: Seq<u8>) -> bool {
    forall|i: int| 0 <= i < s.len() ==> 0x21 <= #[trigger] s[i] && s[i] <= 0x7e
}

/// Relies on titlecase::titlecase, Gruber-style title casing: the result is
/// a function of the input alone, and on visible-ASCII input every step of
/// it (trimming, word matching, the per-word rules) at most changes the
/// case of ASCII letters, so the output equals the input up to ASCII case.
#[verifier::external_body]
pub(crate) fn normalize_header_name(name: &Vec<u8>) -> (r: Vec<u8>)
    ensures
        r@ == titlecase_of(name@),
        all_graphic(name@) ==> lower_seq(r@) == lower_seq(name@),
{
    let s = String::from_utf8_lossy(name);
    titlecase::titlecase(&s).into_bytes()
}

/// The bytes of the `Transfer-Encoding` header name.
pub open spec fn transfer_encoding_key() -> Seq<u8> {
    seq![84u8, 114, 97, 110, 115, 102, 101, 114, 45, 69, 110, 99, 111, 100, 105, 110, 103]
}

pub fn transfer_encoding_key_bytes() -> (r: Vec<u8>)
    ensures
        r@ == transfer_encoding_key(),
{
    let mut v: Vec<u8> = Vec::new();
    v.push(84);
    v.push(114);
    v.push(97);
    v.push(110);
    v.push(115);
    v.push(102);
    v.push(101);
    v.push(114);
    v.push(45);
    v.push(69);
    v.push(110);
    v.push(99);
    v.push(111);
    v.push(100);
    v.push(105);
    v.push(110);
    v.push(103);
    proof {
        assert(v@ =~= transfer_encoding_key());
    }
    v
}

/// The bytes of the `chunked` transfer coding token.
pub open spec fn chunked_token() -> Seq<u8> {
    seq![99u8, 104, 117, 110, 107, 101, 100]
}

pub fn chunked_token_bytes() -> (r: Vec<u8>)
    ensures
        r@ == chunked_token(),
{
    let mut v: Vec<u8> = Vec::new();
    v.push(99);
    v.push(104);
    v.push(117);
    v.push(110);
    v.push(107);
    v.push(101);
    v.push(100);
    proof {
        assert(v@ =~= chunked_token());
    }
    v
}

/// A comma-separated header value holds `t` as a token, compared
/// case-insensitively after trimming.
pub open spec fn has_token_ci(v: Seq<u8>, t: Seq<u8>) -> bool {
    exists|i: int|
        0 <= i < split_byte(v, 44).len() && eq_ci(trim(#[trigger] split_byte(v, 44)[i]), t)
}

/// Checks if a comma-separated header value contains a specific token,
/// case-insensitively.
pub fn contains_token_ci(value: &[u8], token: &[u8]) -> (r: bool)
    ensures
        r == has_token_ci(value@, token@),
{
    let parts = crate::ascii::split_on_byte(value, 44);
    let n = parts.len();
    let mut i: usize = 0;
    while i < n
        invariant
            0 <= i <= n,
            n == parts@.len(),
            crate::ascii::seqs_view(parts@) == split_byte(value@, 44),
            forall|j: int| 0 <= j < i ==> !eq_ci(trim(split_byte(value@, 44)[j]), token@),
        decreases n - i,
    {
        proof {
            assert(parts@[i as int]@ == split_byte(value@, 44)[i as int]);
        }
        let trimmed = crate::ascii::trim_bytes(parts[i].as_slice());
        if crate::ascii::bytes_eq_ci(trimmed.as_slice(), token) {
            return true;
        }
        i += 1;
    }
    false
}

/// Gets a header value by key, case-insensitively.
pub fn get_header_ci<'a>(headers: &'a HeaderMap, key: &[u8]) -> (r: Option<&'a Vec<u8>>)
    ensures
        match r {
            Some(v) => spec_get_ci(headers@, key@) == Some(v@),
            None => spec_get_ci(headers@, key@) is None,
        },
{
    headers.get_ci(key)
}

/// What the framing arbiter decides for given version and headers.
pub open spec fn decide_chunking_spec(version: HttpVersion, hs: Seq<(Seq<u8>, Seq<u8>)>)
    -> ChunkedDecision {
    let te_has_chunked = match spec_get_ci(hs, transfer_encoding_key()) {
        Some(v) => has_token_ci(v, chunked_token()),
        None => false,
    };
    let cl_present = spec_get_ci(hs, content_length_key()) is Some;
    match version {
        HttpVersion::Http1_0 => ChunkedDecision {
            use_chunked: false,
            use_content_length: true,
            warning: te_has_chunked,
        },
        HttpVersion::Http1_1 => if te_has_chunked {
            ChunkedDecision { use_chunked: true, use_content_length: false, warning: cl_present }
        } else {
            ChunkedDecision { use_chunked: false, use_content_length: true, warning: false }
        },
    }
}

/// Decides between chunked framing and Content-Length from the version and
/// headers: HTTP/1.0 never chunks; HTTP/1.1 chunks exactly when
/// Transfer-Encoding carries a `chunked` token. The warning flag is set
/// when a header had to be ignored or dropped.
pub fn decide_chunking(version: &HttpVersion, headers: &HeaderMap) -> (r: ChunkedDecision)
    ensures
        r == decide_chunking_spec(*version, headers@),
{
    let te_key = transfer_encoding_key_bytes();
    let chunked = chunked_token_bytes();
    let te_has_chunked = match headers.get_ci(te_key.as_slice()) {
        Some(v) => contains_token_ci(v.as_slice(), chunked.as_slice()),
        None => false,
    };
    let cl_key = crate::request::content_length_key_bytes();
    let cl_present = headers.get_ci(cl_key.as_slice()).is_some();
    match version {
        HttpVersion::Http1_0 => ChunkedDecision {
            use_chunked: false,
            use_content_length: true,
            warning: te_has_chunked,
        },
        HttpVersion::Http1_1 => {
            if te_has_chunked {
                ChunkedDecision {
                    use_chunked: true,
                    use_content_length: false,
                    warning: cl_present,
                }
            } else {
                ChunkedDecision { use_chunked: false, use_content_length: true, warning: false }
            }
        },
    }
}

/// The bytes of a response status line: version, space, status text, CRLF.
pub open spec fn status_line_bytes(v: HttpVersion, c: HttpStatusCode) -> Seq<u8> {
    version_bytes(v) + seq![32u8] + c.spec_status_text() + crlf()
}

/// The wire bytes of a Content-Length-framed response.
pub open spec fn wire_of(status_line: Seq<u8>, hs: Seq<(Seq<u8>, Seq<u8>)>, body: Option<Seq<u8>>)
    -> Seq<u8> {
    status_line + serialize_headers(hs) + crlf() + (match body {
        Some(b) => b,
        None => Seq::<u8>::empty(),
    })
}

/// The length of an optional body.
pub open spec fn body_len_of(body: Option<Seq<u8>>) -> int {
    match body {
        Some(b) => b.len() as int,
        None => 0,
    }
}

/// The mathematical content of a writer: its state and the response parts
/// accumulated so far.
pub struct WriterView {
    pub state: WriterState,
    pub status_line: Option<Seq<u8>>,
    pub headers: Seq<(Seq<u8>, Seq<u8>)>,
    pub body: Option<Seq<u8>>,
}

/// An HTTP response writer: accumulates status line, headers and body under
/// the state machine, and at completion yields the full wire bytes.
#[derive(Debug)]
pub struct HttpWriter {
    state: WriterState,
    status_line: Option<Vec<u8>>,
    headers: HeaderMap,
    body: Option<Vec<u8>>,
}

impl View for HttpWriter {
    type V = WriterView;

    closed spec fn view(&self) -> WriterView {
        WriterView {
            state: self.state,
            status_line: match self.status_line {
                Some(ref s) => Some(s@),
                None => None,
            },
            headers: self.headers@,
            body: match self.body {
                Some(ref b) => Some(b@),
                None => None,
            },
        }
    }
}

impl HttpWriter {
    /// Creates a new writer in the initial state.
    pub fn new() -> (r: HttpWriter)
        ensures
            r@.state is Initial,
            r@.status_line is None,
            r@.headers == Seq::<(Seq<u8>, Seq<u8>)>::empty(),
            r@.body is None,
    {
        let r = HttpWriter {
            state: WriterState::Initial,
            status_line: None,
            headers: HeaderMap::new(),
            body: None,
        };
        r
    }

    /// Records the status line; legal only in the initial state.
    pub fn write_status_line(&mut self, version: HttpVersion, status: HttpStatusCode) -> (r:
        Result<(), WriterError>)
        ensures
            match r {
                Ok(()) => {
                    &&& old(self)@.state is Initial
                    &&& final(self)@.state is StatusWritten
                    &&& final(self)@.status_line == Some(status_line_bytes(version, status))
                    &&& final(self)@.headers == old(self)@.headers
                    &&& final(self)@.body == old(self)@.body
                },
                Err(e) => {
                    &&& !(old(self)@.state is Initial)
                    &&& e is InvalidState
                    &&& final(self)@.state is Failed
                    &&& final(self)@.status_line == old(self)@.status_line
                    &&& final(self)@.headers == old(self)@.headers
                    &&& final(self)@.body == old(self)@.body
                },
            },
    {
        if !matches!(self.state, WriterState::Initial) {
            self.state = WriterState::Failed;
            return Err(WriterError::InvalidState);
        }
        let mut line = version.name();
        line.push(32);
        let text = status.status_text();
        crate::ascii::push_bytes(&mut line, text.as_slice());
        line.push(13);
        line.push(10);
        proof {
            assert(line@ =~= status_line_bytes(version, status));
        }
        self.status_line = Some(line);
        self.state = WriterState::StatusWritten;
        Ok(())
    }

    /// Records a header: the name is normalized to title case and replaces
    /// any case-insensitive duplicate. Legal after the status line and
    /// before the headers are finished.
    pub fn write_header(&mut self, a: Vec<u8>, b: Vec<u8>) -> (r: Result<(), WriterError>)
        ensures
            match r {
                Ok(()) => {
                    &&& (old(self)@.state is StatusWritten || old(self)@.state is HeadersOpen)
                    &&& final(self)@.state is HeadersOpen
                    &&& final(self)@.headers == spec_remove_ci(old(self)@.headers, a@)
                        + seq![(titlecase_of(a@), b@)]
                    &&& final(self)@.status_line == old(self)@.status_line
                    &&& final(self)@.body == old(self)@.body
                    &&& (all_graphic(a@) ==> lower_seq(titlecase_of(a@)) == lower_seq(a@))
                },
                Err(e) => {
                    &&& !(old(self)@.state is StatusWritten || old(self)@.state is HeadersOpen)
                    &&& e is InvalidState
                    &&& final(self)@.state is Failed
                    &&& final(self)@.headers == old(self)@.headers
                    &&& final(self)@.status_line == old(self)@.status_line
                    &&& final(self)@.body == old(self)@.body
                },
            },
    {
        if !(matches!(self.state, WriterState::StatusWritten) || matches!(
            self.state,
            WriterState::HeadersOpen,
        )) {
            self.state = WriterState::Failed;
            return Err(WriterError::InvalidState);
        }
        self.state = WriterState::HeadersOpen;
        let normalized = normalize_header_name(&a);
        self.headers.remove_ci(a.as_slice());
        self.headers.append_entry(normalized, b);
        Ok(())
    }

    /// Closes the header section; legal once the status line is written.
    pub fn finish_headers(&mut self) -> (r: Result<(), WriterError>)
        ensures
            match r {
                Ok(()) => {
                    &&& (old(self)@.state is StatusWritten || old(self)@.state is HeadersOpen)
                    &&& final(self)@.state is HeadersClosed
                    &&& final(self)@.status_line == old(self)@.status_line
                    &&& final(self)@.headers == old(self)@.headers
                    &&& final(self)@.body == old(self)@.body
                },
                Err(e) => {
                    &&& !(old(self)@.state is StatusWritten || old(self)@.state is HeadersOpen)
                    &&& e is InvalidState
                    &&& final(self)@.state is Failed
                    &&& final(self)@.status_line == old(self)@.status_line
                    &&& final(self)@.headers == old(self)@.headers
                    &&& final(self)@.body == old(self)@.body
                },
            },
    {
        if !(matches!(self.state, WriterState::StatusWritten) || matches!(
            self.state,
            WriterState::HeadersOpen,
        )) {
            self.state = WriterState::Failed;
            return Err(WriterError::InvalidState);
        }
        self.state = WriterState::HeadersClosed;
        Ok(())
    }

    /// Records the body; legal only right after the headers are closed.
    pub fn write_body(&mut self, body: &[u8]) -> (r: Result<(), WriterError>)
        ensures
            match r {
                Ok(()) => {
                    &&& old(self)@.state is HeadersClosed
                    &&& final(self)@.state is BodyWritten
                    &&& final(self)@.body == Some(body@)
                    &&& final(self)@.status_line == old(self)@.status_line
                    &&& final(self)@.headers == old(self)@.headers
                },
                Err(e) => {
                    &&& !(old(self)@.state is HeadersClosed)
                    &&& e is InvalidState
                    &&& final(self)@.state is Failed
                    &&& final(self)@.status_line == old(self)@.status_line
                    &&& final(self)@.headers == old(self)@.headers
                    &&& final(self)@.body == old(self)@.body
                },
            },
    {
        if !matches!(self.state, WriterState::HeadersClosed) {
            self.state = WriterState::Failed;
            return Err(WriterError::InvalidState);
        }
        self.body = Some(crate::ascii::subrange_to_vec(body, 0, body.len()));
        proof {
            assert(self@.body == Some(body@));
        }
        self.state = WriterState::BodyWritten;
        Ok(())
    }

    /// Completes the response: checks the state, the status line, and that
    /// the declared Content-Length equals the held body's byte length, and
    /// yields the wire bytes. A mismatch yields an error and no bytes.
    pub fn complete_write(self) -> (r: Result<Vec<u8>, WriterError>)
        ensures
            match r {
                Ok(bytes) => {
                    &&& (self@.state is BodyWritten || self@.state is HeadersClosed)
                    &&& self@.status_line is Some
                    &&& spec_get_ci(self@.headers, content_length_key()) is Some
                    &&& parse_dec(spec_get_ci(self@.headers, content_length_key()).unwrap())
                        == Some(body_len_of(self@.body))
                    &&& bytes@ == wire_of(self@.status_line.unwrap(), self@.headers, self@.body)
                },
                Err(e) => match e {
                    WriterError::InvalidState => {
                        !(self@.state is BodyWritten || self@.state is HeadersClosed)
                            || self@.status_line is None
                    },
                    WriterError::MissingHeader => {
                        &&& (self@.state is BodyWritten || self@.state is HeadersClosed)
                        &&& self@.status_line is Some
                        &&& spec_get_ci(self@.headers, content_length_key()) is None
                    },
                    WriterError::InvalidHeader => {
                        &&& (self@.state is BodyWritten || self@.state is HeadersClosed)
                        &&& self@.status_line is Some
                        &&& spec_get_ci(self@.headers, content_length_key()) is Some
                        &&& parse_dec(
                            spec_get_ci(self@.headers, content_length_key()).unwrap(),
                        ) is None
                    },
                    WriterError::ContentLengthMismatch { declared, actual } => {
                        &&& (self@.state is BodyWritten || self@.state is HeadersClosed)
                        &&& self@.status_line is Some
                        &&& spec_get_ci(self@.headers, content_length_key()) is Some
                        &&& parse_dec(spec_get_ci(self@.headers, content_length_key()).unwrap())
                            == Some(declared as int)
                        &&& actual == body_len_of(self@.body)
                        &&& declared != actual
                    },
                    _ => false,
                },
            },
    {
        if !(matches!(self.state, WriterState::BodyWritten) || matches!(
            self.state,
            WriterState::HeadersClosed,
        )) {
            return Err(WriterError::InvalidState);
        }
        let status_line = match self.status_line {
            Some(s) => s,
            None => {
                return Err(WriterError::InvalidState);
            },
        };
        let cl_key = crate::request::content_length_key_bytes();
        let declared: usize = match self.headers.get_ci(cl_key.as_slice()) {
            Some(v) => match crate::ascii::parse_usize(v.as_slice()) {
                Some(n) => n,
                None => {
                    return Err(WriterError::InvalidHeader);
                },
            },
            None => {
                return Err(WriterError::MissingHeader);
            },
        };
        let actual: usize = match &self.body {
            Some(b) => b.len(),
            None => 0,
        };
        if declared != actual {
            return Err(WriterError::ContentLengthMismatch { declared, actual });
        }

        let mut out = status_line;
        let ghost head = out@;
        push_header_block(&mut out, &self.headers);
        out.push(13);
        out.push(10);
        match &self.body {
            Some(b) => {
                crate::ascii::push_bytes(&mut out, b.as_slice());
            },
            None => {},
        }
        proof {
            assert(out@ =~= wire_of(self@.status_line.unwrap(), self@.headers, self@.body));
        }
        Ok(out)
    }
}

/// Every header name is a distinct case class.
pub open spec fn ci_unique(hs: Seq<(Seq<u8>, Seq<u8>)>) -> bool {
    forall|i: int, j: int| 0 <= i < j < hs.len() ==> !eq_ci(hs[i].0, hs[j].0)
}

/// Every header name is visible ASCII.
pub open spec fn all_names_graphic(hs: Seq<(Seq<u8>, Seq<u8>)>) -> bool {
    forall|i: int| 0 <= i < hs.len() ==> all_graphic(#[trigger] hs[i].0)
}

/// Title-casing keeps every name in its own case class. This is known at
/// each writer insert for visible-ASCII names, and is carried as a fact
/// about the mapping.
pub open spec fn tc_keeps_names(hs: Seq<(Seq<u8>, Seq<u8>)>) -> bool {
    forall|i: int| 0 <= i < hs.len() ==> eq_ci(titlecase_of(#[trigger] hs[i].0), hs[i].0)
}

/// What a run of writer inserts leaves in the header mapping: each entry
/// in turn evicts its case class and lands at the end under a title-cased
/// name.
pub open spec fn write_fold(acc: Seq<(Seq<u8>, Seq<u8>)>, hs: Seq<(Seq<u8>, Seq<u8>)>) -> Seq<
    (Seq<u8>, Seq<u8>),
>
    decreases hs.len(),
{
    if hs.len() == 0 {
        acc
    } else {
        write_fold(
            spec_remove_ci(acc, hs.first().0) + seq![(titlecase_of(hs.first().0), hs.first().1)],
            hs.drop_first(),
        )
    }
}

/// A lookup after a run of writer inserts: an inserted case class gets the
/// inserted value; anything else falls through to what was there before.
pub proof fn lemma_write_fold_get_ci(
    acc: Seq<(Seq<u8>, Seq<u8>)>,
    hs: Seq<(Seq<u8>, Seq<u8>)>,
    k: Seq<u8>,
)
    requires
        tc_keeps_names(hs),
        ci_unique(hs),
    ensures
        spec_get_ci(write_fold(acc, hs), k) == (match spec_get_ci(hs, k) {
            Some(v) => Some(v),
            None => spec_get_ci(acc, k),
        }),
    decreases hs.len(),
{
    if hs.len() > 0 {
        let n0 = hs.first().0;
        let v0 = hs.first().1;
        let rest = hs.drop_first();
        let acc2 = spec_remove_ci(acc, n0) + seq![(titlecase_of(n0), v0)];
        assert(eq_ci(titlecase_of(hs[0].0), hs[0].0));
        assert forall|i: int| 0 <= i < rest.len() implies eq_ci(
            titlecase_of(#[trigger] rest[i].0),
            rest[i].0,
        ) by {
            assert(rest[i] == hs[i + 1]);
            assert(eq_ci(titlecase_of(hs[i + 1].0), hs[i + 1].0));
        }
        assert forall|i: int, j: int| 0 <= i < j < rest.len() implies !eq_ci(
            rest[i].0,
            rest[j].0,
        ) by {
            assert(rest[i] == hs[i + 1] && rest[j] == hs[j + 1]);
        }
        lemma_write_fold_get_ci(acc2, rest, k);
        assert(eq_ci(titlecase_of(n0), n0));
        match crate::headers::spec_get_ci(rest, k) {
            Some(_) => {
                lemma_get_ci_some_witness(rest, k);
                let j = choose|j: int| 0 <= j < rest.len() && eq_ci(rest[j].0, k);
                if eq_ci(n0, k) {
                    crate::ascii::lemma_eq_ci_sym(rest[j].0, k);
                    crate::ascii::lemma_eq_ci_trans(n0, k, rest[j].0);
                    assert(eq_ci(hs[0].0, hs[j + 1].0));
                    assert(false);
                }
            },
            None => {
                crate::headers::lemma_get_ci_append(
                    spec_remove_ci(acc, n0),
                    seq![(titlecase_of(n0), v0)],
                    k,
                );
                let single = seq![(titlecase_of(n0), v0)];
                assert(single.first() == (titlecase_of(n0), v0));
                assert(single.drop_first() =~= Seq::<(Seq<u8>, Seq<u8>)>::empty());
                if eq_ci(n0, k) {
                    crate::headers::lemma_get_ci_remove_same(acc, n0, k);
                    crate::ascii::lemma_eq_ci_trans(titlecase_of(n0), n0, k);
                    assert(spec_get_ci(acc2, k) == Some(v0));
                } else {
                    crate::headers::lemma_get_ci_remove_other(acc, n0, k);
                    assert(!eq_ci(titlecase_of(n0), k)) by {
                        if eq_ci(titlecase_of(n0), k) {
                            crate::ascii::lemma_eq_ci_sym(titlecase_of(n0), n0);
                            crate::ascii::lemma_eq_ci_trans(n0, titlecase_of(n0), k);
                        }
                    }
                    assert(single.len() == 1);
                    assert(spec_get_ci(Seq::<(Seq<u8>, Seq<u8>)>::empty(), k) is None);
                    assert(spec_get_ci(single, k) is None);
                    assert(spec_get_ci(acc2, k) == spec_get_ci(acc, k));
                }
            },
        }
    }
}

/// A successful lookup has a matching entry.
pub proof fn lemma_get_ci_some_witness(hs: Seq<(Seq<u8>, Seq<u8>)>, k: Seq<u8>)
    requires
        spec_get_ci(hs, k) is Some,
    ensures
        exists|j: int| 0 <= j < hs.len() && eq_ci(#[trigger] hs[j].0, k),
    decreases hs.len(),
{
    if hs.len() > 0 {
        if eq_ci(hs.first().0, k) {
            assert(eq_ci(hs[0].0, k));
        } else {
            lemma_get_ci_some_witness(hs.drop_first(), k);
            let j = choose|j: int|
                0 <= j < hs.drop_first().len() && eq_ci(hs.drop_first()[j].0, k);
            assert(hs.drop_first()[j] == hs[j + 1]);
            assert(eq_ci(hs[j + 1].0, k));
        }
    }
}

/// Removing entries never brings a name into a case class.
proof fn lemma_remove_ci_keeps_off_class(hs: Seq<(Seq<u8>, Seq<u8>)>, n: Seq<u8>, k: Seq<u8>)
    requires
        forall|i: int| 0 <= i < hs.len() ==> !eq_ci((#[trigger] hs[i]).0, k),
    ensures
        forall|i: int|
            0 <= i < spec_remove_ci(hs, n).len() ==> !eq_ci(
                (#[trigger] spec_remove_ci(hs, n)[i]).0,
                k,
            ),
    decreases hs.len(),
{
    if hs.len() > 0 {
        assert forall|i: int| 0 <= i < hs.drop_first().len() implies !eq_ci(
            (#[trigger] hs.drop_first()[i]).0,
            k,
        ) by {
            assert(hs.drop_first()[i] == hs[i + 1]);
        }
        lemma_remove_ci_keeps_off_class(hs.drop_first(), n, k);
        let rest = spec_remove_ci(hs.drop_first(), n);
        if !eq_ci(hs.first().0, n) {
            let whole = seq![hs.first()] + rest;
            assert(spec_remove_ci(hs, n) == whole);
            assert forall|i: int| 0 <= i < whole.len() implies !eq_ci(
                (#[trigger] whole[i]).0,
                k,
            ) by {
                if i == 0 {
                    assert(whole[0] == hs[0]);
                } else {
                    assert(whole[i] == rest[i - 1]);
                }
            }
        }
    }
}

/// A run of writer inserts whose names sit outside a case class — before
/// and after title-casing — leaves nothing in that class to look up.
proof fn lemma_write_fold_off_class(
    acc: Seq<(Seq<u8>, Seq<u8>)>,
    xs: Seq<(Seq<u8>, Seq<u8>)>,
    k: Seq<u8>,
)
    requires
        forall|i: int| 0 <= i < acc.len() ==> !eq_ci((#[trigger] acc[i]).0, k),
        forall|i: int| 0 <= i < xs.len() ==> !eq_ci((#[trigger] xs[i]).0, k),
        forall|i: int|
            0 <= i < xs.len() ==> eq_ci(titlecase_of((#[trigger] xs[i]).0), xs[i].0),
    ensures
        spec_get_ci(write_fold(acc, xs), k) is None,
    decreases xs.len(),
{
    if xs.len() == 0 {
        crate::headers::lemma_get_ci_none(acc, k);
    } else {
        let x0 = xs.first();
        let removed = spec_remove_ci(acc, x0.0);
        let acc2 = removed + seq![(titlecase_of(x0.0), x0.1)];
        lemma_remove_ci_keeps_off_class(acc, x0.0, k);
        assert(!eq_ci(xs[0].0, k));
        assert(eq_ci(titlecase_of(xs[0].0), xs[0].0));
        assert(!eq_ci(titlecase_of(x0.0), k)) by {
            if eq_ci(titlecase_of(x0.0), k) {
                crate::ascii::lemma_eq_ci_sym(titlecase_of(x0.0), x0.0);
                crate::ascii::lemma_eq_ci_trans(x0.0, titlecase_of(x0.0), k);
            }
        }
        assert forall|i: int| 0 <= i < acc2.len() implies !eq_ci((#[trigger] acc2[i]).0, k) by {
            if i < removed.len() {
                assert(acc2[i] == removed[i]);
            } else {
                assert(acc2[i] == (titlecase_of(x0.0), x0.1));
            }
        }
        let rest = xs.drop_first();
        assert forall|i: int| 0 <= i < rest.len() implies !eq_ci((#[trigger] rest[i]).0, k)
            && eq_ci(titlecase_of(rest[i].0), rest[i].0) by {
            assert(rest[i] == xs[i + 1]);
            assert(!eq_ci(xs[i + 1].0, k));
            assert(eq_ci(titlecase_of(xs[i + 1].0), xs[i + 1].0));
        }
        lemma_write_fold_off_class(acc2, rest, k);
        assert(write_fold(acc, xs) == write_fold(acc2, rest));
    }
}

/// The headers that reach the writer: entries whose name is in the
/// Transfer-Encoding case class are dropped, and with `drop_cl` those in
/// the Content-Length class too.
pub open spec fn strip_framing(hs: Seq<(Seq<u8>, Seq<u8>)>, drop_cl: bool) -> Seq<
    (Seq<u8>, Seq<u8>),
>
    decreases hs.len(),
{
    if hs.len() == 0 {
        Seq::empty()
    } else if eq_ci(hs.first().0, transfer_encoding_key()) || (drop_cl && eq_ci(
        hs.first().0,
        content_length_key(),
    )) {
        strip_framing(hs.drop_first(), drop_cl)
    } else {
        seq![hs.first()] + strip_framing(hs.drop_first(), drop_cl)
    }
}

/// Every stripped name comes from the input.
proof fn lemma_strip_framing_names(hs: Seq<(Seq<u8>, Seq<u8>)>, drop_cl: bool)
    ensures
        forall|i: int|
            0 <= i < strip_framing(hs, drop_cl).len() ==> exists|j: int|
                0 <= j < hs.len() && #[trigger] strip_framing(hs, drop_cl)[i].0 == hs[j].0,
        forall|i: int|
            0 <= i < strip_framing(hs, drop_cl).len() ==> !eq_ci(
                #[trigger] strip_framing(hs, drop_cl)[i].0,
                transfer_encoding_key(),
            ),
        forall|i: int|
            0 <= i < strip_framing(hs, drop_cl).len() ==> (drop_cl ==> !eq_ci(
                #[trigger] strip_framing(hs, drop_cl)[i].0,
                content_length_key(),
            )),
    decreases hs.len(),
{
    if hs.len() > 0 {
        lemma_strip_framing_names(hs.drop_first(), drop_cl);
        let rest = strip_framing(hs.drop_first(), drop_cl);
        let whole = strip_framing(hs, drop_cl);
        if !(eq_ci(hs.first().0, transfer_encoding_key()) || (drop_cl && eq_ci(
            hs.first().0,
            content_length_key(),
        ))) {
            assert forall|i: int| 0 <= i < whole.len() implies exists|j: int|
                0 <= j < hs.len() && #[trigger] whole[i].0 == hs[j].0 by {
                if i == 0 {
                    assert(whole[0].0 == hs[0].0);
                } else {
                    assert(whole[i] == rest[i - 1]);
                    let j = choose|j: int|
                        0 <= j < hs.drop_first().len() && rest[i - 1].0 == hs.drop_first()[j].0;
                    assert(hs.drop_first()[j] == hs[j + 1]);
                    assert(whole[i].0 == hs[j + 1].0);
                }
            }
            assert forall|i: int| 0 <= i < whole.len() implies !eq_ci(
                #[trigger] whole[i].0,
                transfer_encoding_key(),
            ) by {
                if i > 0 {
                    assert(whole[i] == rest[i - 1]);
                }
            }
            assert forall|i: int| 0 <= i < whole.len() implies (drop_cl ==> !eq_ci(
                #[trigger] whole[i].0,
                content_length_key(),
            )) by {
                if i > 0 {
                    assert(whole[i] == rest[i - 1]);
                }
            }
        } else {
            assert forall|i: int| 0 <= i < whole.len() implies exists|j: int|
                0 <= j < hs.len() && #[trigger] whole[i].0 == hs[j].0 by {
                assert(whole[i] == rest[i]);
                let j = choose|j: int|
                    0 <= j < hs.drop_first().len() && rest[i].0 == hs.drop_first()[j].0;
                assert(hs.drop_first()[j] == hs[j + 1]);
            }
        }
    }
}

/// Stripping keeps names distinct and visible-ASCII.
proof fn lemma_strip_framing_wf(hs: Seq<(Seq<u8>, Seq<u8>)>, drop_cl: bool)
    requires
        all_names_graphic(hs),
        ci_unique(hs),
    ensures
        all_names_graphic(strip_framing(hs, drop_cl)),
        ci_unique(strip_framing(hs, drop_cl)),
    decreases hs.len(),
{
    if hs.len() > 0 {
        let rest0 = hs.drop_first();
        assert forall|i: int| 0 <= i < rest0.len() implies all_graphic(#[trigger] rest0[i].0) by {
            assert(rest0[i] == hs[i + 1]);
        }
        assert forall|i: int, j: int| 0 <= i < j < rest0.len() implies !eq_ci(
            rest0[i].0,
            rest0[j].0,
        ) by {
            assert(rest0[i] == hs[i + 1] && rest0[j] == hs[j + 1]);
        }
        lemma_strip_framing_wf(rest0, drop_cl);
        lemma_strip_framing_names(rest0, drop_cl);
        let rest = strip_framing(rest0, drop_cl);
        let whole = strip_framing(hs, drop_cl);
        if !(eq_ci(hs.first().0, transfer_encoding_key()) || (drop_cl && eq_ci(
            hs.first().0,
            content_length_key(),
        ))) {
            assert(whole == seq![hs.first()] + rest);
            assert forall|i: int| 0 <= i < whole.len() implies all_graphic(
                #[trigger] whole[i].0,
            ) by {
                if i == 0 {
                    assert(whole[0].0 == hs[0].0);
                } else {
                    assert(whole[i] == rest[i - 1]);
                }
            }
            assert forall|i: int, j: int| 0 <= i < j < whole.len() implies !eq_ci(
                whole[i].0,
                whole[j].0,
            ) by {
                if i == 0 {
                    assert(whole[j] == rest[j - 1]);
                    let w = choose|w: int| 0 <= w < rest0.len() && rest[j - 1].0 == rest0[w].0;
                    assert(rest0[w] == hs[w + 1]);
                    assert(!eq_ci(hs[0].0, hs[w + 1].0));
                } else {
                    assert(whole[i] == rest[i - 1] && whole[j] == rest[j - 1]);
                }
            }
        }
    }
}

/// A lookup outside the stripped classes is unchanged by stripping.
proof fn lemma_strip_framing_get_ci(hs: Seq<(Seq<u8>, Seq<u8>)>, drop_cl: bool, k: Seq<u8>)
    requires
        !eq_ci(k, transfer_encoding_key()),
        drop_cl ==> !eq_ci(k, content_length_key()),
    ensures
        spec_get_ci(strip_framing(hs, drop_cl), k) == spec_get_ci(hs, k),
    decreases hs.len(),
{
    if hs.len() > 0 {
        lemma_strip_framing_get_ci(hs.drop_first(), drop_cl, k);
        if eq_ci(hs.first().0, transfer_encoding_key()) || (drop_cl && eq_ci(
            hs.first().0,
            content_length_key(),
        )) {
            if eq_ci(hs.first().0, k) {
                crate::ascii::lemma_eq_ci_sym(hs.first().0, k);
                if eq_ci(hs.first().0, transfer_encoding_key()) {
                    crate::ascii::lemma_eq_ci_trans(k, hs.first().0, transfer_encoding_key());
                } else {
                    crate::ascii::lemma_eq_ci_trans(k, hs.first().0, content_length_key());
                }
            }
        } else {
            let rest = strip_framing(hs.drop_first(), drop_cl);
            assert(strip_framing(hs, drop_cl) == seq![hs.first()] + rest);
            assert((seq![hs.first()] + rest).first() == hs.first());
            assert((seq![hs.first()] + rest).drop_first() =~= rest);
        }
    }
}

/// The value of the last Transfer-Encoding entry, if any.
pub open spec fn last_te_value(hs: Seq<(Seq<u8>, Seq<u8>)>) -> Option<Seq<u8>>
    decreases hs.len(),
{
    if hs.len() == 0 {
        None
    } else if eq_ci(hs.last().0, transfer_encoding_key()) {
        Some(hs.last().1)
    } else {
        last_te_value(hs.drop_last())
    }
}

/// The trimmed, nonempty, non-`chunked` tokens of a comma-separated value.
pub open spec fn non_chunked_tokens_of(segs: Seq<Seq<u8>>) -> Seq<Seq<u8>>
    decreases segs.len(),
{
    if segs.len() == 0 {
        Seq::empty()
    } else {
        let t = trim(segs.first());
        (if t.len() > 0 && !eq_ci(t, chunked_token()) {
            seq![t]
        } else {
            Seq::<Seq<u8>>::empty()
        }) + non_chunked_tokens_of(segs.drop_first())
    }
}

pub open spec fn non_chunked_tokens(v: Seq<u8>) -> Seq<Seq<u8>> {
    non_chunked_tokens_of(split_byte(v, 44))
}

/// Tokens joined with `, `.
pub open spec fn join_tokens(ts: Seq<Seq<u8>>) -> Seq<u8>
    decreases ts.len(),
{
    if ts.len() == 0 {
        Seq::empty()
    } else if ts.len() == 1 {
        ts[0]
    } else {
        ts.first() + seq![44u8, 32u8] + join_tokens(ts.drop_first())
    }
}

/// The Transfer-Encoding token list the arbiter rewrites to on the chunked
/// path: the existing non-chunked tokens in order, then `chunked`.
pub open spec fn chunked_te_tokens(hs: Seq<(Seq<u8>, Seq<u8>)>) -> Seq<Seq<u8>> {
    (match last_te_value(hs) {
        Some(v) => non_chunked_tokens(v),
        None => Seq::<Seq<u8>>::empty(),
    }) + seq![chunked_token()]
}

/// The headers handed to the chunked writer.
pub open spec fn effective_chunked(hs: Seq<(Seq<u8>, Seq<u8>)>) -> Seq<(Seq<u8>, Seq<u8>)> {
    strip_framing(hs, true) + seq![
        (transfer_encoding_key(), join_tokens(chunked_te_tokens(hs))),
    ]
}

/// A writer insert at the end of a run folds on at the end.
proof fn lemma_write_fold_snoc(
    acc: Seq<(Seq<u8>, Seq<u8>)>,
    xs: Seq<(Seq<u8>, Seq<u8>)>,
    e: (Seq<u8>, Seq<u8>),
)
    ensures
        write_fold(acc, xs.push(e)) == spec_remove_ci(write_fold(acc, xs), e.0) + seq![
            (titlecase_of(e.0), e.1),
        ],
    decreases xs.len(),
{
    if xs.len() == 0 {
        assert(xs.push(e).first() == e);
        assert(xs.push(e).drop_first() =~= Seq::<(Seq<u8>, Seq<u8>)>::empty());
        assert(write_fold(acc, xs.push(e)) == write_fold(
            spec_remove_ci(acc, e.0) + seq![(titlecase_of(e.0), e.1)],
            xs.push(e).drop_first(),
        ));
        assert(write_fold(acc, xs) == acc);
    } else {
        assert(xs.push(e).first() == xs.first());
        assert(xs.push(e).drop_first() =~= xs.drop_first().push(e));
        let acc2 = spec_remove_ci(acc, xs.first().0) + seq![
            (titlecase_of(xs.first().0), xs.first().1),
        ];
        lemma_write_fold_snoc(acc2, xs.drop_first(), e);
        assert(write_fold(acc, xs.push(e)) == write_fold(acc2, xs.drop_first().push(e)));
        assert(write_fold(acc, xs) == write_fold(acc2, xs.drop_first()));
    }
}

/// The three wire constants are visible ASCII, hold no comma, and name
/// three different case classes.
proof fn lemma_key_facts()
    ensures
        all_graphic(transfer_encoding_key()),
        all_graphic(content_length_key()),
        !crate::ascii::contains_byte(chunked_token(), 44),
        !eq_ci(content_length_key(), transfer_encoding_key()),
        !eq_ci(transfer_encoding_key(), content_length_key()),
        chunked_token().first() == 99,
        chunked_token().last() == 100,
{
    let te = transfer_encoding_key();
    let cl = content_length_key();
    let c = chunked_token();
    assert(te.len() == 17 && cl.len() == 14 && c.len() == 7);
    assert forall|i: int| 0 <= i < te.len() implies 0x21 <= #[trigger] te[i] && te[i] <= 0x7e by {
        assert(te[0] == 84 && te[1] == 114 && te[2] == 97 && te[3] == 110 && te[4] == 115 && te[5]
            == 102 && te[6] == 101 && te[7] == 114 && te[8] == 45 && te[9] == 69 && te[10] == 110
            && te[11] == 99 && te[12] == 111 && te[13] == 100 && te[14] == 105 && te[15] == 110
            && te[16] == 103);
    }
    assert forall|i: int| 0 <= i < cl.len() implies 0x21 <= #[trigger] cl[i] && cl[i] <= 0x7e by {
        assert(cl[0] == 67 && cl[1] == 111 && cl[2] == 110 && cl[3] == 116 && cl[4] == 101 && cl[5]
            == 110 && cl[6] == 116 && cl[7] == 45 && cl[8] == 76 && cl[9] == 101 && cl[10] == 110
            && cl[11] == 103 && cl[12] == 116 && cl[13] == 104);
    }
    assert forall|i: int| 0 <= i < c.len() implies #[trigger] c[i] != 44 by {
        assert(c[0] == 99 && c[1] == 104 && c[2] == 117 && c[3] == 110 && c[4] == 107 && c[5]
            == 101 && c[6] == 100);
    }
}

/// Every token the arbiter keeps is comma-free.
proof fn lemma_non_chunked_tokens_of_free(segs: Seq<Seq<u8>>)
    requires
        forall|i: int| 0 <= i < segs.len() ==> !crate::ascii::contains_byte(#[trigger] segs[i], 44),
    ensures
        forall|i: int|
            0 <= i < non_chunked_tokens_of(segs).len() ==> !crate::ascii::contains_byte(
                #[trigger] non_chunked_tokens_of(segs)[i],
                44,
            ),
    decreases segs.len(),
{
    if segs.len() > 0 {
        assert forall|i: int| 0 <= i < segs.drop_first().len() implies !crate::ascii::contains_byte(
            #[trigger] segs.drop_first()[i],
            44,
        ) by {
            assert(segs.drop_first()[i] == segs[i + 1]);
        }
        lemma_non_chunked_tokens_of_free(segs.drop_first());
        crate::ascii::lemma_trim_no_byte(segs.first(), 44);
        let whole = non_chunked_tokens_of(segs);
        let rest = non_chunked_tokens_of(segs.drop_first());
        let t = trim(segs.first());
        assert forall|i: int| 0 <= i < whole.len() implies !crate::ascii::contains_byte(
            #[trigger] whole[i],
            44,
        ) by {
            if t.len() > 0 && !eq_ci(t, chunked_token()) {
                if i == 0 {
                    assert(whole[0] == t);
                } else {
                    assert(whole[i] == rest[i - 1]);
                }
            } else {
                assert(whole[i] == rest[i]);
            }
        }
    }
}

/// Joining one more token appends a comma, a space, and the token.
proof fn lemma_join_last(ts: Seq<Seq<u8>>, t: Seq<u8>)
    requires
        ts.len() >= 1,
    ensures
        join_tokens(ts.push(t)) == join_tokens(ts) + seq![44u8, 32u8] + t,
    decreases ts.len(),
{
    if ts.len() == 1 {
        assert(ts.push(t).first() == ts[0]);
        assert(ts.push(t).drop_first() =~= seq![t]);
        assert(join_tokens(seq![t]) == t);
        assert(join_tokens(ts) == ts[0]);
    } else {
        assert(ts.push(t).first() == ts.first());
        assert(ts.push(t).drop_first() =~= ts.drop_first().push(t));
        lemma_join_last(ts.drop_first(), t);
        assert(ts.first() + seq![44u8, 32u8] + (join_tokens(ts.drop_first()) + seq![44u8, 32u8]
            + t) =~= (ts.first() + seq![44u8, 32u8] + join_tokens(ts.drop_first())) + seq![
            44u8,
            32u8,
        ] + t);
    }
}

/// The rewritten Transfer-Encoding value always carries the `chunked` token.
proof fn lemma_chunked_in_join(ts: Seq<Seq<u8>>)
    requires
        forall|i: int| 0 <= i < ts.len() ==> !crate::ascii::contains_byte(#[trigger] ts[i], 44),
    ensures
        has_token_ci(join_tokens(ts.push(chunked_token())), chunked_token()),
{
    let c = chunked_token();
    lemma_key_facts();
    if ts.len() == 0 {
        assert(ts.push(c) =~= seq![c]);
        let joined = join_tokens(seq![c]);
        assert(joined == c);
        crate::ascii::lemma_find_sub_from_spec(c, seq![44u8], 0);
        match crate::ascii::find_sub(c, seq![44u8]) {
            Some(j) => {
                assert(crate::ascii::match_at(c, seq![44u8], j));
                assert(c.subrange(j, j + 1)[0] == c[j]);
                assert(crate::ascii::contains_byte(c, 44));
                lemma_non_chunked_tokens_of_free(Seq::empty());
                assert(false) by {
                    assert(c[j] == 44);
                    assert(forall|i: int| 0 <= i < c.len() ==> #[trigger] c[i] != 44) by {
                        lemma_key_facts_contains(c);
                    }
                }
            },
            None => {},
        }
        assert(split_byte(joined, 44) == seq![c]);
        assert(trim(c) == c) by {
            assert(!crate::ascii::is_ws(c.first()));
            assert(crate::ascii::trim_front(c) == c);
            assert(!crate::ascii::is_ws(c.last()));
            assert(crate::ascii::trim_back(c) == c);
        }
        assert(eq_ci(trim(split_byte(joined, 44)[0]), c));
    } else {
        lemma_join_last(ts, c);
        let x = join_tokens(ts);
        let y = seq![32u8] + c;
        let joined = join_tokens(ts.push(c));
        assert(joined =~= x + seq![44u8] + y);
        crate::ascii::lemma_split_byte_join(x, y, 44);
        // the tail `SP chunked` holds no comma, so it is one whole token
        assert forall|j: int| 0 <= j < y.len() implies #[trigger] y[j] != 44 by {
            if j > 0 {
                assert(y[j] == c[j - 1]);
                lemma_key_facts_contains(c);
            }
        }
        crate::ascii::lemma_find_sub_from_spec(y, seq![44u8], 0);
        match crate::ascii::find_sub(y, seq![44u8]) {
            Some(j) => {
                assert(crate::ascii::match_at(y, seq![44u8], j));
                assert(y.subrange(j, j + 1)[0] == y[j]);
                assert(false);
            },
            None => {},
        }
        assert(split_byte(y, 44) == seq![y]);
        let parts = split_byte(joined, 44);
        assert(parts == split_byte(x, 44) + seq![y]);
        let w = split_byte(x, 44).len() as int;
        assert(parts.len() == split_byte(x, 44).len() + 1);
        assert(0 <= w < parts.len());
        assert(parts[w] == y);
        assert(trim(y) == c) by {
            assert(crate::ascii::is_ws(y.first()));
            assert(y.drop_first() =~= c);
            assert(!crate::ascii::is_ws(c.first()));
            assert(crate::ascii::trim_front(c) == c);
            assert(crate::ascii::trim_front(y) == crate::ascii::trim_front(y.drop_first()));
            assert(crate::ascii::trim_front(y) == c);
            assert(!crate::ascii::is_ws(c.last()));
            assert(crate::ascii::trim_back(c) == c);
        }
        assert(trim(parts[w]) == c);
        assert(eq_ci(c, c));
        assert(eq_ci(trim(split_byte(join_tokens(ts.push(chunked_token())), 44)[w]), c));
    }
}

/// The comma never stands in the `chunked` token.
proof fn lemma_key_facts_contains(c: Seq<u8>)
    requires
        c == chunked_token(),
    ensures
        forall|i: int| 0 <= i < c.len() ==> #[trigger] c[i] != 44,
{
    assert(c.len() == 7);
    assert forall|i: int| 0 <= i < c.len() implies #[trigger] c[i] != 44 by {
        assert(c[0] == 99 && c[1] == 104 && c[2] == 117 && c[3] == 110 && c[4] == 107 && c[5]
            == 101 && c[6] == 100);
    }
}

/// The trimmed, nonempty, non-`chunked` tokens of a value, as byte vectors.
fn collect_non_chunked_tokens(v: &[u8]) -> (r: Vec<Vec<u8>>)
    ensures
        crate::ascii::seqs_view(r@) == non_chunked_tokens(v@),
{
    let segs = crate::ascii::split_on_byte(v, 44);
    let chunked = chunked_token_bytes();
    let n = segs.len();
    let mut out: Vec<Vec<u8>> = Vec::new();
    let mut i: usize = 0;
    proof {
        assert(crate::ascii::seqs_view(segs@).skip(0) =~= crate::ascii::seqs_view(segs@));
        assert(crate::ascii::seqs_view(out@) + non_chunked_tokens_of(crate::ascii::seqs_view(segs@))
            =~= non_chunked_tokens_of(crate::ascii::seqs_view(segs@)));
    }
    while i < n
        invariant
            0 <= i <= n,
            n == segs@.len(),
            chunked@ == chunked_token(),
            crate::ascii::seqs_view(segs@) == split_byte(v@, 44),
            non_chunked_tokens(v@) == crate::ascii::seqs_view(out@) + non_chunked_tokens_of(
                crate::ascii::seqs_view(segs@).skip(i as int),
            ),
        decreases n - i,
    {
        let ghost remaining = crate::ascii::seqs_view(segs@).skip(i as int);
        proof {
            assert(remaining.first() == segs@[i as int]@);
            assert(remaining.drop_first() =~= crate::ascii::seqs_view(segs@).skip(i as int + 1));
        }
        let t = crate::ascii::trim_bytes(segs[i].as_slice());
        let keep = t.len() > 0 && !crate::ascii::bytes_eq_ci(t.as_slice(), chunked.as_slice());
        proof {
            assert(chunked@ == chunked_token());
            assert(trim(remaining.first()) == t@);
        }
        if keep {
            let ghost before = crate::ascii::seqs_view(out@);
            let ghost tv = t@;
            out.push(t);
            proof {
                assert(non_chunked_tokens_of(remaining) == seq![tv] + non_chunked_tokens_of(
                    remaining.drop_first(),
                ));
                assert(crate::ascii::seqs_view(out@) =~= before + seq![tv]);
                assert(before + seq![tv] + non_chunked_tokens_of(remaining.drop_first()) =~= before
                    + (seq![tv] + non_chunked_tokens_of(remaining.drop_first())));
            }
        } else {
            proof {
                assert(non_chunked_tokens_of(remaining) == Seq::<Seq<u8>>::empty()
                    + non_chunked_tokens_of(remaining.drop_first()));
                assert(Seq::<Seq<u8>>::empty() + non_chunked_tokens_of(remaining.drop_first()) =~=
                    non_chunked_tokens_of(remaining.drop_first()));
            }
        }
        i += 1;
    }
    proof {
        assert(crate::ascii::seqs_view(segs@).skip(n as int) =~= Seq::<Seq<u8>>::empty());
        assert(crate::ascii::seqs_view(out@) + non_chunked_tokens_of(Seq::<Seq<u8>>::empty()) =~=
            crate::ascii::seqs_view(out@));
    }
    out
}

/// Joins tokens with `, `.
fn join_token_list(ts: &Vec<Vec<u8>>) -> (r: Vec<u8>)
    ensures
        r@ == join_tokens(crate::ascii::seqs_view(ts@)),
{
    let mut out: Vec<u8> = Vec::new();
    let n = ts.len();
    if n == 0 {
        proof {
            assert(out@ =~= join_tokens(crate::ascii::seqs_view(ts@)));
        }
        return out;
    }
    crate::ascii::push_bytes(&mut out, ts[0].as_slice());
    proof {
        assert(crate::ascii::seqs_view(ts@).take(1) =~= seq![ts@[0]@]);
        assert(out@ =~= join_tokens(crate::ascii::seqs_view(ts@).take(1)));
    }
    let mut i: usize = 1;
    while i < n
        invariant
            1 <= i <= n,
            n == ts@.len(),
            out@ == join_tokens(crate::ascii::seqs_view(ts@).take(i as int)),
        decreases n - i,
    {
        let ghost prefix = crate::ascii::seqs_view(ts@).take(i as int);
        out.push(44);
        out.push(32);
        crate::ascii::push_bytes(&mut out, ts[i].as_slice());
        proof {
            lemma_join_last(prefix, ts@[i as int]@);
            assert(prefix.push(ts@[i as int]@) =~= crate::ascii::seqs_view(ts@).take(i as int + 1));
            assert(out@ =~= join_tokens(prefix) + seq![44u8, 32u8] + ts@[i as int]@);
        }
        i += 1;
    }
    proof {
        assert(crate::ascii::seqs_view(ts@).take(n as int) =~= crate::ascii::seqs_view(ts@));
    }
    out
}

/// The inputs on which a response is owed to go out: visible-ASCII header
/// names, one header per case class, and on the Content-Length path a
/// Content-Length that matches the body.
pub open spec fn wf_send(version: HttpVersion, hs: Seq<(Seq<u8>, Seq<u8>)>, body_len: int) -> bool {
    &&& all_names_graphic(hs)
    &&& ci_unique(hs)
    &&& (decide_chunking_spec(version, hs).use_chunked || (match spec_get_ci(
        hs,
        content_length_key(),
    ) {
        Some(v) => parse_dec(v) == Some(body_len),
        None => false,
    }))
}

/// Renders a writable response to wire bytes: the arbiter picks the
/// framing, the headers are rewritten for it, and the matching writer runs
/// to completion. On well-formed inputs this cannot fail; whatever comes
/// back, emitted bytes carry exactly one of Content-Length and chunked
/// framing, with Content-Length equal to the body length.
pub fn send_response<T: HttpWritable>(response: &T) -> (r: Result<Vec<u8>, WriterError>)
    ensures
        ({
            let version = response.spec_status().0;
            let status = response.spec_status().1;
            let hs = response.spec_headers();
            let body = response.spec_body();
            let d = decide_chunking_spec(version, hs);
            &&& (match r {
                Ok(bytes) => if d.use_chunked {
                    let out_hs = write_fold(Seq::empty(), effective_chunked(hs));
                    &&& bytes@ == crate::chunked::chunked_wire(
                        status_line_bytes(version, status),
                        out_hs,
                        if body.len() > 0 {
                            Some(body)
                        } else {
                            None
                        },
                    )
                    &&& spec_get_ci(out_hs, content_length_key()) is None
                    &&& spec_get_ci(out_hs, transfer_encoding_key()) is Some
                    &&& has_token_ci(
                        spec_get_ci(out_hs, transfer_encoding_key()).unwrap(),
                        chunked_token(),
                    )
                } else {
                    let out_hs = write_fold(Seq::empty(), strip_framing(hs, false));
                    &&& bytes@ == wire_of(status_line_bytes(version, status), out_hs, Some(body))
                    &&& spec_get_ci(out_hs, content_length_key()) is Some
                    &&& parse_dec(spec_get_ci(out_hs, content_length_key()).unwrap()) == Some(
                        body.len() as int,
                    )
                    &&& (all_names_graphic(hs) ==> spec_get_ci(
                        out_hs,
                        transfer_encoding_key(),
                    ) is None)
                },
                Err(_) => !wf_send(version, hs, body.len() as int),
            })
            &&& (wf_send(version, hs, body.len() as int) ==> r is Ok)
        }),
{
    let sl = response.status_line();
    let version = sl.version;
    let status = sl.status;
    let headers = response.headers();
    let body = response.body();
    let ghost hs = response.spec_headers();
    let decision = decide_chunking(&version, &headers);
    proof {
        lemma_key_facts();
    }
    let n = headers.len();
    let te_key = transfer_encoding_key_bytes();
    let cl_key = crate::request::content_length_key_bytes();

    if decision.use_chunked {
        let mut writer = crate::chunked::ChunkedWriter::new();
        match writer.write_status_line(version, status) {
            Ok(()) => {},
            Err(e) => {
                return Err(e);
            },
        }
        let mut transfer_tokens: Vec<Vec<u8>> = Vec::new();
        let mut i: usize = 0;
        proof {
            assert(hs.skip(0) =~= hs);
            assert(hs.take(0) =~= Seq::<(Seq<u8>, Seq<u8>)>::empty());
        }
        while i < n
            invariant
                0 <= i <= n,
                n == hs.len(),
                headers@ == hs,
                te_key@ == transfer_encoding_key(),
                cl_key@ == content_length_key(),
                writer@.state is StatusWritten || writer@.state is HeadersOpen,
                writer@.status_line == Some(status_line_bytes(version, status)),
                writer@.body is None,
                write_fold(writer@.headers, strip_framing(hs.skip(i as int), true)) == write_fold(
                    Seq::empty(),
                    strip_framing(hs, true),
                ),
                crate::ascii::seqs_view(transfer_tokens@) == (match last_te_value(
                    hs.take(i as int),
                ) {
                    Some(v) => non_chunked_tokens(v),
                    None => Seq::<Seq<u8>>::empty(),
                }),
                forall|j: int|
                    0 <= j < i && !eq_ci(#[trigger] hs[j].0, transfer_encoding_key()) && !eq_ci(
                        hs[j].0,
                        content_length_key(),
                    ) ==> (all_graphic(hs[j].0) ==> eq_ci(titlecase_of(hs[j].0), hs[j].0)),
            decreases n - i,
        {
            let ghost rem = hs.skip(i as int);
            let ghost e = hs[i as int];
            proof {
                lemma_key_facts();
                assert(rem.first() == e);
                assert(rem.drop_first() =~= hs.skip(i as int + 1));
                assert(hs.take(i as int + 1).last() == e);
                assert(hs.take(i as int + 1).drop_last() =~= hs.take(i as int));
            }
            let (name, value) = headers.entry_at(i);
            if crate::ascii::bytes_eq_ci(name.as_slice(), cl_key.as_slice()) {
                // dropped: chunked framing carries no Content-Length
                proof {
                    assert(eq_ci(e.0, content_length_key()));
                    if eq_ci(e.0, transfer_encoding_key()) {
                        crate::ascii::lemma_eq_ci_sym(e.0, transfer_encoding_key());
                        crate::ascii::lemma_eq_ci_trans(
                            transfer_encoding_key(),
                            e.0,
                            content_length_key(),
                        );
                    }
                    assert(!eq_ci(e.0, transfer_encoding_key()));
                    assert(strip_framing(rem, true) == strip_framing(rem.drop_first(), true));
                    assert(last_te_value(hs.take(i as int + 1)) == last_te_value(
                        hs.take(i as int),
                    ));
                }
                i += 1;
            } else if crate::ascii::bytes_eq_ci(name.as_slice(), te_key.as_slice()) {
                transfer_tokens = collect_non_chunked_tokens(value.as_slice());
                proof {
                    assert(eq_ci(e.0, transfer_encoding_key()));
                    assert(value@ == e.1);
                    assert(strip_framing(rem, true) == strip_framing(rem.drop_first(), true));
                    assert(last_te_value(hs.take(i as int + 1)) == Some(e.1));
                }
                i += 1;
            } else {
                let name_copy = crate::ascii::subrange_to_vec(name.as_slice(), 0, name.len());
                let value_copy = crate::ascii::subrange_to_vec(value.as_slice(), 0, value.len());
                proof {
                    assert(name_copy@ =~= e.0);
                    assert(value_copy@ =~= e.1);
                }
                let ghost wh = writer@.headers;
                match writer.write_header(name_copy, value_copy) {
                    Ok(()) => {},
                    Err(er) => {
                        return Err(er);
                    },
                }
                proof {
                    let tail = strip_framing(hs.skip(i as int + 1), true);
                    assert(strip_framing(rem, true) == seq![e] + tail);
                    assert((seq![e] + tail).first() == e);
                    assert((seq![e] + tail).drop_first() =~= tail);
                    assert(write_fold(wh, seq![e] + tail) == write_fold(
                        spec_remove_ci(wh, e.0) + seq![(titlecase_of(e.0), e.1)],
                        tail,
                    ));
                    assert(writer@.headers == spec_remove_ci(wh, e.0) + seq![
                        (titlecase_of(e.0), e.1),
                    ]);
                    crate::ascii::lemma_eq_ci_is_lower_eq(titlecase_of(e.0), e.0);
                    assert(last_te_value(hs.take(i as int + 1)) == last_te_value(hs.take(i as int)));
                }
                i += 1;
            }
        }
        proof {
            assert(hs.skip(n as int) =~= Seq::<(Seq<u8>, Seq<u8>)>::empty());
            assert(hs.take(n as int) =~= hs);
            assert(writer@.headers == write_fold(Seq::empty(), strip_framing(hs, true)));
        }
        let chunked = chunked_token_bytes();
        let ghost tokens_before = crate::ascii::seqs_view(transfer_tokens@);
        transfer_tokens.push(chunked);
        proof {
            assert(crate::ascii::seqs_view(transfer_tokens@) =~= tokens_before.push(
                chunked_token(),
            ));
            assert(tokens_before.push(chunked_token()) =~= chunked_te_tokens(hs));
        }
        let te_value = join_token_list(&transfer_tokens);
        let te_key2 = transfer_encoding_key_bytes();
        match writer.write_header(te_key2, te_value) {
            Ok(()) => {},
            Err(e) => {
                return Err(e);
            },
        }
        proof {
            lemma_write_fold_snoc(
                Seq::empty(),
                strip_framing(hs, true),
                (transfer_encoding_key(), join_tokens(chunked_te_tokens(hs))),
            );
            assert(strip_framing(hs, true).push(
                (transfer_encoding_key(), join_tokens(chunked_te_tokens(hs))),
            ) =~= effective_chunked(hs));
            assert(writer@.headers == write_fold(Seq::empty(), effective_chunked(hs)));
        }
        match writer.finish_headers() {
            Ok(()) => {},
            Err(e) => {
                return Err(e);
            },
        }
        match writer.write_body(body.as_bytes().as_slice()) {
            Ok(()) => {},
            Err(e) => {
                return Err(e);
            },
        }
        proof {
            // under well-formed inputs, every completion check passes
            if wf_send(version, hs, response.spec_body().len() as int) {
                let strip = strip_framing(hs, true);
                lemma_strip_framing_wf(hs, true);
                lemma_strip_framing_names(hs, true);
                assert forall|x: int| 0 <= x < strip.len() implies eq_ci(
                    titlecase_of(#[trigger] strip[x].0),
                    strip[x].0,
                ) by {
                    let j = choose|j: int| 0 <= j < hs.len() && strip[x].0 == hs[j].0;
                    assert(all_graphic(hs[j].0));
                }
                lemma_write_fold_get_ci(Seq::empty(), strip, content_length_key());
                assert forall|x: int| 0 <= x < strip.len() implies !eq_ci(
                    #[trigger] strip[x].0,
                    content_length_key(),
                ) by {}
                crate::headers::lemma_get_ci_none(strip, content_length_key());
                assert(spec_get_ci(Seq::<(Seq<u8>, Seq<u8>)>::empty(), content_length_key())
                    is None);
                assert(spec_get_ci(write_fold(Seq::empty(), strip), content_length_key())
                    is None);
                // the final Transfer-Encoding entry
                let folded = write_fold(Seq::empty(), strip);
                let te_entry = (titlecase_of(transfer_encoding_key()), join_tokens(
                    chunked_te_tokens(hs),
                ));
                crate::headers::lemma_get_ci_append(
                    spec_remove_ci(folded, transfer_encoding_key()),
                    seq![te_entry],
                    transfer_encoding_key(),
                );
                crate::headers::lemma_get_ci_remove_same(
                    folded,
                    transfer_encoding_key(),
                    transfer_encoding_key(),
                );
                assert(seq![te_entry].first() == te_entry);
                assert(seq![te_entry].drop_first() =~= Seq::<(Seq<u8>, Seq<u8>)>::empty());
                lemma_key_facts();
                crate::ascii::lemma_eq_ci_is_lower_eq(
                    titlecase_of(transfer_encoding_key()),
                    transfer_encoding_key(),
                );
                assert(eq_ci(titlecase_of(transfer_encoding_key()), transfer_encoding_key()));
                assert(spec_get_ci(writer@.headers, transfer_encoding_key()) == Some(
                    join_tokens(chunked_te_tokens(hs)),
                ));
                // the rewritten value carries the chunked token
                match last_te_value(hs) {
                    Some(v) => {
                        crate::ascii::lemma_split_segments_free(v, 44);
                        lemma_non_chunked_tokens_of_free(split_byte(v, 44));
                        lemma_chunked_in_join(non_chunked_tokens(v));
                    },
                    None => {
                        lemma_chunked_in_join(Seq::<Seq<u8>>::empty());
                        assert(Seq::<Seq<u8>>::empty().push(chunked_token()) =~= chunked_te_tokens(
                            hs,
                        ));
                    },
                }
                assert(has_token_ci(join_tokens(chunked_te_tokens(hs)), chunked_token()));
                // no Content-Length survives
                crate::headers::lemma_get_ci_append(
                    spec_remove_ci(folded, transfer_encoding_key()),
                    seq![te_entry],
                    content_length_key(),
                );
                crate::headers::lemma_get_ci_remove_other(
                    folded,
                    transfer_encoding_key(),
                    content_length_key(),
                );
                assert(!eq_ci(te_entry.0, content_length_key())) by {
                    if eq_ci(te_entry.0, content_length_key()) {
                        crate::ascii::lemma_eq_ci_sym(
                            titlecase_of(transfer_encoding_key()),
                            transfer_encoding_key(),
                        );
                        crate::ascii::lemma_eq_ci_trans(
                            transfer_encoding_key(),
                            titlecase_of(transfer_encoding_key()),
                            content_length_key(),
                        );
                    }
                }
                assert(spec_get_ci(writer@.headers, content_length_key()) is None);
            }
        }
        writer.complete_write()
    } else {
        let mut writer = HttpWriter::new();
        match writer.write_status_line(version, status) {
            Ok(()) => {},
            Err(e) => {
                return Err(e);
            },
        }
        let mut i: usize = 0;
        proof {
            assert(hs.skip(0) =~= hs);
        }
        while i < n
            invariant
                0 <= i <= n,
                n == hs.len(),
                headers@ == hs,
                te_key@ == transfer_encoding_key(),
                writer@.state is StatusWritten || writer@.state is HeadersOpen,
                writer@.status_line == Some(status_line_bytes(version, status)),
                writer@.body is None,
                write_fold(writer@.headers, strip_framing(hs.skip(i as int), false)) == write_fold(
                    Seq::empty(),
                    strip_framing(hs, false),
                ),
                forall|j: int|
                    0 <= j < i && !eq_ci(#[trigger] hs[j].0, transfer_encoding_key()) ==> (
                    all_graphic(hs[j].0) ==> eq_ci(titlecase_of(hs[j].0), hs[j].0)),
            decreases n - i,
        {
            let ghost rem = hs.skip(i as int);
            let ghost e = hs[i as int];
            proof {
                assert(rem.first() == e);
                assert(rem.drop_first() =~= hs.skip(i as int + 1));
            }
            let (name, value) = headers.entry_at(i);
            if crate::ascii::bytes_eq_ci(name.as_slice(), te_key.as_slice()) {
                // Content-Length framing: any Transfer-Encoding is dropped
                proof {
                    assert(eq_ci(e.0, transfer_encoding_key()));
                    assert(strip_framing(rem, false) == strip_framing(rem.drop_first(), false));
                }
                i += 1;
            } else {
                let name_copy = crate::ascii::subrange_to_vec(name.as_slice(), 0, name.len());
                let value_copy = crate::ascii::subrange_to_vec(value.as_slice(), 0, value.len());
                proof {
                    assert(name_copy@ =~= e.0);
                    assert(value_copy@ =~= e.1);
                }
                let ghost wh = writer@.headers;
                match writer.write_header(name_copy, value_copy) {
                    Ok(()) => {},
                    Err(er) => {
                        return Err(er);
                    },
                }
                proof {
                    let tail = strip_framing(hs.skip(i as int + 1), false);
                    assert(strip_framing(rem, false) == seq![e] + tail);
                    assert((seq![e] + tail).first() == e);
                    assert((seq![e] + tail).drop_first() =~= tail);
                    assert(write_fold(wh, seq![e] + tail) == write_fold(
                        spec_remove_ci(wh, e.0) + seq![(titlecase_of(e.0), e.1)],
                        tail,
                    ));
                    assert(writer@.headers == spec_remove_ci(wh, e.0) + seq![
                        (titlecase_of(e.0), e.1),
                    ]);
                    crate::ascii::lemma_eq_ci_is_lower_eq(titlecase_of(e.0), e.0);
                }
                i += 1;
            }
        }
        proof {
            assert(hs.skip(n as int) =~= Seq::<(Seq<u8>, Seq<u8>)>::empty());
            assert(writer@.headers == write_fold(Seq::empty(), strip_framing(hs, false)));
        }
        match writer.finish_headers() {
            Ok(()) => {},
            Err(e) => {
                return Err(e);
            },
        }
        match writer.write_body(body.as_bytes().as_slice()) {
            Ok(()) => {},
            Err(e) => {
                return Err(e);
            },
        }
        proof {
            if wf_send(version, hs, response.spec_body().len() as int) {
                let strip = strip_framing(hs, false);
                lemma_strip_framing_wf(hs, false);
                lemma_strip_framing_names(hs, false);
                assert forall|x: int| 0 <= x < strip.len() implies eq_ci(
                    titlecase_of(#[trigger] strip[x].0),
                    strip[x].0,
                ) by {
                    let j = choose|j: int| 0 <= j < hs.len() && strip[x].0 == hs[j].0;
                    assert(all_graphic(hs[j].0));
                }
                lemma_write_fold_get_ci(Seq::empty(), strip, content_length_key());
                lemma_strip_framing_get_ci(hs, false, content_length_key());
                assert(spec_get_ci(Seq::<(Seq<u8>, Seq<u8>)>::empty(), content_length_key())
                    is None);
                assert(spec_get_ci(writer@.headers, content_length_key()) == spec_get_ci(
                    hs,
                    content_length_key(),
                ));
            }
            if all_names_graphic(hs) {
                // no Transfer-Encoding survives: the kept names sit outside
                // its case class, and title-casing keeps them there
                let strip = strip_framing(hs, false);
                lemma_strip_framing_names(hs, false);
                assert forall|x: int| 0 <= x < strip.len() implies eq_ci(
                    titlecase_of((#[trigger] strip[x]).0),
                    strip[x].0,
                ) by {
                    let j = choose|j: int| 0 <= j < hs.len() && strip[x].0 == hs[j].0;
                    assert(all_graphic(hs[j].0));
                    assert(!eq_ci(hs[j].0, transfer_encoding_key()));
                }
                assert forall|x: int| 0 <= x < strip.len() implies !eq_ci(
                    (#[trigger] strip[x]).0,
                    transfer_encoding_key(),
                ) by {}
                lemma_write_fold_off_class(Seq::empty(), strip, transfer_encoding_key());
            }
        }
        writer.complete_write()
    }
}

/// Appends every header as `name: value CRLF`, in stored order.
pub fn push_header_block(out: &mut Vec<u8>, headers: &HeaderMap)
    ensures
        final(out)@ == old(out)@ + serialize_headers(headers@),
{
    let ghost base = out@;
    let n = headers.len();
    let mut i: usize = 0;
    proof {
        assert(headers@.skip(0) =~= headers@);
    }
    while i < n
        invariant
            0 <= i <= n,
            n == headers@.len(),
            out@ + serialize_headers(headers@.skip(i as int)) == base + serialize_headers(
                headers@,
            ),
        decreases n - i,
    {
        let ghost remaining = headers@.skip(i as int);
        proof {
            assert(remaining.first() == headers@[i as int]);
            assert(remaining.drop_first() =~= headers@.skip(i as int + 1));
        }
        let ghost before = out@;
        let (name, value) = headers.entry_at(i);
        crate::ascii::push_bytes(out, name.as_slice());
        out.push(58);
        out.push(32);
        crate::ascii::push_bytes(out, value.as_slice());
        out.push(13);
        out.push(10);
        proof {
            assert(out@ =~= before + (remaining.first().0 + seq![58u8, 32u8] + remaining.first().1
                + crlf()));
            assert(out@ + serialize_headers(headers@.skip(i as int + 1)) =~= before
                + serialize_headers(remaining));
        }
        i += 1;
    }
    proof {
        assert(headers@.skip(n as int) =~= Seq::<(Seq<u8>, Seq<u8>)>::empty());
    }
}

} // verus!
