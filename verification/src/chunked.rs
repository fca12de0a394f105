//! The chunked-framing response writer: the same state machine as the
//! standard writer, but the body goes out as one hex-length-prefixed chunk
//! followed by the zero-chunk terminator, Transfer-Encoding must carry the
//! `chunked` token, and Content-Length must be absent.

use vstd::prelude::*;

use crate::ascii::hex_of;
use crate::headers::{spec_get_ci, spec_remove_ci, HeaderMap};
use crate::request::{content_length_key, crlf, serialize_headers, HttpVersion};
use crate::response::HttpStatusCode;
use crate::writer::{
    all_graphic, chunked_token, has_token_ci, status_line_bytes, titlecase_of,
    transfer_encoding_key, WriterError, WriterState, WriterView,
};

verus! {

/// The wire bytes of a chunked response: head, one chunk for a nonempty
/// body, and the `0 CRLF CRLF` terminator.
pub open spec fn chunked_wire(
    status_line: Seq<u8>,
    hs: Seq<(Seq<u8>, Seq<u8>)>,
    body: Option<Seq<u8>>,
) -> Seq<u8> {
    status_line + serialize_headers(hs) + crlf() + (match body {
        Some(b) => hex_of(b.len() as int) + crlf() + b + crlf(),
        None => Seq::<u8>::empty(),
    }) + seq![48u8, 13, 10, 13, 10]
}

/// A writer for HTTP responses in chunked transfer encoding.
#[derive(Debug)]
pub struct ChunkedWriter {
    state: WriterState,
    status_line: Option<Vec<u8>>,
    headers: HeaderMap,
    body: Option<Vec<u8>>,
}

impl View for ChunkedWriter {
    type V = WriterView;

    closed spec fn view(&self) -> WriterView {
        WriterView {
            state: self.state,
            status_line: match self.status_line {
                Some(ref s) => Some(s@),
                None => None,
            },
            headers: self.headers@,
            body: match self.body {
                Some(ref b) => Some(b@),
                None => None,
            },
        }
    }
}

impl ChunkedWriter {
    /// Creates a new chunked writer in the initial state.
    pub fn new() -> (r: ChunkedWriter)
        ensures
            r@.state is Initial,
            r@.status_line is None,
            r@.headers == Seq::<(Seq<u8>, Seq<u8>)>::empty(),
            r@.body is None,
    {
        ChunkedWriter {
            state: WriterState::Initial,
            status_line: None,
            headers: HeaderMap::new(),
            body: None,
        }
    }

    /// Records the status line; legal only in the initial state.
    pub fn write_status_line(&mut self, version: HttpVersion, status: HttpStatusCode) -> (r:
        Result<(), WriterError>)
        ensures
            match r {
                Ok(()) => {
                    &&& old(self)@.state is Initial
                    &&& final(self)@.state is StatusWritten
                    &&& final(self)@.status_line == Some(status_line_bytes(version, status))
                    &&& final(self)@.headers == old(self)@.headers
                    &&& final(self)@.body == old(self)@.body
                },
                Err(e) => {
                    &&& !(old(self)@.state is Initial)
                    &&& e is InvalidState
                    &&& final(self)@.state is Failed
                    &&& final(self)@.status_line == old(self)@.status_line
                    &&& final(self)@.headers == old(self)@.headers
                    &&& final(self)@.body == old(self)@.body
                },
            },
    {
        if !matches!(self.state, WriterState::Initial) {
            self.state = WriterState::Failed;
            return Err(WriterError::InvalidState);
        }
        let mut line = version.name();
        line.push(32);
        let text = status.status_text();
        crate::ascii::push_bytes(&mut line, text.as_slice());
        line.push(13);
        line.push(10);
        proof {
            assert(line@ =~= status_line_bytes(version, status));
        }
        self.status_line = Some(line);
        self.state = WriterState::StatusWritten;
        Ok(())
    }

    /// Records a header; the name is normalized to title case and replaces
    /// any case-insensitive duplicate.
    pub fn write_header(&mut self, key: Vec<u8>, value: Vec<u8>) -> (r: Result<(), WriterError>)
        ensures
            match r {
                Ok(()) => {
                    &&& (old(self)@.state is StatusWritten || old(self)@.state is HeadersOpen)
                    &&& final(self)@.state is HeadersOpen
                    &&& final(self)@.headers == spec_remove_ci(old(self)@.headers, key@)
                        + seq![(titlecase_of(key@), value@)]
                    &&& final(self)@.status_line == old(self)@.status_line
                    &&& final(self)@.body == old(self)@.body
                    &&& (all_graphic(key@) ==> crate::ascii::lower_seq(titlecase_of(key@))
                        == crate::ascii::lower_seq(key@))
                },
                Err(e) => {
                    &&& !(old(self)@.state is StatusWritten || old(self)@.state is HeadersOpen)
                    &&& e is InvalidState
                    &&& final(self)@.state is Failed
                    &&& final(self)@.headers == old(self)@.headers
                    &&& final(self)@.status_line == old(self)@.status_line
                    &&& final(self)@.body == old(self)@.body
                },
            },
    {
        if !(matches!(self.state, WriterState::StatusWritten) || matches!(
            self.state,
            WriterState::HeadersOpen,
        )) {
            self.state = WriterState::Failed;
            return Err(WriterError::InvalidState);
        }
        self.state = WriterState::HeadersOpen;
        let normalized = crate::writer::normalize_header_name(&key);
        self.headers.remove_ci(key.as_slice());
        self.headers.append_entry(normalized, value);
        Ok(())
    }

    /// Closes the header section; legal once the status line is written.
    pub fn finish_headers(&mut self) -> (r: Result<(), WriterError>)
        ensures
            match r {
                Ok(()) => {
                    &&& (old(self)@.state is StatusWritten || old(self)@.state is HeadersOpen)
                    &&& final(self)@.state is HeadersClosed
                    &&& final(self)@.status_line == old(self)@.status_line
                    &&& final(self)@.headers == old(self)@.headers
                    &&& final(self)@.body == old(self)@.body
                },
                Err(e) => {
                    &&& !(old(self)@.state is StatusWritten || old(self)@.state is HeadersOpen)
                    &&& e is InvalidState
                    &&& final(self)@.state is Failed
                    &&& final(self)@.status_line == old(self)@.status_line
                    &&& final(self)@.headers == old(self)@.headers
                    &&& final(self)@.body == old(self)@.body
                },
            },
    {
        if !(matches!(self.state, WriterState::StatusWritten) || matches!(
            self.state,
            WriterState::HeadersOpen,
        )) {
            self.state = WriterState::Failed;
            return Err(WriterError::InvalidState);
        }
        self.state = WriterState::HeadersClosed;
        Ok(())
    }

    /// Records the body; an empty body is recorded as no body at all, so
    /// no chunk is emitted for it.
    pub fn write_body(&mut self, body: &[u8]) -> (r: Result<(), WriterError>)
        ensures
            match r {
                Ok(()) => {
                    &&& old(self)@.state is HeadersClosed
                    &&& final(self)@.state is BodyWritten
                    &&& final(self)@.body == (if body@.len() > 0 {
                        Some(body@)
                    } else {
                        old(self)@.body
                    })
                    &&& final(self)@.status_line == old(self)@.status_line
                    &&& final(self)@.headers == old(self)@.headers
                },
                Err(e) => {
                    &&& !(old(self)@.state is HeadersClosed)
                    &&& e is InvalidState
                    &&& final(self)@.state is Failed
                    &&& final(self)@.status_line == old(self)@.status_line
                    &&& final(self)@.headers == old(self)@.headers
                    &&& final(self)@.body == old(self)@.body
                },
            },
    {
        if !matches!(self.state, WriterState::HeadersClosed) {
            self.state = WriterState::Failed;
            return Err(WriterError::InvalidState);
        }
        if body.len() > 0 {
            self.body = Some(crate::ascii::subrange_to_vec(body, 0, body.len()));
            proof {
                assert(self@.body == Some(body@));
            }
        }
        self.state = WriterState::BodyWritten;
        Ok(())
    }

    /// Completes the response: requires the status line, at least one
    /// header, a Transfer-Encoding carrying the `chunked` token, and no
    /// Content-Length; yields the chunked wire bytes.
    pub fn complete_write(self) -> (r: Result<Vec<u8>, WriterError>)
        ensures
            match r {
                Ok(bytes) => {
                    &&& (self@.state is BodyWritten || self@.state is HeadersClosed)
                    &&& self@.status_line is Some
                    &&& self@.headers.len() > 0
                    &&& spec_get_ci(self@.headers, transfer_encoding_key()) is Some
                    &&& has_token_ci(
                        spec_get_ci(self@.headers, transfer_encoding_key()).unwrap(),
                        chunked_token(),
                    )
                    &&& spec_get_ci(self@.headers, content_length_key()) is None
                    &&& bytes@ == chunked_wire(
                        self@.status_line.unwrap(),
                        self@.headers,
                        self@.body,
                    )
                },
                Err(e) => {
                    &&& e is InvalidState
                    &&& {
                        ||| !(self@.state is BodyWritten || self@.state is HeadersClosed)
                        ||| self@.status_line is None
                        ||| self@.headers.len() == 0
                        ||| spec_get_ci(self@.headers, transfer_encoding_key()) is None
                        ||| !has_token_ci(
                            spec_get_ci(self@.headers, transfer_encoding_key()).unwrap(),
                            chunked_token(),
                        )
                        ||| spec_get_ci(self@.headers, content_length_key()) is Some
                    }
                },
            },
    {
        if !(matches!(self.state, WriterState::BodyWritten) || matches!(
            self.state,
            WriterState::HeadersClosed,
        )) {
            return Err(WriterError::InvalidState);
        }
        let status_line = match self.status_line {
            Some(s) => s,
            None => {
                return Err(WriterError::InvalidState);
            },
        };
        if self.headers.is_empty() {
            return Err(WriterError::InvalidState);
        }
        let te_key = crate::writer::transfer_encoding_key_bytes();
        let chunked = crate::writer::chunked_token_bytes();
        match self.headers.get_ci(te_key.as_slice()) {
            Some(v) => {
                if !crate::writer::contains_token_ci(v.as_slice(), chunked.as_slice()) {
                    return Err(WriterError::InvalidState);
                }
            },
            None => {
                return Err(WriterError::InvalidState);
            },
        }
        let cl_key = crate::request::content_length_key_bytes();
        if self.headers.get_ci(cl_key.as_slice()).is_some() {
            return Err(WriterError::InvalidState);
        }

        let mut out = status_line;
        crate::writer::push_header_block(&mut out, &self.headers);
        out.push(13);
        out.push(10);
        match &self.body {
            Some(b) => {
                crate::ascii::push_hex(b.len(), &mut out);
                out.push(13);
                out.push(10);
                crate::ascii::push_bytes(&mut out, b.as_slice());
                out.push(13);
                out.push(10);
            },
            None => {},
        }
        out.push(48);
        out.push(13);
        out.push(10);
        out.push(13);
        out.push(10);
        proof {
            assert(out@ =~= chunked_wire(self@.status_line.unwrap(), self@.headers, self@.body));
        }
        Ok(out)
    }
}

} // verus!
