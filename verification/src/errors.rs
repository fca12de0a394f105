//! Error responses: a negotiated body for any status, honoring the Accept
//! header the client sent before the request failed.

use vstd::prelude::*;

use crate::headers::HeaderMap;
use crate::request::HttpVersion;
use crate::response::{
    build_html_body, build_json_body, connection_key, content_type_bytes, content_type_key,
    content_type_key_bytes, content_type_of_accept, close_bytes, html_body, json_error_body,
    ContentNegotiable, HttpContentType, HttpStatusCode, ResponseStatusLine,
};
use crate::writer::HttpBody;

verus! {

/// The bytes of the lower-case `content-length` name this response uses;
/// the writer normalizes it on the wire.
pub open spec fn lc_content_length_key() -> Seq<u8> {
    seq![99u8, 111, 110, 116, 101, 110, 116, 45, 108, 101, 110, 103, 116, 104]
}

/// The body an error response carries for a negotiated type; an empty body
/// is carried as no body at all.
pub open spec fn error_body(t: HttpContentType, status: HttpStatusCode, msg: Seq<u8>) -> Option<
    Seq<u8>,
> {
    let text = match t {
        HttpContentType::Html => html_body(status, msg),
        HttpContentType::Json => json_error_body(status, msg),
        HttpContentType::PlainText => msg,
        HttpContentType::OctetStream => Seq::<u8>::empty(),
    };
    if text.len() == 0 {
        None
    } else {
        Some(text)
    }
}

/// An HTTP error response.
#[derive(Debug, PartialEq)]
pub struct HttpErrorResponse {
    pub status_line: ResponseStatusLine,
    pub headers: HeaderMap,
    pub body: Option<HttpBody>,
}

impl crate::writer::HttpWritable for HttpErrorResponse {
    open spec fn spec_status(&self) -> (HttpVersion, HttpStatusCode) {
        (self.status_line.version, self.status_line.status)
    }

    open spec fn spec_headers(&self) -> Seq<(Seq<u8>, Seq<u8>)> {
        self.headers@
    }

    open spec fn spec_body(&self) -> Seq<u8> {
        match self.body {
            Some(ref b) => b.spec_bytes(),
            None => Seq::empty(),
        }
    }

    fn status_line(&self) -> (r: &ResponseStatusLine)
        ensures
            (r.version, r.status) == self.spec_status(),
    {
        &self.status_line
    }

    fn headers(&self) -> (r: HeaderMap)
        ensures
            r@ == self.spec_headers(),
    {
        self.headers.duplicate()
    }

    fn body(&self) -> (r: HttpBody)
        ensures
            r.spec_bytes() == self.spec_body(),
    {
        match &self.body {
            Some(b) => b.duplicate(),
            None => HttpBody::Text(Vec::new()),
        }
    }
}

impl ContentNegotiable for HttpErrorResponse {
    /// File content flattens to its bytes as the error message.
    fn for_file(
        status: HttpStatusCode,
        version: HttpVersion,
        connection_header: &[u8],
        _filename: &[u8],
        content: HttpBody,
    ) -> (r: Self)
        ensures
            r.status_line.version == version,
            r.status_line.status == status,
            r.headers@ == error_headers_spec(
                HttpContentType::PlainText,
                error_body(HttpContentType::PlainText, status, content.spec_bytes()),
            ),
            body_view(r.body) == error_body(HttpContentType::PlainText, status, content.spec_bytes()),
    {
        let text = content.into_bytes();
        HttpErrorResponse::new(status, version, connection_header, None, text)
    }

    /// The message goes out as plain text.
    fn for_file_error(
        status: HttpStatusCode,
        version: HttpVersion,
        connection_header: &[u8],
        _filename: &[u8],
        content: Vec<u8>,
    ) -> (r: Self)
        ensures
            r.status_line.version == version,
            r.status_line.status == status,
            r.headers@ == error_headers_spec(
                HttpContentType::PlainText,
                error_body(HttpContentType::PlainText, status, content@),
            ),
            body_view(r.body) == error_body(HttpContentType::PlainText, status, content@),
    {
        HttpErrorResponse::new(status, version, connection_header, None, content)
    }

    /// The body shape follows the Accept header.
    fn with_negotiation(
        status_code: HttpStatusCode,
        version: HttpVersion,
        connection_header: &[u8],
        content: Vec<u8>,
        accept_header: Option<&Vec<u8>>,
        _chunked: Option<bool>,
        _mime_type: &[u8],
    ) -> (r: Self)
        ensures
            ({
                let t = match accept_header {
                    Some(h) => content_type_of_accept(h@),
                    None => HttpContentType::PlainText,
                };
                &&& r.status_line.version == version
                &&& r.status_line.status == status_code
                &&& r.headers@ == error_headers_spec(t, error_body(t, status_code, content@))
                &&& body_view(r.body) == error_body(t, status_code, content@)
            }),
    {
        match accept_header {
            Some(h) => HttpErrorResponse::new(
                status_code,
                version,
                connection_header,
                Some(h),
                content,
            ),
            None => HttpErrorResponse::new(status_code, version, connection_header, None, content),
        }
    }
}

/// The body bytes an optional body holds.
pub open spec fn body_view(b: Option<HttpBody>) -> Option<Seq<u8>> {
    match b {
        Some(hb) => Some(hb.spec_bytes()),
        None => None,
    }
}

/// The headers of an error response: the negotiated type, the exact length
/// of the body carried, and `Connection: close`.
pub open spec fn error_headers_spec(t: HttpContentType, body: Option<Seq<u8>>) -> Seq<
    (Seq<u8>, Seq<u8>),
> {
    seq![
        (content_type_key(), content_type_bytes(t)),
        (
            lc_content_length_key(),
            crate::ascii::dec_of(match body {
                Some(s) => s.len() as int,
                None => 0,
            }),
        ),
        (connection_key(), close_bytes()),
    ]
}

impl HttpErrorResponse {
    /// Builds an error response: the body shape follows the Accept header,
    /// the declared length is exactly the body's, and the connection is
    /// answered closed.
    pub fn new(
        status_code: HttpStatusCode,
        version: HttpVersion,
        _connection_header: &[u8],
        accept_header: Option<&Vec<u8>>,
        message: Vec<u8>,
    ) -> (r: HttpErrorResponse)
        ensures
            ({
                let t = match accept_header {
                    Some(h) => content_type_of_accept(h@),
                    None => HttpContentType::PlainText,
                };
                &&& r.status_line.version == version
                &&& r.status_line.status == status_code
                &&& r.headers@ == error_headers_spec(t, error_body(t, status_code, message@))
                &&& body_view(r.body) == error_body(t, status_code, message@)
            }),
    {
        let accepted = match accept_header {
            Some(h) => HttpContentType::from_accept_header(h.as_slice()),
            None => HttpContentType::PlainText,
        };
        let body_text: Vec<u8> = match accepted {
            HttpContentType::Html => build_html_body(&status_code, message.as_slice()),
            HttpContentType::Json => build_json_body(&status_code, message.as_slice(), true),
            HttpContentType::PlainText => message,
            HttpContentType::OctetStream => Vec::new(),
        };
        let blen = body_text.len();
        let body: Option<HttpBody> = if blen == 0 {
            None
        } else {
            Some(HttpBody::Text(body_text))
        };

        let mut headers = HeaderMap::new();
        headers.insert(content_type_key_bytes(), accepted.name());
        let ghost h1 = headers@;
        let lc_cl: &[u8] = &[99u8, 111, 110, 116, 101, 110, 116, 45, 108, 101, 110, 103, 116, 104];
        let lc_cl_vec = crate::ascii::subrange_to_vec(lc_cl, 0, lc_cl.len());
        proof {
            assert(lc_cl_vec@ =~= lc_content_length_key());
        }
        headers.insert(lc_cl_vec, crate::ascii::usize_to_dec(blen));
        let ghost h2 = headers@;
        let close: &[u8] = &[99u8, 108, 111, 115, 101];
        let close_vec = crate::ascii::subrange_to_vec(close, 0, close.len());
        proof {
            assert(close_vec@ =~= close_bytes());
        }
        headers.insert(crate::response::connection_key_bytes(), close_vec);
        proof {
            let t = match accept_header {
                Some(h) => content_type_of_accept(h@),
                None => HttpContentType::PlainText,
            };
            assert(h1 =~= seq![(content_type_key(), content_type_bytes(t))]);
            crate::response::lemma_insert_fresh_name(
                h1,
                lc_content_length_key(),
                crate::ascii::dec_of(blen as int),
            );
            crate::response::lemma_insert_fresh_name(h2, connection_key(), close_bytes());
            assert(headers@ =~= error_headers_spec(t, error_body(t, status_code, message@)));
        }
        HttpErrorResponse {
            status_line: ResponseStatusLine { version, status: status_code },
            headers,
            body,
        }
    }
}

} // verus!
