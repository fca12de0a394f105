//! Response-side wire types: status codes, content types, the response
//! status line, the response value, and content negotiation.

use vstd::prelude::*;

use crate::headers::HeaderMap;
use crate::request::HttpVersion;

verus! {

/// HTTP response status codes the server emits.
#[derive(Debug, Clone, Copy, PartialEq, Eq, Structural)]
pub enum HttpStatusCode {
    Okay,
    Created,
    NoContent,
    PartialContent,
    BadRequest,
    Forbidden,
    NotFound,
    MethodNotAllowed,
    InternalServerError,
    NotImplemented,
}

impl HttpStatusCode {
    /// The numeric code.
    pub open spec fn spec_code(self) -> u16 {
        match self {
            HttpStatusCode::Okay => 200,
            HttpStatusCode::Created => 201,
            HttpStatusCode::NoContent => 204,
            HttpStatusCode::PartialContent => 206,
            HttpStatusCode::BadRequest => 400,
            HttpStatusCode::Forbidden => 403,
            HttpStatusCode::NotFound => 404,
            HttpStatusCode::MethodNotAllowed => 405,
            HttpStatusCode::InternalServerError => 500,
            HttpStatusCode::NotImplemented => 501,
        }
    }

    pub fn code(&self) -> (r: u16)
        ensures
            r == self.spec_code(),
    {
        match self {
            HttpStatusCode::Okay => 200,
            HttpStatusCode::Created => 201,
            HttpStatusCode::NoContent => 204,
            HttpStatusCode::PartialContent => 206,
            HttpStatusCode::BadRequest => 400,
            HttpStatusCode::Forbidden => 403,
            HttpStatusCode::NotFound => 404,
            HttpStatusCode::MethodNotAllowed => 405,
            HttpStatusCode::InternalServerError => 500,
            HttpStatusCode::NotImplemented => 501,
        }
    }

    /// The status text, `code SP reason`, as it stands in a status line.
    pub open spec fn spec_status_text(self) -> Seq<u8> {
        crate::ascii::dec_of(self.spec_code() as int) + seq![32u8] + self.spec_reason()
    }

    /// The reason phrase.
    pub open spec fn spec_reason(self) -> Seq<u8> {
        match self {
            HttpStatusCode::Okay => seq![79u8, 75u8],  // OK
            HttpStatusCode::Created => seq![67u8, 114, 101, 97, 116, 101, 100],  // Created
            HttpStatusCode::NoContent => seq![78u8, 111, 32, 67, 111, 110, 116, 101, 110, 116],
            HttpStatusCode::PartialContent => seq![
                80u8,
                97,
                114,
                116,
                105,
                97,
                108,
                32,
                67,
                111,
                110,
                116,
                101,
                110,
                116,
            ],
            HttpStatusCode::BadRequest => seq![66u8, 97, 100, 32, 82, 101, 113, 117, 101, 115, 116],
            HttpStatusCode::Forbidden => seq![70u8, 111, 114, 98, 105, 100, 100, 101, 110],
            HttpStatusCode::NotFound => seq![78u8, 111, 116, 32, 70, 111, 117, 110, 100],
            HttpStatusCode::MethodNotAllowed => seq![
                77u8,
                101,
                116,
                104,
                111,
                100,
                32,
                78,
                111,
                116,
                32,
                65,
                108,
                108,
                111,
                119,
                101,
                100,
            ],
            HttpStatusCode::InternalServerError => seq![
                73u8,
                110,
                116,
                101,
                114,
                110,
                97,
                108,
                32,
                83,
                101,
                114,
                118,
                101,
                114,
                32,
                69,
                114,
                114,
                111,
                114,
            ],
            HttpStatusCode::NotImplemented => seq![
                78u8,
                111,
                116,
                32,
                73,
                109,
                112,
                108,
                101,
                109,
                101,
                110,
                116,
                101,
                100,
            ],
        }
    }

    fn push_reason(&self, out: &mut Vec<u8>)
        ensures
            final(out)@ == old(out)@ + self.spec_reason(),
    {
        let text: &[u8] = match self {
            HttpStatusCode::Okay => &[79u8, 75u8],
            HttpStatusCode::Created => &[67u8, 114, 101, 97, 116, 101, 100],
            HttpStatusCode::NoContent => &[78u8, 111, 32, 67, 111, 110, 116, 101, 110, 116],
            HttpStatusCode::PartialContent => &[
                80u8,
                97,
                114,
                116,
                105,
                97,
                108,
                32,
                67,
                111,
                110,
                116,
                101,
                110,
                116,
            ],
            HttpStatusCode::BadRequest => &[66u8, 97, 100, 32, 82, 101, 113, 117, 101, 115, 116],
            HttpStatusCode::Forbidden => &[70u8, 111, 114, 98, 105, 100, 100, 101, 110],
            HttpStatusCode::NotFound => &[78u8, 111, 116, 32, 70, 111, 117, 110, 100],
            HttpStatusCode::MethodNotAllowed => &[
                77u8,
                101,
                116,
                104,
                111,
                100,
                32,
                78,
                111,
                116,
                32,
                65,
                108,
                108,
                111,
                119,
                101,
                100,
            ],
            HttpStatusCode::InternalServerError => &[
                73u8,
                110,
                116,
                101,
                114,
                110,
                97,
                108,
                32,
                83,
                101,
                114,
                118,
                101,
                114,
                32,
                69,
                114,
                114,
                111,
                114,
            ],
            HttpStatusCode::NotImplemented => &[
                78u8,
                111,
                116,
                32,
                73,
                109,
                112,
                108,
                101,
                109,
                101,
                110,
                116,
                101,
                100,
            ],
        };
        let ghost mid = out@;
        let mut i: usize = 0;
        while i < text.len()
            invariant
                0 <= i <= text@.len(),
                text@ == self.spec_reason(),
                out@ == mid + text@.take(i as int),
            decreases text@.len() - i,
        {
            out.push(text[i]);
            proof {
                assert(out@ =~= mid + text@.take(i + 1));
            }
            i += 1;
        }
        proof {
            assert(text@.take(text@.len() as int) =~= text@);
        }
    }

    /// The status text `code SP reason` as bytes, as a status line shows it.
    pub fn status_text(&self) -> (r: Vec<u8>)
        ensures
            r@ == self.spec_status_text(),
    {
        let mut out: Vec<u8> = Vec::new();
        let code = self.code();
        crate::ascii::push_dec(code as usize, &mut out);
        out.push(32);
        self.push_reason(&mut out);
        proof {
            assert(out@ =~= self.spec_status_text());
        }
        out
    }
}

/// The status line of a response.
#[derive(Debug, Clone, PartialEq)]
pub struct ResponseStatusLine {
    pub version: HttpVersion,
    pub status: HttpStatusCode,
}

impl ResponseStatusLine {
    /// Gets the status code of the status line.
    pub fn get_path(&self) -> (r: &HttpStatusCode)
        ensures
            *r == self.status,
    {
        &self.status
    }

    /// Gets the HTTP version of the status line.
    pub fn get_version(&self) -> (r: &HttpVersion)
        ensures
            *r == self.version,
    {
        &self.version
    }
}


/// Common HTTP content types for negotiated bodies.
#[derive(Debug, Clone, Copy, PartialEq, Eq, Structural)]
pub enum HttpContentType {
    Html,
    Json,
    PlainText,
    OctetStream,
}

/// The MIME name of a content type.
pub open spec fn content_type_bytes(t: HttpContentType) -> Seq<u8> {
    match t {
        HttpContentType::Html => seq![116u8, 101, 120, 116, 47, 104, 116, 109, 108],
        HttpContentType::Json => seq![97u8, 112, 112, 108, 105, 99, 97, 116, 105, 111, 110, 47, 106, 115, 111, 110],
        HttpContentType::PlainText => seq![116u8, 101, 120, 116, 47, 112, 108, 97, 105, 110],
        HttpContentType::OctetStream => seq![97u8, 112, 112, 108, 105, 99, 97, 116, 105, 111, 110, 47, 111, 99, 116, 101, 116, 45, 115, 116, 114, 101, 97, 109],
    }
}

/// The content type an Accept header value selects; anything unrecognized
/// falls back to plain text.
pub open spec fn content_type_of_accept(s: Seq<u8>) -> HttpContentType {
    if s == content_type_bytes(HttpContentType::Html) {
        HttpContentType::Html
    } else if s == content_type_bytes(HttpContentType::Json) {
        HttpContentType::Json
    } else if s == content_type_bytes(HttpContentType::OctetStream) {
        HttpContentType::OctetStream
    } else {
        HttpContentType::PlainText
    }
}

impl HttpContentType {
    /// The MIME name as bytes.
    pub fn name(&self) -> (r: Vec<u8>)
        ensures
            r@ == content_type_bytes(*self),
    {
        let m: &[u8] = match self {
            HttpContentType::Html => &[116u8, 101, 120, 116, 47, 104, 116, 109, 108],
            HttpContentType::Json => &[97u8, 112, 112, 108, 105, 99, 97, 116, 105, 111, 110, 47, 106, 115, 111, 110],
            HttpContentType::PlainText => &[116u8, 101, 120, 116, 47, 112, 108, 97, 105, 110],
            HttpContentType::OctetStream => &[97u8, 112, 112, 108, 105, 99, 97, 116, 105, 111, 110, 47, 111, 99, 116, 101, 116, 45, 115, 116, 114, 101, 97, 109],
        };
        let r = crate::ascii::subrange_to_vec(m, 0, m.len());
        proof {
            assert(r@ =~= content_type_bytes(*self));
        }
        r
    }

    /// Returns the content type an Accept header value selects.
    pub fn from_accept_header(type_str: &[u8]) -> (r: HttpContentType)
        ensures
            r == content_type_of_accept(type_str@),
    {
        let html: &[u8] = &[116u8, 101, 120, 116, 47, 104, 116, 109, 108];
        let json: &[u8] = &[97u8, 112, 112, 108, 105, 99, 97, 116, 105, 111, 110, 47, 106, 115, 111, 110];
        let octet: &[u8] = &[97u8, 112, 112, 108, 105, 99, 97, 116, 105, 111, 110, 47, 111, 99, 116, 101, 116, 45, 115, 116, 114, 101, 97, 109];
        proof {
            assert(html@ =~= content_type_bytes(HttpContentType::Html));
            assert(json@ =~= content_type_bytes(HttpContentType::Json));
            assert(octet@ =~= content_type_bytes(HttpContentType::OctetStream));
        }
        if crate::ascii::bytes_eq(type_str, html) {
            HttpContentType::Html
        } else if crate::ascii::bytes_eq(type_str, json) {
            HttpContentType::Json
        } else if crate::ascii::bytes_eq(type_str, octet) {
            HttpContentType::OctetStream
        } else {
            HttpContentType::PlainText
        }
    }
}

/// The bytes of the `Content-Type` header name.
pub open spec fn content_type_key() -> Seq<u8> {
    seq![67u8, 111, 110, 116, 101, 110, 116, 45, 84, 121, 112, 101]
}

/// The bytes of the `Connection` header name.
pub open spec fn connection_key() -> Seq<u8> {
    seq![67u8, 111, 110, 110, 101, 99, 116, 105, 111, 110]
}

pub open spec fn close_bytes() -> Seq<u8> {
    seq![99u8, 108, 111, 115, 101]
}

pub open spec fn keep_alive_bytes() -> Seq<u8> {
    seq![107u8, 101, 101, 112, 45, 97, 108, 105, 118, 101]
}

pub fn content_type_key_bytes() -> (r: Vec<u8>)
    ensures
        r@ == content_type_key(),
{
    let m: &[u8] = &[67u8, 111, 110, 116, 101, 110, 116, 45, 84, 121, 112, 101];
    let r = crate::ascii::subrange_to_vec(m, 0, m.len());
    proof {
        assert(r@ =~= content_type_key());
    }
    r
}

pub fn connection_key_bytes() -> (r: Vec<u8>)
    ensures
        r@ == connection_key(),
{
    let m: &[u8] = &[67u8, 111, 110, 110, 101, 99, 116, 105, 111, 110];
    let r = crate::ascii::subrange_to_vec(m, 0, m.len());
    proof {
        assert(r@ =~= connection_key());
    }
    r
}

/// The Connection value sent back: what the client asked for when it asked
/// to close, else keep-alive exactly on HTTP/1.1.
pub open spec fn connection_value(conn: Seq<u8>, version: HttpVersion) -> Seq<u8> {
    if crate::ascii::eq_ci(conn, close_bytes()) {
        close_bytes()
    } else if version is Http1_1 {
        keep_alive_bytes()
    } else {
        close_bytes()
    }
}

fn connection_value_bytes(conn: &[u8], version: &HttpVersion) -> (r: Vec<u8>)
    ensures
        r@ == connection_value(conn@, *version),
{
    let close: &[u8] = &[99u8, 108, 111, 115, 101];
    let keep: &[u8] = &[107u8, 101, 101, 112, 45, 97, 108, 105, 118, 101];
    proof {
        assert(close@ =~= close_bytes());
        assert(keep@ =~= keep_alive_bytes());
    }
    let m: &[u8] = if crate::ascii::bytes_eq_ci(conn, close) {
        close
    } else if matches!(version, HttpVersion::Http1_1) {
        keep
    } else {
        close
    };
    let r = crate::ascii::subrange_to_vec(m, 0, m.len());
    proof {
        assert(r@ =~= connection_value(conn@, *version));
    }
    r
}

/// The HTML shape of a negotiated status body.
pub open spec fn html_body(status: HttpStatusCode, msg: Seq<u8>) -> Seq<u8> {
    seq![60u8, 104, 49, 62] + status.spec_status_text() + seq![60u8, 47, 104, 49, 62, 60, 112, 62] + msg + seq![60u8, 47, 112, 62]
}

/// The JSON shape of a negotiated message body.
pub open spec fn json_message_body(status: HttpStatusCode, msg: Seq<u8>) -> Seq<u8> {
    seq![123u8, 34, 109, 101, 115, 115, 97, 103, 101, 34, 58, 32, 34] + msg + seq![34u8, 44, 32, 34, 99, 111, 100, 101, 34, 58, 32] + crate::ascii::dec_of(status.spec_code() as int) + seq![125u8]
}

/// The JSON shape of a negotiated error body.
pub open spec fn json_error_body(status: HttpStatusCode, msg: Seq<u8>) -> Seq<u8> {
    seq![123u8, 34, 101, 114, 114, 111, 114, 34, 58, 32, 34] + msg + seq![34u8, 44, 32, 34, 99, 111, 100, 101, 34, 58, 32] + crate::ascii::dec_of(status.spec_code() as int) + seq![125u8]
}

/// Builds the HTML body for a status and message.
pub fn build_html_body(status: &HttpStatusCode, msg: &[u8]) -> (r: Vec<u8>)
    ensures
        r@ == html_body(*status, msg@),
{
    let mut out: Vec<u8> = Vec::new();
    let open_tag: &[u8] = &[60u8, 104, 49, 62];
    let mid_tag: &[u8] = &[60u8, 47, 104, 49, 62, 60, 112, 62];
    let end_tag: &[u8] = &[60u8, 47, 112, 62];
    proof {
        assert(open_tag@ =~= seq![60u8, 104, 49, 62]);
        assert(mid_tag@ =~= seq![60u8, 47, 104, 49, 62, 60, 112, 62]);
        assert(end_tag@ =~= seq![60u8, 47, 112, 62]);
    }
    crate::ascii::push_bytes(&mut out, open_tag);
    let text = status.status_text();
    crate::ascii::push_bytes(&mut out, text.as_slice());
    crate::ascii::push_bytes(&mut out, mid_tag);
    crate::ascii::push_bytes(&mut out, msg);
    crate::ascii::push_bytes(&mut out, end_tag);
    proof {
        assert(out@ =~= html_body(*status, msg@));
    }
    out
}

/// Builds the JSON body for a status and message; the error flavor uses
/// the `error` key, the other the `message` key.
pub fn build_json_body(status: &HttpStatusCode, msg: &[u8], error_key: bool) -> (r: Vec<u8>)
    ensures
        error_key ==> r@ == json_error_body(*status, msg@),
        !error_key ==> r@ == json_message_body(*status, msg@),
{
    let mut out: Vec<u8> = Vec::new();
    let head: &[u8] = if error_key {
        &[123u8, 34, 101, 114, 114, 111, 114, 34, 58, 32, 34]
    } else {
        &[123u8, 34, 109, 101, 115, 115, 97, 103, 101, 34, 58, 32, 34]
    };
    let mid: &[u8] = &[34u8, 44, 32, 34, 99, 111, 100, 101, 34, 58, 32];
    let tail: &[u8] = &[125u8];
    proof {
        if error_key {
            assert(head@ =~= seq![123u8, 34, 101, 114, 114, 111, 114, 34, 58, 32, 34]);
        } else {
            assert(head@ =~= seq![123u8, 34, 109, 101, 115, 115, 97, 103, 101, 34, 58, 32, 34]);
        }
        assert(mid@ =~= seq![34u8, 44, 32, 34, 99, 111, 100, 101, 34, 58, 32]);
        assert(tail@ =~= seq![125u8]);
    }
    crate::ascii::push_bytes(&mut out, head);
    crate::ascii::push_bytes(&mut out, msg);
    crate::ascii::push_bytes(&mut out, mid);
    let code = status.code();
    crate::ascii::push_dec(code as usize, &mut out);
    crate::ascii::push_bytes(&mut out, tail);
    proof {
        if error_key {
            assert(out@ =~= json_error_body(*status, msg@));
        } else {
            assert(out@ =~= json_message_body(*status, msg@));
        }
    }
    out
}

/// A response under construction: status line, headers, optional body.
#[derive(Debug, PartialEq)]
pub struct HttpResponse {
    pub status_line: ResponseStatusLine,
    pub headers: HeaderMap,
    pub body: Option<crate::writer::HttpBody>,
}

impl crate::writer::HttpWritable for HttpResponse {
    open spec fn spec_status(&self) -> (HttpVersion, HttpStatusCode) {
        (self.status_line.version, self.status_line.status)
    }

    open spec fn spec_headers(&self) -> Seq<(Seq<u8>, Seq<u8>)> {
        self.headers@
    }

    open spec fn spec_body(&self) -> Seq<u8> {
        match self.body {
            Some(ref b) => b.spec_bytes(),
            None => Seq::empty(),
        }
    }

    fn status_line(&self) -> (r: &ResponseStatusLine)
        ensures
            (r.version, r.status) == self.spec_status(),
    {
        &self.status_line
    }

    fn headers(&self) -> (r: HeaderMap)
        ensures
            r@ == self.spec_headers(),
    {
        self.headers.duplicate()
    }

    fn body(&self) -> (r: crate::writer::HttpBody)
        ensures
            r.spec_bytes() == self.spec_body(),
    {
        match &self.body {
            Some(b) => b.duplicate(),
            None => crate::writer::HttpBody::Text(Vec::new()),
        }
    }
}

impl HttpResponse {
    /// Creates a new response from its parts.
    pub fn new(
        status_line: ResponseStatusLine,
        headers: HeaderMap,
        body: Option<crate::writer::HttpBody>,
    ) -> (r: HttpResponse)
        ensures
            r.status_line == status_line,
            r.headers@ == headers@,
            r.body == body,
    {
        HttpResponse { status_line, headers, body }
    }
}

/// Content negotiation: building a response for a file, a file error, or a
/// negotiated message body.
pub trait ContentNegotiable: Sized {
    /// A response carrying file content, typed from the file name.
    fn for_file(
        status: HttpStatusCode,
        version: HttpVersion,
        connection_header: &[u8],
        filename: &[u8],
        content: crate::writer::HttpBody,
    ) -> Self;

    /// A plain-text response for a failed file operation.
    fn for_file_error(
        status: HttpStatusCode,
        version: HttpVersion,
        connection_header: &[u8],
        filename: &[u8],
        content: Vec<u8>,
    ) -> Self;

    /// A response whose body shape follows the Accept header.
    fn with_negotiation(
        status_code: HttpStatusCode,
        version: HttpVersion,
        connection_header: &[u8],
        content: Vec<u8>,
        accept_header: Option<&Vec<u8>>,
        chunked: Option<bool>,
        mime_type: &[u8],
    ) -> Self;
}

/// The body a negotiated message response carries.
pub open spec fn negotiated_message_body(
    t: HttpContentType,
    status: HttpStatusCode,
    msg: Seq<u8>,
) -> Option<Seq<u8>> {
    match t {
        HttpContentType::Html => Some(html_body(status, msg)),
        HttpContentType::Json => Some(json_message_body(status, msg)),
        HttpContentType::PlainText => Some(msg),
        HttpContentType::OctetStream => None,
    }
}

/// The headers and body of a negotiated response.
pub struct NegotiatedView {
    pub headers: Seq<(Seq<u8>, Seq<u8>)>,
    pub body: Option<Seq<u8>>,
}

/// What `with_negotiation` yields: the negotiated type, the connection
/// answer, and either a chunked marker or the exact length of the body.
pub open spec fn negotiation_spec(
    status: HttpStatusCode,
    version: HttpVersion,
    conn: Seq<u8>,
    msg: Seq<u8>,
    accept: Option<Seq<u8>>,
    chunked: bool,
) -> NegotiatedView {
    let t = match accept {
        Some(h) => content_type_of_accept(h),
        None => HttpContentType::PlainText,
    };
    let b = negotiated_message_body(t, status, msg);
    let body_len: int = match b {
        Some(s) => s.len() as int,
        None => 0,
    };
    let framing: (Seq<u8>, Seq<u8>) = if chunked {
        (crate::writer::transfer_encoding_key(), crate::writer::chunked_token())
    } else {
        (crate::request::content_length_key(), crate::ascii::dec_of(body_len))
    };
    NegotiatedView {
        headers: seq![
            (content_type_key(), content_type_bytes(t)),
            (connection_key(), connection_value(conn, version)),
            framing,
        ],
        body: b,
    }
}

/// A response value matches a negotiated view.
pub open spec fn matches_negotiation(r: HttpResponse, nv: NegotiatedView) -> bool {
    &&& r.headers@ == nv.headers
    &&& (match nv.body {
        Some(s) => r.body matches Some(hb) && hb.spec_bytes() == s && hb is Text,
        None => r.body is None,
    })
}

impl ContentNegotiable for HttpResponse {
    /// The content goes out verbatim as binary, typed by the file extension,
    /// with its exact length declared.
    fn for_file(
        status: HttpStatusCode,
        version: HttpVersion,
        _connection_header: &[u8],
        filename: &[u8],
        content: crate::writer::HttpBody,
    ) -> (r: Self)
        ensures
            r.status_line.version == version,
            r.status_line.status == status,
            r.headers@ == seq![
                (content_type_key(), crate::mime::mime_of_path(filename@)),
                (
                    crate::request::content_length_key(),
                    crate::ascii::dec_of(content.spec_bytes().len() as int),
                ),
            ],
            r.body matches Some(b) && b.spec_bytes() == content.spec_bytes(),
    {
        let mime = crate::mime::path_mime_type(filename);
        let mut headers = HeaderMap::new();
        let ghost h0 = headers@;
        headers.insert(content_type_key_bytes(), mime);
        let ghost h1 = headers@;
        let len = content.byte_len();
        headers.insert(crate::request::content_length_key_bytes(), crate::ascii::usize_to_dec(len));
        proof {
            assert(h1 =~= seq![(content_type_key(), crate::mime::mime_of_path(filename@))]);
            lemma_insert_fresh_name(h1, crate::request::content_length_key(), crate::ascii::dec_of(len as int));
            assert(headers@ =~= seq![
                (content_type_key(), crate::mime::mime_of_path(filename@)),
                (
                    crate::request::content_length_key(),
                    crate::ascii::dec_of(content.spec_bytes().len() as int),
                ),
            ]);
        }
        let bytes = content.into_bytes();
        HttpResponse {
            status_line: ResponseStatusLine { version, status },
            headers,
            body: Some(crate::writer::HttpBody::Binary(bytes)),
        }
    }

    /// A plain-text error body with its exact length and `Connection: close`.
    fn for_file_error(
        status: HttpStatusCode,
        version: HttpVersion,
        _connection_header: &[u8],
        _filename: &[u8],
        content: Vec<u8>,
    ) -> (r: Self)
        ensures
            r.status_line.version == version,
            r.status_line.status == status,
            r.headers@ == seq![
                (content_type_key(), content_type_bytes(HttpContentType::PlainText)),
                (crate::request::content_length_key(), crate::ascii::dec_of(content@.len() as int)),
                (connection_key(), close_bytes()),
            ],
            r.body matches Some(b) && b.spec_bytes() == content@ && b is Text,
    {
        let mut headers = HeaderMap::new();
        headers.insert(content_type_key_bytes(), HttpContentType::PlainText.name());
        let ghost h1 = headers@;
        headers.insert(
            crate::request::content_length_key_bytes(),
            crate::ascii::usize_to_dec(content.len()),
        );
        let ghost h2 = headers@;
        let close: &[u8] = &[99u8, 108, 111, 115, 101];
        proof {
            assert(close@ =~= close_bytes());
        }
        let close_vec = crate::ascii::subrange_to_vec(close, 0, close.len());
        proof {
            assert(close_vec@ =~= close_bytes());
        }
        headers.insert(connection_key_bytes(), close_vec);
        proof {
            assert(h1 =~= seq![(content_type_key(), content_type_bytes(HttpContentType::PlainText))]);
            lemma_insert_fresh_name(h1, crate::request::content_length_key(), crate::ascii::dec_of(content@.len() as int));
            lemma_insert_fresh_name(h2, connection_key(), close_bytes());
            assert(headers@ =~= seq![
                (content_type_key(), content_type_bytes(HttpContentType::PlainText)),
                (crate::request::content_length_key(), crate::ascii::dec_of(content@.len() as int)),
                (connection_key(), close_bytes()),
            ]);
        }
        HttpResponse {
            status_line: ResponseStatusLine { version, status },
            headers,
            body: Some(crate::writer::HttpBody::Text(content)),
        }
    }

    /// The body shape follows the Accept header; the headers carry the
    /// negotiated type, the connection answer, and the framing: a
    /// Transfer-Encoding when chunked framing was asked for, else the exact
    /// Content-Length.
    fn with_negotiation(
        status_code: HttpStatusCode,
        version: HttpVersion,
        connection_header: &[u8],
        content: Vec<u8>,
        accept_header: Option<&Vec<u8>>,
        chunked: Option<bool>,
        _mime_type: &[u8],
    ) -> (r: Self)
        ensures
            r.status_line.version == version,
            r.status_line.status == status_code,
            matches_negotiation(
                r,
                negotiation_spec(
                    status_code,
                    version,
                    connection_header@,
                    content@,
                    match accept_header {
                        Some(h) => Some(h@),
                        None => None,
                    },
                    chunked matches Some(true),
                ),
            ),
    {
        let accepted = match accept_header {
            Some(h) => HttpContentType::from_accept_header(h.as_slice()),
            None => HttpContentType::PlainText,
        };
        let body: Option<crate::writer::HttpBody> = match accepted {
            HttpContentType::Html => Some(
                crate::writer::HttpBody::Text(build_html_body(&status_code, content.as_slice())),
            ),
            HttpContentType::Json => Some(
                crate::writer::HttpBody::Text(
                    build_json_body(&status_code, content.as_slice(), false),
                ),
            ),
            HttpContentType::PlainText => Some(crate::writer::HttpBody::Text(content)),
            HttpContentType::OctetStream => None,
        };
        let mut headers = HeaderMap::new();
        headers.insert(content_type_key_bytes(), accepted.name());
        let ghost h1 = headers@;
        headers.insert(connection_key_bytes(), connection_value_bytes(connection_header, &version));
        let ghost h2 = headers@;
        let use_chunked = match chunked {
            Some(c) => c,
            None => false,
        };
        if use_chunked {
            headers.insert(
                crate::writer::transfer_encoding_key_bytes(),
                crate::writer::chunked_token_bytes(),
            );
        } else {
            let blen = match &body {
                Some(b) => b.byte_len(),
                None => 0,
            };
            headers.insert(crate::request::content_length_key_bytes(), crate::ascii::usize_to_dec(blen));
        }
        proof {
            let t = match accept_header {
                Some(h) => content_type_of_accept(h@),
                None => HttpContentType::PlainText,
            };
            assert(h1 =~= seq![(content_type_key(), content_type_bytes(t))]);
            lemma_insert_fresh_name(h1, connection_key(), connection_value(connection_header@, version));
            if use_chunked {
                lemma_insert_fresh_name(h2, crate::writer::transfer_encoding_key(), crate::writer::chunked_token());
                assert(headers@ =~= seq![
                    (content_type_key(), content_type_bytes(t)),
                    (connection_key(), connection_value(connection_header@, version)),
                    (crate::writer::transfer_encoding_key(), crate::writer::chunked_token()),
                ]);
            } else {
                let b = negotiated_message_body(t, status_code, content@);
                let body_len: int = match b {
                    Some(s) => s.len() as int,
                    None => 0,
                };
                lemma_insert_fresh_name(h2, crate::request::content_length_key(), crate::ascii::dec_of(body_len));
                assert(headers@ =~= seq![
                    (content_type_key(), content_type_bytes(t)),
                    (connection_key(), connection_value(connection_header@, version)),
                    (crate::request::content_length_key(), crate::ascii::dec_of(body_len)),
                ]);
            }
        }
        HttpResponse {
            status_line: ResponseStatusLine { version, status: status_code },
            headers,
            body,
        }
    }
}

/// Inserting a fresh name appends: the keys built here never collide, since
/// each wire constant has its own length.
pub(crate) proof fn lemma_insert_fresh_name(hs: Seq<(Seq<u8>, Seq<u8>)>, k: Seq<u8>, v: Seq<u8>)
    requires
        forall|i: int| 0 <= i < hs.len() ==> (#[trigger] hs[i].0).len() != k.len(),
    ensures
        crate::headers::spec_insert(hs, k, v) == hs + seq![(k, v)],
    decreases hs.len(),
{
    if hs.len() == 0 {
        assert(crate::headers::spec_insert(hs, k, v) =~= hs + seq![(k, v)]);
    } else {
        assert(hs[0].0.len() != k.len());
        assert(hs.first().0 != k);
        assert forall|i: int| 0 <= i < hs.drop_first().len() implies (#[trigger] hs.drop_first()[i].0).len() != k.len() by {
            assert(hs.drop_first()[i] == hs[i + 1]);
        }
        lemma_insert_fresh_name(hs.drop_first(), k, v);
        assert(seq![hs.first()] + (hs.drop_first() + seq![(k, v)]) =~= hs + seq![(k, v)]);
    }
}

} // verus!
