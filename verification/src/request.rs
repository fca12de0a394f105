//! HTTP/1.1 request framing and parsing: a raw byte buffer is turned into a
//! validated request value, or a parse error that still carries the best
//! status to answer with, the version to echo, and the headers read so far.

use vstd::prelude::*;

use crate::ascii::{find_sub, is_ws, lemma_find_sub_from_spec, match_at, parse_dec, trim};
use crate::headers::{spec_get_ci, spec_insert, HeaderMap};

verus! {

/// The CRLF line terminator.
pub open spec fn crlf() -> Seq<u8> {
    seq![13u8, 10u8]
}

/// The blank-line boundary between the header region and the body.
pub open spec fn crlf_crlf() -> Seq<u8> {
    seq![13u8, 10u8, 13u8, 10u8]
}

pub fn crlf_bytes() -> (r: Vec<u8>)
    ensures
        r@ == crlf(),
{
    let mut v: Vec<u8> = Vec::new();
    v.push(13);
    v.push(10);
    proof {
        assert(v@ =~= crlf());
    }
    v
}

pub fn crlf_crlf_bytes() -> (r: Vec<u8>)
    ensures
        r@ == crlf_crlf(),
{
    let mut v: Vec<u8> = Vec::new();
    v.push(13);
    v.push(10);
    v.push(13);
    v.push(10);
    proof {
        assert(v@ =~= crlf_crlf());
    }
    v
}

/// The byte strings a sequence of byte vectors holds.
pub open spec fn lines_view(v: Seq<Vec<u8>>) -> Seq<Seq<u8>> {
    Seq::new(v.len(), |i: int| v[i]@)
}

/// The segments of `s` between CRLF separators, in order. A byte string
/// without CRLF is a single segment; each CRLF ends a segment.
pub open spec fn split_crlf(s: Seq<u8>) -> Seq<Seq<u8>>
    decreases s.len(),
    via split_crlf_decreases
{
    match find_sub(s, crlf()) {
        None => seq![s],
        Some(i) => seq![s.take(i)] + split_crlf(s.skip(i + 2)),
    }
}

#[via_fn]
proof fn split_crlf_decreases(s: Seq<u8>) {
    lemma_find_sub_from_spec(s, crlf(), 0);
    match find_sub(s, crlf()) {
        None => {},
        Some(i) => {
            assert(match_at(s, crlf(), i));
        },
    }
}

/// Splits a byte slice at every CRLF.
pub fn split_crlf_lines(s: &[u8]) -> (r: Vec<Vec<u8>>)
    ensures
        lines_view(r@) == split_crlf(s@),
{
    let mut out: Vec<Vec<u8>> = Vec::new();
    let mut rest: Vec<u8> = crate::ascii::subrange_to_vec(s, 0, s.len());
    proof {
        assert(rest@ =~= s@);
        assert(lines_view(out@) + split_crlf(rest@) =~= split_crlf(s@));
    }
    loop
        invariant_except_break
            lines_view(out@) + split_crlf(rest@) == split_crlf(s@),
        ensures
            lines_view(out@) == split_crlf(s@),
        decreases rest@.len(),
    {
        let pat = crlf_bytes();
        let found = crate::ascii::find_subsequence(rest.as_slice(), pat.as_slice());
        match found {
            Some(i) => {
                proof {
                    lemma_find_sub_from_spec(rest@, crlf(), 0);
                    assert(match_at(rest@, crlf(), i as int));
                }
                let line = crate::ascii::subrange_to_vec(rest.as_slice(), 0, i);
                let ghost before = lines_view(out@);
                let ghost old_rest = rest@;
                out.push(line);
                let n = rest.len();
                rest = crate::ascii::subrange_to_vec(rest.as_slice(), i + 2, n);
                proof {
                    assert(lines_view(out@) =~= before + seq![old_rest.take(i as int)]);
                    assert(rest@ =~= old_rest.skip(i + 2));
                    assert(split_crlf(old_rest) == seq![old_rest.take(i as int)] + split_crlf(
                        old_rest.skip(i + 2),
                    ));
                    assert(before + seq![old_rest.take(i as int)] + split_crlf(
                        old_rest.skip(i + 2),
                    ) =~= before + (seq![old_rest.take(i as int)] + split_crlf(
                        old_rest.skip(i + 2),
                    )));
                }
            },
            None => {
                let ghost before = lines_view(out@);
                let ghost last = rest@;
                out.push(rest);
                proof {
                    assert(split_crlf(last) == seq![last]);
                    assert(lines_view(out@) =~= before + seq![last]);
                }
                break ;
            },
        }
    }
    out
}

/// Index of the first ASCII whitespace byte at or after `i`, or the length.
pub open spec fn first_ws_from(s: Seq<u8>, i: int) -> int
    recommends
        0 <= i <= s.len(),
    decreases s.len() - i,
{
    if i < 0 || i >= s.len() {
        s.len() as int
    } else if is_ws(s[i]) {
        i
    } else {
        first_ws_from(s, i + 1)
    }
}

pub(crate) proof fn lemma_first_ws_from_pin(s: Seq<u8>, i: int, m: int)
    requires
        0 <= i <= m <= s.len(),
        forall|k: int| i <= k < m ==> !is_ws(s[k]),
        m == s.len() || is_ws(s[m]),
    ensures
        first_ws_from(s, i) == m,
    decreases m - i,
{
    if i < m {
        lemma_first_ws_from_pin(s, i + 1, m);
    }
}

/// The maximal runs of non-whitespace bytes in `s`, in order.
pub open spec fn tokens_of(s: Seq<u8>) -> Seq<Seq<u8>>
    decreases s.len(),
    via tokens_of_decreases
{
    if s.len() == 0 {
        seq![]
    } else if is_ws(s.first()) {
        tokens_of(s.drop_first())
    } else {
        seq![s.take(first_ws_from(s, 0))] + tokens_of(s.skip(first_ws_from(s, 0)))
    }
}

pub(crate) proof fn lemma_first_ws_from_bounds_pub(s: Seq<u8>, i: int)
    requires
        0 <= i <= s.len(),
    ensures
        i <= first_ws_from(s, i) <= s.len(),
    decreases s.len() - i,
{
    if i < s.len() && !is_ws(s[i]) {
        lemma_first_ws_from_bounds_pub(s, i + 1);
    }
}

#[via_fn]
proof fn tokens_of_decreases(s: Seq<u8>) {
    if s.len() > 0 && !is_ws(s.first()) {
        assert(!is_ws(s[0]));
        lemma_first_ws_from_bounds_pub(s, 1);
        assert(first_ws_from(s, 0) == first_ws_from(s, 1));
        assert(first_ws_from(s, 0) >= 1);
    }
}

/// Splits a byte slice on runs of ASCII whitespace.
pub fn split_ws_tokens(s: &[u8]) -> (r: Vec<Vec<u8>>)
    ensures
        lines_view(r@) == tokens_of(s@),
{
    let n = s.len();
    let mut out: Vec<Vec<u8>> = Vec::new();
    let mut i: usize = 0;
    proof {
        assert(s@.skip(0) =~= s@);
        assert(lines_view(out@) + tokens_of(s@) =~= tokens_of(s@));
    }
    while i < n
        invariant
            0 <= i <= n,
            n == s@.len(),
            lines_view(out@) + tokens_of(s@.skip(i as int)) == tokens_of(s@),
        decreases n - i,
    {
        if crate::ascii::is_ws_byte(s[i]) {
            proof {
                assert(s@.skip(i as int).drop_first() =~= s@.skip(i as int + 1));
            }
            i += 1;
        } else {
            let start = i;
            let mut j = i;
            while j < n && !crate::ascii::is_ws_byte(s[j])
                invariant
                    start <= j <= n,
                    n == s@.len(),
                    forall|k: int| start <= k < j ==> !is_ws(s@[k]),
                decreases n - j,
            {
                j += 1;
            }
            let ghost u = s@.skip(start as int);
            proof {
                assert forall|k: int| 0 <= k < (j - start) implies !is_ws(u[k]) by {
                    assert(u[k] == s@[k + start]);
                }
                if j < n {
                    assert(is_ws(u[j - start as int]));
                }
                lemma_first_ws_from_pin(u, 0, j - start as int);
                assert(!is_ws(u.first()));
                assert(tokens_of(u) == seq![u.take(j - start as int)] + tokens_of(
                    u.skip(j - start as int),
                ));
                assert(u.take(j - start as int) =~= s@.subrange(start as int, j as int));
                assert(u.skip(j - start as int) =~= s@.skip(j as int));
            }
            let tok = crate::ascii::subrange_to_vec(s, start, j);
            let ghost before = lines_view(out@);
            out.push(tok);
            proof {
                assert(lines_view(out@) =~= before + seq![s@.subrange(start as int, j as int)]);
                assert(before + seq![s@.subrange(start as int, j as int)] + tokens_of(
                    s@.skip(j as int),
                ) =~= before + (seq![s@.subrange(start as int, j as int)] + tokens_of(
                    s@.skip(j as int),
                )));
            }
            i = j;
        }
    }
    proof {
        assert(s@.skip(n as int) =~= Seq::<u8>::empty());
        assert(tokens_of(Seq::<u8>::empty()) =~= Seq::<Seq<u8>>::empty());
        assert(lines_view(out@) + Seq::<Seq<u8>>::empty() =~= lines_view(out@));
    }
    out
}

/// HTTP request methods.
#[derive(Debug, Clone, Copy, PartialEq, Eq, Structural)]
pub enum HttpMethod {
    Get,
    Post,
    Put,
    Delete,
}

/// The wire bytes of a method token.
pub open spec fn method_bytes(m: HttpMethod) -> Seq<u8> {
    match m {
        HttpMethod::Get => seq![71u8, 69, 84],
        HttpMethod::Post => seq![80u8, 79, 83, 84],
        HttpMethod::Put => seq![80u8, 85, 84],
        HttpMethod::Delete => seq![68u8, 69, 76, 69, 84, 69],
    }
}

/// The method a token denotes, if any.
pub open spec fn method_of(t: Seq<u8>) -> Option<HttpMethod> {
    if t == method_bytes(HttpMethod::Get) {
        Some(HttpMethod::Get)
    } else if t == method_bytes(HttpMethod::Post) {
        Some(HttpMethod::Post)
    } else if t == method_bytes(HttpMethod::Put) {
        Some(HttpMethod::Put)
    } else if t == method_bytes(HttpMethod::Delete) {
        Some(HttpMethod::Delete)
    } else {
        None
    }
}

impl HttpMethod {
    /// The method token as bytes.
    pub fn name(&self) -> (r: Vec<u8>)
        ensures
            r@ == method_bytes(*self),
    {
        let mut v: Vec<u8> = Vec::new();
        match self {
            HttpMethod::Get => {
                v.push(71);
                v.push(69);
                v.push(84);
            },
            HttpMethod::Post => {
                v.push(80);
                v.push(79);
                v.push(83);
                v.push(84);
            },
            HttpMethod::Put => {
                v.push(80);
                v.push(85);
                v.push(84);
            },
            HttpMethod::Delete => {
                v.push(68);
                v.push(69);
                v.push(76);
                v.push(69);
                v.push(84);
                v.push(69);
            },
        }
        proof {
            assert(v@ =~= method_bytes(*self));
        }
        v
    }
}

/// Parses a method token.
pub fn parse_method(t: &[u8]) -> (r: Option<HttpMethod>)
    ensures
        r == method_of(t@),
{
    proof {
        assert(method_bytes(HttpMethod::Get).len() == 3);
        assert(method_bytes(HttpMethod::Post).len() == 4);
        assert(method_bytes(HttpMethod::Put).len() == 3);
        assert(method_bytes(HttpMethod::Delete).len() == 6);
    }
    if t.len() == 3 && t[0] == 71 && t[1] == 69 && t[2] == 84 {
        proof {
            assert(t@ =~= method_bytes(HttpMethod::Get));
        }
        Some(HttpMethod::Get)
    } else if t.len() == 4 && t[0] == 80 && t[1] == 79 && t[2] == 83 && t[3] == 84 {
        proof {
            assert(t@ =~= method_bytes(HttpMethod::Post));
        }
        Some(HttpMethod::Post)
    } else if t.len() == 3 && t[0] == 80 && t[1] == 85 && t[2] == 84 {
        proof {
            assert(t@ =~= method_bytes(HttpMethod::Put));
        }
        Some(HttpMethod::Put)
    } else if t.len() == 6 && t[0] == 68 && t[1] == 69 && t[2] == 76 && t[3] == 69 && t[4] == 84
        && t[5] == 69 {
        proof {
            assert(t@ =~= method_bytes(HttpMethod::Delete));
        }
        Some(HttpMethod::Delete)
    } else {
        None
    }
}

/// HTTP protocol versions.
#[derive(Debug, Clone, Copy, PartialEq, Eq, Structural)]
pub enum HttpVersion {
    Http1_0,
    Http1_1,
}

/// The wire bytes of a version token.
pub open spec fn version_bytes(v: HttpVersion) -> Seq<u8> {
    match v {
        HttpVersion::Http1_0 => seq![72u8, 84, 84, 80, 47, 49, 46, 48],
        HttpVersion::Http1_1 => seq![72u8, 84, 84, 80, 47, 49, 46, 49],
    }
}

/// The version a token denotes, if any.
pub open spec fn version_of(t: Seq<u8>) -> Option<HttpVersion> {
    if t == version_bytes(HttpVersion::Http1_1) {
        Some(HttpVersion::Http1_1)
    } else if t == version_bytes(HttpVersion::Http1_0) {
        Some(HttpVersion::Http1_0)
    } else {
        None
    }
}

impl HttpVersion {
    /// The version token as bytes.
    pub fn name(&self) -> (r: Vec<u8>)
        ensures
            r@ == version_bytes(*self),
    {
        let mut v: Vec<u8> = Vec::new();
        v.push(72);
        v.push(84);
        v.push(84);
        v.push(80);
        v.push(47);
        v.push(49);
        v.push(46);
        match self {
            HttpVersion::Http1_0 => v.push(48),
            HttpVersion::Http1_1 => v.push(49),
        }
        proof {
            assert(v@ =~= version_bytes(*self));
        }
        v
    }
}

/// Parses a version token.
pub fn parse_version(t: &[u8]) -> (r: Option<HttpVersion>)
    ensures
        r == version_of(t@),
{
    proof {
        assert(version_bytes(HttpVersion::Http1_0).len() == 8);
        assert(version_bytes(HttpVersion::Http1_1).len() == 8);
    }
    if t.len() == 8 && t[0] == 72 && t[1] == 84 && t[2] == 84 && t[3] == 80 && t[4] == 47 && t[5]
        == 49 && t[6] == 46 {
        if t[7] == 49 {
            proof {
                assert(t@ =~= version_bytes(HttpVersion::Http1_1));
            }
            Some(HttpVersion::Http1_1)
        } else if t[7] == 48 {
            proof {
                assert(t@ =~= version_bytes(HttpVersion::Http1_0));
            }
            Some(HttpVersion::Http1_0)
        } else {
            None
        }
    } else {
        None
    }
}

/// The bytes of the `Content-Length` header name.
pub open spec fn content_length_key() -> Seq<u8> {
    seq![67u8, 111, 110, 116, 101, 110, 116, 45, 76, 101, 110, 103, 116, 104]
}

pub fn content_length_key_bytes() -> (r: Vec<u8>)
    ensures
        r@ == content_length_key(),
{
    let mut v: Vec<u8> = Vec::new();
    v.push(67);
    v.push(111);
    v.push(110);
    v.push(116);
    v.push(101);
    v.push(110);
    v.push(116);
    v.push(45);
    v.push(76);
    v.push(101);
    v.push(110);
    v.push(103);
    v.push(116);
    v.push(104);
    proof {
        assert(v@ =~= content_length_key());
    }
    v
}

/// The status line of a request.
#[derive(Debug, Clone, PartialEq)]
pub struct RequestStatusLine {
    pub method: HttpMethod,
    pub path: Vec<u8>,
    pub version: HttpVersion,
}

/// The mathematical content of a parsed request.
pub struct ReqView {
    pub method: HttpMethod,
    pub path: Seq<u8>,
    pub version: HttpVersion,
    pub headers: Seq<(Seq<u8>, Seq<u8>)>,
    pub body: Option<Seq<u8>>,
}

/// The mathematical content of a parse error.
pub struct ParseErrView {
    pub status: crate::response::HttpStatusCode,
    pub version: HttpVersion,
    pub headers: Seq<(Seq<u8>, Seq<u8>)>,
}

/// An error from parsing an HTTP request: the status to answer with, the
/// version to echo, and the headers accumulated before the error.
#[derive(Debug, PartialEq)]
pub struct ParseError {
    pub status: crate::response::HttpStatusCode,
    pub version: HttpVersion,
    pub headers: HeaderMap,
}

impl View for ParseError {
    type V = ParseErrView;

    open spec fn view(&self) -> ParseErrView {
        ParseErrView { status: self.status, version: self.version, headers: self.headers@ }
    }
}

/// A parsed HTTP request.
#[derive(Debug)]
pub struct HttpRequest {
    pub status_line: RequestStatusLine,
    pub headers: HeaderMap,
    pub body: Option<Vec<u8>>,
}

impl View for HttpRequest {
    type V = ReqView;

    open spec fn view(&self) -> ReqView {
        ReqView {
            method: self.status_line.method,
            path: self.status_line.path@,
            version: self.status_line.version,
            headers: self.headers@,
            body: match self.body {
                Some(b) => Some(b@),
                None => None,
            },
        }
    }
}

/// Splits a header line at the first `:` and trims name and value;
/// `None` when the line has no `:`.
pub open spec fn header_line_split(line: Seq<u8>) -> Option<(Seq<u8>, Seq<u8>)> {
    match find_sub(line, seq![58u8]) {
        None => None,
        Some(i) => Some((trim(line.take(i)), trim(line.skip(i + 1)))),
    }
}

/// Folds header lines into a header mapping, line by line; stops at the
/// first line without a `:`, keeping what was accumulated.
pub open spec fn fold_headers(lines: Seq<Seq<u8>>, acc: Seq<(Seq<u8>, Seq<u8>)>) -> (bool, Seq<
    (Seq<u8>, Seq<u8>),
>)
    decreases lines.len(),
{
    if lines.len() == 0 {
        (true, acc)
    } else if lines.first().len() == 0 {
        fold_headers(lines.drop_first(), acc)
    } else {
        match header_line_split(lines.first()) {
            None => (false, acc),
            Some((k, v)) => fold_headers(lines.drop_first(), spec_insert(acc, k, v)),
        }
    }
}

/// The Content-Length a header mapping declares; an absent, malformed or
/// oversized value counts as zero.
pub open spec fn content_length_of(hs: Seq<(Seq<u8>, Seq<u8>)>) -> int {
    match spec_get_ci(hs, content_length_key()) {
        Some(v) => match parse_dec(v) {
            Some(n) => n,
            None => 0,
        },
        None => 0,
    }
}

/// What parsing a raw request buffer yields.
pub open spec fn parse_spec(input: Seq<u8>) -> Result<ReqView, ParseErrView> {
    let none: Seq<(Seq<u8>, Seq<u8>)> = Seq::empty();
    if input.len() == 0 {
        Err(
            ParseErrView {
                status: crate::response::HttpStatusCode::BadRequest,
                version: HttpVersion::Http1_1,
                headers: none,
            },
        )
    } else {
        match find_sub(input, crlf_crlf()) {
            None => Err(
                ParseErrView {
                    status: crate::response::HttpStatusCode::BadRequest,
                    version: HttpVersion::Http1_1,
                    headers: none,
                },
            ),
            Some(b) => {
                let head = input.take(b);
                let rest = input.skip(b + 4);
                let lines = split_crlf(head);
                let (hok, headers) = fold_headers(lines.drop_first(), none);
                if !hok {
                    Err(
                        ParseErrView {
                            status: crate::response::HttpStatusCode::BadRequest,
                            version: HttpVersion::Http1_1,
                            headers,
                        },
                    )
                } else {
                    let toks = tokens_of(lines.first());
                    if toks.len() != 3 {
                        Err(
                            ParseErrView {
                                status: crate::response::HttpStatusCode::BadRequest,
                                version: HttpVersion::Http1_1,
                                headers,
                            },
                        )
                    } else {
                        let vopt = version_of(toks[2]);
                        let echo = match vopt {
                            Some(v) => v,
                            None => HttpVersion::Http1_1,
                        };
                        match method_of(toks[0]) {
                            None => Err(
                                ParseErrView {
                                    status: crate::response::HttpStatusCode::MethodNotAllowed,
                                    version: echo,
                                    headers,
                                },
                            ),
                            Some(m) => match vopt {
                                None => Err(
                                    ParseErrView {
                                        status: crate::response::HttpStatusCode::BadRequest,
                                        version: HttpVersion::Http1_1,
                                        headers,
                                    },
                                ),
                                Some(ver) => {
                                    let cl = content_length_of(headers);
                                    if cl > 0 && rest.len() < cl {
                                        Err(
                                            ParseErrView {
                                                status:
                                                    crate::response::HttpStatusCode::BadRequest,
                                                version: ver,
                                                headers,
                                            },
                                        )
                                    } else {
                                        Ok(
                                            ReqView {
                                                method: m,
                                                path: toks[1],
                                                version: ver,
                                                headers,
                                                body: if cl > 0 {
                                                    Some(rest.take(cl))
                                                } else {
                                                    None
                                                },
                                            },
                                        )
                                    }
                                },
                            },
                        }
                    }
                }
            },
        }
    }
}

/// Splits a header line at the first `:` and trims both sides.
fn split_header_line(line: &[u8]) -> (r: Option<(Vec<u8>, Vec<u8>)>)
    ensures
        match r {
            Some(kv) => header_line_split(line@) == Some((kv.0@, kv.1@)),
            None => header_line_split(line@) is None,
        },
{
    let mut colon: Vec<u8> = Vec::new();
    colon.push(58);
    proof {
        assert(colon@ =~= seq![58u8]);
    }
    match crate::ascii::find_subsequence(line, colon.as_slice()) {
        None => None,
        Some(i) => {
            proof {
                lemma_find_sub_from_spec(line@, seq![58u8], 0);
                assert(match_at(line@, seq![58u8], i as int));
            }
            let n = line.len();
            let head = crate::ascii::subrange_to_vec(line, 0, i);
            let tail = crate::ascii::subrange_to_vec(line, i + 1, n);
            let k = crate::ascii::trim_bytes(head.as_slice());
            let v = crate::ascii::trim_bytes(tail.as_slice());
            proof {
                assert(head@ =~= line@.take(i as int));
                assert(tail@ =~= line@.skip(i as int + 1));
            }
            Some((k, v))
        },
    }
}

impl HttpRequest {
    /// Locates the boundary between headers and body in raw request bytes.
    pub fn find_boundary(bytes: &[u8]) -> (r: Option<usize>)
        ensures
            match r {
                Some(j) => find_sub(bytes@, crlf_crlf()) == Some(j as int),
                None => find_sub(bytes@, crlf_crlf()) is None,
            },
    {
        let pat = crlf_crlf_bytes();
        crate::ascii::find_subsequence(bytes, pat.as_slice())
    }

    /// Splits raw bytes into CRLF-terminated lines.
    pub fn bytes_to_lines(bytes: &[u8]) -> (r: Vec<Vec<u8>>)
        ensures
            lines_view(r@) == split_crlf(bytes@),
    {
        split_crlf_lines(bytes)
    }

    /// Parses a raw request buffer into a request value, or a parse error
    /// carrying the status to answer with, the version to echo, and the
    /// headers read up to the error.
    pub fn parse(request: &[u8]) -> (r: Result<HttpRequest, ParseError>)
        ensures
            match r {
                Ok(q) => parse_spec(request@) == Ok::<ReqView, ParseErrView>(q@),
                Err(e) => parse_spec(request@) == Err::<ReqView, ParseErrView>(e@),
            },
    {
        if request.len() == 0 {
            let e = ParseError {
                status: crate::response::HttpStatusCode::BadRequest,
                version: HttpVersion::Http1_1,
                headers: HeaderMap::new(),
            };
            return Err(e);
        }
        let boundary = match Self::find_boundary(request) {
            Some(b) => b,
            None => {
                let e = ParseError {
                    status: crate::response::HttpStatusCode::BadRequest,
                    version: HttpVersion::Http1_1,
                    headers: HeaderMap::new(),
                };
                return Err(e);
            },
        };
        proof {
            lemma_find_sub_from_spec(request@, crlf_crlf(), 0);
            assert(match_at(request@, crlf_crlf(), boundary as int));
        }
        let ghost head = request@.take(boundary as int);
        let ghost rest = request@.skip(boundary as int + 4);

        let header_bytes = crate::ascii::subrange_to_vec(request, 0, boundary);
        proof {
            assert(header_bytes@ =~= head);
        }
        let lines = split_crlf_lines(header_bytes.as_slice());
        let ghost line_seqs = split_crlf(head);

        // fold the header lines into the mapping, keeping what was read
        // when a malformed line is hit
        let mut headers = HeaderMap::new();
        let nlines = lines.len();
        let mut li: usize = 1;
        let mut header_fail: bool = false;
        proof {
            assert(lines_view(lines@).skip(1) =~= line_seqs.drop_first());
        }
        while li < nlines && !header_fail
            invariant
                1 <= li <= nlines,
                nlines == lines@.len(),
                lines_view(lines@) == line_seqs,
                line_seqs.len() >= 1,
                !header_fail ==> fold_headers(line_seqs.drop_first(), Seq::empty())
                    == fold_headers(lines_view(lines@).skip(li as int), headers@),
                header_fail ==> fold_headers(line_seqs.drop_first(), Seq::empty()) == (
                false,
                headers@,
                ),
            decreases nlines - li + (if header_fail { 0int } else { 1 }),
        {
            let ghost remaining = lines_view(lines@).skip(li as int);
            proof {
                assert(remaining.first() == lines@[li as int]@);
                assert(remaining.drop_first() =~= lines_view(lines@).skip(li as int + 1));
            }
            let line = &lines[li];
            if line.len() == 0 {
                li += 1;
            } else {
                match split_header_line(line.as_slice()) {
                    Some((k, v)) => {
                        headers.insert(k, v);
                        li += 1;
                    },
                    None => {
                        header_fail = true;
                    },
                }
            }
        }
        proof {
            if !header_fail {
                assert(lines_view(lines@).skip(nlines as int) =~= Seq::<Seq<u8>>::empty());
            }
        }
        if header_fail {
            let e = ParseError {
                status: crate::response::HttpStatusCode::BadRequest,
                version: HttpVersion::Http1_1,
                headers,
            };
            return Err(e);
        }

        // request line: exactly three tokens split on ASCII whitespace
        let request_line = &lines[0];
        proof {
            assert(lines@[0]@ == line_seqs.first());
        }
        let mut toks = split_ws_tokens(request_line.as_slice());
        let ghost tok_seqs = tokens_of(line_seqs.first());
        if toks.len() != 3 {
            let e = ParseError {
                status: crate::response::HttpStatusCode::BadRequest,
                version: HttpVersion::Http1_1,
                headers,
            };
            return Err(e);
        }
        proof {
            assert(toks@[0]@ == tok_seqs[0]);
            assert(toks@[1]@ == tok_seqs[1]);
            assert(toks@[2]@ == tok_seqs[2]);
        }

        let vopt = parse_version(toks[2].as_slice());
        let echo = match vopt {
            Some(v) => v,
            None => HttpVersion::Http1_1,
        };
        let method = match parse_method(toks[0].as_slice()) {
            Some(m) => m,
            None => {
                let e = ParseError {
                    status: crate::response::HttpStatusCode::MethodNotAllowed,
                    version: echo,
                    headers,
                };
                return Err(e);
            },
        };
        let version = match vopt {
            Some(v) => v,
            None => {
                let e = ParseError {
                    status: crate::response::HttpStatusCode::BadRequest,
                    version: HttpVersion::Http1_1,
                    headers,
                };
                return Err(e);
            },
        };

        // body: exactly Content-Length bytes after the boundary
        let cl_key = content_length_key_bytes();
        let cl: usize = match headers.get_ci(cl_key.as_slice()) {
            Some(v) => match crate::ascii::parse_usize(v.as_slice()) {
                Some(n) => n,
                None => 0,
            },
            None => 0,
        };
        assert(cl as int == content_length_of(headers@));
        let body_start = boundary + 4;
        if cl > 0 && request.len() - body_start < cl {
            let e = ParseError {
                status: crate::response::HttpStatusCode::BadRequest,
                version,
                headers,
            };
            return Err(e);
        }
        let body: Option<Vec<u8>> = if cl > 0 {
            let b = crate::ascii::subrange_to_vec(request, body_start, body_start + cl);
            proof {
                assert(b@ =~= rest.take(cl as int));
            }
            Some(b)
        } else {
            None
        };

        let path = toks.remove(1);
        let q = HttpRequest {
            status_line: RequestStatusLine { method, path, version },
            headers,
            body,
        };
        Ok(q)
    }

    /// Writes the request back in wire form: request line, headers in
    /// stored order, a blank line, then the body if one is present.
    pub fn serialize(&self) -> (r: Vec<u8>)
        ensures
            r@ == serialize_spec(self@),
    {
        let mut out: Vec<u8> = Vec::new();
        let m = self.status_line.method.name();
        crate::ascii::push_bytes(&mut out, m.as_slice());
        out.push(32);
        crate::ascii::push_bytes(&mut out, self.status_line.path.as_slice());
        out.push(32);
        let v = self.status_line.version.name();
        crate::ascii::push_bytes(&mut out, v.as_slice());
        out.push(13);
        out.push(10);
        let ghost after_line = out@;
        proof {
            assert(after_line =~= method_bytes(self@.method) + seq![32u8] + self@.path
                + seq![32u8] + version_bytes(self@.version) + crlf());
        }

        let n = self.headers.len();
        let mut i: usize = 0;
        proof {
            assert(self@.headers.skip(0) =~= self@.headers);
        }
        while i < n
            invariant
                0 <= i <= n,
                n == self@.headers.len(),
                out@ + serialize_headers(self@.headers.skip(i as int)) == after_line
                    + serialize_headers(self@.headers),
            decreases n - i,
        {
            let ghost remaining = self@.headers.skip(i as int);
            proof {
                assert(remaining.first() == self@.headers[i as int]);
                assert(remaining.drop_first() =~= self@.headers.skip(i as int + 1));
            }
            let ghost before = out@;
            let (name, value) = self.headers.entry_at(i);
            crate::ascii::push_bytes(&mut out, name.as_slice());
            out.push(58);
            out.push(32);
            crate::ascii::push_bytes(&mut out, value.as_slice());
            out.push(13);
            out.push(10);
            proof {
                assert(out@ =~= before + (remaining.first().0 + seq![58u8, 32u8]
                    + remaining.first().1 + crlf()));
                assert(serialize_headers(remaining) == remaining.first().0 + seq![58u8, 32u8]
                    + remaining.first().1 + crlf() + serialize_headers(remaining.drop_first()));
                assert(out@ + serialize_headers(self@.headers.skip(i as int + 1)) =~= before
                    + serialize_headers(remaining));
            }
            i += 1;
        }
        proof {
            assert(self@.headers.skip(n as int) =~= Seq::<(Seq<u8>, Seq<u8>)>::empty());
        }
        out.push(13);
        out.push(10);
        match &self.body {
            Some(b) => {
                crate::ascii::push_bytes(&mut out, b.as_slice());
            },
            None => {},
        }
        proof {
            assert(out@ =~= serialize_spec(self@));
        }
        out
    }
}

/// The wire form of a header mapping: each entry as `name: value CRLF`,
/// in stored order.
pub open spec fn serialize_headers(hs: Seq<(Seq<u8>, Seq<u8>)>) -> Seq<u8>
    decreases hs.len(),
{
    if hs.len() == 0 {
        Seq::empty()
    } else {
        hs.first().0 + seq![58u8, 32u8] + hs.first().1 + crlf() + serialize_headers(
            hs.drop_first(),
        )
    }
}

/// The wire form of a request: request line, header lines, a blank line,
/// then the body when one is present.
pub open spec fn serialize_spec(q: ReqView) -> Seq<u8> {
    method_bytes(q.method) + seq![32u8] + q.path + seq![32u8] + version_bytes(q.version) + crlf()
        + serialize_headers(q.headers) + crlf() + (match q.body {
        Some(b) => b,
        None => Seq::<u8>::empty(),
    })
}

} // verus!
