//! The router and the built-in handlers: pattern matching of path segments
//! with `{name}` captures, and the pure response-building half of each
//! handler. The socket and filesystem steps around them live with the
//! caller, which hands their outcomes in as plain values.

use vstd::prelude::*;

use crate::ascii::{eq_ci, split_byte};
use crate::compress::{chosen_encoding, CompressedResponse, CompressionMiddleware};
use crate::files::{range_of_header, ByteRange, FileReadError, FileReadRequest, FileReadResult};
use crate::headers::{spec_get, spec_insert, HeaderMap};
use crate::request::{HttpMethod, HttpRequest, HttpVersion, ReqView};
use crate::response::{
    matches_negotiation, negotiation_spec, ContentNegotiable, HttpContentType, HttpResponse,
    HttpStatusCode, ResponseStatusLine,
};
use crate::server::ResolveError;
use crate::writer::HttpWritable;

verus! {

/// The built-in request handlers a route can name.
#[derive(Debug, Clone, Copy, PartialEq, Eq, Structural)]
pub enum HandlerId {
    Root,
    Echo,
    UserAgent,
    FileHandler,
    Chunked,
}

/// A single route: a method, a slash-separated pattern whose `{name}`
/// segments capture, and the handler it names.
#[derive(Debug, PartialEq)]
pub struct Route {
    pub method: HttpMethod,
    pub path: Vec<u8>,
    pub handler: HandlerId,
}

/// The mathematical content of a route table.
pub open spec fn routes_view(v: Seq<Route>) -> Seq<(HttpMethod, Seq<u8>, HandlerId)> {
    Seq::new(v.len(), |i: int| (v[i].method, v[i].path@, v[i].handler))
}

/// A pattern segment that captures: braced on both sides.
pub open spec fn is_capture(seg: Seq<u8>) -> bool {
    seg.len() >= 2 && seg.first() == 123 && seg.last() == 125
}

/// The capture name: the segment with its braces stripped.
pub open spec fn strip_open(s: Seq<u8>) -> Seq<u8>
    decreases s.len(),
{
    if s.len() > 0 && s.first() == 123 {
        strip_open(s.drop_first())
    } else {
        s
    }
}

pub open spec fn strip_close(s: Seq<u8>) -> Seq<u8>
    decreases s.len(),
{
    if s.len() > 0 && s.last() == 125 {
        strip_close(s.drop_last())
    } else {
        s
    }
}

pub open spec fn capture_key(seg: Seq<u8>) -> Seq<u8> {
    strip_close(strip_open(seg))
}

/// Matching pattern segments against path segments, binding captures in
/// order; `None` when they disagree.
pub open spec fn match_segments(
    pat: Seq<Seq<u8>>,
    path: Seq<Seq<u8>>,
    acc: Seq<(Seq<u8>, Seq<u8>)>,
) -> Option<Seq<(Seq<u8>, Seq<u8>)>>
    decreases pat.len(),
{
    if pat.len() != path.len() {
        None
    } else if pat.len() == 0 {
        Some(acc)
    } else if is_capture(pat.first()) {
        match_segments(
            pat.drop_first(),
            path.drop_first(),
            spec_insert(acc, capture_key(pat.first()), path.first()),
        )
    } else if pat.first() == path.first() {
        match_segments(pat.drop_first(), path.drop_first(), acc)
    } else {
        None
    }
}

/// The route a request takes: the first route whose method and pattern
/// match, with its captures.
pub open spec fn route_spec(
    routes: Seq<(HttpMethod, Seq<u8>, HandlerId)>,
    method: HttpMethod,
    path: Seq<u8>,
) -> Option<(HandlerId, Seq<(Seq<u8>, Seq<u8>)>)>
    decreases routes.len(),
{
    if routes.len() == 0 {
        None
    } else {
        let r0 = routes.first();
        if r0.0 == method {
            match match_segments(split_byte(r0.1, 47), split_byte(path, 47), Seq::empty()) {
                Some(params) => Some((r0.2, params)),
                None => route_spec(routes.drop_first(), method, path),
            }
        } else {
            route_spec(routes.drop_first(), method, path)
        }
    }
}

/// The default route table, in registration order.
pub open spec fn default_routes() -> Seq<(HttpMethod, Seq<u8>, HandlerId)> {
    seq![
        (HttpMethod::Get, seq![47u8], HandlerId::Root),
        (HttpMethod::Get, seq![47u8, 101, 99, 104, 111, 47, 123, 116, 101, 120, 116, 125], HandlerId::Echo),
        (HttpMethod::Get, seq![47u8, 117, 115, 101, 114, 45, 97, 103, 101, 110, 116], HandlerId::UserAgent),
        (HttpMethod::Get, seq![47u8, 102, 105, 108, 101, 115, 47, 123, 102, 105, 108, 101, 110, 97, 109, 101, 125], HandlerId::FileHandler),
        (HttpMethod::Post, seq![47u8, 102, 105, 108, 101, 115, 47, 123, 102, 105, 108, 101, 110, 97, 109, 101, 125], HandlerId::FileHandler),
        (HttpMethod::Get, seq![47u8, 99, 104, 117, 110, 107, 101, 100, 47, 123, 116, 101, 120, 116, 125], HandlerId::Chunked),
    ]
}

fn is_capture_bytes(seg: &[u8]) -> (r: bool)
    ensures
        r == is_capture(seg@),
{
    seg.len() >= 2 && seg[0] == 123 && seg[seg.len() - 1] == 125
}

fn capture_key_bytes(seg: &[u8]) -> (r: Vec<u8>)
    ensures
        r@ == capture_key(seg@),
{
    let n = seg.len();
    let mut lo: usize = 0;
    proof {
        assert(seg@.skip(0) =~= seg@);
    }
    while lo < n && seg[lo] == 123
        invariant
            0 <= lo <= n,
            n == seg@.len(),
            forall|j: int| 0 <= j < lo ==> seg@[j] == 123,
            strip_open(seg@) == strip_open(seg@.skip(lo as int)),
        decreases n - lo,
    {
        proof {
            assert(seg@.skip(lo as int).first() == seg@[lo as int]);
            assert(seg@.skip(lo as int).drop_first() =~= seg@.skip(lo as int + 1));
        }
        lo += 1;
    }
    proof {
        if lo < n {
            assert(seg@.skip(lo as int).first() == seg@[lo as int]);
        }
        assert(strip_open(seg@) == seg@.skip(lo as int));
    }
    let mut hi: usize = n;
    proof {
        assert(seg@.skip(lo as int).take(n - lo as int) =~= seg@.skip(lo as int));
    }
    while hi > lo && seg[hi - 1] == 125
        invariant
            lo <= hi <= n,
            n == seg@.len(),
            forall|j: int| hi <= j < n ==> seg@[j] == 125,
            strip_close(seg@.skip(lo as int)) == strip_close(
                seg@.skip(lo as int).take(hi - lo as int),
            ),
        decreases hi,
    {
        proof {
            let u = seg@.skip(lo as int).take(hi - lo as int);
            assert(u.last() == seg@[hi - 1]);
            assert(u.drop_last() =~= seg@.skip(lo as int).take(hi - 1 - lo as int));
        }
        hi -= 1;
    }
    proof {
        let u = seg@.skip(lo as int).take(hi - lo as int);
        if hi > lo {
            assert(u.last() == seg@[hi - 1]);
        }
        assert(strip_close(u) == u);
        assert(u =~= seg@.subrange(lo as int, hi as int));
    }
    crate::ascii::subrange_to_vec(seg, lo, hi)
}

/// Manages routes and finds the one a request takes.
#[derive(Debug)]
pub struct Router {
    routes: Vec<Route>,
}

impl Router {
    /// The route table, in registration order.
    pub closed spec fn spec_routes(&self) -> Seq<(HttpMethod, Seq<u8>, HandlerId)> {
        routes_view(self.routes@)
    }

    /// Creates a router with the built-in routes.
    pub fn new() -> (r: Router)
        ensures
            r.spec_routes() == default_routes(),
    {
        let mut router = Router { routes: Vec::new() };
        let p_root: &[u8] = &[47u8];
        let p_echo: &[u8] = &[47u8, 101, 99, 104, 111, 47, 123, 116, 101, 120, 116, 125];
        let p_ua: &[u8] = &[47u8, 117, 115, 101, 114, 45, 97, 103, 101, 110, 116];
        let p_files: &[u8] = &[47u8, 102, 105, 108, 101, 115, 47, 123, 102, 105, 108, 101, 110, 97, 109, 101, 125];
        let p_chunked: &[u8] = &[47u8, 99, 104, 117, 110, 107, 101, 100, 47, 123, 116, 101, 120, 116, 125];
        let v_root = crate::ascii::subrange_to_vec(p_root, 0, p_root.len());
        let v_echo = crate::ascii::subrange_to_vec(p_echo, 0, p_echo.len());
        let v_ua = crate::ascii::subrange_to_vec(p_ua, 0, p_ua.len());
        let v_files = crate::ascii::subrange_to_vec(p_files, 0, p_files.len());
        let v_files2 = crate::ascii::subrange_to_vec(p_files, 0, p_files.len());
        let v_chunked = crate::ascii::subrange_to_vec(p_chunked, 0, p_chunked.len());
        proof {
            assert(v_root@ =~= seq![47u8]);
            assert(v_echo@ =~= seq![47u8, 101, 99, 104, 111, 47, 123, 116, 101, 120, 116, 125]);
            assert(v_ua@ =~= seq![47u8, 117, 115, 101, 114, 45, 97, 103, 101, 110, 116]);
            assert(v_files@ =~= seq![47u8, 102, 105, 108, 101, 115, 47, 123, 102, 105, 108, 101, 110, 97, 109, 101, 125]);
            assert(v_files2@ =~= seq![47u8, 102, 105, 108, 101, 115, 47, 123, 102, 105, 108, 101, 110, 97, 109, 101, 125]);
            assert(v_chunked@ =~= seq![47u8, 99, 104, 117, 110, 107, 101, 100, 47, 123, 116, 101, 120, 116, 125]);
        }
        router.get(v_root, HandlerId::Root);
        router.get(v_echo, HandlerId::Echo);
        router.get(v_ua, HandlerId::UserAgent);
        router.get(v_files, HandlerId::FileHandler);
        router.post(v_files2, HandlerId::FileHandler);
        router.get(v_chunked, HandlerId::Chunked);
        proof {
            assert(router.spec_routes() =~= default_routes());
        }
        router
    }

    /// Registers a GET route.
    pub fn get(&mut self, path: Vec<u8>, handler: HandlerId)
        ensures
            final(self).spec_routes() == old(self).spec_routes().push(
                (HttpMethod::Get, path@, handler),
            ),
    {
        let ghost before = self.spec_routes();
        self.routes.push(Route { method: HttpMethod::Get, path, handler });
        proof {
            assert(self.spec_routes() =~= before.push((HttpMethod::Get, path@, handler)));
        }
    }

    /// Registers a POST route.
    pub fn post(&mut self, path: Vec<u8>, handler: HandlerId)
        ensures
            final(self).spec_routes() == old(self).spec_routes().push(
                (HttpMethod::Post, path@, handler),
            ),
    {
        let ghost before = self.spec_routes();
        self.routes.push(Route { method: HttpMethod::Post, path, handler });
        proof {
            assert(self.spec_routes() =~= before.push((HttpMethod::Post, path@, handler)));
        }
    }

    /// Finds the first matching route: its handler and the captured
    /// parameters; `None` means no route matches.
    pub fn route(&self, request: &HttpRequest) -> (r: Option<(HandlerId, HeaderMap)>)
        ensures
            match r {
                Some((h, params)) => route_spec(
                    self.spec_routes(),
                    request@.method,
                    request@.path,
                ) == Some((h, params@)),
                None => route_spec(self.spec_routes(), request@.method, request@.path) is None,
            },
    {
        let n = self.routes.len();
        let mut i: usize = 0;
        proof {
            assert(self.spec_routes().skip(0) =~= self.spec_routes());
        }
        while i < n
            invariant
                0 <= i <= n,
                n == self.spec_routes().len(),
                route_spec(self.spec_routes(), request@.method, request@.path) == route_spec(
                    self.spec_routes().skip(i as int),
                    request@.method,
                    request@.path,
                ),
            decreases n - i,
        {
            let ghost rem = self.spec_routes().skip(i as int);
            proof {
                assert(rem.first() == self.spec_routes()[i as int]);
                assert(rem.drop_first() =~= self.spec_routes().skip(i as int + 1));
            }
            let route = &self.routes[i];
            proof {
                assert((route.method, route.path@, route.handler) == self.spec_routes()[
                    i as int
                ]);
            }
            if route.method == request.status_line.method {
                match match_pattern(route.path.as_slice(), request.status_line.path.as_slice()) {
                    Some(params) => {
                        return Some((route.handler, params));
                    },
                    None => {},
                }
            }
            i += 1;
        }
        proof {
            assert(self.spec_routes().skip(n as int) =~= Seq::<
                (HttpMethod, Seq<u8>, HandlerId),
            >::empty());
        }
        None
    }
}

/// Matches a route pattern against a request path.
fn match_pattern(pattern: &[u8], path: &[u8]) -> (r: Option<HeaderMap>)
    ensures
        match r {
            Some(params) => match_segments(
                split_byte(pattern@, 47),
                split_byte(path@, 47),
                Seq::empty(),
            ) == Some(params@),
            None => match_segments(
                split_byte(pattern@, 47),
                split_byte(path@, 47),
                Seq::empty(),
            ) is None,
        },
{
    let pat_segs = crate::ascii::split_on_byte(pattern, 47);
    let path_segs = crate::ascii::split_on_byte(path, 47);
    if pat_segs.len() != path_segs.len() {
        return None;
    }
    let n = pat_segs.len();
    let mut params = HeaderMap::new();
    let mut i: usize = 0;
    proof {
        assert(crate::ascii::seqs_view(pat_segs@).skip(0) =~= crate::ascii::seqs_view(pat_segs@));
        assert(crate::ascii::seqs_view(path_segs@).skip(0) =~= crate::ascii::seqs_view(
            path_segs@,
        ));
    }
    while i < n
        invariant
            0 <= i <= n,
            n == pat_segs@.len(),
            n == path_segs@.len(),
            crate::ascii::seqs_view(pat_segs@) == split_byte(pattern@, 47),
            crate::ascii::seqs_view(path_segs@) == split_byte(path@, 47),
            match_segments(split_byte(pattern@, 47), split_byte(path@, 47), Seq::empty())
                == match_segments(
                crate::ascii::seqs_view(pat_segs@).skip(i as int),
                crate::ascii::seqs_view(path_segs@).skip(i as int),
                params@,
            ),
        decreases n - i,
    {
        let ghost prem = crate::ascii::seqs_view(pat_segs@).skip(i as int);
        let ghost qrem = crate::ascii::seqs_view(path_segs@).skip(i as int);
        proof {
            assert(prem.first() == pat_segs@[i as int]@);
            assert(qrem.first() == path_segs@[i as int]@);
            assert(prem.drop_first() =~= crate::ascii::seqs_view(pat_segs@).skip(i as int + 1));
            assert(qrem.drop_first() =~= crate::ascii::seqs_view(path_segs@).skip(i as int + 1));
        }
        let seg = &pat_segs[i];
        if is_capture_bytes(seg.as_slice()) {
            let key = capture_key_bytes(seg.as_slice());
            let value = crate::ascii::subrange_to_vec(
                path_segs[i].as_slice(),
                0,
                path_segs[i].len(),
            );
            proof {
                assert(value@ =~= path_segs@[i as int]@);
            }
            params.insert(key, value);
        } else if !crate::ascii::bytes_eq(seg.as_slice(), path_segs[i].as_slice()) {
            return None;
        }
        i += 1;
    }
    proof {
        assert(crate::ascii::seqs_view(pat_segs@).skip(n as int) =~= Seq::<Seq<u8>>::empty());
        assert(crate::ascii::seqs_view(path_segs@).skip(n as int) =~= Seq::<Seq<u8>>::empty());
    }
    Some(params)
}

/// The welcome body of the root route.
pub open spec fn welcome_bytes() -> Seq<u8> {
    seq![87u8, 101, 108, 99, 111, 109, 101, 32, 116, 111, 32, 116, 104, 101, 32, 82, 117, 115, 116, 32, 72, 84, 84, 80, 32, 83, 101, 114, 118, 101, 114, 33]
}

/// The body when no User-Agent header came.
pub open spec fn unknown_bytes() -> Seq<u8> {
    seq![85u8, 110, 107, 110, 111, 119, 110]
}

/// The message of the 404 body when no route matches.
pub open spec fn route_not_found_bytes() -> Seq<u8> {
    seq![82u8, 111, 117, 116, 101, 32, 110, 111, 116, 32, 102, 111, 117, 110, 100]
}

/// The bytes of the `Accept` header name.
pub open spec fn accept_key() -> Seq<u8> {
    seq![65u8, 99, 99, 101, 112, 116]
}

/// The bytes of the `Accept-Encoding` header name.
pub open spec fn accept_encoding_key() -> Seq<u8> {
    seq![65u8, 99, 99, 101, 112, 116, 45, 69, 110, 99, 111, 100, 105, 110, 103]
}

/// The bytes of the `User-Agent` header name.
pub open spec fn user_agent_key() -> Seq<u8> {
    seq![85u8, 115, 101, 114, 45, 65, 103, 101, 110, 116]
}

/// The bytes of the `Range` header name.
pub open spec fn range_key() -> Seq<u8> {
    seq![82u8, 97, 110, 103, 101]
}

/// The `Connection` header value of a request, or empty when absent.
pub open spec fn req_connection(q: ReqView) -> Seq<u8> {
    match spec_get(q.headers, crate::response::connection_key()) {
        Some(c) => c,
        None => Seq::empty(),
    }
}

/// The `Accept` header value of a request, when present.
pub open spec fn req_accept(q: ReqView) -> Option<Seq<u8>> {
    spec_get(q.headers, accept_key())
}

fn get_req_connection<'a>(request: &'a HttpRequest) -> (r: Vec<u8>)
    ensures
        r@ == req_connection(request@),
{
    let key = crate::response::connection_key_bytes();
    match request.headers.get(key.as_slice()) {
        Some(v) => {
            let c = crate::ascii::subrange_to_vec(v.as_slice(), 0, v.len());
            proof {
                assert(c@ =~= req_connection(request@));
            }
            c
        },
        None => {
            let c: Vec<u8> = Vec::new();
            proof {
                assert(c@ =~= Seq::<u8>::empty());
            }
            c
        },
    }
}

fn get_req_accept<'a>(request: &'a HttpRequest) -> (r: Option<&'a Vec<u8>>)
    ensures
        match r {
            Some(v) => req_accept(request@) == Some(v@),
            None => req_accept(request@) is None,
        },
{
    let key: &[u8] = &[65u8, 99, 99, 101, 112, 116];
    proof {
        assert(key@ =~= accept_key());
    }
    request.headers.get(key)
}

/// Handles the root route: a negotiated welcome message.
pub fn root_handler(request: &HttpRequest) -> (r: HttpResponse)
    ensures
        r.status_line.version == request@.version,
        r.status_line.status == HttpStatusCode::Okay,
        matches_negotiation(
            r,
            negotiation_spec(
                HttpStatusCode::Okay,
                request@.version,
                req_connection(request@),
                welcome_bytes(),
                req_accept(request@),
                false,
            ),
        ),
{
    let welcome: &[u8] = &[87u8, 101, 108, 99, 111, 109, 101, 32, 116, 111, 32, 116, 104, 101, 32, 82, 117, 115, 116, 32, 72, 84, 84, 80, 32, 83, 101, 114, 118, 101, 114, 33];
    proof {
        assert(welcome@ =~= welcome_bytes());
    }
    let body = crate::ascii::subrange_to_vec(welcome, 0, welcome.len());
    proof {
        assert(body@ =~= welcome_bytes());
    }
    let conn = get_req_connection(request);
    let accept = get_req_accept(request);
    let mime = crate::response::HttpContentType::PlainText.name();
    HttpResponse::with_negotiation(
        HttpStatusCode::Okay,
        request.status_line.version,
        conn.as_slice(),
        body,
        accept,
        None,
        mime.as_slice(),
    )
}

/// Handles the echo route: the captured text, negotiated, then compressed
/// by the Accept-Encoding header.
pub fn echo_handler(request: &HttpRequest, params: &HeaderMap) -> (r: CompressedResponse<
    HttpResponse,
>)
    ensures
        ({
            let text = match spec_get(params@, seq![116u8, 101, 120, 116]) {
                Some(t) => t,
                None => Seq::<u8>::empty(),
            };
            let nv = negotiation_spec(
                HttpStatusCode::Okay,
                request@.version,
                req_connection(request@),
                text,
                req_accept(request@),
                false,
            );
            let body = match nv.body {
                Some(b) => b,
                None => Seq::<u8>::empty(),
            };
            let enc = chosen_encoding(
                body.len() as int,
                match spec_get(request@.headers, accept_encoding_key()) {
                    Some(h) => Some(h),
                    None => None,
                },
            );
            &&& r.spec_status() == (request@.version, HttpStatusCode::Okay)
            &&& r.spec_encoding() == enc
            &&& (enc is Identity ==> r.spec_compressed() == body)
            &&& (enc is Gzip ==> r.spec_compressed() == crate::compress::gzip_of(body))
            &&& (enc is Deflate ==> r.spec_compressed() == crate::compress::deflate_of(body))
            &&& (enc is Brotli ==> r.spec_compressed() == crate::compress::brotli_of(body))
            &&& r.spec_body() == r.spec_compressed()
            &&& r.spec_headers() == crate::headers::spec_remove_ci(
                nv.headers,
                crate::request::content_length_key(),
            ) + (if enc is Identity {
                Seq::<(Seq<u8>, Seq<u8>)>::empty()
            } else {
                seq![(crate::compress::content_encoding_key(), crate::compress::encoding_bytes(enc))]
            }) + seq![
                (
                    crate::request::content_length_key(),
                    crate::ascii::dec_of(r.spec_compressed().len() as int),
                ),
            ]
        }),
{
    let text_key: &[u8] = &[116u8, 101, 120, 116];
    proof {
        assert(text_key@ =~= seq![116u8, 101, 120, 116]);
    }
    let body: Vec<u8> = match params.get(text_key) {
        Some(t) => {
            let c = crate::ascii::subrange_to_vec(t.as_slice(), 0, t.len());
            proof {
                assert(c@ =~= spec_get(params@, seq![116u8, 101, 120, 116]).unwrap());
            }
            c
        },
        None => Vec::new(),
    };
    let conn = get_req_connection(request);
    let accept = get_req_accept(request);
    let mime = crate::response::HttpContentType::PlainText.name();
    let response = HttpResponse::with_negotiation(
        HttpStatusCode::Okay,
        request.status_line.version,
        conn.as_slice(),
        body,
        accept,
        None,
        mime.as_slice(),
    );
    let aenc_key: &[u8] = &[65u8, 99, 99, 101, 112, 116, 45, 69, 110, 99, 111, 100, 105, 110, 103];
    proof {
        assert(aenc_key@ =~= accept_encoding_key());
    }
    let accept_encoding = request.headers.get(aenc_key);
    CompressionMiddleware::apply(response, accept_encoding)
}

/// Handles the user-agent route: echoes the User-Agent header, negotiated.
pub fn user_agent_handler(request: &HttpRequest) -> (r: HttpResponse)
    ensures
        ({
            let ua = match spec_get(request@.headers, user_agent_key()) {
                Some(u) => u,
                None => unknown_bytes(),
            };
            &&& r.status_line.version == request@.version
            &&& r.status_line.status == HttpStatusCode::Okay
            &&& matches_negotiation(
                r,
                negotiation_spec(
                    HttpStatusCode::Okay,
                    request@.version,
                    req_connection(request@),
                    ua,
                    req_accept(request@),
                    false,
                ),
            )
        }),
{
    let ua_key: &[u8] = &[85u8, 115, 101, 114, 45, 65, 103, 101, 110, 116];
    proof {
        assert(ua_key@ =~= user_agent_key());
    }
    let body: Vec<u8> = match request.headers.get(ua_key) {
        Some(u) => {
            let c = crate::ascii::subrange_to_vec(u.as_slice(), 0, u.len());
            proof {
                assert(c@ =~= spec_get(request@.headers, user_agent_key()).unwrap());
            }
            c
        },
        None => {
            let unknown: &[u8] = &[85u8, 110, 107, 110, 111, 119, 110];
            let u = crate::ascii::subrange_to_vec(unknown, 0, unknown.len());
            proof {
                assert(u@ =~= unknown_bytes());
            }
            u
        },
    };
    let conn = get_req_connection(request);
    let accept = get_req_accept(request);
    let mime = crate::response::HttpContentType::PlainText.name();
    HttpResponse::with_negotiation(
        HttpStatusCode::Okay,
        request.status_line.version,
        conn.as_slice(),
        body,
        accept,
        None,
        mime.as_slice(),
    )
}

/// Handles the chunked route: the captured text behind chunked framing.
pub fn chunked_handler(request: &HttpRequest, params: &HeaderMap) -> (r: HttpResponse)
    ensures
        ({
            let text = match spec_get(params@, seq![116u8, 101, 120, 116]) {
                Some(t) => t,
                None => Seq::<u8>::empty(),
            };
            &&& r.status_line.version == request@.version
            &&& r.status_line.status == HttpStatusCode::Okay
            &&& r.headers@ == seq![
                (crate::response::content_type_key(), crate::response::content_type_bytes(
                    HttpContentType::PlainText,
                )),
                (crate::writer::transfer_encoding_key(), crate::writer::chunked_token()),
                (crate::response::connection_key(), crate::response::close_bytes()),
            ]
            &&& r.body matches Some(b) && b.spec_bytes() == text && b is Binary
        }),
{
    let text_key: &[u8] = &[116u8, 101, 120, 116];
    proof {
        assert(text_key@ =~= seq![116u8, 101, 120, 116]);
    }
    let body: Vec<u8> = match params.get(text_key) {
        Some(t) => {
            let c = crate::ascii::subrange_to_vec(t.as_slice(), 0, t.len());
            proof {
                assert(c@ =~= spec_get(params@, seq![116u8, 101, 120, 116]).unwrap());
            }
            c
        },
        None => Vec::new(),
    };
    let mut headers = HeaderMap::new();
    headers.insert(
        crate::response::content_type_key_bytes(),
        HttpContentType::PlainText.name(),
    );
    let ghost h1 = headers@;
    headers.insert(
        crate::writer::transfer_encoding_key_bytes(),
        crate::writer::chunked_token_bytes(),
    );
    let ghost h2 = headers@;
    let close: &[u8] = &[99u8, 108, 111, 115, 101];
    let close_vec = crate::ascii::subrange_to_vec(close, 0, close.len());
    proof {
        assert(close_vec@ =~= crate::response::close_bytes());
    }
    headers.insert(crate::response::connection_key_bytes(), close_vec);
    proof {
        assert(h1 =~= seq![
            (crate::response::content_type_key(), crate::response::content_type_bytes(
                HttpContentType::PlainText,
            )),
        ]);
        crate::response::lemma_insert_fresh_name(
            h1,
            crate::writer::transfer_encoding_key(),
            crate::writer::chunked_token(),
        );
        crate::response::lemma_insert_fresh_name(
            h2,
            crate::response::connection_key(),
            crate::response::close_bytes(),
        );
        assert(headers@ =~= seq![
            (crate::response::content_type_key(), crate::response::content_type_bytes(
                HttpContentType::PlainText,
            )),
            (crate::writer::transfer_encoding_key(), crate::writer::chunked_token()),
            (crate::response::connection_key(), crate::response::close_bytes()),
        ]);
    }
    HttpResponse::new(
        ResponseStatusLine { version: request.status_line.version, status: HttpStatusCode::Okay },
        headers,
        Some(crate::writer::HttpBody::Binary(body)),
    )
}

/// The negotiated 404 when no route matches.
pub fn not_found_response(request: &HttpRequest) -> (r: crate::errors::HttpErrorResponse)
    ensures
        ({
            let t = match req_accept(request@) {
                Some(h) => crate::response::content_type_of_accept(h),
                None => HttpContentType::PlainText,
            };
            &&& r.status_line.version == request@.version
            &&& r.status_line.status == HttpStatusCode::NotFound
            &&& r.headers@ == crate::errors::error_headers_spec(
                t,
                crate::errors::error_body(t, HttpStatusCode::NotFound, route_not_found_bytes()),
            )
            &&& crate::errors::body_view(r.body) == crate::errors::error_body(
                t,
                HttpStatusCode::NotFound,
                route_not_found_bytes(),
            )
        }),
{
    let msg: &[u8] = &[82u8, 111, 117, 116, 101, 32, 110, 111, 116, 32, 102, 111, 117, 110, 100];
    proof {
        assert(msg@ =~= route_not_found_bytes());
    }
    let conn = get_req_connection(request);
    let accept = get_req_accept(request);
    let msg_vec = crate::ascii::subrange_to_vec(msg, 0, msg.len());
    proof {
        assert(msg_vec@ =~= route_not_found_bytes());
    }
    crate::errors::HttpErrorResponse::new(
        HttpStatusCode::NotFound,
        request.status_line.version,
        conn.as_slice(),
        accept,
        msg_vec,
    )
}

/// The read plan for a GET on the files route: a range read when a valid
/// Range header came, else a full read.
pub fn plan_file_read(path: &[u8], range_header: Option<&Vec<u8>>) -> (r: FileReadRequest)
    ensures
        match range_header {
            Some(h) => match range_of_header(h@) {
                Some((s, e)) => r matches FileReadRequest::Range(p, br) && p@ == path@
                    && br.start as int == s && (match (br.end, e) {
                    (Some(b1), Some(e1)) => b1 as int == e1,
                    (None, None) => true,
                    _ => false,
                }),
                None => r matches FileReadRequest::Full(p) && p@ == path@,
            },
            None => r matches FileReadRequest::Full(p) && p@ == path@,
        },
{
    let p = crate::ascii::subrange_to_vec(path, 0, path.len());
    proof {
        assert(p@ =~= path@);
    }
    match range_header {
        Some(h) => match ByteRange::from_header(h.as_slice()) {
            Some(range) => FileReadRequest::Range(p, range),
            None => FileReadRequest::Full(p),
        },
        None => FileReadRequest::Full(p),
    }
}

/// The status a path-resolution failure answers with: Invalid is served as
/// not-found to avoid probing.
pub fn resolve_error_status(err: &ResolveError) -> (r: HttpStatusCode)
    ensures
        r == (match err {
            ResolveError::Forbidden => HttpStatusCode::Forbidden,
            ResolveError::NotFound => HttpStatusCode::NotFound,
            ResolveError::Invalid => HttpStatusCode::NotFound,
            ResolveError::Io => HttpStatusCode::InternalServerError,
        }),
{
    match err {
        ResolveError::Forbidden => HttpStatusCode::Forbidden,
        ResolveError::NotFound => HttpStatusCode::NotFound,
        ResolveError::Invalid => HttpStatusCode::NotFound,
        ResolveError::Io => HttpStatusCode::InternalServerError,
    }
}

/// The status a file-read failure answers with.
pub fn file_error_status(err: &FileReadError) -> (r: HttpStatusCode)
    ensures
        r == (match err {
            FileReadError::NotFound => HttpStatusCode::NotFound,
            FileReadError::IoError => HttpStatusCode::InternalServerError,
            FileReadError::InvalidRange => HttpStatusCode::BadRequest,
            _ => HttpStatusCode::InternalServerError,
        }),
{
    match err {
        FileReadError::NotFound => HttpStatusCode::NotFound,
        FileReadError::IoError => HttpStatusCode::InternalServerError,
        FileReadError::InvalidRange => HttpStatusCode::BadRequest,
        _ => HttpStatusCode::InternalServerError,
    }
}

/// The `Content-Range` value of a 206: `bytes S-E/TOTAL`.
pub open spec fn content_range_value(s: int, e: int, total: int) -> Seq<u8> {
    seq![98u8, 121, 116, 101, 115, 32] + crate::ascii::dec_of(s) + seq![45u8] + crate::ascii::dec_of(e) + seq![47u8]
        + crate::ascii::dec_of(total)
}

/// The bytes of the `Content-Range` header name.
pub open spec fn content_range_key() -> Seq<u8> {
    seq![67u8, 111, 110, 116, 101, 110, 116, 45, 82, 97, 110, 103, 101]
}

/// The 206 response for a successful range read: the ranged bytes, their
/// exact length, and the `Content-Range` they came from.
pub fn range_response(
    version: &HttpVersion,
    conn: &[u8],
    filename: &[u8],
    file_result: FileReadResult,
    start: u64,
    end: u64,
) -> (r: HttpResponse)
    requires
        start <= usize::MAX,
        end <= usize::MAX,
        file_result.total_size <= usize::MAX,
    ensures
        r.status_line.version == *version,
        r.status_line.status == HttpStatusCode::PartialContent,
        r.headers@ == seq![
            (crate::response::content_type_key(), crate::mime::mime_of_path(filename@)),
            (
                crate::request::content_length_key(),
                crate::ascii::dec_of(file_result.body.spec_bytes().len() as int),
            ),
            (
                content_range_key(),
                content_range_value(start as int, end as int, file_result.total_size as int),
            ),
            (crate::response::connection_key(), conn@),
        ],
        r.body matches Some(b) && b.spec_bytes() == file_result.body.spec_bytes(),
{
    let mime = crate::mime::path_mime_type(filename);
    let mut headers = HeaderMap::new();
    headers.insert(crate::response::content_type_key_bytes(), mime);
    let ghost h1 = headers@;
    headers.insert(
        crate::request::content_length_key_bytes(),
        crate::ascii::usize_to_dec(file_result.body.byte_len()),
    );
    let ghost h2 = headers@;
    let mut cr_value: Vec<u8> = Vec::new();
    let bytes_sp: &[u8] = &[98u8, 121, 116, 101, 115, 32];
    proof {
        assert(bytes_sp@ =~= seq![98u8, 121, 116, 101, 115, 32]);
    }
    crate::ascii::push_bytes(&mut cr_value, bytes_sp);
    crate::ascii::push_dec(start as usize, &mut cr_value);
    cr_value.push(45);
    crate::ascii::push_dec(end as usize, &mut cr_value);
    cr_value.push(47);
    crate::ascii::push_dec(file_result.total_size as usize, &mut cr_value);
    proof {
        assert(cr_value@ =~= content_range_value(
            start as int,
            end as int,
            file_result.total_size as int,
        ));
    }
    let cr_key: &[u8] = &[67u8, 111, 110, 116, 101, 110, 116, 45, 82, 97, 110, 103, 101];
    let cr_key_vec = crate::ascii::subrange_to_vec(cr_key, 0, cr_key.len());
    proof {
        assert(cr_key_vec@ =~= content_range_key());
    }
    headers.insert(cr_key_vec, cr_value);
    let ghost h3 = headers@;
    let conn_vec = crate::ascii::subrange_to_vec(conn, 0, conn.len());
    proof {
        assert(conn_vec@ =~= conn@);
    }
    headers.insert(crate::response::connection_key_bytes(), conn_vec);
    proof {
        assert(h1 =~= seq![
            (crate::response::content_type_key(), crate::mime::mime_of_path(filename@)),
        ]);
        crate::response::lemma_insert_fresh_name(
            h1,
            crate::request::content_length_key(),
            crate::ascii::dec_of(file_result.body.spec_bytes().len() as int),
        );
        crate::response::lemma_insert_fresh_name(
            h2,
            content_range_key(),
            content_range_value(start as int, end as int, file_result.total_size as int),
        );
        crate::response::lemma_insert_fresh_name(
            h3,
            crate::response::connection_key(),
            conn@,
        );
        assert(headers@ =~= seq![
            (crate::response::content_type_key(), crate::mime::mime_of_path(filename@)),
            (
                crate::request::content_length_key(),
                crate::ascii::dec_of(file_result.body.spec_bytes().len() as int),
            ),
            (
                content_range_key(),
                content_range_value(start as int, end as int, file_result.total_size as int),
            ),
            (crate::response::connection_key(), conn@),
        ]);
    }
    HttpResponse::new(
        ResponseStatusLine { version: *version, status: HttpStatusCode::PartialContent },
        headers,
        Some(file_result.body),
    )
}

/// The message of a POST success: the file name framed by the fixed text.
pub open spec fn post_success_message(filename: Seq<u8>) -> Seq<u8> {
    seq![70u8, 105, 108, 101, 32, 39] + filename + seq![39u8, 32, 99, 114, 101, 97, 116, 101, 100, 47, 117, 112, 100, 97, 116, 101, 100]
}

/// The response after a POST wrote the body: 200 for an overwrite, 201 for
/// a new file.
pub fn post_success_response(
    version: &HttpVersion,
    conn: &[u8],
    filename: &[u8],
    existed: bool,
) -> (r: HttpResponse)
    ensures
        r.status_line.version == *version,
        r.status_line.status == (if existed {
            HttpStatusCode::Okay
        } else {
            HttpStatusCode::Created
        }),
        r.headers@ == seq![
            (crate::response::content_type_key(), crate::response::content_type_bytes(
                HttpContentType::PlainText,
            )),
            (
                crate::request::content_length_key(),
                crate::ascii::dec_of(post_success_message(filename@).len() as int),
            ),
            (crate::response::connection_key(), crate::response::close_bytes()),
        ],
        r.body matches Some(b) && b.spec_bytes() == post_success_message(filename@),
{
    let status = if existed {
        HttpStatusCode::Okay
    } else {
        HttpStatusCode::Created
    };
    let mut msg: Vec<u8> = Vec::new();
    let pre: &[u8] = &[70u8, 105, 108, 101, 32, 39];
    let suf: &[u8] = &[39u8, 32, 99, 114, 101, 97, 116, 101, 100, 47, 117, 112, 100, 97, 116, 101, 100];
    proof {
        assert(pre@ =~= seq![70u8, 105, 108, 101, 32, 39]);
        assert(suf@ =~= seq![39u8, 32, 99, 114, 101, 97, 116, 101, 100, 47, 117, 112, 100, 97, 116, 101, 100]);
    }
    crate::ascii::push_bytes(&mut msg, pre);
    crate::ascii::push_bytes(&mut msg, filename);
    crate::ascii::push_bytes(&mut msg, suf);
    proof {
        assert(msg@ =~= post_success_message(filename@));
    }
    HttpResponse::for_file_error(status, *version, conn, filename, msg)
}

/// Whether the request asked the connection closed.
pub fn should_close(request: &HttpRequest) -> (r: bool)
    ensures
        r == (match spec_get(request@.headers, crate::response::connection_key()) {
            Some(v) => eq_ci(v, crate::response::close_bytes()),
            None => false,
        }),
{
    let key = crate::response::connection_key_bytes();
    let close: &[u8] = &[99u8, 108, 111, 115, 101];
    proof {
        assert(close@ =~= crate::response::close_bytes());
    }
    match request.headers.get(key.as_slice()) {
        Some(v) => crate::ascii::bytes_eq_ci(v.as_slice(), close),
        None => false,
    }
}

} // verus!
