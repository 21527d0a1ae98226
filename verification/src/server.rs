//! What the server decides around each request: its configuration, the
//! bounded collection of a request body, the choice between answering at once
//! (404, 405, 500) and calling a handler, and the headers of the answer.
//! The sockets, the tasks and the HTTP framing are the caller's.

use vstd::prelude::*;
use vstd::utf8::encode_utf8;
use std::sync::Arc;
use crate::method::{is_method_token, is_standard_name, Method};
use crate::request::{first_index_of, query_map, Request};
use http::HeaderMap;
use crate::headers::{header_lines, header_map_lines, header_map_new, line_views, valid_header_value};
use crate::response::{
    content_type_only, http_header_value_accepts, internal_error_body, json_content_type, Response,
};
use crate::router::{pairs_map, Router, RouterError};
use crate::text::{ascii_text, lossy_string};
use vstd::utf8::decode_utf8;

verus! {

/// Server configuration.
#[derive(Debug)]
pub struct ServerConfig {
    pub host: String,
    pub port: u16,
    /// Max request body size in bytes. Defaults to 10 MiB.
    pub max_body_size: usize,
    /// Server string emitted in the `Server` header. Empty disables the header.
    pub server_name: String,
    /// Whether to emit a log line per request.
    pub request_logging: bool,
}

impl Default for ServerConfig {
    fn default() -> (res: ServerConfig)
        ensures
            res.host@ == "127.0.0.1"@,
            res.port == 8080,
            res.max_body_size == 10 * 1024 * 1024,
            res.server_name@ == "rustapi/0.1"@,
            !res.request_logging,
    {
        ServerConfig {
            host: "127.0.0.1".to_owned(),
            port: 8080,
            max_body_size: 10 * 1024 * 1024,
            server_name: "rustapi/0.1".to_owned(),
            request_logging: false,
        }
    }
}

impl Clone for ServerConfig {
    fn clone(&self) -> (res: ServerConfig)
        ensures
            res.host@ == self.host@,
            res.port == self.port,
            res.max_body_size == self.max_body_size,
            res.server_name@ == self.server_name@,
            res.request_logging == self.request_logging,
    {
        ServerConfig {
            host: self.host.clone(),
            port: self.port,
            max_body_size: self.max_body_size,
            server_name: self.server_name.clone(),
            request_logging: self.request_logging,
        }
    }
}

/// A ready-to-run server: the routes and the configuration.
pub struct Server<H> {
    router: Arc<Router<H>>,
    config: ServerConfig,
}

impl<H> Server<H> {
    pub closed spec fn router_view(self) -> Router<H> {
        *self.router
    }

    pub closed spec fn config_view(self) -> ServerConfig {
        self.config
    }

    pub fn new(router: Router<H>, config: ServerConfig) -> (res: Server<H>)
        ensures
            res.router_view() == router,
            res.config_view() == config,
    {
        Server { router: Arc::new(router), config }
    }

    /// The shared routes.
    pub fn router(&self) -> (res: &Arc<Router<H>>)
        ensures
            **res == self.router_view(),
    {
        &self.router
    }

    pub fn config(&self) -> (res: &ServerConfig)
        ensures
            *res == self.config_view(),
    {
        &self.config
    }
}

// ---------------------------------------------------------------------------
// Request bodies
// ---------------------------------------------------------------------------

/// Collects a request body frame by frame, refusing any frame that would take
/// it past its limit.
pub struct BodyCollector {
    collected: Vec<u8>,
    remaining: usize,
}

impl BodyCollector {
    /// The bytes taken so far.
    pub closed spec fn collected(self) -> Seq<u8> {
        self.collected@
    }

    /// How many more bytes the body may take.
    pub closed spec fn remaining(self) -> nat {
        self.remaining as nat
    }

    /// The most bytes the body may have: what it has plus what it may take.
    pub open spec fn limit(self) -> nat {
        self.collected().len() + self.remaining()
    }

    pub fn new(limit: usize) -> (res: BodyCollector)
        ensures
            res.collected() == Seq::<u8>::empty(),
            res.limit() == limit,
    {
        BodyCollector { collected: Vec::new(), remaining: limit }
    }

    /// Takes one data frame. A frame longer than what the limit leaves is
    /// refused (`false`) and nothing is taken.
    pub fn push_frame(&mut self, data: &[u8]) -> (accepted: bool)
        ensures
            accepted == (data@.len() <= old(self).remaining()),
            final(self).limit() == old(self).limit(),
            accepted ==> final(self).collected() == old(self).collected() + data@,
            !accepted ==> final(self).collected() == old(self).collected(),
    {
        if data.len() > self.remaining {
            return false;
        }
        let mut i: usize = 0;
        let ghost start = self.collected@;
        while i < data.len()
            invariant
                i <= data@.len(),
                data@.len() <= self.remaining,
                self.remaining == old(self).remaining,
                start == old(self).collected@,
                self.collected@ == start + data@.take(i as int),
            decreases data@.len() - i,
        {
            self.collected.push(data[i]);
            proof {
                assert(data@.take(i + 1) =~= data@.take(i as int).push(data@[i as int]));
            }
            i += 1;
        }
        proof {
            assert(data@.take(i as int) =~= data@);
        }
        self.remaining = self.remaining - data.len();
        true
    }

    /// The body collected.
    pub fn into_bytes(self) -> (res: Vec<u8>)
        ensures
            res@ == self.collected(),
    {
        self.collected
    }
}

// ---------------------------------------------------------------------------
// Dispatch
// ---------------------------------------------------------------------------

/// A 404 as `Response::not_found` makes it.
pub open spec fn is_not_found(r: Response) -> bool {
    &&& r.status == 404
    &&& r.body@ == encode_utf8("{\"error\":\"not found\"}"@)
    &&& header_lines(r.headers) == content_type_only(json_content_type())
}

/// A 405 as `Response::method_not_allowed` makes it.
pub open spec fn is_method_not_allowed(r: Response) -> bool {
    &&& r.status == 405
    &&& r.body@ == encode_utf8("{\"error\":\"method not allowed\"}"@)
    &&& header_lines(r.headers) == content_type_only(json_content_type())
}

/// A 500 as `Response::internal_error(msg)` makes it.
pub open spec fn is_internal_error(r: Response, msg: Seq<char>) -> bool {
    &&& r.status == 500
    &&& r.body@ == internal_error_body(msg)
    &&& header_lines(r.headers) == content_type_only(json_content_type())
}

/// What to do with a request: answer at once, or call a handler.
pub enum Dispatch<'a, H> {
    /// Send this response; no handler is called.
    Respond(Response),
    /// Call this handler with this request.
    Invoke(&'a H, Request),
}

/// Decides what to do with a request whose body was read (`Some`) or could
/// not be read within the limit (`None`).
///
/// A body that could not be read gives a 500. Otherwise the query string is
/// parsed and the route matched: no match gives a 404 or 405 as the router
/// reports, and a match gives the handler with the full request.
pub fn prepare_dispatch<'a, H>(
    router: &'a Router<H>,
    method: &Method,
    path: String,
    query_string: String,
    headers: HeaderMap,
    body: Option<Vec<u8>>,
    remote_addr: Option<String>,
) -> (res: Dispatch<'a, H>)
    ensures
        body is None ==> (res matches Dispatch::Respond(r) && is_internal_error(
            r,
            "body too large or unreadable"@,
        )),
        body matches Some(bytes) ==> match router.lookup(method@, path@) {
            Some((i, ps)) => {
                &&& i < router.handlers().len()
                &&& res matches Dispatch::Invoke(h, req)
                &&& *h == router.handlers()[i as int]
                &&& req.method@ == method@
                &&& req.path@ == path@
                &&& req.query_string@ == query_string@
                &&& req.query_params@ == query_map(encode_utf8(query_string@))
                &&& req.headers == headers
                &&& req.path_params@ == pairs_map(ps)
                &&& req.body@ == bytes@
                &&& req.remote_addr == remote_addr
            },
            None => if router.matched_by_some_method(path@) {
                res matches Dispatch::Respond(r) && is_method_not_allowed(r)
            } else {
                res matches Dispatch::Respond(r) && is_not_found(r)
            },
        },
{
    let body = match body {
        Some(b) => b,
        None => {
            return Dispatch::Respond(Response::internal_error("body too large or unreadable"));
        },
    };
    let query_params = Request::parse_query(query_string.as_str());
    match router.match_route(method, path.as_str()) {
        Ok((handler, path_params)) => {
            let req = Request {
                method: method.as_str().to_owned(),
                path,
                query_string,
                query_params,
                headers,
                path_params,
                body,
                remote_addr,
            };
            Dispatch::Invoke(handler, req)
        },
        Err(RouterError::NotFound) => Dispatch::Respond(Response::not_found()),
        Err(RouterError::MethodNotAllowed) => Dispatch::Respond(Response::method_not_allowed()),
        Err(_) => Dispatch::Respond(Response::internal_error("router error")),
    }
}

/// The response for a handler's outcome: its response, or a 500 carrying
/// the error's text.
pub fn finish_dispatch(outcome: Result<Response, String>) -> (res: Response)
    ensures
        outcome matches Ok(r) ==> res == r,
        outcome matches Err(msg) ==> is_internal_error(res, msg@),
{
    match outcome {
        Ok(r) => r,
        Err(msg) => Response::internal_error(msg.as_str()),
    }
}

/// A server name that the `server` header can carry: none at all, or text
/// that `http` accepts as a header value.
pub open spec fn server_name_ok(name: Seq<char>) -> bool {
    name.len() == 0 || valid_header_value(encode_utf8(name))
}

/// A server name is accepted exactly when it is empty or every byte of it
/// is a tab or at least 32 and not 127: spaces and text beyond ASCII are
/// fine, control characters are not.
pub proof fn law_server_name_accepted(name: Seq<char>)
    ensures
        server_name_ok(name) <==> (name.len() == 0 || forall|i: int|
            0 <= i < encode_utf8(name).len() ==> (#[trigger] encode_utf8(name)[i] == 9 || (32
                <= encode_utf8(name)[i] && encode_utf8(name)[i] != 127))),
{
}

/// Whether `name` can stand in the `server` header (see [`server_name_ok`]);
/// callers that cannot prove it test it first.
pub fn valid_server_name(name: &str) -> (res: bool)
    ensures
        res == server_name_ok(name@),
{
    name.is_empty() || http_header_value_accepts(name)
}

/// The header lines of a response on the wire: its headers in order, then
/// `server: <server_name>` unless the name is empty.
pub fn render_headers(resp: &Response, config: &ServerConfig) -> (res: Vec<(String, Vec<u8>)>)
    requires
        server_name_ok(config.server_name@),
    ensures
        line_views(res@) == header_lines(resp.headers) + if config.server_name@.len() > 0 {
            seq![("server"@, encode_utf8(config.server_name@))]
        } else {
            Seq::<(Seq<char>, Seq<u8>)>::empty()
        },
{
    let mut out = header_map_lines(&resp.headers);
    let ghost before = out@;
    if !config.server_name.as_str().is_empty() {
        out.push(("server".to_owned(), config.server_name.as_str().as_bytes_vec()));
        proof {
            assert(line_views(out@) =~= line_views(before).push(
                ("server"@, encode_utf8(config.server_name@)),
            ));
        }
    } else {
        proof {
            assert(config.server_name@.len() == 0);
        }
    }
    assert(line_views(out@) =~= header_lines(resp.headers) + if config.server_name@.len() > 0 {
        seq![("server"@, encode_utf8(config.server_name@))]
    } else {
        Seq::<(Seq<char>, Seq<u8>)>::empty()
    });
    out
}

/// The text of a request target before its first `?`.
pub open spec fn target_path(target: Seq<char>) -> Seq<char> {
    let b = encode_utf8(target);
    decode_utf8(b.take(first_index_of(b, 0x3f)))
}

/// The text of a request target after its first `?` (empty without one).
pub open spec fn target_query(target: Seq<char>) -> Seq<char> {
    let b = encode_utf8(target);
    let i = first_index_of(b, 0x3f);
    if i < b.len() {
        decode_utf8(b.skip(i + 1))
    } else {
        Seq::empty()
    }
}

proof fn lemma_first_index_bounds(s: Seq<u8>, b: u8)
    ensures
        0 <= first_index_of(s, b) <= s.len(),
        first_index_of(s, b) < s.len() ==> s[first_index_of(s, b)] == b,
        forall|k: int| 0 <= k < first_index_of(s, b) ==> s[k] != b,
    decreases s.len(),
{
    if s.len() > 0 && s[0] != b {
        lemma_first_index_bounds(s.skip(1), b);
        assert forall|k: int| 0 <= k < first_index_of(s, b) implies s[k] != b by {
            if k > 0 {
                assert(s[k] == s.skip(1)[k - 1]);
            }
        }
    }
}

/// Splits a request target at its first `?` into path and query string.
fn split_target(target: &str) -> (res: (String, String))
    ensures
        res.0@ == target_path(target@),
        res.1@ == target_query(target@),
{
    let bytes = target.as_bytes();
    let ghost b = encode_utf8(target@);
    let mut i: usize = 0;
    while i < bytes.len() && bytes[i] != 0x3f
        invariant
            bytes@ == b,
            i <= b.len(),
            forall|k: int| 0 <= k < i ==> b[k] != 0x3f,
        decreases b.len() - i,
    {
        i += 1;
    }
    proof {
        lemma_first_index_bounds(b, 0x3f);
        vstd::utf8::encode_utf8_valid_utf8(target@);
        if i < b.len() {
            assert(first_index_of(b, 0x3f) == i) by {
                if first_index_of(b, 0x3f) < i {
                    assert(b[first_index_of(b, 0x3f)] == 0x3f);
                }
            }
        } else {
            assert(first_index_of(b, 0x3f) == i);
        }
    }
    if i < bytes.len() {
        proof {
            vstd::utf8::is_char_boundary_iff_not_is_continuation_byte(b, i as int);
            vstd::utf8::valid_utf8_split(b, i as int);
            let rest = b.subrange(i as int, b.len() as int);
            assert(rest[0] == 0x3f);
            vstd::utf8::is_char_boundary_start_end_of_seq(rest);
            if rest.len() > 1 {
                vstd::utf8::is_char_boundary_iff_not_is_continuation_byte(rest, 0);
                reveal_with_fuel(vstd::utf8::is_char_boundary, 2);
                assert(vstd::utf8::is_char_boundary(rest, 1));
            } else {
                assert(vstd::utf8::is_char_boundary(rest, 1));
            }
            vstd::utf8::valid_utf8_split(rest, 1);
            assert(rest.subrange(1, rest.len() as int) =~= b.skip(i + 1));
            assert(b.subrange(0, i as int) =~= b.take(i as int));
        }
        let path = lossy_string(&bytes[0..i]);
        let query = lossy_string(&bytes[i + 1..bytes.len()]);
        (path, query)
    } else {
        proof {
            assert(b.take(i as int) =~= b);
            vstd::utf8::encode_utf8_decode_utf8(target@);
        }
        (target.to_owned(), String::new())
    }
}

/// Builds the parts of a request for tests and embedding: the method, the
/// target split at its first `?` into path and query string, no headers, and
/// the body.
pub fn make_test_request(method: &str, target: &str, body: Vec<u8>) -> (res: (
    Method,
    String,
    String,
    HeaderMap,
    Vec<u8>,
))
    requires
        is_method_token(encode_utf8(method@)),
    ensures
        res.0@ == ascii_text(encode_utf8(method@)),
        res.0 is Extension <==> !is_standard_name(res.0@),
        res.1@ == target_path(target@),
        res.2@ == target_query(target@),
        header_lines(res.3) == Seq::<(Seq<char>, Seq<u8>)>::empty(),
        res.4@ == body@,
{
    let (path, qs) = split_target(target);
    let m = match Method::from_bytes(method.as_bytes()) {
        Ok(m) => m,
        Err(_) => {
            proof {
                assert(false);
            }
            Method::GET
        },
    };
    (m, path, qs, header_map_new(), body)
}

} // verus!
