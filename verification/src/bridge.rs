//! The plain side of the Python bindings: the request a Python handler
//! sees, the response it may build, and the application that registers its
//! routes. The binding layer wraps these types and adds what only Python can
//! do (calling handlers, `json.dumps`, `json.loads`).

use vstd::prelude::*;
use vstd::string::{StrSliceExecFns, StringExecFns};
use vstd::utf8::{decode_utf8, encode_utf8, valid_utf8};
use crate::method::{is_method_token, Method};
use crate::params::Params;
use crate::request::Request;
use crate::headers::{
    canonical_header_name, law_append_keeps_order, values_of,
    header_lines, header_map_lines, header_map_room, lemma_appended_len, HEADER_MAP_ROOM, line_views, valid_header_value,
};
use crate::response::{
    content_type_only, header_added, http_header_value_accepts, http_status, json_content_type, valid_status, Response,
};
use crate::router::{
    added, law_accepted_route_keeps_handler, matchit_insert_error, within_param_limit, Router,
    RouterError,
};
use crate::server::ServerConfig;
use crate::text::{all_ascii, ascii_text, lemma_ascii_encoding, lossy_string, string_from_utf8};

verus! {

// ---------------------------------------------------------------------------
// Requests as Python sees them
// ---------------------------------------------------------------------------

/// A byte that a header value may hold to be read as text: visible ASCII
/// or a tab.
pub open spec fn visible_ascii(b: u8) -> bool {
    (b >= 32 && b < 127) || b == 9
}

pub open spec fn all_visible_ascii(bytes: Seq<u8>) -> bool {
    forall|i: int| 0 <= i < bytes.len() ==> visible_ascii(#[trigger] bytes[i])
}

/// The text of a header value, when every byte is visible ASCII (what
/// `http::HeaderValue::to_str` accepts).
fn header_text(value: &[u8]) -> (res: Option<String>)
    ensures
        res is Some <==> all_visible_ascii(value@),
        res matches Some(t) ==> t@ == ascii_text(value@),
{
    let mut i: usize = 0;
    while i < value.len()
        invariant
            i <= value@.len(),
            forall|k: int| 0 <= k < i ==> visible_ascii(#[trigger] value@[k]),
        decreases value@.len() - i,
    {
        let b = value[i];
        if !((b >= 32 && b < 127) || b == 9) {
            return None;
        }
        i += 1;
    }
    proof {
        assert(all_ascii(value@)) by {
            assert forall|k: int| 0 <= k < value@.len() implies value@[k] < 128 by {
                assert(visible_ascii(value@[k]));
            }
        }
        lemma_ascii_encoding(value@);
    }
    Some(lossy_string(value))
}

/// The text headers of a header list: each line whose value reads as text,
/// a later line replacing an earlier one of the same name.
pub open spec fn text_headers(hs: Seq<(Seq<char>, Seq<u8>)>) -> Map<Seq<char>, Seq<char>>
    decreases hs.len(),
{
    if hs.len() == 0 {
        Map::empty()
    } else if all_visible_ascii(hs.last().1) {
        text_headers(hs.drop_last()).insert(hs.last().0, ascii_text(hs.last().1))
    } else {
        text_headers(hs.drop_last())
    }
}

/// A header line whose value is made of tabs and the visible ASCII bytes 32
/// to 126 (space included) is read as text: its name then has that value,
/// whatever earlier lines gave it.
pub proof fn law_text_header_kept(hs: Seq<(Seq<char>, Seq<u8>)>, name: Seq<char>, value: Seq<u8>)
    requires
        forall|i: int| 0 <= i < value.len() ==> (#[trigger] value[i] == 9 || (32 <= value[i] && value[i] < 127)),
    ensures
        text_headers(hs.push((name, value))).contains_key(name),
        text_headers(hs.push((name, value)))[name] == ascii_text(value),
{
    assert(hs.push((name, value)).drop_last() =~= hs);
    assert(all_visible_ascii(value));
}

/// A header line whose value holds a byte outside tab and 32 to 126 is not
/// read as text: it changes nothing.
pub proof fn law_non_text_header_skipped(hs: Seq<(Seq<char>, Seq<u8>)>, name: Seq<char>, value: Seq<u8>, i: int)
    requires
        0 <= i < value.len(),
        !(value[i] == 9 || (32 <= value[i] && value[i] < 127)),
    ensures
        text_headers(hs.push((name, value))) == text_headers(hs),
{
    assert(hs.push((name, value)).drop_last() =~= hs);
    assert(!visible_ascii(value[i]));
}

/// The request handed to a Python handler, built in one step from the
/// engine's request.
#[derive(Debug)]
pub struct PyRequest {
    pub method: String,
    pub path: String,
    pub query_string: String,
    pub query_params: Params,
    pub path_params: Params,
    /// The headers whose values read as text.
    pub headers: Params,
    pub body: Vec<u8>,
    pub remote_addr: Option<String>,
}

impl PyRequest {
    /// Builds the Python-side request. Header lines whose value is not
    /// visible ASCII are left out; of two lines with one name the later wins.
    pub fn from_engine(req: Request) -> (res: PyRequest)
        ensures
            res.method == req.method,
            res.path == req.path,
            res.query_string == req.query_string,
            res.query_params == req.query_params,
            res.path_params == req.path_params,
            res.headers@ == text_headers(header_lines(req.headers)),
            res.body@ == req.body@,
            res.remote_addr == req.remote_addr,
    {
        let lines = header_map_lines(&req.headers);
        let ghost views = line_views(lines@);
        let mut headers = Params::new();
        let mut i: usize = 0;
        while i < lines.len()
            invariant
                i <= lines@.len(),
                views == line_views(lines@),
                headers@ == text_headers(views.take(i as int)),
            decreases lines@.len() - i,
        {
            let line = &lines[i];
            proof {
                assert(views.take(i + 1).drop_last() =~= views.take(i as int));
                assert(views[i as int] == (line.0@, line.1@));
            }
            match header_text(line.1.as_slice()) {
                Some(text) => {
                    headers.insert(line.0.clone(), text);
                },
                None => {},
            }
            i += 1;
        }
        proof {
            assert(views.take(i as int) =~= views);
        }
        PyRequest {
            method: req.method,
            path: req.path,
            query_string: req.query_string,
            query_params: req.query_params,
            path_params: req.path_params,
            headers,
            body: req.body,
            remote_addr: req.remote_addr,
        }
    }

    pub fn method(&self) -> (res: &str)
        ensures
            res@ == self.method@,
    {
        self.method.as_str()
    }

    pub fn path(&self) -> (res: &str)
        ensures
            res@ == self.path@,
    {
        self.path.as_str()
    }

    pub fn query_string(&self) -> (res: &str)
        ensures
            res@ == self.query_string@,
    {
        self.query_string.as_str()
    }

    pub fn query_params(&self) -> (res: &Params)
        ensures
            *res == self.query_params,
    {
        &self.query_params
    }

    pub fn path_params(&self) -> (res: &Params)
        ensures
            *res == self.path_params,
    {
        &self.path_params
    }

    pub fn headers(&self) -> (res: &Params)
        ensures
            *res == self.headers,
    {
        &self.headers
    }

    pub fn body(&self) -> (res: &[u8])
        ensures
            res@ == self.body@,
    {
        self.body.as_slice()
    }

    pub fn remote_addr(&self) -> (res: Option<&str>)
        ensures
            match self.remote_addr {
                Some(a) => res matches Some(r) && r@ == a@,
                None => res is None,
            },
    {
        match &self.remote_addr {
            Some(a) => Some(a.as_str()),
            None => None,
        }
    }

    /// The body read as UTF-8 text; an error when it is not valid UTF-8.
    pub fn text(&self) -> (res: Result<String, std::string::FromUtf8Error>)
        ensures
            res is Ok <==> valid_utf8(self.body@),
            res matches Ok(s) ==> s@ == decode_utf8(self.body@),
    {
        let copy = self.body.clone();
        assert(copy@ == self.body@);
        string_from_utf8(copy)
    }
}

// ---------------------------------------------------------------------------
// Responses built in Python
// ---------------------------------------------------------------------------

/// `lines` after each entry has been added in turn, as
/// `Response::with_header` adds it.
pub open spec fn apply_headers(lines: Seq<(Seq<char>, Seq<u8>)>, entries: Seq<(String, String)>) -> Seq<
    (Seq<char>, Seq<u8>),
>
    decreases entries.len(),
{
    if entries.len() == 0 {
        lines
    } else {
        header_added(apply_headers(lines, entries.drop_last()), entries.last().0@, entries.last().1@)
    }
}

/// Every header a Python response gives, whose name `http` accepts and
/// whose value is a valid header value, is sent: its value is among the
/// values of its canonical name.
pub proof fn law_every_valid_header_is_sent(
    lines: Seq<(Seq<char>, Seq<u8>)>,
    entries: Seq<(String, String)>,
    i: int,
)
    requires
        0 <= i < entries.len(),
        canonical_header_name(encode_utf8(entries[i].0@)) is Some,
        valid_header_value(encode_utf8(entries[i].1@)),
    ensures
        values_of(
            apply_headers(lines, entries),
            canonical_header_name(encode_utf8(entries[i].0@))->0,
        ).contains(encode_utf8(entries[i].1@)),
    decreases entries.len(),
{
    let c = canonical_header_name(encode_utf8(entries[i].0@))->0;
    let v = encode_utf8(entries[i].1@);
    let last = entries.len() - 1;
    let prefix = entries.drop_last();
    let prev = apply_headers(lines, prefix);
    if i == last {
        law_append_keeps_order(prev, c, v, c);
        assert(values_of(apply_headers(lines, entries), c).last() == v);
        assert(values_of(apply_headers(lines, entries), c)[values_of(prev, c).len() as int] == v);
    } else {
        assert(prefix[i] == entries[i]);
        law_every_valid_header_is_sent(lines, prefix, i);
        let w = choose|j: int| 0 <= j < values_of(prev, c).len() && values_of(prev, c)[j] == v;
        match canonical_header_name(encode_utf8(entries[last].0@)) {
            Some(c2) => {
                if valid_header_value(encode_utf8(entries[last].1@)) {
                    law_append_keeps_order(prev, c2, encode_utf8(entries[last].1@), c);
                    assert(values_of(apply_headers(lines, entries), c)[w] == v);
                }
            },
            None => {},
        }
    }
}

/// Why a response built in Python cannot be sent.
#[derive(Debug)]
pub enum ToEngineError {
    /// The content type is not a valid header value.
    InvalidContentType,
    /// There are more headers than a header map can take.
    TooManyHeaders,
}

/// A response built by a Python handler: status, extra headers, body and
/// content type.
#[derive(Debug)]
pub struct PyResponse {
    pub status_code: u16,
    pub headers: Params,
    pub body: Vec<u8>,
    pub content_type: String,
}

impl PyResponse {
    /// A response with the given parts; no headers stands for none at all.
    pub fn new(body: Vec<u8>, status_code: u16, content_type: &str, headers: Option<Params>) -> (res:
        PyResponse)
        ensures
            res.status_code == status_code,
            res.body@ == body@,
            res.content_type@ == content_type@,
            match headers {
                Some(h) => res.headers == h,
                None => res.headers@ == Map::<Seq<char>, Seq<char>>::empty(),
            },
    {
        let headers = match headers {
            Some(h) => h,
            None => Params::new(),
        };
        PyResponse { status_code, headers, body, content_type: content_type.to_owned() }
    }

    /// A JSON response from already serialized JSON text.
    pub fn json_text(json: String, status_code: u16, headers: Option<Params>) -> (res: PyResponse)
        ensures
            res.status_code == status_code,
            res.body@ == encode_utf8(json@),
            res.content_type@ == json_content_type(),
            match headers {
                Some(h) => res.headers == h,
                None => res.headers@ == Map::<Seq<char>, Seq<char>>::empty(),
            },
    {
        let headers = match headers {
            Some(h) => h,
            None => Params::new(),
        };
        PyResponse {
            status_code,
            headers,
            body: json.as_str().as_bytes_vec(),
            content_type: "application/json; charset=utf-8".to_owned(),
        }
    }

    /// A plain-text response.
    pub fn text(text: &str, status_code: u16, headers: Option<Params>) -> (res: PyResponse)
        ensures
            res.status_code == status_code,
            res.body@ == encode_utf8(text@),
            res.content_type@ == "text/plain; charset=utf-8"@,
            match headers {
                Some(h) => res.headers == h,
                None => res.headers@ == Map::<Seq<char>, Seq<char>>::empty(),
            },
    {
        let headers = match headers {
            Some(h) => h,
            None => Params::new(),
        };
        PyResponse {
            status_code,
            headers,
            body: text.as_bytes_vec(),
            content_type: "text/plain; charset=utf-8".to_owned(),
        }
    }

    pub fn status_code(&self) -> (res: u16)
        ensures
            res == self.status_code,
    {
        self.status_code
    }

    pub fn body(&self) -> (res: &[u8])
        ensures
            res@ == self.body@,
    {
        self.body.as_slice()
    }

    pub fn content_type(&self) -> (res: &str)
        ensures
            res@ == self.content_type@,
    {
        self.content_type.as_str()
    }

    pub fn headers(&self) -> (res: &Params)
        ensures
            *res == self.headers,
    {
        &self.headers
    }

    /// The engine response for this one: a status `http` cannot hold becomes
    /// 500; the content type comes first, then each header is appended in
    /// turn (those that `http` refuses are dropped). A content type that
    /// `http` does not accept as a header value, or more headers than a
    /// header map can take, is an error.
    pub fn to_engine(&self) -> (res: Result<Response, ToEngineError>)
        ensures
            !valid_header_value(encode_utf8(self.content_type@)) <==> res matches Err(
                ToEngineError::InvalidContentType,
            ),
            valid_header_value(encode_utf8(self.content_type@)) ==> (res matches Err(
                ToEngineError::TooManyHeaders,
            ) <==> self.headers.entries_view().len() + 1 >= header_map_room()),
            res matches Ok(r) ==> {
                &&& r.status == if valid_status(self.status_code) {
                    self.status_code
                } else {
                    500
                }
                &&& r.body@ == self.body@
                &&& header_lines(r.headers) == apply_headers(
                    content_type_only(self.content_type@),
                    self.headers.entries_view(),
                )
                &&& r.well_formed()
            },
    {
        if !http_header_value_accepts(self.content_type.as_str()) {
            return Err(ToEngineError::InvalidContentType);
        }
        if self.headers.entries().len() >= HEADER_MAP_ROOM - 1 {
            return Err(ToEngineError::TooManyHeaders);
        }
        Ok(self.engine_response())
    }

    /// The engine response, once the content type and the number of headers
    /// are known to be acceptable.
    fn engine_response(&self) -> (res: Response)
        requires
            valid_header_value(encode_utf8(self.content_type@)),
            self.headers.entries_view().len() + 1 < header_map_room(),
        ensures
            res.status == if valid_status(self.status_code) {
                self.status_code
            } else {
                500
            },
            res.body@ == self.body@,
            header_lines(res.headers) == apply_headers(
                content_type_only(self.content_type@),
                self.headers.entries_view(),
            ),
            res.well_formed(),
    {
        let status = match http_status(self.status_code) {
            Some(code) => code,
            None => 500,
        };
        let body = self.body.clone();
        assert(body@ == self.body@);
        let mut resp = Response::new(status, body, self.content_type.as_str());
        let entries = self.headers.entries();
        let mut i: usize = 0;
        while i < entries.len()
            invariant
                i <= entries@.len(),
                entries@ == self.headers.entries_view(),
                entries@.len() + 1 < header_map_room(),
                resp.status == status,
                resp.body@ == self.body@,
                resp.well_formed(),
                header_lines(resp.headers).len() <= i + 1,
                header_lines(resp.headers) == apply_headers(
                    content_type_only(self.content_type@),
                    entries@.take(i as int),
                ),
            decreases entries@.len() - i,
        {
            proof {
                assert(entries@.take(i + 1).drop_last() =~= entries@.take(i as int));
            }
            let ghost before = header_lines(resp.headers);
            resp = resp.with_header(entries[i].0.as_str(), entries[i].1.as_str());
            proof {
                match crate::headers::canonical_header_name(encode_utf8(entries@[i as int].0@)) {
                    Some(c) => {
                        lemma_appended_len(before, c, encode_utf8(entries@[i as int].1@));
                    },
                    None => {},
                }
            }
            i += 1;
        }
        proof {
            assert(entries@.take(i as int) =~= entries@);
        }
        resp
    }
}

// ---------------------------------------------------------------------------
// The application
// ---------------------------------------------------------------------------

/// Why a route could not be registered.
#[derive(Debug)]
pub enum RegisterError {
    /// The method is not a valid HTTP method.
    BadMethod,
    /// The router refused the route.
    Route(RouterError),
}

/// How `PyApp::register` changes an application and what it answers: the
/// configuration stays; a method that is not a valid HTTP method gives
/// `BadMethod` and changes nothing; otherwise the route is added as
/// `Router::add` adds it, its refusal wrapped in `Route`.
pub open spec fn registered<H>(
    before: PyApp<H>,
    after: PyApp<H>,
    method: Seq<char>,
    path: Seq<char>,
    handler: H,
    res: Result<(), RegisterError>,
) -> bool {
    &&& after.config_view() == before.config_view()
    &&& !is_method_token(encode_utf8(method)) ==> {
        &&& res matches Err(RegisterError::BadMethod)
        &&& after.router_view() == before.router_view()
    }
    &&& is_method_token(encode_utf8(method)) ==> {
        let m = ascii_text(encode_utf8(method));
        &&& res matches Ok(()) ==> added(before.router_view(), after.router_view(), m, path, handler, Ok(()))
        &&& res matches Err(RegisterError::Route(e)) ==> added(
            before.router_view(),
            after.router_view(),
            m,
            path,
            handler,
            Err(e),
        )
        &&& !(res matches Err(RegisterError::BadMethod))
    }
}

/// A route with a valid method, never registered with success under it and
/// accepted by the method's tree, is registered: the answer is success, the
/// count of routes grows by one, and the handler given is the one the new
/// route leads to.
pub proof fn law_register_new_route<H>(
    a0: PyApp<H>,
    a1: PyApp<H>,
    method: Seq<char>,
    path: Seq<char>,
    h: H,
    res: Result<(), RegisterError>,
)
    requires
        registered(a0, a1, method, path, h, res),
        is_method_token(encode_utf8(method)),
        !a0.router_view().registrations().contains((ascii_text(encode_utf8(method)), path)),
        matchit_insert_error(a0.router_view().table_or_empty(ascii_text(encode_utf8(method))), path)
            is None,
    ensures
        res is Ok,
        a1.router_view().registrations().len() == a0.router_view().registrations().len() + 1,
        a1.router_view().tables().contains_key(ascii_text(encode_utf8(method))),
        a1.router_view().handlers()[a1.router_view().tables()[ascii_text(
            encode_utf8(method),
        )].last().1 as int] == h,
{
    let m = ascii_text(encode_utf8(method));
    match res {
        Ok(()) => {
            law_accepted_route_keeps_handler(a0.router_view(), a1.router_view(), m, path, h);
        },
        Err(RegisterError::Route(e)) => {
            assert(added(a0.router_view(), a1.router_view(), m, path, h, Err(e)));
        },
        Err(RegisterError::BadMethod) => {},
    }
}

/// An application: its routes and its server configuration.
pub struct PyApp<H> {
    router: Router<H>,
    config: ServerConfig,
}

impl<H> PyApp<H> {
    pub closed spec fn router_view(self) -> Router<H> {
        self.router
    }

    pub closed spec fn config_view(self) -> ServerConfig {
        self.config
    }

    /// An application with no routes and the default configuration but for
    /// the server name.
    pub fn new(server_name: String) -> (res: PyApp<H>)
        ensures
            res.router_view().registrations().len() == 0,
            res.router_view().tables() == Map::<Seq<char>, Seq<(Seq<char>, usize)>>::empty(),
            res.config_view().server_name == server_name,
            res.config_view().host@ == "127.0.0.1"@,
            res.config_view().port == 8080,
            res.config_view().max_body_size == 10 * 1024 * 1024,
            !res.config_view().request_logging,
    {
        let defaults = ServerConfig::default();
        PyApp {
            router: Router::new(),
            config: ServerConfig {
                host: defaults.host,
                port: defaults.port,
                max_body_size: defaults.max_body_size,
                server_name,
                request_logging: defaults.request_logging,
            },
        }
    }

    /// Registers `handler` for (`method`, `path`). A method that is not a
    /// valid HTTP method is refused and changes nothing; otherwise the route
    /// is added as `Router::add` adds it.
    pub fn register(&mut self, method: &str, path: &str, handler: H) -> (res: Result<(), RegisterError>)
        requires
            within_param_limit(path@),
        ensures
            registered(*old(self), *final(self), method@, path@, handler, res),
    {
        let m = match Method::from_bytes(method.as_bytes()) {
            Ok(m) => m,
            Err(_) => {
                return Err(RegisterError::BadMethod);
            },
        };
        match self.router.add(m, path, handler) {
            Ok(()) => Ok(()),
            Err(e) => Err(RegisterError::Route(e)),
        }
    }

    /// The number of registered routes.
    pub fn route_count(&self) -> (res: usize)
        ensures
            res == self.router_view().registrations().len(),
    {
        self.router.len()
    }

    /// The configuration to run with: this application's, with the host and
    /// the port replaced where given.
    pub fn run_config(&self, host: Option<&str>, port: Option<u16>) -> (res: ServerConfig)
        ensures
            res.host@ == match host {
                Some(h) => h@,
                None => self.config_view().host@,
            },
            res.port == match port {
                Some(p) => p,
                None => self.config_view().port,
            },
            res.max_body_size == self.config_view().max_body_size,
            res.server_name@ == self.config_view().server_name@,
            res.request_logging == self.config_view().request_logging,
    {
        let mut config = self.config.clone();
        match host {
            Some(h) => {
                config.host = h.to_owned();
            },
            None => {},
        }
        match port {
            Some(p) => {
                config.port = p;
            },
            None => {},
        }
        config
    }

    /// Hands the routes over to a server, leaving this application with none.
    pub fn take_router(&mut self) -> (res: Router<H>)
        ensures
            res == old(self).router_view(),
            final(self).router_view().registrations().len() == 0,
            final(self).router_view().tables() == Map::<Seq<char>, Seq<(Seq<char>, usize)>>::empty(),
            final(self).config_view() == old(self).config_view(),
    {
        let mut router = Router::new();
        std::mem::swap(&mut router, &mut self.router);
        router
    }
}

} // verus!
