//! The response a handler produces, and its helpers for the common cases.
//!
//! Bytes-level: the body is already serialized; the headers are an
//! `http::HeaderMap`.

use vstd::prelude::*;
use vstd::string::{StrSliceExecFns, StringExecFns};
use vstd::utf8::encode_utf8;
use http::HeaderMap;
use crate::headers::{
    appended, canonical_header_name, header_lines, header_map_append, header_map_new,
    header_map_room, header_value_byte, http_header_name_of, law_append_keeps_order,
    lemma_canonical_is_canonical,
    lemma_lower_token_is_canonical, valid_header_value, values_of,
};

verus! {

// ---------------------------------------------------------------------------
// What `http` and `serde_json` decide
// ---------------------------------------------------------------------------

/// A status code that `http::StatusCode` can hold: three decimal digits.
pub open spec fn valid_status(code: u16) -> bool {
    100 <= code <= 999
}

/// The lower-case hexadecimal digit of `d` (below 16).
pub open spec fn hex_digit(d: u32) -> char {
    if d < 10 {
        (48 + d) as char
    } else {
        (87 + d) as char
    }
}

/// How `serde_json` writes one character inside a string literal: `"` and
/// `\` behind a backslash, the control characters with a short escape
/// (`\b`, `\t`, `\n`, `\f`, `\r`) or as `\u00XX`, any other as it is.
pub open spec fn json_escape(c: char) -> Seq<char> {
    let n = c as u32;
    if c == '"' {
        seq!['\\', '"']
    } else if c == '\\' {
        seq!['\\', '\\']
    } else if n == 8 {
        seq!['\\', 'b']
    } else if n == 9 {
        seq!['\\', 't']
    } else if n == 10 {
        seq!['\\', 'n']
    } else if n == 12 {
        seq!['\\', 'f']
    } else if n == 13 {
        seq!['\\', 'r']
    } else if n < 32 {
        seq!['\\', 'u', '0', '0', hex_digit(n / 16), hex_digit(n % 16)]
    } else {
        seq![c]
    }
}

/// The characters of `s`, each written as `serde_json` writes it in a string.
pub open spec fn json_escaped(s: Seq<char>) -> Seq<char>
    decreases s.len(),
{
    if s.len() == 0 {
        Seq::empty()
    } else {
        json_escaped(s.drop_last()) + json_escape(s.last())
    }
}

/// The JSON string literal that `serde_json` writes for `s`.
pub open spec fn json_string_literal(s: Seq<char>) -> Seq<char> {
    seq!['"'] + json_escaped(s) + seq!['"']
}

/// Calls `http::HeaderValue::from_str` and tells whether it accepted `src`.
/// As the `http` source shows, it accepts exactly the strings whose every
/// byte is a tab or at least 32 and not 127.
#[verifier::external_body]
pub(crate) fn http_header_value_accepts(src: &str) -> (res: bool)
    ensures
        res == valid_header_value(encode_utf8(src@)),
{
    http::HeaderValue::from_str(src).is_ok()
}

/// Calls `http::StatusCode::from_u16` and gives back the code
/// (`StatusCode::as_u16`). As the `http` source shows, it accepts exactly
/// the codes from 100 to 999, unchanged.
#[verifier::external_body]
pub(crate) fn http_status(code: u16) -> (res: Option<u16>)
    ensures
        res is Some <==> valid_status(code),
        res matches Some(c) ==> c == code,
{
    match http::StatusCode::from_u16(code) {
        Ok(status) => Some(status.as_u16()),
        Err(_) => None,
    }
}

/// Whether `a` comes before `b` in the order of `String`: by code points,
/// a prefix first.
pub open spec fn text_before(a: Seq<char>, b: Seq<char>) -> bool
    decreases a.len(),
{
    if a.len() == 0 {
        b.len() > 0
    } else if b.len() == 0 {
        false
    } else if a[0] != b[0] {
        (a[0] as u32) < (b[0] as u32)
    } else {
        text_before(a.skip(1), b.skip(1))
    }
}

/// The JSON text of an object with the two string members `k1: v1` and
/// `k2: v2`, written compactly with its keys in `String` order.
pub open spec fn json_object2_text(k1: Seq<char>, v1: Seq<char>, k2: Seq<char>, v2: Seq<char>) -> Seq<
    char,
> {
    let m1 = json_string_literal(k1) + seq![':'] + json_string_literal(v1);
    let m2 = json_string_literal(k2) + seq![':'] + json_string_literal(v2);
    if text_before(k1, k2) {
        seq!['{'] + m1 + seq![','] + m2 + seq!['}']
    } else {
        seq!['{'] + m2 + seq![','] + m1 + seq!['}']
    }
}

/// Writes with `serde_json` the object of two string members `k1: v1` and
/// `k2: v2` (a `serde_json::Map` of two `Value::String`s, by its `Display`).
/// As the `serde_json` source shows, the map is a `BTreeMap` (no
/// `preserve_order` feature is enabled), so the keys come in `String` order;
/// the text is compact, and each string is written between quotes with its
/// characters escaped as `format_escaped_str` and its `ESCAPE` table do.
#[verifier::external_body]
fn json_object2(k1: &str, v1: &str, k2: &str, v2: &str) -> (res: String)
    requires
        k1@ != k2@,
    ensures
        res@ == json_object2_text(k1@, v1@, k2@, v2@),
{
    let mut members = serde_json::Map::new();
    members.insert(k1.to_owned(), serde_json::Value::String(v1.to_owned()));
    members.insert(k2.to_owned(), serde_json::Value::String(v2.to_owned()));
    serde_json::Value::Object(members).to_string()
}

/// ASCII text made only of header-value characters is a valid header value,
/// and its bytes are its characters.
pub proof fn lemma_header_text(chars: Seq<char>)
    requires
        forall|i: int| 0 <= i < chars.len() ==> 32 <= (#[trigger] chars[i] as u32) < 127,
    ensures
        valid_header_value(encode_utf8(chars)),
{
    assert forall|i: int| 0 <= i < chars.len() implies '\0' <= #[trigger] chars[i] <= '\u{7f}' by {
        assert(32 <= (chars[i] as u32) < 127);
        vstd::utf8::char_u32_cast(chars[i], chars[i] as u32);
        assert(('\u{7f}' as u32) == 127);
    }
    assert(vstd::utf8::is_ascii_chars(chars));
    vstd::utf8::is_ascii_chars_encode_utf8(chars);
    assert forall|i: int| 0 <= i < encode_utf8(chars).len() implies header_value_byte(
        #[trigger] encode_utf8(chars)[i],
    ) by {
        assert(chars[i] as u8 == encode_utf8(chars)[i]);
        assert(32 <= (chars[i] as u32) < 127);
    }
}

// ---------------------------------------------------------------------------
// The response
// ---------------------------------------------------------------------------

/// The `Content-Type` used for JSON bodies.
pub open spec fn json_content_type() -> Seq<char> {
    "application/json; charset=utf-8"@
}

/// The body of a 500 response carrying `msg`: the JSON object
/// `{"detail": msg, "error": "internal server error"}`, keys in order.
pub open spec fn internal_error_body(msg: Seq<char>) -> Seq<u8> {
    encode_utf8(
        seq!['{'] + json_string_literal("detail"@) + seq![':'] + json_string_literal(msg) + seq![',']
            + json_string_literal("error"@) + seq![':'] + json_string_literal(
            "internal server error"@,
        ) + seq!['}'],
    )
}

/// `lines` after adding the header `name: value` as `Response::with_header`
/// does: under the name `http` makes of `name`, after the values that name
/// has, and only if `http` accepts both name and value.
pub open spec fn header_added(lines: Seq<(Seq<char>, Seq<u8>)>, name: Seq<char>, value: Seq<char>) -> Seq<
    (Seq<char>, Seq<u8>),
> {
    match canonical_header_name(encode_utf8(name)) {
        Some(canonical) => if valid_header_value(encode_utf8(value)) {
            appended(lines, canonical, encode_utf8(value))
        } else {
            lines
        },
        None => lines,
    }
}

/// The header lines of a fresh response: its `Content-Type` alone.
pub open spec fn content_type_only(content_type: Seq<char>) -> Seq<(Seq<char>, Seq<u8>)> {
    seq![("content-type"@, encode_utf8(content_type))]
}

/// Whether adding the header `name: value` leaves `lines` within what a
/// header map can take: it adds nothing, or the map has room.
pub open spec fn room_for_header(lines: Seq<(Seq<char>, Seq<u8>)>, name: Seq<char>, value: Seq<char>) -> bool {
    canonical_header_name(encode_utf8(name)) is Some && valid_header_value(encode_utf8(value))
        ==> lines.len() < header_map_room()
}

/// A response: status code, header map and body.
#[derive(Debug)]
pub struct Response {
    pub status: u16,
    pub headers: HeaderMap,
    pub body: Vec<u8>,
}

impl Response {
    /// What `http` can send: a three-digit status and header values it accepts.
    pub open spec fn well_formed(&self) -> bool {
        &&& valid_status(self.status)
        &&& forall|i: int| 0 <= i < header_lines(self.headers).len() ==> valid_header_value(
            #[trigger] header_lines(self.headers)[i].1,
        )
    }

    /// A response with `status`, `body` and the given `Content-Type`.
    pub fn new(status: u16, body: Vec<u8>, content_type: &str) -> (res: Response)
        requires
            valid_status(status),
            valid_header_value(encode_utf8(content_type@)),
        ensures
            res.status == status,
            res.body@ == body@,
            header_lines(res.headers) == content_type_only(content_type@),
            res.well_formed(),
    {
        let accepted = http_header_value_accepts(content_type);
        assert(accepted);
        let mut headers = header_map_new();
        proof {
            reveal_strlit("content-type");
            lemma_lower_token_is_canonical("content-type"@);
        }
        header_map_append(&mut headers, "content-type", content_type);
        proof {
            assert(header_lines(headers) =~= content_type_only(content_type@));
        }
        Response { status, headers, body }
    }

    /// 200 OK with the given `Content-Type`.
    pub fn ok(body: Vec<u8>, content_type: &str) -> (res: Response)
        requires
            valid_header_value(encode_utf8(content_type@)),
        ensures
            res.status == 200,
            res.body@ == body@,
            header_lines(res.headers) == content_type_only(content_type@),
            res.well_formed(),
    {
        Self::new(200, body, content_type)
    }

    /// 200 OK with `application/json; charset=utf-8`.
    pub fn json(body: Vec<u8>) -> (res: Response)
        ensures
            res.status == 200,
            res.body@ == body@,
            header_lines(res.headers) == content_type_only(json_content_type()),
            res.well_formed(),
    {
        proof {
            reveal_strlit("application/json; charset=utf-8");
            lemma_header_text("application/json; charset=utf-8"@);
        }
        Self::ok(body, "application/json; charset=utf-8")
    }

    /// 200 OK with `text/plain; charset=utf-8`.
    pub fn text(body: Vec<u8>) -> (res: Response)
        ensures
            res.status == 200,
            res.body@ == body@,
            header_lines(res.headers) == content_type_only("text/plain; charset=utf-8"@),
            res.well_formed(),
    {
        proof {
            reveal_strlit("text/plain; charset=utf-8");
            lemma_header_text("text/plain; charset=utf-8"@);
        }
        Self::ok(body, "text/plain; charset=utf-8")
    }

    /// 404 with a JSON error body.
    pub fn not_found() -> (res: Response)
        ensures
            res.status == 404,
            res.body@ == encode_utf8("{\"error\":\"not found\"}"@),
            header_lines(res.headers) == content_type_only(json_content_type()),
            res.well_formed(),
    {
        proof {
            reveal_strlit("application/json; charset=utf-8");
            lemma_header_text("application/json; charset=utf-8"@);
        }
        Self::new(
            404,
            "{\"error\":\"not found\"}".as_bytes_vec(),
            "application/json; charset=utf-8",
        )
    }

    /// 405 with a JSON error body.
    pub fn method_not_allowed() -> (res: Response)
        ensures
            res.status == 405,
            res.body@ == encode_utf8("{\"error\":\"method not allowed\"}"@),
            header_lines(res.headers) == content_type_only(json_content_type()),
            res.well_formed(),
    {
        proof {
            reveal_strlit("application/json; charset=utf-8");
            lemma_header_text("application/json; charset=utf-8"@);
        }
        Self::new(
            405,
            "{\"error\":\"method not allowed\"}".as_bytes_vec(),
            "application/json; charset=utf-8",
        )
    }

    /// 500 with the JSON body `{"detail":<msg>,"error":"internal server error"}`
    /// (`serde_json` writes object keys in sorted order).
    pub fn internal_error(msg: &str) -> (res: Response)
        ensures
            res.status == 500,
            res.body@ == internal_error_body(msg@),
            header_lines(res.headers) == content_type_only(json_content_type()),
            res.well_formed(),
    {
        proof {
            reveal_strlit("error");
            reveal_strlit("detail");
            assert("error"@.len() == 5 && "detail"@.len() == 6);
            assert("error"@[0] == 'e' && "detail"@[0] == 'd');
            assert(!text_before("error"@, "detail"@));
            reveal_strlit("application/json; charset=utf-8");
            lemma_header_text("application/json; charset=utf-8"@);
        }
        let text = json_object2("error", "internal server error", "detail", msg);
        proof {
            let e = json_string_literal("error"@);
            let d = json_string_literal("detail"@);
            let i = json_string_literal("internal server error"@);
            let m = json_string_literal(msg@);
            assert(text@ =~= seq!['{'] + d + seq![':'] + m + seq![','] + e + seq![':'] + i + seq!['}']);
        }
        Self::new(500, text.as_str().as_bytes_vec(), "application/json; charset=utf-8")
    }

    /// Appends a header: the value goes after those the header has, under
    /// the canonical (lower-case) name. A name that `http` does not accept
    /// as a header name, or a value it does not accept as a header value,
    /// leaves the response as it was.
    pub fn with_header(self, name: &str, value: &str) -> (res: Response)
        requires
            room_for_header(header_lines(self.headers), name@, value@),
        ensures
            res.status == self.status,
            res.body@ == self.body@,
            header_lines(res.headers) == header_added(header_lines(self.headers), name@, value@),
            self.well_formed() ==> res.well_formed(),
    {
        let canonical = http_header_name_of(name.as_bytes());
        proof {
            if canonical_header_name(encode_utf8(name@)) is Some {
                lemma_canonical_is_canonical(encode_utf8(name@));
            }
        }
        self.with_canonical_header(canonical, value)
    }

    /// Appends `value` under an already canonical header name, if there is
    /// one and `http` accepts the value; otherwise leaves the response as it
    /// was.
    pub fn with_canonical_header(self, canonical: Option<String>, value: &str) -> (res: Response)
        requires
            canonical matches Some(c) ==> canonical_header_name(encode_utf8(c@)) == Some(c@),
            canonical is Some && valid_header_value(encode_utf8(value@)) ==> header_lines(
                self.headers,
            ).len() < header_map_room(),
        ensures
            res.status == self.status,
            res.body@ == self.body@,
            header_lines(res.headers) == match canonical {
                Some(c) => if valid_header_value(encode_utf8(value@)) {
                    appended(header_lines(self.headers), c@, encode_utf8(value@))
                } else {
                    header_lines(self.headers)
                },
                None => header_lines(self.headers),
            },
            self.well_formed() ==> res.well_formed(),
    {
        let accepted = http_header_value_accepts(value);
        let mut res = self;
        match canonical {
            Some(n) => {
                if accepted {
                    let ghost before = header_lines(res.headers);
                    header_map_append(&mut res.headers, n.as_str(), value);
                    proof {
                        lemma_appended_lines(before, n@, encode_utf8(value@));
                    }
                }
            },
            None => {},
        }
        res
    }
}

/// The lines after an append are those before, with the new line among them.
proof fn lemma_appended_lines<V>(ls: Seq<(Seq<char>, V)>, name: Seq<char>, value: V)
    ensures
        forall|i: int| 0 <= i < appended(ls, name, value).len() ==> #[trigger] appended(ls, name, value)[i]
            == (name, value) || ls.contains(appended(ls, name, value)[i]),
{
    let out = appended(ls, name, value);
    let p = crate::headers::last_line_of(ls, name);
    crate::headers::lemma_last_line_of(ls, name);
    assert forall|i: int| 0 <= i < out.len() implies #[trigger] out[i] == (name, value) || ls.contains(out[i]) by {
        if p < 0 {
            if i < ls.len() {
                assert(out[i] == ls[i]);
            }
        } else {
            if 0 <= p + 1 <= ls.len() {
                if i < p + 1 {
                    assert(out[i] == ls[i]);
                } else if i > p + 1 {
                    assert(out[i] == ls[i - 1]);
                } else {
                    assert(out[i] == (name, value));
                }
            }
        }
    }
}

/// Adding a header twice keeps both values, in order: `get_all` of the
/// header gives what it had, then the first value, then the second.
pub proof fn law_with_header_appends(
    lines: Seq<(Seq<char>, Seq<u8>)>,
    name: Seq<char>,
    v1: Seq<char>,
    v2: Seq<char>,
)
    requires
        canonical_header_name(encode_utf8(name)) is Some,
        valid_header_value(encode_utf8(v1)),
        valid_header_value(encode_utf8(v2)),
    ensures
        values_of(
            header_added(header_added(lines, name, v1), name, v2),
            canonical_header_name(encode_utf8(name))->0,
        ) == values_of(lines, canonical_header_name(encode_utf8(name))->0).push(encode_utf8(v1)).push(
            encode_utf8(v2),
        ),
{
    let c = canonical_header_name(encode_utf8(name))->0;
    law_append_keeps_order(lines, c, encode_utf8(v1), c);
    law_append_keeps_order(appended(lines, c, encode_utf8(v1)), c, encode_utf8(v2), c);
}

/// Adding a header leaves the values of every other header as they were.
pub proof fn law_with_header_keeps_others(
    lines: Seq<(Seq<char>, Seq<u8>)>,
    name: Seq<char>,
    value: Seq<char>,
    other: Seq<char>,
)
    requires
        canonical_header_name(encode_utf8(name)) != Some(other),
    ensures
        values_of(header_added(lines, name, value), other) == values_of(lines, other),
{
    match canonical_header_name(encode_utf8(name)) {
        Some(c) => {
            law_append_keeps_order(lines, c, encode_utf8(value), other);
        },
        None => {},
    }
}

} // verus!
