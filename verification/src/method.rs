//! HTTP request methods, as the router keys its tables by them.

use vstd::prelude::*;
use crate::text::{ascii_text, str_eq};

verus! {

/// A character that RFC 9110 allows in a method token (`tchar`).
pub open spec fn is_tchar(b: u8) -> bool {
    ||| b == 0x21 || b == 0x23 || b == 0x24 || b == 0x25 || b == 0x26 || b == 0x27
    ||| b == 0x2a || b == 0x2b || b == 0x2d || b == 0x2e
    ||| b == 0x5e || b == 0x5f || b == 0x60 || b == 0x7c || b == 0x7e
    ||| 0x30 <= b <= 0x39
    ||| 0x41 <= b <= 0x5a
    ||| 0x61 <= b <= 0x7a
}

/// A non-empty string of method characters: what `http` accepts as a method.
pub open spec fn is_method_token(bytes: Seq<u8>) -> bool {
    &&& bytes.len() > 0
    &&& forall|i: int| 0 <= i < bytes.len() ==> is_tchar(#[trigger] bytes[i])
}

/// Calls `http::Method::from_bytes` and gives back the parsed method's name
/// (`Method::as_str`). As the `http` source shows, bytes are accepted exactly
/// when they form a non-empty token of RFC 9110 method characters, and the
/// name is then those bytes, unchanged.
#[verifier::external_body]
fn http_method_name(src: &[u8]) -> (res: Option<String>)
    ensures
        res is Some <==> is_method_token(src@),
        res matches Some(name) ==> name@ == ascii_text(src@),
{
    match http::Method::from_bytes(src) {
        Ok(m) => Some(m.as_str().to_string()),
        Err(_) => None,
    }
}

/// An HTTP request method: one of the methods that `http` knows by name, or
/// an extension method.
#[allow(non_camel_case_types)]
#[derive(Debug)]
pub enum Method {
    OPTIONS,
    GET,
    POST,
    PUT,
    DELETE,
    HEAD,
    TRACE,
    CONNECT,
    PATCH,
    QUERY,
    Extension(String),
}

/// The names of the methods that have a variant of their own.
pub open spec fn is_standard_name(name: Seq<char>) -> bool {
    ||| name == "OPTIONS"@
    ||| name == "GET"@
    ||| name == "POST"@
    ||| name == "PUT"@
    ||| name == "DELETE"@
    ||| name == "HEAD"@
    ||| name == "TRACE"@
    ||| name == "CONNECT"@
    ||| name == "PATCH"@
    ||| name == "QUERY"@
}

/// Bytes that are not a method token.
#[derive(Debug)]
pub struct InvalidMethod;

impl View for Method {
    type V = Seq<char>;

    /// A method is known by its name.
    open spec fn view(&self) -> Seq<char> {
        match self {
            Method::OPTIONS => "OPTIONS"@,
            Method::GET => "GET"@,
            Method::POST => "POST"@,
            Method::PUT => "PUT"@,
            Method::DELETE => "DELETE"@,
            Method::HEAD => "HEAD"@,
            Method::TRACE => "TRACE"@,
            Method::CONNECT => "CONNECT"@,
            Method::PATCH => "PATCH"@,
            Method::QUERY => "QUERY"@,
            Method::Extension(name) => name@,
        }
    }
}

impl Clone for Method {
    fn clone(&self) -> (res: Method)
        ensures
            res@ == self@,
    {
        match self {
            Method::OPTIONS => Method::OPTIONS,
            Method::GET => Method::GET,
            Method::POST => Method::POST,
            Method::PUT => Method::PUT,
            Method::DELETE => Method::DELETE,
            Method::HEAD => Method::HEAD,
            Method::TRACE => Method::TRACE,
            Method::CONNECT => Method::CONNECT,
            Method::PATCH => Method::PATCH,
            Method::QUERY => Method::QUERY,
            Method::Extension(name) => Method::Extension(name.clone()),
        }
    }
}

impl Method {
    /// The method's name, as it is written on the request line.
    pub fn as_str(&self) -> (res: &str)
        ensures
            res@ == self@,
    {
        match self {
            Method::OPTIONS => "OPTIONS",
            Method::GET => "GET",
            Method::POST => "POST",
            Method::PUT => "PUT",
            Method::DELETE => "DELETE",
            Method::HEAD => "HEAD",
            Method::TRACE => "TRACE",
            Method::CONNECT => "CONNECT",
            Method::PATCH => "PATCH",
            Method::QUERY => "QUERY",
            Method::Extension(name) => name.as_str(),
        }
    }

    /// Whether two methods have the same name.
    pub fn same_as(&self, other: &Method) -> (res: bool)
        ensures
            res == (self@ == other@),
    {
        str_eq(self.as_str(), other.as_str())
    }

    /// Parses a method from the bytes of a request line, through
    /// `http::Method::from_bytes`. The standard names become their variant.
    pub fn from_bytes(src: &[u8]) -> (res: Result<Method, InvalidMethod>)
        ensures
            res is Ok <==> is_method_token(src@),
            res matches Ok(m) ==> m@ == ascii_text(src@),
            res matches Ok(m) ==> (m is Extension <==> !is_standard_name(m@)),
    {
        match http_method_name(src) {
            None => Err(InvalidMethod),
            Some(name) => {
                let n = name.as_str();
                let m = if str_eq(n, "OPTIONS") {
                    Method::OPTIONS
                } else if str_eq(n, "GET") {
                    Method::GET
                } else if str_eq(n, "POST") {
                    Method::POST
                } else if str_eq(n, "PUT") {
                    Method::PUT
                } else if str_eq(n, "DELETE") {
                    Method::DELETE
                } else if str_eq(n, "HEAD") {
                    Method::HEAD
                } else if str_eq(n, "TRACE") {
                    Method::TRACE
                } else if str_eq(n, "CONNECT") {
                    Method::CONNECT
                } else if str_eq(n, "PATCH") {
                    Method::PATCH
                } else if str_eq(n, "QUERY") {
                    Method::QUERY
                } else {
                    Method::Extension(name.clone())
                };
                Ok(m)
            },
        }
    }
}

} // verus!
