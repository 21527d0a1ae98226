//! rustapi: the request-handling core of a Rust HTTP engine for Python web
//! applications, with its routing, query parsing and response building
//! specified and proved with Verus.

pub mod text;
pub mod params;
pub mod headers;
pub mod method;
pub mod request;
pub mod response;
pub mod router;
pub mod server;
pub mod bridge;

pub use method::Method;
pub use params::Params;
pub use request::Request;
pub use response::Response;
pub use router::{MatchResult, Router, RouterError};
pub use server::{Server, ServerConfig};
