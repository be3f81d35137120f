//! The parts of a request that the limiter reads.
use http::HeaderMap;
use vstd::prelude::*;

use crate::extractor::ip::IpAddr;
use crate::text::same_text;

verus! {

/// The typed extensions of a request of the `http` crate.
#[verifier::external_type_specification]
#[verifier::external_body]
pub struct ExExtensions(http::Extensions);

/// A request method. `Extension` holds the name of a method that is none of the others.
#[allow(non_camel_case_types)]
#[derive(Debug, PartialEq, Eq)]
pub enum Method {
    OPTIONS,
    GET,
    POST,
    PUT,
    DELETE,
    HEAD,
    TRACE,
    CONNECT,
    PATCH,
    Extension(String),
}

impl Method {
    /// The name of the method.
    pub open spec fn view(&self) -> Seq<char> {
        match self {
            Method::OPTIONS => "OPTIONS"@,
            Method::GET => "GET"@,
            Method::POST => "POST"@,
            Method::PUT => "PUT"@,
            Method::DELETE => "DELETE"@,
            Method::HEAD => "HEAD"@,
            Method::TRACE => "TRACE"@,
            Method::CONNECT => "CONNECT"@,
            Method::PATCH => "PATCH"@,
            Method::Extension(name) => name@,
        }
    }

    /// The name of the method.
    pub fn as_str(&self) -> (name: &str)
        ensures
            name@ == self@,
    {
        match self {
            Method::OPTIONS => "OPTIONS",
            Method::GET => "GET",
            Method::POST => "POST",
            Method::PUT => "PUT",
            Method::DELETE => "DELETE",
            Method::HEAD => "HEAD",
            Method::TRACE => "TRACE",
            Method::CONNECT => "CONNECT",
            Method::PATCH => "PATCH",
            Method::Extension(name) => name.as_str(),
        }
    }

    /// Whether the two methods have the same name.
    pub fn same(&self, other: &Method) -> (r: bool)
        ensures
            r == (self@ == other@),
    {
        same_text(self.as_str(), other.as_str())
    }
}

impl Clone for Method {
    fn clone(&self) -> (r: Self)
        ensures
            r@ == self@,
    {
        match self {
            Method::OPTIONS => Method::OPTIONS,
            Method::GET => Method::GET,
            Method::POST => Method::POST,
            Method::PUT => Method::PUT,
            Method::DELETE => Method::DELETE,
            Method::HEAD => Method::HEAD,
            Method::TRACE => Method::TRACE,
            Method::CONNECT => Method::CONNECT,
            Method::PATCH => Method::PATCH,
            Method::Extension(name) => Method::Extension(name.clone()),
        }
    }
}

/// What the limiter reads of a request.
pub struct Parts {
    pub method: Method,
    pub path: String,
    pub headers: HeaderMap,
    /// Address of the peer, where the server passes it on.
    pub peer: Option<IpAddr>,
    pub extensions: http::Extensions,
}

}
