//! The error taxonomy: routing errors are request-scoped and map to 4xx
//! status codes; build and script errors map to 500 and never replace a
//! tenant's live snapshot.

use vstd::prelude::*;
use crate::method::HttpMethod;

verus! {

/// Everything that can go wrong while building a route table, resolving a
/// tenant, matching a route, or decoding a script handler's response.
#[derive(Debug, Clone)]
pub enum AppError {
    /// No tenant is registered under the requested hostname.
    HostNotFound(String),
    /// No pattern in the route table matches the request path.
    RoutePathNotFound(String),
    /// A pattern matches the path, but no handler is registered for the verb.
    RouteMethodNotAllowed(HttpMethod),
    /// A routing descriptor entry names a verb outside the supported set.
    UnsupportedMethod(String),
    /// A path pattern is malformed (no leading slash, or an inner wildcard).
    InvalidPattern(String),
    /// Two descriptor patterns capture exactly the same paths.
    DuplicateRoute(String),
    /// The exported handler object has no property under the resolved name.
    HandlerNotFound(String),
    /// The scripting engine failed to evaluate or run a handler.
    ScriptError(String),
    /// A handler's return value could not be decoded into a response.
    InvalidResponse(String),
}

/// The mathematical shape of an `AppError`: each text payload as a character
/// sequence.
pub enum AppErrorView {
    HostNotFound(Seq<char>),
    RoutePathNotFound(Seq<char>),
    RouteMethodNotAllowed(HttpMethod),
    UnsupportedMethod(Seq<char>),
    InvalidPattern(Seq<char>),
    DuplicateRoute(Seq<char>),
    HandlerNotFound(Seq<char>),
    ScriptError(Seq<char>),
    InvalidResponse(Seq<char>),
}

impl View for AppError {
    type V = AppErrorView;

    open spec fn view(&self) -> AppErrorView {
        match self {
            AppError::HostNotFound(s) => AppErrorView::HostNotFound(s@),
            AppError::RoutePathNotFound(s) => AppErrorView::RoutePathNotFound(s@),
            AppError::RouteMethodNotAllowed(m) => AppErrorView::RouteMethodNotAllowed(*m),
            AppError::UnsupportedMethod(s) => AppErrorView::UnsupportedMethod(s@),
            AppError::InvalidPattern(s) => AppErrorView::InvalidPattern(s@),
            AppError::DuplicateRoute(s) => AppErrorView::DuplicateRoute(s@),
            AppError::HandlerNotFound(s) => AppErrorView::HandlerNotFound(s@),
            AppError::ScriptError(s) => AppErrorView::ScriptError(s@),
            AppError::InvalidResponse(s) => AppErrorView::InvalidResponse(s@),
        }
    }
}

/// The HTTP status an error maps to: routing misses are 404, a verb without a
/// handler is 405, and every internal, build or script failure is 500.
pub open spec fn status_of(e: AppErrorView) -> u16 {
    match e {
        AppErrorView::HostNotFound(_) => 404,
        AppErrorView::RoutePathNotFound(_) => 404,
        AppErrorView::RouteMethodNotAllowed(_) => 405,
        _ => 500,
    }
}

impl AppError {
    /// The status code the transport layer must answer with for this error.
    pub fn status_code(&self) -> (code: u16)
        ensures
            code == status_of(self@),
    {
        match self {
            AppError::HostNotFound(_) => 404,
            AppError::RoutePathNotFound(_) => 404,
            AppError::RouteMethodNotAllowed(_) => 405,
            AppError::UnsupportedMethod(_) => 500,
            AppError::InvalidPattern(_) => 500,
            AppError::DuplicateRoute(_) => 500,
            AppError::HandlerNotFound(_) => 500,
            AppError::ScriptError(_) => 500,
            AppError::InvalidResponse(_) => 500,
        }
    }
}

impl AppError {
    /// The human-readable message the transport layer answers with.
    pub fn message(&self) -> (r: String)
        ensures
            match self@ {
                AppErrorView::HostNotFound(h) => r@ == "Host not found: "@ + h,
                AppErrorView::RoutePathNotFound(p) => r@ == "Route path not found: "@ + p,
                AppErrorView::RouteMethodNotAllowed(m) => r@ == "Route method not found: "@
                    + crate::method::canonical_of(m),
                AppErrorView::UnsupportedMethod(t) => r@ == "Unsupported method: "@ + t,
                AppErrorView::InvalidPattern(p) => r@ == "Invalid pattern: "@ + p,
                AppErrorView::DuplicateRoute(p) => r@ == "Duplicate route: "@ + p,
                AppErrorView::HandlerNotFound(h) => r@ == "Handler not found: "@ + h,
                AppErrorView::ScriptError(m) => r@ == "Script error: "@ + m,
                AppErrorView::InvalidResponse(f) => r@ == "Invalid response: "@ + f,
            },
    {
        match self {
            AppError::HostNotFound(h) => {
                let mut r = "Host not found: ".to_owned();
                r.append(h.as_str());
                r
            },
            AppError::RoutePathNotFound(p) => {
                let mut r = "Route path not found: ".to_owned();
                r.append(p.as_str());
                r
            },
            AppError::RouteMethodNotAllowed(m) => {
                let mut r = "Route method not found: ".to_owned();
                r.append(m.as_token());
                r
            },
            AppError::UnsupportedMethod(t) => {
                let mut r = "Unsupported method: ".to_owned();
                r.append(t.as_str());
                r
            },
            AppError::InvalidPattern(p) => {
                let mut r = "Invalid pattern: ".to_owned();
                r.append(p.as_str());
                r
            },
            AppError::DuplicateRoute(p) => {
                let mut r = "Duplicate route: ".to_owned();
                r.append(p.as_str());
                r
            },
            AppError::HandlerNotFound(h) => {
                let mut r = "Handler not found: ".to_owned();
                r.append(h.as_str());
                r
            },
            AppError::ScriptError(m) => {
                let mut r = "Script error: ".to_owned();
                r.append(m.as_str());
                r
            },
            AppError::InvalidResponse(f) => {
                let mut r = "Invalid response: ".to_owned();
                r.append(f.as_str());
                r
            },
        }
    }
}

} // verus!
