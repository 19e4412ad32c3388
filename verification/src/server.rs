//! The decisions of the serving loop: what answers a request, and the errors
//! the server reports.
use vstd::prelude::*;
use vstd::string::*;

use crate::request::{Request, RequestError};
use crate::response::{Response, ResponseBody};
use crate::router::Router;

verus! {

/// The status of a request that was served by a handler.
pub const STATUS_OK: u16 = 200;

/// The status of a request for a path no handler is mounted on.
pub const STATUS_NOT_FOUND: u16 = 404;

/// The status of a request that could not be read.
pub const STATUS_INTERNAL_SERVER_ERROR: u16 = 500;

/// An error of the server; `inner` is its message.
#[derive(Debug)]
pub struct ServerError {
    pub inner: String,
}

impl ServerError {
    /// The error for a failed I/O operation whose error reads `error`.
    pub fn new(error: &str) -> (e: Self)
        ensures
            e.inner@ == "Error creating server :"@ + error@,
    {
        let mut inner = String::from_str("Error creating server :");
        inner.append(error);
        ServerError { inner }
    }
}

/// The error for a failed write of a response, whose I/O error reads `error`.
pub fn detector(error: &str) -> (e: ServerError)
    ensures
        e.inner@ == "vino de por aqui? "@ + error@,
{
    let mut inner = String::from_str("vino de por aqui? ");
    inner.append(error);
    ServerError { inner }
}

/// The body of the answer for a path no handler is mounted on.
pub open spec fn not_found_text(path: Seq<char>) -> Seq<char> {
    "resource "@ + path + " not found"@
}

/// What to do with a request read from a connection.
pub enum Outcome<'a, H> {
    /// Run this handler on this request; its body answers with status 200.
    Call(&'a H, Request),
    /// Send this response as it is.
    Reply(Response),
}

/// Decides how a request is answered: a request that could not be read gets
/// status 500 with the error's message; a request for a path with a handler
/// goes to that handler; any other gets status 404, `resource <path> not found`.
pub fn dispatch<'a, H>(router: &'a Router<H>, request: Result<Request, RequestError>) -> (out: Outcome<'a, H>)
    ensures
        request matches Err(e) ==> (out matches Outcome::Reply(r) && r.spec_code()
            == STATUS_INTERNAL_SERVER_ERROR && r.spec_body() == e.inner@),
        request matches Ok(req) ==> (router@.contains_key(req.path@) ==> (out matches Outcome::Call(
            h,
            r,
        ) && *h == router@[req.path@] && r == req)),
        request matches Ok(req) ==> (!router@.contains_key(req.path@) ==> (out matches Outcome::Reply(
            r,
        ) && r.spec_code() == STATUS_NOT_FOUND && r.spec_body() == not_found_text(req.path@))),
{
    match request {
        Err(err) => Outcome::Reply(Response::new(STATUS_INTERNAL_SERVER_ERROR, err.inner)),
        Ok(req) => match router.route(&req) {
            Some(handler) => Outcome::Call(handler, req),
            None => {
                let mut body = String::from_str("resource ");
                body.append(req.path.as_str());
                body.append(" not found");
                Outcome::Reply(Response::new(STATUS_NOT_FOUND, body))
            },
        },
    }
}

/// The answer built from the body a handler produced: status 200.
pub fn handler_response(body: ResponseBody) -> (r: Response)
    ensures
        r.spec_code() == STATUS_OK,
        r.spec_body() == body.content@,
{
    Response::with_body(STATUS_OK, body)
}

} // verus!
