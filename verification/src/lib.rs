//! A small HTTP/1.1 server library: request parsing, routing, the decisions
//! of the serving loop and response rendering.
use vstd::prelude::*;
use vstd::string::*;

pub mod handlers;
pub mod laws;
pub mod request;
pub mod response;
pub mod router;
pub mod sample;
pub mod server;
pub mod text;

pub use crate::request::{ConnectionError, Headers, Method, Request, RequestError};
pub use crate::response::{IntoResponse, Response, ResponseBody};
pub use crate::router::Router;
pub use crate::server::{detector, dispatch, handler_response, Outcome, ServerError};

use crate::response::{http_date_of, response_text, DATE_LIMIT};
use crate::server::STATUS_OK;

verus! {

/// The handler mounted on `/`: answers every request with the text `HOLA`.
pub fn base_handler(request: Request) -> (body: String)
    ensures
        body@ == "HOLA"@,
{
    String::from_str("HOLA")
}

/// A handler whose body is itself a whole rendered response: status 200 with
/// the body `HELLOOOO`, dated `unix_secs` seconds after the Unix epoch.
pub fn other_handler(request: Request, unix_secs: u64) -> (r: Response)
    requires
        unix_secs < DATE_LIMIT,
    ensures
        r.spec_code() == STATUS_OK,
        r.spec_body() == response_text(STATUS_OK, http_date_of(unix_secs), "HELLOOOO"@),
{
    let rsp = Response::new(STATUS_OK, String::from_str("HELLOOOO"));
    Response::new(STATUS_OK, rsp.render_at(unix_secs))
}

} // verus!
