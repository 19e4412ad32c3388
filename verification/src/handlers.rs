//! Ready-made handlers.
use vstd::prelude::*;
use vstd::string::*;

use crate::response::Response;
use crate::server::STATUS_OK;

verus! {

/// A handler for `GET`: answers status 200 with the body `a`, whatever the
/// handler it is given.
pub fn get<H>(handler: H) -> (r: Response)
    ensures
        r.spec_code() == STATUS_OK,
        r.spec_body() == "a"@,
{
    Response::new(STATUS_OK, String::from_str("a"))
}

} // verus!
