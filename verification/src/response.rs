//! Responses: a status code and a plain-text body, rendered as an HTTP/1.1
//! message.
use vstd::prelude::*;
use vstd::string::*;
use vstd::utf8::encode_utf8;

use crate::text::{append_decimal, decimal};

verus! {

/// The lowest status code `http::StatusCode` admits.
pub const MIN_STATUS: u16 = 100;

/// The highest status code `http::StatusCode` admits.
pub const MAX_STATUS: u16 = 999;

/// The first Unix time (in seconds) that `httpdate` refuses to format: the
/// start of the year 10000.
pub const DATE_LIMIT: u64 = 253402300800;

/// The reason phrase `http::StatusCode::canonical_reason` gives for a code.
pub uninterp spec fn canonical_reason_of(code: u16) -> Option<Seq<char>>;

/// `http::StatusCode::canonical_reason` on the status code `code`.
/// Trusted: the phrase `http` registers for the code, `None` for a code it
/// registers none for. Which phrase that is is left to the name
/// `canonical_reason_of`.
#[verifier::external_body]
fn canonical_reason(code: u16) -> (res: Option<&'static str>)
    requires
        MIN_STATUS <= code <= MAX_STATUS,
    ensures
        res is Some <==> canonical_reason_of(code) is Some,
        res matches Some(r) ==> canonical_reason_of(code) == Some(r@),
{
    match http::StatusCode::from_u16(code) {
        Ok(status) => status.canonical_reason(),
        Err(_) => None,
    }
}

/// The text `httpdate::fmt_http_date` gives for a Unix time in seconds.
pub uninterp spec fn http_date_of(unix_secs: u64) -> Seq<char>;

/// `httpdate::fmt_http_date` on the instant `unix_secs` seconds after the
/// Unix epoch. Trusted: the IMF-fixdate text of that instant (for example
/// `Thu, 01 Jan 1970 00:00:00 GMT`), left to the name `http_date_of`. The
/// crate panics from the year 10000 on, which `requires` leaves out.
#[verifier::external_body]
fn fmt_http_date(unix_secs: u64) -> (res: String)
    requires
        unix_secs < DATE_LIMIT,
    ensures
        res@ == http_date_of(unix_secs),
{
    httpdate::fmt_http_date(std::time::UNIX_EPOCH + std::time::Duration::from_secs(unix_secs))
}

/// How a status code is shown, given its reason phrase: the number, a
/// space, and the phrase (`<unknown status code>` when there is none), as
/// `http::StatusCode`'s `Display` writes it.
pub open spec fn status_text_with(code: u16, reason: Option<Seq<char>>) -> Seq<char> {
    decimal(code as nat) + " "@ + match reason {
        Some(r) => r,
        None => "<unknown status code>"@,
    }
}

/// How a status code is shown, with the phrase `http` registers for it.
pub open spec fn status_text(code: u16) -> Seq<char> {
    status_text_with(code, canonical_reason_of(code))
}

/// The view of an optional string.
pub open spec fn opt_view(o: Option<&str>) -> Option<Seq<char>> {
    match o {
        Some(s) => Some(s@),
        None => None,
    }
}

/// The head of the HTTP/1.1 message for a status line text, a date and a
/// body of `len` bytes: the status line and the header lines, up to and with
/// the empty line.
pub open spec fn head_text(status: Seq<char>, date: Seq<char>, len: nat) -> Seq<char> {
    "HTTP/1.1 "@ + status + "\r\nDate: "@ + date + "\r\nServer: "@ + "ServerEdu"@
        + "\r\nContent-Length: "@ + decimal(len) + "\r\nContent-Type : "@ + "text/plain"@
        + "\r\n\r\n"@
}

/// The HTTP/1.1 message for a status line text, a date and a body: the head,
/// whose `Content-Length` is the body's length in UTF-8 bytes, then the body.
pub open spec fn message_text(status: Seq<char>, date: Seq<char>, body: Seq<char>) -> Seq<char> {
    head_text(status, date, encode_utf8(body).len()) + body
}

/// The head of the HTTP/1.1 message for a status code, a date and a body of
/// `len` bytes.
pub open spec fn response_head(code: u16, date: Seq<char>, len: nat) -> Seq<char> {
    head_text(status_text(code), date, len)
}

/// The HTTP/1.1 message for a status code, a date and a body.
pub open spec fn response_text(code: u16, date: Seq<char>, body: Seq<char>) -> Seq<char> {
    message_text(status_text(code), date, body)
}

/// Writes how a status code is shown, given its reason phrase.
pub fn format_status(code: u16, reason: Option<&str>) -> (s: String)
    ensures
        s@ == status_text_with(code, opt_view(reason)),
{
    let mut s = String::new();
    append_decimal(&mut s, code as u64);
    s.append(" ");
    match reason {
        Some(r) => s.append(r),
        None => s.append("<unknown status code>"),
    }
    s
}

/// Writes the HTTP/1.1 message for a status line text, a date and a body.
pub fn format_message(status: &str, date: &str, body: &str) -> (text: String)
    ensures
        text@ == message_text(status@, date@, body@),
{
    let mut s = String::from_str("HTTP/1.1 ");
    s.append(status);
    s.append("\r\nDate: ");
    s.append(date);
    s.append("\r\nServer: ");
    s.append("ServerEdu");
    s.append("\r\nContent-Length: ");
    let len = body.as_bytes().len();
    append_decimal(&mut s, len as u64);
    s.append("\r\nContent-Type : ");
    s.append("text/plain");
    s.append("\r\n\r\n");
    s.append(body);
    s
}

/// Writes how a status code is shown, with the phrase `http` registers.
pub fn status_string(code: u16) -> (s: String)
    requires
        MIN_STATUS <= code <= MAX_STATUS,
    ensures
        s@ == status_text(code),
{
    let reason = canonical_reason(code);
    format_status(code, reason)
}

/// The body of a response.
#[derive(Debug)]
pub struct ResponseBody {
    pub content: String,
}

impl From<String> for ResponseBody {
    fn from(value: String) -> (body: ResponseBody) {
        ResponseBody { content: value }
    }
}

impl vstd::std_specs::convert::FromSpecImpl<String> for ResponseBody {
    open spec fn obeys_from_spec() -> bool {
        true
    }

    open spec fn from_spec(value: String) -> ResponseBody {
        ResponseBody { content: value }
    }
}

/// Values that can serve as a response body.
pub trait IntoResponse {
    fn build_response_body(self) -> ResponseBody;
}

impl IntoResponse for String {
    /// The string itself is the body.
    fn build_response_body(self) -> (body: ResponseBody)
        ensures
            body.content@ == self@,
    {
        ResponseBody { content: self }
    }
}

/// A response: a status code `http` admits and a plain-text body.
#[derive(Debug)]
pub struct Response {
    pub(crate) code: u16,
    pub(crate) body: ResponseBody,
}

impl Response {
    #[verifier::type_invariant]
    spec fn wf(&self) -> bool {
        MIN_STATUS <= self.code <= MAX_STATUS
    }

    /// The status code.
    pub closed spec fn spec_code(&self) -> u16 {
        self.code
    }

    /// The body text.
    pub closed spec fn spec_body(&self) -> Seq<char> {
        self.body.content@
    }

    /// A response with status `code` and body `body`.
    pub fn new(code: u16, body: String) -> (r: Self)
        requires
            MIN_STATUS <= code <= MAX_STATUS,
        ensures
            r.spec_code() == code,
            r.spec_body() == body@,
    {
        Response { code, body: ResponseBody { content: body } }
    }

    /// A response with status `code` whose body a handler produced.
    pub fn with_body(code: u16, body: ResponseBody) -> (r: Self)
        requires
            MIN_STATUS <= code <= MAX_STATUS,
        ensures
            r.spec_code() == code,
            r.spec_body() == body.content@,
    {
        Response { code, body }
    }

    /// The status code.
    pub fn code(&self) -> (c: u16)
        ensures
            c == self.spec_code(),
            MIN_STATUS <= c <= MAX_STATUS,
    {
        proof {
            use_type_invariant(self);
        }
        self.code
    }

    /// The body text.
    pub fn content(&self) -> (s: &String)
        ensures
            s@ == self.spec_body(),
    {
        &self.body.content
    }

    /// The HTTP/1.1 message for this response, dated `unix_secs` seconds
    /// after the Unix epoch: status line, `Date`, `Server`, `Content-Length`
    /// (the body's length in bytes) and `Content-Type` lines, a blank line
    /// and the body.
    pub fn render_at(&self, unix_secs: u64) -> (text: String)
        requires
            unix_secs < DATE_LIMIT,
        ensures
            text@ == response_text(self.spec_code(), http_date_of(unix_secs), self.spec_body()),
    {
        proof {
            use_type_invariant(self);
        }
        let status = status_string(self.code);
        let date = fmt_http_date(unix_secs);
        format_message(status.as_str(), date.as_str(), self.body.content.as_str())
    }
}

} // verus!
