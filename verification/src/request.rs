//! Requests: the request line and the header lines, read from the bytes a
//! client sent.
use vstd::prelude::*;
use vstd::string::*;
use vstd::utf8::*;

use crate::text::{chars_of, is_whitespace, is_white, string_from_utf8};

verus! {

// ---------------------------------------------------------------------------
// The model: what a sequence of bytes parses to.
// ---------------------------------------------------------------------------

/// The index of the first `\n` at or after `i`.
pub open spec fn find_newline(b: Seq<u8>, i: int) -> Option<int>
    decreases b.len() - i,
{
    if i < 0 || i >= b.len() {
        None
    } else if b[i] == 10u8 {
        Some(i)
    } else {
        find_newline(b, i + 1)
    }
}

/// The bytes of the line that starts at `start` and ends with the `\n` at
/// `nl`, without the `\n` and without one `\r` just before it.
pub open spec fn line_bytes(b: Seq<u8>, start: int, nl: int) -> Seq<u8> {
    if nl > start && b[nl - 1] == 13u8 {
        b.subrange(start, nl - 1)
    } else {
        b.subrange(start, nl)
    }
}

/// Why a line could not be read.
#[derive(Clone, Copy, Debug, PartialEq, Eq)]
pub enum LineFailure {
    /// The bytes ran out before a `\n`.
    NoNewline,
    /// The line is not well-formed UTF-8.
    NotUtf8,
}

/// The line that starts at `start`: its characters and the index after its `\n`.
pub open spec fn read_line(b: Seq<u8>, start: int) -> Result<(Seq<char>, int), LineFailure> {
    match find_newline(b, start) {
        None => Err(LineFailure::NoNewline),
        Some(nl) => if valid_utf8(line_bytes(b, start, nl)) {
            Ok((decode_utf8(line_bytes(b, start, nl)), nl + 1))
        } else {
            Err(LineFailure::NotUtf8)
        },
    }
}

/// The text of the I/O error that a failed line read reports.
pub open spec fn line_failure_text(f: LineFailure) -> Seq<char> {
    match f {
        LineFailure::NoNewline => "invalid request data"@,
        LineFailure::NotUtf8 => "incomplete data"@,
    }
}

/// The first index at or after `i` that holds no white space.
pub open spec fn skip_white(s: Seq<char>, i: int) -> int
    decreases s.len() - i,
{
    if 0 <= i < s.len() && is_white(s[i]) {
        skip_white(s, i + 1)
    } else {
        i
    }
}

/// The first index at or after `i` that holds white space.
pub open spec fn skip_word(s: Seq<char>, i: int) -> int
    decreases s.len() - i,
{
    if 0 <= i < s.len() && !is_white(s[i]) {
        skip_word(s, i + 1)
    } else {
        i
    }
}

/// A non-empty run of characters none of which is white space.
pub open spec fn is_word(s: Seq<char>) -> bool {
    s.len() > 0 && forall|j: int| 0 <= j < s.len() ==> !is_white(#[trigger] s[j])
}

/// The first three white-space separated words of a request line: the
/// method, the path and the version; or the message for the first missing one.
pub open spec fn request_line_parts(s: Seq<char>) -> Result<
    (Seq<char>, Seq<char>, Seq<char>),
    Seq<char>,
> {
    let a0 = skip_white(s, 0);
    let b0 = skip_word(s, a0);
    let a1 = skip_white(s, b0);
    let b1 = skip_word(s, a1);
    let a2 = skip_white(s, b1);
    let b2 = skip_word(s, a2);
    if a0 >= s.len() {
        Err("Invalid request header format. Method not found"@)
    } else if a1 >= s.len() {
        Err("Invalid request header format. Path not found"@)
    } else if a2 >= s.len() {
        Err("Invalid request header format. HTTP Version not found"@)
    } else {
        Ok((s.subrange(a0, b0), s.subrange(a1, b1), s.subrange(a2, b2)))
    }
}

/// Whether `": "` starts at `j`.
pub open spec fn sep_at(s: Seq<char>, j: int) -> bool {
    0 <= j && j + 1 < s.len() && s[j] == ':' && s[j + 1] == ' '
}

/// The first index at or after `i` where `": "` starts.
pub open spec fn find_sep(s: Seq<char>, i: int) -> Option<int>
    decreases s.len() - i,
{
    if i < 0 || i + 1 >= s.len() {
        None
    } else if sep_at(s, i) {
        Some(i)
    } else {
        find_sep(s, i + 1)
    }
}

/// A header line split on `": "`: the first piece is the name, the second the
/// value; `None` when there is no second piece.
pub open spec fn split_header(s: Seq<char>) -> Option<(Seq<char>, Seq<char>)> {
    match find_sep(s, 0) {
        None => None,
        Some(j) => {
            let end = match find_sep(s, j + 2) {
                Some(k) => k,
                None => s.len() as int,
            };
            Some((s.subrange(0, j), s.subrange(j + 2, end)))
        },
    }
}

/// The header lines from `pos` on, up to and without the first empty line,
/// appended to `acc`; or the message of the first failure.
pub open spec fn header_lines(b: Seq<u8>, pos: int, acc: Seq<(Seq<char>, Seq<char>)>) -> Result<
    Seq<(Seq<char>, Seq<char>)>,
    Seq<char>,
>
    decreases b.len() - pos,
{
    match find_newline(b, pos) {
        None => Err("Error parseando headers: invalid request data"@),
        Some(nl) => {
            proof {
                lemma_find_newline_bounds(b, pos);
            }
            if !valid_utf8(line_bytes(b, pos, nl)) {
                Err("Error parseando headers: incomplete data"@)
            } else if line_bytes(b, pos, nl).len() == 0 {
                Ok(acc)
            } else {
                match split_header(decode_utf8(line_bytes(b, pos, nl))) {
                    None => Err("Error parseando valor de header"@),
                    Some(p) => header_lines(b, nl + 1, acc.push(p)),
                }
            }
        },
    }
}

/// The message a request carries when its first line fails.
pub open spec fn request_failure_text(m: Seq<char>) -> Seq<char> {
    "Error processing headers: "@ + m
}

/// The message a request carries when a header line fails: the inner failure
/// as the derived `Debug` of `RequestError` writes it.
pub open spec fn header_failure_text(m: Seq<char>) -> Seq<char> {
    "Error processing headers: RequestError { inner: \""@ + m + "\" }"@
}

/// What the bytes of a request parse to: method, path, version and header
/// lines in arrival order; or the message of the error.
pub open spec fn parse_request(b: Seq<u8>) -> Result<
    (Seq<char>, Seq<char>, Seq<char>, Seq<(Seq<char>, Seq<char>)>),
    Seq<char>,
> {
    match read_line(b, 0) {
        Err(f) => Err(request_failure_text(line_failure_text(f))),
        Ok((line, next)) => match request_line_parts(line) {
            Err(m) => Err(request_failure_text(m)),
            Ok((method, path, version)) => match header_lines(b, next, seq![]) {
                Err(m) => Err(header_failure_text(m)),
                Ok(hs) => Ok((method, path, version, hs)),
            },
        },
    }
}

// ---------------------------------------------------------------------------
// Lemmas about the model.
// ---------------------------------------------------------------------------

/// A newline found at or after `i` lies in the buffer, at or after `i`.
pub proof fn lemma_find_newline_bounds(b: Seq<u8>, i: int)
    ensures
        find_newline(b, i) matches Some(nl) ==> i <= nl < b.len() && b[nl] == 10u8,
    decreases b.len() - i,
{
    if 0 <= i < b.len() && b[i] != 10u8 {
        lemma_find_newline_bounds(b, i + 1);
    }
}

/// Skipping bytes that hold no newline does not change the newline found.
pub proof fn lemma_find_newline_skip(b: Seq<u8>, start: int, i: int)
    requires
        0 <= start <= i <= b.len(),
        forall|j: int| start <= j < i ==> b[j] != 10u8,
    ensures
        find_newline(b, start) == find_newline(b, i),
    decreases i - start,
{
    if start < i {
        lemma_find_newline_skip(b, start + 1, i);
    }
}

/// Skipping white space already known to be white space does not change
/// where the skip ends.
pub proof fn lemma_skip_white_step(s: Seq<char>, i0: int, i: int)
    requires
        0 <= i0 <= i <= s.len(),
        forall|j: int| i0 <= j < i ==> is_white(#[trigger] s[j]),
    ensures
        skip_white(s, i0) == skip_white(s, i),
    decreases i - i0,
{
    if i0 < i {
        lemma_skip_white_step(s, i0 + 1, i);
    }
}

/// Skipping word characters already known to be such does not change where
/// the skip ends.
pub proof fn lemma_skip_word_step(s: Seq<char>, i0: int, i: int)
    requires
        0 <= i0 <= i <= s.len(),
        forall|j: int| i0 <= j < i ==> !is_white(#[trigger] s[j]),
    ensures
        skip_word(s, i0) == skip_word(s, i),
    decreases i - i0,
{
    if i0 < i {
        lemma_skip_word_step(s, i0 + 1, i);
    }
}

/// Searching for `": "` past positions known to hold none finds the same.
pub proof fn lemma_find_sep_step(s: Seq<char>, i0: int, i: int)
    requires
        0 <= i0 <= i,
        forall|j: int| i0 <= j < i ==> !#[trigger] sep_at(s, j),
    ensures
        find_sep(s, i0) == find_sep(s, i),
    decreases i - i0,
{
    if i0 < i && i0 + 1 < s.len() {
        lemma_find_sep_step(s, i0 + 1, i);
    }
}

/// A `": "` found at or after `i` lies in the text, at or after `i`.
pub proof fn lemma_find_sep_bounds(s: Seq<char>, i: int)
    ensures
        find_sep(s, i) matches Some(j) ==> i <= j && j + 1 < s.len(),
    decreases s.len() - i,
{
    if 0 <= i && i + 1 < s.len() && !sep_at(s, i) {
        lemma_find_sep_bounds(s, i + 1);
    }
}

// ---------------------------------------------------------------------------
// Errors.
// ---------------------------------------------------------------------------

/// An error met while reading a request; `inner` is its message.
#[derive(Debug)]
pub struct RequestError {
    pub inner: String,
}

impl RequestError {
    /// An error carrying `msg`.
    pub fn new(msg: String) -> (e: Self)
        ensures
            e.inner@ == msg@,
    {
        RequestError { inner: msg }
    }
}

/// An error on a client connection; `inner` is its message.
#[derive(Debug)]
pub struct ConnectionError {
    pub inner: String,
}

// ---------------------------------------------------------------------------
// Headers.
// ---------------------------------------------------------------------------

/// The values a header named `name` received, in arrival order.
pub open spec fn values_of(es: Seq<(Seq<char>, Seq<char>)>, name: Seq<char>) -> Seq<Seq<char>>
    decreases es.len(),
{
    if es.len() == 0 {
        seq![]
    } else {
        let rest = values_of(es.drop_last(), name);
        if es.last().0 == name {
            rest.push(es.last().1)
        } else {
            rest
        }
    }
}

/// The header lines of a request, keyed by name: each name maps to its
/// values in the order they came.
#[derive(Debug, Clone)]
pub struct Headers {
    pub(crate) entries: Vec<(String, String)>,
}

impl Headers {
    /// The (name, value) pairs in arrival order.
    pub closed spec fn entries(&self) -> Seq<(Seq<char>, Seq<char>)> {
        self.entries@.map_values(|p: (String, String)| (p.0@, p.1@))
    }

    /// No headers.
    pub fn new() -> (h: Self)
        ensures
            h.entries() == Seq::<(Seq<char>, Seq<char>)>::empty(),
            h@ == Map::<Seq<char>, Seq<Seq<char>>>::empty(),
    {
        let h = Headers { entries: Vec::new() };
        assert(h.entries() =~= Seq::<(Seq<char>, Seq<char>)>::empty());
        assert(h@ =~= Map::<Seq<char>, Seq<Seq<char>>>::empty());
        h
    }

    /// Records one more value for the header `name`.
    pub fn insert(&mut self, name: String, value: String)
        ensures
            final(self).entries() == old(self).entries().push((name@, value@)),
            final(self)@ == old(self)@.insert(
                name@,
                values_of(old(self).entries(), name@).push(value@),
            ),
    {
        let ghost n = name@;
        let ghost v = value@;
        let ghost old_es = self.entries();
        self.entries.push((name, value));
        assert(self.entries() =~= old_es.push((n, v)));
        let ghost new_es = self.entries();
        assert(new_es.drop_last() =~= old_es);
        assert forall|k: Seq<char>| k != n implies values_of(new_es, k) == values_of(old_es, k) by {}
        assert(self@ =~= old(self)@.insert(n, values_of(old_es, n).push(v)));
    }

    /// The number of header lines recorded.
    pub fn len(&self) -> (n: usize)
        ensures
            n == self.entries().len(),
    {
        self.entries.len()
    }

    /// The values recorded for `name`, in arrival order; empty when the
    /// header never came.
    pub fn get(&self, name: &str) -> (vals: Vec<String>)
        ensures
            vals@.map_values(|s: String| s@) == values_of(self.entries(), name@),
    {
        let mut vals: Vec<String> = Vec::new();
        let mut i: usize = 0;
        while i < self.entries.len()
            invariant
                i <= self.entries@.len(),
                vals@.map_values(|s: String| s@) == values_of(self.entries().take(i as int), name@),
            decreases self.entries@.len() - i,
        {
            let ghost es = self.entries();
            assert(es.take(i + 1).drop_last() =~= es.take(i as int));
            if str_equals(self.entries[i].0.as_str(), name) {
                let v = self.entries[i].1.clone();
                let ghost before = vals@;
                vals.push(v);
                assert(vals@.map_values(|s: String| s@) =~= before.map_values(|s: String| s@).push(
                    es[i as int].1,
                ));
            }
            i = i + 1;
        }
        assert(self.entries().take(self.entries@.len() as int) =~= self.entries());
        vals
    }
}

impl View for Headers {
    type V = Map<Seq<char>, Seq<Seq<char>>>;

    open spec fn view(&self) -> Map<Seq<char>, Seq<Seq<char>>> {
        Map::new(
            |k: Seq<char>| values_of(self.entries(), k).len() > 0,
            |k: Seq<char>| values_of(self.entries(), k),
        )
    }
}

// ---------------------------------------------------------------------------
// Reading a request.
// ---------------------------------------------------------------------------

/// A request: its first line's three words and its header lines.
#[derive(Debug, Clone)]
pub struct Request {
    pub method: String,
    pub path: String,
    pub version: String,
    pub headers: Headers,
}

impl Request {
    /// The model of this request: method, path, version and header lines.
    pub open spec fn model(&self) -> (Seq<char>, Seq<char>, Seq<char>, Seq<(Seq<char>, Seq<char>)>) {
        (self.method@, self.path@, self.version@, self.headers.entries())
    }

    /// Reads a request from the bytes a client sent: the request line, then
    /// header lines up to the first empty one. Bytes after that are not read.
    pub fn new(bytes: &[u8]) -> (res: Result<Request, RequestError>)
        ensures
            res matches Ok(r) ==> parse_request(bytes@) == Ok::<_, Seq<char>>(r.model()),
            res matches Err(e) ==> parse_request(bytes@) == Err::<
                (Seq<char>, Seq<char>, Seq<char>, Seq<(Seq<char>, Seq<char>)>),
                Seq<char>,
            >(e.inner@),
    {
        match parse_request_arguments(bytes) {
            Err(m) => {
                let mut msg = String::from_str("Error processing headers: ");
                msg.append(m);
                Err(RequestError::new(msg))
            },
            Ok((method, path, version, next)) => match parse_headers(bytes, next) {
                Err(e) => {
                    let mut msg = String::from_str("Error processing headers: RequestError { inner: \"");
                    msg.append(e.inner.as_str());
                    msg.append("\" }");
                    Err(RequestError::new(msg))
                },
                Ok(headers) => Ok(Request { method, path, version, headers }),
            },
        }
    }
}

/// The I/O error text of a failed line read.
fn line_failure_str(f: LineFailure) -> (s: &'static str)
    ensures
        s@ == line_failure_text(f),
{
    match f {
        LineFailure::NoNewline => "invalid request data",
        LineFailure::NotUtf8 => "incomplete data",
    }
}

/// Reads the line that starts at `start`: up to the next `\n`, dropping one
/// `\r` just before it, decoded as UTF-8. Returns the line and the index
/// after its `\n`.
pub fn read_first_line(bytes: &[u8], start: usize) -> (res: Result<(String, usize), LineFailure>)
    requires
        start <= bytes@.len(),
    ensures
        res matches Ok((s, next)) ==> read_line(bytes@, start as int) == Ok::<
            (Seq<char>, int),
            LineFailure,
        >((s@, next as int)),
        res matches Err(f) ==> read_line(bytes@, start as int) == Err::<(Seq<char>, int), LineFailure>(
            f,
        ),
        res matches Ok((s, next)) ==> start < next <= bytes@.len(),
{
    let n = bytes.len();
    let mut i = start;
    while i < n && bytes[i] != 10u8
        invariant
            start <= i <= n,
            n == bytes@.len(),
            forall|j: int| start <= j < i ==> bytes@[j] != 10u8,
        decreases n - i,
    {
        i = i + 1;
    }
    proof {
        lemma_find_newline_skip(bytes@, start as int, i as int);
    }
    if i == n {
        return Err(LineFailure::NoNewline);
    }
    let end = if i > start && bytes[i - 1] == 13u8 {
        i - 1
    } else {
        i
    };
    let mut line: Vec<u8> = Vec::new();
    let mut k = start;
    while k < end
        invariant
            start <= k <= end <= n,
            n == bytes@.len(),
            line@ == bytes@.subrange(start as int, k as int),
        decreases end - k,
    {
        line.push(bytes[k]);
        k = k + 1;
        assert(line@ =~= bytes@.subrange(start as int, k as int));
    }
    assert(line@ == line_bytes(bytes@, start as int, i as int));
    match string_from_utf8(line) {
        None => Err(LineFailure::NotUtf8),
        Some(s) => Ok((s, i + 1)),
    }
}

/// The first index at or after `i` that holds no white space.
fn skip_white_at(cs: &Vec<char>, i: usize) -> (j: usize)
    requires
        i <= cs@.len(),
    ensures
        j == skip_white(cs@, i as int),
        i <= j <= cs@.len(),
{
    let mut j = i;
    while j < cs.len() && is_whitespace(cs[j])
        invariant
            i <= j <= cs@.len(),
            forall|k: int| i <= k < j ==> is_white(#[trigger] cs@[k]),
        decreases cs@.len() - j,
    {
        j = j + 1;
    }
    proof {
        lemma_skip_white_step(cs@, i as int, j as int);
    }
    j
}

/// The first index at or after `i` that holds white space.
fn skip_word_at(cs: &Vec<char>, i: usize) -> (j: usize)
    requires
        i <= cs@.len(),
    ensures
        j == skip_word(cs@, i as int),
        i <= j <= cs@.len(),
{
    let mut j = i;
    while j < cs.len() && !is_whitespace(cs[j])
        invariant
            i <= j <= cs@.len(),
            forall|k: int| i <= k < j ==> !is_white(#[trigger] cs@[k]),
        decreases cs@.len() - j,
    {
        j = j + 1;
    }
    proof {
        lemma_skip_word_step(cs@, i as int, j as int);
    }
    j
}

/// Splits a request line into method, path and version, the first three
/// white-space separated words; the message names the first one missing.
pub fn split_request_line(line: &str) -> (res: Result<(String, String, String), &'static str>)
    ensures
        res matches Ok((m, p, v)) ==> request_line_parts(line@) == Ok::<_, Seq<char>>(
            (m@, p@, v@),
        ),
        res matches Err(msg) ==> request_line_parts(line@) == Err::<
            (Seq<char>, Seq<char>, Seq<char>),
            Seq<char>,
        >(msg@),
{
    let cs = chars_of(line);
    let n = cs.len();
    let a0 = skip_white_at(&cs, 0);
    let b0 = skip_word_at(&cs, a0);
    let a1 = skip_white_at(&cs, b0);
    let b1 = skip_word_at(&cs, a1);
    let a2 = skip_white_at(&cs, b1);
    let b2 = skip_word_at(&cs, a2);
    if a0 >= n {
        Err("Invalid request header format. Method not found")
    } else if a1 >= n {
        Err("Invalid request header format. Path not found")
    } else if a2 >= n {
        Err("Invalid request header format. HTTP Version not found")
    } else {
        let m = line.substring_char(a0, b0).to_owned();
        let p = line.substring_char(a1, b1).to_owned();
        let v = line.substring_char(a2, b2).to_owned();
        Ok((m, p, v))
    }
}

/// Reads the request line at the start of `bytes`: method, path, version and
/// the index after the line; or the text of the I/O error.
pub fn parse_request_arguments(bytes: &[u8]) -> (res: Result<
    (String, String, String, usize),
    &'static str,
>)
    ensures
        res matches Ok((m, p, v, next)) ==> {
            &&& read_line(bytes@, 0) matches Ok((line, nx))
            &&& nx == next
            &&& request_line_parts(line) == Ok::<_, Seq<char>>((m@, p@, v@))
            &&& next <= bytes@.len()
        },
        res matches Err(msg) ==> match read_line(bytes@, 0) {
            Err(f) => msg@ == line_failure_text(f),
            Ok((line, _)) => request_line_parts(line) == Err::<
                (Seq<char>, Seq<char>, Seq<char>),
                Seq<char>,
            >(msg@),
        },
{
    match read_first_line(bytes, 0) {
        Err(f) => Err(line_failure_str(f)),
        Ok((line, next)) => match split_request_line(line.as_str()) {
            Err(m) => Err(m),
            Ok((m, p, v)) => Ok((m, p, v, next)),
        },
    }
}

/// The first index at or after `i` where `": "` starts.
fn find_sep_at(cs: &Vec<char>, i: usize) -> (res: Option<usize>)
    requires
        i <= cs@.len(),
    ensures
        res matches Some(j) ==> find_sep(cs@, i as int) == Some(j as int),
        res is None ==> find_sep(cs@, i as int) is None,
{
    let n = cs.len();
    let mut j = i;
    while n - j >= 2 && !(cs[j] == ':' && cs[j + 1] == ' ')
        invariant
            i <= j <= n,
            n == cs@.len(),
            forall|k: int| i <= k < j ==> !#[trigger] sep_at(cs@, k),
        decreases n - j,
    {
        j = j + 1;
    }
    proof {
        lemma_find_sep_step(cs@, i as int, j as int);
    }
    if n - j >= 2 {
        Some(j)
    } else {
        None
    }
}

/// Splits a header line on `": "` into name and value.
pub fn split_header_line(line: &str) -> (res: Option<(String, String)>)
    ensures
        res matches Some((n, v)) ==> split_header(line@) == Some((n@, v@)),
        res is None ==> split_header(line@) is None,
{
    let cs = chars_of(line);
    match find_sep_at(&cs, 0) {
        None => None,
        Some(j) => {
            proof {
                lemma_find_sep_bounds(cs@, 0);
                assert(find_sep(cs@, 0) == Some(j as int));
            }
            assert(j + 1 < cs.len());
            let end = match find_sep_at(&cs, j + 2) {
                Some(k) => k,
                None => cs.len(),
            };
            proof {
                lemma_find_sep_bounds(cs@, j + 2);
            }
            let name = line.substring_char(0, j).to_owned();
            let value = line.substring_char(j + 2, end).to_owned();
            Some((name, value))
        },
    }
}

/// Reads header lines from `pos` on, up to the first empty line.
pub fn parse_headers(bytes: &[u8], pos: usize) -> (res: Result<Headers, RequestError>)
    requires
        pos <= bytes@.len(),
    ensures
        res matches Ok(h) ==> header_lines(bytes@, pos as int, seq![]) == Ok::<_, Seq<char>>(
            h.entries(),
        ),
        res matches Err(e) ==> header_lines(bytes@, pos as int, seq![]) == Err::<
            Seq<(Seq<char>, Seq<char>)>,
            Seq<char>,
        >(e.inner@),
{
    let mut headers = Headers::new();
    let mut p = pos;
    loop
        invariant
            p <= bytes@.len(),
            header_lines(bytes@, p as int, headers.entries()) == header_lines(
                bytes@,
                pos as int,
                seq![],
            ),
        decreases bytes@.len() - p,
    {
        proof {
            lemma_find_newline_bounds(bytes@, p as int);
        }
        match read_first_line(bytes, p) {
            Err(f) => {
                let msg = match f {
                    LineFailure::NoNewline => "Error parseando headers: invalid request data",
                    LineFailure::NotUtf8 => "Error parseando headers: incomplete data",
                };
                return Err(RequestError::new(String::from_str(msg)));
            },
            Ok((line, next)) => {
                let ghost nl = next - 1;
                let ghost lb = line_bytes(bytes@, p as int, nl);
                proof {
                    decode_utf8_encode_utf8(lb);
                }
                if line.as_str().len() == 0 {
                    return Ok(headers);
                }
                match split_header_line(line.as_str()) {
                    None => {
                        return Err(
                            RequestError::new(String::from_str("Error parseando valor de header")),
                        );
                    },
                    Some((name, value)) => {
                        headers.insert(name, value);
                        p = next;
                    },
                }
            },
        }
    }
}

/// The request methods the server knows.
#[derive(Debug, Clone, Copy, PartialEq, Eq)]
pub enum Method {
    Get,
    Post,
    Put,
    Delete,
}

/// The method a name stands for, if any.
pub open spec fn method_named(s: Seq<char>) -> Option<Method> {
    if s == "GET"@ {
        Some(Method::Get)
    } else if s == "POST"@ {
        Some(Method::Post)
    } else if s == "PUT"@ {
        Some(Method::Put)
    } else if s == "DELETE"@ {
        Some(Method::Delete)
    } else {
        None
    }
}

impl Method {
    /// The method named `s`, upper case; any other name is refused with
    /// "Method not recognised".
    pub fn from_str(s: &str) -> (res: Result<Method, RequestError>)
        ensures
            res matches Ok(m) ==> method_named(s@) == Some(m),
            res is Err <==> method_named(s@) is None,
            res matches Err(e) ==> e.inner@ == "Method not recognised"@,
    {
        if str_equals(s, "GET") {
            Ok(Method::Get)
        } else if str_equals(s, "POST") {
            Ok(Method::Post)
        } else if str_equals(s, "PUT") {
            Ok(Method::Put)
        } else if str_equals(s, "DELETE") {
            Ok(Method::Delete)
        } else {
            Err(RequestError { inner: String::from_str("Method not recognised") })
        }
    }
}

/// Whether two strings hold the same characters.
pub fn str_equals(a: &str, b: &str) -> (eq: bool)
    ensures
        eq == (a@ == b@),
{
    let n = a.unicode_len();
    let m = b.unicode_len();
    if n != m {
        return false;
    }
    let mut i: usize = 0;
    while i < n
        invariant
            n == a@.len(),
            m == b@.len(),
            n == m,
            i <= n,
            forall|j: int| 0 <= j < i ==> a@[j] == b@[j],
        decreases n - i,
    {
        if a.get_char(i) != b.get_char(i) {
            return false;
        }
        i = i + 1;
    }
    assert(a@ =~= b@);
    true
}

} // verus!
