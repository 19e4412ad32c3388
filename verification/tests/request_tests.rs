use server::request::{read_first_line, split_header_line, split_request_line, LineFailure};
use server::{Headers, Method, Request};

fn parse(bytes: &[u8]) -> Result<Request, String> {
    Request::new(bytes).map_err(|e| e.inner)
}

#[test]
fn parses_request_line_and_headers() {
    let req = parse(b"GET /index HTTP/1.1\r\nHost: localhost\r\nAccept: a\r\nAccept: b\r\n\r\n")
        .unwrap();
    assert_eq!(req.method, "GET");
    assert_eq!(req.path, "/index");
    assert_eq!(req.version, "HTTP/1.1");
    assert_eq!(req.headers.len(), 3);
    assert_eq!(req.headers.get("Host"), vec!["localhost".to_string()]);
    assert_eq!(req.headers.get("Accept"), vec!["a".to_string(), "b".to_string()]);
    assert!(req.headers.get("Missing").is_empty());
}

#[test]
fn request_without_headers() {
    let req = parse(b"POST /x HTTP/1.0\r\n\r\n").unwrap();
    assert_eq!(req.method, "POST");
    assert_eq!(req.path, "/x");
    assert_eq!(req.version, "HTTP/1.0");
    assert_eq!(req.headers.len(), 0);
}

#[test]
fn bytes_after_the_empty_line_are_not_read() {
    let req = parse(b"PUT /a HTTP/1.1\r\nA: 1\r\n\r\nbody: with colon\r\n").unwrap();
    assert_eq!(req.headers.len(), 1);
    assert_eq!(req.headers.get("A"), vec!["1".to_string()]);
}

#[test]
fn bare_line_feeds_end_lines_too() {
    let req = parse(b"GET / HTTP/1.1\nHost: h\n\n").unwrap();
    assert_eq!(req.path, "/");
    assert_eq!(req.headers.get("Host"), vec!["h".to_string()]);
}

#[test]
fn extra_white_space_and_extra_words() {
    let req = parse(b"  GET \t /x\x0bHTTP/1.0 extra words\r\n\r\n").unwrap();
    assert_eq!(req.method, "GET");
    assert_eq!(req.path, "/x");
    assert_eq!(req.version, "HTTP/1.0");
}

#[test]
fn unicode_white_space_separates_words() {
    let req = parse("GET\u{3000}/caf\u{e9}\u{a0}HTTP/1.1\r\n\r\n".as_bytes()).unwrap();
    assert_eq!(req.path, "/caf\u{e9}");
    assert_eq!(req.version, "HTTP/1.1");
}

#[test]
fn only_one_carriage_return_is_dropped() {
    let req = parse(b"GET / HTTP/1.1\r\nX: v\r\r\n\r\n").unwrap();
    assert_eq!(req.headers.get("X"), vec!["v\r".to_string()]);
}

#[test]
fn header_value_is_the_second_piece() {
    let req = parse(b"GET / HTTP/1.1\r\nA: b: c\r\nB: \r\n: anon\r\n\r\n").unwrap();
    assert_eq!(req.headers.get("A"), vec!["b".to_string()]);
    assert_eq!(req.headers.get("B"), vec!["".to_string()]);
    assert_eq!(req.headers.get(""), vec!["anon".to_string()]);
}

#[test]
fn request_with_missing_method_as_sent_by_the_sample_client() {
    let err = parse(b" / HTTP/1.1\r\nHost: localhost\r\n\r\n").unwrap_err();
    assert_eq!(
        err,
        "Error processing headers: Invalid request header format. HTTP Version not found"
    );
}

#[test]
fn empty_input_is_invalid_request_data() {
    assert_eq!(parse(b"").unwrap_err(), "Error processing headers: invalid request data");
    assert_eq!(
        parse(b"GET / HTTP/1.1").unwrap_err(),
        "Error processing headers: invalid request data"
    );
}

#[test]
fn blank_first_line_has_no_method() {
    assert_eq!(
        parse(b"\r\n\r\n").unwrap_err(),
        "Error processing headers: Invalid request header format. Method not found"
    );
    assert_eq!(
        parse(b" \t \r\n").unwrap_err(),
        "Error processing headers: Invalid request header format. Method not found"
    );
}

#[test]
fn one_word_has_no_path() {
    assert_eq!(
        parse(b"GET\r\n\r\n").unwrap_err(),
        "Error processing headers: Invalid request header format. Path not found"
    );
}

#[test]
fn bad_utf8_in_first_line() {
    assert_eq!(
        parse(b"GET /\xff HTTP/1.1\r\n\r\n").unwrap_err(),
        "Error processing headers: incomplete data"
    );
}

#[test]
fn header_without_separator() {
    assert_eq!(
        parse(b"GET / HTTP/1.1\r\nHost localhost\r\n\r\n").unwrap_err(),
        "Error processing headers: RequestError { inner: \"Error parseando valor de header\" }"
    );
    assert_eq!(
        parse(b"GET / HTTP/1.1\r\nHost:localhost\r\n\r\n").unwrap_err(),
        "Error processing headers: RequestError { inner: \"Error parseando valor de header\" }"
    );
}

#[test]
fn headers_cut_short() {
    assert_eq!(
        parse(b"GET / HTTP/1.1\r\nHost: x\r\n").unwrap_err(),
        "Error processing headers: RequestError { inner: \"Error parseando headers: invalid request data\" }"
    );
}

#[test]
fn bad_utf8_in_header() {
    assert_eq!(
        parse(b"GET / HTTP/1.1\r\nHost: \xc3\x28\r\n\r\n").unwrap_err(),
        "Error processing headers: RequestError { inner: \"Error parseando headers: incomplete data\" }"
    );
}

#[test]
fn read_first_line_reports_position() {
    let bytes = b"ab\r\ncd\nrest";
    let (line, next) = read_first_line(bytes, 0).unwrap();
    assert_eq!(line, "ab");
    assert_eq!(next, 4);
    let (line, next) = read_first_line(bytes, next).unwrap();
    assert_eq!(line, "cd");
    assert_eq!(next, 7);
    assert_eq!(read_first_line(bytes, next).unwrap_err(), LineFailure::NoNewline);
    assert_eq!(read_first_line(b"\xc0\x80\n", 0).unwrap_err(), LineFailure::NotUtf8);
    let (line, next) = read_first_line(b"\r\n", 0).unwrap();
    assert_eq!(line, "");
    assert_eq!(next, 2);
}

#[test]
fn split_request_line_words() {
    let (m, p, v) = split_request_line("DELETE /item/3 HTTP/2").unwrap();
    assert_eq!((m.as_str(), p.as_str(), v.as_str()), ("DELETE", "/item/3", "HTTP/2"));
    assert_eq!(
        split_request_line("GET /").unwrap_err(),
        "Invalid request header format. HTTP Version not found"
    );
}

#[test]
fn split_header_line_pieces() {
    assert_eq!(
        split_header_line("Content-Type: text/plain"),
        Some(("Content-Type".to_string(), "text/plain".to_string()))
    );
    assert_eq!(split_header_line("a:: b"), Some(("a:".to_string(), "b".to_string())));
    assert_eq!(split_header_line("no separator"), None);
    assert_eq!(split_header_line(":"), None);
}

#[test]
fn methods_by_name() {
    assert_eq!(Method::from_str("GET").unwrap(), Method::Get);
    assert_eq!(Method::from_str("POST").unwrap(), Method::Post);
    assert_eq!(Method::from_str("PUT").unwrap(), Method::Put);
    assert_eq!(Method::from_str("DELETE").unwrap(), Method::Delete);
    assert_eq!(Method::from_str("get").unwrap_err().inner, "Method not recognised");
    assert_eq!(Method::from_str("").unwrap_err().inner, "Method not recognised");
}

#[test]
fn headers_accumulate_in_order() {
    let mut h = Headers::new();
    h.insert("A".to_string(), "1".to_string());
    h.insert("B".to_string(), "2".to_string());
    h.insert("A".to_string(), "3".to_string());
    assert_eq!(h.len(), 3);
    assert_eq!(h.get("A"), vec!["1".to_string(), "3".to_string()]);
    assert_eq!(h.get("B"), vec!["2".to_string()]);
}

#[test]
fn written_request_reads_back() {
    let headers = [("Host", "example.org"), ("X-Empty", ""), ("Host", "second"), ("Ünïcode", "välue")];
    let mut text = String::from("GET /path?q=1 HTTP/1.1\r\n");
    for (n, v) in headers.iter() {
        text.push_str(&format!("{}: {}\r\n", n, v));
    }
    text.push_str("\r\n");
    let req = parse(text.as_bytes()).unwrap();
    assert_eq!(req.method, "GET");
    assert_eq!(req.path, "/path?q=1");
    assert_eq!(req.version, "HTTP/1.1");
    assert_eq!(req.headers.len(), 4);
    assert_eq!(req.headers.get("Host"), vec!["example.org".to_string(), "second".to_string()]);
    assert_eq!(req.headers.get("X-Empty"), vec!["".to_string()]);
    assert_eq!(req.headers.get("Ünïcode"), vec!["välue".to_string()]);
}
