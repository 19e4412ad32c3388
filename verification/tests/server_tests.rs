use server::handlers::get;
use server::response::{format_message, format_status, status_string};
use server::sample::some_kinda_handler;
use server::text::append_decimal;
use server::{
    base_handler, detector, dispatch, handler_response, other_handler, Headers, IntoResponse,
    Outcome, Request, RequestError, Response, ResponseBody, Router, ServerError,
};

fn request(path: &str) -> Request {
    Request {
        method: "GET".to_string(),
        path: path.to_string(),
        version: "HTTP/1.1".to_string(),
        headers: Headers::new(),
    }
}

#[test]
fn base_handler_says_hola() {
    assert_eq!(base_handler(request("/")), "HOLA");
}

#[test]
fn rendered_response_at_the_epoch() {
    let r = Response::new(200, "HOLA".to_string());
    assert_eq!(
        r.render_at(0),
        "HTTP/1.1 200 OK\r\nDate: Thu, 01 Jan 1970 00:00:00 GMT\r\nServer: ServerEdu\r\nContent-Length: 4\r\nContent-Type : text/plain\r\n\r\nHOLA"
    );
}

#[test]
fn rendered_response_with_a_later_date() {
    let r = Response::new(404, String::new());
    assert_eq!(
        r.render_at(1431703461),
        "HTTP/1.1 404 Not Found\r\nDate: Fri, 15 May 2015 15:24:21 GMT\r\nServer: ServerEdu\r\nContent-Length: 0\r\nContent-Type : text/plain\r\n\r\n"
    );
}

#[test]
fn content_length_counts_bytes() {
    let r = Response::new(500, "ñ€".to_string());
    let text = r.render_at(0);
    assert!(text.contains("\r\nContent-Length: 5\r\n"));
    assert!(text.starts_with("HTTP/1.1 500 Internal Server Error\r\n"));
    assert!(text.ends_with("\r\n\r\nñ€"));
}

#[test]
fn status_text_of_codes() {
    assert_eq!(status_string(200), "200 OK");
    assert_eq!(status_string(404), "404 Not Found");
    assert_eq!(status_string(418), "418 I'm a teapot");
    assert_eq!(status_string(299), "299 <unknown status code>");
    assert_eq!(status_string(100), "100 Continue");
    assert_eq!(status_string(999), "999 <unknown status code>");
}

#[test]
fn decimal_text() {
    let mut s = String::from("n=");
    append_decimal(&mut s, 0);
    assert_eq!(s, "n=0");
    let mut s = String::new();
    append_decimal(&mut s, 1234567890);
    assert_eq!(s, "1234567890");
    let mut s = String::new();
    append_decimal(&mut s, u64::MAX);
    assert_eq!(s, u64::MAX.to_string());
}

#[test]
fn response_accessors() {
    let r = Response::new(201, "made".to_string());
    assert_eq!(r.code(), 201);
    assert_eq!(r.content(), "made");
    let r = Response::with_body(202, ResponseBody { content: "b".to_string() });
    assert_eq!(r.code(), 202);
    assert_eq!(r.content(), "b");
}

#[test]
fn response_body_from_string() {
    let b: ResponseBody = ResponseBody::from("text".to_string());
    assert_eq!(b.content, "text");
    let b = "other".to_string().build_response_body();
    assert_eq!(b.content, "other");
}

#[test]
fn router_reads_back_what_was_mounted() {
    let router = Router::new().handler("/".to_string(), 1u32).handler("/pepa".to_string(), 2u32);
    assert_eq!(router.len(), 2);
    assert_eq!(router.route(&request("/")), Some(&1));
    assert_eq!(router.route(&request("/pepa")), Some(&2));
    assert_eq!(router.route(&request("/nope")), None);
    let router = router.handler("/".to_string(), 3u32);
    assert_eq!(router.len(), 2);
    assert_eq!(router.route(&request("/")), Some(&3));
    assert_eq!(router.route_path("/pepa"), Some(&2));
}

#[test]
fn empty_router_routes_nothing() {
    let router: Router<u8> = Router::new();
    assert_eq!(router.len(), 0);
    assert_eq!(router.route(&request("/")), None);
}

#[test]
fn dispatch_to_handler() {
    let router = Router::new().handler("/".to_string(), "root");
    match dispatch(&router, Ok(request("/"))) {
        Outcome::Call(h, req) => {
            assert_eq!(*h, "root");
            assert_eq!(req.path, "/");
        }
        Outcome::Reply(_) => panic!("expected the handler"),
    }
}

#[test]
fn dispatch_unknown_path_is_not_found() {
    let router = Router::new().handler("/".to_string(), "root");
    match dispatch(&router, Ok(request("/missing"))) {
        Outcome::Reply(r) => {
            assert_eq!(r.code(), 404);
            assert_eq!(r.content(), "resource /missing not found");
        }
        Outcome::Call(_, _) => panic!("expected a reply"),
    }
}

#[test]
fn dispatch_unreadable_request_is_server_error() {
    let router: Router<&str> = Router::new();
    let err = RequestError::new("Error processing headers: invalid request data".to_string());
    match dispatch(&router, Err(err)) {
        Outcome::Reply(r) => {
            assert_eq!(r.code(), 500);
            assert_eq!(r.content(), "Error processing headers: invalid request data");
        }
        Outcome::Call(_, _) => panic!("expected a reply"),
    }
}

#[test]
fn handler_bodies_answer_ok() {
    let r = handler_response(ResponseBody { content: "HOLA".to_string() });
    assert_eq!(r.code(), 200);
    assert_eq!(r.content(), "HOLA");
}

#[test]
fn server_errors() {
    assert_eq!(ServerError::new("address in use").inner, "Error creating server :address in use");
    assert_eq!(detector("broken pipe").inner, "vino de por aqui? broken pipe");
}

#[test]
fn other_handler_wraps_a_response() {
    let r = other_handler(request("/pepa"), 0);
    assert_eq!(r.code(), 200);
    assert_eq!(
        r.content(),
        "HTTP/1.1 200 OK\r\nDate: Thu, 01 Jan 1970 00:00:00 GMT\r\nServer: ServerEdu\r\nContent-Length: 8\r\nContent-Type : text/plain\r\n\r\nHELLOOOO"
    );
}

#[test]
fn get_handler_answers_a() {
    let r = get(5u8);
    assert_eq!(r.code(), 200);
    assert_eq!(r.content(), "a");
}

#[test]
fn sample_handler_table() {
    let m = some_kinda_handler(&request("/jsoncito"));
    assert_eq!(
        m.entries,
        vec![
            ("hola".to_string(), "hola".to_string()),
            ("chau".to_string(), "chau".to_string())
        ]
    );
}

#[test]
fn format_status_with_given_phrase() {
    assert_eq!(format_status(200, Some("OK")), "200 OK");
    assert_eq!(format_status(123, None), "123 <unknown status code>");
}

#[test]
fn format_message_with_given_parts() {
    assert_eq!(
        format_message("200 OK", "D", "héllo"),
        "HTTP/1.1 200 OK\r\nDate: D\r\nServer: ServerEdu\r\nContent-Length: 6\r\nContent-Type : text/plain\r\n\r\nhéllo"
    );
    assert_eq!(
        format_message("404 Not Found", "", ""),
        "HTTP/1.1 404 Not Found\r\nDate: \r\nServer: ServerEdu\r\nContent-Length: 0\r\nContent-Type : text/plain\r\n\r\n"
    );
}
