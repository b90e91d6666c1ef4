use datetime_parse::http::{health, HttpRequest, HttpResponse, HttpStatus};
use std::collections::HashMap;

#[test]
fn status_lines() {
    assert_eq!("200 OK", HttpStatus::Success.to_string());
    assert_eq!("400 Bad Request", HttpStatus::BadRequest.to_string());
    assert_eq!("404 Not Found", HttpStatus::NotFound.to_string());
    assert_eq!("405 Method Not Allowed", HttpStatus::MethodNotAllowed.to_string());
    assert_eq!("505 HTTP Version Not Supported", HttpStatus::HttpVersionNotSupported.to_string());
}

#[test]
fn responses_carry_code_and_body() {
    let r = HttpResponse::not_found("/missing".to_string());
    assert_eq!(HttpStatus::NotFound, r.code());
    assert_eq!("/missing", r.body());
    let r = HttpResponse::bad_request(String::new());
    assert_eq!(HttpStatus::BadRequest, r.code());
    assert_eq!("", r.body());
    let r = HttpResponse::ok("fine".to_string());
    assert_eq!(HttpStatus::Success, r.code());
    let r = HttpResponse::new(HttpStatus::MethodNotAllowed, "POST".to_string());
    assert_eq!(HttpStatus::MethodNotAllowed, r.code());
    assert_eq!("POST", r.body());
}

#[test]
fn health_echoes_request_line() {
    let mut args = HashMap::new();
    args.insert("g".to_string(), "parse".to_string());
    let request = HttpRequest::new("GET", "/health", "HTTP/1.1", args);
    assert_eq!("parse", request.arguments["g"]);
    let r = health(request, &());
    assert_eq!(HttpStatus::Success, r.code());
    assert_eq!("GET /health HTTP/1.1", r.body());
}

#[test]
fn response_renders_with_byte_length() {
    let r = HttpResponse::ok("héllo".to_string());
    assert_eq!(
        "HTTP/1.1 200 OK\r\nContent-Type: text/plain; charset=utf-8\r\nContent-Length: 6\r\n\r\nhéllo",
        datetime_parse::http::render_response(&r)
    );
    let r = HttpResponse::not_found(String::new());
    assert_eq!(
        "HTTP/1.1 404 Not Found\r\nContent-Type: text/plain; charset=utf-8\r\nContent-Length: 0\r\n\r\n",
        datetime_parse::http::render_response(&r)
    );
}
