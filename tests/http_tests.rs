use load_balancer_llamaedge::http::{
    backend_bytes, declared_body_length, find_head_end, frame_request, parse_request_line, route,
    Framing, Route,
};

#[test]
fn head_end_is_first_blank_line() {
    assert_eq!(find_head_end(b"GET / HTTP/1.1\r\nA: b\r\n\r\nxx\r\n\r\n"), Some(20));
    assert_eq!(find_head_end(b"GET / HTTP/1.1\r\n"), None);
    assert_eq!(find_head_end(b""), None);
}

#[test]
fn incomplete_without_blank_line() {
    assert!(matches!(frame_request(b"POST /v1/chat/completions HTTP/1.1\r\nHost: x\r\n"), Framing::Incomplete));
}

#[test]
fn incomplete_while_body_is_short() {
    let buf = b"POST /v1/chat/completions HTTP/1.1\r\nContent-Length: 5\r\n\r\nhel";
    assert!(matches!(frame_request(buf), Framing::Incomplete));
}

#[test]
fn malformed_content_length() {
    let buf = b"POST /v1/chat/completions HTTP/1.1\r\nContent-Length: five\r\n\r\nhello";
    assert!(matches!(frame_request(buf), Framing::Malformed));
}

#[test]
fn complete_request_splits_head_and_body() {
    let buf = b"POST /v1/chat/completions HTTP/1.1\r\nHost: lb\r\nContent-Length: 5\r\n\r\nhello";
    match frame_request(buf) {
        Framing::Complete(req) => {
            assert_eq!(req.head, b"POST /v1/chat/completions HTTP/1.1\r\nHost: lb\r\nContent-Length: 5".to_vec());
            assert_eq!(req.body, b"hello".to_vec());
        }
        _ => panic!("expected a complete request"),
    }
}

#[test]
fn forwarded_bytes_equal_what_the_client_sent() {
    let buf = b"POST /v1/chat/completions HTTP/1.1\r\nContent-Length: 5\r\n\r\nhello";
    match frame_request(buf) {
        Framing::Complete(req) => assert_eq!(backend_bytes(&req), buf.to_vec()),
        _ => panic!("expected a complete request"),
    }
}

#[test]
fn bytes_past_the_declared_body_are_not_part_of_it() {
    let buf = b"POST /v1/chat/completions HTTP/1.1\r\nContent-Length: 2\r\n\r\nhello";
    match frame_request(buf) {
        Framing::Complete(req) => assert_eq!(req.body, b"he".to_vec()),
        _ => panic!("expected a complete request"),
    }
}

#[test]
fn no_content_length_means_empty_body() {
    let buf = b"GET /api/services HTTP/1.1\r\nHost: lb\r\n\r\ntrailing";
    match frame_request(buf) {
        Framing::Complete(req) => assert!(req.body.is_empty()),
        _ => panic!("expected a complete request"),
    }
}

#[test]
fn content_length_name_ignores_case_and_value_is_trimmed() {
    assert_eq!(declared_body_length(b"POST / HTTP/1.1\r\ncOnTeNt-LeNgTh:\t 12 \r\nX: y"), Some(12));
    assert_eq!(declared_body_length(b"POST / HTTP/1.1\r\nX: y"), Some(0));
    assert_eq!(declared_body_length(b"POST / HTTP/1.1\r\nContent-Length: 1\r\nContent-Length: 9"), Some(1));
    assert_eq!(declared_body_length(b"POST / HTTP/1.1\r\nContent-Length: "), None);
    assert_eq!(declared_body_length(b"POST / HTTP/1.1\r\nContent-Length: 99999999999999999999"), None);
}

#[test]
fn content_length_on_request_line_does_not_count() {
    assert_eq!(declared_body_length(b"Content-Length: 4"), Some(0));
}

#[test]
fn request_line_of_three_words() {
    let rl = parse_request_line(b"POST /v1/chat/completions HTTP/1.1\r\nHost: x").unwrap();
    assert_eq!(rl.method, "POST");
    assert_eq!(rl.path, "/v1/chat/completions");
}

#[test]
fn request_line_spacing_is_loose() {
    let rl = parse_request_line(b"  GET \t /api/services   HTTP/1.1  ").unwrap();
    assert_eq!(rl.method, "GET");
    assert_eq!(rl.path, "/api/services");
}

#[test]
fn request_line_with_wrong_word_count_is_rejected() {
    assert!(parse_request_line(b"GET /\r\nHost: x").is_none());
    assert!(parse_request_line(b"GET / HTTP/1.1 extra").is_none());
    assert!(parse_request_line(b"").is_none());
}

#[test]
fn routes_of_the_control_endpoints() {
    assert!(matches!(route("POST", "/api/register"), Route::Register));
    assert!(matches!(route("GET", "/api/services"), Route::ListServices));
    match route("DELETE", "/api/unregister/llama-a") {
        Route::Unregister(name) => assert_eq!(name, "llama-a"),
        _ => panic!("expected an unregister route"),
    }
    match route("DELETE", "/api/unregister/") {
        Route::Unregister(name) => assert_eq!(name, ""),
        _ => panic!("expected an unregister route"),
    }
    assert!(matches!(route("GET", "/api/register"), Route::NotFound));
    assert!(matches!(route("POST", "/api/other"), Route::NotFound));
}

#[test]
fn routes_of_the_proxy_path() {
    assert!(matches!(route("POST", "/v1/chat/completions"), Route::Proxy));
    assert!(matches!(route("GET", "/v1/chat/completions"), Route::NotFound));
    assert!(matches!(route("POST", "/v1/completions"), Route::NotFound));
}

#[test]
fn request_line_splits_at_unicode_white_space() {
    assert!(parse_request_line("a b c\u{3000}d".as_bytes()).is_none());
    let rl = parse_request_line("GET\u{3000}/api/services\u{a0}HTTP/1.1\r\nHost: x".as_bytes()).unwrap();
    assert_eq!(rl.method, "GET");
    assert_eq!(rl.path, "/api/services");
}

#[test]
fn request_line_with_invalid_utf8_is_decoded_with_replacements() {
    let rl = parse_request_line(b"POST /x\xff HTTP/1.1").unwrap();
    assert_eq!(rl.path, "/x\u{fffd}");
}
