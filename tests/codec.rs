use server::{read_line, wanted_len, Method, ParseError, Request, Response};

fn header(req: &Request, name: &str) -> Option<String> {
    req.headers.get(&name.to_string()).cloned()
}

#[test]
fn request_line_yields_method_and_endpoint() {
    let req = Request::read(b"GET /x HTTP/1.1\r\n\r\n").unwrap();
    assert_eq!(req.method, Method::Get);
    assert_eq!(req.endpoint, "/x");
    assert_eq!(req.headers.len(), 0);
    assert_eq!(req.body, None);
}

#[test]
fn request_line_without_version() {
    let req = Request::read(b"POST /submit\n\n").unwrap();
    assert_eq!(req.method, Method::Post);
    assert_eq!(req.endpoint, "/submit");
}

#[test]
fn method_is_parsed_ignoring_case() {
    assert_eq!(Method::parse("get").unwrap(), Method::Get);
    assert_eq!(Method::parse("PoSt").unwrap(), Method::Post);
    assert_eq!(Method::parse("GET").unwrap(), Method::Get);
    let err = Method::parse("put").unwrap_err();
    assert_eq!(err.0, "PUT");
    assert_eq!(Method::Get.name(), "GET");
    assert_eq!(Method::Post.name(), "POST");
}

#[test]
fn unknown_method_is_a_parse_error() {
    match Request::read(b"DELETE /x HTTP/1.1\r\n\r\n") {
        Err(ParseError::Method(e)) => assert_eq!(e.0, "DELETE"),
        other => panic!("unexpected {:?}", other),
    }
}

#[test]
fn request_line_without_path_is_a_parse_error() {
    assert!(matches!(Request::read(b"GET\n\n"), Err(ParseError::MissingPath)));
}

#[test]
fn header_line_without_colon_is_a_parse_error() {
    assert!(matches!(
        Request::read(b"GET / HTTP/1.1\r\nBroken header\r\n\r\n"),
        Err(ParseError::MalformedHeader)
    ));
}

#[test]
fn content_length_reads_the_body() {
    let req = Request::read(b"POST /a HTTP/1.1\r\nContent-Length: 5\r\n\r\nhello").unwrap();
    assert_eq!(req.body, Some("hello".to_string()));
    assert_eq!(header(&req, "Content-Length"), Some("5".to_string()));
}

#[test]
fn zero_or_absent_content_length_gives_no_body() {
    let req = Request::read(b"POST /a HTTP/1.1\r\nContent-Length: 0\r\n\r\nhello").unwrap();
    assert_eq!(req.body, None);
    let req = Request::read(b"POST /a HTTP/1.1\r\n\r\nhello").unwrap();
    assert_eq!(req.body, None);
    let req = Request::read(b"POST /a HTTP/1.1\r\nContent-Length: many\r\n\r\nhello").unwrap();
    assert_eq!(req.body, None);
}

#[test]
fn body_stops_at_content_length_or_end_of_input() {
    let req = Request::read(b"POST /a\nContent-Length: 3\n\nhello").unwrap();
    assert_eq!(req.body, Some("hel".to_string()));
    let req = Request::read(b"POST /a\nContent-Length: 10\n\nhi").unwrap();
    assert_eq!(req.body, Some("hi".to_string()));
}

#[test]
fn body_is_decoded_lossily() {
    let req = Request::read(b"POST /a\nContent-Length: 3\n\na\xffb").unwrap();
    assert_eq!(req.body, Some("a\u{fffd}b".to_string()));
}

#[test]
fn headers_are_trimmed_and_last_write_wins() {
    let req = Request::read(b"GET / HTTP/1.1\r\n  Host :  example : 80 \r\nX-A: 1\r\nX-A: 2\r\nx-a: 3\r\n\r\n")
        .unwrap();
    assert_eq!(header(&req, "Host"), Some("example : 80".to_string()));
    assert_eq!(header(&req, "X-A"), Some("2".to_string()));
    assert_eq!(header(&req, "x-a"), Some("3".to_string()));
    assert_eq!(req.headers.len(), 3);
}

#[test]
fn input_ending_inside_the_head_still_reads() {
    let req = Request::read(b"GET /path HTTP/1.1\r\nA: b").unwrap();
    assert_eq!(req.endpoint, "/path");
    assert_eq!(header(&req, "A"), Some("b".to_string()));
}

#[test]
fn read_line_takes_bytes_as_latin1() {
    let input = b"ab\xe9\ncd";
    let (line, next) = read_line(input, 0);
    assert_eq!(line, "ab\u{e9}");
    assert_eq!(next, 4);
    let (line, next) = read_line(input, next);
    assert_eq!(line, "cd");
    assert_eq!(next, 6);
    let (line, next) = read_line(input, next);
    assert_eq!(line, "");
    assert_eq!(next, 6);
}

#[test]
fn wanted_len_waits_for_a_complete_head() {
    assert_eq!(wanted_len(b""), None);
    assert_eq!(wanted_len(b"GET / HTTP/1.1"), None);
    assert_eq!(wanted_len(b"GET / HTTP/1.1\r\nHost"), None);
    assert_eq!(wanted_len(b"GET / HTTP/1.1\r\nHost: a\r\n\r"), None);
    assert_eq!(wanted_len(b"GET / HTTP/1.1\r\nHost: a\r\n\r\n"), Some(27));
    assert_eq!(wanted_len(b"POST / HTTP/1.1\r\nContent-Length: 5\r\n\r\nhe"), Some(43));
    assert_eq!(wanted_len(b"GET / HTTP/1.1\r\nbroken\r\nmore"), Some(24));
}

#[test]
fn response_text_has_status_headers_and_body() {
    let resp = Response::new(200, "OK".to_string()).with_header("X".to_string(), "Y".to_string());
    assert_eq!(resp.to_text(), "HTTP/1.1 200\nX: Y\n\nOK");
    let resp = Response::new(404, "Not Found".to_string());
    assert_eq!(resp.to_text(), "HTTP/1.1 404\n\nNot Found");
}

#[test]
fn response_round_trip_recovers_status_and_headers() {
    let resp = Response::new(200, "OK".to_string()).with_header("X".to_string(), "Y".to_string());
    let text = resp.to_text();
    let (status, headers, rest) = Response::read_head(text.as_bytes()).unwrap();
    assert_eq!(status, 200);
    assert_eq!(headers.len(), 1);
    assert_eq!(headers.get(&"X".to_string()), Some(&"Y".to_string()));
    assert_eq!(&text.as_bytes()[rest..], b"OK");
}

#[test]
fn with_header_replaces_an_existing_value() {
    let resp = Response::new(201, String::new())
        .with_header("A".to_string(), "1".to_string())
        .with_header("B".to_string(), "2".to_string())
        .with_header("A".to_string(), "3".to_string());
    assert_eq!(resp.status(), 201);
    assert_eq!(resp.headers().len(), 2);
    assert_eq!(resp.to_text(), "HTTP/1.1 201\nA: 3\nB: 2\n\n");
}

#[test]
fn fixed_responses() {
    assert_eq!(Response::not_found().to_text(), "HTTP/1.1 404\n\nNot Found");
    assert_eq!(Response::bad_request().to_text(), "HTTP/1.1 400\n\nBad Request");
    assert_eq!(Response::internal_error().to_text(), "HTTP/1.1 500\n\nInternal Server Error");
    assert_eq!(Response::new(7, String::new()).to_text(), "HTTP/1.1 7\n\n");
}

#[test]
fn carriage_return_stays_in_a_lone_method_token() {
    match Request::read(b"GET\r\n\r\n") {
        Err(ParseError::Method(e)) => assert_eq!(e.0, "GET\r"),
        other => panic!("unexpected {:?}", other),
    }
}

#[test]
fn method_error_message_names_the_token() {
    let err = Method::parse("patch").unwrap_err();
    assert_eq!(err.message(), "Cannot parse PATCH as POST method");
}

#[test]
fn method_from_str_ignores_case() {
    assert_eq!("post".parse::<Method>().unwrap(), Method::Post);
    assert!("HEAD".parse::<Method>().is_err());
}
