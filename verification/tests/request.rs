use http_core::http_request::{Header, ParseError, RequestContext, RequestInfo};

fn header(name: &str, value: &str) -> Header {
    Header { name: name.as_bytes().to_vec(), value: value.as_bytes().to_vec() }
}

#[test]
fn parses_get_with_one_header() {
    let req =
        RequestContext::prepare_request(b"GET /echo/hello HTTP/1.1\r\nHost: x\r\n\r\n").unwrap();
    assert_eq!(req.request_info.method, b"GET".to_vec());
    assert_eq!(req.request_info.path, b"/echo/hello".to_vec());
    assert_eq!(req.request_info.version, b"HTTP/1.1".to_vec());
    assert_eq!(req.path_params, vec![b"echo".to_vec(), b"hello".to_vec()]);
    assert_eq!(req.headers, vec![header("Host", "x")]);
    assert_eq!(req.body, Vec::<u8>::new());
}

#[test]
fn missing_blank_line_is_malformed() {
    let r = RequestContext::prepare_request(b"GET / HTTP/1.1\r\nHost: x\r\n");
    assert_eq!(r, Err(ParseError::MalformedRequest));
}

#[test]
fn empty_input_is_malformed() {
    assert_eq!(RequestContext::prepare_request(b""), Err(ParseError::MalformedRequest));
    assert_eq!(RequestContext::parse_message(b""), Err(ParseError::MalformedRequest));
}

#[test]
fn short_inputs_are_malformed() {
    assert_eq!(RequestContext::prepare_request(b"\r\n\r"), Err(ParseError::MalformedRequest));
    assert_eq!(RequestContext::prepare_request(b"\r\n\r\n"), Err(ParseError::MalformedRequest));
    assert_eq!(RequestContext::prepare_request(b"\n\n"), Err(ParseError::MalformedRequest));
}

#[test]
fn zero_padding_of_the_buffer_is_no_content() {
    let mut raw = b"GET / HTTP/1.1\r\nHost: x\r\n\r\nhi".to_vec();
    raw.extend_from_slice(&[0u8; 64]);
    let req = RequestContext::prepare_request(&raw).unwrap();
    assert_eq!(req.body, b"hi".to_vec());
    let exact = RequestContext::prepare_request(b"GET / HTTP/1.1\r\nHost: x\r\n\r\nhi").unwrap();
    assert_eq!(req, exact);
}

#[test]
fn padding_after_the_blank_line_leaves_an_empty_body() {
    let mut raw = b"GET / HTTP/1.1\r\n\r\n".to_vec();
    raw.extend_from_slice(&[0u8; 8]);
    let req = RequestContext::prepare_request(&raw).unwrap();
    assert_eq!(req.body, Vec::<u8>::new());
    assert_eq!(req.headers, Vec::<Header>::new());
}

#[test]
fn exact_parse_keeps_zero_bytes() {
    let raw = b"POST /files/a HTTP/1.1\r\nContent-Length: 4\r\n\r\n\x01\x00\x00\x00";
    let req = RequestContext::parse_message(raw).unwrap();
    assert_eq!(req.body, vec![1u8, 0, 0, 0]);
    assert_eq!(RequestContext::prepare_request(raw), Err(ParseError::Truncated));
}

#[test]
fn fewer_than_three_tokens_is_malformed() {
    assert_eq!(
        RequestContext::prepare_request(b"GET /\r\nHost: x\r\n\r\n"),
        Err(ParseError::MalformedRequest)
    );
    assert_eq!(
        RequestContext::parse_start_line(b"GET"),
        Err(ParseError::MalformedRequest)
    );
    assert_eq!(RequestContext::parse_start_line(b"   "), Err(ParseError::MalformedRequest));
}

#[test]
fn target_without_leading_slash_is_malformed() {
    assert_eq!(
        RequestContext::prepare_request(b"GET index.html HTTP/1.1\r\n\r\n"),
        Err(ParseError::MalformedRequest)
    );
    assert_eq!(
        RequestContext::parse_start_line(b"OPTIONS * HTTP/1.1"),
        Err(ParseError::MalformedRequest)
    );
}

#[test]
fn start_line_tokens_are_split_at_any_whitespace() {
    let info = RequestContext::parse_start_line(b"  GET \t /a/b   HTTP/1.1 extra").unwrap();
    assert_eq!(
        info,
        RequestInfo {
            method: b"GET".to_vec(),
            path: b"/a/b".to_vec(),
            version: b"HTTP/1.1".to_vec()
        }
    );
}

#[test]
fn header_line_without_separator_is_malformed() {
    assert_eq!(
        RequestContext::prepare_request(b"GET / HTTP/1.1\r\nHost:x\r\n\r\n"),
        Err(ParseError::MalformedRequest)
    );
    assert_eq!(
        RequestContext::parse_header_line(b"no separator here"),
        Err(ParseError::MalformedRequest)
    );
}

#[test]
fn header_is_split_at_the_first_separator_and_trimmed() {
    let h = RequestContext::parse_header_line(b"X-Note:  a: b \t").unwrap();
    assert_eq!(h, header("X-Note", "a: b"));
    let h = RequestContext::parse_header_line(b" Host : example.org").unwrap();
    assert_eq!(h, header("Host", "example.org"));
}

#[test]
fn headers_keep_their_order_and_case() {
    let req = RequestContext::prepare_request(
        b"GET / HTTP/1.1\r\nhost: a\r\nUser-Agent: curl/8\r\nAccept: */*\r\n\r\n",
    )
    .unwrap();
    assert_eq!(
        req.headers,
        vec![header("host", "a"), header("User-Agent", "curl/8"), header("Accept", "*/*")]
    );
}

#[test]
fn header_lookup_ignores_case_and_takes_the_last() {
    let req = RequestContext::prepare_request(
        b"GET / HTTP/1.1\r\nHost: a\r\nX: 1\r\nhOsT: b\r\n\r\n",
    )
    .unwrap();
    assert_eq!(req.header(b"host"), Some(&b"b".to_vec()));
    assert_eq!(req.header(b"HOST"), Some(&b"b".to_vec()));
    assert_eq!(req.header(b"x"), Some(&b"1".to_vec()));
    assert_eq!(req.header(b"Hos"), None);
    assert_eq!(req.header(b"Accept"), None);
}

#[test]
fn content_length_bounds_the_body() {
    let req = RequestContext::prepare_request(
        b"POST /files/a HTTP/1.1\r\nContent-Length: 3\r\n\r\nabcXYZ",
    )
    .unwrap();
    assert_eq!(req.body, b"abc".to_vec());
}

#[test]
fn content_length_name_is_matched_in_any_case() {
    let req = RequestContext::prepare_request(
        b"POST /files/a HTTP/1.1\r\ncontent-length: 2\r\n\r\nabcXYZ",
    )
    .unwrap();
    assert_eq!(req.body, b"ab".to_vec());
}

#[test]
fn content_length_zero_gives_an_empty_body() {
    let req =
        RequestContext::prepare_request(b"POST /x HTTP/1.1\r\nContent-Length: 0\r\n\r\nabc")
            .unwrap();
    assert_eq!(req.body, Vec::<u8>::new());
}

#[test]
fn body_shorter_than_declared_is_truncated() {
    assert_eq!(
        RequestContext::prepare_request(b"POST /x HTTP/1.1\r\nContent-Length: 5\r\n\r\nabc"),
        Err(ParseError::Truncated)
    );
}

#[test]
fn enormous_content_length_is_truncated() {
    assert_eq!(
        RequestContext::prepare_request(
            b"POST /x HTTP/1.1\r\nContent-Length: 99999999999999999999999999999999\r\n\r\nabc"
        ),
        Err(ParseError::Truncated)
    );
}

#[test]
fn content_length_that_is_no_number_is_malformed() {
    assert_eq!(
        RequestContext::prepare_request(b"POST /x HTTP/1.1\r\nContent-Length: 3x\r\n\r\nabc"),
        Err(ParseError::MalformedRequest)
    );
    assert_eq!(
        RequestContext::prepare_request(b"POST /x HTTP/1.1\r\nContent-Length: -1\r\n\r\nabc"),
        Err(ParseError::MalformedRequest)
    );
}

#[test]
fn without_content_length_the_body_is_what_follows() {
    let raw: &[u8] = b"POST /x HTTP/1.1\r\nHost: a\r\n\r\nline\r\n\r\nmore";
    let req = RequestContext::prepare_request(raw).unwrap();
    assert_eq!(req.body, b"line\r\n\r\nmore".to_vec());
}

#[test]
fn binary_body_is_taken_verbatim() {
    let mut raw = b"POST /files/bin HTTP/1.1\r\nContent-Length: 6\r\n\r\n".to_vec();
    let body = vec![0xffu8, 0x00, 0xfe, 0x0d, 0x0a, 0x80];
    raw.extend_from_slice(&body);
    let req = RequestContext::parse_message(&raw).unwrap();
    assert_eq!(req.body, body);
}

#[test]
fn root_path_has_no_segments() {
    let req = RequestContext::prepare_request(b"GET / HTTP/1.1\r\n\r\n").unwrap();
    assert_eq!(req.request_info.path, b"/".to_vec());
    assert_eq!(req.path_params, Vec::<Vec<u8>>::new());
    assert_eq!(RequestContext::parse_path_params(b"/"), Vec::<Vec<u8>>::new());
}

#[test]
fn empty_segments_are_left_out() {
    assert_eq!(
        RequestContext::parse_path_params(b"//a///b/"),
        vec![b"a".to_vec(), b"b".to_vec()]
    );
    assert_eq!(RequestContext::parse_path_params(b"/files/"), vec![b"files".to_vec()]);
    assert_eq!(RequestContext::parse_path_params(b""), Vec::<Vec<u8>>::new());
}

#[test]
fn request_info_is_the_start_line() {
    let raw: &[u8] = b"GET   /echo/hello   HTTP/1.1\r\nHost: x\r\n\r\n";
    let req = RequestContext::prepare_request(raw).unwrap();
    assert_eq!(req.request_info(), b"GET /echo/hello HTTP/1.1".to_vec());
}

#[test]
fn empty_info_holds_three_empty_tokens() {
    let info = RequestInfo::empty_info();
    assert!(info.method.is_empty());
    assert!(info.path.is_empty());
    assert!(info.version.is_empty());
}

#[test]
fn bare_line_feeds_do_not_end_lines() {
    assert_eq!(
        RequestContext::prepare_request(b"GET / HTTP/1.1\nHost: x\n\n"),
        Err(ParseError::MalformedRequest)
    );
    let req = RequestContext::prepare_request(b"GET / HTTP/1.1\r\nA: b\nc\r\n\r\n").unwrap();
    assert_eq!(req.headers, vec![header("A", "b\nc")]);
}

#[test]
fn parsing_is_a_function_of_the_bytes() {
    let a = RequestContext::prepare_request(b"GET /echo/one HTTP/1.1\r\n\r\n");
    let b = RequestContext::prepare_request(b"GET /echo/two HTTP/1.1\r\n\r\n");
    let a2 = RequestContext::prepare_request(b"GET /echo/one HTTP/1.1\r\n\r\n");
    assert_eq!(a, a2);
    assert_ne!(a, b);
}

#[test]
fn written_request_has_lines_blank_line_and_body() {
    let req = RequestContext {
        request_info: RequestInfo {
            method: b"POST".to_vec(),
            path: b"/files/a".to_vec(),
            version: b"HTTP/1.1".to_vec(),
        },
        path_params: vec![b"files".to_vec(), b"a".to_vec()],
        headers: vec![header("Host", "x"), header("Content-Length", "3")],
        body: b"abc".to_vec(),
    };
    assert_eq!(
        req.to_bytes(),
        b"POST /files/a HTTP/1.1\r\nHost: x\r\nContent-Length: 3\r\n\r\nabc".to_vec()
    );
    let bare = RequestContext::parse_message(b"GET / HTTP/1.1\r\n\r\n").unwrap();
    assert_eq!(bare.to_bytes(), b"GET / HTTP/1.1\r\n\r\n".to_vec());
}

#[test]
fn written_request_is_read_back() {
    let body: Vec<u8> = vec![0, 1, 13, 10, 13, 10, 254, 255, 0];
    let req = RequestContext {
        request_info: RequestInfo {
            method: b"PUT".to_vec(),
            path: b"/a//b/c".to_vec(),
            version: b"HTTP/1.0".to_vec(),
        },
        path_params: vec![b"a".to_vec(), b"b".to_vec(), b"c".to_vec()],
        headers: vec![
            header("X-Empty", ""),
            header("content-length", "9"),
            header("Note", "a: b: c"),
        ],
        body,
    };
    assert_eq!(RequestContext::parse_message(&req.to_bytes()), Ok(req));
}

#[test]
fn parsed_request_is_written_as_it_came() {
    let raw: &[u8] = b"GET /echo/hello HTTP/1.1\r\nHost: x\r\nAccept: */*\r\n\r\n";
    let req = RequestContext::parse_message(raw).unwrap();
    assert_eq!(req.to_bytes(), raw.to_vec());
}
