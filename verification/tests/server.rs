use http_core::http_request::{ParseError, RequestContext};
use http_core::http_utils::{ContentType, HttpStatus, ResponseDescriptor};
use http_core::server::{
    dispatch, file_get, file_get_done, file_post, file_post_done, get_args_value,
    handle_connection, handle_echo, handle_user_agent, locate_file, read_state, reject,
    route, Action, Config, ReadState, Route, WriteFailure,
};

fn request(raw: &[u8]) -> RequestContext {
    RequestContext::parse_message(raw).unwrap()
}

fn text(status: HttpStatus, body: &str) -> ResponseDescriptor {
    ResponseDescriptor {
        status,
        content_type: ContentType::TextPlain,
        body: body.as_bytes().to_vec(),
    }
}

fn configured(dir: &str) -> Config {
    Config { directory: Some(dir.as_bytes().to_vec()) }
}

fn args(list: &[&str]) -> Vec<Vec<u8>> {
    list.iter().map(|a| a.as_bytes().to_vec()).collect()
}

#[test]
fn routes_go_by_prefix_and_method() {
    assert_eq!(route(&request(b"GET /echo/abc HTTP/1.1\r\n\r\n")), Route::Echo);
    assert_eq!(route(&request(b"POST /echo HTTP/1.1\r\n\r\n")), Route::Echo);
    assert_eq!(route(&request(b"GET /user-agent HTTP/1.1\r\n\r\n")), Route::UserAgent);
    assert_eq!(route(&request(b"GET /files/a HTTP/1.1\r\n\r\n")), Route::FileGet);
    assert_eq!(route(&request(b"POST /files/a HTTP/1.1\r\n\r\n")), Route::FilePost);
    assert_eq!(route(&request(b"DELETE /files/a HTTP/1.1\r\n\r\n")), Route::NotFound);
    assert_eq!(route(&request(b"get /files/a HTTP/1.1\r\n\r\n")), Route::NotFound);
    assert_eq!(route(&request(b"GET / HTTP/1.1\r\n\r\n")), Route::Root);
    assert_eq!(route(&request(b"GET /index.html HTTP/1.1\r\n\r\n")), Route::NotFound);
    assert_eq!(route(&request(b"GET /x/echo HTTP/1.1\r\n\r\n")), Route::NotFound);
    assert_eq!(route(&request(b"GET // HTTP/1.1\r\n\r\n")), Route::NotFound);
}

#[test]
fn echo_sends_the_segments_after_the_first() {
    let r = handle_echo(&request(b"GET /echo/hello HTTP/1.1\r\n\r\n"));
    assert_eq!(r, text(HttpStatus::OK, "hello"));
    let r = handle_echo(&request(b"GET /echo/a/b//c HTTP/1.1\r\n\r\n"));
    assert_eq!(r, text(HttpStatus::OK, "a b c"));
}

#[test]
fn echo_without_segments_is_a_bad_request() {
    let r = handle_echo(&request(b"GET /echo HTTP/1.1\r\n\r\n"));
    assert_eq!(r, text(HttpStatus::BadRequest, "no path params found"));
    let r = handle_echo(&request(b"GET / HTTP/1.1\r\n\r\n"));
    assert_eq!(r, text(HttpStatus::BadRequest, "no path params found"));
}

#[test]
fn user_agent_is_sent_back() {
    let r = handle_user_agent(&request(
        b"GET /user-agent HTTP/1.1\r\nHost: x\r\nUser-Agent: curl/8.1\r\n\r\n",
    ));
    assert_eq!(r, text(HttpStatus::OK, "curl/8.1"));
    let r = handle_user_agent(&request(b"GET /user-agent HTTP/1.1\r\nuser-agent: lower\r\n\r\n"));
    assert_eq!(r, text(HttpStatus::OK, "lower"));
}

#[test]
fn missing_user_agent_is_a_bad_request() {
    let r = handle_user_agent(&request(b"GET /user-agent HTTP/1.1\r\nHost: x\r\n\r\n"));
    assert_eq!(r, text(HttpStatus::BadRequest, "header User-Agent not found"));
}

#[test]
fn file_handlers_without_a_directory_reply_bad_request() {
    let none = Config { directory: None };
    let expected = Action::Respond(text(HttpStatus::BadRequest, "argument --directory not found"));
    assert_eq!(file_get(&request(b"GET /files/a HTTP/1.1\r\n\r\n"), &none), expected);
    assert_eq!(file_post(&request(b"POST /files/a HTTP/1.1\r\n\r\nx"), &none), expected);
}

#[test]
fn file_handlers_with_an_empty_directory_reply_not_found() {
    let expected = Action::Respond(text(HttpStatus::NotFound, "argument --directory not found"));
    assert_eq!(file_get(&request(b"GET /files/a HTTP/1.1\r\n\r\n"), &configured("")), expected);
    assert_eq!(file_post(&request(b"POST /files/a HTTP/1.1\r\n\r\nx"), &configured("")), expected);
}

#[test]
fn file_handlers_without_a_file_name_reply_not_found() {
    let expected = Action::Respond(text(HttpStatus::NotFound, "file name not found"));
    assert_eq!(file_get(&request(b"GET /files HTTP/1.1\r\n\r\n"), &configured("/tmp")), expected);
    assert_eq!(file_get(&request(b"GET /files/ HTTP/1.1\r\n\r\n"), &configured("/tmp")), expected);
    let post = request(b"POST /files HTTP/1.1\r\n\r\nx");
    assert_eq!(file_post(&post, &configured("/tmp")), expected);
}

#[test]
fn file_handlers_name_the_file_under_the_directory() {
    assert_eq!(
        file_get(&request(b"GET /files/a.txt HTTP/1.1\r\n\r\n"), &configured("/tmp/data")),
        Action::ReadFile { path: b"/tmp/data/a.txt".to_vec() }
    );
    assert_eq!(
        file_post(
            &request(b"POST /files/a.txt HTTP/1.1\r\nContent-Length: 3\r\n\r\n\x00\xff\x01"),
            &configured("/tmp/data")
        ),
        Action::WriteFile { path: b"/tmp/data/a.txt".to_vec(), contents: vec![0, 255, 1] }
    );
    assert_eq!(
        locate_file(&request(b"GET /files/a/b HTTP/1.1\r\n\r\n"), &configured("d")),
        Ok(b"d/a".to_vec())
    );
}

#[test]
fn download_sends_the_contents_as_octets() {
    let contents = vec![0u8, 159, 146, 150, 255];
    let r = file_get_done(Ok(contents.clone()));
    assert_eq!(
        r,
        ResponseDescriptor {
            status: HttpStatus::OK,
            content_type: ContentType::OctetStream,
            body: contents
        }
    );
}

#[test]
fn failed_download_is_not_found() {
    let r = file_get_done(Err(b"No such file or directory (os error 2)".to_vec()));
    assert_eq!(r, text(HttpStatus::NotFound, "Error: No such file or directory (os error 2)"));
}

#[test]
fn upload_replies_created_without_content() {
    let r = file_post_done(Ok(()));
    assert_eq!(r, ResponseDescriptor::empty(HttpStatus::Created));
    assert_eq!(r.to_bytes(), b"HTTP/1.1 201 Created\r\n\r\n".to_vec());
}

#[test]
fn failed_upload_is_not_found() {
    let r = file_post_done(Err(WriteFailure::Create(b"denied".to_vec())));
    assert_eq!(r, text(HttpStatus::NotFound, "Error: denied"));
    let r = file_post_done(Err(WriteFailure::Write(b"disk full".to_vec())));
    assert_eq!(r, text(HttpStatus::NotFound, "Error while writing file: disk full"));
}

#[test]
fn upload_then_download_returns_the_same_bytes() {
    let body: Vec<u8> = (0u8..=255).collect();
    let mut raw = b"POST /files/blob HTTP/1.1\r\nContent-Length: 256\r\n\r\n".to_vec();
    raw.extend_from_slice(&body);
    let config = configured("/srv");
    let (written_to, written) = match handle_connection(&raw, &config) {
        Action::WriteFile { path, contents } => (path, contents),
        other => panic!("unexpected action {:?}", other),
    };
    assert_eq!(written, body);
    let read_from = match handle_connection(b"GET /files/blob HTTP/1.1\r\n\r\n", &config) {
        Action::ReadFile { path } => path,
        other => panic!("unexpected action {:?}", other),
    };
    assert_eq!(read_from, written_to);
    let out = file_get_done(Ok(written)).to_bytes();
    let at = out.windows(4).position(|w| w == b"\r\n\r\n").unwrap();
    assert_eq!(out[at + 4..].to_vec(), body);
}

#[test]
fn unreadable_request_is_rejected_without_a_handler() {
    let config = configured("/srv");
    let expected = Action::Respond(ResponseDescriptor::empty(HttpStatus::BadRequest));
    assert_eq!(handle_connection(b"GET /echo/x HTTP/1.1\r\n", &config), expected);
    assert_eq!(handle_connection(b"/echo/x\r\n\r\n", &config), expected);
    assert_eq!(
        handle_connection(b"POST /files/a HTTP/1.1\r\nContent-Length: 9\r\n\r\nabc", &config),
        expected
    );
    for e in [ParseError::MalformedRequest, ParseError::Truncated, ParseError::TooLarge] {
        assert_eq!(reject(e).to_bytes(), b"HTTP/1.1 400 Bad Request\r\n\r\n".to_vec());
    }
}

#[test]
fn connection_is_answered_by_the_routed_handler() {
    let config = Config { directory: None };
    let send = |raw: &[u8]| match handle_connection(raw, &config) {
        Action::Respond(r) => r.to_bytes(),
        other => panic!("unexpected action {:?}", other),
    };
    assert_eq!(
        send(b"GET /echo/hello HTTP/1.1\r\nHost: x\r\n\r\n"),
        b"HTTP/1.1 200 OK\r\nContent-Type: text/plain\r\nContent-Length: 5\r\n\r\nhello".to_vec()
    );
    assert_eq!(
        send(b"GET /user-agent HTTP/1.1\r\nUser-Agent: t/1\r\n\r\n"),
        b"HTTP/1.1 200 OK\r\nContent-Type: text/plain\r\nContent-Length: 3\r\n\r\nt/1".to_vec()
    );
    assert_eq!(send(b"GET / HTTP/1.1\r\n\r\n"), b"HTTP/1.1 200 OK\r\n\r\n".to_vec());
    assert_eq!(send(b"GET /nothing HTTP/1.1\r\n\r\n"), b"HTTP/1.1 404 Not Found\r\n\r\n".to_vec());
    assert_eq!(
        send(b"GET /files/a HTTP/1.1\r\n\r\n"),
        [
            &b"HTTP/1.1 400 Bad Request\r\nContent-Type: text/plain\r\n"[..],
            &b"Content-Length: 30\r\n\r\nargument --directory not found"[..],
        ]
        .concat()
    );
}

#[test]
fn different_echo_paths_get_their_own_replies() {
    let config = Config { directory: None };
    let a = handle_connection(b"GET /echo/one HTTP/1.1\r\n\r\n", &config);
    let b = handle_connection(b"GET /echo/two HTTP/1.1\r\n\r\n", &config);
    let a_again = handle_connection(b"GET /echo/one HTTP/1.1\r\n\r\n", &config);
    assert_eq!(a, Action::Respond(text(HttpStatus::OK, "one")));
    assert_eq!(b, Action::Respond(text(HttpStatus::OK, "two")));
    assert_eq!(a, a_again);
}

#[test]
fn dispatch_agrees_with_the_handlers() {
    let config = Config { directory: None };
    let req = request(b"GET /echo/x/y HTTP/1.1\r\n\r\n");
    assert_eq!(dispatch(&req, &config), Action::Respond(handle_echo(&req)));
    let req = request(b"GET /user-agent HTTP/1.1\r\n\r\n");
    assert_eq!(dispatch(&req, &config), Action::Respond(handle_user_agent(&req)));
}

#[test]
fn reading_goes_on_until_the_request_is_complete() {
    assert_eq!(read_state(b"", 1024), Ok(ReadState::Incomplete));
    assert_eq!(read_state(b"GET / HTTP/1.1\r\nHost: x\r\n", 1024), Ok(ReadState::Incomplete));
    assert_eq!(read_state(b"GET / HTTP/1.1\r\nHost: x\r\n\r\n", 1024), Ok(ReadState::Complete));
    assert_eq!(
        read_state(b"POST /files/a HTTP/1.1\r\nContent-Length: 5\r\n\r\nab", 1024),
        Ok(ReadState::Incomplete)
    );
    assert_eq!(
        read_state(b"POST /files/a HTTP/1.1\r\nContent-Length: 5\r\n\r\nabcde", 1024),
        Ok(ReadState::Complete)
    );
    assert_eq!(read_state(b"nonsense\r\n\r\n", 1024), Ok(ReadState::Complete));
}

#[test]
fn reading_stops_at_the_limit() {
    assert_eq!(read_state(b"GET / HTTP/1.1\r\nHost: x\r\n", 10), Err(ParseError::TooLarge));
    assert_eq!(read_state(b"0123456789", 10), Err(ParseError::TooLarge));
    assert_eq!(read_state(b"012345678", 10), Ok(ReadState::Incomplete));
    assert_eq!(
        read_state(b"POST /files/a HTTP/1.1\r\nContent-Length: 500\r\n\r\nab", 20),
        Err(ParseError::TooLarge)
    );
    assert_eq!(read_state(b"GET / HTTP/1.1\r\n\r\n", 4), Ok(ReadState::Complete));
    assert_eq!(read_state(b"", 0), Err(ParseError::TooLarge));
}

#[test]
fn argument_value_is_the_first_that_is_not_the_option() {
    assert_eq!(
        get_args_value(&args(&["server", "--directory", "/tmp/data"]), b"directory"),
        Ok(b"/tmp/data".to_vec())
    );
    assert_eq!(
        get_args_value(&args(&["server", "--directory", "--directory", "d"]), b"directory"),
        Ok(b"d".to_vec())
    );
    assert_eq!(
        get_args_value(&args(&["server", "plain", "--directory", "d"]), b"directory"),
        Ok(b"plain".to_vec())
    );
}

#[test]
fn argument_value_may_be_missing() {
    let missing = Err(b"argument --directory not found".to_vec());
    assert_eq!(get_args_value(&args(&["server"]), b"directory"), missing);
    assert_eq!(get_args_value(&args(&[]), b"directory"), missing);
    assert_eq!(get_args_value(&args(&["server", "--directory"]), b"directory"), missing);
    assert_eq!(get_args_value(&args(&["server", "x--directory=y"]), b"directory"), missing);
}

#[test]
fn config_comes_from_the_arguments() {
    assert_eq!(
        Config::from_args(&args(&["server", "--directory", "/srv"])),
        Config { directory: Some(b"/srv".to_vec()) }
    );
    assert_eq!(Config::from_args(&args(&["server"])), Config { directory: None });
}
