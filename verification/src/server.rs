//! The decisions of the connection driver: when a request is complete, which
//! handler answers it, and what each handler replies. Reading and writing the
//! connection and the files is left to the caller, who is told what to do by
//! an [`Action`] and reports back what came of it.

use vstd::prelude::*;
use vstd::slice::{slice_subrange, slice_to_vec};
use vstd::string::*;
use crate::http_request::{
    content_length_name, header_value, parsed_message, ParseError, Request, RequestContext,
};
use crate::http_utils::{response_body, ContentType, HttpStatus, Response, ResponseDescriptor};
use crate::text::{
    append, blank_line, decimal_value, find, first_occurrence, join, joined,
    lemma_first_occurrence_some, lemma_first_occurrence_stays, same_bytes, starts_with, views,
    wire,
};

verus! {

/// The handler that answers a request.
#[derive(Debug, Clone, Copy, PartialEq, Eq, Structural)]
pub enum Route {
    /// Sends back the path segments that follow `/echo`.
    Echo,
    /// Sends back the `User-Agent` header.
    UserAgent,
    /// Sends the file named after `/files`.
    FileGet,
    /// Stores the body in the file named after `/files`.
    FilePost,
    /// Answers the path `/` with an empty success.
    Root,
    /// Answers everything else.
    NotFound,
}

/// The handler for a request, by the prefix of its path and, for files, by
/// its method. The path `/` alone is the root; what fits nothing is not found.
pub open spec fn route_of(req: Request) -> Route {
    let path = req.start.path;
    let method = req.start.method;
    if wire("/echo"@).is_prefix_of(path) {
        Route::Echo
    } else if wire("/user-agent"@).is_prefix_of(path) {
        Route::UserAgent
    } else if wire("/files"@).is_prefix_of(path) && method == wire("GET"@) {
        Route::FileGet
    } else if wire("/files"@).is_prefix_of(path) && method == wire("POST"@) {
        Route::FilePost
    } else if path == wire("/"@) {
        Route::Root
    } else {
        Route::NotFound
    }
}

/// Picks the handler for a request.
pub fn route(request: &RequestContext) -> (r: Route)
    ensures
        r == route_of(request@),
{
    let path = request.request_info.path.as_slice();
    let method = request.request_info.method.as_slice();
    if starts_with(path, "/echo".as_bytes()) {
        Route::Echo
    } else if starts_with(path, "/user-agent".as_bytes()) {
        Route::UserAgent
    } else if starts_with(path, "/files".as_bytes()) && same_bytes(method, "GET".as_bytes()) {
        Route::FileGet
    } else if starts_with(path, "/files".as_bytes()) && same_bytes(method, "POST".as_bytes()) {
        Route::FilePost
    } else if same_bytes(path, "/".as_bytes()) {
        Route::Root
    } else {
        Route::NotFound
    }
}

/// The reply of the echo handler: the path segments after the first, with
/// one space between each two; a bad request where there is none.
pub open spec fn echo_response(req: Request) -> Response {
    if req.path_params.len() <= 1 {
        Response::with(
            HttpStatus::BadRequest,
            ContentType::TextPlain,
            wire("no path params found"@),
        )
    } else {
        Response::with(
            HttpStatus::OK,
            ContentType::TextPlain,
            joined(req.path_params.skip(1), wire(" "@)),
        )
    }
}

/// Echoes the path segments that follow the first.
pub fn handle_echo(request: &RequestContext) -> (r: ResponseDescriptor)
    ensures
        r@ == echo_response(request@),
        r@.wf(),
{
    let n = request.path_params.len();
    if n <= 1 {
        ResponseDescriptor::new(
            HttpStatus::BadRequest,
            ContentType::TextPlain,
            slice_to_vec("no path params found".as_bytes()),
        )
    } else {
        let tail = slice_subrange(request.path_params.as_slice(), 1, n);
        assert(views(tail@) =~= views(request.path_params@).skip(1));
        ResponseDescriptor::new(HttpStatus::OK, ContentType::TextPlain, join(tail, " ".as_bytes()))
    }
}

/// The reply of the user-agent handler: the value of the `User-Agent`
/// header; a bad request where the request has none.
pub open spec fn user_agent_response(req: Request) -> Response {
    match header_value(req.headers, wire("User-Agent"@)) {
        Some(v) => Response::with(HttpStatus::OK, ContentType::TextPlain, v),
        None => Response::with(
            HttpStatus::BadRequest,
            ContentType::TextPlain,
            wire("header User-Agent not found"@),
        ),
    }
}

/// Replies with the value of the `User-Agent` header.
pub fn handle_user_agent(request: &RequestContext) -> (r: ResponseDescriptor)
    ensures
        r@ == user_agent_response(request@),
        r@.wf(),
{
    match request.header("User-Agent".as_bytes()) {
        Some(v) => ResponseDescriptor::new(
            HttpStatus::OK,
            ContentType::TextPlain,
            slice_to_vec(v.as_slice()),
        ),
        None => ResponseDescriptor::new(
            HttpStatus::BadRequest,
            ContentType::TextPlain,
            slice_to_vec("header User-Agent not found".as_bytes()),
        ),
    }
}

/// The option `--` and `label`, as it is written on the command line.
pub open spec fn flag_of(label: Seq<u8>) -> Seq<u8> {
    wire("--"@) + label
}

/// The first of `args` at or after index `from` in which `flag` does not
/// stand.
pub open spec fn first_without(args: Seq<Seq<u8>>, flag: Seq<u8>, from: int) -> Option<Seq<u8>>
    decreases args.len() - from,
{
    if from < 0 || from >= args.len() {
        None
    } else if first_occurrence(args[from], flag) is None {
        Some(args[from])
    } else {
        first_without(args, flag, from + 1)
    }
}

/// The value given for the option `label`: after the program's name, the
/// first argument that does not hold the option itself.
pub open spec fn arg_value(args: Seq<Seq<u8>>, label: Seq<u8>) -> Option<Seq<u8>> {
    first_without(args, flag_of(label), 1)
}

/// The message for a base directory that was not given.
pub open spec fn directory_missing() -> Seq<u8> {
    wire("argument --directory not found"@)
}

/// Finds the value given for the option `arg_label` among the command-line
/// arguments, of which the first is the program's name. The error message
/// names `--directory`, the one option that the server takes.
pub fn get_args_value(args: &Vec<Vec<u8>>, arg_label: &[u8]) -> (r: Result<Vec<u8>, Vec<u8>>)
    ensures
        match r {
            Ok(v) => arg_value(views(args@), arg_label@) == Some(v@),
            Err(e) => arg_value(views(args@), arg_label@) is None && e@ == directory_missing(),
        },
{
    let mut flag: Vec<u8> = Vec::new();
    append(&mut flag, "--".as_bytes());
    append(&mut flag, arg_label);
    let ghost all = views(args@);
    let mut i: usize = 1;
    while i < args.len()
        invariant
            1 <= i,
            all == views(args@),
            flag@ == flag_of(arg_label@),
            arg_value(all, arg_label@) == first_without(all, flag@, i as int),
        decreases args@.len() - i,
    {
        assert(all[i as int] == args@[i as int]@);
        if find(args[i].as_slice(), flag.as_slice()).is_none() {
            return Ok(slice_to_vec(args[i].as_slice()));
        }
        i += 1;
    }
    Err(slice_to_vec("argument --directory not found".as_bytes()))
}

/// What the handlers are set up with when the server starts.
#[derive(Debug, Clone, PartialEq, Eq)]
pub struct Config {
    /// The directory that the file handlers read from and write to.
    pub directory: Option<Vec<u8>>,
}

impl View for Config {
    type V = Option<Seq<u8>>;

    open spec fn view(&self) -> Option<Seq<u8>> {
        match self.directory {
            Some(d) => Some(d@),
            None => None,
        }
    }
}

impl Config {
    /// The configuration that the command line gives.
    pub fn from_args(args: &Vec<Vec<u8>>) -> (r: Config)
        ensures
            r@ == arg_value(views(args@), wire("directory"@)),
    {
        match get_args_value(args, "directory".as_bytes()) {
            Ok(d) => Config { directory: Some(d) },
            Err(_) => Config { directory: None },
        }
    }
}

/// The file that a request names under the base directory, or the reply that
/// says why there is none: a bad request without a configured directory, not
/// found where the directory or the file name is empty.
pub open spec fn file_path(req: Request, directory: Option<Seq<u8>>) -> Result<Seq<u8>, Response> {
    match directory {
        None => Err(
            Response::with(HttpStatus::BadRequest, ContentType::TextPlain, directory_missing()),
        ),
        Some(d) => if d.len() == 0 {
            Err(Response::with(HttpStatus::NotFound, ContentType::TextPlain, directory_missing()))
        } else if req.path_params.len() < 2 || req.path_params[1].len() == 0 {
            Err(
                Response::with(
                    HttpStatus::NotFound,
                    ContentType::TextPlain,
                    wire("file name not found"@),
                ),
            )
        } else {
            Ok(d + wire("/"@) + req.path_params[1])
        },
    }
}

/// Decides which file a request is about.
pub fn locate_file(request: &RequestContext, config: &Config) -> (r: Result<
    Vec<u8>,
    ResponseDescriptor,
>)
    ensures
        match r {
            Ok(path) => file_path(request@, config@) == Ok::<Seq<u8>, Response>(path@),
            Err(reply) => file_path(request@, config@) == Err::<Seq<u8>, Response>(reply@)
                && reply@.wf(),
        },
{
    match &config.directory {
        None => Err(
            ResponseDescriptor::new(
                HttpStatus::BadRequest,
                ContentType::TextPlain,
                slice_to_vec("argument --directory not found".as_bytes()),
            ),
        ),
        Some(d) => {
            if d.len() == 0 {
                Err(
                    ResponseDescriptor::new(
                        HttpStatus::NotFound,
                        ContentType::TextPlain,
                        slice_to_vec("argument --directory not found".as_bytes()),
                    ),
                )
            } else if request.path_params.len() < 2 || request.path_params[1].len() == 0 {
                Err(
                    ResponseDescriptor::new(
                        HttpStatus::NotFound,
                        ContentType::TextPlain,
                        slice_to_vec("file name not found".as_bytes()),
                    ),
                )
            } else {
                let mut path: Vec<u8> = Vec::new();
                append(&mut path, d.as_slice());
                append(&mut path, "/".as_bytes());
                append(&mut path, request.path_params[1].as_slice());
                assert(path@ =~= d@ + wire("/"@) + request@.path_params[1]);
                Ok(path)
            }
        },
    }
}

/// What the caller is to do next for a connection.
#[derive(Debug, Clone, PartialEq, Eq)]
pub enum Action {
    /// Send this response and close.
    Respond(ResponseDescriptor),
    /// Read the file at `path` and hand what came of it to `file_get_done`.
    ReadFile { path: Vec<u8> },
    /// Create the file at `path` with `contents` and hand what came of it to
    /// `file_post_done`.
    WriteFile { path: Vec<u8>, contents: Vec<u8> },
}

/// An action as a mathematical value.
pub ghost enum Step {
    /// Send this response and close.
    Respond(Response),
    /// Read the file at `path`.
    ReadFile { path: Seq<u8> },
    /// Create the file at `path` with `contents`.
    WriteFile { path: Seq<u8>, contents: Seq<u8> },
}

impl View for Action {
    type V = Step;

    open spec fn view(&self) -> Step {
        match self {
            Action::Respond(reply) => Step::Respond(reply@),
            Action::ReadFile { path } => Step::ReadFile { path: path@ },
            Action::WriteFile { path, contents } => Step::WriteFile {
                path: path@,
                contents: contents@,
            },
        }
    }
}

/// The first step of a file download: read the named file, or reply why not.
pub open spec fn file_get_step(req: Request, directory: Option<Seq<u8>>) -> Step {
    match file_path(req, directory) {
        Ok(path) => Step::ReadFile { path },
        Err(reply) => Step::Respond(reply),
    }
}

/// The first step of a file upload: write the body to the named file, or
/// reply why not.
pub open spec fn file_post_step(req: Request, directory: Option<Seq<u8>>) -> Step {
    match file_path(req, directory) {
        Ok(path) => Step::WriteFile { path, contents: req.body },
        Err(reply) => Step::Respond(reply),
    }
}

/// Starts a file download.
pub fn file_get(request: &RequestContext, config: &Config) -> (r: Action)
    ensures
        r@ == file_get_step(request@, config@),
        config@ is None ==> (r@ matches Step::Respond(reply) && reply.status
            == HttpStatus::BadRequest),
{
    match locate_file(request, config) {
        Ok(path) => Action::ReadFile { path },
        Err(reply) => Action::Respond(reply),
    }
}

/// Starts a file upload.
pub fn file_post(request: &RequestContext, config: &Config) -> (r: Action)
    ensures
        r@ == file_post_step(request@, config@),
        config@ is None ==> (r@ matches Step::Respond(reply) && reply.status
            == HttpStatus::BadRequest),
{
    match locate_file(request, config) {
        Ok(path) => Action::WriteFile { path, contents: slice_to_vec(request.body.as_slice()) },
        Err(reply) => Action::Respond(reply),
    }
}

/// The reply to a download once the file was read: its contents as an octet
/// stream, or not found with the reason given.
pub open spec fn file_get_reply(outcome: Result<Seq<u8>, Seq<u8>>) -> Response {
    match outcome {
        Ok(contents) => Response::with(HttpStatus::OK, ContentType::OctetStream, contents),
        Err(reason) => Response::with(
            HttpStatus::NotFound,
            ContentType::TextPlain,
            wire("Error: "@) + reason,
        ),
    }
}

/// Finishes a file download with what reading the file gave: its contents,
/// or the reason why it could not be read.
pub fn file_get_done(outcome: Result<Vec<u8>, Vec<u8>>) -> (r: ResponseDescriptor)
    ensures
        r@ == file_get_reply(
            match outcome {
                Ok(contents) => Ok(contents@),
                Err(reason) => Err(reason@),
            },
        ),
        r@.wf(),
        outcome is Err ==> r.status == HttpStatus::NotFound,
{
    match outcome {
        Ok(contents) => ResponseDescriptor::new(HttpStatus::OK, ContentType::OctetStream, contents),
        Err(reason) => {
            let mut message: Vec<u8> = Vec::new();
            append(&mut message, "Error: ".as_bytes());
            append(&mut message, reason.as_slice());
            ResponseDescriptor::new(HttpStatus::NotFound, ContentType::TextPlain, message)
        },
    }
}

/// Why a file could not be written, with the reason given by the system.
#[derive(Debug, Clone, PartialEq, Eq)]
pub enum WriteFailure {
    /// The file could not be created.
    Create(Vec<u8>),
    /// The file was created, but the contents could not be written.
    Write(Vec<u8>),
}

/// The message that reports a failed upload.
pub open spec fn write_failure_message(failure: WriteFailure) -> Seq<u8> {
    match failure {
        WriteFailure::Create(reason) => wire("Error: "@) + reason@,
        WriteFailure::Write(reason) => wire("Error while writing file: "@) + reason@,
    }
}

/// The reply to an upload once the file was written: created, without
/// content; or not found with the failure's message.
pub open spec fn file_post_reply(outcome: Result<(), WriteFailure>) -> Response {
    match outcome {
        Ok(_) => Response::with(HttpStatus::Created, ContentType::Unknown, Seq::empty()),
        Err(failure) => Response::with(
            HttpStatus::NotFound,
            ContentType::TextPlain,
            write_failure_message(failure),
        ),
    }
}

/// Finishes a file upload with what writing the file gave.
pub fn file_post_done(outcome: Result<(), WriteFailure>) -> (r: ResponseDescriptor)
    ensures
        r@ == file_post_reply(outcome),
        r@.wf(),
        outcome is Err ==> r.status == HttpStatus::NotFound,
{
    match outcome {
        Ok(_) => ResponseDescriptor::empty(HttpStatus::Created),
        Err(WriteFailure::Create(reason)) => {
            let mut message: Vec<u8> = Vec::new();
            append(&mut message, "Error: ".as_bytes());
            append(&mut message, reason.as_slice());
            ResponseDescriptor::new(HttpStatus::NotFound, ContentType::TextPlain, message)
        },
        Err(WriteFailure::Write(reason)) => {
            let mut message: Vec<u8> = Vec::new();
            append(&mut message, "Error while writing file: ".as_bytes());
            append(&mut message, reason.as_slice());
            ResponseDescriptor::new(HttpStatus::NotFound, ContentType::TextPlain, message)
        },
    }
}

/// The reply to a request that could not be read: a bad request without
/// content, whatever the error.
pub open spec fn rejection(error: ParseError) -> Response {
    Response::with(HttpStatus::BadRequest, ContentType::Unknown, Seq::empty())
}

/// Replies to a request that could not be read.
pub fn reject(error: ParseError) -> (r: ResponseDescriptor)
    ensures
        r@ == rejection(error),
        r@.wf(),
{
    ResponseDescriptor::empty(HttpStatus::BadRequest)
}

/// What follows from a parsed request: the reply of its handler, or the file
/// work that its handler asks for.
pub open spec fn dispatch_step(req: Request, directory: Option<Seq<u8>>) -> Step {
    match route_of(req) {
        Route::Echo => Step::Respond(echo_response(req)),
        Route::UserAgent => Step::Respond(user_agent_response(req)),
        Route::FileGet => file_get_step(req, directory),
        Route::FilePost => file_post_step(req, directory),
        Route::Root => Step::Respond(
            Response::with(HttpStatus::OK, ContentType::Unknown, Seq::empty()),
        ),
        Route::NotFound => Step::Respond(
            Response::with(HttpStatus::NotFound, ContentType::Unknown, Seq::empty()),
        ),
    }
}

/// What follows from the bytes received on a connection: a request that
/// cannot be read is rejected without asking any handler.
pub open spec fn connection_step(received: Seq<u8>, directory: Option<Seq<u8>>) -> Step {
    match parsed_message(received) {
        Ok(req) => dispatch_step(req, directory),
        Err(e) => Step::Respond(rejection(e)),
    }
}

/// Hands a parsed request to its handler.
pub fn dispatch(request: &RequestContext, config: &Config) -> (r: Action)
    ensures
        r@ == dispatch_step(request@, config@),
{
    match route(request) {
        Route::Echo => Action::Respond(handle_echo(request)),
        Route::UserAgent => Action::Respond(handle_user_agent(request)),
        Route::FileGet => file_get(request, config),
        Route::FilePost => file_post(request, config),
        Route::Root => Action::Respond(ResponseDescriptor::empty(HttpStatus::OK)),
        Route::NotFound => Action::Respond(ResponseDescriptor::empty(HttpStatus::NotFound)),
    }
}

/// Decides what to do with the bytes received on a connection.
pub fn handle_connection(received: &[u8], config: &Config) -> (r: Action)
    ensures
        r@ == connection_step(received@, config@),
{
    match RequestContext::parse_message(received) {
        Ok(request) => dispatch(&request, config),
        Err(e) => Action::Respond(reject(e)),
    }
}

/// Whether the caller has to read on.
#[derive(Debug, Clone, Copy, PartialEq, Eq, Structural)]
pub enum ReadState {
    /// The request has not ended yet: read more.
    Incomplete,
    /// The header block has ended and the body is all there, or the headers
    /// are wrong in a way that no further byte can mend.
    Complete,
}

/// Where reading stands after `received`: complete, to be continued, or over
/// the limit of `limit` bytes without being complete.
pub open spec fn read_progress(received: Seq<u8>, limit: nat) -> Result<ReadState, ParseError> {
    if first_occurrence(received, blank_line()) is Some && parsed_message(received) != Err::<
        Request,
        ParseError,
    >(ParseError::Truncated) {
        Ok(ReadState::Complete)
    } else if received.len() >= limit {
        Err(ParseError::TooLarge)
    } else {
        Ok(ReadState::Incomplete)
    }
}

/// Tells after each read whether the request is complete.
pub fn read_state(received: &[u8], limit: usize) -> (r: Result<ReadState, ParseError>)
    ensures
        r == read_progress(received@, limit as nat),
{
    let ended = find(received, "\r\n\r\n".as_bytes()).is_some();
    let complete = ended && match RequestContext::parse_message(received) {
        Err(ParseError::Truncated) => false,
        _ => true,
    };
    if complete {
        Ok(ReadState::Complete)
    } else if received.len() >= limit {
        Err(ParseError::TooLarge)
    } else {
        Ok(ReadState::Incomplete)
    }
}

/// Once a request is complete, bytes that arrive after it change neither
/// that nor what its header block holds; where a `Content-Length` is given
/// they do not change the body either, and a request that was refused stays
/// refused for the same reason.
pub proof fn lemma_complete_stays_complete(received: Seq<u8>, more: Seq<u8>, limit: nat)
    requires
        read_progress(received, limit) == Ok::<ReadState, ParseError>(ReadState::Complete),
    ensures
        read_progress(received + more, limit) == Ok::<ReadState, ParseError>(ReadState::Complete),
        match (parsed_message(received), parsed_message(received + more)) {
            (Ok(before), Ok(after)) => {
                &&& after.start == before.start
                &&& after.path_params == before.path_params
                &&& after.headers == before.headers
                &&& header_value(before.headers, content_length_name()) is Some ==> after.body
                    == before.body
            },
            (Err(before), Err(after)) => after == before,
            _ => false,
        },
{
    let all = received + more;
    lemma_first_occurrence_stays(received, more, blank_line());
    lemma_first_occurrence_some(received, blank_line());
    let end = first_occurrence(received, blank_line()).unwrap();
    assert(all.take(end) =~= received.take(end));
    let rest = received.skip(end + blank_line().len());
    let longer = all.skip(end + blank_line().len());
    assert(longer =~= rest + more);
    if parsed_message(received) is Ok {
        let headers = parsed_message(received)->Ok_0.headers;
        if let Some(v) = header_value(headers, content_length_name()) {
            assert(longer.take(decimal_value(v) as int) =~= rest.take(decimal_value(v) as int));
        }
    }
}

/// Every reply that the driver decides on is well formed, so its body can be
/// read back from the bytes sent.
pub proof fn lemma_replies_are_well_formed(received: Seq<u8>, directory: Option<Seq<u8>>)
    ensures
        connection_step(received, directory) matches Step::Respond(reply) ==> (reply.wf()
            && response_body(reply.bytes()) == reply.body),
{
    if let Step::Respond(reply) = connection_step(received, directory) {
        reply.lemma_body_round_trip();
    }
}

/// An echo, there and back: where the request read from `received` goes to
/// the echo handler and has segments to echo, the body read back from the
/// bytes of the reply is those segments, one space between each two.
pub proof fn lemma_echo_round_trip(received: Seq<u8>, directory: Option<Seq<u8>>)
    requires
        parsed_message(received) matches Ok(req) && route_of(req) == Route::Echo
            && req.path_params.len() > 1,
    ensures
        connection_step(received, directory) matches Step::Respond(reply) && reply.status
            == HttpStatus::OK && response_body(reply.bytes()) == joined(
            parsed_message(received)->Ok_0.path_params.skip(1),
            wire(" "@),
        ),
{
    lemma_replies_are_well_formed(received, directory);
}

/// The user agent, there and back: where the request read from `received`
/// goes to the user-agent handler and names its agent, the body read back
/// from the bytes of the reply is that name.
pub proof fn lemma_user_agent_round_trip(received: Seq<u8>, directory: Option<Seq<u8>>)
    requires
        parsed_message(received) matches Ok(req) && route_of(req) == Route::UserAgent
            && header_value(req.headers, wire("User-Agent"@)) is Some,
    ensures
        connection_step(received, directory) matches Step::Respond(reply) && reply.status
            == HttpStatus::OK && Some(response_body(reply.bytes())) == header_value(
            parsed_message(received)->Ok_0.headers,
            wire("User-Agent"@),
        ),
{
    lemma_replies_are_well_formed(received, directory);
}

/// An upload and a download of the same name under the same directory are
/// about the same file, and a download that finds there the bytes that the
/// upload handed over sends them back unchanged, whatever bytes they are.
pub proof fn lemma_upload_then_download(post: Request, get: Request, directory: Option<Seq<u8>>)
    requires
        file_post_step(post, directory) is WriteFile,
        get.path_params.len() >= 2,
        get.path_params[1] == post.path_params[1],
    ensures
        file_post_step(post, directory)->WriteFile_contents == post.body,
        file_get_step(get, directory) is ReadFile,
        file_get_step(get, directory)->ReadFile_path == file_post_step(
            post,
            directory,
        )->WriteFile_path,
        response_body(file_get_reply(Ok(post.body)).bytes()) == post.body,
{
    file_get_reply(Ok(post.body)).lemma_body_round_trip();
}

} // verus!
