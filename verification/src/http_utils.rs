//! Status codes, content types and the bytes of a response.

use vstd::prelude::*;
use vstd::string::*;
use crate::text::{
    append, blank_line, ByteClass, CR, crlf, decimal_digits, first_occurrence, free_of, joined,
    lemma_blank_line_after_lines, lemma_decimal_round_trip, lemma_line_end_bytes, SPACE,
    to_decimal, wire,
};

verus! {

/// The media type of a response body.
#[derive(Debug, Clone, Copy, PartialEq, Eq, Structural)]
pub enum ContentType {
    /// `text/plain`
    TextPlain,
    /// `application/octet-stream`
    OctetStream,
    /// No body: the response carries no content headers.
    Unknown,
}

impl ContentType {
    /// The media type as it is written in a `Content-Type` header.
    pub open spec fn text(self) -> Seq<char> {
        match self {
            ContentType::TextPlain => "text/plain"@,
            ContentType::OctetStream => "application/octet-stream"@,
            ContentType::Unknown => ""@,
        }
    }

    /// The media type as it is written in a `Content-Type` header.
    pub fn as_str(&self) -> (s: &'static str)
        ensures
            s@ == self.text(),
    {
        match self {
            ContentType::TextPlain => "text/plain",
            ContentType::OctetStream => "application/octet-stream",
            ContentType::Unknown => "",
        }
    }

    /// The media type as an owned string.
    pub fn to_string(&self) -> (s: String)
        ensures
            s@ == self.text(),
    {
        self.as_str().to_owned()
    }
}

/// The status of a response.
#[derive(Debug, Clone, Copy, PartialEq, Eq, Structural)]
pub enum HttpStatus {
    /// 200
    OK,
    /// 201
    Created,
    /// 404
    NotFound,
    /// 400
    BadRequest,
}

impl HttpStatus {
    /// The numeric status code.
    pub open spec fn code_value(self) -> nat {
        match self {
            HttpStatus::OK => 200,
            HttpStatus::Created => 201,
            HttpStatus::NotFound => 404,
            HttpStatus::BadRequest => 400,
        }
    }

    /// The code and reason phrase as they stand in a status line.
    pub open spec fn text(self) -> Seq<char> {
        match self {
            HttpStatus::OK => "200 OK"@,
            HttpStatus::Created => "201 Created"@,
            HttpStatus::NotFound => "404 Not Found"@,
            HttpStatus::BadRequest => "400 Bad Request"@,
        }
    }

    /// The numeric status code.
    pub fn code(&self) -> (c: u16)
        ensures
            c == self.code_value(),
    {
        match self {
            HttpStatus::OK => 200,
            HttpStatus::Created => 201,
            HttpStatus::NotFound => 404,
            HttpStatus::BadRequest => 400,
        }
    }

    /// Whether the status reports a failure: a code of 400 or more.
    pub fn is_error(&self) -> (r: bool)
        ensures
            r == (self.code_value() >= 400),
    {
        match self {
            HttpStatus::OK => false,
            HttpStatus::Created => false,
            HttpStatus::NotFound => true,
            HttpStatus::BadRequest => true,
        }
    }

    /// The status text begins with the three digits of the code and a space.
    pub proof fn lemma_text_begins_with_code(self)
        ensures
            wire(self.text()).len() > 4,
            wire(self.text()).take(3) == decimal_digits(self.code_value()),
            wire(self.text())[3] == SPACE,
    {
        reveal_strlit("200 OK");
        reveal_strlit("201 Created");
        reveal_strlit("404 Not Found");
        reveal_strlit("400 Bad Request");
        vstd::utf8::is_ascii_chars_encode_utf8(self.text());
        reveal_with_fuel(decimal_digits, 3);
        assert(wire(self.text()).take(3) =~= decimal_digits(self.code_value()));
    }

    /// The code and reason phrase as they stand in a status line.
    pub fn as_str(&self) -> (s: &'static str)
        ensures
            s@ == self.text(),
    {
        match self {
            HttpStatus::OK => "200 OK",
            HttpStatus::Created => "201 Created",
            HttpStatus::NotFound => "404 Not Found",
            HttpStatus::BadRequest => "400 Bad Request",
        }
    }

    /// The code and reason phrase as an owned string.
    pub fn to_string(&self) -> (s: String)
        ensures
            s@ == self.text(),
    {
        self.as_str().to_owned()
    }
}

/// The status line and, where there is content, the two content headers,
/// up to and including the blank line.
pub open spec fn response_head(status: HttpStatus, content_type: ContentType, length: nat) -> Seq<
    u8,
> {
    let first = wire("HTTP/1.1 "@) + wire(status.text()) + crlf();
    match content_type {
        ContentType::Unknown => first + crlf(),
        _ => first + wire("Content-Type: "@) + wire(content_type.text()) + crlf() + wire(
            "Content-Length: "@,
        ) + decimal_digits(length) + blank_line(),
    }
}

/// The bytes of a response: with content type `Unknown` the head alone,
/// whatever `body` holds; else the head, which gives the number of bytes in
/// `body`, and then `body`.
pub open spec fn response_bytes(
    status: HttpStatus,
    content_type: ContentType,
    body: Seq<u8>,
) -> Seq<u8> {
    match content_type {
        ContentType::Unknown => response_head(status, content_type, 0),
        _ => response_head(status, content_type, body.len()) + body,
    }
}

/// Writes a response out as bytes.
pub fn prepare_response(status: HttpStatus, content_type: ContentType, body: &[u8]) -> (r: Vec<u8>)
    ensures
        r@ == response_bytes(status, content_type, body@),
{
    let mut out: Vec<u8> = Vec::new();
    append(&mut out, "HTTP/1.1 ".as_bytes());
    append(&mut out, status.as_str().as_bytes());
    append(&mut out, "\r\n".as_bytes());
    match content_type {
        ContentType::Unknown => {
            append(&mut out, "\r\n".as_bytes());
        },
        _ => {
            append(&mut out, "Content-Type: ".as_bytes());
            append(&mut out, content_type.as_str().as_bytes());
            append(&mut out, "\r\n".as_bytes());
            append(&mut out, "Content-Length: ".as_bytes());
            let digits = to_decimal(body.len());
            append(&mut out, digits.as_slice());
            append(&mut out, "\r\n\r\n".as_bytes());
            append(&mut out, body);
        },
    }
    assert(out@ =~= response_bytes(status, content_type, body@));
    out
}

proof fn lemma_status_line_is_free(status: HttpStatus)
    ensures
        free_of(wire("HTTP/1.1 "@) + wire(status.text()), ByteClass::Byte(CR)),
        (wire("HTTP/1.1 "@) + wire(status.text())).len() > 0,
{
    reveal_strlit("HTTP/1.1 ");
    reveal_strlit("200 OK");
    reveal_strlit("201 Created");
    reveal_strlit("404 Not Found");
    reveal_strlit("400 Bad Request");
    vstd::utf8::is_ascii_chars_encode_utf8("HTTP/1.1 "@);
    vstd::utf8::is_ascii_chars_encode_utf8(status.text());
}

proof fn lemma_content_type_line_is_free(content_type: ContentType)
    ensures
        free_of(wire("Content-Type: "@) + wire(content_type.text()), ByteClass::Byte(CR)),
        (wire("Content-Type: "@) + wire(content_type.text())).len() > 0,
{
    reveal_strlit("Content-Type: ");
    reveal_strlit("text/plain");
    reveal_strlit("application/octet-stream");
    reveal_strlit("");
    vstd::utf8::is_ascii_chars_encode_utf8("Content-Type: "@);
    vstd::utf8::is_ascii_chars_encode_utf8(content_type.text());
}

proof fn lemma_content_length_line_is_free(length: nat)
    ensures
        free_of(wire("Content-Length: "@) + decimal_digits(length), ByteClass::Byte(CR)),
        (wire("Content-Length: "@) + decimal_digits(length)).len() > 0,
{
    reveal_strlit("Content-Length: ");
    vstd::utf8::is_ascii_chars_encode_utf8("Content-Length: "@);
    lemma_decimal_round_trip(length);
}

/// The body that a reader finds in the bytes of a response: what follows
/// the first blank line.
pub open spec fn response_body(out: Seq<u8>) -> Seq<u8> {
    match first_occurrence(out, blank_line()) {
        Some(at) => out.skip(at + blank_line().len()),
        None => Seq::empty(),
    }
}

/// The lines of the head of a response: the status line and, where there
/// is content, the two content headers.
pub open spec fn response_lines(status: HttpStatus, content_type: ContentType, length: nat) -> Seq<
    Seq<u8>,
> {
    let first = wire("HTTP/1.1 "@) + wire(status.text());
    match content_type {
        ContentType::Unknown => seq![first],
        _ => seq![
            first,
            wire("Content-Type: "@) + wire(content_type.text()),
            wire("Content-Length: "@) + decimal_digits(length),
        ],
    }
}

/// The head of a response is its lines, with a line end between each two,
/// and the blank line.
pub proof fn lemma_response_head_lines(status: HttpStatus, content_type: ContentType, length: nat)
    ensures
        response_head(status, content_type, length) == joined(
            response_lines(status, content_type, length),
            crlf(),
        ) + blank_line(),
{
    lemma_line_end_bytes();
    let lines = response_lines(status, content_type, length);
    if content_type == ContentType::Unknown {
        assert(joined(lines, crlf()) == lines[0]);
        assert(response_head(status, content_type, length) =~= lines[0] + blank_line());
    } else {
        assert(lines.drop_last().drop_last() =~= seq![lines[0]]);
        assert(joined(lines.drop_last().drop_last(), crlf()) == lines[0]);
        assert(joined(lines.drop_last(), crlf()) == lines[0] + crlf() + lines[1]);
        assert(joined(lines, crlf()) == lines[0] + crlf() + lines[1] + crlf() + lines[2]);
    }
}

/// Reading a response back: its first blank line is the one that ends the
/// head, and what follows it is the body that was given, byte for byte (with
/// content type `Unknown`, nothing).
pub proof fn lemma_response_framing(status: HttpStatus, content_type: ContentType, body: Seq<u8>)
    ensures
        first_occurrence(response_bytes(status, content_type, body), blank_line()) is Some,
        response_body(response_bytes(status, content_type, body)) == if content_type
            == ContentType::Unknown {
            Seq::<u8>::empty()
        } else {
            body
        },
{
    let length = if content_type == ContentType::Unknown {
        0
    } else {
        body.len()
    };
    let tail = if content_type == ContentType::Unknown {
        Seq::<u8>::empty()
    } else {
        body
    };
    let lines = response_lines(status, content_type, length);
    let block = joined(lines, crlf());
    let out = response_bytes(status, content_type, body);
    lemma_status_line_is_free(status);
    lemma_content_type_line_is_free(content_type);
    lemma_content_length_line_is_free(length);
    lemma_response_head_lines(status, content_type, length);
    lemma_blank_line_after_lines(lines, tail);
    assert(out =~= block + blank_line() + tail);
    assert(out.skip((block.len() + blank_line().len()) as int) =~= tail);
}

/// A response as a mathematical value.
pub ghost struct Response {
    pub status: HttpStatus,
    pub content_type: ContentType,
    pub body: Seq<u8>,
}

impl Response {
    /// A response without content has an empty body.
    pub open spec fn wf(self) -> bool {
        self.content_type == ContentType::Unknown ==> self.body.len() == 0
    }

    /// The response with the given content, or without content where the
    /// content type is `Unknown`.
    pub open spec fn with(
        status: HttpStatus,
        content_type: ContentType,
        body: Seq<u8>,
    ) -> Response {
        Response {
            status,
            content_type,
            body: if content_type == ContentType::Unknown {
                Seq::empty()
            } else {
                body
            },
        }
    }

    /// The bytes that go out on the connection.
    pub open spec fn bytes(self) -> Seq<u8> {
        response_bytes(self.status, self.content_type, self.body)
    }

    /// The body of a well-formed response can be read back from its bytes.
    pub proof fn lemma_body_round_trip(self)
        requires
            self.wf(),
        ensures
            response_body(self.bytes()) == self.body,
    {
        lemma_response_framing(self.status, self.content_type, self.body);
        if self.content_type == ContentType::Unknown {
            assert(self.body =~= Seq::<u8>::empty());
        }
    }
}

/// What a handler hands to the connection driver: status, content type and
/// body of the response to send.
#[derive(Debug, Clone, PartialEq, Eq)]
pub struct ResponseDescriptor {
    pub status: HttpStatus,
    pub content_type: ContentType,
    pub body: Vec<u8>,
}

impl View for ResponseDescriptor {
    type V = Response;

    open spec fn view(&self) -> Response {
        Response { status: self.status, content_type: self.content_type, body: self.body@ }
    }
}

impl ResponseDescriptor {
    /// A response with content. With content type `Unknown` the body is
    /// dropped, as such a response carries none.
    pub fn new(status: HttpStatus, content_type: ContentType, body: Vec<u8>) -> (r:
        ResponseDescriptor)
        ensures
            r@ == Response::with(status, content_type, body@),
            r@.wf(),
    {
        match content_type {
            ContentType::Unknown => ResponseDescriptor { status, content_type, body: Vec::new() },
            _ => ResponseDescriptor { status, content_type, body },
        }
    }

    /// A response without content.
    pub fn empty(status: HttpStatus) -> (r: ResponseDescriptor)
        ensures
            r@ == Response::with(status, ContentType::Unknown, Seq::empty()),
            r@.wf(),
    {
        ResponseDescriptor { status, content_type: ContentType::Unknown, body: Vec::new() }
    }

    /// The bytes that go out on the connection.
    pub fn to_bytes(&self) -> (r: Vec<u8>)
        ensures
            r@ == self@.bytes(),
    {
        prepare_response(self.status, self.content_type, self.body.as_slice())
    }
}

/// The text that `chrono` writes for the moment `seconds` after the start of
/// 1970 under the pattern day/month/year hour:minute:second
/// (`%d/%m/%Y %H:%M:%S`); `None` for a moment beyond the dates that `chrono`
/// can hold.
pub uninterp spec fn clock_text(seconds: int) -> Option<Seq<char>>;

/// The characters of an optional string.
pub open spec fn text_view(s: Option<String>) -> Option<Seq<char>> {
    match s {
        Some(s) => Some(s@),
        None => None,
    }
}

/// The date and the time of day that lie `seconds` after the start of 1970,
/// written as in `31/12/2024 23:59:59`. The caller reads the clock and adds
/// the offset of the local time zone.
///
/// Trusted: the body calls `chrono::DateTime::from_timestamp`, which gives
/// `None` for a number of seconds out of its range, then
/// `NaiveDateTime::format` and `to_string`. The contract gives the outcome a
/// name and claims nothing else of it.
#[verifier::external_body]
pub fn get_current_time_str(seconds: i64) -> (r: Option<String>)
    ensures
        text_view(r) == clock_text(seconds as int),
{
    match chrono::DateTime::from_timestamp(seconds, 0) {
        Some(moment) => Some(moment.naive_utc().format("%d/%m/%Y %H:%M:%S").to_string()),
        None => None,
    }
}

/// A line of the log: the time between square brackets, a space, the message.
pub open spec fn stamped(time: Seq<char>, msg: Seq<char>) -> Seq<char> {
    "["@ + time + "] "@ + msg
}

/// Writes a line of the log from the text of the time and the message.
pub fn log_line(time: &str, msg: &str) -> (line: String)
    ensures
        line@ == stamped(time@, msg@),
{
    let mut line = "[".to_owned();
    line.append(time);
    line.append("] ");
    line.append(msg);
    line
}

/// The line that reports the error `msg` at the moment `seconds` after the
/// start of 1970; none where that moment has no text.
pub fn log_error(seconds: i64, msg: &str) -> (line: Option<String>)
    ensures
        text_view(line) == match clock_text(seconds as int) {
            Some(time) => Some(stamped(time, msg@)),
            None => None,
        },
{
    match get_current_time_str(seconds) {
        Some(time) => Some(log_line(time.as_str(), msg)),
        None => None,
    }
}

} // verus!
