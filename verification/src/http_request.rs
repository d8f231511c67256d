//! The request, and the parser that reads one from the bytes of a connection.

use vstd::prelude::*;
use vstd::slice::{slice_subrange, slice_to_vec};
use vstd::string::*;
use crate::text::{
    append, blank_line, ByteClass, CR, crlf, decimal_value, eq_ignore_case, fields, find,
    first_occurrence, folded, free_of, is_decimal, is_numeral, is_trimmed, joined,
    lemma_blank_line_after_lines, lemma_fields_are_tokens, lemma_first_occurrence_after_free,
    lemma_first_occurrence_some, lemma_line_end_bytes, lemma_pieces_nonempty,
    lemma_pieces_of_joined, lemma_runs_after_separator, lemma_runs_of_free,
    lemma_same_ignoring_case,
    lemma_trimmed_is_fixed, lemma_without_trailing, nonempty, occurs_at, parse_decimal, pieces,
    runs, same_ignoring_case, SPACE, split, split_fields, trim, trim_end_matches, trimmed, views,
    wire, without_trailing,
};

verus! {

/// The byte `/`, which begins a request target and separates its segments.
pub const SLASH: u8 = 47;

/// The byte `:`, which ends the name of a header field.
pub const COLON: u8 = 58;

/// What stands between the name and the value of a header field.
pub open spec fn field_separator() -> Seq<u8> {
    wire(": "@)
}

/// The name of the header that declares the length of the body.
pub open spec fn content_length_name() -> Seq<u8> {
    wire("Content-Length"@)
}

/// Why a request could not be read.
#[derive(Debug, Clone, Copy, PartialEq, Eq, Structural)]
pub enum ParseError {
    /// The blank line, the start line or a header line is missing or wrong.
    MalformedRequest,
    /// Fewer body bytes were received than `Content-Length` declares.
    Truncated,
    /// The request did not end within the size that the server accepts.
    TooLarge,
}

/// The three tokens of a start line, as mathematical byte strings.
pub ghost struct StartLine {
    pub method: Seq<u8>,
    pub path: Seq<u8>,
    pub version: Seq<u8>,
}

/// A request as a mathematical value.
pub ghost struct Request {
    pub start: StartLine,
    pub path_params: Seq<Seq<u8>>,
    pub headers: Seq<(Seq<u8>, Seq<u8>)>,
    pub body: Seq<u8>,
}

impl Request {
    /// The three tokens of the start line are not empty and hold no
    /// whitespace, the path begins with a slash, and the segments are those
    /// of the path.
    pub open spec fn wf(self) -> bool {
        &&& self.start.method.len() > 0
        &&& self.start.path.len() > 0
        &&& self.start.version.len() > 0
        &&& free_of(self.start.method, ByteClass::Whitespace)
        &&& free_of(self.start.path, ByteClass::Whitespace)
        &&& free_of(self.start.version, ByteClass::Whitespace)
        &&& self.start.path[0] == SLASH
        &&& self.path_params == path_segments(self.start.path)
    }
}

/// Method, request target and protocol version.
#[derive(Debug, Clone, PartialEq, Eq)]
pub struct RequestInfo {
    pub method: Vec<u8>,
    pub path: Vec<u8>,
    pub version: Vec<u8>,
}

impl View for RequestInfo {
    type V = StartLine;

    open spec fn view(&self) -> StartLine {
        StartLine { method: self.method@, path: self.path@, version: self.version@ }
    }
}

impl RequestInfo {
    /// A start line whose three tokens are empty.
    pub fn empty_info() -> (r: RequestInfo)
        ensures
            r@ == (StartLine { method: Seq::empty(), path: Seq::empty(), version: Seq::empty() }),
    {
        RequestInfo { method: Vec::new(), path: Vec::new(), version: Vec::new() }
    }
}

/// One header field, name and value as received but for the whitespace
/// around them.
#[derive(Debug, Clone, PartialEq, Eq)]
pub struct Header {
    pub name: Vec<u8>,
    pub value: Vec<u8>,
}

impl View for Header {
    type V = (Seq<u8>, Seq<u8>);

    open spec fn view(&self) -> (Seq<u8>, Seq<u8>) {
        (self.name@, self.value@)
    }
}

/// The fields that a vector of headers holds, in order.
pub open spec fn header_views(v: Seq<Header>) -> Seq<(Seq<u8>, Seq<u8>)> {
    v.map_values(|h: Header| h@)
}

/// A parsed request.
#[derive(Debug, Clone, PartialEq, Eq)]
pub struct RequestContext {
    pub request_info: RequestInfo,
    /// The non-empty segments of the path.
    pub path_params: Vec<Vec<u8>>,
    /// The header fields in the order received.
    pub headers: Vec<Header>,
    pub body: Vec<u8>,
}

impl View for RequestContext {
    type V = Request;

    open spec fn view(&self) -> Request {
        Request {
            start: self.request_info@,
            path_params: views(self.path_params@),
            headers: header_views(self.headers@),
            body: self.body@,
        }
    }
}

/// The segments of a request target: what stands between its slashes, empty
/// stretches left out. The target `/` has none.
pub open spec fn path_segments(path: Seq<u8>) -> Seq<Seq<u8>> {
    fields(path, ByteClass::Byte(SLASH))
}

/// What a start line holds: its first three whitespace-separated tokens,
/// provided that there are three and that the second begins with a slash.
pub open spec fn start_line(line: Seq<u8>) -> Option<StartLine> {
    let tokens = fields(line, ByteClass::Whitespace);
    if tokens.len() >= 3 && tokens[1].len() > 0 && tokens[1][0] == SLASH {
        Some(StartLine { method: tokens[0], path: tokens[1], version: tokens[2] })
    } else {
        None
    }
}

/// What a header line holds: the name before the first colon-and-space and
/// the value after it, each without the whitespace around it.
pub open spec fn header_line(line: Seq<u8>) -> Option<(Seq<u8>, Seq<u8>)> {
    match first_occurrence(line, field_separator()) {
        Some(i) => Some(
            (trimmed(line.take(i)), trimmed(line.skip(i + field_separator().len()))),
        ),
        None => None,
    }
}

/// The fields of a run of header lines, if every one of them is a field.
pub open spec fn header_lines(lines: Seq<Seq<u8>>) -> Option<Seq<(Seq<u8>, Seq<u8>)>> {
    if forall|i: int| 0 <= i < lines.len() ==> header_line(#[trigger] lines[i]) is Some {
        Some(lines.map_values(|l: Seq<u8>| header_line(l).unwrap()))
    } else {
        None
    }
}

/// The value of the last field whose name is `name`, letter case aside.
pub open spec fn header_value(headers: Seq<(Seq<u8>, Seq<u8>)>, name: Seq<u8>) -> Option<Seq<u8>>
    decreases headers.len(),
{
    if headers.len() == 0 {
        None
    } else if same_ignoring_case(headers.last().0, name) {
        Some(headers.last().1)
    } else {
        header_value(headers.drop_last(), name)
    }
}

/// The headers as a mapping from names in lower case to values: of several
/// fields with one name, letter case aside, the last one counts.
pub open spec fn header_map(headers: Seq<(Seq<u8>, Seq<u8>)>) -> Map<Seq<u8>, Seq<u8>>
    decreases headers.len(),
{
    if headers.len() == 0 {
        Map::empty()
    } else {
        header_map(headers.drop_last()).insert(folded(headers.last().0), headers.last().1)
    }
}

/// Looking a header up is reading the mapping at the name in lower case.
pub proof fn lemma_header_value_is_mapped(headers: Seq<(Seq<u8>, Seq<u8>)>, name: Seq<u8>)
    ensures
        header_value(headers, name) == if header_map(headers).dom().contains(folded(name)) {
            Some(header_map(headers)[folded(name)])
        } else {
            None
        },
    decreases headers.len(),
{
    if headers.len() > 0 {
        lemma_same_ignoring_case(headers.last().0, name);
        lemma_header_value_is_mapped(headers.drop_last(), name);
    }
}

/// The body of a message whose header block is followed by `rest`. Without
/// a `Content-Length` it is all of `rest`; with one it is that many bytes from
/// the start of `rest`, which must hold as many.
pub open spec fn message_body(headers: Seq<(Seq<u8>, Seq<u8>)>, rest: Seq<u8>) -> Result<
    Seq<u8>,
    ParseError,
> {
    match header_value(headers, content_length_name()) {
        None => Ok(rest),
        Some(v) => if !is_decimal(v) {
            Err(ParseError::MalformedRequest)
        } else if decimal_value(v) > rest.len() {
            Err(ParseError::Truncated)
        } else {
            Ok(rest.take(decimal_value(v) as int))
        },
    }
}

/// The request that the bytes `msg` hold. The header block is what stands
/// before the first blank line; its lines end in CR LF; the first is the start
/// line and each of the others is a header field.
pub open spec fn parsed_message(msg: Seq<u8>) -> Result<Request, ParseError> {
    match first_occurrence(msg, blank_line()) {
        None => Err(ParseError::MalformedRequest),
        Some(end) => {
            let lines = pieces(msg.take(end), crlf());
            let rest = msg.skip(end + blank_line().len());
            match (start_line(lines[0]), header_lines(lines.skip(1))) {
                (Some(start), Some(headers)) => match message_body(headers, rest) {
                    Ok(body) => Ok(
                        Request { start, path_params: path_segments(start.path), headers, body },
                    ),
                    Err(e) => Err(e),
                },
                _ => Err(ParseError::MalformedRequest),
            }
        },
    }
}

/// The request that a receive buffer holds: the zero bytes that pad its end
/// are no part of the message.
pub open spec fn parsed_buffer(raw: Seq<u8>) -> Result<Request, ParseError> {
    parsed_message(without_trailing(raw, ByteClass::Byte(0)))
}

/// A parse result as a mathematical value.
pub open spec fn result_view(r: Result<RequestContext, ParseError>) -> Result<Request, ParseError> {
    match r {
        Ok(c) => Ok(c@),
        Err(e) => Err(e),
    }
}

/// Bytes that hold no blank line anywhere hold no request: reading them as a
/// message, or as a buffer padded with zero bytes, fails as malformed.
pub proof fn lemma_no_blank_line_is_malformed(raw: Seq<u8>)
    requires
        forall|i: int| !occurs_at(raw, blank_line(), i),
    ensures
        parsed_message(raw) == Err::<Request, ParseError>(ParseError::MalformedRequest),
        parsed_buffer(raw) == Err::<Request, ParseError>(ParseError::MalformedRequest),
{
    let msg = without_trailing(raw, ByteClass::Byte(0));
    lemma_without_trailing(raw, ByteClass::Byte(0));
    assert forall|i: int| !occurs_at(msg, blank_line(), i) by {
        if occurs_at(msg, blank_line(), i) {
            assert(raw.subrange(i, i + blank_line().len()) =~= msg.subrange(
                i,
                i + blank_line().len(),
            ));
            assert(occurs_at(raw, blank_line(), i));
        }
    }
}

/// Every request that the parser accepts is well formed.
pub proof fn lemma_parsed_is_well_formed(msg: Seq<u8>)
    requires
        parsed_message(msg) is Ok,
    ensures
        parsed_message(msg)->Ok_0.wf(),
{
    let end = first_occurrence(msg, blank_line())->Some_0;
    let lines = pieces(msg.take(end), crlf());
    lemma_fields_are_tokens(lines[0], ByteClass::Whitespace);
}

/// The body of a parsed request is taken as it stands from the bytes that
/// follow the first blank line: all of them where no `Content-Length` is
/// given, else as many from their start as it declares.
pub proof fn lemma_body_is_verbatim(msg: Seq<u8>)
    requires
        parsed_message(msg) is Ok,
    ensures
        ({
            let req = parsed_message(msg)->Ok_0;
            let end = first_occurrence(msg, blank_line())->Some_0;
            let rest = msg.skip(end + blank_line().len());
            &&& first_occurrence(msg, blank_line()) is Some
            &&& req.body.is_prefix_of(rest)
            &&& match header_value(req.headers, content_length_name()) {
                None => req.body == rest,
                Some(v) => is_decimal(v) && req.body.len() == decimal_value(v),
            }
        }),
{
}

/// A start line as it is written: the three tokens with one space between.
pub open spec fn request_line(start: StartLine) -> Seq<u8> {
    start.method + wire(" "@) + start.path + wire(" "@) + start.version
}

/// A header field as it is written: name, colon and space, value.
pub open spec fn written_header(h: (Seq<u8>, Seq<u8>)) -> Seq<u8> {
    h.0 + field_separator() + h.1
}

/// The lines of the header block of a request as it is written.
pub open spec fn written_lines(req: Request) -> Seq<Seq<u8>> {
    seq![request_line(req.start)] + req.headers.map_values(
        |h: (Seq<u8>, Seq<u8>)| written_header(h),
    )
}

/// A request as it is written on the wire: the lines of the header block
/// with a line end between each two, the blank line, the body.
pub open spec fn written_request(req: Request) -> Seq<u8> {
    joined(written_lines(req), crlf()) + blank_line() + req.body
}

/// A header field that can be written and read back: the name holds no
/// colon, neither name nor value holds a carriage return, and neither begins
/// or ends with whitespace.
pub open spec fn is_field(h: (Seq<u8>, Seq<u8>)) -> bool {
    &&& free_of(h.0, ByteClass::Byte(COLON))
    &&& free_of(h.0, ByteClass::Byte(CR))
    &&& free_of(h.1, ByteClass::Byte(CR))
    &&& is_trimmed(h.0)
    &&& is_trimmed(h.1)
}

/// A request that can be written and read back: it is well formed, each
/// header is a field, and a `Content-Length`, if there is one, gives the
/// length of the body.
pub open spec fn is_writable(req: Request) -> bool {
    &&& req.wf()
    &&& forall|i: int| 0 <= i < req.headers.len() ==> is_field(#[trigger] req.headers[i])
    &&& match header_value(req.headers, content_length_name()) {
        Some(v) => is_decimal(v) && decimal_value(v) == req.body.len(),
        None => true,
    }
}

/// The start line, written and read back, is what it was.
pub proof fn lemma_start_line_round_trip(start: StartLine)
    requires
        start.method.len() > 0,
        start.path.len() > 0,
        start.version.len() > 0,
        free_of(start.method, ByteClass::Whitespace),
        free_of(start.path, ByteClass::Whitespace),
        free_of(start.version, ByteClass::Whitespace),
        start.path[0] == SLASH,
    ensures
        start_line(request_line(start)) == Some(start),
{
    reveal_strlit(" ");
    vstd::utf8::is_ascii_chars_encode_utf8(" "@);
    assert(wire(" "@) =~= seq![SPACE]);
    let class = ByteClass::Whitespace;
    let m = start.method;
    let p = start.path;
    let v = start.version;
    let line = request_line(start);
    lemma_runs_of_free(m, class);
    lemma_runs_after_separator(m, SPACE, p, class);
    lemma_runs_after_separator(m.push(SPACE) + p, SPACE, v, class);
    assert(line =~= (m.push(SPACE) + p).push(SPACE) + v);
    let none = Seq::<Seq<u8>>::empty();
    assert(runs(line, class) =~= none.push(m).push(p).push(v));
    assert(none.filter(nonempty()) =~= none) by {
        reveal(Seq::filter);
    }
    none.lemma_filter_push(m, nonempty());
    none.push(m).lemma_filter_push(p, nonempty());
    none.push(m).push(p).lemma_filter_push(v, nonempty());
    assert(fields(line, class) =~= seq![m, p, v]);
}

/// The bytes of the separator of a header field and of the space between
/// the tokens of a start line.
pub proof fn lemma_separator_bytes()
    ensures
        field_separator() == seq![COLON, SPACE],
        wire(" "@) == seq![SPACE],
{
    reveal_strlit(": ");
    reveal_strlit(" ");
    vstd::utf8::is_ascii_chars_encode_utf8(": "@);
    vstd::utf8::is_ascii_chars_encode_utf8(" "@);
    assert(field_separator() =~= seq![COLON, SPACE]);
    assert(wire(" "@) =~= seq![SPACE]);
}

/// A header field, written and read back, is what it was.
pub proof fn lemma_header_round_trip(h: (Seq<u8>, Seq<u8>))
    requires
        is_field(h),
    ensures
        header_line(written_header(h)) == Some(h),
        written_header(h).len() > 0,
        free_of(written_header(h), ByteClass::Byte(CR)),
{
    lemma_separator_bytes();
    lemma_header_is_found(h);
    lemma_header_line_is_free(h);
    lemma_trimmed_is_fixed(h.0);
    lemma_trimmed_is_fixed(h.1);
}

proof fn lemma_header_is_found(h: (Seq<u8>, Seq<u8>))
    requires
        free_of(h.0, ByteClass::Byte(COLON)),
    ensures
        first_occurrence(written_header(h), field_separator()) == Some(h.0.len() as int),
        written_header(h).take(h.0.len() as int) == h.0,
        written_header(h).skip((h.0.len() + field_separator().len()) as int) == h.1,
{
    lemma_separator_bytes();
    let sep = field_separator();
    let line = written_header(h);
    let at = h.0.len() as int;
    lemma_first_occurrence_after_free(h.0, sep, h.1);
    assert(line.take(at) =~= h.0);
    assert(line.skip(at + sep.len()) =~= h.1);
}

proof fn lemma_header_line_is_free(h: (Seq<u8>, Seq<u8>))
    requires
        free_of(h.0, ByteClass::Byte(CR)),
        free_of(h.1, ByteClass::Byte(CR)),
    ensures
        written_header(h).len() > 0,
        free_of(written_header(h), ByteClass::Byte(CR)),
{
    lemma_separator_bytes();
    let line = written_header(h);
    let at = h.0.len() as int;
    assert forall|k: int| 0 <= k < line.len() implies line[k] != CR by {
        if k < at {
            assert(line[k] == h.0[k]);
        } else if k >= at + 2 {
            assert(line[k] == h.1[k - at - 2]);
        }
    }
}

/// Reading what was written: every writable request, written out, is read
/// back as the request that it was.
pub proof fn lemma_request_round_trip(req: Request)
    requires
        is_writable(req),
    ensures
        parsed_message(written_request(req)) == Ok::<Request, ParseError>(req),
{
    lemma_line_end_bytes();
    reveal_strlit(" ");
    vstd::utf8::is_ascii_chars_encode_utf8(" "@);
    assert(wire(" "@) =~= seq![SPACE]);
    let lines = written_lines(req);
    let block = joined(lines, crlf());
    let msg = written_request(req);
    let first = request_line(req.start);
    let cr = ByteClass::Byte(CR);
    assert(first.len() > 0 && free_of(first, cr)) by {
        assert forall|k: int| 0 <= k < first.len() implies !cr.holds(first[k]) by {
            let m = req.start.method.len();
            let p = req.start.path.len();
            if k < m {
                assert(first[k] == req.start.method[k]);
            } else if k == m {
            } else if k < m + 1 + p {
                assert(first[k] == req.start.path[k - m - 1]);
            } else if k == m + 1 + p {
            } else {
                assert(first[k] == req.start.version[k - m - p - 2]);
            }
        }
    }
    assert forall|i: int| 0 <= i < lines.len() implies (#[trigger] lines[i]).len() > 0 && free_of(
        lines[i],
        cr,
    ) by {
        if i > 0 {
            assert(lines[i] == written_header(req.headers[i - 1]));
            lemma_header_round_trip(req.headers[i - 1]);
        }
    }
    lemma_blank_line_after_lines(lines, req.body);
    let end = block.len() as int;
    assert(msg.take(end) =~= block);
    assert(msg.skip(end + blank_line().len()) =~= req.body);
    lemma_pieces_of_joined(lines, crlf());
    lemma_start_line_round_trip(req.start);
    let rest = lines.skip(1);
    assert(rest.len() == req.headers.len());
    assert forall|i: int| 0 <= i < rest.len() implies header_line(#[trigger] rest[i]) == Some(
        req.headers[i],
    ) by {
        assert(rest[i] == written_header(req.headers[i]));
        lemma_header_round_trip(req.headers[i]);
    }
    assert(header_lines(rest) == Some(req.headers)) by {
        assert(rest.map_values(|l: Seq<u8>| header_line(l).unwrap()) =~= req.headers);
    }
    assert(req.body.take(req.body.len() as int) =~= req.body);
}

/// The value of the last field of `headers` whose name is `name`, letter
/// case aside.
pub fn lookup_header<'a>(headers: &'a Vec<Header>, name: &[u8]) -> (r: Option<&'a Vec<u8>>)
    ensures
        match r {
            Some(v) => header_value(header_views(headers@), name@) == Some(v@),
            None => header_value(header_views(headers@), name@) is None,
        },
{
    let ghost all = header_views(headers@);
    let mut i: usize = headers.len();
    assert(all.take(i as int) =~= all);
    while i > 0
        invariant
            i <= headers@.len(),
            all == header_views(headers@),
            header_value(all, name@) == header_value(all.take(i as int), name@),
        decreases i,
    {
        assert(all.take(i as int).drop_last() =~= all.take(i - 1));
        assert(all.take(i as int).last() == headers@[i - 1]@);
        if eq_ignore_case(headers[i - 1].name.as_slice(), name) {
            return Some(&headers[i - 1].value);
        }
        i -= 1;
    }
    None
}

/// Reads the body from what follows the header block.
pub fn read_body(headers: &Vec<Header>, rest: &[u8]) -> (r: Result<Vec<u8>, ParseError>)
    ensures
        match r {
            Ok(body) => message_body(header_views(headers@), rest@) == Ok::<Seq<u8>, ParseError>(
                body@,
            ),
            Err(e) => message_body(header_views(headers@), rest@) == Err::<Seq<u8>, ParseError>(e),
        },
{
    match lookup_header(headers, "Content-Length".as_bytes()) {
        None => Ok(slice_to_vec(rest)),
        Some(v) => match parse_decimal(v.as_slice(), rest.len()) {
            Some(n) => Ok(slice_to_vec(slice_subrange(rest, 0, n))),
            None => if is_numeral(v.as_slice()) {
                Err(ParseError::Truncated)
            } else {
                Err(ParseError::MalformedRequest)
            },
        },
    }
}

impl RequestContext {
    /// Reads a request from a receive buffer, whose unused end may be filled
    /// with zero bytes.
    pub fn prepare_request(raw: &[u8]) -> (r: Result<RequestContext, ParseError>)
        ensures
            result_view(r) == parsed_buffer(raw@),
            (forall|i: int| !occurs_at(raw@, blank_line(), i)) ==> r == Err::<
                RequestContext,
                ParseError,
            >(ParseError::MalformedRequest),
            r matches Ok(request) ==> request@.wf(),
    {
        proof {
            if forall|i: int| !occurs_at(raw@, blank_line(), i) {
                lemma_no_blank_line_is_malformed(raw@);
            }
        }
        Self::parse_message(trim_end_matches(raw, ByteClass::Byte(0)))
    }

    /// Reads a request from exactly the bytes received.
    #[verifier::loop_isolation(false)]
    pub fn parse_message(msg: &[u8]) -> (r: Result<RequestContext, ParseError>)
        ensures
            result_view(r) == parsed_message(msg@),
            (forall|i: int| !occurs_at(msg@, blank_line(), i)) ==> r == Err::<
                RequestContext,
                ParseError,
            >(ParseError::MalformedRequest),
            r matches Ok(request) ==> request@.wf(),
    {
        proof {
            if parsed_message(msg@) is Ok {
                lemma_parsed_is_well_formed(msg@);
            }
        }
        let blank = "\r\n\r\n".as_bytes();
        let end = match find(msg, blank) {
            Some(end) => end,
            None => {
                return Err(ParseError::MalformedRequest);
            },
        };
        proof {
            lemma_first_occurrence_some(msg@, blank@);
            assert(occurs_at(msg@, blank@, end as int));
        }
        let head = slice_subrange(msg, 0, end);
        let len = msg.len();
        let rest = slice_subrange(msg, end + blank.len(), len);
        let lines = split(head, "\r\n".as_bytes());
        let ghost all = pieces(msg@.take(end as int), crlf());
        proof {
            lemma_pieces_nonempty(head@, crlf());
        }
        let request_info = match Self::parse_start_line(lines[0].as_slice()) {
            Ok(info) => info,
            Err(e) => {
                return Err(e);
            },
        };
        let mut headers: Vec<Header> = Vec::new();
        let mut k: usize = 1;
        while k < lines.len()
            invariant
                1 <= k <= lines@.len(),
                views(lines@) == all,
                headers@.len() == k - 1,
                forall|j: int|
                    0 <= j < k - 1 ==> header_line(#[trigger] all.skip(1)[j]) == Some(
                        headers@[j]@,
                    ),
            decreases lines@.len() - k,
        {
            match Self::parse_header_line(lines[k].as_slice()) {
                Ok(h) => {
                    headers.push(h);
                },
                Err(e) => {
                    assert(header_line(all.skip(1)[k - 1]) is None);
                    return Err(e);
                },
            }
            k += 1;
        }
        assert(header_lines(all.skip(1)) is Some);
        assert(header_views(headers@) =~= header_lines(all.skip(1)).unwrap());
        let body = match read_body(&headers, rest) {
            Ok(body) => body,
            Err(e) => {
                return Err(e);
            },
        };
        let path_params = Self::parse_path_params(request_info.path.as_slice());
        Ok(RequestContext { request_info, path_params, headers, body })
    }

    /// Reads the start line.
    pub fn parse_start_line(line: &[u8]) -> (r: Result<RequestInfo, ParseError>)
        ensures
            match r {
                Ok(info) => start_line(line@) == Some(info@),
                Err(e) => e == ParseError::MalformedRequest && start_line(line@) is None,
            },
    {
        let tokens = split_fields(line, ByteClass::Whitespace);
        if tokens.len() < 3 {
            return Err(ParseError::MalformedRequest);
        }
        if tokens[1].len() == 0 || tokens[1][0] != SLASH {
            return Err(ParseError::MalformedRequest);
        }
        Ok(
            RequestInfo {
                method: slice_to_vec(tokens[0].as_slice()),
                path: slice_to_vec(tokens[1].as_slice()),
                version: slice_to_vec(tokens[2].as_slice()),
            },
        )
    }

    /// Reads one header field.
    pub fn parse_header_line(line: &[u8]) -> (r: Result<Header, ParseError>)
        ensures
            match r {
                Ok(h) => header_line(line@) == Some(h@),
                Err(e) => e == ParseError::MalformedRequest && header_line(line@) is None,
            },
    {
        let separator = ": ".as_bytes();
        match find(line, separator) {
            None => Err(ParseError::MalformedRequest),
            Some(i) => {
                proof {
                    lemma_first_occurrence_some(line@, separator@);
                    assert(occurs_at(line@, separator@, i as int));
                }
                let name = trim(slice_subrange(line, 0, i));
                let len = line.len();
                let value = trim(slice_subrange(line, i + separator.len(), len));
                Ok(Header { name: slice_to_vec(name), value: slice_to_vec(value) })
            },
        }
    }

    /// The segments of a request target.
    pub fn parse_path_params(path: &[u8]) -> (r: Vec<Vec<u8>>)
        ensures
            views(r@) == path_segments(path@),
    {
        split_fields(path, ByteClass::Byte(SLASH))
    }

    /// The start line as it was written, for a log.
    pub fn request_info(&self) -> (r: Vec<u8>)
        ensures
            r@ == request_line(self@.start),
    {
        let mut out: Vec<u8> = Vec::new();
        append(&mut out, self.request_info.method.as_slice());
        append(&mut out, " ".as_bytes());
        append(&mut out, self.request_info.path.as_slice());
        append(&mut out, " ".as_bytes());
        append(&mut out, self.request_info.version.as_slice());
        assert(out@ =~= request_line(self@.start));
        out
    }

    /// The request as it is written on the wire.
    pub fn to_bytes(&self) -> (r: Vec<u8>)
        ensures
            r@ == written_request(self@),
    {
        let mut out = self.request_info();
        let ghost first = request_line(self@.start);
        let ghost fields = self@.headers;
        let ghost write = |h: (Seq<u8>, Seq<u8>)| written_header(h);
        let mut i: usize = 0;
        assert(seq![first] + fields.take(0).map_values(write) =~= seq![first]);
        while i < self.headers.len()
            invariant
                i <= self.headers@.len(),
                fields == header_views(self.headers@),
                write == |h: (Seq<u8>, Seq<u8>)| written_header(h),
                out@ == joined(seq![first] + fields.take(i as int).map_values(write), crlf()),
            decreases self.headers@.len() - i,
        {
            let ghost before = seq![first] + fields.take(i as int).map_values(write);
            let ghost after = seq![first] + fields.take(i + 1).map_values(write);
            assert(after.drop_last() =~= before);
            assert(after.last() == written_header(self.headers@[i as int]@));
            append(&mut out, "\r\n".as_bytes());
            append(&mut out, self.headers[i].name.as_slice());
            append(&mut out, ": ".as_bytes());
            append(&mut out, self.headers[i].value.as_slice());
            assert(out@ =~= joined(after, crlf()));
            i += 1;
        }
        assert(fields.take(i as int) =~= fields);
        append(&mut out, "\r\n\r\n".as_bytes());
        append(&mut out, self.body.as_slice());
        out
    }

    /// The value of the header `name`, letter case aside; of several, the last.
    pub fn header(&self, name: &[u8]) -> (r: Option<&Vec<u8>>)
        ensures
            match r {
                Some(v) => header_value(self@.headers, name@) == Some(v@),
                None => header_value(self@.headers, name@) is None,
            },
    {
        lookup_header(&self.headers, name)
    }
}

} // verus!
