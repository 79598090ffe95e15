//! The incremental request parser.

use vstd::prelude::*;
use crate::headers::{
    entries_map, field_line, header_step, lemma_header_coalescing, lemma_merge_entry, merge_entry,
    Headers,
};
use crate::numeric::{parse_usize, parse_usize_bytes};
use crate::text::{lower_of, text_from_bytes, text_of};
use vstd::utf8::encode_utf8;
use crate::wire::{
    all_alpha, alpha_between, append_range, ascii_chars, find_byte, find_crlf, first_byte, first_crlf, is_crlf_at,
    lemma_first_crlf, lemma_first_crlf_extend, lemma_line_end, word_spans, words,
};

verus! {

/// Why a request could not be parsed.
#[derive(Debug, PartialEq, Eq)]
pub enum ParseError {
    /// The bytes break the message grammar, or the parser was misused; the text says which.
    InvalidFormat(String),
    /// The transport failed while bytes were being read.
    IOError,
}

impl ParseError {
    /// This is a format error with message `msg`.
    pub open spec fn is_invalid_format(&self, msg: Seq<char>) -> bool {
        match self {
            ParseError::InvalidFormat(m) => m@ == msg,
            ParseError::IOError => false,
        }
    }

    /// The error as text for people.
    pub fn message(&self) -> (r: String)
        ensures
            match self {
                ParseError::InvalidFormat(m) => r@ == "Invalid request line format: "@ + m@,
                ParseError::IOError => r@ == "Read/write error on the io end"@,
            },
    {
        match self {
            ParseError::InvalidFormat(m) => {
                let mut r = String::from_str("Invalid request line format: ");
                r.append(m.as_str());
                r
            },
            ParseError::IOError => String::from_str("Read/write error on the io end"),
        }
    }
}

pub open spec fn malformed_line_msg() -> Seq<char> {
    "malformed request line"@
}

pub open spec fn bad_method_msg() -> Seq<char> {
    "method contains non-alphabetic characters"@
}

pub open spec fn bad_protocol_msg() -> Seq<char> {
    "unrecognized protocol"@
}

pub open spec fn bad_version_msg() -> Seq<char> {
    "unrecognized http version"@
}

/// `HTTP`
pub open spec fn protocol_name() -> Seq<u8> {
    seq![72u8, 84u8, 84u8, 80u8]
}

/// `1.1`
pub open spec fn supported_version() -> Seq<u8> {
    seq![49u8, 46u8, 49u8]
}

/// What a request line (without its CR LF) holds: method, target and version,
/// or why it is refused.
pub open spec fn request_line_fields(line: Seq<u8>) -> Result<
    (Seq<char>, Seq<char>, Seq<char>),
    Seq<char>,
> {
    let w = words(line);
    if w.len() != 3 {
        Err(malformed_line_msg())
    } else if !all_alpha(w[0]) {
        Err(bad_method_msg())
    } else {
        match first_byte(w[2], 47u8) {
            None => Err(malformed_line_msg()),
            Some(p) => {
                let protocol = w[2].take(p as int);
                let version = w[2].skip(p + 1int);
                if first_byte(version, 47u8) is Some {
                    Err(malformed_line_msg())
                } else if protocol != protocol_name() {
                    Err(bad_protocol_msg())
                } else if version != supported_version() {
                    Err(bad_version_msg())
                } else {
                    Ok((ascii_chars(w[0]), text_of(w[1]), "1.1"@))
                }
            },
        }
    }
}

/// The start line of a request.
#[derive(Debug, PartialEq, Eq, Default)]
pub struct RequestLine {
    pub http_version: String,
    pub request_target: String,
    pub method: String,
}

impl View for RequestLine {
    /// Method, target and version.
    type V = (Seq<char>, Seq<char>, Seq<char>);

    open spec fn view(&self) -> (Seq<char>, Seq<char>, Seq<char>) {
        (self.method@, self.request_target@, self.http_version@)
    }
}

/// What `RequestLine::parse` makes of `data`: the line and the bytes it
/// took, nothing while no complete line is there, or why the line is refused.
pub open spec fn request_line_step(data: Seq<u8>) -> Result<
    Option<((Seq<char>, Seq<char>, Seq<char>), nat)>,
    Seq<char>,
> {
    match first_crlf(data) {
        None => Ok(None),
        Some(n) => match request_line_fields(data.take(n as int)) {
            Ok(f) => Ok(Some((f, n + 2))),
            Err(m) => Err(m),
        },
    }
}

impl RequestLine {
    pub fn build(http_version: &str, request_target: &str, method: &str) -> (r: RequestLine)
        ensures
            r@ == (method@, request_target@, http_version@),
    {
        RequestLine {
            http_version: String::from_str(http_version),
            request_target: String::from_str(request_target),
            method: String::from_str(method),
        }
    }

    fn malformed() -> (e: ParseError)
        ensures
            e.is_invalid_format(malformed_line_msg()),
    {
        ParseError::InvalidFormat(String::from_str("malformed request line"))
    }

    /// Reads the request line held by `data[..end]`.
    fn parse_fields(data: &[u8], end: usize) -> (r: Result<RequestLine, ParseError>)
        requires
            end <= data@.len(),
        ensures
            match r {
                Ok(l) => request_line_fields(data@.take(end as int)) == Ok::<
                    (Seq<char>, Seq<char>, Seq<char>),
                    Seq<char>,
                >(l@),
                Err(e) => request_line_fields(data@.take(end as int)) is Err && e.is_invalid_format(
                    request_line_fields(data@.take(end as int))->Err_0,
                ),
            },
    {
        let ghost w = words(data@.take(end as int));
        assert(data@.take(end as int) =~= data@.subrange(0, end as int));
        let spans = word_spans(data, 0, end);
        if spans.len() != 3 {
            return Err(Self::malformed());
        }
        let (m0, m1) = spans[0];
        let (t0, t1) = spans[1];
        let (v0, v1) = spans[2];
        assert(w[0] == data@.subrange(m0 as int, m1 as int));
        assert(w[1] == data@.subrange(t0 as int, t1 as int));
        assert(w[2] == data@.subrange(v0 as int, v1 as int));
        if !alpha_between(data, m0, m1) {
            return Err(
                ParseError::InvalidFormat(
                    String::from_str("method contains non-alphabetic characters"),
                ),
            );
        }
        let p = match find_byte(data, v0, v1, 47u8) {
            None => {
                return Err(Self::malformed());
            },
            Some(p) => p,
        };
        let ghost version = w[2].skip(p + 1int);
        assert(version =~= data@.subrange(v0 + p + 1, v1 as int));
        assert(w[2].take(p as int) =~= data@.subrange(v0 as int, v0 + p));
        if find_byte(data, v0 + p + 1, v1, 47u8).is_some() {
            return Err(Self::malformed());
        }
        if !(p == 4 && data[v0] == 72u8 && data[v0 + 1] == 84u8 && data[v0 + 2] == 84u8 && data[v0
            + 3] == 80u8) {
            proof {
                if w[2].take(p as int) == protocol_name() {
                    assert(w[2].take(p as int)[0] == 72u8);
                }
            }
            return Err(ParseError::InvalidFormat(String::from_str("unrecognized protocol")));
        }
        assert(w[2].take(p as int) =~= protocol_name());
        let q = v0 + p + 1;
        if !(v1 - q == 3 && data[q] == 49u8 && data[q + 1] == 46u8 && data[q + 2] == 49u8) {
            proof {
                if version == supported_version() {
                    assert(version[0] == 49u8);
                }
            }
            return Err(ParseError::InvalidFormat(String::from_str("unrecognized http version")));
        }
        assert(version =~= supported_version());
        Ok(
            RequestLine {
                http_version: String::from_str("1.1"),
                request_target: text_from_bytes(&data[t0..t1]),
                method: text_from_bytes(&data[m0..m1]),
            },
        )
    }

    /// Reads a request line that stands alone, without its CR LF.
    pub fn from_line(line: &[u8]) -> (r: Result<RequestLine, ParseError>)
        ensures
            match r {
                Ok(l) => request_line_fields(line@) == Ok::<
                    (Seq<char>, Seq<char>, Seq<char>),
                    Seq<char>,
                >(l@),
                Err(e) => request_line_fields(line@) is Err && e.is_invalid_format(
                    request_line_fields(line@)->Err_0,
                ),
            },
    {
        assert(line@.take(line@.len() as int) =~= line@);
        Self::parse_fields(line, line.len())
    }

    /// Parses the request line at the start of `data`. Returns the line and
    /// the bytes it took, CR LF included, or `(None, 0)` while no complete
    /// line is there.
    pub fn parse(data: &[u8]) -> (r: Result<(Option<RequestLine>, usize), ParseError>)
        ensures
            match r {
                Ok((Some(l), n)) => request_line_step(data@) == Ok::<
                    Option<((Seq<char>, Seq<char>, Seq<char>), nat)>,
                    Seq<char>,
                >(Some((l@, n as nat))),
                Ok((None, n)) => n == 0 && request_line_step(data@) == Ok::<
                    Option<((Seq<char>, Seq<char>, Seq<char>), nat)>,
                    Seq<char>,
                >(None),
                Err(e) => request_line_step(data@) is Err && e.is_invalid_format(
                    request_line_step(data@)->Err_0,
                ),
            },
    {
        proof {
            lemma_first_crlf(data@);
        }
        match find_crlf(data) {
            None => Ok((None, 0)),
            Some(idx) => {
                assert(is_crlf_at(data@, idx as int));
                assert(idx + 2 <= data.len());
                match Self::parse_fields(data, idx) {
                    Ok(line) => Ok((Some(line), idx + 2)),
                    Err(e) => Err(e),
                }
            },
        }
    }
}

impl<'a> TryFrom<&'a str> for RequestLine {
    type Error = ParseError;

    /// Reads a request line given as text, without its CR LF.
    fn try_from(line: &'a str) -> (r: Result<RequestLine, ParseError>)
        ensures
            match r {
                Ok(l) => request_line_fields(encode_utf8(line@)) == Ok::<
                    (Seq<char>, Seq<char>, Seq<char>),
                    Seq<char>,
                >(l@),
                Err(e) => request_line_fields(encode_utf8(line@)) is Err && e.is_invalid_format(
                    request_line_fields(encode_utf8(line@))->Err_0,
                ),
            },
    {
        RequestLine::from_line(line.as_bytes())
    }
}

impl<'a> vstd::std_specs::convert::TryFromSpecImpl<&'a str> for RequestLine {
    open spec fn obeys_try_from_spec() -> bool {
        false
    }

    open spec fn try_from_spec(line: &'a str) -> Result<RequestLine, ParseError> {
        arbitrary()
    }
}

/// Where the parser stands in a request.
#[derive(Debug, PartialEq, Eq, Copy, Clone, Structural)]
pub enum ParserState {
    Initialized,
    ParsingHeaders,
    ParsingBody,
    Done,
}

/// The abstract value of a request being parsed.
pub struct RequestView {
    pub line: (Seq<char>, Seq<char>, Seq<char>),
    pub headers: Seq<(Seq<char>, Seq<char>)>,
    pub body: Seq<u8>,
    pub state: ParserState,
}

/// The key under which a `Content-Length` field is stored.
pub open spec fn content_length_name() -> Seq<char> {
    lower_of("content-length"@)
}

/// The body length that the header fields declare: absent, or the value
/// read as a numeral (`None` inside when it is not one).
pub open spec fn declared_length(h: Map<Seq<char>, Seq<char>>) -> Option<Option<nat>> {
    if h.contains_key(content_length_name()) {
        Some(parse_usize(encode_utf8(h[content_length_name()])))
    } else {
        None
    }
}

/// The body length that parsing the body goes by.
pub open spec fn body_target(h: Map<Seq<char>, Seq<char>>) -> nat {
    match declared_length(h) {
        Some(Some(n)) => n,
        _ => 0,
    }
}

pub open spec fn bad_length_msg() -> Seq<char> {
    "invalid content-length"@
}

pub open spec fn body_too_long_msg() -> Seq<char> {
    "body longer than content-length"@
}

pub open spec fn parse_after_done_msg() -> Seq<char> {
    "attempting to parse in a done state"@
}

/// One step of the parser on `data`: the request after it and the bytes
/// consumed, or why the bytes are refused.
#[verifier::opaque]
pub open spec fn request_step(r: RequestView, data: Seq<u8>) -> Result<(RequestView, nat), Seq<char>> {
    match r.state {
        ParserState::Initialized => match request_line_step(data) {
            Ok(Some((l, n))) => Ok((RequestView { line: l, state: ParserState::ParsingHeaders, ..r }, n)),
            Ok(None) => Ok((r, 0)),
            Err(m) => Err(m),
        },
        ParserState::ParsingHeaders => match header_step(r.headers, data) {
            Ok((h, n, done)) => if !done {
                Ok((RequestView { headers: h, ..r }, n))
            } else {
                match declared_length(entries_map(h)) {
                    None => Ok((RequestView { headers: h, state: ParserState::Done, ..r }, n)),
                    Some(None) => Err(bad_length_msg()),
                    Some(Some(len)) => if len == 0 {
                        Ok((RequestView { headers: h, state: ParserState::Done, ..r }, n))
                    } else {
                        Ok((RequestView { headers: h, state: ParserState::ParsingBody, ..r }, n))
                    },
                }
            },
            Err(m) => Err(m),
        },
        ParserState::ParsingBody => {
            let target = body_target(entries_map(r.headers));
            if r.body.len() > target {
                Err(body_too_long_msg())
            } else {
                let need = (target - r.body.len()) as nat;
                let k = if need < data.len() {
                    need
                } else {
                    data.len()
                };
                let body = r.body + data.take(k as int);
                Ok(
                    (
                        RequestView {
                            body: body,
                            state: if body.len() == target {
                                ParserState::Done
                            } else {
                                ParserState::ParsingBody
                            },
                            ..r
                        },
                        k,
                    ),
                )
            }
        },
        ParserState::Done => Err(parse_after_done_msg()),
    }
}

/// A run's outcome, counting `prefix` more bytes as consumed.
pub open spec fn consumed_after(prefix: nat, res: Result<(RequestView, nat), Seq<char>>) -> Result<
    (RequestView, nat),
    Seq<char>,
> {
    match res {
        Ok((r, k)) => Ok((r, prefix + k)),
        Err(m) => Err(m),
    }
}

/// Steps the parser over `data` until it is done, the bytes run out, or a
/// step consumes nothing: the request then, and the bytes consumed in all.
pub open spec fn request_run(r: RequestView, data: Seq<u8>) -> Result<(RequestView, nat), Seq<char>>
    decreases data.len(),
{
    if r.state == ParserState::Done || data.len() == 0 {
        Ok((r, 0))
    } else {
        match request_step(r, data) {
            Err(m) => Err(m),
            Ok((r2, n)) => if n == 0 || n > data.len() {
                Ok((r2, 0))
            } else {
                consumed_after(n, request_run(r2, data.skip(n as int)))
            },
        }
    }
}

/// A step never consumes more bytes than it is given.
pub proof fn lemma_step_bound(r: RequestView, data: Seq<u8>)
    ensures
        request_step(r, data) is Ok ==> request_step(r, data)->Ok_0.1 <= data.len(),
{
    reveal(request_step);
    lemma_first_crlf(data);
}

/// A run never consumes more bytes than it is given.
pub proof fn lemma_run_bound(r: RequestView, data: Seq<u8>)
    ensures
        request_run(r, data) is Ok ==> request_run(r, data)->Ok_0.1 <= data.len(),
    decreases data.len(),
{
    if !(r.state == ParserState::Done || data.len() == 0) {
        lemma_step_bound(r, data);
        if let Ok((r2, n)) = request_step(r, data) {
            if n > 0 && n <= data.len() {
                lemma_run_bound(r2, data.skip(n as int));
            }
        }
    }
}

/// Without a `content-length` field the request ends at the blank line
/// after the headers: the parser is done, the body stays empty, and the
/// bytes that follow are left unconsumed.
pub proof fn lemma_no_length_no_body(r: RequestView, rest: Seq<u8>)
    requires
        request_wf(r),
        r.state == ParserState::ParsingHeaders,
        !entries_map(r.headers).contains_key(content_length_name()),
    ensures
        request_run(r, seq![13u8, 10u8] + rest) == Ok::<(RequestView, nat), Seq<char>>(
            (RequestView { state: ParserState::Done, ..r }, 2),
        ),
        r.body.len() == 0,
{
    reveal(request_step);
    let data = seq![13u8, 10u8] + rest;
    assert(data[0] == 13u8 && data[1] == 10u8);
    assert(first_crlf(data) == Some(0nat));
    let done = RequestView { state: ParserState::Done, ..r };
    assert(request_step(r, data) == Ok::<(RequestView, nat), Seq<char>>((done, 2)));
    assert(request_run(done, data.skip(2)) == Ok::<(RequestView, nat), Seq<char>>((done, 0)));
}

/// The body is read to exactly the declared length: fewer bytes leave the
/// parser waiting for more, exactly the rest of the length finishes the
/// request, and of more bytes only the declared length is taken, the
/// request is done, and feeding the excess to it fails with a format error.
pub proof fn lemma_body_length(r: RequestView, data: Seq<u8>)
    requires
        request_wf(r),
        r.state == ParserState::ParsingBody,
    ensures
        ({
            let need = body_target(entries_map(r.headers)) - r.body.len();
            &&& need > 0
            &&& data.len() < need ==> request_run(r, data) == Ok::<(RequestView, nat), Seq<char>>(
                (RequestView { body: r.body + data, ..r }, data.len()),
            )
            &&& data.len() == need ==> request_run(r, data) == Ok::<(RequestView, nat), Seq<char>>(
                (RequestView { body: r.body + data, state: ParserState::Done, ..r }, data.len()),
            )
            &&& data.len() > need ==> {
                let done = RequestView {
                    body: r.body + data.take(need),
                    state: ParserState::Done,
                    ..r
                };
                &&& request_run(r, data) == Ok::<(RequestView, nat), Seq<char>>(
                    (done, need as nat),
                )
                &&& request_step(done, data.skip(need)) == Err::<(RequestView, nat), Seq<char>>(
                    parse_after_done_msg(),
                )
            }
        }),
{
    reveal(request_step);
    let target = body_target(entries_map(r.headers));
    let need = target - r.body.len();
    if data.len() == 0 {
        assert(r.body + data =~= r.body);
        assert(RequestView { body: r.body + data, ..r } == r);
    } else {
        let k = if need < data.len() {
            need
        } else {
            data.len() as int
        };
        let r2 = RequestView {
            body: r.body + data.take(k),
            state: if r.body.len() + k == target {
                ParserState::Done
            } else {
                ParserState::ParsingBody
            },
            ..r
        };
        assert(request_step(r, data) == Ok::<(RequestView, nat), Seq<char>>((r2, k as nat)));
        if k == data.len() {
            assert(data.take(k) =~= data);
            assert(data.skip(k) =~= Seq::<u8>::empty());
        }
        assert(request_run(r2, data.skip(k)) == Ok::<(RequestView, nat), Seq<char>>((r2, 0)));
    }
}

/// A step keeps the parser's invariant.
pub proof fn lemma_step_wf(r: RequestView, data: Seq<u8>)
    requires
        request_wf(r),
        request_step(r, data) is Ok,
    ensures
        request_wf(request_step(r, data)->Ok_0.0),
{
    reveal(request_step);
    if r.state == ParserState::ParsingHeaders {
        if let Some(n) = first_crlf(data) {
            if n > 0 {
                if let Ok(kv) = field_line(data.take(n as int)) {
                    lemma_merge_entry(r.headers, kv.0, kv.1);
                }
            }
        }
    }
}

/// Before the body, a step on bytes that hold a complete line does not
/// look past that line.
proof fn lemma_step_prefix(r: RequestView, a: Seq<u8>, b: Seq<u8>)
    requires
        r.state == ParserState::Initialized || r.state == ParserState::ParsingHeaders,
        first_crlf(a) is Some,
    ensures
        request_step(r, a + b) == request_step(r, a),
        request_step(r, a) is Ok ==> request_step(r, a)->Ok_0.1 > 0,
{
    reveal(request_step);
    lemma_first_crlf_extend(a, b);
    lemma_first_crlf(a);
    let n = first_crlf(a)->0;
    assert((a + b).take(n as int) =~= a.take(n as int));
}

/// Before the body, bytes without a complete line are left for later.
proof fn lemma_step_no_line(r: RequestView, a: Seq<u8>)
    requires
        r.state == ParserState::Initialized || r.state == ParserState::ParsingHeaders,
        first_crlf(a) is None,
    ensures
        request_step(r, a) == Ok::<(RequestView, nat), Seq<char>>((r, 0)),
{
    reveal(request_step);
}

/// A run keeps the parser's invariant.
pub proof fn lemma_run_wf(r: RequestView, data: Seq<u8>)
    requires
        request_wf(r),
    ensures
        request_run(r, data) is Ok ==> request_wf(request_run(r, data)->Ok_0.0),
    decreases data.len(),
{
    if !(r.state == ParserState::Done || data.len() == 0) {
        if let Ok((r2, n)) = request_step(r, data) {
            lemma_step_wf(r, data);
            if n > 0 && n <= data.len() {
                lemma_run_wf(r2, data.skip(n as int));
            }
        }
    }
}

/// Body bytes that fall short of the declared length may arrive in two
/// pieces or in one: the run over both is the run over the second after the
/// first has been taken.
proof fn lemma_body_split(r: RequestView, a: Seq<u8>, b: Seq<u8>)
    requires
        request_wf(r),
        r.state == ParserState::ParsingBody,
        0 < a.len() < body_target(entries_map(r.headers)) - r.body.len(),
    ensures
        request_run(r, a) == Ok::<(RequestView, nat), Seq<char>>(
            (RequestView { body: r.body + a, ..r }, a.len()),
        ),
        request_run(r, a + b) == consumed_after(
            a.len(),
            request_run(RequestView { body: r.body + a, ..r }, b),
        ),
{
    lemma_body_length(r, a);
    reveal(request_step);
    let ra = RequestView { body: r.body + a, ..r };
    let target = body_target(entries_map(r.headers));
    let need = target - r.body.len();
    let d = a + b;
    let k = if need < d.len() {
        need
    } else {
        d.len() as int
    };
    let r1 = RequestView {
        body: r.body + d.take(k),
        state: if r.body.len() + k == target {
            ParserState::Done
        } else {
            ParserState::ParsingBody
        },
        ..r
    };
    assert(request_step(r, d) == Ok::<(RequestView, nat), Seq<char>>((r1, k as nat)));
    if b.len() == 0 {
        assert(d =~= a);
        assert(b =~= Seq::<u8>::empty());
        assert(d.take(k) =~= a);
        assert(d.skip(k) =~= Seq::<u8>::empty());
        assert(r1 == ra);
    } else {
        let need2 = target - ra.body.len();
        let k2 = if need2 < b.len() {
            need2
        } else {
            b.len() as int
        };
        let r2 = RequestView {
            body: ra.body + b.take(k2),
            state: if ra.body.len() + k2 == target {
                ParserState::Done
            } else {
                ParserState::ParsingBody
            },
            ..ra
        };
        assert(request_step(ra, b) == Ok::<(RequestView, nat), Seq<char>>((r2, k2 as nat)));
        assert(k == a.len() + k2);
        assert(d.take(k) =~= a + b.take(k2));
        assert(r.body + d.take(k) =~= ra.body + b.take(k2));
        assert(r1 == r2);
        assert(d.skip(k) =~= b.skip(k2));
    }
}

/// Splitting the bytes in two does not change a run: the run over `a + b`
/// is the run over `a`, then a run over what it left of `a` followed by `b`;
/// and a run that fails on `a` fails alike on `a + b`.
pub proof fn lemma_run_split(r: RequestView, a: Seq<u8>, b: Seq<u8>)
    requires
        request_wf(r),
    ensures
        request_run(r, a + b) == match request_run(r, a) {
            Ok((r1, c1)) => consumed_after(c1, request_run(r1, a.skip(c1 as int) + b)),
            Err(m) => Err(m),
        },
    decreases a.len(),
{
    let d = a + b;
    if r.state == ParserState::Done {
        assert(a.skip(0) + b =~= d);
    } else if a.len() == 0 {
        assert(a.skip(0) + b =~= d);
    } else if r.state == ParserState::ParsingBody {
        let need = body_target(entries_map(r.headers)) - r.body.len();
        if a.len() < need {
            lemma_body_split(r, a, b);
            assert(a.skip(a.len() as int) + b =~= b);
        } else {
            lemma_body_length(r, a);
            lemma_body_length(r, d);
            assert(d.take(need) =~= a.take(need));
            let done = RequestView { body: r.body + a.take(need), state: ParserState::Done, ..r };
            if a.len() == need {
                assert(a.take(need) =~= a);
            }
            assert(request_run(done, a.skip(need) + b) == Ok::<(RequestView, nat), Seq<char>>(
                (done, 0),
            ));
        }
    } else {
        if first_crlf(a) is None {
            lemma_step_no_line(r, a);
            assert(a.skip(0) + b =~= d);
        } else {
            lemma_step_prefix(r, a, b);
            lemma_step_bound(r, a);
            if let Ok((r2, n)) = request_step(r, a) {
                lemma_step_wf(r, a);
                let a2 = a.skip(n as int);
                assert(d.skip(n as int) =~= a2 + b);
                lemma_run_split(r2, a2, b);
                lemma_run_bound(r2, a2);
                if let Ok((r1, c)) = request_run(r2, a2) {
                    assert(a2.skip(c as int) =~= a.skip((n + c) as int));
                }
            }
        }
    }
}

/// A request without a `content-length` field ends at its header block:
/// after a head that the parser reads to the end and finishes on, whatever
/// bytes follow are neither consumed nor stored, and the body is empty.
pub proof fn lemma_request_without_length(head: Seq<u8>, rh: RequestView, tail: Seq<u8>)
    requires
        request_run(initial_request(), head) == Ok::<(RequestView, nat), Seq<char>>(
            (rh, head.len()),
        ),
        rh.state == ParserState::Done,
        !entries_map(rh.headers).contains_key(content_length_name()),
    ensures
        request_run(initial_request(), head + tail) == Ok::<(RequestView, nat), Seq<char>>(
            (rh, head.len()),
        ),
        rh.body.len() == 0,
{
    lemma_run_wf(initial_request(), head);
    lemma_run_split(initial_request(), head, tail);
    assert(head.skip(head.len() as int) + tail =~= tail);
}

/// After a head that leaves the parser reading the body, a body of exactly
/// the declared length finishes the request, a shorter one leaves it waiting
/// for the rest, and of a longer one only the declared length is taken.
pub proof fn lemma_request_body(head: Seq<u8>, rh: RequestView, b: Seq<u8>)
    requires
        request_run(initial_request(), head) == Ok::<(RequestView, nat), Seq<char>>(
            (rh, head.len()),
        ),
        rh.state == ParserState::ParsingBody,
    ensures
        ({
            let need = body_target(entries_map(rh.headers)) - rh.body.len();
            &&& need > 0
            &&& b.len() < need ==> request_run(initial_request(), head + b) == Ok::<
                (RequestView, nat),
                Seq<char>,
            >((RequestView { body: rh.body + b, ..rh }, head.len() + b.len()))
            &&& b.len() == need ==> request_run(initial_request(), head + b) == Ok::<
                (RequestView, nat),
                Seq<char>,
            >(
                (
                    RequestView { body: rh.body + b, state: ParserState::Done, ..rh },
                    head.len() + b.len(),
                ),
            )
            &&& b.len() > need ==> request_run(initial_request(), head + b) == Ok::<
                (RequestView, nat),
                Seq<char>,
            >(
                (
                    RequestView { body: rh.body + b.take(need), state: ParserState::Done, ..rh },
                    (head.len() + need) as nat,
                ),
            )
        }),
{
    lemma_run_wf(initial_request(), head);
    lemma_run_split(initial_request(), head, b);
    assert(head.skip(head.len() as int) + b =~= b);
    lemma_body_length(rh, b);
}

/// Header lines, each followed by CR LF.
pub open spec fn field_lines(lines: Seq<Seq<u8>>) -> Seq<u8>
    decreases lines.len(),
{
    if lines.len() == 0 {
        Seq::empty()
    } else {
        lines[0] + seq![13u8, 10u8] + field_lines(lines.drop_first())
    }
}

/// The entries after the header lines `lines` are parsed, one after another.
pub open spec fn fields_after(s: Seq<(Seq<char>, Seq<char>)>, lines: Seq<Seq<u8>>) -> Seq<
    (Seq<char>, Seq<char>),
>
    decreases lines.len(),
{
    if lines.len() == 0 {
        s
    } else {
        let kv = field_line(lines[0])->Ok_0;
        fields_after(merge_entry(s, kv.0, kv.1), lines.drop_first())
    }
}

/// Every line is a well-formed header line without CR LF inside.
pub open spec fn valid_field_lines(lines: Seq<Seq<u8>>) -> bool {
    forall|i: int|
        0 <= i < lines.len() ==> (#[trigger] field_line(lines[i])) is Ok && forall|j: int|
            !is_crlf_at(lines[i], j)
}

/// The bytes of a request head: the request line, the header lines, and the
/// blank line that ends them.
pub open spec fn request_head(line: Seq<u8>, lines: Seq<Seq<u8>>) -> Seq<u8> {
    line + seq![13u8, 10u8] + field_lines(lines) + seq![13u8, 10u8]
}

proof fn lemma_field_lines_run(r: RequestView, lines: Seq<Seq<u8>>, rest: Seq<u8>)
    requires
        request_wf(r),
        r.state == ParserState::ParsingHeaders,
        valid_field_lines(lines),
    ensures
        crate::headers::names_unique(fields_after(r.headers, lines)),
        request_run(r, field_lines(lines) + rest) == consumed_after(
            field_lines(lines).len(),
            request_run(RequestView { headers: fields_after(r.headers, lines), ..r }, rest),
        ),
    decreases lines.len(),
{
    if lines.len() == 0 {
        assert(field_lines(lines) + rest =~= rest);
        assert(RequestView { headers: fields_after(r.headers, lines), ..r } == r);
    } else {
        let h = lines[0];
        let tail = lines.drop_first();
        assert(field_line(lines[0]) is Ok);
        assert forall|i: int| 0 <= i < tail.len() implies (#[trigger] field_line(tail[i])) is Ok
            && forall|j: int| !is_crlf_at(tail[i], j) by {
            assert(tail[i] == lines[i + 1]);
            assert(field_line(lines[i + 1]) is Ok);
        }
        let after = field_lines(tail) + rest;
        let data = field_lines(lines) + rest;
        assert(data =~= h + seq![13u8, 10u8] + after);
        lemma_header_coalescing(r.headers, h, after);
        let kv = field_line(h)->Ok_0;
        let r2 = RequestView { headers: merge_entry(r.headers, kv.0, kv.1), ..r };
        reveal(request_step);
        assert(request_step(r, data) == Ok::<(RequestView, nat), Seq<char>>(
            (r2, h.len() + 2),
        ));
        lemma_line_end(h, after);
        assert(data.skip(h.len() + 2int) =~= after);
        lemma_field_lines_run(r2, tail, rest);
        assert(fields_after(r.headers, lines) == fields_after(r2.headers, tail));
    }
}

/// A whole request from its bytes: a request line, header lines, the blank
/// line, then the body. Without a `content-length` field the request is done
/// at the blank line, with an empty body, and whatever follows is neither
/// consumed nor stored. With a declared length `n > 0`, a body of exactly
/// `n` bytes finishes the request with that body, and a shorter one is all
/// consumed and leaves the parser waiting for the rest.
pub proof fn lemma_request_bytes(line: Seq<u8>, lines: Seq<Seq<u8>>, b: Seq<u8>)
    requires
        forall|j: int| !is_crlf_at(line, j),
        request_line_fields(line) is Ok,
        valid_field_lines(lines),
    ensures
        ({
            let head = request_head(line, lines);
            let fields = fields_after(Seq::empty(), lines);
            let parsed = RequestView {
                line: request_line_fields(line)->Ok_0,
                headers: fields,
                body: Seq::empty(),
                state: ParserState::Done,
            };
            match declared_length(entries_map(fields)) {
                None => request_run(initial_request(), head + b) == Ok::<
                    (RequestView, nat),
                    Seq<char>,
                >((parsed, head.len())),
                Some(Some(n)) => n > 0 ==> {
                    &&& b.len() == n ==> request_run(initial_request(), head + b) == Ok::<
                        (RequestView, nat),
                        Seq<char>,
                    >((RequestView { body: b, ..parsed }, head.len() + b.len()))
                    &&& b.len() < n ==> request_run(initial_request(), head + b) == Ok::<
                        (RequestView, nat),
                        Seq<char>,
                    >(
                        (
                            RequestView { body: b, state: ParserState::ParsingBody, ..parsed },
                            head.len() + b.len(),
                        ),
                    )
                },
                Some(None) => true,
            }
        }),
{
    let crlf = seq![13u8, 10u8];
    let head = request_head(line, lines);
    let data = head + b;
    let rest = field_lines(lines) + (crlf + b);
    assert(data =~= line + crlf + rest);
    lemma_line_end(line, rest);
    reveal(request_step);
    let f = request_line_fields(line)->Ok_0;
    let r1 = RequestView { line: f, state: ParserState::ParsingHeaders, ..initial_request() };
    assert(request_step(initial_request(), data) == Ok::<(RequestView, nat), Seq<char>>(
        (r1, line.len() + 2),
    ));
    assert(data.skip(line.len() + 2int) =~= rest);
    lemma_field_lines_run(r1, lines, crlf + b);
    let fields = fields_after(Seq::empty(), lines);
    let r2 = RequestView { headers: fields, ..r1 };
    let parsed = RequestView { headers: fields, state: ParserState::Done, ..r1 };
    match declared_length(entries_map(fields)) {
        None => {
            lemma_no_length_no_body(r2, b);
        },
        Some(Some(n)) => {
            if n > 0 {
                let r3 = RequestView { state: ParserState::ParsingBody, ..r2 };
                let d2 = crlf + b;
                assert(d2[0] == 13u8 && d2[1] == 10u8);
                assert(first_crlf(d2) == Some(0nat));
                assert(request_step(r2, d2) == Ok::<(RequestView, nat), Seq<char>>((r3, 2)));
                assert(d2.skip(2) =~= b);
                lemma_body_length(r3, b);
                assert(Seq::<u8>::empty() + b =~= b);
                if b.len() == 0 {
                    assert(request_run(r3, b) == Ok::<(RequestView, nat), Seq<char>>((r3, 0)));
                }
            }
        },
        Some(None) => {},
    }
}

/// A request and the state of its parsing.
pub struct Request {
    pub request_line: RequestLine,
    pub headers: Headers,
    pub body: Vec<u8>,
    pub parser_state: ParserState,
}

impl View for Request {
    type V = RequestView;

    open spec fn view(&self) -> RequestView {
        RequestView {
            line: self.request_line@,
            headers: self.headers.entries(),
            body: self.body@,
            state: self.parser_state,
        }
    }
}

/// The request before any byte has arrived.
pub open spec fn initial_request() -> RequestView {
    RequestView {
        line: (Seq::empty(), Seq::empty(), Seq::empty()),
        headers: Seq::empty(),
        body: Seq::empty(),
        state: ParserState::Initialized,
    }
}

/// The invariant of a request under parsing: no body before the header
/// block ends, nor without a declared length, and while the body is read, the header fields declare a length
/// that the body has not reached.
pub open spec fn request_wf(r: RequestView) -> bool {
    &&& crate::headers::names_unique(r.headers)
    &&& (r.state == ParserState::Initialized || r.state == ParserState::ParsingHeaders)
        ==> r.body.len() == 0
    &&& r.body.len() > 0 ==> declared_length(entries_map(r.headers)) is Some
    &&& r.state == ParserState::ParsingBody ==> match declared_length(entries_map(r.headers)) {
        Some(Some(n)) => r.body.len() < n,
        _ => false,
    }
}

impl Request {
    pub open spec fn wf(&self) -> bool {
        request_wf(self@)
    }

    pub fn new() -> (r: Request)
        ensures
            r.wf(),
            r@ == initial_request(),
    {
        Request {
            request_line: RequestLine {
                http_version: String::new(),
                request_target: String::new(),
                method: String::new(),
            },
            headers: Headers::new(),
            body: Vec::new(),
            parser_state: ParserState::Initialized,
        }
    }

    pub fn get_target(&self) -> (r: &str)
        ensures
            r@ == self.request_line.request_target@,
    {
        self.request_line.request_target.as_str()
    }

    /// The declared body length, `None` when absent, `Some(None)` when not a numeral.
    fn content_length(&self) -> (r: Option<Option<usize>>)
        ensures
            match r {
                None => declared_length(self.headers@) is None,
                Some(None) => declared_length(self.headers@) == Some(None::<nat>),
                Some(Some(n)) => declared_length(self.headers@) == Some(Some(n as nat)),
            },
    {
        match self.headers.get("content-length") {
            None => None,
            Some(v) => Some(parse_usize_bytes(v.as_str().as_bytes())),
        }
    }

    /// One step of parsing: feeds `data` to whichever part of the request
    /// comes next and returns how many bytes it consumed.
    pub fn parse_single(&mut self, data: &[u8]) -> (r: Result<usize, ParseError>)
        requires
            old(self).wf(),
        ensures
            final(self).wf(),
            match r {
                Ok(n) => request_step(old(self)@, data@) == Ok::<(RequestView, nat), Seq<char>>(
                    (final(self)@, n as nat),
                ),
                Err(e) => request_step(old(self)@, data@) is Err && e.is_invalid_format(
                    request_step(old(self)@, data@)->Err_0,
                ) && final(self)@ == old(self)@,
            },
    {
        reveal(request_step);
        match self.parser_state {
            ParserState::Initialized => {
                match RequestLine::parse(data) {
                    Ok((Some(request_line), bytes_read)) => {
                        self.request_line = request_line;
                        self.parser_state = ParserState::ParsingHeaders;
                        Ok(bytes_read)
                    },
                    Ok((None, bytes_read)) => Ok(bytes_read),
                    Err(e) => Err(e),
                }
            },
            ParserState::ParsingHeaders => {
                match self.headers.parse(data) {
                    Ok((bytes_read, done)) => {
                        if done {
                            match self.content_length() {
                                Some(Some(0)) => {
                                    self.parser_state = ParserState::Done;
                                },
                                Some(Some(_)) => {
                                    self.parser_state = ParserState::ParsingBody;
                                },
                                Some(None) => {
                                    return Err(
                                        ParseError::InvalidFormat(
                                            String::from_str("invalid content-length"),
                                        ),
                                    );
                                },
                                None => {
                                    self.parser_state = ParserState::Done;
                                },
                            }
                        }
                        Ok(bytes_read)
                    },
                    Err(e) => Err(e),
                }
            },
            ParserState::ParsingBody => {
                let content_length: usize = match self.content_length() {
                    Some(Some(n)) => n,
                    _ => 0,
                };
                if self.body.len() > content_length {
                    return Err(
                        ParseError::InvalidFormat(
                            String::from_str("body longer than content-length"),
                        ),
                    );
                }
                let bytes_needed = content_length - self.body.len();
                let bytes_to_consume = if bytes_needed < data.len() {
                    bytes_needed
                } else {
                    data.len()
                };
                append_range(&mut self.body, data, 0, bytes_to_consume);
                assert(data@.subrange(0, bytes_to_consume as int) == data@.take(
                    bytes_to_consume as int,
                ));
                if self.body.len() == content_length {
                    self.parser_state = ParserState::Done;
                }
                Ok(bytes_to_consume)
            },
            ParserState::Done => {
                Err(
                    ParseError::InvalidFormat(
                        String::from_str("attempting to parse in a done state"),
                    ),
                )
            },
        }
    }

    /// Parses as much of `data` as it can: one step after another until the
    /// request is done, the bytes run out, or a step needs more bytes than
    /// `data` holds. Returns the bytes consumed in all.
    pub fn parse(&mut self, data: &[u8]) -> (r: Result<usize, ParseError>)
        requires
            old(self).wf(),
        ensures
            final(self).wf(),
            match r {
                Ok(n) => request_run(old(self)@, data@) == Ok::<(RequestView, nat), Seq<char>>(
                    (final(self)@, n as nat),
                ),
                Err(e) => request_run(old(self)@, data@) is Err && e.is_invalid_format(
                    request_run(old(self)@, data@)->Err_0,
                ),
            },
    {
        let mut total_bytes_parsed: usize = 0;
        let mut stalled = false;
        assert(data@.skip(0) =~= data@);
        while !stalled && self.parser_state != ParserState::Done && total_bytes_parsed < data.len()
            invariant
                self.wf(),
                total_bytes_parsed <= data@.len(),
                stalled ==> request_run(old(self)@, data@) == Ok::<(RequestView, nat), Seq<char>>(
                    (self@, total_bytes_parsed as nat),
                ),
                !stalled ==> request_run(old(self)@, data@) == consumed_after(
                    total_bytes_parsed as nat,
                    request_run(self@, data@.skip(total_bytes_parsed as int)),
                ),
            decreases data@.len() - total_bytes_parsed, if stalled { 0int } else { 1int },
        {
            let ghost before = self@;
            let ghost rest = data@.skip(total_bytes_parsed as int);
            let remaining = &data[total_bytes_parsed..data.len()];
            assert(remaining@ =~= rest);
            proof {
                lemma_step_bound(before, rest);
            }
            let bytes_read = match self.parse_single(remaining) {
                Ok(n) => n,
                Err(e) => {
                    return Err(e);
                },
            };
            if bytes_read == 0 {
                stalled = true;
            } else {
                assert(rest.skip(bytes_read as int) =~= data@.skip(
                    total_bytes_parsed + bytes_read,
                ));
                total_bytes_parsed = total_bytes_parsed + bytes_read;
            }
        }
        Ok(total_bytes_parsed)
    }
}

} // verus!
