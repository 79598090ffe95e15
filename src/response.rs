//! Status codes, default headers and the response writer.

use vstd::prelude::*;
use vstd::utf8::encode_utf8;
use crate::headers::{block_bytes, key_pos, put_entry, Headers};
use crate::numeric::{
    decimal, decimal_text, hex_digit_value, hex_upper, hex_value, is_hex_digit,
    lemma_hex_round_trip, push_hex,
};
use crate::wire::{append_range, ascii_chars, concat_all, first_crlf, is_crlf_at, lemma_line_end};
use crate::text::lower_of;

verus! {

/// The status codes that responses can carry.
#[derive(Debug, PartialEq, Eq, Copy, Clone, Structural)]
pub enum StatusCode {
    StatusOk,
    StatusBadRequest,
    StatusInternalServerError,
    StatusNotFound,
}

/// The status line of each code, without its CR LF.
pub open spec fn status_text(c: StatusCode) -> Seq<char> {
    match c {
        StatusCode::StatusOk => "HTTP/1.1 200 OK"@,
        StatusCode::StatusBadRequest => "HTTP/1.1 400 Bad Request"@,
        StatusCode::StatusInternalServerError => "HTTP/1.1 500 Internal Server Error"@,
        StatusCode::StatusNotFound => "HTTP/1.1 404 File Not Found"@,
    }
}

impl StatusCode {
    /// The status line, without its CR LF.
    pub fn as_str(&self) -> (r: &'static str)
        ensures
            r@ == status_text(*self),
    {
        match self {
            StatusCode::StatusOk => "HTTP/1.1 200 OK",
            StatusCode::StatusBadRequest => "HTTP/1.1 400 Bad Request",
            StatusCode::StatusInternalServerError => "HTTP/1.1 500 Internal Server Error",
            StatusCode::StatusNotFound => "HTTP/1.1 404 File Not Found",
        }
    }
}

pub open spec fn crlf() -> Seq<u8> {
    seq![13u8, 10u8]
}

/// One chunk of a chunked body: its size in hexadecimal, CR LF, the
/// payload, CR LF.
pub open spec fn chunk_frame(payload: Seq<u8>) -> Seq<u8> {
    hex_upper(payload.len()) + crlf() + payload + crlf()
}

/// The chunk that ends a chunked body: `0` CR LF.
pub open spec fn last_chunk() -> Seq<u8> {
    seq![48u8, 13u8, 10u8]
}

pub open spec fn all_hex_digits(s: Seq<u8>) -> bool {
    forall|i: int| 0 <= i < s.len() ==> is_hex_digit(s[i])
}

/// A reference decoder for a chunked body: reads `size CR LF payload CR LF`
/// frames, the size in hexadecimal, up to the chunk of size zero, and
/// returns the payloads joined; `None` when the bytes are not so framed.
#[verifier::opaque]
pub open spec fn decode_chunked(b: Seq<u8>) -> Option<Seq<u8>>
    decreases b.len(),
{
    match first_crlf(b) {
        None => None,
        Some(end) => {
            let i = end as int;
            let n = hex_value(b.take(i)) as int;
            if i == 0 || !all_hex_digits(b.take(i)) {
                None
            } else if n == 0 {
                Some(Seq::empty())
            } else if b.len() < i + n + 4 || b.subrange(i + n + 2, i + n + 4) != crlf() {
                None
            } else {
                match decode_chunked(b.skip(i + n + 4)) {
                    Some(more) => Some(b.subrange(i + 2, i + n + 2) + more),
                    None => None,
                }
            }
        },
    }
}

/// The frames of a sequence of chunks, one after the other.
pub open spec fn chunk_frames(payloads: Seq<Seq<u8>>) -> Seq<u8>
    decreases payloads.len(),
{
    if payloads.len() == 0 {
        Seq::empty()
    } else {
        chunk_frame(payloads[0]) + chunk_frames(payloads.drop_first())
    }
}

/// Decoding a frame of a non-empty payload gives the payload, then what
/// the bytes after the frame decode to.
proof fn lemma_decode_frame(p: Seq<u8>, after: Seq<u8>)
    requires
        p.len() > 0,
    ensures
        decode_chunked(chunk_frame(p) + after) == match decode_chunked(after) {
            Some(more) => Some(p + more),
            None => None::<Seq<u8>>,
        },
{
    reveal(decode_chunked);
    let b = chunk_frame(p) + after;
    let h = hex_upper(p.len());
    lemma_hex_round_trip(p.len());
    assert forall|j: int| !is_crlf_at(h, j) by {
        if 0 <= j < h.len() {
            assert(is_hex_digit(h[j]));
        }
    }
    let tail = p + crlf() + after;
    assert(b =~= h + crlf() + tail);
    lemma_line_end(h, tail);
    let i = h.len() as int;
    let n = p.len() as int;
    assert(b.subrange(i + n + 2, i + n + 4) =~= crlf());
    assert(b.skip(i + n + 4) =~= after);
    assert(b.subrange(i + 2, i + n + 2) =~= p);
}

/// Chunked framing round-trips: the frames of non-empty chunks, then the
/// zero-size chunk, then anything at all, decode to the payloads in order.
pub proof fn lemma_chunked_round_trip(payloads: Seq<Seq<u8>>, rest: Seq<u8>)
    requires
        forall|i: int| 0 <= i < payloads.len() ==> payloads[i].len() > 0,
    ensures
        decode_chunked(chunk_frames(payloads) + last_chunk() + rest) == Some(
            concat_all(payloads),
        ),
    decreases payloads.len(),
{
    let b = chunk_frames(payloads) + last_chunk() + rest;
    if payloads.len() == 0 {
        reveal(decode_chunked);
        assert(b =~= seq![48u8] + crlf() + rest);
        lemma_line_end(seq![48u8], rest);
        assert(seq![48u8].drop_last() =~= Seq::<u8>::empty());
        assert(hex_value(Seq::<u8>::empty()) == 0);
        assert(seq![48u8].last() == 48u8);
        assert(hex_value(seq![48u8]) == 0);
    } else {
        let p = payloads[0];
        let tail = payloads.drop_first();
        assert forall|i: int| 0 <= i < tail.len() implies tail[i].len() > 0 by {
            assert(tail[i] == payloads[i + 1]);
        }
        lemma_chunked_round_trip(tail, rest);
        assert(b =~= chunk_frame(p) + (chunk_frames(tail) + last_chunk() + rest));
        lemma_decode_frame(p, chunk_frames(tail) + last_chunk() + rest);
    }
}

/// How far a response has been written.
#[derive(Debug, PartialEq, Eq, Copy, Clone, Structural)]
pub enum WriterState {
    New,
    StatusWritten,
    HeadersWritten,
    BodyWritten,
}

/// An operation was called in a state that does not allow it.
#[derive(Debug, PartialEq, Eq, Copy, Clone, Structural)]
pub struct OrderError {
    /// The state the operation needs.
    pub expected: WriterState,
    /// The state the writer was in.
    pub found: WriterState,
}

/// The response writer: enforces the order status line, headers, body,
/// trailers, and collects the wire bytes that the transport is to send.
pub struct Writer {
    state: WriterState,
    out: Vec<u8>,
}

/// The abstract writer: its state and the bytes not yet taken out.
pub struct WriterView {
    pub state: WriterState,
    pub out: Seq<u8>,
}

impl View for Writer {
    type V = WriterView;

    closed spec fn view(&self) -> WriterView {
        WriterView { state: self.state, out: self.out@ }
    }
}

/// What an operation that needs state `need` does: on success it appends
/// `bytes` and moves to `next`; out of order it changes nothing.
pub open spec fn writer_op(
    w: WriterView,
    need: WriterState,
    bytes: Seq<u8>,
    next: WriterState,
) -> Result<WriterView, OrderError> {
    if w.state == need {
        Ok(WriterView { state: next, out: w.out + bytes })
    } else {
        Err(OrderError { expected: need, found: w.state })
    }
}

pub open spec fn status_bytes(code: StatusCode) -> Seq<u8> {
    encode_utf8(status_text(code)) + crlf()
}

pub open spec fn header_section(entries: Seq<(Seq<char>, Seq<char>)>) -> Seq<u8> {
    block_bytes(entries) + crlf() + crlf()
}

pub open spec fn trailer_section(entries: Seq<(Seq<char>, Seq<char>)>) -> Seq<u8> {
    block_bytes(entries) + crlf()
}

/// Write order is enforced: headers before the status line, or a body
/// before the headers, are refused and add no byte; status line, headers and
/// body in order give exactly the status line, the header section and the
/// body, one after the other.
pub proof fn lemma_writer_order(
    code: StatusCode,
    fields: Seq<(Seq<char>, Seq<char>)>,
    body: Seq<u8>,
)
    ensures
        ({
            let fresh = WriterView { state: WriterState::New, out: Seq::empty() };
            writer_op(fresh, WriterState::StatusWritten, header_section(fields), WriterState::HeadersWritten) is Err
        }),
        ({
            let fresh = WriterView { state: WriterState::New, out: Seq::empty() };
            let w1 = writer_op(fresh, WriterState::New, status_bytes(code), WriterState::StatusWritten)->Ok_0;
            writer_op(w1, WriterState::HeadersWritten, body, WriterState::BodyWritten) is Err
        }),
        ({
            let fresh = WriterView { state: WriterState::New, out: Seq::empty() };
            let w1 = writer_op(fresh, WriterState::New, status_bytes(code), WriterState::StatusWritten);
            let w2 = writer_op(w1->Ok_0, WriterState::StatusWritten, header_section(fields), WriterState::HeadersWritten);
            let w3 = writer_op(w2->Ok_0, WriterState::HeadersWritten, body, WriterState::BodyWritten);
            &&& w1 is Ok && w2 is Ok && w3 is Ok
            &&& w3->Ok_0.state == WriterState::BodyWritten
            &&& w3->Ok_0.out == status_bytes(code) + header_section(fields) + body
        }),
{
    let fresh = WriterView { state: WriterState::New, out: Seq::empty() };
    let w1 = writer_op(fresh, WriterState::New, status_bytes(code), WriterState::StatusWritten);
    assert(w1->Ok_0.out =~= status_bytes(code));
}

/// The writer after one chunk write for each of `payloads`, in order.
pub open spec fn chunk_writes(w: WriterView, payloads: Seq<Seq<u8>>) -> Result<WriterView, OrderError>
    decreases payloads.len(),
{
    if payloads.len() == 0 {
        Ok(w)
    } else {
        match writer_op(
            w,
            WriterState::HeadersWritten,
            chunk_frame(payloads[0]),
            WriterState::HeadersWritten,
        ) {
            Ok(w2) => chunk_writes(w2, payloads.drop_first()),
            Err(e) => Err(e),
        }
    }
}

proof fn lemma_chunk_writes(w: WriterView, payloads: Seq<Seq<u8>>)
    requires
        w.state == WriterState::HeadersWritten,
    ensures
        chunk_writes(w, payloads) == Ok::<WriterView, OrderError>(
            WriterView { state: WriterState::HeadersWritten, out: w.out + chunk_frames(payloads) },
        ),
    decreases payloads.len(),
{
    if payloads.len() == 0 {
        assert(w.out + chunk_frames(payloads) =~= w.out);
    } else {
        let w2 = WriterView {
            state: WriterState::HeadersWritten,
            out: w.out + chunk_frame(payloads[0]),
        };
        lemma_chunk_writes(w2, payloads.drop_first());
        assert(w2.out + chunk_frames(payloads.drop_first()) =~= w.out + chunk_frames(payloads));
    }
}

/// A chunked body written through the writer round-trips: after the
/// headers, chunk writes of non-empty payloads and then the zero-size chunk
/// all succeed, the body counts as written, and the bytes they add decode to
/// the payloads in order.
pub proof fn lemma_writer_chunked_round_trip(w: WriterView, payloads: Seq<Seq<u8>>)
    requires
        w.state == WriterState::HeadersWritten,
        forall|i: int| 0 <= i < payloads.len() ==> payloads[i].len() > 0,
    ensures
        ({
            let written = chunk_writes(w, payloads);
            let done = writer_op(
                written->Ok_0,
                WriterState::HeadersWritten,
                last_chunk(),
                WriterState::BodyWritten,
            );
            &&& written is Ok && done is Ok
            &&& done->Ok_0.state == WriterState::BodyWritten
            &&& done->Ok_0.out == w.out + chunk_frames(payloads) + last_chunk()
            &&& decode_chunked(done->Ok_0.out.skip(w.out.len() as int)) == Some(
                concat_all(payloads),
            )
        }),
{
    lemma_chunk_writes(w, payloads);
    let out = w.out + chunk_frames(payloads) + last_chunk();
    assert(out.skip(w.out.len() as int) =~= chunk_frames(payloads) + last_chunk() + Seq::empty());
    lemma_chunked_round_trip(payloads, Seq::empty());
}

impl Writer {
    pub fn new() -> (r: Writer)
        ensures
            r@ == (WriterView { state: WriterState::New, out: Seq::empty() }),
    {
        Writer { state: WriterState::New, out: Vec::new() }
    }

    pub fn state(&self) -> (r: WriterState)
        ensures
            r == self@.state,
    {
        self.state
    }

    /// The bytes written and not yet taken out.
    pub fn output(&self) -> (r: &Vec<u8>)
        ensures
            r@ == self@.out,
    {
        &self.out
    }

    /// Hands out the bytes written so far, leaving none behind.
    pub fn take_output(&mut self) -> (r: Vec<u8>)
        ensures
            r@ == old(self)@.out,
            final(self)@ == (WriterView { state: old(self)@.state, out: Seq::empty() }),
    {
        let mut r: Vec<u8> = Vec::new();
        r.append(&mut self.out);
        r
    }

    fn check(&self, need: WriterState) -> (r: Result<(), OrderError>)
        ensures
            r is Ok <==> self@.state == need,
            r is Err ==> r->Err_0 == (OrderError { expected: need, found: self@.state }),
    {
        if self.state == need {
            Ok(())
        } else {
            Err(OrderError { expected: need, found: self.state })
        }
    }

    /// Writes the status line; allowed only first.
    pub fn write_status_line(&mut self, status_code: StatusCode) -> (r: Result<(), OrderError>)
        ensures
            match writer_op(
                old(self)@,
                WriterState::New,
                status_bytes(status_code),
                WriterState::StatusWritten,
            ) {
                Ok(w) => r is Ok && final(self)@ == w,
                Err(e) => r == Err::<(), OrderError>(e) && final(self)@ == old(self)@,
            },
    {
        if let Err(e) = self.check(WriterState::New) {
            return Err(e);
        }
        let text = status_code.as_str().as_bytes();
        append_range(&mut self.out, text, 0, text.len());
        self.out.push(13u8);
        self.out.push(10u8);
        proof {
            assert(text@.subrange(0, text@.len() as int) =~= text@);
            assert(self.out@ =~= old(self)@.out + status_bytes(status_code));
        }
        self.state = WriterState::StatusWritten;
        Ok(())
    }

    /// Writes the header block and the blank line after it; allowed only
    /// right after the status line.
    pub fn write_headers(&mut self, headers: &Headers) -> (r: Result<(), OrderError>)
        ensures
            match writer_op(
                old(self)@,
                WriterState::StatusWritten,
                header_section(headers.entries()),
                WriterState::HeadersWritten,
            ) {
                Ok(w) => r is Ok && final(self)@ == w,
                Err(e) => r == Err::<(), OrderError>(e) && final(self)@ == old(self)@,
            },
    {
        if let Err(e) = self.check(WriterState::StatusWritten) {
            return Err(e);
        }
        headers.write_block(&mut self.out);
        self.out.push(13u8);
        self.out.push(10u8);
        self.out.push(13u8);
        self.out.push(10u8);
        assert(self.out@ =~= old(self)@.out + header_section(headers.entries()));
        self.state = WriterState::HeadersWritten;
        Ok(())
    }

    /// Writes a whole body at once; allowed only after the headers.
    /// Returns the body's length.
    pub fn write_body(&mut self, body: &[u8]) -> (r: Result<usize, OrderError>)
        ensures
            match writer_op(old(self)@, WriterState::HeadersWritten, body@, WriterState::BodyWritten) {
                Ok(w) => r == Ok::<usize, OrderError>(body@.len() as usize) && final(self)@ == w,
                Err(e) => r == Err::<usize, OrderError>(e) && final(self)@ == old(self)@,
            },
    {
        if let Err(e) = self.check(WriterState::HeadersWritten) {
            return Err(e);
        }
        append_range(&mut self.out, body, 0, body.len());
        assert(body@.subrange(0, body@.len() as int) =~= body@);
        self.state = WriterState::BodyWritten;
        Ok(body.len())
    }

    /// Writes one chunk of a chunked body; allowed, any number of times,
    /// only after the headers. Returns the length of the chunk's frame.
    pub fn write_chunked_body(&mut self, body: &[u8]) -> (r: Result<usize, OrderError>)
        ensures
            match writer_op(
                old(self)@,
                WriterState::HeadersWritten,
                chunk_frame(body@),
                WriterState::HeadersWritten,
            ) {
                Ok(w) => r == Ok::<usize, OrderError>(chunk_frame(body@).len() as usize)
                    && final(self)@ == w,
                Err(e) => r == Err::<usize, OrderError>(e) && final(self)@ == old(self)@,
            },
    {
        if let Err(e) = self.check(WriterState::HeadersWritten) {
            return Err(e);
        }
        let start = self.out.len();
        push_hex(body.len(), &mut self.out);
        self.out.push(13u8);
        self.out.push(10u8);
        append_range(&mut self.out, body, 0, body.len());
        self.out.push(13u8);
        self.out.push(10u8);
        assert(body@.subrange(0, body@.len() as int) =~= body@);
        assert(self.out@ =~= old(self)@.out + chunk_frame(body@));
        Ok(self.out.len() - start)
    }

    /// Ends a chunked body with the zero-size chunk; allowed only after the
    /// headers. Returns the length of what it wrote.
    pub fn write_chunked_body_done(&mut self) -> (r: Result<usize, OrderError>)
        ensures
            match writer_op(
                old(self)@,
                WriterState::HeadersWritten,
                last_chunk(),
                WriterState::BodyWritten,
            ) {
                Ok(w) => r == Ok::<usize, OrderError>(3) && final(self)@ == w,
                Err(e) => r == Err::<usize, OrderError>(e) && final(self)@ == old(self)@,
            },
    {
        if let Err(e) = self.check(WriterState::HeadersWritten) {
            return Err(e);
        }
        self.out.push(48u8);
        self.out.push(13u8);
        self.out.push(10u8);
        assert(self.out@ =~= old(self)@.out + last_chunk());
        self.state = WriterState::BodyWritten;
        Ok(3)
    }

    /// Writes trailer fields and the CR LF after them; allowed only after
    /// the body. Returns the length of what it wrote.
    pub fn write_trailers(&mut self, headers: &Headers) -> (r: Result<usize, OrderError>)
        ensures
            match writer_op(
                old(self)@,
                WriterState::BodyWritten,
                trailer_section(headers.entries()),
                WriterState::BodyWritten,
            ) {
                Ok(w) => r == Ok::<usize, OrderError>(
                    trailer_section(headers.entries()).len() as usize,
                ) && final(self)@ == w,
                Err(e) => r == Err::<usize, OrderError>(e) && final(self)@ == old(self)@,
            },
    {
        if let Err(e) = self.check(WriterState::BodyWritten) {
            return Err(e);
        }
        let start = self.out.len();
        headers.write_block(&mut self.out);
        self.out.push(13u8);
        self.out.push(10u8);
        assert(self.out@ =~= old(self)@.out + trailer_section(headers.entries()));
        Ok(self.out.len() - start)
    }

    /// Writes the final CR LF, in any state. Returns its length.
    pub fn finish(&mut self) -> (r: usize)
        ensures
            r == 2,
            final(self)@ == (WriterView { state: old(self)@.state, out: old(self)@.out + crlf() }),
    {
        self.out.push(13u8);
        self.out.push(10u8);
        assert(self.out@ =~= old(self)@.out + crlf());
        2
    }
}

/// The fields every response starts with, for a body of `n` bytes:
/// `Content-Length`, `Connection: close` and `Content-Type: text/plain`,
/// each set in turn under its lower-cased name.
pub open spec fn default_entries(n: nat) -> Seq<(Seq<char>, Seq<char>)> {
    put_entry(
        put_entry(
            put_entry(Seq::empty(), lower_of("Content-Length"@), ascii_chars(decimal(n))),
            lower_of("Connection"@),
            "close"@,
        ),
        lower_of("Content-Type"@),
        "text/plain"@,
    )
}

/// The default fields as a map.
pub open spec fn default_map(n: nat) -> Map<Seq<char>, Seq<char>> {
    Map::<Seq<char>, Seq<char>>::empty().insert(
        lower_of("Content-Length"@),
        ascii_chars(decimal(n)),
    ).insert(lower_of("Connection"@), "close"@).insert(lower_of("Content-Type"@), "text/plain"@)
}

/// A complete response held in memory.
pub struct Response {
    pub status_line: StatusCode,
    pub headers: Headers,
    pub body: Vec<u8>,
}

impl Response {
    /// A response with `body` and the default fields for its length.
    pub fn new(status_code: StatusCode, body: Vec<u8>) -> (r: Response)
        ensures
            r.status_line == status_code,
            r.body@ == body@,
            r.headers.wf(),
            r.headers.entries() == default_entries(body@.len()),
    {
        let headers = Self::get_default_headers(body.len());
        Response { status_line: status_code, headers, body }
    }

    /// `Content-Length` for a body of `content_len` bytes, `Connection:
    /// close` and `Content-Type: text/plain`, under lower-cased names.
    pub fn get_default_headers(content_len: usize) -> (r: Headers)
        ensures
            r.wf(),
            r.entries() == default_entries(content_len as nat),
            r@ == default_map(content_len as nat),
    {
        let mut result = Headers::new();
        result.insert(String::from_str("Content-Length"), decimal_text(content_len));
        result.insert(String::from_str("Connection"), String::from_str("close"));
        result.insert(String::from_str("Content-Type"), String::from_str("text/plain"));
        result
    }

    /// Replaces the body and sets `content-length` to its length.
    pub fn set_body(&mut self, body: Vec<u8>)
        requires
            old(self).headers.wf(),
        ensures
            final(self).status_line == old(self).status_line,
            final(self).body@ == body@,
            final(self).headers.wf(),
            final(self).headers.entries() == put_entry(
                old(self).headers.entries(),
                lower_of("content-length"@),
                ascii_chars(decimal(body@.len())),
            ),
            final(self).headers@ == old(self).headers@.insert(
                lower_of("content-length"@),
                ascii_chars(decimal(body@.len())),
            ),
    {
        let content_length = body.len();
        self.body = body;
        self.headers.insert(String::from_str("content-length"), decimal_text(content_length));
    }
}

impl Response {
    /// The whole response as bytes: status line, header section, body and a
    /// closing CR LF.
    pub fn to_bytes(&self) -> (r: Vec<u8>)
        ensures
            r@ == status_bytes(self.status_line) + header_section(self.headers.entries())
                + self.body@ + crlf(),
    {
        let mut w = Writer::new();
        let _ = w.write_status_line(self.status_line);
        let _ = w.write_headers(&self.headers);
        let _ = w.write_body(self.body.as_slice());
        w.finish();
        w.take_output()
    }
}

impl Default for Response {
    fn default() -> (r: Response)
        ensures
            r.status_line == StatusCode::StatusOk,
            r.body@ == Seq::<u8>::empty(),
            r.headers.wf(),
            r.headers.entries() == default_entries(0),
    {
        Response {
            status_line: StatusCode::StatusOk,
            headers: Self::get_default_headers(0),
            body: Vec::new(),
        }
    }
}

} // verus!
