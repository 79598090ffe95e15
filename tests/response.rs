use rust_http_from_tcp::headers::Headers;
use rust_http_from_tcp::response::{OrderError, Response, StatusCode, Writer, WriterState};

fn decode_chunked(mut b: &[u8]) -> Option<Vec<u8>> {
    let mut out = Vec::new();
    loop {
        let end = b.windows(2).position(|w| w == b"\r\n")?;
        let size = usize::from_str_radix(std::str::from_utf8(&b[..end]).ok()?, 16).ok()?;
        if size == 0 {
            return Some(out);
        }
        let start = end + 2;
        if b.len() < start + size + 2 || &b[start + size..start + size + 2] != b"\r\n" {
            return None;
        }
        out.extend_from_slice(&b[start..start + size]);
        b = &b[start + size + 2..];
    }
}

#[test]
fn writer_sequence_scenario() {
    let mut w = Writer::new();
    w.write_status_line(StatusCode::StatusOk).unwrap();
    let mut h = Headers::new();
    h.insert("Content-Length".to_string(), "5".to_string());
    h.insert("Connection".to_string(), "close".to_string());
    w.write_headers(&h).unwrap();
    assert_eq!(w.write_body(b"hello").unwrap(), 5);
    assert_eq!(
        w.output().as_slice(),
        b"HTTP/1.1 200 OK\r\ncontent-length: 5\r\nconnection: close\r\n\r\nhello"
    );
    assert_eq!(w.state(), WriterState::BodyWritten);
}

#[test]
fn headers_before_status_line_fail_without_bytes() {
    let mut w = Writer::new();
    let h = Headers::new();
    assert_eq!(
        w.write_headers(&h),
        Err(OrderError { expected: WriterState::StatusWritten, found: WriterState::New })
    );
    assert!(w.output().is_empty());
    assert_eq!(w.state(), WriterState::New);
}

#[test]
fn body_before_headers_fails_without_bytes() {
    let mut w = Writer::new();
    w.write_status_line(StatusCode::StatusNotFound).unwrap();
    let before = w.output().clone();
    assert_eq!(
        w.write_body(b"x"),
        Err(OrderError { expected: WriterState::HeadersWritten, found: WriterState::StatusWritten })
    );
    assert_eq!(w.write_chunked_body(b"x").unwrap_err().found, WriterState::StatusWritten);
    assert_eq!(w.write_chunked_body_done().unwrap_err().found, WriterState::StatusWritten);
    assert_eq!(*w.output(), before);
    assert_eq!(before, b"HTTP/1.1 404 File Not Found\r\n".to_vec());
}

#[test]
fn status_line_only_once() {
    let mut w = Writer::new();
    w.write_status_line(StatusCode::StatusOk).unwrap();
    assert_eq!(
        w.write_status_line(StatusCode::StatusOk),
        Err(OrderError { expected: WriterState::New, found: WriterState::StatusWritten })
    );
}

#[test]
fn trailers_only_after_body() {
    let mut w = Writer::new();
    let h = Headers::new();
    assert_eq!(w.write_trailers(&h).unwrap_err().expected, WriterState::BodyWritten);
    assert!(w.output().is_empty());
}

#[test]
fn status_lines() {
    assert_eq!(StatusCode::StatusOk.as_str(), "HTTP/1.1 200 OK");
    assert_eq!(StatusCode::StatusBadRequest.as_str(), "HTTP/1.1 400 Bad Request");
    assert_eq!(StatusCode::StatusInternalServerError.as_str(), "HTTP/1.1 500 Internal Server Error");
    assert_eq!(StatusCode::StatusNotFound.as_str(), "HTTP/1.1 404 File Not Found");
}

#[test]
fn chunked_response_with_trailers() {
    let mut w = Writer::new();
    w.write_status_line(StatusCode::StatusOk).unwrap();
    let mut h = Headers::new();
    h.insert("Transfer-Encoding".to_string(), "chunked".to_string());
    w.write_headers(&h).unwrap();
    let payload = vec![b'z'; 255];
    assert_eq!(w.write_chunked_body(b"hello").unwrap(), 10);
    assert_eq!(w.write_chunked_body(&payload).unwrap(), 2 + 2 + 255 + 2);
    assert_eq!(w.write_chunked_body_done().unwrap(), 3);
    let mut t = Headers::new();
    t.insert("X-Content-Length".to_string(), "260".to_string());
    assert_eq!(w.write_trailers(&t).unwrap(), "x-content-length: 260\r\n".len());
    assert_eq!(w.finish(), 2);
    let out = w.take_output();
    let head = b"HTTP/1.1 200 OK\r\ntransfer-encoding: chunked\r\n\r\n";
    assert!(out.starts_with(head));
    let body = &out[head.len()..];
    let mut expected = b"5\r\nhello\r\nFF\r\n".to_vec();
    expected.extend_from_slice(&payload);
    expected.extend_from_slice(b"\r\n0\r\nx-content-length: 260\r\n\r\n");
    assert_eq!(body, expected.as_slice());
    assert!(w.output().is_empty());
}

#[test]
fn chunk_frames_round_trip() {
    let pieces: Vec<Vec<u8>> = vec![b"a".to_vec(), vec![7u8; 16], vec![0u8; 4096], b"\r\n0\r\n".to_vec()];
    let mut w = Writer::new();
    w.write_status_line(StatusCode::StatusOk).unwrap();
    w.write_headers(&Headers::new()).unwrap();
    w.take_output();
    for p in &pieces {
        w.write_chunked_body(p).unwrap();
    }
    w.write_chunked_body_done().unwrap();
    let frames = w.take_output();
    let joined: Vec<u8> = pieces.concat();
    assert_eq!(decode_chunked(&frames), Some(joined));
}

#[test]
fn finish_is_allowed_in_any_state() {
    let mut w = Writer::new();
    assert_eq!(w.finish(), 2);
    assert_eq!(w.output().as_slice(), b"\r\n");
}

#[test]
fn default_headers() {
    let h = Response::get_default_headers(1234);
    assert_eq!(h.len(), 3);
    assert_eq!("1234", h.get("Content-Length").unwrap());
    assert_eq!("close", h.get("connection").unwrap());
    assert_eq!("text/plain", h.get("content-type").unwrap());
    let mut out = Vec::new();
    h.write_block(&mut out);
    assert_eq!(out, b"content-length: 1234\r\nconnection: close\r\ncontent-type: text/plain".to_vec());
    assert_eq!("0", Response::get_default_headers(0).get("content-length").unwrap());
}

#[test]
fn response_new_and_set_body() {
    let mut r = Response::new(StatusCode::StatusBadRequest, b"oops".to_vec());
    assert_eq!(r.status_line, StatusCode::StatusBadRequest);
    assert_eq!("4", r.headers.get("content-length").unwrap());
    r.set_body(b"a longer body".to_vec());
    assert_eq!(r.body, b"a longer body".to_vec());
    assert_eq!("13", r.headers.get("content-length").unwrap());
    assert_eq!(r.headers.len(), 3);
    let d = Response::default();
    assert_eq!(d.status_line, StatusCode::StatusOk);
    assert!(d.body.is_empty());
    assert_eq!("0", d.headers.get("content-length").unwrap());
}

#[test]
fn response_as_bytes() {
    let r = Response::new(StatusCode::StatusOk, b"hi".to_vec());
    assert_eq!(
        r.to_bytes(),
        b"HTTP/1.1 200 OK\r\ncontent-length: 2\r\nconnection: close\r\ncontent-type: text/plain\r\n\r\nhi\r\n".to_vec()
    );
}
