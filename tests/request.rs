use rust_http_from_tcp::request::{ParseError, ParserState, Request, RequestLine};
use std::io::Read;

#[test]
fn test_request_line_parse() {
    let line = "GET / HTTP/1.1";
    let rl = RequestLine::try_from(line).unwrap();
    println!("{:?}", rl);
    let expected = RequestLine {
        http_version: "1.1".to_string(),
        request_target: "/".to_string(),
        method: "GET".to_string(),
    };
    assert_eq!(expected, rl);
}

#[test]
fn test_standard_headers() {
    let mut request = Request::new();
    let data = b"GET / HTTP/1.1\r\nHost: localhost:42069\r\nUser-Agent: curl/7.81.0\r\nAccept: */*\r\n\r\n";

    let _consumed = request.parse(data).unwrap();
    assert_eq!(request.parser_state, ParserState::Done);

    let rl = request.request_line;
    assert_eq!(rl.method, "GET");

    assert_eq!("localhost:42069", request.headers.get("host").unwrap());
    assert_eq!("curl/7.81.0", request.headers.get("user-agent").unwrap());
    assert_eq!("*/*", request.headers.get("accept").unwrap());
}

#[test]
fn test_empty_headers() {
    let mut request = Request::new();
    let data = b"GET / HTTP/1.1\r\n\r\n";

    let _consumed = request.parse(data).unwrap();
    assert_eq!(request.parser_state, ParserState::Done);
    assert!(request.headers.is_empty());
}

#[test]
fn test_malformed_header() {
    let mut request = Request::new();
    let data = b"GET / HTTP/1.1\r\nHost localhost:42069\r\n\r\n";

    let result = request.parse(data);
    assert!(result.is_err());
}

#[test]
fn test_standard_body() {
    let mut request = Request::new();
    let data = b"POST /submit HTTP/1.1\r\nHost: localhost:42069\r\nContent-Length: 13\r\n\r\nhello world!\n";

    let _consumed = request.parse(data).unwrap();
    assert_eq!(request.parser_state, ParserState::Done);
    assert_eq!("hello world!\n", String::from_utf8_lossy(&request.body));
}

#[test]
fn test_empty_body_zero_content_length() {
    let mut request = Request::new();
    let data = b"GET / HTTP/1.1\r\nHost: localhost\r\nContent-Length: 0\r\n\r\n";

    let _consumed = request.parse(data).unwrap();
    assert_eq!(request.parser_state, ParserState::Done);
    assert!(request.body.is_empty());
}

#[test]
fn test_empty_body_no_content_length() {
    let mut request = Request::new();
    let data = b"GET / HTTP/1.1\r\nHost: localhost\r\n\r\n";

    let _consumed = request.parse(data).unwrap();
    assert_eq!(request.parser_state, ParserState::Done);
    assert!(request.body.is_empty());
}

#[test]
fn test_body_shorter_than_content_length() {
    let mut request = Request::new();
    let data = b"POST /submit HTTP/1.1\r\nHost: localhost\r\nContent-Length: 20\r\n\r\npartial content";

    let _consumed = request.parse(data).unwrap();
    assert_eq!(request.parser_state, ParserState::ParsingBody);
    assert_eq!("partial content", String::from_utf8_lossy(&request.body));
}

#[test]
fn test_no_content_length_but_body_exists() {
    let mut request = Request::new();
    let data = b"POST /submit HTTP/1.1\r\nHost: localhost\r\n\r\nsome body data";

    let _consumed = request.parse(data).unwrap();
    assert_eq!(request.parser_state, ParserState::Done);
    assert!(request.body.is_empty());
}

#[test]
fn test_duplicate_headers() {
    let mut request = Request::new();
    let data = b"GET / HTTP/1.1\r\nSet-Person: lane\r\nSet-Person: prime\r\n\r\n";

    let _consumed = request.parse(data).unwrap();
    assert_eq!("lane, prime", request.headers.get("set-person").unwrap());
}

#[test]
fn test_stateful_request_parsing() {
    let mut request = Request::new();

    let consumed = request.parse(b"GE").unwrap();
    assert_eq!(consumed, 0);
    assert_eq!(request.parser_state, ParserState::Initialized);

    let consumed = request.parse(b"GET / HTTP/1.1\r\nHost: localhost").unwrap();
    assert_eq!(consumed, 16);
    assert_eq!(request.parser_state, ParserState::ParsingHeaders);
    assert_eq!(request.request_line.method, "GET");
    assert_eq!(request.request_line.request_target, "/");
    assert_eq!(request.request_line.http_version, "1.1");
}

pub struct ChunkReader {
    data: Vec<u8>,
    num_bytes_per_read: usize,
    pos: usize,
}

impl ChunkReader {
    fn new(data: &str, bytes_per_read: usize) -> Self {
        ChunkReader {
            data: data.as_bytes().to_vec(),
            num_bytes_per_read: bytes_per_read,
            pos: 0,
        }
    }
}

impl std::io::Read for ChunkReader {
    fn read(&mut self, buf: &mut [u8]) -> std::io::Result<usize> {
        if self.pos >= self.data.len() {
            return Ok(0);
        }

        let end_index = (self.pos + self.num_bytes_per_read).min(self.data.len());

        let bytes_to_copy = (end_index - self.pos).min(buf.len());

        buf[..bytes_to_copy].copy_from_slice(&self.data[self.pos..self.pos + bytes_to_copy]);

        self.pos += bytes_to_copy;
        Ok(bytes_to_copy)
    }
}

#[test]
fn test_chunk_reader_basics() {
    let http_data = "GET /coffee HTTP/1.1\r\nHost: localhost:42069\r\nUser-Agent: curl/7.81.0\r\nAccept: */*\r\n\r\n";
    let mut reader = ChunkReader::new(http_data, 3);
    let mut buf = [0u8; 10];

    let n = reader.read(&mut buf).unwrap();
    assert_eq!(n, 3);
    assert_eq!(&buf[..n], b"GET");

    let n = reader.read(&mut buf).unwrap();
    assert_eq!(n, 3);
    assert_eq!(&buf[..n], b" /c");
}

#[test]
fn get_request_scenario() {
    let mut request = Request::new();
    let data = b"GET / HTTP/1.1\r\nHost: h\r\n\r\n";
    let consumed = request.parse(data).unwrap();
    assert_eq!(consumed, data.len());
    assert_eq!(request.parser_state, ParserState::Done);
    assert_eq!(request.request_line.method, "GET");
    assert_eq!(request.get_target(), "/");
    assert_eq!(request.request_line.http_version, "1.1");
    assert_eq!(request.headers.len(), 1);
    assert_eq!("h", request.headers.get("host").unwrap());
    assert!(request.body.is_empty());
}

#[test]
fn post_request_scenario() {
    let mut request = Request::new();
    let data = b"POST /x HTTP/1.1\r\nContent-Length: 5\r\n\r\nhello";
    let consumed = request.parse(data).unwrap();
    assert_eq!(consumed, data.len());
    assert_eq!(request.parser_state, ParserState::Done);
    assert_eq!(request.get_target(), "/x");
    assert_eq!(request.body, b"hello".to_vec());
}

#[test]
fn body_beyond_length_is_left_unconsumed() {
    let mut request = Request::new();
    let data = b"POST /x HTTP/1.1\r\nContent-Length: 3\r\n\r\nabcdef";
    let consumed = request.parse(data).unwrap();
    assert_eq!(consumed, data.len() - 3);
    assert_eq!(request.parser_state, ParserState::Done);
    assert_eq!(request.body, b"abc".to_vec());
    assert_eq!(request.parse(b"def"), Ok(0));
}

#[test]
fn body_arrives_in_pieces() {
    let mut request = Request::new();
    request.parse(b"PUT /p HTTP/1.1\r\nContent-Length: 6\r\n\r\n").unwrap();
    assert_eq!(request.parser_state, ParserState::ParsingBody);
    assert_eq!(request.parse(b"ab").unwrap(), 2);
    assert_eq!(request.parser_state, ParserState::ParsingBody);
    assert_eq!(request.parse(b"cdefgh").unwrap(), 4);
    assert_eq!(request.parser_state, ParserState::Done);
    assert_eq!(request.body, b"abcdef".to_vec());
}

#[test]
fn invalid_content_length_is_refused() {
    let mut request = Request::new();
    let result = request.parse(b"POST / HTTP/1.1\r\nContent-Length: five\r\n\r\n");
    assert_eq!(result, Err(ParseError::InvalidFormat("invalid content-length".to_string())));
    let mut request = Request::new();
    let result = request.parse(b"POST / HTTP/1.1\r\nContent-Length: -1\r\n\r\n");
    assert_eq!(result, Err(ParseError::InvalidFormat("invalid content-length".to_string())));
    let mut request = Request::new();
    let result = request.parse(b"POST / HTTP/1.1\r\nContent-Length: 99999999999999999999999\r\n\r\n");
    assert_eq!(result, Err(ParseError::InvalidFormat("invalid content-length".to_string())));
}

#[test]
fn plus_sign_length_is_read() {
    let mut request = Request::new();
    request.parse(b"POST / HTTP/1.1\r\nContent-Length: +2\r\n\r\nok").unwrap();
    assert_eq!(request.parser_state, ParserState::Done);
    assert_eq!(request.body, b"ok".to_vec());
}

#[test]
fn request_line_errors() {
    let malformed = Err(ParseError::InvalidFormat("malformed request line".to_string()));
    assert_eq!(RequestLine::try_from("/coffee HTTP/1.1"), malformed);
    assert_eq!(RequestLine::try_from("GET / HTTP/1.1 extra"), malformed);
    assert_eq!(RequestLine::try_from("GET / HTTP1.1"), malformed);
    assert_eq!(RequestLine::try_from("GET / HTTP/1.1/2"), malformed);
    assert_eq!(
        RequestLine::try_from("G3T / HTTP/1.1"),
        Err(ParseError::InvalidFormat("method contains non-alphabetic characters".to_string()))
    );
    assert_eq!(
        RequestLine::try_from("GET / HTTPS/1.1"),
        Err(ParseError::InvalidFormat("unrecognized protocol".to_string()))
    );
    assert_eq!(
        RequestLine::try_from("GET / HTTP/2.0"),
        Err(ParseError::InvalidFormat("unrecognized http version".to_string()))
    );
}

#[test]
fn request_line_tolerates_extra_spaces() {
    let rl = RequestLine::try_from("  DELETE \t /items/7   HTTP/1.1 ").unwrap();
    assert_eq!(rl, RequestLine::build("1.1", "/items/7", "DELETE"));
}

#[test]
fn request_line_parse_reports_consumed() {
    let (line, n) = RequestLine::parse(b"GET /a HTTP/1.1\r\nrest").unwrap();
    assert_eq!(n, 17);
    assert_eq!(line.unwrap(), RequestLine::build("1.1", "/a", "GET"));
    let (none, n) = RequestLine::parse(b"GET /a HTTP/1.1\r").unwrap();
    assert!(none.is_none());
    assert_eq!(n, 0);
}

#[test]
fn malformed_request_line_leaves_parser_at_start() {
    let mut request = Request::new();
    let result = request.parse(b"/coffee HTTP/1.1\r\nHost: x\r\n\r\n");
    assert_eq!(result, Err(ParseError::InvalidFormat("malformed request line".to_string())));
    assert_eq!(request.parser_state, ParserState::Initialized);
}

#[test]
fn parse_error_messages() {
    assert_eq!(
        ParseError::InvalidFormat("no colon found".to_string()).message(),
        "Invalid request line format: no colon found"
    );
    assert_eq!(ParseError::IOError.message(), "Read/write error on the io end");
}

#[test]
fn feeding_after_done_fails() {
    let mut request = Request::new();
    request.parse(b"POST /x HTTP/1.1\r\nContent-Length: 3\r\n\r\nabc").unwrap();
    assert_eq!(request.parser_state, ParserState::Done);
    assert_eq!(
        request.parse_single(b"def"),
        Err(ParseError::InvalidFormat("attempting to parse in a done state".to_string()))
    );
    assert_eq!(request.body, b"abc".to_vec());
}

#[test]
fn single_steps_walk_the_states() {
    let mut request = Request::new();
    let data = b"GET / HTTP/1.1\r\nA: 1\r\n\r\n";
    assert_eq!(request.parse_single(data).unwrap(), 16);
    assert_eq!(request.parser_state, ParserState::ParsingHeaders);
    assert_eq!(request.parse_single(&data[16..]).unwrap(), 6);
    assert_eq!(request.parser_state, ParserState::ParsingHeaders);
    assert_eq!(request.parse_single(&data[22..]).unwrap(), 2);
    assert_eq!(request.parser_state, ParserState::Done);
}

#[test]
fn request_line_splits_on_unicode_whitespace() {
    let rl = RequestLine::try_from("A\u{3000}/\u{3000}HTTP/1.1").unwrap();
    assert_eq!(rl, RequestLine::build("1.1", "/", "A"));
    assert_eq!(
        RequestLine::try_from("GET /a\u{a0}b HTTP/1.1"),
        Err(ParseError::InvalidFormat("malformed request line".to_string()))
    );
}

#[test]
fn length_value_is_trimmed_of_unicode_whitespace() {
    let mut request = Request::new();
    let data = "POST / HTTP/1.1\r\nContent-Length: 5\u{a0}\r\n\r\nhello".as_bytes();
    assert_eq!(request.parse(data).unwrap(), data.len());
    assert_eq!(request.parser_state, ParserState::Done);
    assert_eq!(request.body, b"hello".to_vec());
}
