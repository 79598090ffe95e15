use rust_http_from_tcp::pump::BufferPump;
use rust_http_from_tcp::request::{ParseError, ParserState, Request};

fn pump_in_pieces(data: &[u8], piece: usize) -> Result<Request, ParseError> {
    let mut pump = BufferPump::new();
    let mut at = 0;
    while !pump.is_done() {
        let room = pump.prepare_read();
        let n = piece.min(room).min(data.len() - at);
        if n == 0 {
            break;
        }
        pump.receive(&data[at..at + n])?;
        at += n;
    }
    Ok(pump.into_request())
}

fn summary(r: &Request) -> (String, String, String, Vec<(String, String)>, Vec<u8>, ParserState) {
    let mut fields = Vec::new();
    for name in ["host", "user-agent", "accept", "content-length", "set-person"] {
        if let Some(v) = r.headers.get(name) {
            fields.push((name.to_string(), v.clone()));
        }
    }
    (
        r.request_line.method.clone(),
        r.request_line.request_target.clone(),
        r.request_line.http_version.clone(),
        fields,
        r.body.clone(),
        r.parser_state,
    )
}

#[test]
fn pump_reads_request_in_small_pieces() {
    let data = b"GET /coffee HTTP/1.1\r\nHost: localhost:42069\r\nUser-Agent: curl/7.81.0\r\nAccept: */*\r\n\r\n";
    let request = pump_in_pieces(data, 3).unwrap();
    assert_eq!(request.request_line.method, "GET");
    assert_eq!(request.request_line.request_target, "/coffee");
    assert_eq!(request.request_line.http_version, "1.1");
    assert_eq!(request.parser_state, ParserState::Done);
}

#[test]
fn pump_reports_malformed_request_line() {
    let data = b"/coffee HTTP/1.1\r\nHost: localhost:42069\r\nUser-Agent: curl/7.81.0\r\nAccept: */*\r\n\r\n";
    let result = pump_in_pieces(data, 8);
    assert_eq!(result.err(), Some(ParseError::InvalidFormat("malformed request line".to_string())));
}

#[test]
fn every_split_gives_the_same_request() {
    let data = b"POST /x HTTP/1.1\r\nHost: h\r\nSet-Person: a\r\nset-person: b\r\nContent-Length: 11\r\n\r\nhello world";
    let whole = summary(&pump_in_pieces(data, data.len()).unwrap());
    assert_eq!(whole.5, ParserState::Done);
    assert_eq!(whole.4, b"hello world".to_vec());
    for piece in 1..=data.len() {
        let got = summary(&pump_in_pieces(data, piece).unwrap());
        assert_eq!(got, whole, "reads of {} bytes", piece);
    }
}

#[test]
fn buffer_grows_when_full() {
    let mut pump = BufferPump::new();
    assert_eq!(pump.prepare_read(), 8);
    pump.receive(b"GET /ver").unwrap();
    assert_eq!(pump.prepare_read(), 8);
    pump.receive(b"y/long/p").unwrap();
    assert_eq!(pump.prepare_read(), 16);
    assert_eq!(pump.receive(b"ath HTTP/1.1\r\n").unwrap(), 30);
    assert_eq!(pump.request().parser_state, ParserState::ParsingHeaders);
    assert_eq!(pump.request().get_target(), "/very/long/path");
}
