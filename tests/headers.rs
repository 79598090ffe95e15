use rust_http_from_tcp::headers::Headers;
use rust_http_from_tcp::request::ParseError;

#[test]
fn test_valid_single_header() {
    let mut headers = Headers::new();
    let data = "Host: localhost:42069\r\n\r\n".as_bytes();

    let (n, done) = headers.parse(data).unwrap();
    assert!(!headers.is_empty());
    assert_eq!("localhost:42069", headers.get("host").unwrap());
    assert_eq!(23, n);
    assert!(!done);
}

#[test]
fn test_headers_invalid_spacing() {
    let mut headers = Headers::new();
    let data = "       Host : localhost:42069       \r\n\r\n".as_bytes();

    let result = headers.parse(data);

    assert!(result.is_err());

    if let Err(ParseError::InvalidFormat(msg)) = result {
        assert!(msg.contains("found space"));
    } else {
        panic!("Expected compilation error");
    }
}

#[test]
fn test_valid_single_header_with_extra_whitespace() {
    let mut headers = Headers::new();
    let data = b"          Host: localhost:42069    \r\n\r\n";

    let (n, _done) = headers.parse(data).unwrap();
    assert_eq!("localhost:42069", headers.get("host").unwrap());
    assert_eq!(37, n);
}

#[test]
fn test_valid_done() {
    let mut headers = Headers::new();
    let data = b"\r\n";

    let (n, done) = headers.parse(data).unwrap();

    assert_eq!(2, n);
    assert!(done);
}

#[test]
fn test_valid_2_headers_with_existing_headers() {
    let mut headers = Headers::new();
    headers.insert("existing".to_string(), "value".to_string());

    let data = b"Host: localhost:42069\r\n";
    let (_n, done) = headers.parse(data).unwrap();
    assert_eq!(2, headers.len());
    assert!(!done);
}

#[test]
fn test_invalid_chars_in_header() {
    let mut headers = Headers::new();
    let data = b"H@st: localhost:42069\r\n";

    let result = headers.parse(data);
    assert!(result.is_err());

    if let Err(ParseError::InvalidFormat(msg)) = result {
        assert!(msg.contains("invalid chars"));
    } else {
        panic!("Expected InvalidFormat error");
    }
}

#[test]
fn test_valid_special_characters() {
    let mut headers = Headers::new();
    let data = b"x-custom-header!#$%&'*+-.^_`|~123: value\r\n\r\n";

    let (_n, done) = headers.parse(data).unwrap();
    assert_eq!("value", headers.get("x-custom-header!#$%&'*+-.^_`|~123").unwrap());
    assert!(!done);
}

#[test]
fn test_multiple_values_for_same_header() {
    let mut headers = Headers::new();
    headers.insert("set-person".to_string(), "lane-loves-go".to_string());

    let data = b"Set-Person: prime-loves-zig\r\n";
    let (_n, done) = headers.parse(data).unwrap();

    assert_eq!("lane-loves-go, prime-loves-zig", headers.get("set-person").unwrap());
    assert!(!done);
}

#[test]
fn test_multiple_header_parsing_calls() {
    let mut headers = Headers::new();

    let data1 = b"Set-Person: lane-loves-go\r\n";
    let (_n1, done1) = headers.parse(data1).unwrap();
    assert_eq!("lane-loves-go", headers.get("set-person").unwrap());
    assert!(!done1);

    let data2 = b"Set-Person: prime-loves-zig\r\n";
    let (_n2, done2) = headers.parse(data2).unwrap();
    assert_eq!("lane-loves-go, prime-loves-zig", headers.get("set-person").unwrap());
    assert!(!done2);

    let data3 = b"Set-Person: tj-loves-ocaml\r\n";
    let (_n3, done3) = headers.parse(data3).unwrap();
    assert_eq!("lane-loves-go, prime-loves-zig, tj-loves-ocaml", headers.get("set-person").unwrap());
    assert!(!done3);
}

#[test]
fn incomplete_line_consumes_nothing() {
    let mut headers = Headers::new();
    let (n, done) = headers.parse(b"Host: local").unwrap();
    assert_eq!(0, n);
    assert!(!done);
    assert!(headers.is_empty());
    let (n, done) = headers.parse(b"").unwrap();
    assert_eq!((0, false), (n, done));
}

#[test]
fn missing_colon_is_refused() {
    let mut headers = Headers::new();
    let result = headers.parse(b"Host localhost\r\n");
    assert_eq!(result, Err(ParseError::InvalidFormat("no colon found".to_string())));
    assert!(headers.is_empty());
}

#[test]
fn empty_name_is_refused() {
    let mut headers = Headers::new();
    let result = headers.parse(b": value\r\n");
    assert_eq!(
        result,
        Err(ParseError::InvalidFormat("found invalid chars within field name".to_string()))
    );
}

#[test]
fn tab_before_colon_is_refused() {
    let mut headers = Headers::new();
    let result = headers.parse(b"Host\t: x\r\n");
    assert_eq!(
        result,
        Err(ParseError::InvalidFormat("found space between field name and colon".to_string()))
    );
}

#[test]
fn three_repeats_keep_arrival_order() {
    let mut headers = Headers::new();
    let data = b"Name: a\r\nname: b\r\nNAME: c\r\n\r\n";
    let mut at = 0;
    loop {
        let (n, done) = headers.parse(&data[at..]).unwrap();
        at += n;
        if done {
            break;
        }
    }
    assert_eq!(at, data.len());
    assert_eq!("a, b, c", headers.get("name").unwrap());
    assert_eq!(1, headers.len());
}

#[test]
fn names_ignore_case() {
    let mut headers = Headers::new();
    headers.parse(b"CoNtEnT-TyPe: text/html\r\n").unwrap();
    assert_eq!("text/html", headers.get("content-type").unwrap());
    assert_eq!("text/html", headers.get("CONTENT-TYPE").unwrap());
    assert_eq!("text/html", headers.get("Content-Type").unwrap());
    assert!(headers.get("content").is_none());
}

#[test]
fn insert_lowercases_and_overwrites() {
    let mut headers = Headers::new();
    headers.insert("X-Thing".to_string(), "one".to_string());
    headers.insert("x-thing".to_string(), "two".to_string());
    assert_eq!(1, headers.len());
    assert_eq!("two", headers.get("X-THING").unwrap());
}

#[test]
fn value_keeps_inner_spaces_and_colons() {
    let mut headers = Headers::new();
    let (n, _) = headers.parse(b"Date:  Tue, 15 Nov 1994 08:12:31 GMT \r\n").unwrap();
    assert_eq!(39, n);
    assert_eq!("Tue, 15 Nov 1994 08:12:31 GMT", headers.get("date").unwrap());
}

#[test]
fn invalid_utf8_value_is_replaced() {
    let mut headers = Headers::new();
    headers.parse(b"X-Bytes: a\xffb\r\n").unwrap();
    assert_eq!("a\u{fffd}b", headers.get("x-bytes").unwrap());
}

#[test]
fn block_joins_fields_by_crlf() {
    let mut headers = Headers::new();
    headers.insert("A".to_string(), "1".to_string());
    headers.insert("b".to_string(), "2".to_string());
    let mut out = Vec::new();
    headers.write_block(&mut out);
    assert_eq!(out, b"a: 1\r\nb: 2".to_vec());
    let mut empty = Vec::new();
    Headers::new().write_block(&mut empty);
    assert!(empty.is_empty());
}

#[test]
fn remove_takes_out_one_field() {
    let mut headers = Headers::new();
    headers.insert("Content-Length".to_string(), "0".to_string());
    headers.insert("Connection".to_string(), "close".to_string());
    assert_eq!(headers.remove("CONTENT-LENGTH"), Some("0".to_string()));
    assert_eq!(headers.remove("content-length"), None);
    assert_eq!(headers.len(), 1);
    assert!(headers.get("content-length").is_none());
    assert_eq!("close", headers.get("connection").unwrap());
}

#[test]
fn utf8_value_reads_back_unchanged() {
    let mut headers = Headers::new();
    headers.parse("X-Greeting: héllo wörld\r\n".as_bytes()).unwrap();
    headers.parse("x-greeting: ½\r\n".as_bytes()).unwrap();
    assert_eq!("héllo wörld, ½", headers.get("X-GREETING").unwrap());
}

#[test]
fn unicode_whitespace_is_trimmed_around_name_and_value() {
    let mut headers = Headers::new();
    let (n, done) = headers.parse("\u{a0}H:x\u{3000}\r\n".as_bytes()).unwrap();
    assert_eq!(n, "\u{a0}H:x\u{3000}\r\n".len());
    assert!(!done);
    assert_eq!("x", headers.get("h").unwrap());
}

#[test]
fn unicode_whitespace_before_colon_is_refused() {
    let mut headers = Headers::new();
    let result = headers.parse("Host\u{a0}: x\r\n".as_bytes());
    assert_eq!(
        result,
        Err(ParseError::InvalidFormat("found space between field name and colon".to_string()))
    );
}

#[test]
fn lookup_folds_case_by_unicode_rules() {
    let mut headers = Headers::new();
    headers.insert("k".to_string(), "kelvin".to_string());
    assert_eq!("kelvin", headers.get("\u{212a}").unwrap());
    assert_eq!("kelvin", headers.get("K").unwrap());
}
