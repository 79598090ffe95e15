use rust_http_from_tcp::trailers::{body_trailers, digest_trailers};

#[test]
fn digest_trailers_spell_the_digest_in_hex() {
    let t = digest_trailers(&[0x00, 0xab, 0xff, 0x10], 7);
    assert_eq!("00abff10", t.get("X-Content-SHA256").unwrap());
    assert_eq!("7", t.get("x-content-length").unwrap());
    let mut out = Vec::new();
    t.write_block(&mut out);
    assert_eq!(out, b"x-content-sha256: 00abff10\r\nx-content-length: 7".to_vec());
}

#[test]
fn body_trailers_of_abc() {
    let t = body_trailers(b"abc");
    assert_eq!(
        "ba7816bf8f01cfea414140de5dae2223b00361a396177a9cb410ff61f20015ad",
        t.get("x-content-sha256").unwrap()
    );
    assert_eq!("3", t.get("x-content-length").unwrap());
    assert_eq!(2, t.len());
}

#[test]
fn body_trailers_of_nothing() {
    let t = body_trailers(b"");
    assert_eq!(
        "e3b0c44298fc1c149afbf4c8996fb92427ae41e4649b934ca495991b7852b855",
        t.get("x-content-sha256").unwrap()
    );
    assert_eq!("0", t.get("x-content-length").unwrap());
}
