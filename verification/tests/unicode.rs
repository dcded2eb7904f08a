use risc::utf8::{char_string, codepoints, decode, encode, from_codepoints, is_valid};

fn decoded(bytes: Vec<u8>) -> String {
    match decode(bytes) {
        Ok(s) => s,
        Err(e) => panic!("decoding failed: {}", e.message),
    }
}

fn refused(r: Result<String, risc::error::NativeError>) -> (String, String) {
    match r {
        Ok(s) => panic!("accepted as {s:?}"),
        Err(e) => (e.kind.to_string(), e.message),
    }
}

#[test]
fn utf8_encodes_to_bytes() {
    assert_eq!(encode("hé"), vec![104, 195, 169]);
    assert_eq!(encode(""), Vec::<u8>::new());
    assert_eq!(encode("😀"), vec![0xf0, 0x9f, 0x98, 0x80]);
}

#[test]
fn utf8_decodes_valid_bytes() {
    assert_eq!(decoded(vec![104, 195, 169]), "hé");
    assert_eq!(decoded(Vec::new()), "");
}

#[test]
fn utf8_refuses_invalid_bytes() {
    let (kind, message) = refused(decode(vec![0xff]));
    assert_eq!(kind, "utf8 error");
    assert_eq!(message, "utf8.decode: invalid utf-8 sequence of 1 bytes from index 0");
    let (_, message) = refused(decode(vec![0x61, 0xe2, 0x82]));
    assert_eq!(message, "utf8.decode: incomplete utf-8 byte sequence from index 1");
}

#[test]
fn utf8_validity() {
    assert!(is_valid(b"abc"));
    assert!(is_valid(&[]));
    assert!(!is_valid(&[0xed, 0xa0, 0x80]));
    assert!(!is_valid(&[0xc0, 0xaf]));
}

#[test]
fn utf8_codepoints_and_back() {
    assert_eq!(codepoints("aé😀"), vec![97, 233, 128512]);
    assert_eq!(from_codepoints(&[104, 105]).ok(), Some("hi".to_string()));
    let (kind, message) = refused(from_codepoints(&[104, 0xD800, 0x110000]));
    assert_eq!(kind, "utf8 error");
    assert_eq!(message, "utf8.from_codepoints: 55296 is not a valid Unicode scalar value");
}

#[test]
fn utf8_single_characters() {
    assert_eq!(char_string(0x1F600).ok(), Some("😀".to_string()));
    let (_, message) = refused(char_string(0x110000));
    assert_eq!(message, "utf8.char: 1114112 is not a valid Unicode scalar value");
}

#[test]
fn utf8_round_trips() {
    let s = "héllo wörld 😀";
    assert_eq!(decoded(encode(s)), s);
    assert_eq!(from_codepoints(&codepoints(s)).ok(), Some(s.to_string()));
}
