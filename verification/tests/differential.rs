use file_garden::percent::{percent_decode, percent_encode};
use percent_encoding::{percent_decode_str, utf8_percent_encode, NON_ALPHANUMERIC};

#[test]
fn encoding_matches_component_set_ignoring_slash() {
    let set: &'static percent_encoding::AsciiSet = Box::leak(Box::new(
        NON_ALPHANUMERIC
            .remove(b'-')
            .remove(b'_')
            .remove(b'.')
            .remove(b'!')
            .remove(b'~')
            .remove(b'*')
            .remove(b'\'')
            .remove(b'(')
            .remove(b')')
            .remove(b'/'),
    ));
    for input in [
        "/Alice/My File.txt",
        "/bob/notes",
        "/",
        "/caf\u{e9}/r\u{e9}sum\u{e9}.pdf",
        "/a+b=c&d?e#f",
        "/-_.!~*'()",
        "/\u{1f600}/%",
        "/spaces and\ttabs",
    ] {
        let ours = percent_encode(input.as_bytes());
        let theirs = utf8_percent_encode(input, set).to_string();
        assert_eq!(ours, theirs.as_bytes(), "encodings differ on {input:?}");
    }
}

#[test]
fn decoding_matches_on_well_formed_escapes() {
    for input in ["/a%20b", "/caf%C3%A9", "/%2F%2f", "/plain", "/%41%61"] {
        let ours = percent_decode(input.as_bytes()).expect("well-formed escapes must decode");
        let theirs: Vec<u8> = percent_decode_str(input).collect();
        assert_eq!(ours, theirs, "decodings differ on {input:?}");
    }
}

#[test]
fn decoding_rejects_what_is_not_an_escape() {
    assert_eq!(percent_decode(b"/%zz"), None);
    assert_eq!(percent_decode(b"/%1"), None);
    assert_eq!(percent_decode(b"%"), None);
}
