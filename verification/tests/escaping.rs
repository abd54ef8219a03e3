use codebase_doc::escape::escape_xml;

#[test]
fn escape_replaces_the_three_special_bytes() {
    let r = escape_xml(b"a&b<c>d");
    assert_eq!(r, b"a&amp;b&lt;c&gt;d".to_vec());
}

#[test]
fn escape_is_identity_without_special_bytes() {
    let r = escape_xml("hello, w\u{00f6}rld! \t\r\n\u{0000}".as_bytes());
    assert_eq!(r, "hello, w\u{00f6}rld! \t\r\n\u{0000}".as_bytes().to_vec());
}

#[test]
fn escape_of_empty_is_empty() {
    let r = escape_xml(b"");
    assert!(r.is_empty());
}

#[test]
fn escape_is_not_idempotent() {
    let once = escape_xml(b"&");
    let twice = escape_xml(&once);
    assert_eq!(once, b"&amp;".to_vec());
    assert_eq!(twice, b"&amp;amp;".to_vec());
}
