use codebase_doc::classify::{classify_content, classify_prefix, Classification};

#[test]
fn empty_file_is_text() {
    assert_eq!(classify_prefix(b""), Classification::Text);
    assert_eq!(classify_content(&Vec::new()), Classification::Text);
}

#[test]
fn plain_ascii_is_text() {
    assert_eq!(classify_prefix(b"hello world\n"), Classification::Text);
}

#[test]
fn null_bytes_are_binary() {
    let bytes: Vec<u8> = vec![0x00, 0x01, 0x02, 0x03, 0x04, 0x05, 0x06, 0x07];
    assert_eq!(classify_prefix(&bytes), Classification::Binary);
    assert_eq!(classify_content(&bytes), Classification::Binary);
}

#[test]
fn classification_samples_only_the_prefix() {
    // Binary bytes beyond the first 1024 do not affect the verdict.
    let mut bytes = vec![b'a'; 1024];
    bytes.extend_from_slice(&[0x00, 0x01, 0x02]);
    assert_eq!(classify_content(&bytes), Classification::Text);
    // Binary bytes inside the first 1024 do.
    let mut bytes2 = vec![b'a'; 1000];
    bytes2.extend_from_slice(&[0x00, 0x01, 0x02]);
    bytes2.extend_from_slice(&[b'b'; 500]);
    assert_eq!(classify_content(&bytes2), Classification::Binary);
}
