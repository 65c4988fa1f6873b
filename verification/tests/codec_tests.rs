use file_url::decode_path_component;
use file_url::encode_path_component;
use file_url::FilePath;

#[test]
fn encode_test() {
    let p = FilePath::from_posix_str("/😀#{}^some & what.whtvr");
    assert_eq!(p.segment_count(), 1);
    let first = p.segment(0);

    let enc = encode_path_component(first);
    assert_eq!(enc, "%F0%9F%98%80%23%7B%7D%5Esome%20%26%20what.whtvr");
}

#[test]
fn decode_test() {
    let b = "😀#{}^some & what.whtvr".as_bytes().to_vec();
    let dec = decode_path_component("%F0%9F%98%80%23%7B%7D%5Esome%20%26%20what.whtvr");
    assert_eq!(b, dec);
}

#[test]
fn decode_inverts_encode_on_raw_bytes() {
    let b: Vec<u8> = vec![0x00, 0xff, 0x2f, 0x25, 0x20, 0x7f, 0x41, 0x5c];
    let enc = encode_path_component(&b);
    let dec = decode_path_component(enc.as_str());
    assert_eq!(dec, b);
}

#[test]
fn reserved_bytes_always_escape() {
    assert_eq!(encode_path_component(&vec![b'#']), "%23");
    assert_eq!(encode_path_component(&vec![b'/']), "%2F");
    assert_eq!(encode_path_component(&vec![b' ']), "%20");
    assert_eq!(encode_path_component(&vec![0x00]), "%00");
}

#[test]
fn colon_is_never_escaped() {
    assert_eq!(encode_path_component(&vec![b'c', b':']), "c:");
}

#[test]
fn unreserved_ascii_encodes_to_itself() {
    let b = b"some-file_name.txt~".to_vec();
    assert_eq!(encode_path_component(&b), "some-file_name.txt~");
}

#[test]
fn percent_itself_is_re_escaped() {
    let b = b"%41".to_vec();
    assert_eq!(encode_path_component(&b), "%2541");
}

#[test]
fn emoji_encodes_to_four_escapes() {
    let b = "😀".as_bytes().to_vec();
    let enc = encode_path_component(&b);
    assert_eq!(enc, "%F0%9F%98%80");
    assert_eq!(decode_path_component(enc.as_str()), b);
}

#[test]
fn malformed_escapes_pass_through() {
    assert_eq!(decode_path_component("100%"), b"100%".to_vec());
    assert_eq!(decode_path_component("%4"), b"%4".to_vec());
    assert_eq!(decode_path_component("%zz"), b"%zz".to_vec());
    assert_eq!(decode_path_component("a%%41"), b"a%A".to_vec());
}

#[test]
fn lowercase_hex_decodes_too() {
    assert_eq!(decode_path_component("%4a"), b"J".to_vec());
    assert_eq!(decode_path_component("%4A"), b"J".to_vec());
}
