use exchange_host::codec::{decode_headers, encode_headers};

fn pair(k: &str, v: &str) -> (Vec<u8>, Vec<u8>) {
    (k.as_bytes().to_vec(), v.as_bytes().to_vec())
}

#[test]
fn encode_writes_count_then_value_before_key() {
    let pairs = vec![pair("ab", "x")];
    let bytes = encode_headers(&pairs).unwrap();
    assert_eq!(
        bytes,
        vec![2, 0, 0, 0, 1, 0, 0, 0, b'x', 2, 0, 0, 0, b'a', b'b']
    );
}

#[test]
fn encode_empty_list_is_a_zero_count() {
    let pairs: Vec<(Vec<u8>, Vec<u8>)> = Vec::new();
    assert_eq!(encode_headers(&pairs).unwrap(), vec![0, 0, 0, 0]);
}

#[test]
fn decode_reads_value_then_key() {
    let bytes = vec![2, 0, 0, 0, 1, 0, 0, 0, b'v', 1, 0, 0, 0, b'k'];
    assert_eq!(decode_headers(&bytes).unwrap(), vec![pair("k", "v")]);
}

#[test]
fn round_trip_keeps_order_and_duplicates() {
    let pairs = vec![
        pair("content-type", "application/json"),
        pair("x-a", ""),
        pair("x-a", "second"),
        pair("", "empty key"),
    ];
    let bytes = encode_headers(&pairs).unwrap();
    assert_eq!(decode_headers(&bytes).unwrap(), pairs);
}

#[test]
fn round_trip_large_lengths() {
    let long = "z".repeat(300);
    let pairs = vec![pair(&long, "v")];
    let bytes = encode_headers(&pairs).unwrap();
    assert_eq!(&bytes[4..8], &[1, 0, 0, 0]);
    assert_eq!(&bytes[9..13], &[44, 1, 0, 0]);
    assert_eq!(decode_headers(&bytes).unwrap(), pairs);
}

#[test]
fn decode_rejects_truncated_input() {
    assert!(decode_headers(&[2, 0, 0]).is_none());
    assert!(decode_headers(&[2, 0, 0, 0, 5, 0, 0, 0, b'a']).is_none());
    assert!(decode_headers(&[2, 0, 0, 0, 1, 0, 0, 0, b'v']).is_none());
}

#[test]
fn decode_ignores_trailing_bytes() {
    let bytes = vec![0, 0, 0, 0, 9, 9];
    assert_eq!(decode_headers(&bytes).unwrap(), Vec::<(Vec<u8>, Vec<u8>)>::new());
}

#[test]
fn decode_odd_count_files_first_string_with_empty_value() {
    let bytes = vec![1, 0, 0, 0, 1, 0, 0, 0, b'k'];
    assert_eq!(decode_headers(&bytes).unwrap(), vec![pair("k", "")]);
}

use exchange_host::base64::{base64_decode, base64_encode};

#[test]
fn base64_known_values() {
    assert_eq!(base64_encode(b""), b"".to_vec());
    assert_eq!(base64_encode(b"f"), b"Zg==".to_vec());
    assert_eq!(base64_encode(b"fo"), b"Zm8=".to_vec());
    assert_eq!(base64_encode(b"foo"), b"Zm9v".to_vec());
    assert_eq!(base64_encode(b"foobar"), b"Zm9vYmFy".to_vec());
    assert_eq!(base64_encode(&[0xfb, 0xff]), b"+/8=".to_vec());
}

#[test]
fn base64_decode_round_trip_and_rejects() {
    for input in [&b""[..], b"a", b"ab", b"abc", b"abcd", &[0u8, 255, 128, 7, 64][..]] {
        assert_eq!(base64_decode(&base64_encode(input)).unwrap(), input.to_vec());
    }
    assert!(base64_decode(b"Zg=").is_none());
    assert!(base64_decode(b"Zh==").is_none());
    assert!(base64_decode(b"Zg==Zg==").is_none());
    assert!(base64_decode(b"Z!==").is_none());
    assert!(base64_decode(b"=Zg=").is_none());
}
