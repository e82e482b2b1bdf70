use exchange_host::buffers::{BufferStore, INVALID_HANDLE};
use exchange_host::codec::decode_headers;
use exchange_host::error::HostError;

#[test]
fn create_gives_fresh_handles() {
    let mut s = BufferStore::new();
    let a = s.create();
    let b = s.create();
    assert_ne!(a, b);
    assert_ne!(a, INVALID_HANDLE);
    assert_eq!(s.size(a), 0);
}

#[test]
fn two_phase_read_returns_the_payload() {
    let mut s = BufferStore::new();
    let h = s.create();
    s.write(h, b"hello world").unwrap();
    let n = s.read(h, None, 0);
    assert_eq!(n, 11);
    let mut dest = vec![0u8; n as usize];
    assert_eq!(s.read(h, Some(&mut dest), n), 11);
    assert_eq!(dest, b"hello world".to_vec());
}

#[test]
fn short_read_copies_only_what_was_asked() {
    let mut s = BufferStore::new();
    let h = s.create();
    s.write(h, b"abcdef").unwrap();
    let mut dest = vec![9u8; 4];
    assert_eq!(s.read(h, Some(&mut dest), 2), 2);
    assert_eq!(dest, vec![b'a', b'b', 9, 9]);
    let mut small = vec![0u8; 3];
    assert_eq!(s.read(h, Some(&mut small), 100), 3);
    assert_eq!(small, b"abc".to_vec());
}

#[test]
fn unknown_handles_degrade() {
    let mut s = BufferStore::new();
    assert_eq!(s.size(42), 0);
    assert_eq!(s.read(42, None, 0), 0);
    assert_eq!(s.write(42, b"x"), Err(HostError::UnknownBuffer));
    assert_eq!(s.write_header(42, b"a", b"b"), Err(HostError::UnknownBuffer));
    assert_eq!(s.read_headers(42), INVALID_HANDLE);
    assert!(s.read_all(42).is_empty());
}

#[test]
fn free_twice_succeeds_and_spares_others() {
    let mut s = BufferStore::new();
    let a = s.create();
    let b = s.create();
    s.write(b, b"keep").unwrap();
    s.free(a);
    s.free(a);
    assert_eq!(s.write(a, b"x"), Err(HostError::UnknownBuffer));
    assert_eq!(s.read_all(b), b"keep".to_vec());
    let c = s.create();
    assert_ne!(c, a);
    assert_ne!(c, b);
}

#[test]
fn read_headers_makes_a_wire_form_buffer() {
    let mut s = BufferStore::new();
    let h = s.create();
    s.write_header(h, b"a", b"1").unwrap();
    s.write_header(h, b"a", b"2").unwrap();
    let w = s.read_headers(h);
    assert_ne!(w, INVALID_HANDLE);
    assert_ne!(w, h);
    let decoded = decode_headers(&s.read_all(w)).unwrap();
    assert_eq!(
        decoded,
        vec![(b"a".to_vec(), b"1".to_vec()), (b"a".to_vec(), b"2".to_vec())]
    );
}

#[test]
fn buffer_as_string_checks_utf8() {
    let mut s = BufferStore::new();
    let h = s.create();
    s.write(h, "héllo".as_bytes()).unwrap();
    assert_eq!(s.read_buffer_as_string(h), Some("héllo".to_string()));
    s.write(h, &[0xff, 0xfe]).unwrap();
    assert_eq!(s.read_buffer_as_string(h), None);
    assert_eq!(s.read_buffer_as_string(999), Some(String::new()));
}
