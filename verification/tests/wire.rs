use pewpew::wire::len_encode_bytes;

#[test]
fn encodes_five_bytes_as_nine() {
    let framed = len_encode_bytes(vec![1, 2, 3, 4, 5]);
    assert_eq!(framed, vec![0x05, 0x00, 0x00, 0x00, 0x01, 0x02, 0x03, 0x04, 0x05]);
}

#[test]
fn encodes_the_empty_payload_as_a_bare_prefix() {
    assert_eq!(len_encode_bytes(Vec::new()), vec![0, 0, 0, 0]);
}

#[test]
fn prefix_is_little_endian() {
    let payload = vec![9u8; 300];
    let framed = len_encode_bytes(payload.clone());
    assert_eq!(framed.len(), 304);
    assert_eq!(&framed[..4], &[44, 1, 0, 0]);
    assert_eq!(&framed[4..], payload.as_slice());
}

#[test]
fn prefix_uses_the_third_byte() {
    let payload = vec![0u8; 70000];
    let framed = len_encode_bytes(payload);
    assert_eq!(&framed[..4], &[0x70, 0x11, 0x01, 0x00]);
}
