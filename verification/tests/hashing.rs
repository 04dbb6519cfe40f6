use scalelab_rs::hashing::{sha256_bytes, to_hex_lower};

#[test]
fn sha256_of_known_inputs() {
    assert_eq!(sha256_bytes(b"abc"), "ba7816bf8f01cfea414140de5dae2223b00361a396177a9cb410ff61f20015ad");
    assert_eq!(sha256_bytes(b""), "e3b0c44298fc1c149afbf4c8996fb92427ae41e4649b934ca495991b7852b855");
}

#[test]
fn hex_is_lowercase_two_digits_per_byte() {
    assert_eq!(to_hex_lower(&[0x0a, 0xff, 0x00, 0x9c]), "0aff009c");
    assert_eq!(to_hex_lower(&[]), "");
}
