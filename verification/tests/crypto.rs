use moo_rust::crypto::{digest_to_hex, hash_bytes};

#[test]
fn hash_of_empty_input() {
    let answer = hash_bytes(b"");
    assert_eq!(answer, b"D41D8CD98F00B204E9800998ECF8427E\0".to_vec());
}

#[test]
fn hash_of_abc() {
    let answer = hash_bytes(b"abc");
    assert_eq!(answer, b"900150983CD24FB0D6963F7D28E17F72\0".to_vec());
}

#[test]
fn hash_of_alphabet() {
    let answer = hash_bytes(b"abcdefghijklmnopqrstuvwxyz");
    assert_eq!(answer, b"C3FCD3D76192E4007DFB496CCA67E13B\0".to_vec());
}

#[test]
fn hex_spelling_of_a_digest() {
    let digest: [u8; 16] = [
        0x00, 0x01, 0x09, 0x0A, 0x0F, 0x10, 0x7F, 0x80, 0xAB, 0xCD, 0xEF, 0xFF, 0x12, 0x34, 0x56,
        0x78,
    ];
    let answer = digest_to_hex(&digest);
    assert_eq!(answer, b"0001090A0F107F80ABCDEFFF12345678\0".to_vec());
    assert_eq!(answer.len(), 33);
}
