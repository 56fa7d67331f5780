//! Known outputs of zlib 1.3.1's raw deflate at level 9 for small inputs.

use zlib_bitexact_rs::deflate_raw;

#[test]
fn empty_input_is_an_empty_fixed_block() {
    // BFINAL = 1, BTYPE = 01, then the end-of-block code 0000000, padded.
    assert_eq!(deflate_raw(b""), vec![0x03, 0x00]);
}

#[test]
fn one_byte_is_a_fixed_literal() {
    // 'a' = 0x61 has the fixed 8-bit code 0x30 + 0x61.
    assert_eq!(deflate_raw(b"a"), vec![0x4b, 0x04, 0x00]);
}

#[test]
fn hello_is_fixed_literals() {
    assert_eq!(deflate_raw(b"hello"), vec![0xcb, 0x48, 0xcd, 0xc9, 0xc9, 0x07, 0x00]);
}

#[test]
fn three_equal_bytes_are_a_literal_and_no_match() {
    // A match needs three bytes after its start, so the third byte of a run of three is
    // sent as a literal too: 0x07 three times with the fixed codes.
    let out = deflate_raw(&[7, 7, 7]);
    assert_eq!(out, vec![0x63, 0x67, 0x67, 0x07, 0x00]);
}

#[test]
fn a_run_uses_a_back_reference() {
    // Ten zero bytes: two literals (the string at position 0 is never a match candidate:
    // its chain link is NIL), then a match of eight bytes one back, in a fixed block.
    let out = deflate_raw(&[0u8; 10]);
    assert_eq!(out, vec![0x63, 0x60, 0x80, 0x01, 0x00]);
}

#[test]
fn output_is_deterministic() {
    let data: Vec<u8> = (0..5000u32).map(|i| (i * 7 % 251) as u8).collect();
    assert_eq!(deflate_raw(&data), deflate_raw(&data));
}
