use ethrpc::quantity::{decode_quantity, encode_quantity, NumericDecodeError};

#[test]
fn decode_example_block_number() {
    assert_eq!(decode_quantity("0x10d4f"), Ok(68943));
    assert_eq!(decode_quantity("0x10e4f"), Ok(69199));
}

#[test]
fn decode_is_case_insensitive() {
    assert_eq!(decode_quantity("0x10D4F"), Ok(68943));
    assert_eq!(decode_quantity("0X10d4f"), Ok(68943));
    assert_eq!(decode_quantity("0xABCDEF"), decode_quantity("0xabcdef"));
}

#[test]
fn decode_zero_and_small_values() {
    assert_eq!(decode_quantity("0x0"), Ok(0));
    assert_eq!(decode_quantity("0x00"), Ok(0));
    assert_eq!(decode_quantity("0xf"), Ok(15));
    assert_eq!(decode_quantity("0x10"), Ok(16));
}

#[test]
fn decode_rejects_bare_hex_without_prefix() {
    assert_eq!(decode_quantity("10d4f"), Err(NumericDecodeError::MissingPrefix));
    assert_eq!(decode_quantity(""), Err(NumericDecodeError::MissingPrefix));
    assert_eq!(decode_quantity("x10"), Err(NumericDecodeError::MissingPrefix));
}

#[test]
fn decode_rejects_non_hex_characters() {
    assert_eq!(decode_quantity("0xzz"), Err(NumericDecodeError::NotHex));
    assert_eq!(decode_quantity("0x12g4"), Err(NumericDecodeError::NotHex));
    assert_eq!(decode_quantity("0x"), Err(NumericDecodeError::NotHex));
}

#[test]
fn decode_rejects_overflow_rather_than_wrapping() {
    assert_eq!(decode_quantity("0x7fffffffffffffff"), Ok(i64::MAX));
    assert_eq!(
        decode_quantity("0x8000000000000000"),
        Err(NumericDecodeError::Overflow)
    );
    assert_eq!(
        decode_quantity("0xffffffffffffffffff"),
        Err(NumericDecodeError::Overflow)
    );
}

#[test]
fn decode_accepts_leading_zero_digits() {
    assert_eq!(decode_quantity("0x000010d4f"), Ok(68943));
}

#[test]
fn encode_produces_canonical_form() {
    assert_eq!(encode_quantity(68943), "0x10d4f");
    assert_eq!(encode_quantity(69199), "0x10e4f");
    assert_eq!(encode_quantity(0), "0x0");
    assert_eq!(encode_quantity(15), "0xf");
    assert_eq!(encode_quantity(16), "0x10");
    assert_eq!(encode_quantity(i64::MAX), "0x7fffffffffffffff");
}

#[test]
fn decode_then_encode_yields_canonical_form() {
    let v = decode_quantity("0x00010D4F").unwrap();
    assert_eq!(encode_quantity(v), "0x10d4f");
    let w = decode_quantity(&encode_quantity(v)).unwrap();
    assert_eq!(w, v);
}
