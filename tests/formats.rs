use str_to_bytes::{
    is_binary, is_decimal, is_hexadecimal, is_str_ascii, parse_binary, parse_decimal,
    parse_hexadecimal, parse_str_ascii, ErrorKind,
};

#[test]
fn test_binary() {
    // b or B
    assert!(is_binary("0b11"));
    assert!(is_binary("0B11"));

    // empty or just 0b
    assert!(is_binary("0b") == false);
    assert!(is_binary("0B") == false);
    assert!(is_binary("") == false);

    // any size should work
    assert!(is_binary("0b0"));
    assert!(is_binary("0b01"));
    assert!(is_binary("0b1"));
    assert!(is_binary("0b0101010010011010010100101001"));

    // simple binary
    assert_eq!(parse_binary("0b10"), [0b10]);
    assert_eq!(parse_binary("0b1"), [0b1]);
    assert_eq!(parse_binary("0b01"), [0b01]);
    assert_eq!(parse_binary("0b00000001"), [0b1]);
    assert_eq!(parse_binary("0b11111111"), [0xff]);

    // multi bytes
    assert_eq!(parse_binary("0b000000001"), [0, 1]);
    assert_eq!(parse_binary("0b1111111100"), [0xff, 0]);
    assert_eq!(
        parse_binary("0b11111111000000001111111100000000"),
        [0xff, 0, 0xff, 0]
    );
}

#[test]
fn test_decimal() {
    assert!(is_decimal("0"));
    assert!(is_decimal("1"));
    assert!(is_decimal("12"));
    assert!(is_decimal("31"));

    // empty
    assert!(is_decimal("") == false);

    // any size should work
    assert!(is_decimal("12"));
    assert!(is_decimal("1"));
    assert!(is_decimal("0"));
    assert!(is_decimal("18130184813"));
    assert!(is_decimal("189120931130184813"));

    // simple decimal
    assert_eq!(parse_decimal("10").unwrap(), [10]);
    assert_eq!(parse_decimal("6").unwrap(), [6]);
    assert_eq!(parse_decimal("1").unwrap(), [1]);
    assert_eq!(parse_decimal("256").unwrap(), [1, 0]);

    // multi bytes
    assert_eq!(parse_decimal("1024").unwrap(), [0b100, 0]);
    assert_eq!(
        parse_decimal("123456789").unwrap(),
        [0b111, 0b01011011, 0b11001101, 0b00010101]
    );
}

#[test]
fn test_hexadecimal() {
    // x or X
    assert!(is_hexadecimal("0x00"));
    assert!(is_hexadecimal("0XFF"));
    assert!(is_hexadecimal("0XFf"));
    assert!(is_hexadecimal("0xFf"));

    // empty or just 0x
    assert!(is_hexadecimal("0x") == false);
    assert!(is_hexadecimal("0X") == false);
    assert!(is_hexadecimal("") == false);

    // any size should work
    assert!(is_hexadecimal("0x0"));
    assert!(is_hexadecimal("0x01"));
    assert!(is_hexadecimal("0xf"));
    assert!(is_hexadecimal("0xff01938422749abdef13131fee3"));

    // simple hexadecimal
    assert_eq!(parse_hexadecimal("0x10"), [0x10]);
    assert_eq!(parse_hexadecimal("0x6"), [0x6]);
    assert_eq!(parse_hexadecimal("0xff"), [0xff]);
    assert_eq!(parse_hexadecimal("0x00"), [0x00]);
    assert_eq!(parse_hexadecimal("0xab"), [0xab]);
    assert_eq!(parse_hexadecimal("0x0f"), [0x0f]);

    // multi bytes
    assert_eq!(parse_hexadecimal("0xff00ff"), [255, 0, 255]);
    assert_eq!(parse_hexadecimal("0xabcdef"), [0xab, 0xcd, 0xef]);
    assert_eq!(
        parse_hexadecimal("0xabcdef123456"),
        [0xab, 0xcd, 0xef, 0x12, 0x34, 0x56]
    );
}

#[test]
fn test_str() {
    assert!(is_str_ascii("ASCII(hello)"));
    assert!(is_str_ascii("ASCII(12)"));
    assert!(is_str_ascii("ASCII(1)"));
    assert!(is_str_ascii("ASCII(0x44)"));
    assert!(is_str_ascii("ASCII(Hi mom)"));
    assert!(is_str_ascii("ASCII(1234)"));

    assert_eq!(parse_str_ascii("ASCII(a)"), [0x61]);
    assert_eq!(parse_str_ascii("ASCII(abc)"), [0x61, 0x62, 0x63]);
    assert_eq!(parse_str_ascii("ASCII(0)"), [0x30]);
    assert_eq!(parse_str_ascii("ASCII(1)"), [0x31]);
}

#[test]
fn binary_round_trip_regroups_bits() {
    let bits = "1011001110001";
    let bytes = parse_binary(&format!("0b{}", bits));
    assert_eq!(bytes.len(), (bits.len() + 7) / 8);
    let mut back = String::new();
    let mut left = bits.len();
    for b in &bytes {
        let width = if left > 8 { 8 } else { left };
        back.push_str(&format!("{:0width$b}", b, width = width));
        left -= width;
    }
    assert_eq!(back, bits);
}

#[test]
fn binary_short_last_group_is_not_padded() {
    assert_eq!(parse_binary("0b1000000011"), [0x80, 3]);
    assert_eq!(parse_binary("0B101"), [5]);
}

#[test]
fn hexadecimal_grouping_and_lone_last_digit() {
    assert_eq!(parse_hexadecimal("0xABC"), [0xab, 0x0c]);
    assert_eq!(parse_hexadecimal("0Xf"), [0x0f]);
    let digits = "deadbeef";
    let bytes = parse_hexadecimal(&format!("0x{}", digits));
    assert_eq!(bytes.len(), digits.len() / 2);
    for (i, b) in bytes.iter().enumerate() {
        assert_eq!(*b, u8::from_str_radix(&digits[2 * i..2 * i + 2], 16).unwrap());
    }
}

#[test]
fn decimal_is_minimal_and_zero_is_one_byte() {
    assert_eq!(parse_decimal("0").unwrap(), [0]);
    assert_eq!(parse_decimal("000").unwrap(), [0]);
    assert_eq!(parse_decimal("255").unwrap(), [255]);
    assert_eq!(parse_decimal("65536").unwrap(), [1, 0, 0]);
    assert_eq!(
        parse_decimal("18446744073709551615").unwrap(),
        [255, 255, 255, 255, 255, 255, 255, 255]
    );
    for v in [1u64, 255, 256, 70000, 1 << 40, u64::MAX] {
        let bytes = parse_decimal(&v.to_string()).unwrap();
        assert_ne!(bytes[0], 0);
    }
}

#[test]
fn decimal_overflow_is_an_error() {
    let e = parse_decimal("18446744073709551616").unwrap_err();
    assert_eq!(e.kind, ErrorKind::NumericOverflow);
    assert_eq!(e.token, "18446744073709551616");
}

#[test]
fn classifiers_reject_other_forms() {
    assert!(!is_binary("0b102"));
    assert!(!is_binary("x0b1"));
    assert!(!is_hexadecimal("0xfg"));
    assert!(!is_hexadecimal("12"));
    assert!(!is_decimal("12a"));
    assert!(!is_decimal("0x12"));
    assert!(!is_str_ascii("ASCII()"));
    assert!(!is_str_ascii("Hi mom"));
    assert!(is_str_ascii("ASCII())"));
}

#[test]
fn ascii_marker_inside_token_takes_interior() {
    assert_eq!(parse_str_ascii("xASCII(hi)"), b"hi".to_vec());
    assert_eq!(parse_str_ascii("ASCII(a)b)"), b"a)b".to_vec());
    assert_eq!(parse_str_ascii("ASCII(1234)"), b"1234".to_vec());
}

#[test]
fn ascii_marker_interior_may_hold_line_feed() {
    assert!(is_str_ascii("ASCII(\n)"));
    assert!(is_str_ascii("ASCII(a\nb)"));
    assert_eq!(parse_str_ascii("ASCII(\n)"), b"\n".to_vec());
    assert_eq!(parse_str_ascii("xASCII(a\nb)"), b"a\nb".to_vec());
    assert_eq!(parse_str_ascii("ASCII(a)\nb)"), b"a)\nb".to_vec());
}
