use teldbg::mem_write::{parse_hex, sized_value, SizedValue};
use teldbg::number::ParseNumError;

#[test]
fn write_parse_hex_is_always_hexadecimal() {
    assert_eq!(parse_hex(&"10".to_string()), Ok(16));
    assert_eq!(parse_hex(&"0x10".to_string()), Ok(16));
    assert_eq!(parse_hex(&"0XfF".to_string()), Ok(255));
    assert_eq!(parse_hex(&"ff".to_string()), Ok(255));
}

#[test]
fn write_parse_hex_errors() {
    assert_eq!(parse_hex(&"".to_string()), Err(ParseNumError::Empty));
    assert_eq!(parse_hex(&"0x".to_string()), Err(ParseNumError::Empty));
    assert_eq!(parse_hex(&"0xz".to_string()), Err(ParseNumError::InvalidDigit));
    assert_eq!(
        parse_hex(&"1ffffffffffffffff".to_string()),
        Err(ParseNumError::PosOverflow)
    );
}

#[test]
fn write_parse_hex_reads_dump_literals() {
    for v in [0usize, 1, 0xab, 0x1234, usize::MAX] {
        assert_eq!(parse_hex(&format!("{:#x}", v)), Ok(v));
        assert_eq!(parse_hex(&format!("{:x}", v)), Ok(v));
        assert_eq!(parse_hex(&format!("{:016x}", v)), Ok(v));
    }
}

#[test]
fn sized_values_truncate() {
    assert_eq!(sized_value(1, 0x1234), Some(SizedValue::U8(0x34)));
    assert_eq!(sized_value(2, 0x12345), Some(SizedValue::U16(0x2345)));
    assert_eq!(sized_value(4, 0x1_2345_6789), Some(SizedValue::U32(0x2345_6789)));
    assert_eq!(sized_value(8, 0x1_2345_6789), Some(SizedValue::U64(0x1_2345_6789)));
    assert_eq!(sized_value(3, 1), None);
    assert_eq!(sized_value(0, 1), None);
}

#[test]
fn write_and_dump_parsers_agree() {
    for s in ["", "0x", "10", "0x10", "0XfF", "g", "+1", "0x0x1", "ffffffffffffffffff"] {
        assert_eq!(parse_hex(&s.to_string()), teldbg::mem_dump::parse_hex(s), "{}", s);
    }
}
