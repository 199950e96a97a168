use teldbg::mem_dump::{dump_mem, dump_mem0, dump_mem_u8, element_size, main_dump, parse_hex};
use teldbg::number::ParseNumError;

#[test]
fn parse_hex_reads_hexadecimal() {
    assert_eq!(parse_hex("0x10"), Ok(16));
    assert_eq!(parse_hex("0X1f"), Ok(31));
    assert_eq!(parse_hex("10"), Ok(16));
    assert_eq!(parse_hex("ff"), Ok(255));
    assert_eq!(parse_hex("DeadBeef"), Ok(0xdead_beef));
    assert_eq!(parse_hex("+5"), Ok(5));
    assert_eq!(parse_hex("0x+a"), Ok(10));
    assert_eq!(parse_hex("0"), Ok(0));
}

#[test]
fn parse_hex_errors() {
    assert_eq!(parse_hex(""), Err(ParseNumError::Empty));
    assert_eq!(parse_hex("0x"), Err(ParseNumError::Empty));
    assert_eq!(parse_hex("0xg"), Err(ParseNumError::InvalidDigit));
    assert_eq!(parse_hex("0x0x1"), Err(ParseNumError::InvalidDigit));
    assert_eq!(parse_hex("g"), Err(ParseNumError::InvalidDigit));
    assert_eq!(parse_hex("-5"), Err(ParseNumError::InvalidDigit));
    assert_eq!(parse_hex("+"), Err(ParseNumError::InvalidDigit));
    assert_eq!(parse_hex(" 1"), Err(ParseNumError::InvalidDigit));
    assert_eq!(parse_hex("1_000"), Err(ParseNumError::InvalidDigit));
}

#[test]
fn parse_hex_limits() {
    let max = usize::MAX;
    assert_eq!(parse_hex(&format!("{:x}", max)), Ok(max));
    assert_eq!(parse_hex(&format!("{:#x}", max)), Ok(max));
    assert_eq!(parse_hex(&format!("0X{:X}", max)), Ok(max));
    assert_eq!(parse_hex(&format!("{:x}0", max)), Err(ParseNumError::PosOverflow));
    // overflow is found before a later bad digit
    assert_eq!(parse_hex(&format!("{:x}0z", max)), Err(ParseNumError::PosOverflow));
}

#[test]
fn parse_hex_agrees_with_std() {
    for s in ["0", "12", "0x12", "0XaB", "+7", "x", "", "0x", "ffffffffffffffffff", "1 ", "0x0x1"] {
        let digits = if s.starts_with("0x") || s.starts_with("0X") { &s[2..] } else { s };
        let expected = usize::from_str_radix(digits, 16).ok();
        assert_eq!(parse_hex(s).ok(), expected, "{}", s);
    }
}

#[test]
fn parse_hex_reads_upper_and_lower_case_literals() {
    for n in [0usize, 1, 0xab, 0xbeef, 0x1234_5678, usize::MAX] {
        assert_eq!(parse_hex(&format!("{:#x}", n)), Ok(n));
        assert_eq!(parse_hex(&format!("0X{:X}", n)), Ok(n));
        assert_eq!(parse_hex(&format!("{:x}", n)), Ok(n));
    }
}

#[test]
fn null_address_reads_nothing() {
    assert_eq!(teldbg::mem_dump::elements_to_read(0, 16), 0);
    assert_eq!(teldbg::mem_dump::elements_to_read(0x1000, 16), 16);
    assert_eq!(teldbg::mem_dump::elements_to_read(0x1000, 0), 0);
}

#[test]
fn element_size_reads_sizes() {
    assert_eq!(element_size("1"), Some(1));
    assert_eq!(element_size("2"), Some(2));
    assert_eq!(element_size("4"), Some(4));
    assert_eq!(element_size("8"), Some(8));
    assert_eq!(element_size("+4"), Some(4));
    assert_eq!(element_size("01"), Some(1));
    assert_eq!(element_size("3"), None);
    assert_eq!(element_size("-1"), None);
    assert_eq!(element_size("x"), None);
    assert_eq!(element_size(""), None);
}

#[test]
fn dump_u8_rows_and_comments() {
    assert_eq!(dump_mem_u8(&[0x41, 0x42, 0x43], 2), "0x41, 0x42,  // AB \n0x43, ");
    assert_eq!(dump_mem_u8(&[0x41, 0x42], 2), "0x41, 0x42, ");
    assert_eq!(dump_mem_u8(&[], 8), "");
    assert_eq!(dump_mem_u8(&[0x00, 0xff], 8), "0x00, 0xff, ");
}

#[test]
fn dump_u8_zero_row_length() {
    assert_eq!(dump_mem_u8(&[0x41, 0x42], 0), " //  \n0x41,  // A \n0x42, ");
}

#[test]
fn dump_u8_latin1_comment() {
    assert_eq!(dump_mem_u8(&[0xe9, 0x0a, 0x30], 2), "0xe9, 0x0a,  // \u{e9}\n \n0x30, ");
}

#[test]
fn dump_mem_widths() {
    assert_eq!(dump_mem(&[1, 0xabcd], 2, 8), "0x0001, 0xabcd, ");
    assert_eq!(dump_mem(&[1, 0xabcd], 2, 1), "0x0001, \n0xabcd, ");
    assert_eq!(dump_mem(&[7], 4, 0), "\n0x00000007, ");
    assert_eq!(dump_mem(&[u64::MAX], 8, 8), "0xffffffffffffffff, ");
    assert_eq!(dump_mem(&[1, 2, 3, 4, 5], 1, 2), "0x01, 0x02, \n0x03, 0x04, \n0x05, ");
    assert_eq!(dump_mem(&[], 8, 8), "");
}

#[test]
fn dump_mem_matches_format() {
    let vals: Vec<u64> = (0..20).map(|x| x * 0x1111).collect();
    let mut expected = String::new();
    for (i, v) in vals.iter().enumerate() {
        if i > 0 && i % 8 == 0 {
            expected += "\n";
        }
        expected += &format!("{:#01$x}, ", v, 2 * 4 + 2);
    }
    assert_eq!(dump_mem(&vals, 4, 8), expected);
}

#[test]
fn listing_text() {
    assert_eq!(
        dump_mem0(0x1000, &[0xff, 0x1], 1),
        "0000000000001000: ff0000000000001001: 01"
    );
    assert_eq!(dump_mem0(0x10, &[0x1234], 2), "0000000000000010: 1234");
    assert_eq!(dump_mem0(0, &[], 8), "");
}

#[test]
fn main_dump_sizes() {
    assert_eq!(main_dump(1, &[0x41, 0x42, 0x43], 2), "0x41, 0x42,  // AB \n0x43, ");
    assert_eq!(main_dump(2, &[0x41], 8), "0x0041, ");
    assert_eq!(main_dump(4, &[0x41], 8), "0x00000041, ");
    assert_eq!(main_dump(8, &[0x41], 8), "0x0000000000000041, ");
    assert_eq!(main_dump(3, &[0x41], 8), "");
    assert_eq!(main_dump(0, &[0x41], 8), "");
}

#[test]
fn dump_entries_read_back() {
    let bytes: Vec<u8> = (b'A'..=b'z').collect();
    let text = dump_mem_u8(&bytes, 16);
    let mut read = Vec::new();
    for line in text.split('\n') {
        let entries = match line.find(" // ") {
            Some(k) => &line[..k],
            None => line,
        };
        for entry in entries.split(", ").filter(|e| !e.is_empty()) {
            read.push(parse_hex(entry).unwrap() as u8);
        }
    }
    assert_eq!(read, bytes);
}

#[test]
fn byte_dump_is_its_lines() {
    let bytes: Vec<u8> = (0x30..0x30 + 21).collect();
    for len_row in 1..8usize {
        let chunks: Vec<&[u8]> = bytes.chunks(len_row).collect();
        let mut expected = String::new();
        for (k, chunk) in chunks.iter().enumerate() {
            for b in chunk.iter() {
                expected += &format!("{:#04x}, ", b);
            }
            if k + 1 < chunks.len() {
                let shown: String = chunk.iter().map(|&b| b as char).collect();
                expected += &format!(" // {} \n", shown);
            }
        }
        let text = dump_mem_u8(&bytes, len_row);
        assert_eq!(text, expected, "len_row {}", len_row);
        let n = bytes.len();
        assert_eq!(text.chars().count(), 6 * n + ((n - 1) / len_row) * (len_row + 6));
    }
}

#[test]
fn plain_dump_length() {
    let vals: Vec<u64> = (0..13).collect();
    for size in [1usize, 2, 4, 8] {
        for len_row in 1..6usize {
            let text = dump_mem(&vals, size, len_row);
            assert!(text.is_ascii());
            assert_eq!(text.len(), vals.len() * (2 * size + 4) + (vals.len() - 1) / len_row);
        }
    }
}

#[test]
fn listing_is_its_items() {
    let vals: Vec<u64> = vec![0xab, 0x01, 0xff];
    for size in [1usize, 2, 4, 8] {
        let addr = 0x1000usize;
        let mut expected = String::new();
        for (i, v) in vals.iter().enumerate() {
            expected += &format!("{:016x}: {:0w$x}", addr + size * i, v, w = 2 * size);
        }
        assert_eq!(dump_mem0(addr, &vals, size), expected);
    }
}
