use teldbg::number::{from_str_radix, to_digit, ParseNumError};

fn chars(s: &str) -> Vec<char> {
    s.chars().collect()
}

#[test]
fn radix_digits() {
    assert_eq!(to_digit('7', 10), Some(7));
    assert_eq!(to_digit('a', 10), None);
    assert_eq!(to_digit('a', 16), Some(10));
    assert_eq!(to_digit('F', 16), Some(15));
    assert_eq!(to_digit('z', 36), Some(35));
    assert_eq!(to_digit('g', 16), None);
}

#[test]
fn radix_parse_matches_std_for_u32() {
    let cases = [
        "0", "1", "+1", "-1", "+", "-", "", "4294967295", "4294967296", "99999999999x", "12a",
        "ff", "FF", "0x1", "007",
    ];
    for radix in [10u32, 16] {
        for s in cases {
            let ours = from_str_radix(&chars(s), 0, radix, u32::MAX as u64);
            let std = u32::from_str_radix(s, radix);
            match (ours, std) {
                (Ok(a), Ok(b)) => assert_eq!(a, b as u64, "{} in radix {}", s, radix),
                (Err(e), Err(f)) => {
                    let kind = match f.kind() {
                        std::num::IntErrorKind::Empty => ParseNumError::Empty,
                        std::num::IntErrorKind::InvalidDigit => ParseNumError::InvalidDigit,
                        std::num::IntErrorKind::PosOverflow => ParseNumError::PosOverflow,
                        _ => panic!("unexpected kind"),
                    };
                    assert_eq!(e, kind, "{} in radix {}", s, radix);
                }
                (a, b) => panic!("{} in radix {}: {:?} against {:?}", s, radix, a, b),
            }
        }
    }
}

#[test]
fn radix_parse_from_an_offset() {
    assert_eq!(from_str_radix(&chars("0x1f"), 2, 16, u64::MAX), Ok(31));
    assert_eq!(from_str_radix(&chars("0x"), 2, 16, u64::MAX), Err(ParseNumError::Empty));
}
