//! Reading the address and value of a memory write, and cutting the value
//! down to the size written.
use vstd::prelude::*;
use crate::hex::{hex_digits, lemma_hex_digits_len, pow16};
use crate::mem_dump::{
    has_hex_prefix,
    hex_literal,
    lemma_hex_digits_chars,
    lemma_hex_digits_value,
    spec_parse_hex,
};
use crate::number::{from_str_radix, radix_value, ParseNumError};
use crate::text::chars_of;

verus! {

/// The number that `s` writes in hexadecimal, with or without a `0x` or `0X`
/// prefix, as a `usize`.
pub open spec fn spec_parse_hex_w(s: Seq<char>) -> Result<nat, ParseNumError> {
    if has_hex_prefix(s) {
        radix_value(s, 2, 16, usize::MAX as nat)
    } else {
        radix_value(s, 0, 16, usize::MAX as nat)
    }
}

/// Reads a hexadecimal address or value, with or without `0x` or `0X`.
pub fn parse_hex(s: &String) -> (r: Result<usize, ParseNumError>)
    ensures
        match r {
            Ok(v) => spec_parse_hex_w(s@) == Ok::<nat, ParseNumError>(v as nat),
            Err(e) => spec_parse_hex_w(s@) == Err::<nat, ParseNumError>(e),
        },
{
    let v = chars_of(s.as_str());
    let start: usize = if v.len() >= 2 && v[0] == '0' && (v[1] == 'x' || v[1] == 'X') {
        2
    } else {
        0
    };
    match from_str_radix(&v, start, 16, usize::MAX as u64) {
        Ok(x) => Ok(x as usize),
        Err(e) => Err(e),
    }
}

/// A value to write, in the width it is written with.
#[derive(Debug, Clone, Copy, PartialEq, Eq, Structural)]
pub enum SizedValue {
    U8(u8),
    U16(u16),
    U32(u32),
    U64(u64),
}

/// The value written for an element size: `val` cut down to its low
/// `size` bytes, for a size of 1, 2, 4 or 8; nothing for any other size.
pub fn sized_value(size: usize, val: usize) -> (r: Option<SizedValue>)
    ensures
        size == 1 ==> r == Some(SizedValue::U8(val as u8)),
        size == 2 ==> r == Some(SizedValue::U16(val as u16)),
        size == 4 ==> r == Some(SizedValue::U32(val as u32)),
        size == 8 ==> r == Some(SizedValue::U64(val as u64)),
        !(size == 1 || size == 2 || size == 4 || size == 8) ==> r is None,
{
    if size == 1 {
        Some(SizedValue::U8(val as u8))
    } else if size == 2 {
        Some(SizedValue::U16(val as u16))
    } else if size == 4 {
        Some(SizedValue::U32(val as u32))
    } else if size == 8 {
        Some(SizedValue::U64(val as u64))
    } else {
        None
    }
}

/// The value parser of a write reads back any value written in hexadecimal
/// digits, with or without the `0x` of a dump's entries, whenever it is a
/// `usize`.
pub proof fn law_parse_hex_w_reads_hex(v: nat, n: nat)
    requires
        0 < n,
        v < pow16(n),
        v <= usize::MAX,
    ensures
        spec_parse_hex_w(hex_digits(v, n)) == Ok::<nat, ParseNumError>(v),
        spec_parse_hex_w(hex_literal(v, n)) == Ok::<nat, ParseNumError>(v),
{
    let d = hex_digits(v, n);
    lemma_hex_digits_len(v, n);
    lemma_hex_digits_value(Seq::empty(), v, n, usize::MAX as nat);
    assert(Seq::<char>::empty() + d =~= d);
    lemma_hex_digits_chars(v, n, 0);
    if n >= 2 {
        lemma_hex_digits_chars(v, n, 1);
    }
    lemma_hex_digits_value(seq!['0', 'x'], v, n, usize::MAX as nat);
    let s = hex_literal(v, n);
    assert(s[2] == d[0]);
    crate::mem_dump::law_parse_hex_reads_dump_literal(v, n);
}

/// The value parser of a write and the address parser of a dump read every
/// text alike.
pub proof fn law_write_and_dump_parsers_agree(s: Seq<char>)
    ensures
        spec_parse_hex_w(s) == spec_parse_hex(s),
{
}

/// The value parser of a write reads a text exactly when, after an
/// optional `0x` or `0X`, it is an optional `+` and one or more hexadecimal
/// digits whose value is a `usize`, and then it reads that value.
pub proof fn law_parse_hex_w_characterised(s: Seq<char>)
    ensures
        spec_parse_hex_w(s) is Ok <==> crate::number::well_formed_number(
            s,
            crate::mem_dump::hex_digits_at(s),
            16,
        ) && crate::number::number_value(s, crate::mem_dump::hex_digits_at(s), 16) <= usize::MAX,
        spec_parse_hex_w(s) matches Ok(v) ==> v == crate::number::number_value(
            s,
            crate::mem_dump::hex_digits_at(s),
            16,
        ),
{
    crate::mem_dump::law_parse_hex_characterised(s);
}

} // verus!
