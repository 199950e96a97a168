//! Rendering memory dumps, and reading the addresses and lengths that a
//! dump command names.
//!
//! The bytes themselves are read from memory by the caller; what stands
//! here is the text made of them.
use vstd::prelude::*;
use crate::hex::{
    hex_char_upper,
    hex_digit_char,
    hex_digits,
    hex_digits_upper,
    lemma_hex_char_upper_digit,
    lemma_hex_digits_len,
    lemma_hex_digits_upper_len,
    pow16,
    push_hex,
};
use crate::number::{
    digit_value,
    from_str_radix,
    law_radix_value_characterised,
    number_value,
    radix_value,
    well_formed_number,
    ParseNumError,
};
use crate::text::{chars_of, push_char};

verus! {

// ---------------------------------------------------------------------------
// Reading numbers
// ---------------------------------------------------------------------------

/// `s` starts with `0x` or `0X`.
pub open spec fn has_hex_prefix(s: Seq<char>) -> bool {
    s.len() >= 2 && s[0] == '0' && (s[1] == 'x' || s[1] == 'X')
}

/// The number that `s` writes in hexadecimal, after an optional `0x` or
/// `0X` prefix, as a `usize`.
pub open spec fn spec_parse_hex(s: Seq<char>) -> Result<nat, ParseNumError> {
    if has_hex_prefix(s) {
        radix_value(s, 2, 16, usize::MAX as nat)
    } else {
        radix_value(s, 0, 16, usize::MAX as nat)
    }
}

/// Reads an address or a length, written in hexadecimal with or without a
/// `0x` or `0X` prefix.
pub fn parse_hex(s: &str) -> (r: Result<usize, ParseNumError>)
    ensures
        match r {
            Ok(v) => spec_parse_hex(s@) == Ok::<nat, ParseNumError>(v as nat),
            Err(e) => spec_parse_hex(s@) == Err::<nat, ParseNumError>(e),
        },
{
    let v = chars_of(s);
    parse_hex_chars(&v)
}

/// `parse_hex` on the characters `v`.
pub fn parse_hex_chars(v: &Vec<char>) -> (r: Result<usize, ParseNumError>)
    ensures
        match r {
            Ok(x) => spec_parse_hex(v@) == Ok::<nat, ParseNumError>(x as nat),
            Err(e) => spec_parse_hex(v@) == Err::<nat, ParseNumError>(e),
        },
{
    let max: u64 = usize::MAX as u64;
    let r = if v.len() >= 2 && v[0] == '0' && (v[1] == 'x' || v[1] == 'X') {
        from_str_radix(v, 2, 16, max)
    } else {
        from_str_radix(v, 0, 16, max)
    };
    match r {
        Ok(x) => Ok(x as usize),
        Err(e) => Err(e),
    }
}

/// The element size that a size argument names: the argument read as a
/// decimal `i32`, when that is 1, 2, 4 or 8. (No other reading of an `i32`,
/// negative ones included, gives one of these.)
pub open spec fn spec_element_size(s: Seq<char>) -> Option<nat> {
    match radix_value(s, 0, 10, i32::MAX as nat) {
        Ok(n) => if n == 1 || n == 2 || n == 4 || n == 8 {
            Some(n)
        } else {
            None
        },
        Err(_) => None,
    }
}

/// Reads the element size of a dump or a write from its command-line
/// argument; `None` unless it is 1, 2, 4 or 8.
pub fn element_size(arg: &str) -> (r: Option<usize>)
    ensures
        match r {
            Some(n) => spec_element_size(arg@) == Some(n as nat),
            None => spec_element_size(arg@) is None,
        },
{
    let v = chars_of(arg);
    match from_str_radix(&v, 0, 10, 0x7fff_ffffu64) {
        Ok(n) => if n == 1 || n == 2 || n == 4 || n == 8 {
            Some(n as usize)
        } else {
            None
        },
        Err(_) => None,
    }
}

/// How many elements a dump reads at `addr` when asked for `len`: none at
/// the null address, `len` elsewhere.
pub fn elements_to_read(addr: usize, len: usize) -> (n: usize)
    ensures
        n == (if addr == 0 {
            0
        } else {
            len
        }),
{
    if addr == 0 {
        0
    } else {
        len
    }
}

// ---------------------------------------------------------------------------
// The text of a dump
// ---------------------------------------------------------------------------

/// `0x` and the `n` low hexadecimal digits of `v`, as `{:#0w$x}` writes a
/// value of `n` digits (`w` being `n + 2`).
pub open spec fn hex_literal(v: nat, n: nat) -> Seq<char> {
    seq!['0', 'x'] + hex_digits(v, n)
}

/// One entry of a dump: the value as a hexadecimal literal, then `", "`.
pub open spec fn hex_entry(v: nat, n: nat) -> Seq<char> {
    hex_literal(v, n) + seq![',', ' ']
}

/// A new line starts before entry `i` of a dump with `len_row` entries per
/// line: before every entry when `len_row` is zero, else before each
/// positive multiple of `len_row`.
pub open spec fn row_break(i: int, len_row: nat) -> bool {
    len_row == 0 || (i > 0 && i % (len_row as int) == 0)
}

/// Every value fits in `size` bytes.
pub open spec fn values_fit(vals: Seq<u64>, size: nat) -> bool {
    forall|i: int| 0 <= i < vals.len() ==> ((#[trigger] vals[i]) as nat) < pow16(2 * size)
}

/// The dump of values of `size` bytes each: their entries in order, a
/// newline before each entry that starts a line.
pub open spec fn dump_text(vals: Seq<u64>, size: nat, len_row: nat) -> Seq<char>
    decreases vals.len(),
{
    if vals.len() == 0 {
        Seq::empty()
    } else {
        let i = vals.len() - 1;
        dump_text(vals.drop_last(), size, len_row) + (if row_break(i, len_row) {
            seq!['\n']
        } else {
            Seq::empty()
        }) + hex_entry(vals[i] as nat, 2 * size)
    }
}

/// Each byte read as the character of the same code (Latin-1).
pub open spec fn latin1(bytes: Seq<u8>) -> Seq<char> {
    bytes.map_values(|b: u8| b as char)
}

/// Where the bytes shown in the comment before entry `i` begin: the line
/// just ended (with no lines of fixed length, the one byte before `i`).
pub open spec fn comment_start(i: int, len_row: nat) -> int {
    if len_row == 0 {
        if i == 0 {
            0
        } else {
            i - 1
        }
    } else {
        i - len_row
    }
}

/// The comment that ends a line of a byte dump: `" // "`, the bytes of that
/// line as characters, `" \n"`.
pub open spec fn line_comment(shown: Seq<u8>) -> Seq<char> {
    seq![' ', '/', '/', ' '] + latin1(shown) + seq![' ', '\n']
}

/// The dump of bytes: their entries in order; before each entry that starts
/// a line, a comment showing the bytes of the line before as characters.
/// The last line gets no comment.
pub open spec fn u8_dump_text(bytes: Seq<u8>, len_row: nat) -> Seq<char>
    decreases bytes.len(),
{
    if bytes.len() == 0 {
        Seq::empty()
    } else {
        let i = bytes.len() - 1;
        u8_dump_text(bytes.drop_last(), len_row) + (if row_break(i, len_row) {
            line_comment(bytes.subrange(comment_start(i, len_row), i))
        } else {
            Seq::empty()
        }) + hex_entry(bytes[i] as nat, 2)
    }
}

/// The listing of values of `size` bytes each, found at `addr` onwards:
/// each as its address in sixteen hexadecimal digits, `": "`, and the value
/// in `2 * size` digits, with nothing between them.
pub open spec fn listing_text(addr: nat, vals: Seq<u64>, size: nat) -> Seq<char>
    decreases vals.len(),
{
    if vals.len() == 0 {
        Seq::empty()
    } else {
        let i = vals.len() - 1;
        listing_text(addr, vals.drop_last(), size) + hex_digits((addr + size * i) as nat, 16) + seq![
            ':',
            ' ',
        ] + hex_digits(vals[i] as nat, 2 * size)
    }
}

/// How many entries stand on the current line after `i` entries.
pub open spec fn col_after(i: nat, len_row: nat) -> nat {
    if i == 0 {
        0
    } else if len_row == 0 {
        1
    } else {
        ((i - 1) % (len_row as int) + 1) as nat
    }
}

proof fn lemma_col_step(i: nat, len_row: nat)
    ensures
        (col_after(i, len_row) >= len_row) == row_break(i as int, len_row),
        col_after(i + 1, len_row) == (if row_break(i as int, len_row) {
            0
        } else {
            col_after(i, len_row)
        }) + 1,
        row_break(i as int, len_row) ==> comment_start(i as int, len_row) == i - col_after(
            i,
            len_row,
        ),
        col_after(i, len_row) <= i,
{
    if len_row > 0 {
        let l = len_row as int;
        if i > 0 {
            let x = i - 1;
            let q = x / l;
            let r = x % l;
            vstd::arithmetic::div_mod::lemma_fundamental_div_mod(x, l);
            assert(x == q * l + r) by (nonlinear_arith)
                requires
                    x == l * q + r,
            ;
            assert(0 <= r < l);
            if r + 1 == l {
                assert(i == (q + 1) * l + 0) by (nonlinear_arith)
                    requires
                        x == q * l + r,
                        r + 1 == l,
                        i == x + 1,
                ;
                vstd::arithmetic::div_mod::lemma_fundamental_div_mod_converse(i as int, l, q + 1, 0);
            } else {
                vstd::arithmetic::div_mod::lemma_fundamental_div_mod_converse(i as int, l, q, r + 1);
            }
        } else {
            assert(0int % l == 0);
        }
    }
}

proof fn lemma_dump_text_step(vals: Seq<u64>, i: int, size: nat, len_row: nat)
    requires
        0 <= i < vals.len(),
    ensures
        dump_text(vals.take(i + 1), size, len_row) == dump_text(vals.take(i), size, len_row) + (
        if row_break(i, len_row) {
            seq!['\n']
        } else {
            Seq::empty()
        }) + hex_entry(vals[i] as nat, 2 * size),
{
    assert(vals.take(i + 1).drop_last() =~= vals.take(i));
}

proof fn lemma_u8_dump_text_step(bytes: Seq<u8>, i: int, len_row: nat)
    requires
        0 <= i < bytes.len(),
        row_break(i, len_row) ==> 0 <= comment_start(i, len_row),
    ensures
        u8_dump_text(bytes.take(i + 1), len_row) == u8_dump_text(bytes.take(i), len_row) + (
        if row_break(i, len_row) {
            line_comment(bytes.subrange(comment_start(i, len_row), i))
        } else {
            Seq::empty()
        }) + hex_entry(bytes[i] as nat, 2),
{
    assert(bytes.take(i + 1).drop_last() =~= bytes.take(i));
    if row_break(i, len_row) {
        assert(bytes.take(i + 1).subrange(comment_start(i, len_row), i) =~= bytes.subrange(
            comment_start(i, len_row),
            i,
        ));
    }
}

/// Appends the entry of `v` with `n` digits: `0x`, the digits, `", "`.
fn push_entry(s: &mut String, v: u64, n: usize)
    requires
        (v as nat) < pow16(n as nat),
    ensures
        final(s)@ == old(s)@ + hex_entry(v as nat, n as nat),
{
    push_char(s, '0');
    push_char(s, 'x');
    push_hex(s, v, n);
    push_char(s, ',');
    push_char(s, ' ');
    assert(s@ =~= old(s)@ + hex_entry(v as nat, n as nat));
}

/// The dump of `vals`, values of `size` bytes each, `len_row` entries per
/// line: each value as `0x` and `2 * size` hexadecimal digits followed by
/// `", "`, a newline before each entry that starts a line.
pub fn dump_mem(vals: &[u64], size: usize, len_row: usize) -> (s: String)
    requires
        1 <= size <= 8,
        values_fit(vals@, size as nat),
    ensures
        s@ == dump_text(vals@, size as nat, len_row as nat),
{
    let mut res = String::new();
    let mut col_pos: usize = 0;
    let mut i: usize = 0;
    while i < vals.len()
        invariant
            1 <= size <= 8,
            values_fit(vals@, size as nat),
            i <= vals.len(),
            col_pos == col_after(i as nat, len_row as nat),
            res@ == dump_text(vals@.take(i as int), size as nat, len_row as nat),
        decreases vals.len() - i,
    {
        proof {
            lemma_col_step(i as nat, len_row as nat);
            lemma_dump_text_step(vals@, i as int, size as nat, len_row as nat);
        }
        if col_pos >= len_row {
            col_pos = 0;
            push_char(&mut res, '\n');
        }
        let v = vals[i];
        assert((v as nat) < pow16(2 * size as nat));
        push_entry(&mut res, v, 2 * size);
        col_pos = col_pos + 1;
        i = i + 1;
    }
    assert(vals@.take(vals@.len() as int) =~= vals@);
    res
}

/// The dump of `bytes`, `len_row` entries per line: each byte as `0x` and
/// two hexadecimal digits followed by `", "`; before each entry that starts
/// a line, `" // "`, the bytes of the line before as characters, and
/// `" \n"`. The last line gets no comment.
pub fn dump_mem_u8(bytes: &[u8], len_row: usize) -> (s: String)
    ensures
        s@ == u8_dump_text(bytes@, len_row as nat),
{
    let mut s = String::new();
    let mut s_char = String::new();
    let mut col_pos: usize = 0;
    let mut i: usize = 0;
    while i < bytes.len()
        invariant
            i <= bytes.len(),
            col_pos == col_after(i as nat, len_row as nat),
            col_pos <= i,
            s_char@ == latin1(bytes@.subrange(i - col_pos, i as int)),
            s@ == u8_dump_text(bytes@.take(i as int), len_row as nat),
        decreases bytes.len() - i,
    {
        proof {
            lemma_col_step(i as nat, len_row as nat);
            lemma_u8_dump_text_step(bytes@, i as int, len_row as nat);
        }
        if col_pos >= len_row {
            col_pos = 0;
            push_char(&mut s, ' ');
            push_char(&mut s, '/');
            push_char(&mut s, '/');
            push_char(&mut s, ' ');
            s.append(s_char.as_str());
            push_char(&mut s, ' ');
            push_char(&mut s, '\n');
            s_char = String::new();
            assert(latin1(bytes@.subrange(i as int, i as int)) =~= Seq::<char>::empty());
        }
        let b = bytes[i];
        proof {
            reveal_with_fuel(pow16, 3);
        }
        push_entry(&mut s, b as u64, 2);
        push_char(&mut s_char, b as char);
        assert(latin1(bytes@.subrange(i - col_pos, i + 1)) =~= latin1(
            bytes@.subrange(i - col_pos, i as int),
        ).push(b as char));
        col_pos = col_pos + 1;
        i = i + 1;
        assert(s@ =~= u8_dump_text(bytes@.take(i as int), len_row as nat));
    }
    assert(bytes@.take(bytes@.len() as int) =~= bytes@);
    s
}

proof fn lemma_listing_text_step(addr: nat, vals: Seq<u64>, i: int, size: nat)
    requires
        0 <= i < vals.len(),
    ensures
        listing_text(addr, vals.take(i + 1), size) == listing_text(addr, vals.take(i), size)
            + hex_digits((addr + size * i) as nat, 16) + seq![':', ' '] + hex_digits(
            vals[i] as nat,
            2 * size,
        ),
{
    assert(vals.take(i + 1).drop_last() =~= vals.take(i));
}

/// The listing of `vals`, values of `size` bytes each found at `addr`
/// onwards: for each, its address as sixteen hexadecimal digits, `": "`,
/// and the value as `2 * size` digits, with nothing between the items.
pub fn dump_mem0(addr: usize, vals: &[u64], size: usize) -> (s: String)
    requires
        1 <= size <= 8,
        values_fit(vals@, size as nat),
        vals.len() == 0 || addr + size * (vals.len() - 1) <= usize::MAX,
    ensures
        s@ == listing_text(addr as nat, vals@, size as nat),
{
    let mut s = String::new();
    let mut x: usize = 0;
    while x < vals.len()
        invariant
            1 <= size <= 8,
            values_fit(vals@, size as nat),
            vals.len() == 0 || addr + size * (vals.len() - 1) <= usize::MAX,
            x <= vals.len(),
            s@ == listing_text(addr as nat, vals@.take(x as int), size as nat),
        decreases vals.len() - x,
    {
        proof {
            lemma_listing_text_step(addr as nat, vals@, x as int, size as nat);
        }
        assert(addr + size * x <= usize::MAX) by (nonlinear_arith)
            requires
                x < vals.len(),
                addr + size * (vals.len() - 1) <= usize::MAX,
        ;
        let at: usize = addr + size * x;
        proof {
            crate::hex::lemma_u64_fits_16_digits(at as u64);
        }
        push_hex(&mut s, at as u64, 16);
        push_char(&mut s, ':');
        push_char(&mut s, ' ');
        let v = vals[x];
        assert((v as nat) < pow16(2 * size as nat));
        push_hex(&mut s, v, 2 * size);
        x = x + 1;
        assert(s@ =~= listing_text(addr as nat, vals@.take(x as int), size as nat));
    }
    assert(vals@.take(vals@.len() as int) =~= vals@);
    s
}

/// The values taken as bytes.
pub open spec fn low_bytes(vals: Seq<u64>) -> Seq<u8> {
    vals.map_values(|v: u64| v as u8)
}

/// The dump that `main_dump` renders for elements of `bytes` bytes each:
/// the byte dump with its character comments for single bytes, the plain
/// dump for two, four or eight bytes, and nothing for any other size.
pub open spec fn main_dump_text(bytes: nat, vals: Seq<u64>, len_row: nat) -> Seq<char> {
    if bytes == 1 {
        u8_dump_text(low_bytes(vals), len_row)
    } else if bytes == 2 || bytes == 4 || bytes == 8 {
        dump_text(vals, bytes, len_row)
    } else {
        Seq::empty()
    }
}

/// Renders `vals`, elements of `bytes` bytes each, with `len_row` entries
/// per line; an element size other than 1, 2, 4 or 8 gives an empty text.
pub fn main_dump(bytes: usize, vals: &[u64], len_row: usize) -> (s: String)
    requires
        bytes == 1 || bytes == 2 || bytes == 4 || bytes == 8 ==> values_fit(vals@, bytes as nat),
    ensures
        s@ == main_dump_text(bytes as nat, vals@, len_row as nat),
{
    if bytes == 1 {
        let mut v8: Vec<u8> = Vec::new();
        let mut i: usize = 0;
        while i < vals.len()
            invariant
                i <= vals.len(),
                v8@ == low_bytes(vals@.take(i as int)),
            decreases vals.len() - i,
        {
            v8.push(vals[i] as u8);
            i = i + 1;
            assert(v8@ =~= low_bytes(vals@.take(i as int)));
        }
        assert(vals@.take(vals@.len() as int) =~= vals@);
        dump_mem_u8(v8.as_slice(), len_row)
    } else if bytes == 2 || bytes == 4 || bytes == 8 {
        dump_mem(vals, bytes, len_row)
    } else {
        String::new()
    }
}

/// The digits of `v`, after any prefix, read back as `v`.
pub proof fn lemma_hex_digits_value(prefix: Seq<char>, v: nat, n: nat, max: nat)
    requires
        v < pow16(n),
        v <= max,
    ensures
        crate::number::digits_value(prefix + hex_digits(v, n), prefix.len() as int, 16, max, 0)
            == Ok::<nat, ParseNumError>(v),
    decreases n,
{
    if n == 0 {
        assert(prefix + hex_digits(v, n) =~= prefix);
    } else {
        let m = (n - 1) as nat;
        assert(v / 16 < pow16(m));
        lemma_hex_digits_value(prefix, v / 16, m, max);
        assert(prefix + hex_digits(v, n) =~= (prefix + hex_digits(v / 16, m)).push(
            crate::hex::hex_char(v % 16),
        ));
        lemma_hex_digits_len(v / 16, m);
        crate::number::lemma_digits_value_push(
            prefix + hex_digits(v / 16, m),
            crate::hex::hex_char(v % 16),
            prefix.len() as int,
            16,
            max,
            0,
        );
        crate::hex::lemma_hex_char_digit(v % 16);
    }
}

/// `parse_hex` reads back every hexadecimal literal that a dump writes: the
/// `0x` and digits of an entry give the value shown, whenever it is a
/// `usize`.
pub proof fn law_parse_hex_reads_dump_literal(v: nat, n: nat)
    requires
        0 < n,
        v < pow16(n),
        v <= usize::MAX,
    ensures
        spec_parse_hex(hex_literal(v, n)) == Ok::<nat, ParseNumError>(v),
{
    let s = hex_literal(v, n);
    lemma_hex_digits_len(v, n);
    lemma_hex_digits_value(seq!['0', 'x'], v, n, usize::MAX as nat);
    assert(s[2] == hex_digits(v, n)[0]);
    let d0 = hex_digits(v, n)[0];
    assert(d0 != '+' && d0 != '-') by {
        lemma_hex_digits_chars(v, n, 0);
    }
}

/// Every character of `hex_digits` is a hexadecimal digit.
pub proof fn lemma_hex_digits_chars(v: nat, n: nat, j: int)
    requires
        0 <= j < n,
    ensures
        crate::number::digit_value(hex_digits(v, n)[j], 16) is Some,
    decreases n,
{
    let m = (n - 1) as nat;
    lemma_hex_digits_len(v / 16, m);
    if j < m {
        lemma_hex_digits_chars(v / 16, m, j);
    } else {
        crate::hex::lemma_hex_char_digit(v % 16);
    }
}

/// The uppercase digits of `v`, after any prefix, read back as `v`.
proof fn lemma_hex_digits_upper_value(prefix: Seq<char>, v: nat, n: nat, max: nat)
    requires
        v < pow16(n),
        v <= max,
    ensures
        crate::number::digits_value(prefix + hex_digits_upper(v, n), prefix.len() as int, 16, max, 0)
            == Ok::<nat, ParseNumError>(v),
    decreases n,
{
    if n == 0 {
        assert(prefix + hex_digits_upper(v, n) =~= prefix);
    } else {
        let m = (n - 1) as nat;
        assert(v / 16 < pow16(m));
        lemma_hex_digits_upper_value(prefix, v / 16, m, max);
        assert(prefix + hex_digits_upper(v, n) =~= (prefix + hex_digits_upper(v / 16, m)).push(
            hex_char_upper(v % 16),
        ));
        lemma_hex_digits_upper_len(v / 16, m);
        crate::number::lemma_digits_value_push(
            prefix + hex_digits_upper(v / 16, m),
            hex_char_upper(v % 16),
            prefix.len() as int,
            16,
            max,
            0,
        );
        lemma_hex_char_upper_digit(v % 16);
    }
}

/// Every character of `hex_digits_upper` is a hexadecimal digit.
proof fn lemma_hex_digits_upper_chars(v: nat, n: nat, j: int)
    requires
        0 <= j < n,
    ensures
        digit_value(hex_digits_upper(v, n)[j], 16) is Some,
    decreases n,
{
    let m = (n - 1) as nat;
    lemma_hex_digits_upper_len(v / 16, m);
    if j < m {
        lemma_hex_digits_upper_chars(v / 16, m, j);
    } else {
        lemma_hex_char_upper_digit(v % 16);
    }
}

/// `parse_hex` reads `v` back from its digits in every form that
/// `format!` writes them: `{:#x}`-style `0x` and lowercase digits,
/// `0X` and uppercase digits, and bare lowercase digits.
pub proof fn law_parse_hex_reads_hex_forms(v: nat, n: nat)
    requires
        0 < n,
        v < pow16(n),
        v <= usize::MAX,
    ensures
        spec_parse_hex(hex_literal(v, n)) == Ok::<nat, ParseNumError>(v),
        spec_parse_hex(seq!['0', 'X'] + hex_digits_upper(v, n)) == Ok::<nat, ParseNumError>(v),
        spec_parse_hex(hex_digits(v, n)) == Ok::<nat, ParseNumError>(v),
{
    law_parse_hex_reads_dump_literal(v, n);
    let u = hex_digits_upper(v, n);
    lemma_hex_digits_upper_len(v, n);
    lemma_hex_digits_upper_value(seq!['0', 'X'], v, n, usize::MAX as nat);
    lemma_hex_digits_upper_chars(v, n, 0);
    assert((seq!['0', 'X'] + u)[2] == u[0]);
    let d = hex_digits(v, n);
    lemma_hex_digits_len(v, n);
    lemma_hex_digits_value(Seq::empty(), v, n, usize::MAX as nat);
    assert(Seq::<char>::empty() + d =~= d);
    lemma_hex_digits_chars(v, n, 0);
    if n >= 2 {
        lemma_hex_digits_chars(v, n, 1);
    }
}

/// Where the digits of an address begin: after a `0x` or `0X` prefix.
pub open spec fn hex_digits_at(s: Seq<char>) -> int {
    if has_hex_prefix(s) {
        2
    } else {
        0
    }
}

/// `parse_hex` reads a text exactly when, after an optional `0x` or `0X`,
/// it is an optional `+` and one or more hexadecimal digits whose value is
/// a `usize`, and then it reads that value.
pub proof fn law_parse_hex_characterised(s: Seq<char>)
    ensures
        spec_parse_hex(s) is Ok <==> well_formed_number(s, hex_digits_at(s), 16) && number_value(
            s,
            hex_digits_at(s),
            16,
        ) <= usize::MAX,
        spec_parse_hex(s) matches Ok(v) ==> v == number_value(s, hex_digits_at(s), 16),
{
    law_radix_value_characterised(s, hex_digits_at(s), 16, usize::MAX as nat);
}

// ---------------------------------------------------------------------------
// The shape of a dump
// ---------------------------------------------------------------------------

/// Division by `l` goes up by one exactly at each multiple of `l`.
proof fn lemma_div_step(x: int, l: int)
    requires
        0 <= x,
        0 < l,
    ensures
        (x + 1) / l == x / l + (if (x + 1) % l == 0 {
            1int
        } else {
            0int
        }),
        (x + 1) % l == 0 || (x + 1) % l == x % l + 1,
{
    let q = x / l;
    let r = x % l;
    vstd::arithmetic::div_mod::lemma_fundamental_div_mod(x, l);
    assert(x == q * l + r) by (nonlinear_arith)
        requires
            x == l * q + r,
    ;
    if r + 1 == l {
        assert(x + 1 == (q + 1) * l + 0) by (nonlinear_arith)
            requires
                x == q * l + r,
                r + 1 == l,
        ;
        vstd::arithmetic::div_mod::lemma_fundamental_div_mod_converse(x + 1, l, q + 1, 0);
    } else {
        vstd::arithmetic::div_mod::lemma_fundamental_div_mod_converse(x + 1, l, q, r + 1);
    }
}

proof fn lemma_hex_entry_len(v: nat, n: nat)
    ensures
        hex_entry(v, n).len() == n + 4,
{
    lemma_hex_digits_len(v, n);
}

/// The plain dump of `n >= 1` values of `size` bytes, `len_row >= 1` to a
/// line, is `n` entries of `2 * size + 4` characters each and one newline
/// between consecutive lines.
pub proof fn law_dump_text_len(vals: Seq<u64>, size: nat, len_row: nat)
    requires
        vals.len() >= 1,
        len_row >= 1,
    ensures
        dump_text(vals, size, len_row).len() == vals.len() * (2 * size + 4) + (vals.len() - 1)
            / (len_row as int),
    decreases vals.len(),
{
    let n = vals.len() as int;
    let l = len_row as int;
    lemma_hex_entry_len(vals[n - 1] as nat, 2 * size);
    let w = 2 * size + 4;
    assert(vals.len() * (2 * size + 4) == n * w);
    if n == 1 {
        assert(vals.drop_last().len() == 0);
        assert(0int / l == 0);
        assert(1 * w == w);
        assert(dump_text(vals.drop_last(), size, len_row).len() == 0);
        assert(!row_break(0, len_row));
        assert(dump_text(vals, size, len_row).len() == w);
    } else {
        law_dump_text_len(vals.drop_last(), size, len_row);
        lemma_div_step(n - 2, l);
        assert(row_break(n - 1, len_row) == ((n - 1) % l == 0));
        let prev = dump_text(vals.drop_last(), size, len_row);
        assert(prev.len() == (n - 1) * w + (n - 2) / l);
        assert((n - 1) * w + w == n * w) by (nonlinear_arith);
        assert(dump_text(vals, size, len_row).len() == prev.len() + (if row_break(n - 1, len_row) {
            1int
        } else {
            0int
        }) + w);
        assert(dump_text(vals, size, len_row).len() == n * w + (n - 1) / l);
    }
}

/// The entries of `bytes`, one after another.
pub open spec fn entries_text(bytes: Seq<u8>) -> Seq<char>
    decreases bytes.len(),
{
    if bytes.len() == 0 {
        Seq::empty()
    } else {
        entries_text(bytes.drop_last()) + hex_entry(bytes.last() as nat, 2)
    }
}

/// The byte dump line by line: each line of `len_row` bytes shows their
/// entries, and every line but the last then ends with the comment that
/// shows the same bytes as characters.
pub open spec fn chunked_u8_dump(bytes: Seq<u8>, len_row: nat) -> Seq<char>
    decreases bytes.len(),
{
    if len_row == 0 || bytes.len() <= len_row {
        entries_text(bytes)
    } else {
        entries_text(bytes.take(len_row as int)) + line_comment(bytes.take(len_row as int))
            + chunked_u8_dump(bytes.skip(len_row as int), len_row)
    }
}

proof fn lemma_u8_dump_short(bytes: Seq<u8>, len_row: nat)
    requires
        1 <= len_row,
        bytes.len() <= len_row,
    ensures
        u8_dump_text(bytes, len_row) == entries_text(bytes),
    decreases bytes.len(),
{
    if bytes.len() > 0 {
        let i = bytes.len() - 1;
        lemma_u8_dump_short(bytes.drop_last(), len_row);
        if i > 0 {
            vstd::arithmetic::div_mod::lemma_small_mod(i as nat, len_row);
        }
        assert(!row_break(i, len_row));
    }
}

/// A multiple `x` of `l` that is positive is at least `l`.
proof fn lemma_positive_multiple(x: int, l: int)
    requires
        0 < x,
        0 < l,
        x % l == 0,
    ensures
        x >= l,
{
    if x < l {
        vstd::arithmetic::div_mod::lemma_small_mod(x as nat, l as nat);
    }
}

/// `x - l` and `x` leave the same remainder by `l`.
proof fn lemma_mod_minus_divisor(x: int, l: int)
    requires
        l <= x,
        0 < l,
    ensures
        (x - l) % l == x % l,
{
    let y = x - l;
    let q = y / l;
    let r = y % l;
    vstd::arithmetic::div_mod::lemma_fundamental_div_mod(y, l);
    assert(x == (q + 1) * l + r) by (nonlinear_arith)
        requires
            y == l * q + r,
            x == y + l,
    ;
    vstd::arithmetic::div_mod::lemma_fundamental_div_mod_converse(x, l, q + 1, r);
}

proof fn lemma_u8_dump_split(bytes: Seq<u8>, len_row: nat, n: int)
    requires
        1 <= len_row,
        len_row < n <= bytes.len(),
    ensures
        u8_dump_text(bytes.take(n), len_row) == u8_dump_text(bytes.take(len_row as int), len_row)
            + line_comment(bytes.take(len_row as int)) + u8_dump_text(
            bytes.subrange(len_row as int, n),
            len_row,
        ),
    decreases n,
{
    let l = len_row as int;
    let rest = bytes.subrange(l, n);
    assert(bytes.take(n).drop_last() =~= bytes.take(n - 1));
    assert(rest.drop_last() =~= bytes.subrange(l, n - 1));
    if n == l + 1 {
        vstd::arithmetic::div_mod::lemma_fundamental_div_mod_converse(l, l, 1, 0);
        assert(row_break(l, len_row));
        assert(bytes.take(n).subrange(comment_start(l, len_row), l) =~= bytes.take(l));
        assert(bytes.subrange(l, l) =~= Seq::<u8>::empty());
        assert(!row_break(0, len_row));
        assert(rest.drop_last() =~= Seq::<u8>::empty());
        assert(rest[0] == bytes[l]);
        assert(u8_dump_text(rest.drop_last(), len_row) == Seq::<char>::empty());
        assert(u8_dump_text(rest, len_row) =~= hex_entry(bytes[l] as nat, 2));
    } else {
        lemma_u8_dump_split(bytes, len_row, n - 1);
        let i = n - 1;
        let j = i - l;
        lemma_mod_minus_divisor(i, l);
        assert(row_break(i, len_row) == row_break(j, len_row));
        if row_break(j, len_row) {
            lemma_positive_multiple(j, l);
            assert(bytes.take(n).subrange(comment_start(i, len_row), i) =~= rest.subrange(
                comment_start(j, len_row),
                j,
            ));
        }
        assert(rest[j] == bytes.take(n)[i]);
    }
}

/// The byte dump, `len_row >= 1` to a line, is its lines in order: the
/// entries of each group of `len_row` bytes, and after every line but the
/// last a comment showing that line's bytes as characters.
pub proof fn law_u8_dump_by_lines(bytes: Seq<u8>, len_row: nat)
    requires
        len_row >= 1,
    ensures
        u8_dump_text(bytes, len_row) == chunked_u8_dump(bytes, len_row),
    decreases bytes.len(),
{
    let l = len_row as int;
    if bytes.len() <= len_row {
        lemma_u8_dump_short(bytes, len_row);
    } else {
        lemma_u8_dump_split(bytes, len_row, bytes.len() as int);
        assert(bytes.take(bytes.len() as int) =~= bytes);
        assert(bytes.subrange(l, bytes.len() as int) =~= bytes.skip(l));
        lemma_u8_dump_short(bytes.take(l), len_row);
        law_u8_dump_by_lines(bytes.skip(l), len_row);
    }
}

proof fn lemma_entries_text_len(bytes: Seq<u8>)
    ensures
        entries_text(bytes).len() == 6 * bytes.len(),
    decreases bytes.len(),
{
    if bytes.len() > 0 {
        lemma_entries_text_len(bytes.drop_last());
        lemma_hex_entry_len(bytes.last() as nat, 2);
    }
}

/// The byte dump of `n >= 1` bytes, `len_row >= 1` to a line, has six
/// characters for each byte and, for each line but the last, a comment of
/// `len_row + 6` characters.
pub proof fn law_u8_dump_len(bytes: Seq<u8>, len_row: nat)
    requires
        bytes.len() >= 1,
        len_row >= 1,
    ensures
        u8_dump_text(bytes, len_row).len() == 6 * bytes.len() + ((bytes.len() - 1) / (
        len_row as int)) * (len_row + 6),
    decreases bytes.len(),
{
    law_u8_dump_by_lines(bytes, len_row);
    lemma_chunked_len(bytes, len_row);
}

proof fn lemma_chunked_len(bytes: Seq<u8>, len_row: nat)
    requires
        bytes.len() >= 1,
        len_row >= 1,
    ensures
        chunked_u8_dump(bytes, len_row).len() == 6 * bytes.len() + ((bytes.len() - 1) / (
        len_row as int)) * (len_row + 6),
    decreases bytes.len(),
{
    let n = bytes.len() as int;
    let l = len_row as int;
    if n <= l {
        lemma_entries_text_len(bytes);
        vstd::arithmetic::div_mod::lemma_fundamental_div_mod_converse(n - 1, l, 0, n - 1);
        assert(0 * (l + 6) == 0);
    } else {
        let rest = bytes.skip(l);
        lemma_chunked_len(rest, len_row);
        lemma_entries_text_len(bytes.take(l));
        assert(latin1(bytes.take(l)).len() == l);
        let q = (n - l - 1) / l;
        let r = (n - l - 1) % l;
        vstd::arithmetic::div_mod::lemma_fundamental_div_mod(n - l - 1, l);
        assert(n - 1 == (q + 1) * l + r) by (nonlinear_arith)
            requires
                n - l - 1 == l * q + r,
        ;
        vstd::arithmetic::div_mod::lemma_fundamental_div_mod_converse(n - 1, l, q + 1, r);
        assert(6 * l + (l + 6) + 6 * (n - l) + q * (l + 6) == 6 * n + (q + 1) * (l + 6))
            by (nonlinear_arith);
    }
}

/// Item `i` of a listing: the address of value `i` in sixteen hexadecimal
/// digits, `": "`, and the value in `2 * size` digits.
pub open spec fn listing_item(addr: nat, vals: Seq<u64>, size: nat, i: int) -> Seq<char> {
    hex_digits((addr + size * i) as nat, 16) + seq![':', ' '] + hex_digits(vals[i] as nat, 2 * size)
}

/// The width of one item of a listing of values of `size` bytes.
pub open spec fn listing_width(size: nat) -> int {
    (18 + 2 * size) as int
}

/// A listing is its items side by side, each `18 + 2 * size` characters
/// long, with nothing between them: item `i` stands at `i` times that width.
pub proof fn law_listing_items(addr: nat, vals: Seq<u64>, size: nat)
    ensures
        listing_text(addr, vals, size).len() == vals.len() * listing_width(size),
        forall|i: int|
            0 <= i < vals.len() ==> #[trigger] listing_text(addr, vals, size).subrange(
                i * listing_width(size),
                (i + 1) * listing_width(size),
            ) == listing_item(addr, vals, size, i),
    decreases vals.len(),
{
    let w = listing_width(size);
    if vals.len() > 0 {
        let n = vals.len() as int;
        let prev = vals.drop_last();
        law_listing_items(addr, prev, size);
        let t = listing_text(addr, vals, size);
        let pt = listing_text(addr, prev, size);
        lemma_hex_digits_len((addr + size * (n - 1)) as nat, 16);
        lemma_hex_digits_len(vals[n - 1] as nat, 2 * size);
        assert(pt.len() == (n - 1) * w);
        assert((n - 1) * w + w == n * w) by (nonlinear_arith);
        assert(t.len() == n * w);
        assert forall|i: int| 0 <= i < n implies #[trigger] t.subrange(i * w, (i + 1) * w)
            == listing_item(addr, vals, size, i) by {
            assert((i + 1) * w == i * w + w) by (nonlinear_arith);
            if i < n - 1 {
                assert((i + 1) * w <= (n - 1) * w) by (nonlinear_arith)
                    requires
                        i < n - 1,
                        w >= 0,
                ;
                assert(0 <= i * w) by (nonlinear_arith)
                    requires
                        0 <= i,
                        w >= 0,
                ;
                assert(t.subrange(i * w, (i + 1) * w) =~= pt.subrange(i * w, (i + 1) * w));
                assert(pt.subrange(i * w, (i + 1) * w) == listing_item(addr, prev, size, i));
                assert(listing_item(addr, prev, size, i) == listing_item(addr, vals, size, i));
            } else {
                assert(i * w == (n - 1) * w);
                assert(t.subrange(i * w, (i + 1) * w) =~= listing_item(addr, vals, size, i));
            }
        }
    }
}

/// Every character of `t` is ASCII.
pub open spec fn all_ascii(t: Seq<char>) -> bool {
    forall|i: int| 0 <= i < t.len() ==> (#[trigger] t[i] as u32) < 128
}

proof fn lemma_hex_digits_ascii(v: nat, n: nat)
    ensures
        all_ascii(hex_digits(v, n)),
    decreases n,
{
    if n > 0 {
        let m = (n - 1) as nat;
        lemma_hex_digits_ascii(v / 16, m);
        let t = hex_digits(v, n);
        let c = crate::hex::hex_char(v % 16);
        assert((c as u32) < 128);
        assert forall|i: int| 0 <= i < t.len() implies (#[trigger] t[i] as u32) < 128 by {
            if i < hex_digits(v / 16, m).len() {
                assert(t[i] == hex_digits(v / 16, m)[i]);
            }
        }
    }
}

proof fn lemma_concat_ascii(a: Seq<char>, b: Seq<char>)
    requires
        all_ascii(a),
        all_ascii(b),
    ensures
        all_ascii(a + b),
{
    assert forall|i: int| 0 <= i < (a + b).len() implies (#[trigger] (a + b)[i] as u32) < 128 by {
        if i < a.len() {
            assert((a + b)[i] == a[i]);
        } else {
            assert((a + b)[i] == b[i - a.len()]);
        }
    }
}

/// The plain dump is ASCII text.
pub proof fn law_dump_text_ascii(vals: Seq<u64>, size: nat, len_row: nat)
    ensures
        all_ascii(dump_text(vals, size, len_row)),
    decreases vals.len(),
{
    if vals.len() > 0 {
        let i = vals.len() - 1;
        law_dump_text_ascii(vals.drop_last(), size, len_row);
        lemma_hex_digits_ascii(vals[i] as nat, 2 * size);
        let nl: Seq<char> = if row_break(i, len_row) {
            seq!['\n']
        } else {
            Seq::empty()
        };
        assert(all_ascii(nl));
        assert(all_ascii(seq!['0', 'x']));
        assert(all_ascii(seq![',', ' ']));
        lemma_concat_ascii(seq!['0', 'x'], hex_digits(vals[i] as nat, 2 * size));
        lemma_concat_ascii(hex_literal(vals[i] as nat, 2 * size), seq![',', ' ']);
        lemma_concat_ascii(dump_text(vals.drop_last(), size, len_row), nl);
        lemma_concat_ascii(
            dump_text(vals.drop_last(), size, len_row) + nl,
            hex_entry(vals[i] as nat, 2 * size),
        );
    }
}

/// For elements of two, four or eight bytes, `main_dump` renders exactly
/// what `dump_mem` renders for the same values, size and row length.
pub proof fn law_main_dump_is_dump_mem(bytes: nat, vals: Seq<u64>, len_row: nat)
    requires
        bytes == 2 || bytes == 4 || bytes == 8,
    ensures
        main_dump_text(bytes, vals, len_row) == dump_text(vals, bytes, len_row),
{
}

/// For elements of two, four or eight bytes and `len_row >= 1`, the text of
/// `main_dump` for `n >= 1` values has `n` entries of `2 * bytes + 4`
/// characters and one newline after each `len_row` of them but the last
/// line: `(n - 1) / len_row` newlines in all.
pub proof fn law_main_dump_rows(bytes: nat, vals: Seq<u64>, len_row: nat)
    requires
        bytes == 2 || bytes == 4 || bytes == 8,
        vals.len() >= 1,
        len_row >= 1,
    ensures
        main_dump_text(bytes, vals, len_row).len() == vals.len() * (2 * bytes + 4) + (vals.len()
            - 1) / (len_row as int),
{
    law_main_dump_is_dump_mem(bytes, vals, len_row);
    law_dump_text_len(vals, bytes, len_row);
}

/// For single bytes, `main_dump` renders exactly what `dump_mem_u8`
/// renders for the same bytes and row length.
pub proof fn law_main_dump_single_bytes_is_dump_mem_u8(vals: Seq<u64>, len_row: nat)
    ensures
        main_dump_text(1, vals, len_row) == u8_dump_text(low_bytes(vals), len_row),
{
}

} // verus!
