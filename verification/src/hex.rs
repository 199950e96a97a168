//! Fixed-width lowercase hexadecimal, as `format!("{:0w$x}", v)` writes it
//! for a value that fits in `w` digits.
use vstd::prelude::*;
use crate::text::push_char;

verus! {

/// `16` to the power `n`.
pub open spec fn pow16(n: nat) -> nat
    decreases n,
{
    if n == 0 {
        1
    } else {
        16 * pow16((n - 1) as nat)
    }
}

/// The lowercase hexadecimal digit of `d < 16`.
pub open spec fn hex_char(d: nat) -> char {
    if d < 10 {
        ((d + '0' as nat) as u8) as char
    } else {
        ((d - 10 + 'a' as nat) as u8) as char
    }
}

/// The uppercase hexadecimal digit of `d < 16`.
pub open spec fn hex_char_upper(d: nat) -> char {
    if d < 10 {
        ((d + '0' as nat) as u8) as char
    } else {
        ((d - 10 + 'A' as nat) as u8) as char
    }
}

/// The `n` low hexadecimal digits of `v` in uppercase, most significant
/// first, as `{:0nX}` writes them.
pub open spec fn hex_digits_upper(v: nat, n: nat) -> Seq<char>
    decreases n,
{
    if n == 0 {
        Seq::empty()
    } else {
        hex_digits_upper(v / 16, (n - 1) as nat).push(hex_char_upper(v % 16))
    }
}

/// The `n` low hexadecimal digits of `v`, most significant first.
pub open spec fn hex_digits(v: nat, n: nat) -> Seq<char>
    decreases n,
{
    if n == 0 {
        Seq::empty()
    } else {
        hex_digits(v / 16, (n - 1) as nat).push(hex_char(v % 16))
    }
}

pub proof fn lemma_hex_digits_len(v: nat, n: nat)
    ensures
        hex_digits(v, n).len() == n,
    decreases n,
{
    if n > 0 {
        lemma_hex_digits_len(v / 16, (n - 1) as nat);
    }
}

/// Every `u64` fits in sixteen hexadecimal digits.
pub proof fn lemma_u64_fits_16_digits(v: u64)
    ensures
        (v as nat) < pow16(16),
{
    reveal_with_fuel(pow16, 17);
    assert(pow16(16) == 0x1_0000_0000_0000_0000nat);
}

/// The lowercase hexadecimal digit of `d`.
pub fn hex_digit_char(d: u64) -> (c: char)
    requires
        d < 16,
    ensures
        c == hex_char(d as nat),
{
    if d < 10 {
        ((d as u8) + 48u8) as char
    } else {
        ((d as u8) + 87u8) as char
    }
}

/// Appends the `n` low hexadecimal digits of `v` to `s`, zero-padded.
pub fn push_hex(s: &mut String, v: u64, n: usize)
    requires
        (v as nat) < pow16(n as nat),
    ensures
        final(s)@ == old(s)@ + hex_digits(v as nat, n as nat),
    decreases n,
{
    if n == 0 {
        assert(old(s)@ + Seq::<char>::empty() =~= old(s)@);
        return;
    }
    assert(((v / 16) as nat) < pow16((n - 1) as nat)) by (nonlinear_arith)
        requires
            (v as nat) < 16 * pow16((n - 1) as nat),
    ;
    push_hex(s, v / 16, n - 1);
    push_char(s, hex_digit_char(v % 16));
    assert(s@ =~= old(s)@ + hex_digits(v as nat, n as nat));
}

/// A hexadecimal digit reads back as its value.
pub proof fn lemma_hex_char_digit(d: nat)
    requires
        d < 16,
    ensures
        crate::number::digit_value(hex_char(d), 16) == Some(d),
{
}

/// An uppercase hexadecimal digit reads back as its value.
pub proof fn lemma_hex_char_upper_digit(d: nat)
    requires
        d < 16,
    ensures
        crate::number::digit_value(hex_char_upper(d), 16) == Some(d),
{
}

pub proof fn lemma_hex_digits_upper_len(v: nat, n: nat)
    ensures
        hex_digits_upper(v, n).len() == n,
    decreases n,
{
    if n > 0 {
        lemma_hex_digits_upper_len(v / 16, (n - 1) as nat);
    }
}

} // verus!
