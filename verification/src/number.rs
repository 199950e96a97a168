//! Reading unsigned integers written in a given radix, as the standard
//! library's `from_str_radix` does for unsigned types.
use vstd::prelude::*;

verus! {

/// Why a text is not an unsigned number (the kinds the standard library
/// reports for unsigned types).
#[derive(Debug, Clone, Copy, PartialEq, Eq, Structural)]
pub enum ParseNumError {
    /// The text is empty.
    Empty,
    /// A character is not a digit of the radix (a lone sign counts as one).
    InvalidDigit,
    /// The number does not fit in the target type.
    PosOverflow,
}

/// The value of `c` as a digit of `radix` (`0-9`, then `a-z` or `A-Z` for
/// 10 to 35), if it is one.
pub open spec fn digit_value(c: char, radix: nat) -> Option<nat> {
    let d: int = if '0' <= c && c <= '9' {
        c as int - '0' as int
    } else if 'a' <= c && c <= 'z' {
        c as int - 'a' as int + 10
    } else if 'A' <= c && c <= 'Z' {
        c as int - 'A' as int + 10
    } else {
        radix as int
    };
    if d < radix {
        Some(d as nat)
    } else {
        None
    }
}

/// Reads the digits `s[k..]` onto `acc`, from left to right: the first
/// character that is no digit gives `InvalidDigit`, the first digit that
/// takes the value above `max` gives `PosOverflow`.
pub open spec fn digits_value(s: Seq<char>, k: int, radix: nat, max: nat, acc: nat) -> Result<
    nat,
    ParseNumError,
>
    decreases s.len() - k,
{
    if k >= s.len() {
        Ok(acc)
    } else {
        match digit_value(s[k], radix) {
            None => Err(ParseNumError::InvalidDigit),
            Some(d) => if acc * radix + d > max {
                Err(ParseNumError::PosOverflow)
            } else {
                digits_value(s, k + 1, radix, max, acc * radix + d)
            },
        }
    }
}

/// The number that `s[p..]` writes in `radix`, for a target type whose
/// largest value is `max`: an optional `+`, then one or more digits.
pub open spec fn radix_value(s: Seq<char>, p: int, radix: nat, max: nat) -> Result<
    nat,
    ParseNumError,
> {
    if p >= s.len() {
        Err(ParseNumError::Empty)
    } else if p + 1 == s.len() && (s[p] == '+' || s[p] == '-') {
        Err(ParseNumError::InvalidDigit)
    } else if s[p] == '+' {
        digits_value(s, p + 1, radix, max, 0)
    } else {
        digits_value(s, p, radix, max, 0)
    }
}

/// The digit value of `c` in `radix`, if it is one.
pub fn to_digit(c: char, radix: u32) -> (r: Option<u32>)
    requires
        2 <= radix <= 36,
    ensures
        r matches Some(d) ==> digit_value(c, radix as nat) == Some(d as nat),
        r is None ==> digit_value(c, radix as nat) is None,
{
    let d: u32 = if '0' <= c && c <= '9' {
        (c as u32) - ('0' as u32)
    } else if 'a' <= c && c <= 'z' {
        (c as u32) - ('a' as u32) + 10
    } else if 'A' <= c && c <= 'Z' {
        (c as u32) - ('A' as u32) + 10
    } else {
        radix
    };
    if d < radix {
        Some(d)
    } else {
        None
    }
}

/// Reads `s[p..]` as a number in `radix` no greater than `max`, as
/// `from_str_radix` of the standard library does for an unsigned type whose
/// largest value is `max`.
pub fn from_str_radix(s: &Vec<char>, p: usize, radix: u32, max: u64) -> (r: Result<u64, ParseNumError>)
    requires
        2 <= radix <= 36,
        p <= s.len(),
    ensures
        match r {
            Ok(v) => radix_value(s@, p as int, radix as nat, max as nat) == Ok::<nat, ParseNumError>(v as nat),
            Err(e) => radix_value(s@, p as int, radix as nat, max as nat) == Err::<nat, ParseNumError>(e),
        },
        r matches Ok(v) ==> v <= max,
{
    let n = s.len();
    if p >= n {
        return Err(ParseNumError::Empty);
    }
    if p + 1 == n && (s[p] == '+' || s[p] == '-') {
        return Err(ParseNumError::InvalidDigit);
    }
    let mut k: usize = if s[p] == '+' { p + 1 } else { p };
    let mut acc: u64 = 0;
    while k < n
        invariant
            n == s.len(),
            p <= k <= n,
            2 <= radix <= 36,
            acc <= max,
            radix_value(s@, p as int, radix as nat, max as nat) == digits_value(
                s@,
                k as int,
                radix as nat,
                max as nat,
                acc as nat,
            ),
        decreases n - k,
    {
        match to_digit(s[k], radix) {
            None => {
                return Err(ParseNumError::InvalidDigit);
            },
            Some(d) => {
                assert((acc as u128) * (radix as u128) <= 0xffff_ffff_ffff_ffffu128 * 36) by (nonlinear_arith)
                    requires
                        acc <= 0xffff_ffff_ffff_ffffu64,
                        radix <= 36,
                ;
                let next: u128 = (acc as u128) * (radix as u128) + (d as u128);
                if next > max as u128 {
                    return Err(ParseNumError::PosOverflow);
                }
                acc = next as u64;
                k = k + 1;
            },
        }
    }
    Ok(acc)
}

/// Reading one more character continues from where the shorter text ended.
pub proof fn lemma_digits_value_push(
    s: Seq<char>,
    c: char,
    k: int,
    radix: nat,
    max: nat,
    acc: nat,
)
    requires
        0 <= k <= s.len(),
    ensures
        digits_value(s.push(c), k, radix, max, acc) == match digits_value(s, k, radix, max, acc) {
            Ok(a) => match digit_value(c, radix) {
                None => Err(ParseNumError::InvalidDigit),
                Some(d) => if a * radix + d > max {
                    Err(ParseNumError::PosOverflow)
                } else {
                    Ok(a * radix + d)
                },
            },
            Err(e) => Err(e),
        },
    decreases s.len() - k,
{
    assert(s.push(c)[k] == if k < s.len() { s[k] } else { c });
    if k < s.len() {
        match digit_value(s[k], radix) {
            None => {},
            Some(d) => {
                if acc * radix + d <= max {
                    lemma_digits_value_push(s, c, k + 1, radix, max, acc * radix + d);
                }
            },
        }
    } else {
        reveal_with_fuel(digits_value, 2);
    }
}

/// The value of a digit, or zero for a character that is none.
pub open spec fn digit_or_zero(c: char, radix: nat) -> nat {
    match digit_value(c, radix) {
        Some(d) => d,
        None => 0,
    }
}

/// The value of the digits `s[k..]` appended to `acc`, in `radix`.
pub open spec fn fold_digits(s: Seq<char>, k: int, radix: nat, acc: nat) -> nat
    decreases s.len() - k,
{
    if k < 0 || k >= s.len() {
        acc
    } else {
        fold_digits(s, k + 1, radix, acc * radix + digit_or_zero(s[k], radix))
    }
}

/// Every character of `s[k..]` is a digit of `radix`.
pub open spec fn all_digits(s: Seq<char>, k: int, radix: nat) -> bool {
    forall|i: int| k <= i < s.len() ==> (#[trigger] digit_value(s[i], radix)) is Some
}

/// Where the digits of a number written at `p` begin: after a `+`, if any.
pub open spec fn digits_start(s: Seq<char>, p: int) -> int {
    if 0 <= p < s.len() && s[p] == '+' {
        p + 1
    } else {
        p
    }
}

/// `s[p..]` is an optional `+` followed by one or more digits of `radix`.
pub open spec fn well_formed_number(s: Seq<char>, p: int, radix: nat) -> bool {
    0 <= p && digits_start(s, p) < s.len() && all_digits(s, digits_start(s, p), radix)
}

/// The number that the digits of `s[p..]` write in `radix`.
pub open spec fn number_value(s: Seq<char>, p: int, radix: nat) -> nat {
    fold_digits(s, digits_start(s, p), radix, 0)
}

proof fn lemma_fold_digits_grows(s: Seq<char>, k: int, radix: nat, acc: nat)
    requires
        radix >= 1,
    ensures
        fold_digits(s, k, radix, acc) >= acc,
    decreases s.len() - k,
{
    if 0 <= k < s.len() {
        assert(acc * radix >= acc) by (nonlinear_arith)
            requires
                radix >= 1,
        ;
        lemma_fold_digits_grows(s, k + 1, radix, acc * radix + digit_or_zero(s[k], radix));
    }
}

proof fn lemma_digits_value_all_digits(s: Seq<char>, k: int, radix: nat, max: nat, acc: nat)
    requires
        0 <= k,
        radix >= 1,
        acc <= max,
        all_digits(s, k, radix),
    ensures
        digits_value(s, k, radix, max, acc) == (if fold_digits(s, k, radix, acc) <= max {
            Ok::<nat, ParseNumError>(fold_digits(s, k, radix, acc))
        } else {
            Err(ParseNumError::PosOverflow)
        }),
    decreases s.len() - k,
{
    if k < s.len() {
        assert(digit_value(s[k], radix) is Some);
        let next = acc * radix + digit_or_zero(s[k], radix);
        lemma_fold_digits_grows(s, k + 1, radix, next);
        if next <= max {
            lemma_digits_value_all_digits(s, k + 1, radix, max, next);
        }
    }
}

proof fn lemma_digits_value_bad_digit(s: Seq<char>, k: int, radix: nat, max: nat, acc: nat)
    requires
        0 <= k,
        !all_digits(s, k, radix),
    ensures
        digits_value(s, k, radix, max, acc) is Err,
    decreases s.len() - k,
{
    if k < s.len() {
        if digit_value(s[k], radix) is Some {
            let next = acc * radix + digit_or_zero(s[k], radix);
            if next <= max {
                assert(!all_digits(s, k + 1, radix));
                lemma_digits_value_bad_digit(s, k + 1, radix, max, next);
            }
        }
    } else {
        assert(all_digits(s, k, radix));
    }
}

/// A text reads as a number exactly when it is an optional `+` followed by
/// one or more digits whose value fits, and it then reads as that value.
pub proof fn law_radix_value_characterised(s: Seq<char>, p: int, radix: nat, max: nat)
    requires
        0 <= p,
        2 <= radix <= 36,
    ensures
        radix_value(s, p, radix, max) is Ok <==> well_formed_number(s, p, radix)
            && number_value(s, p, radix) <= max,
        radix_value(s, p, radix, max) matches Ok(v) ==> v == number_value(s, p, radix),
{
    let k = digits_start(s, p);
    if p < s.len() {
        if p + 1 == s.len() && (s[p] == '+' || s[p] == '-') {
            if s[p] == '-' {
                assert(digit_value(s[p], radix) is None);
                assert(!all_digits(s, k, radix));
            }
        } else if all_digits(s, k, radix) {
            lemma_digits_value_all_digits(s, k, radix, max, 0);
        } else {
            lemma_digits_value_bad_digit(s, k, radix, max, 0);
        }
    }
}

} // verus!
