//! The command language: a leading character, then one or more calls such
//! as ` strlen ( "hello", 0x12, 34, true )`, each an identifier and a
//! parenthesised, comma-separated list of parameters.
//!
//! The grammar is stated as spec functions over the characters of the input
//! and positions in it; each executable function computes exactly what its
//! spec function states.
use vstd::prelude::*;
use crate::hex::{hex_digits, lemma_hex_digits_len, pow16};
use crate::mem_dump::{hex_literal, lemma_hex_digits_chars, lemma_hex_digits_value};
use crate::number::{digit_value, from_str_radix, radix_value, ParseNumError};
use crate::text::{chars_of, push_char, string_of};

verus! {

/// A parameter of a call.
#[derive(Debug, PartialEq, Clone)]
pub enum ParamValue {
    /// An empty parameter: nothing, or only spaces, between the separators.
    Null,
    /// A double-quoted string, as written between its quotes (escapes kept).
    Str(String),
    /// `true` or `false`.
    Boolean(bool),
    /// A decimal or `0x`/`0X` hexadecimal number that fits in a `u32`.
    Num(u32),
}

/// What a parameter holds, in mathematical terms.
pub enum ParamView {
    Null,
    Str(Seq<char>),
    Boolean(bool),
    Num(u32),
}

impl View for ParamValue {
    type V = ParamView;

    open spec fn view(&self) -> ParamView {
        match self {
            ParamValue::Null => ParamView::Null,
            ParamValue::Str(s) => ParamView::Str(s@),
            ParamValue::Boolean(b) => ParamView::Boolean(*b),
            ParamValue::Num(n) => ParamView::Num(*n),
        }
    }
}

/// How a parse went wrong, with the position (in characters) at which the
/// innermost parser failed: `Error` lets an enclosing choice try something
/// else; `Failure` (after an opening `(` or `"`) ends the whole parse.
#[derive(Debug, Clone, Copy, PartialEq, Eq, Structural)]
pub enum ParseErr {
    Error(usize),
    Failure(usize),
}

// ---------------------------------------------------------------------------
// Character classes and scanners
// ---------------------------------------------------------------------------

/// Space, tab, carriage return or line feed.
pub open spec fn is_multispace(c: char) -> bool {
    c == ' ' || c == '\t' || c == '\r' || c == '\n'
}

pub open spec fn is_ascii_alpha(c: char) -> bool {
    ('a' <= c && c <= 'z') || ('A' <= c && c <= 'Z')
}

pub open spec fn is_ascii_digit(c: char) -> bool {
    '0' <= c && c <= '9'
}

pub open spec fn is_hex_digit(c: char) -> bool {
    is_ascii_digit(c) || ('a' <= c && c <= 'f') || ('A' <= c && c <= 'F')
}

/// A character that may begin an identifier.
pub open spec fn is_ident_start(c: char) -> bool {
    is_ascii_alpha(c) || c == '_'
}

/// A character that may continue an identifier.
pub open spec fn is_ident_char(c: char) -> bool {
    is_ascii_alpha(c) || is_ascii_digit(c) || c == '_'
}

/// A character of the body of a hexadecimal number.
pub open spec fn is_hex_body_char(c: char) -> bool {
    is_hex_digit(c) || c == '_'
}

/// The first position at or after `p` that holds no space (or the end).
pub open spec fn spec_skip_space(s: Seq<char>, p: int) -> int
    decreases s.len() - p,
{
    if 0 <= p < s.len() && is_multispace(s[p]) {
        spec_skip_space(s, p + 1)
    } else {
        p
    }
}

/// The first position at or after `p` that holds no identifier character.
pub open spec fn spec_scan_ident(s: Seq<char>, p: int) -> int
    decreases s.len() - p,
{
    if 0 <= p < s.len() && is_ident_char(s[p]) {
        spec_scan_ident(s, p + 1)
    } else {
        p
    }
}

/// The first position at or after `p` that holds no decimal digit.
pub open spec fn spec_scan_digits(s: Seq<char>, p: int) -> int
    decreases s.len() - p,
{
    if 0 <= p < s.len() && is_ascii_digit(s[p]) {
        spec_scan_digits(s, p + 1)
    } else {
        p
    }
}

/// The first position at or after `p` that holds neither a hexadecimal
/// digit nor `_`.
pub open spec fn spec_scan_hex_body(s: Seq<char>, p: int) -> int
    decreases s.len() - p,
{
    if 0 <= p < s.len() && is_hex_body_char(s[p]) {
        spec_scan_hex_body(s, p + 1)
    } else {
        p
    }
}

// ---------------------------------------------------------------------------
// The grammar
// ---------------------------------------------------------------------------

/// The end of the body of a string that starts at `start`, scanned from
/// `q`: it stops before the first `"` that no `\` escapes, runs to the end
/// of the input if there is none, and fails on an empty body or on a `\`
/// that is the last character.
pub open spec fn spec_string_body(s: Seq<char>, start: int, q: int) -> Option<int>
    decreases s.len() - q,
{
    if q < 0 || q >= s.len() {
        Some(s.len() as int)
    } else if s[q] == '"' {
        if q == start {
            None
        } else {
            Some(q)
        }
    } else if s[q] == '\\' {
        if q + 1 < s.len() {
            spec_string_body(s, start, q + 2)
        } else {
            None
        }
    } else {
        spec_string_body(s, start, q + 1)
    }
}

/// A double-quoted string at `p`; once the opening quote is seen, any fault
/// is a `Failure`.
pub open spec fn spec_string(s: Seq<char>, p: int) -> Result<(int, ParamView), ParseErr> {
    if 0 <= p < s.len() && s[p] == '"' {
        match spec_string_body(s, p + 1, p + 1) {
            None => Err(ParseErr::Failure((p + 1) as usize)),
            Some(e) => if e < s.len() && s[e] == '"' {
                Ok((e + 1, ParamView::Str(s.subrange(p + 1, e))))
            } else {
                Err(ParseErr::Failure(e as usize))
            },
        }
    } else {
        Err(ParseErr::Error(p as usize))
    }
}

/// The characters of `t` other than `_`.
pub open spec fn without_underscores(t: Seq<char>) -> Seq<char> {
    t.filter(|c: char| c != '_')
}

/// `0x` or `0X`, a hexadecimal digit, then hexadecimal digits and `_`s;
/// the digits must make a `u32`.
pub open spec fn spec_hex_u32(s: Seq<char>, p: int) -> Option<(int, ParamView)> {
    if 0 <= p && p + 2 < s.len() && s[p] == '0' && (s[p + 1] == 'x' || s[p + 1] == 'X')
        && is_hex_digit(s[p + 2]) {
        let e = spec_scan_hex_body(s, p + 3);
        match radix_value(without_underscores(s.subrange(p + 2, e)), 0, 16, u32::MAX as nat) {
            Ok(v) => Some((e, ParamView::Num(v as u32))),
            Err(_) => None,
        }
    } else {
        None
    }
}

/// One or more decimal digits that make a `u32`.
pub open spec fn spec_dec_u32(s: Seq<char>, p: int) -> Option<(int, ParamView)> {
    if 0 <= p < s.len() && is_ascii_digit(s[p]) {
        let e = spec_scan_digits(s, p + 1);
        match radix_value(s.subrange(p, e), 0, 10, u32::MAX as nat) {
            Ok(v) => Some((e, ParamView::Num(v as u32))),
            Err(_) => None,
        }
    } else {
        None
    }
}

/// `true` or `false`.
pub open spec fn spec_boolean(s: Seq<char>, p: int) -> Option<(int, ParamView)> {
    if 0 <= p && p + 4 <= s.len() && s.subrange(p, p + 4) == seq!['t', 'r', 'u', 'e'] {
        Some((p + 4, ParamView::Boolean(true)))
    } else if 0 <= p && p + 5 <= s.len() && s.subrange(p, p + 5) == seq![
        'f',
        'a',
        'l',
        's',
        'e',
    ] {
        Some((p + 5, ParamView::Boolean(false)))
    } else {
        None
    }
}

/// A parameter after optional spaces: the first of a string, a hexadecimal
/// number, a decimal number and a boolean that reads there; if none does,
/// an empty parameter that reads nothing.
pub open spec fn spec_param_value(s: Seq<char>, p: int) -> Result<(int, ParamView), ParseErr> {
    let q = spec_skip_space(s, p);
    match spec_string(s, q) {
        Ok(r) => Ok(r),
        Err(ParseErr::Failure(x)) => Err(ParseErr::Failure(x)),
        Err(ParseErr::Error(_)) => match spec_hex_u32(s, q) {
            Some(r) => Ok(r),
            None => match spec_dec_u32(s, q) {
                Some(r) => Ok(r),
                None => match spec_boolean(s, q) {
                    Some(r) => Ok(r),
                    None => Ok((q, ParamView::Null)),
                },
            },
        },
    }
}

/// The parameters that follow a first one, from `i`: as long as a comma
/// (after optional spaces) comes next, the parameter after it.
pub open spec fn spec_param_tail(s: Seq<char>, i: int) -> Result<(int, Seq<ParamView>), ParseErr>
    decreases s.len() - i,
{
    let q = spec_skip_space(s, i);
    if 0 <= i && q < s.len() && s[q] == ',' {
        match spec_param_value(s, q + 1) {
            Err(e) => Err(e),
            Ok((i2, v)) => {
                proof {
                    lemma_skip_space_bounds(s, i);
                    lemma_param_value_bounds(s, q + 1);
                }
                match spec_param_tail(s, i2) {
                    Err(e) => Err(e),
                    Ok((e, vs)) => Ok((e, seq![v] + vs)),
                }
            },
        }
    } else {
        Ok((i, Seq::empty()))
    }
}

/// A comma-separated list of parameters.
pub open spec fn spec_param_list(s: Seq<char>, p: int) -> Result<(int, Seq<ParamView>), ParseErr> {
    match spec_param_value(s, p) {
        Err(e) => Err(e),
        Ok((p1, v)) => match spec_param_tail(s, p1) {
            Err(e) => Err(e),
            Ok((e, vs)) => Ok((e, seq![v] + vs)),
        },
    }
}

/// `(`, the parameter list, then `)` after optional spaces; once the `(` is
/// seen, any fault is a `Failure`.
pub open spec fn spec_param(s: Seq<char>, p: int) -> Result<(int, Seq<ParamView>), ParseErr> {
    if 0 <= p < s.len() && s[p] == '(' {
        match spec_param_list(s, p + 1) {
            Err(ParseErr::Error(x)) => Err(ParseErr::Failure(x)),
            Err(ParseErr::Failure(x)) => Err(ParseErr::Failure(x)),
            Ok((e, vs)) => {
                let q = spec_skip_space(s, e);
                if q < s.len() && s[q] == ')' {
                    Ok((q + 1, vs))
                } else {
                    Err(ParseErr::Failure(q as usize))
                }
            },
        }
    } else {
        Err(ParseErr::Error(p as usize))
    }
}

/// A call: one or more spaces, an identifier, optional spaces, then its
/// parameters in parentheses.
pub open spec fn spec_func(s: Seq<char>, p: int) -> Result<(int, (Seq<char>, Seq<ParamView>)), ParseErr> {
    let q = spec_skip_space(s, p);
    if !(0 <= p && q > p) {
        Err(ParseErr::Error(p as usize))
    } else if q < s.len() && is_ident_start(s[q]) {
        let r = spec_scan_ident(s, q + 1);
        match spec_param(s, spec_skip_space(s, r)) {
            Err(e) => Err(e),
            Ok((e, vs)) => Ok((e, (s.subrange(q, r), vs))),
        }
    } else {
        Err(ParseErr::Error(q as usize))
    }
}

/// The calls that follow, from `i`, until one does not read.
pub open spec fn spec_func_tail(s: Seq<char>, i: int) -> Result<
    (int, Seq<(Seq<char>, Seq<ParamView>)>),
    ParseErr,
>
    decreases s.len() - i,
{
    match spec_func(s, i) {
        Err(ParseErr::Error(_)) => Ok((i, Seq::empty())),
        Err(ParseErr::Failure(x)) => Err(ParseErr::Failure(x)),
        Ok((e, c)) => {
            proof {
                lemma_func_bounds(s, i);
            }
            match spec_func_tail(s, e) {
                Err(x) => Err(x),
                Ok((f, cs)) => Ok((f, seq![c] + cs)),
            }
        },
    }
}

/// A command: any one character, then one or more calls. On success, the
/// position where the calls end and the calls read.
pub open spec fn spec_command(s: Seq<char>) -> Result<(int, Seq<(Seq<char>, Seq<ParamView>)>), ParseErr> {
    if s.len() == 0 {
        Err(ParseErr::Error(0))
    } else {
        match spec_func(s, 1) {
            Err(x) => Err(x),
            Ok((e, c)) => match spec_func_tail(s, e) {
                Err(x) => Err(x),
                Ok((f, cs)) => Ok((f, seq![c] + cs)),
            },
        }
    }
}

// ---------------------------------------------------------------------------
// Positions only move forward
// ---------------------------------------------------------------------------

pub proof fn lemma_skip_space_bounds(s: Seq<char>, p: int)
    ensures
        p <= spec_skip_space(s, p),
        0 <= p <= s.len() ==> spec_skip_space(s, p) <= s.len(),
    decreases s.len() - p,
{
    if 0 <= p < s.len() && is_multispace(s[p]) {
        lemma_skip_space_bounds(s, p + 1);
    }
}

pub proof fn lemma_scan_ident_bounds(s: Seq<char>, p: int)
    ensures
        p <= spec_scan_ident(s, p),
        0 <= p <= s.len() ==> spec_scan_ident(s, p) <= s.len(),
    decreases s.len() - p,
{
    if 0 <= p < s.len() && is_ident_char(s[p]) {
        lemma_scan_ident_bounds(s, p + 1);
    }
}

pub proof fn lemma_scan_digits_bounds(s: Seq<char>, p: int)
    ensures
        p <= spec_scan_digits(s, p),
        0 <= p <= s.len() ==> spec_scan_digits(s, p) <= s.len(),
    decreases s.len() - p,
{
    if 0 <= p < s.len() && is_ascii_digit(s[p]) {
        lemma_scan_digits_bounds(s, p + 1);
    }
}

pub proof fn lemma_scan_hex_body_bounds(s: Seq<char>, p: int)
    ensures
        p <= spec_scan_hex_body(s, p),
        0 <= p <= s.len() ==> spec_scan_hex_body(s, p) <= s.len(),
    decreases s.len() - p,
{
    if 0 <= p < s.len() && is_hex_body_char(s[p]) {
        lemma_scan_hex_body_bounds(s, p + 1);
    }
}

pub proof fn lemma_string_body_bounds(s: Seq<char>, start: int, q: int)
    requires
        0 <= q <= s.len(),
    ensures
        spec_string_body(s, start, q) matches Some(e) ==> q <= e <= s.len(),
    decreases s.len() - q,
{
    if q < s.len() && s[q] != '"' {
        if s[q] == '\\' {
            if q + 1 < s.len() {
                lemma_string_body_bounds(s, start, q + 2);
            }
        } else {
            lemma_string_body_bounds(s, start, q + 1);
        }
    }
}

pub proof fn lemma_param_value_bounds(s: Seq<char>, p: int)
    ensures
        spec_param_value(s, p) matches Ok((e, _)) ==> p <= e && (0 <= p <= s.len() ==> e
            <= s.len()),
{
    let q = spec_skip_space(s, p);
    lemma_skip_space_bounds(s, p);
    if 0 <= q < s.len() && s[q] == '"' {
        lemma_string_body_bounds(s, q + 1, q + 1);
    }
    if 0 <= q && q + 2 < s.len() {
        lemma_scan_hex_body_bounds(s, q + 3);
    }
    if 0 <= q < s.len() {
        lemma_scan_digits_bounds(s, q + 1);
    }
}

pub proof fn lemma_param_tail_bounds(s: Seq<char>, i: int)
    ensures
        spec_param_tail(s, i) matches Ok((e, _)) ==> i <= e && (0 <= i <= s.len() ==> e
            <= s.len()),
    decreases s.len() - i,
{
    let q = spec_skip_space(s, i);
    lemma_skip_space_bounds(s, i);
    if 0 <= i && q < s.len() && s[q] == ',' {
        lemma_param_value_bounds(s, q + 1);
        if let Ok((i2, v)) = spec_param_value(s, q + 1) {
            lemma_param_tail_bounds(s, i2);
        }
    }
}

pub proof fn lemma_param_bounds(s: Seq<char>, p: int)
    ensures
        spec_param(s, p) matches Ok((e, _)) ==> p < e && (0 <= p <= s.len() ==> e <= s.len()),
{
    if 0 <= p < s.len() && s[p] == '(' {
        lemma_param_value_bounds(s, p + 1);
        if let Ok((p1, v)) = spec_param_value(s, p + 1) {
            lemma_param_tail_bounds(s, p1);
            if let Ok((e, vs)) = spec_param_tail(s, p1) {
                lemma_skip_space_bounds(s, e);
            }
        }
    }
}

pub proof fn lemma_func_bounds(s: Seq<char>, p: int)
    ensures
        spec_func(s, p) matches Ok((e, _)) ==> p < e && (0 <= p <= s.len() ==> e <= s.len()),
{
    let q = spec_skip_space(s, p);
    lemma_skip_space_bounds(s, p);
    if 0 <= p && q > p && q < s.len() && is_ident_start(s[q]) {
        let r = spec_scan_ident(s, q + 1);
        lemma_scan_ident_bounds(s, q + 1);
        lemma_skip_space_bounds(s, r);
        lemma_param_bounds(s, spec_skip_space(s, r));
    }
}

// ---------------------------------------------------------------------------
// Views of results
// ---------------------------------------------------------------------------

/// The views of a list of parameters.
pub open spec fn params_view(v: Seq<ParamValue>) -> Seq<ParamView> {
    v.map_values(|x: ParamValue| x@)
}

/// The view of a call: its name and its parameters.
pub open spec fn call_view(c: (String, Vec<ParamValue>)) -> (Seq<char>, Seq<ParamView>) {
    (c.0@, params_view(c.1@))
}

/// The views of a list of calls.
pub open spec fn calls_view(v: Seq<(String, Vec<ParamValue>)>) -> Seq<(Seq<char>, Seq<ParamView>)> {
    v.map_values(|c: (String, Vec<ParamValue>)| call_view(c))
}

pub open spec fn value_result_view(r: Result<(usize, ParamValue), ParseErr>) -> Result<
    (int, ParamView),
    ParseErr,
> {
    match r {
        Ok((e, v)) => Ok((e as int, v@)),
        Err(x) => Err(x),
    }
}

pub open spec fn value_option_view(r: Option<(usize, ParamValue)>) -> Option<(int, ParamView)> {
    match r {
        Some((e, v)) => Some((e as int, v@)),
        None => None,
    }
}

pub open spec fn list_result_view(r: Result<(usize, Vec<ParamValue>), ParseErr>) -> Result<
    (int, Seq<ParamView>),
    ParseErr,
> {
    match r {
        Ok((e, v)) => Ok((e as int, params_view(v@))),
        Err(x) => Err(x),
    }
}

pub open spec fn func_result_view(r: Result<(usize, (String, Vec<ParamValue>)), ParseErr>) -> Result<
    (int, (Seq<char>, Seq<ParamView>)),
    ParseErr,
> {
    match r {
        Ok((e, c)) => Ok((e as int, call_view(c))),
        Err(x) => Err(x),
    }
}

/// `r` with `pre` put before the items it holds.
pub open spec fn prepend_items<T>(pre: Seq<T>, r: Result<(int, Seq<T>), ParseErr>) -> Result<
    (int, Seq<T>),
    ParseErr,
> {
    match r {
        Ok((e, vs)) => Ok((e, pre + vs)),
        Err(x) => Err(x),
    }
}

// ---------------------------------------------------------------------------
// Executable scanners
// ---------------------------------------------------------------------------

fn char_is_multispace(c: char) -> (b: bool)
    ensures
        b == is_multispace(c),
{
    c == ' ' || c == '\t' || c == '\r' || c == '\n'
}

fn char_is_digit(c: char) -> (b: bool)
    ensures
        b == is_ascii_digit(c),
{
    '0' <= c && c <= '9'
}

fn char_is_hex_digit(c: char) -> (b: bool)
    ensures
        b == is_hex_digit(c),
{
    ('0' <= c && c <= '9') || ('a' <= c && c <= 'f') || ('A' <= c && c <= 'F')
}

fn char_is_ident_start(c: char) -> (b: bool)
    ensures
        b == is_ident_start(c),
{
    ('a' <= c && c <= 'z') || ('A' <= c && c <= 'Z') || c == '_'
}

fn char_is_ident(c: char) -> (b: bool)
    ensures
        b == is_ident_char(c),
{
    ('a' <= c && c <= 'z') || ('A' <= c && c <= 'Z') || ('0' <= c && c <= '9') || c == '_'
}

/// Skips spaces, tabs, carriage returns and line feeds from `p`.
pub fn skip_space(s: &Vec<char>, p: usize) -> (r: usize)
    requires
        p <= s.len(),
    ensures
        r == spec_skip_space(s@, p as int),
        p <= r <= s.len(),
{
    let mut k = p;
    while k < s.len() && char_is_multispace(s[k])
        invariant
            p <= k <= s.len(),
            spec_skip_space(s@, p as int) == spec_skip_space(s@, k as int),
        decreases s.len() - k,
    {
        k = k + 1;
    }
    k
}

fn scan_ident(s: &Vec<char>, p: usize) -> (r: usize)
    requires
        p <= s.len(),
    ensures
        r == spec_scan_ident(s@, p as int),
        p <= r <= s.len(),
{
    let mut k = p;
    while k < s.len() && char_is_ident(s[k])
        invariant
            p <= k <= s.len(),
            spec_scan_ident(s@, p as int) == spec_scan_ident(s@, k as int),
        decreases s.len() - k,
    {
        k = k + 1;
    }
    k
}

fn scan_digits(s: &Vec<char>, p: usize) -> (r: usize)
    requires
        p <= s.len(),
    ensures
        r == spec_scan_digits(s@, p as int),
        p <= r <= s.len(),
{
    let mut k = p;
    while k < s.len() && char_is_digit(s[k])
        invariant
            p <= k <= s.len(),
            spec_scan_digits(s@, p as int) == spec_scan_digits(s@, k as int),
        decreases s.len() - k,
    {
        k = k + 1;
    }
    k
}

fn scan_hex_body(s: &Vec<char>, p: usize) -> (r: usize)
    requires
        p <= s.len(),
    ensures
        r == spec_scan_hex_body(s@, p as int),
        p <= r <= s.len(),
{
    let mut k = p;
    while k < s.len() && (char_is_hex_digit(s[k]) || s[k] == '_')
        invariant
            p <= k <= s.len(),
            spec_scan_hex_body(s@, p as int) == spec_scan_hex_body(s@, k as int),
        decreases s.len() - k,
    {
        k = k + 1;
    }
    k
}

// ---------------------------------------------------------------------------
// Executable grammar
// ---------------------------------------------------------------------------

/// The character that an escape letter stands for.
pub open spec fn unescaped(c: char) -> char {
    if c == 'b' {
        '\x08'
    } else if c == 'f' {
        '\x0C'
    } else if c == 'n' {
        '\n'
    } else if c == 'r' {
        '\r'
    } else if c == 't' {
        '\t'
    } else {
        c
    }
}

/// One character of a string body at `q`, with escapes decoded: `None` at
/// the end of the text, on a `"`, and on a `\` with nothing after it.
pub fn character(s: &Vec<char>, q: usize) -> (r: Option<(usize, char)>)
    requires
        q <= s.len(),
    ensures
        q == s.len() ==> r is None,
        q < s.len() && s[q as int] == '"' ==> r is None,
        q < s.len() && s[q as int] == '\\' ==> (if q + 1 < s.len() {
            r == Some(((q + 2) as usize, unescaped(s[q + 1])))
        } else {
            r is None
        }),
        q < s.len() && s[q as int] != '"' && s[q as int] != '\\' ==> r == Some(((q + 1) as usize, s[q as int])),
{
    if q == s.len() {
        return None;
    }
    let c = s[q];
    if c == '"' {
        None
    } else if c == '\\' {
        if s.len() - q > 1 {
            let e = s[q + 1];
            let d = if e == 'b' {
                '\x08'
            } else if e == 'f' {
                '\x0C'
            } else if e == 'n' {
                '\n'
            } else if e == 'r' {
                '\r'
            } else if e == 't' {
                '\t'
            } else {
                e
            };
            Some((q + 2, d))
        } else {
            None
        }
    } else {
        Some((q + 1, c))
    }
}

/// The end of a string body that starts at `start`.
pub fn parse_str(s: &Vec<char>, start: usize) -> (r: Option<usize>)
    requires
        start <= s.len(),
    ensures
        match r {
            Some(e) => spec_string_body(s@, start as int, start as int) == Some(e as int),
            None => spec_string_body(s@, start as int, start as int) is None,
        },
{
    let mut q = start;
    loop
        invariant
            start <= q <= s.len(),
            spec_string_body(s@, start as int, start as int) == spec_string_body(
                s@,
                start as int,
                q as int,
            ),
        decreases s.len() - q,
    {
        if q >= s.len() {
            return Some(s.len());
        }
        match character(s, q) {
            Some((q2, _)) => {
                q = q2;
            },
            None => {
                if s[q] == '"' && q != start {
                    return Some(q);
                }
                return None;
            },
        }
    }
}

/// A double-quoted string at `p`.
pub fn string(s: &Vec<char>, p: usize) -> (r: Result<(usize, ParamValue), ParseErr>)
    requires
        p <= s.len(),
    ensures
        value_result_view(r) == spec_string(s@, p as int),
        r matches Ok((e, _)) ==> p < e <= s.len(),
{
    if p < s.len() && s[p] == '"' {
        proof {
            lemma_string_body_bounds(s@, p + 1, p + 1);
        }
        match parse_str(s, p + 1) {
            None => Err(ParseErr::Failure(p + 1)),
            Some(e) => {
                if e < s.len() && s[e] == '"' {
                    Ok((e + 1, ParamValue::Str(string_of(s, p + 1, e))))
                } else {
                    Err(ParseErr::Failure(e))
                }
            },
        }
    } else {
        Err(ParseErr::Error(p))
    }
}

proof fn lemma_without_underscores_push(t: Seq<char>, c: char)
    ensures
        without_underscores(t.push(c)) == if c != '_' {
            without_underscores(t).push(c)
        } else {
            without_underscores(t)
        },
{
    reveal(Seq::filter);
    assert(t.push(c).drop_last() =~= t);
}

/// The characters `s[from..to]`, leaving out every `_` if `skip_underscores`.
fn copy_chars(s: &Vec<char>, from: usize, to: usize, skip_underscores: bool) -> (v: Vec<char>)
    requires
        from <= to <= s.len(),
    ensures
        skip_underscores ==> v@ == without_underscores(s@.subrange(from as int, to as int)),
        !skip_underscores ==> v@ == s@.subrange(from as int, to as int),
{
    let mut v: Vec<char> = Vec::new();
    let mut k = from;
    proof {
        reveal(Seq::filter);
        assert(s@.subrange(from as int, from as int) =~= Seq::<char>::empty());
    }
    while k < to
        invariant
            from <= k <= to <= s.len(),
            skip_underscores ==> v@ == without_underscores(s@.subrange(from as int, k as int)),
            !skip_underscores ==> v@ == s@.subrange(from as int, k as int),
        decreases to - k,
    {
        proof {
            assert(s@.subrange(from as int, k + 1) =~= s@.subrange(from as int, k as int).push(
                s@[k as int],
            ));
            lemma_without_underscores_push(s@.subrange(from as int, k as int), s@[k as int]);
        }
        if !(skip_underscores && s[k] == '_') {
            v.push(s[k]);
        }
        k = k + 1;
    }
    v
}

/// A `0x` or `0X` hexadecimal number at `p` that fits in a `u32`.
pub fn hex_u32(s: &Vec<char>, p: usize) -> (r: Option<(usize, ParamValue)>)
    requires
        p <= s.len(),
    ensures
        value_option_view(r) == spec_hex_u32(s@, p as int),
        r matches Some((e, _)) ==> p < e <= s.len(),
{
    if s.len() - p > 2 && s[p] == '0' && (s[p + 1] == 'x' || s[p + 1] == 'X') && char_is_hex_digit(
        s[p + 2],
    ) {
        let e = scan_hex_body(s, p + 3);
        let digits = copy_chars(s, p + 2, e, true);
        match from_str_radix(&digits, 0, 16, 0xffff_ffffu64) {
            Ok(v) => Some((e, ParamValue::Num(v as u32))),
            Err(_) => None,
        }
    } else {
        None
    }
}

/// A decimal number at `p` that fits in a `u32`.
pub fn dec_u32(s: &Vec<char>, p: usize) -> (r: Option<(usize, ParamValue)>)
    requires
        p <= s.len(),
    ensures
        value_option_view(r) == spec_dec_u32(s@, p as int),
        r matches Some((e, _)) ==> p < e <= s.len(),
{
    if p < s.len() && char_is_digit(s[p]) {
        let e = scan_digits(s, p + 1);
        let digits = copy_chars(s, p, e, false);
        match from_str_radix(&digits, 0, 10, 0xffff_ffffu64) {
            Ok(v) => Some((e, ParamValue::Num(v as u32))),
            Err(_) => None,
        }
    } else {
        None
    }
}

/// `true` or `false` at `p`.
pub fn boolean(s: &Vec<char>, p: usize) -> (r: Option<(usize, ParamValue)>)
    requires
        p <= s.len(),
    ensures
        value_option_view(r) == spec_boolean(s@, p as int),
        r matches Some((e, _)) ==> p < e <= s.len(),
{
    let n = s.len() - p;
    if n >= 4 && s[p] == 't' && s[p + 1] == 'r' && s[p + 2] == 'u' && s[p + 3] == 'e' {
        assert(s@.subrange(p as int, p + 4) =~= seq!['t', 'r', 'u', 'e']);
        Some((p + 4, ParamValue::Boolean(true)))
    } else if n >= 5 && s[p] == 'f' && s[p + 1] == 'a' && s[p + 2] == 'l' && s[p + 3] == 's' && s[p
        + 4] == 'e' {
        assert(s@.subrange(p as int, p + 5) =~= seq!['f', 'a', 'l', 's', 'e']);
        proof {
            if n >= 4 {
                assert(s@.subrange(p as int, p + 4)[0] == 'f');
            }
        }
        Some((p + 5, ParamValue::Boolean(false)))
    } else {
        proof {
            if n >= 4 && s@.subrange(p as int, p + 4) == seq!['t', 'r', 'u', 'e'] {
                assert(s@.subrange(p as int, p + 4)[0] == s@[p as int]);
                assert(s@.subrange(p as int, p + 4)[1] == s@[p + 1]);
                assert(s@.subrange(p as int, p + 4)[2] == s@[p + 2]);
                assert(s@.subrange(p as int, p + 4)[3] == s@[p + 3]);
            }
            if n >= 5 && s@.subrange(p as int, p + 5) == seq!['f', 'a', 'l', 's', 'e'] {
                assert(s@.subrange(p as int, p + 5)[0] == s@[p as int]);
                assert(s@.subrange(p as int, p + 5)[1] == s@[p + 1]);
                assert(s@.subrange(p as int, p + 5)[2] == s@[p + 2]);
                assert(s@.subrange(p as int, p + 5)[3] == s@[p + 3]);
                assert(s@.subrange(p as int, p + 5)[4] == s@[p + 4]);
            }
        }
        None
    }
}

/// The empty parameter at `p`: it reads nothing.
pub fn null(p: usize) -> (r: (usize, ParamValue))
    ensures
        r == (p, ParamValue::Null),
{
    (p, ParamValue::Null)
}

/// One parameter after optional spaces at `p`.
pub fn param_value(s: &Vec<char>, p: usize) -> (r: Result<(usize, ParamValue), ParseErr>)
    requires
        p <= s.len(),
    ensures
        value_result_view(r) == spec_param_value(s@, p as int),
        r matches Ok((e, _)) ==> p <= e <= s.len(),
{
    let q = skip_space(s, p);
    match string(s, q) {
        Ok(r) => Ok(r),
        Err(ParseErr::Failure(x)) => Err(ParseErr::Failure(x)),
        Err(ParseErr::Error(_)) => {
            if let Some(r) = hex_u32(s, q) {
                Ok(r)
            } else if let Some(r) = dec_u32(s, q) {
                Ok(r)
            } else if let Some(r) = boolean(s, q) {
                Ok(r)
            } else {
                Ok(null(q))
            }
        },
    }
}

proof fn lemma_params_view_push(v: Seq<ParamValue>, x: ParamValue)
    ensures
        params_view(v.push(x)) == params_view(v).push(x@),
{
    assert(params_view(v.push(x)) =~= params_view(v).push(x@));
}

proof fn lemma_calls_view_push(v: Seq<(String, Vec<ParamValue>)>, x: (String, Vec<ParamValue>))
    ensures
        calls_view(v.push(x)) == calls_view(v).push(call_view(x)),
{
    assert(calls_view(v.push(x)) =~= calls_view(v).push(call_view(x)));
}

proof fn lemma_prepend_push<T>(pre: Seq<T>, x: T, r: Result<(int, Seq<T>), ParseErr>)
    ensures
        prepend_items(pre, prepend_items(seq![x], r)) == prepend_items(pre.push(x), r),
{
    if let Ok((e, vs)) = r {
        assert(pre + (seq![x] + vs) =~= pre.push(x) + vs);
    }
}

/// A comma-separated list of parameters at `p`.
pub fn param_list(s: &Vec<char>, p: usize) -> (r: Result<(usize, Vec<ParamValue>), ParseErr>)
    requires
        p <= s.len(),
    ensures
        list_result_view(r) == spec_param_list(s@, p as int),
        r matches Ok((e, _)) ==> p <= e <= s.len(),
{
    let (p1, first) = match param_value(s, p) {
        Err(e) => {
            return Err(e);
        },
        Ok(x) => x,
    };
    let mut res: Vec<ParamValue> = Vec::new();
    res.push(first);
    let mut i = p1;
    proof {
        assert(params_view(res@) =~= seq![first@]);
    }
    loop
        invariant
            p <= i <= s.len(),
            spec_param_list(s@, p as int) == prepend_items(params_view(res@), spec_param_tail(s@, i as int)),
        decreases s.len() - i,
    {
        let q = skip_space(s, i);
        if q < s.len() && s[q] == ',' {
            match param_value(s, q + 1) {
                Err(e) => {
                    return Err(e);
                },
                Ok((i2, v)) => {
                    proof {
                        lemma_prepend_push(params_view(res@), v@, spec_param_tail(s@, i2 as int));
                        lemma_params_view_push(res@, v);
                    }
                    res.push(v);
                    i = i2;
                },
            }
        } else {
            proof {
                assert(params_view(res@) + Seq::<ParamView>::empty() =~= params_view(res@));
            }
            return Ok((i, res));
        }
    }
}

/// `(`, a parameter list and `)` at `p`.
pub fn param(s: &Vec<char>, p: usize) -> (r: Result<(usize, Vec<ParamValue>), ParseErr>)
    requires
        p <= s.len(),
    ensures
        list_result_view(r) == spec_param(s@, p as int),
        r matches Ok((e, _)) ==> p < e <= s.len(),
{
    if p < s.len() && s[p] == '(' {
        match param_list(s, p + 1) {
            Err(ParseErr::Error(x)) => Err(ParseErr::Failure(x)),
            Err(ParseErr::Failure(x)) => Err(ParseErr::Failure(x)),
            Ok((e, vs)) => {
                let q = skip_space(s, e);
                if q < s.len() && s[q] == ')' {
                    Ok((q + 1, vs))
                } else {
                    Err(ParseErr::Failure(q))
                }
            },
        }
    } else {
        Err(ParseErr::Error(p))
    }
}

/// The end of the identifier that starts at `q`, if one does.
pub fn identifier(s: &Vec<char>, q: usize) -> (r: Option<usize>)
    requires
        q <= s.len(),
    ensures
        q < s.len() && is_ident_start(s[q as int]) ==> r is Some && r->0 == spec_scan_ident(
            s@,
            q + 1,
        ),
        !(q < s.len() && is_ident_start(s[q as int])) ==> r is None,
        r matches Some(e) ==> q < e <= s.len(),
{
    if q < s.len() && char_is_ident_start(s[q]) {
        Some(scan_ident(s, q + 1))
    } else {
        None
    }
}

/// A call at `p`: spaces, an identifier, optional spaces and its parameters.
pub fn func(s: &Vec<char>, p: usize) -> (r: Result<(usize, (String, Vec<ParamValue>)), ParseErr>)
    requires
        p <= s.len(),
    ensures
        func_result_view(r) == spec_func(s@, p as int),
        r matches Ok((e, _)) ==> p < e <= s.len(),
{
    let q = skip_space(s, p);
    if q == p {
        return Err(ParseErr::Error(p));
    }
    match identifier(s, q) {
        None => Err(ParseErr::Error(q)),
        Some(r) => {
            let t = skip_space(s, r);
            match param(s, t) {
                Err(e) => Err(e),
                Ok((e, vs)) => {
                    let name = string_of(s, q, r);
                    Ok((e, (name, vs)))
                },
            }
        },
    }
}

/// What `command_parse` gives in mathematical terms: the text after the
/// calls and the calls read, or how it went wrong.
pub open spec fn spec_command_parse(s: Seq<char>) -> Result<
    (Seq<char>, Seq<(Seq<char>, Seq<ParamView>)>),
    ParseErr,
> {
    match spec_command(s) {
        Ok((f, cs)) => Ok((s.subrange(f, s.len() as int), cs)),
        Err(x) => Err(x),
    }
}

pub open spec fn command_result_view(r: Result<(String, Vec<(String, Vec<ParamValue>)>), ParseErr>) -> Result<
    (Seq<char>, Seq<(Seq<char>, Seq<ParamView>)>),
    ParseErr,
> {
    match r {
        Ok((rem, calls)) => Ok((rem@, calls_view(calls@))),
        Err(x) => Err(x),
    }
}

/// Parses a command line: its first character is skipped, then one or more
/// calls are read, each as one or more spaces, an identifier, optional
/// spaces and a parenthesised parameter list. Gives the text that follows
/// the last call and the calls, each as its name and parameters.
pub fn command_parse(i: &str) -> (r: Result<(String, Vec<(String, Vec<ParamValue>)>), ParseErr>)
    ensures
        command_result_view(r) == spec_command_parse(i@),
{
    let s = chars_of(i);
    if s.len() == 0 {
        return Err(ParseErr::Error(0));
    }
    let (e, c) = match func(&s, 1) {
        Err(x) => {
            return Err(x);
        },
        Ok(x) => x,
    };
    let mut calls: Vec<(String, Vec<ParamValue>)> = Vec::new();
    proof {
        lemma_calls_view_push(calls@, c);
        assert(calls_view(calls@) =~= Seq::<(Seq<char>, Seq<ParamView>)>::empty());
    }
    calls.push(c);
    let mut k = e;
    loop
        invariant
            1 <= k <= s.len(),
            s@ == i@,
            spec_command(s@) == prepend_items(calls_view(calls@), spec_func_tail(s@, k as int)),
        ensures
            1 <= k <= s.len(),
            spec_command(s@) == prepend_items(calls_view(calls@), spec_func_tail(s@, k as int)),
            spec_func_tail(s@, k as int) == Ok::<(int, Seq<(Seq<char>, Seq<ParamView>)>), ParseErr>(
                (k as int, Seq::empty()),
            ),
        decreases s.len() - k,
    {
        match func(&s, k) {
            Err(ParseErr::Error(_)) => {
                break;
            },
            Err(ParseErr::Failure(x)) => {
                return Err(ParseErr::Failure(x));
            },
            Ok((e2, c2)) => {
                proof {
                    lemma_prepend_push(calls_view(calls@), call_view(c2), spec_func_tail(s@, e2 as int));
                    lemma_calls_view_push(calls@, c2);
                }
                calls.push(c2);
                k = e2;
            },
        }
    }
    proof {
        assert(calls_view(calls@) + Seq::<(Seq<char>, Seq<ParamView>)>::empty() =~= calls_view(calls@));
    }
    let rem = string_of(&s, k, s.len());
    Ok((rem, calls))
}

// ---------------------------------------------------------------------------
// Laws of the command language
// ---------------------------------------------------------------------------

/// The characters `name` make an identifier.
pub open spec fn is_identifier(name: Seq<char>) -> bool {
    &&& name.len() >= 1
    &&& is_ident_start(name[0])
    &&& forall|k: int| 0 <= k < name.len() ==> is_ident_char(#[trigger] name[k])
}

/// Every call read holds an identifier as its name.
pub open spec fn names_are_identifiers(cs: Seq<(Seq<char>, Seq<ParamView>)>) -> bool {
    forall|j: int| 0 <= j < cs.len() ==> is_identifier(#[trigger] cs[j].0)
}

proof fn lemma_scan_ident_chars(s: Seq<char>, p: int)
    requires
        0 <= p <= s.len(),
    ensures
        forall|k: int| p <= k < spec_scan_ident(s, p) ==> is_ident_char(#[trigger] s[k]),
    decreases s.len() - p,
{
    if p < s.len() && is_ident_char(s[p]) {
        lemma_scan_ident_chars(s, p + 1);
    }
}

proof fn lemma_func_name(s: Seq<char>, p: int)
    requires
        0 <= p <= s.len(),
    ensures
        spec_func(s, p) matches Ok((_, c)) ==> is_identifier(c.0),
{
    let q = spec_skip_space(s, p);
    lemma_skip_space_bounds(s, p);
    if q > p && q < s.len() && is_ident_start(s[q]) {
        lemma_scan_ident_bounds(s, q + 1);
        lemma_scan_ident_chars(s, q + 1);
        let r = spec_scan_ident(s, q + 1);
        let name = s.subrange(q, r);
        assert forall|k: int| 0 <= k < name.len() implies is_ident_char(#[trigger] name[k]) by {
            assert(name[k] == s[q + k]);
        }
    }
}

proof fn lemma_func_tail(s: Seq<char>, i: int)
    requires
        0 <= i <= s.len(),
    ensures
        spec_func_tail(s, i) matches Ok((f, cs)) ==> i <= f <= s.len() && names_are_identifiers(
            cs,
        ),
    decreases s.len() - i,
{
    lemma_func_bounds(s, i);
    lemma_func_name(s, i);
    if let Ok((e, c)) = spec_func(s, i) {
        lemma_func_tail(s, e);
        if let Ok((f, cs)) = spec_func_tail(s, e) {
            let all = seq![c] + cs;
            assert forall|j: int| 0 <= j < all.len() implies is_identifier(#[trigger] all[j].0) by {
                if j > 0 {
                    assert(all[j] == cs[j - 1]);
                }
            }
        }
    }
}

/// A command that parses reads at least one call, each named by an
/// identifier, and consumes a nonempty prefix of the line: what is left is
/// the rest of it.
pub proof fn law_command_parse_reads_prefix(s: Seq<char>)
    ensures
        spec_command_parse(s) matches Ok((rem, calls)) ==> {
            &&& calls.len() >= 1
            &&& names_are_identifiers(calls)
            &&& rem.len() < s.len()
            &&& rem == s.subrange(s.len() - rem.len(), s.len() as int)
        },
{
    if s.len() > 0 {
        lemma_func_bounds(s, 1);
        lemma_func_name(s, 1);
        if let Ok((e, c)) = spec_func(s, 1) {
            lemma_func_tail(s, e);
            if let Ok((f, cs)) = spec_func_tail(s, e) {
                let all = seq![c] + cs;
                assert forall|j: int| 0 <= j < all.len() implies is_identifier(
                    #[trigger] all[j].0,
                ) by {
                    if j > 0 {
                        assert(all[j] == cs[j - 1]);
                    }
                }
            }
        }
    }
}

proof fn lemma_hex_digit_is_hex(c: char)
    requires
        digit_value(c, 16) is Some,
    ensures
        is_hex_digit(c),
        c != '_',
{
}

proof fn lemma_no_underscores(t: Seq<char>)
    requires
        forall|k: int| 0 <= k < t.len() ==> #[trigger] t[k] != '_',
    ensures
        without_underscores(t) == t,
    decreases t.len(),
{
    reveal(Seq::filter);
    if t.len() > 0 {
        lemma_no_underscores(t.drop_last());
        assert(t.drop_last().push(t.last()) =~= t);
    }
}

proof fn lemma_scan_hex_digits(s: Seq<char>, p: int, e: int)
    requires
        0 <= p <= e <= s.len(),
        forall|k: int| p <= k < e ==> is_hex_body_char(#[trigger] s[k]),
        e == s.len() || !is_hex_body_char(s[e]),
    ensures
        spec_scan_hex_body(s, p) == e,
    decreases e - p,
{
    if p < e {
        lemma_scan_hex_digits(s, p + 1, e);
    }
}

/// A hexadecimal literal as a dump writes it reads, in a parameter list, as
/// the number it shows, whenever that is a `u32` and no further hexadecimal
/// digit or `_` follows it.
#[verifier::spinoff_prover]
pub proof fn law_dump_literal_is_a_parameter(v: nat, n: nat, rest: Seq<char>)
    requires
        0 < n,
        v < pow16(n),
        v <= u32::MAX,
        rest.len() == 0 || !is_hex_body_char(rest[0]),
    ensures
        spec_hex_u32(hex_literal(v, n) + rest, 0) == Some(((n + 2) as int, ParamView::Num(v as u32))),
{
    let d = hex_digits(v, n);
    let s = hex_literal(v, n) + rest;
    lemma_hex_digits_len(v, n);
    assert forall|k: int| 0 <= k < n implies is_hex_digit(#[trigger] d[k]) && d[k] != '_' by {
        lemma_hex_digits_chars(v, n, k);
        lemma_hex_digit_is_hex(d[k]);
    }
    assert forall|k: int| 2 <= k < n + 2 implies is_hex_body_char(#[trigger] s[k]) by {
        assert(s[k] == d[k - 2]);
    }
    if rest.len() > 0 {
        assert(s[n + 2int] == rest[0]);
    }
    lemma_scan_hex_digits(s, 3, n + 2int);
    assert(s.subrange(2, n + 2int) =~= d);
    lemma_no_underscores(d);
    lemma_hex_digits_value(Seq::empty(), v, n, u32::MAX as nat);
    assert(Seq::<char>::empty() + d =~= d);
    lemma_hex_digits_chars(v, n, 0);
    assert(s[2] == d[0]);
}

/// Every `"` in `s[start..q]` stands right after a backslash.
pub open spec fn quotes_escaped(s: Seq<char>, start: int, q: int) -> bool {
    forall|k: int| start <= k < q && #[trigger] s[k] == '"' ==> k > start && s[k - 1] == '\\'
}

proof fn lemma_string_body_escaped(s: Seq<char>, start: int, q: int)
    requires
        0 <= start <= q <= s.len(),
        quotes_escaped(s, start, q),
    ensures
        spec_string_body(s, start, q) matches Some(e) ==> quotes_escaped(s, start, e),
    decreases s.len() - q,
{
    if q < s.len() && s[q] != '"' {
        if s[q] == '\\' {
            if q + 1 < s.len() {
                assert(quotes_escaped(s, start, q + 2));
                lemma_string_body_escaped(s, start, q + 2);
            }
        } else {
            assert(quotes_escaped(s, start, q + 1));
            lemma_string_body_escaped(s, start, q + 1);
        }
    }
}

/// A string parameter holds exactly the characters between its quotes, as
/// they stand in the line, and every `"` among them follows a backslash; the
/// closing quote is the last character read.
pub proof fn law_string_is_raw_body(s: Seq<char>, p: int)
    requires
        0 <= p <= s.len(),
    ensures
        spec_string(s, p) matches Ok((e, v)) ==> {
            &&& p + 2 <= e <= s.len()
            &&& s[p] == '"'
            &&& s[e - 1] == '"'
            &&& v == ParamView::Str(s.subrange(p + 1, e - 1))
            &&& quotes_escaped(s, p + 1, e - 1)
        },
{
    if p < s.len() && s[p] == '"' {
        lemma_string_body_bounds(s, p + 1, p + 1);
        lemma_string_body_escaped(s, p + 1, p + 1);
    }
}

// ---------------------------------------------------------------------------
// The first character of a command is never looked at
// ---------------------------------------------------------------------------

/// `s1` and `s2` have the same length and differ at most in their first
/// character.
pub open spec fn same_after_first(s1: Seq<char>, s2: Seq<char>) -> bool {
    s1.len() == s2.len() && forall|i: int| 1 <= i < s1.len() ==> #[trigger] s1[i] == s2[i]
}

proof fn lemma_same_subrange(s1: Seq<char>, s2: Seq<char>, a: int, b: int)
    requires
        same_after_first(s1, s2),
        1 <= a <= b <= s1.len(),
    ensures
        s1.subrange(a, b) == s2.subrange(a, b),
{
    assert(s1.subrange(a, b) =~= s2.subrange(a, b));
}

proof fn lemma_same_scanners(s1: Seq<char>, s2: Seq<char>, p: int)
    requires
        same_after_first(s1, s2),
        1 <= p,
    ensures
        spec_skip_space(s1, p) == spec_skip_space(s2, p),
        spec_scan_ident(s1, p) == spec_scan_ident(s2, p),
        spec_scan_digits(s1, p) == spec_scan_digits(s2, p),
        spec_scan_hex_body(s1, p) == spec_scan_hex_body(s2, p),
    decreases s1.len() - p,
{
    if p < s1.len() {
        lemma_same_scanners(s1, s2, p + 1);
    }
}

proof fn lemma_same_string_body(s1: Seq<char>, s2: Seq<char>, start: int, q: int)
    requires
        same_after_first(s1, s2),
        1 <= q,
    ensures
        spec_string_body(s1, start, q) == spec_string_body(s2, start, q),
    decreases s1.len() - q,
{
    if q < s1.len() {
        lemma_same_string_body(s1, s2, start, q + 1);
        if q + 1 < s1.len() {
            lemma_same_string_body(s1, s2, start, q + 2);
        }
    }
}

proof fn lemma_same_param_value(s1: Seq<char>, s2: Seq<char>, p: int)
    requires
        same_after_first(s1, s2),
        1 <= p <= s1.len(),
    ensures
        spec_param_value(s1, p) == spec_param_value(s2, p),
{
    lemma_same_scanners(s1, s2, p);
    lemma_skip_space_bounds(s1, p);
    let q = spec_skip_space(s1, p);
    if q < s1.len() {
        lemma_same_string_body(s1, s2, q + 1, q + 1);
        lemma_string_body_bounds(s1, q + 1, q + 1);
        if let Some(e) = spec_string_body(s1, q + 1, q + 1) {
            lemma_same_subrange(s1, s2, q + 1, e);
        }
        lemma_same_scanners(s1, s2, q + 1);
        lemma_scan_digits_bounds(s1, q + 1);
        lemma_same_subrange(s1, s2, q, spec_scan_digits(s1, q + 1));
        if q + 4 <= s1.len() {
            lemma_same_subrange(s1, s2, q, q + 4);
        }
        if q + 5 <= s1.len() {
            lemma_same_subrange(s1, s2, q, q + 5);
        }
        if q + 2 < s1.len() {
            lemma_same_scanners(s1, s2, q + 3);
            lemma_scan_hex_body_bounds(s1, q + 3);
            lemma_same_subrange(s1, s2, q + 2, spec_scan_hex_body(s1, q + 3));
        }
    }
}

proof fn lemma_same_param_tail(s1: Seq<char>, s2: Seq<char>, i: int)
    requires
        same_after_first(s1, s2),
        1 <= i <= s1.len(),
    ensures
        spec_param_tail(s1, i) == spec_param_tail(s2, i),
    decreases s1.len() - i,
{
    lemma_same_scanners(s1, s2, i);
    lemma_skip_space_bounds(s1, i);
    let q = spec_skip_space(s1, i);
    if q < s1.len() && s1[q] == ',' {
        lemma_same_param_value(s1, s2, q + 1);
        lemma_param_value_bounds(s1, q + 1);
        if let Ok((i2, v)) = spec_param_value(s1, q + 1) {
            lemma_same_param_tail(s1, s2, i2);
        }
    }
}

proof fn lemma_same_func(s1: Seq<char>, s2: Seq<char>, p: int)
    requires
        same_after_first(s1, s2),
        1 <= p <= s1.len(),
    ensures
        spec_func(s1, p) == spec_func(s2, p),
{
    lemma_same_scanners(s1, s2, p);
    lemma_skip_space_bounds(s1, p);
    let q = spec_skip_space(s1, p);
    if q > p && q < s1.len() {
        lemma_same_scanners(s1, s2, q + 1);
        lemma_scan_ident_bounds(s1, q + 1);
        let r = spec_scan_ident(s1, q + 1);
        lemma_same_subrange(s1, s2, q, r);
        lemma_same_scanners(s1, s2, r);
        lemma_skip_space_bounds(s1, r);
        let t = spec_skip_space(s1, r);
        if t < s1.len() {
            lemma_same_param_value(s1, s2, t + 1);
            lemma_param_value_bounds(s1, t + 1);
            if let Ok((p1, v)) = spec_param_value(s1, t + 1) {
                lemma_same_param_tail(s1, s2, p1);
                lemma_param_tail_bounds(s1, p1);
                if let Ok((e, vs)) = spec_param_tail(s1, p1) {
                    lemma_same_scanners(s1, s2, e);
                    lemma_skip_space_bounds(s1, e);
                }
            }
            assert(spec_param_list(s1, t + 1) == spec_param_list(s2, t + 1));
        }
        assert(spec_param(s1, t) == spec_param(s2, t));
    }
}

proof fn lemma_same_func_tail(s1: Seq<char>, s2: Seq<char>, i: int)
    requires
        same_after_first(s1, s2),
        1 <= i <= s1.len(),
    ensures
        spec_func_tail(s1, i) == spec_func_tail(s2, i),
    decreases s1.len() - i,
{
    lemma_same_func(s1, s2, i);
    lemma_func_bounds(s1, i);
    if let Ok((e, c)) = spec_func(s1, i) {
        lemma_same_func_tail(s1, s2, e);
    }
}

/// The first character of a command line is skipped whatever it is: two
/// lines that differ only there parse alike.
pub proof fn law_first_character_is_skipped(a: char, b: char, t: Seq<char>)
    ensures
        spec_command_parse(seq![a] + t) == spec_command_parse(seq![b] + t),
{
    let s1 = seq![a] + t;
    let s2 = seq![b] + t;
    assert(same_after_first(s1, s2)) by {
        assert forall|i: int| 1 <= i < s1.len() implies #[trigger] s1[i] == s2[i] by {
            assert(s1[i] == t[i - 1]);
            assert(s2[i] == t[i - 1]);
        }
    }
    lemma_same_func(s1, s2, 1);
    lemma_func_bounds(s1, 1);
    if let Ok((e, c)) = spec_func(s1, 1) {
        lemma_same_func_tail(s1, s2, e);
        lemma_func_tail(s1, e);
        if let Ok((f, cs)) = spec_func_tail(s1, e) {
            lemma_same_subrange(s1, s2, f, s1.len() as int);
        }
    }
}

// ---------------------------------------------------------------------------
// Every identifier can be called
// ---------------------------------------------------------------------------

proof fn lemma_scan_ident_run(s: Seq<char>, p: int, e: int)
    requires
        0 <= p <= e <= s.len(),
        forall|k: int| p <= k < e ==> is_ident_char(#[trigger] s[k]),
        e == s.len() || !is_ident_char(s[e]),
    ensures
        spec_scan_ident(s, p) == e,
    decreases e - p,
{
    if p < e {
        lemma_scan_ident_run(s, p + 1, e);
    }
}

/// After any first character, a space, a name made of ASCII letters,
/// digits and `_` that does not begin with a digit, and `()` read as one
/// call of that name with one empty parameter, and nothing is left.
pub proof fn law_any_identifier_can_be_called(first: char, name: Seq<char>)
    requires
        name.len() >= 1,
        ('a' <= name[0] && name[0] <= 'z') || ('A' <= name[0] && name[0] <= 'Z') || name[0] == '_',
        forall|k: int|
            0 <= k < name.len() ==> ('a' <= #[trigger] name[k] && name[k] <= 'z') || ('A'
                <= name[k] && name[k] <= 'Z') || ('0' <= name[k] && name[k] <= '9') || name[k]
                == '_',
    ensures
        spec_command_parse(seq![first, ' '] + name + seq!['(', ')']) == Ok::<
            (Seq<char>, Seq<(Seq<char>, Seq<ParamView>)>),
            ParseErr,
        >((Seq::empty(), seq![(name, seq![ParamView::Null])])),
{
    let s = seq![first, ' '] + name + seq!['(', ')'];
    let n = name.len() as int;
    let r = n + 2;
    assert(s.len() == n + 4);
    assert forall|k: int| 2 <= k < r implies is_ident_char(#[trigger] s[k]) by {
        assert(s[k] == name[k - 2]);
    }
    assert(s[1] == ' ');
    assert(s[2] == name[0]);
    assert(s[r] == '(');
    assert(s[r + 1] == ')');
    assert(spec_skip_space(s, 2) == 2);
    assert(spec_skip_space(s, 1) == 2);
    lemma_scan_ident_run(s, 3, r);
    assert(spec_skip_space(s, r) == r);
    assert(spec_skip_space(s, r + 1) == r + 1);
    assert(spec_param_value(s, r + 1) == Ok::<(int, ParamView), ParseErr>((r + 1, ParamView::Null)));
    assert(spec_param_tail(s, r + 1) == Ok::<(int, Seq<ParamView>), ParseErr>((r + 1, Seq::empty())));
    assert(seq![ParamView::Null] + Seq::<ParamView>::empty() =~= seq![ParamView::Null]);
    assert(spec_param(s, r) == Ok::<(int, Seq<ParamView>), ParseErr>((r + 2, seq![ParamView::Null])));
    assert(s.subrange(2, r) =~= name);
    assert(spec_skip_space(s, r + 2) == r + 2);
    assert(spec_func(s, r + 2) is Err);
    let calls: Seq<(Seq<char>, Seq<ParamView>)> = seq![(name, seq![ParamView::Null])];
    assert(calls + Seq::<(Seq<char>, Seq<ParamView>)>::empty() =~= calls);
    assert(s.subrange(r + 2, r + 2) =~= Seq::<char>::empty());
}

// ---------------------------------------------------------------------------
// A backslash always takes the character after it
// ---------------------------------------------------------------------------

/// `b` is made of units, each either a character other than `"` and `\\`,
/// or a backslash followed by any character.
pub open spec fn escaped_body(b: Seq<char>) -> bool
    decreases b.len(),
{
    if b.len() == 0 {
        true
    } else if b[0] == '\\' {
        b.len() >= 2 && escaped_body(b.skip(2))
    } else {
        b[0] != '"' && escaped_body(b.skip(1))
    }
}

proof fn lemma_string_body_units(s: Seq<char>, body: Seq<char>, k: int)
    requires
        1 + body.len() < s.len(),
        s.subrange(1, 1 + body.len() as int) == body,
        s[1 + body.len() as int] == '"',
        body.len() >= 1,
        0 <= k <= body.len(),
        escaped_body(body.skip(k)),
    ensures
        spec_string_body(s, 1, 1 + k) == Some(1 + body.len() as int),
    decreases body.len() - k,
{
    let q = 1 + k;
    let t = body.skip(k);
    if k < body.len() {
        assert(s[q] == body[k]);
        assert(t[0] == body[k]);
        if body[k] == '\\' {
            assert(t.skip(2) =~= body.skip(k + 2));
            lemma_string_body_units(s, body, k + 2);
        } else {
            assert(t.skip(1) =~= body.skip(k + 1));
            lemma_string_body_units(s, body, k + 1);
        }
    }
}

/// A string whose body is made of plain characters and backslash pairs
/// reads as exactly that body, raw, and ends right after its closing
/// quote, whatever follows; in particular a backslash never escapes the
/// character after the one it takes.
pub proof fn law_string_reads_escaped_body(body: Seq<char>, rest: Seq<char>)
    requires
        body.len() >= 1,
        escaped_body(body),
    ensures
        spec_string(seq!['"'] + body + seq!['"'] + rest, 0) == Ok::<(int, ParamView), ParseErr>(
            (body.len() + 2int, ParamView::Str(body)),
        ),
{
    let s = seq!['"'] + body + seq!['"'] + rest;
    let n = body.len() as int;
    assert(s.subrange(1, 1 + n) =~= body);
    assert(s[1 + n] == '"');
    assert(s[0] == '"');
    assert(body.skip(0) =~= body);
    lemma_string_body_units(s, body, 0);
}

// ---------------------------------------------------------------------------
// Decimal and boolean parameters
// ---------------------------------------------------------------------------

proof fn lemma_scan_digits_run(s: Seq<char>, p: int, e: int)
    requires
        0 <= p <= e <= s.len(),
        forall|k: int| p <= k < e ==> is_ascii_digit(#[trigger] s[k]),
        e == s.len() || !is_ascii_digit(s[e]),
    ensures
        spec_scan_digits(s, p) == e,
    decreases e - p,
{
    if p < e {
        lemma_scan_digits_run(s, p + 1, e);
    }
}

/// `c` is an ASCII letter or digit, or `_`.
pub open spec fn is_word_char(c: char) -> bool {
    ('0' <= c && c <= '9') || ('a' <= c && c <= 'z') || ('A' <= c && c <= 'Z') || c == '_'
}

/// Decimal digits whose value is a `u32`, followed by anything but a
/// letter, digit or `_`, read as a parameter holding that value, and the
/// parameter ends right after the digits.
pub proof fn law_decimal_parameter(d: Seq<char>, rest: Seq<char>)
    requires
        d.len() >= 1,
        forall|k: int| 0 <= k < d.len() ==> '0' <= #[trigger] d[k] && d[k] <= '9',
        rest.len() == 0 || !is_word_char(rest[0]),
        crate::number::fold_digits(d, 0, 10, 0) <= u32::MAX,
    ensures
        spec_param_value(d + rest, 0) == Ok::<(int, ParamView), ParseErr>(
            (d.len() as int, ParamView::Num(crate::number::fold_digits(d, 0, 10, 0) as u32)),
        ),
{
    let s = d + rest;
    let n = d.len() as int;
    assert(s[0] == d[0]);
    assert(spec_skip_space(s, 0) == 0);
    if s.len() > 1 {
        if n > 1 {
            assert(s[1] == d[1]);
        } else {
            assert(s[1] == rest[0]);
        }
    }
    assert(spec_hex_u32(s, 0) is None);
    assert forall|k: int| 1 <= k < n implies is_ascii_digit(#[trigger] s[k]) by {
        assert(s[k] == d[k]);
    }
    if rest.len() > 0 {
        assert(s[n] == rest[0]);
    }
    lemma_scan_digits_run(s, 1, n);
    assert(s.subrange(0, n) =~= d);
    assert forall|k: int| 0 <= k < d.len() implies (#[trigger] crate::number::digit_value(d[k], 10))
        is Some by {
        assert('0' <= d[k] && d[k] <= '9');
    }
    crate::number::law_radix_value_characterised(d, 0, 10, u32::MAX as nat);
}

/// `true` and `false` read as boolean parameters, whatever follows them.
pub proof fn law_boolean_parameters(rest: Seq<char>)
    ensures
        spec_param_value(seq!['t', 'r', 'u', 'e'] + rest, 0) == Ok::<(int, ParamView), ParseErr>(
            (4, ParamView::Boolean(true)),
        ),
        spec_param_value(seq!['f', 'a', 'l', 's', 'e'] + rest, 0) == Ok::<
            (int, ParamView),
            ParseErr,
        >((5, ParamView::Boolean(false))),
{
    let t = seq!['t', 'r', 'u', 'e'] + rest;
    let f = seq!['f', 'a', 'l', 's', 'e'] + rest;
    assert(t[0] == 't');
    assert(f[0] == 'f');
    assert(spec_skip_space(t, 0) == 0);
    assert(spec_skip_space(f, 0) == 0);
    assert(t.subrange(0, 4) =~= seq!['t', 'r', 'u', 'e']);
    assert(f.subrange(0, 5) =~= seq!['f', 'a', 'l', 's', 'e']);
    assert(f.subrange(0, 4)[0] == 'f');
}

/// A call cannot begin with anything but an ASCII letter or `_`: after the
/// first character and a space, any other character stops the parse there,
/// with no call read.
pub proof fn law_call_needs_identifier_start(first: char, c: char, rest: Seq<char>)
    requires
        !(('a' <= c && c <= 'z') || ('A' <= c && c <= 'Z') || c == '_'),
        !(c == ' ' || c == '\t' || c == '\r' || c == '\n'),
    ensures
        spec_command_parse(seq![first, ' ', c] + rest) == Err::<
            (Seq<char>, Seq<(Seq<char>, Seq<ParamView>)>),
            ParseErr,
        >(ParseErr::Error(2)),
{
    let s = seq![first, ' ', c] + rest;
    assert(s[1] == ' ');
    assert(s[2] == c);
    assert(spec_skip_space(s, 2) == 2);
    assert(spec_skip_space(s, 1) == 2);
}

} // verus!
