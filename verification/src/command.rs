//! What a line typed at the debugger asks for, and the text sent back.
//!
//! A line is split into words at white space; `mem dump ADDR [LEN]`, both
//! hexadecimal, asks for a dump of `LEN` bytes (1 when missing or
//! unreadable) at `ADDR`.
//! Every other line is answered with an empty text.
use vstd::prelude::*;
use crate::mem_dump::{dump_mem_u8, parse_hex_chars, spec_parse_hex, u8_dump_text};
use crate::number::ParseNumError;
use crate::text::chars_of;

verus! {

/// White space as Unicode defines it (`char::is_whitespace`).
pub open spec fn is_whitespace(c: char) -> bool {
    ('\t' <= c && c <= '\r') || c == ' ' || c == '\u{85}' || c == '\u{a0}' || c == '\u{1680}' || (
    '\u{2000}' <= c && c <= '\u{200a}') || c == '\u{2028}' || c == '\u{2029}' || c == '\u{202f}'
        || c == '\u{205f}' || c == '\u{3000}'
}

/// Whether `c` is white space.
pub fn char_is_whitespace(c: char) -> (b: bool)
    ensures
        b == is_whitespace(c),
{
    ('\t' <= c && c <= '\r') || c == ' ' || c == '\u{85}' || c == '\u{a0}' || c == '\u{1680}' || (
    '\u{2000}' <= c && c <= '\u{200a}') || c == '\u{2028}' || c == '\u{2029}' || c == '\u{202f}'
        || c == '\u{205f}' || c == '\u{3000}'
}

/// The end of the word that starts at `p`: the first white space at or
/// after `p`, or the end.
pub open spec fn spec_word_end(s: Seq<char>, p: int) -> int
    decreases s.len() - p,
{
    if 0 <= p < s.len() && !is_whitespace(s[p]) {
        spec_word_end(s, p + 1)
    } else {
        p
    }
}

/// The words of `s[p..]`: its longest runs of characters that are not white
/// space, in order.
pub open spec fn spec_words(s: Seq<char>, p: int) -> Seq<Seq<char>>
    decreases s.len() - p,
{
    if p < 0 || p >= s.len() {
        Seq::empty()
    } else if is_whitespace(s[p]) {
        spec_words(s, p + 1)
    } else {
        let e = spec_word_end(s, p);
        proof {
            lemma_word_end_bounds(s, p);
        }
        seq![s.subrange(p, e)] + spec_words(s, e)
    }
}

pub proof fn lemma_word_end_bounds(s: Seq<char>, p: int)
    requires
        0 <= p < s.len(),
        !is_whitespace(s[p]),
    ensures
        p < spec_word_end(s, p) <= s.len(),
    decreases s.len() - p,
{
    reveal_with_fuel(spec_word_end, 2);
    if p + 1 < s.len() && !is_whitespace(s[p + 1]) {
        lemma_word_end_bounds(s, p + 1);
    }
}

/// The views of a list of words.
pub open spec fn words_view(v: Seq<Vec<char>>) -> Seq<Seq<char>> {
    v.map_values(|w: Vec<char>| w@)
}

/// The words of `s`, as `str::split_whitespace` gives them.
pub fn split_words(s: &Vec<char>) -> (r: Vec<Vec<char>>)
    ensures
        words_view(r@) == spec_words(s@, 0),
{
    let mut res: Vec<Vec<char>> = Vec::new();
    let mut k: usize = 0;
    while k < s.len()
        invariant
            k <= s.len(),
            spec_words(s@, 0) == words_view(res@) + spec_words(s@, k as int),
        decreases s.len() - k,
    {
        if char_is_whitespace(s[k]) {
            k = k + 1;
        } else {
            let mut e = k;
            let mut w: Vec<char> = Vec::new();
            while e < s.len() && !char_is_whitespace(s[e])
                invariant
                    k <= e <= s.len(),
                    k < s.len(),
                    !is_whitespace(s@[k as int]),
                    spec_word_end(s@, k as int) == spec_word_end(s@, e as int),
                    w@ == s@.subrange(k as int, e as int),
                decreases s.len() - e,
            {
                w.push(s[e]);
                e = e + 1;
                assert(w@ =~= s@.subrange(k as int, e as int));
            }
            proof {
                lemma_word_end_bounds(s@, k as int);
                assert(words_view(res@.push(w)) =~= words_view(res@).push(w@));
                assert(words_view(res@) + (seq![w@] + spec_words(s@, e as int)) =~= words_view(
                    res@,
                ).push(w@) + spec_words(s@, e as int));
            }
            res.push(w);
            k = e;
        }
    }
    proof {
        assert(words_view(res@) + Seq::<Seq<char>>::empty() =~= words_view(res@));
    }
    res
}

/// What a line asks for.
#[derive(Debug, Clone, Copy, PartialEq, Eq, Structural)]
pub enum CommandRequest {
    /// Dump `len` bytes of memory at `addr`.
    Dump { addr: usize, len: usize },
    /// Anything else: answered with an empty text.
    Other,
}

/// A line that the server cannot act on: the server's task for the
/// connection stops on it.
#[derive(Debug, Clone, Copy, PartialEq, Eq, Structural)]
pub enum CommandFault {
    /// The line has no word.
    NoWord,
    /// `mem` is not followed by a second word.
    MissingSubcommand,
    /// `mem dump` is not followed by an address.
    MissingAddress,
    /// The address of `mem dump` does not read as a number.
    BadAddress(ParseNumError),
}

/// What the line `m` asks for, or why the server cannot act on it.
pub open spec fn spec_command_outcome(m: Seq<char>) -> Result<CommandRequest, CommandFault> {
    let words = spec_words(m, 0);
    if words.len() == 0 {
        Err(CommandFault::NoWord)
    } else if words[0] != seq!['m', 'e', 'm'] {
        Ok(CommandRequest::Other)
    } else if words.len() < 2 {
        Err(CommandFault::MissingSubcommand)
    } else if words[1] != seq!['d', 'u', 'm', 'p'] {
        Ok(CommandRequest::Other)
    } else if words.len() < 3 {
        Err(CommandFault::MissingAddress)
    } else {
        match spec_parse_hex(words[2]) {
            Err(e) => Err(CommandFault::BadAddress(e)),
            Ok(addr) => {
                let len: nat = if words.len() >= 4 {
                    match spec_parse_hex(words[3]) {
                        Ok(n) => n,
                        Err(_) => 1,
                    }
                } else {
                    1
                };
                Ok(CommandRequest::Dump { addr: addr as usize, len: len as usize })
            },
        }
    }
}

/// Whether the characters `w` are those of `lit`.
fn word_is(w: &Vec<char>, lit: &Vec<char>) -> (b: bool)
    ensures
        b == (w@ == lit@),
{
    if w.len() != lit.len() {
        return false;
    }
    let mut i: usize = 0;
    while i < w.len()
        invariant
            w.len() == lit.len(),
            i <= w.len(),
            w@.subrange(0, i as int) == lit@.subrange(0, i as int),
        decreases w.len() - i,
    {
        if w[i] != lit[i] {
            assert(w@[i as int] != lit@[i as int]);
            return false;
        }
        assert(w@.subrange(0, i + 1) =~= w@.subrange(0, i as int).push(w@[i as int]));
        assert(lit@.subrange(0, i + 1) =~= lit@.subrange(0, i as int).push(lit@[i as int]));
        i = i + 1;
    }
    assert(w@ =~= w@.subrange(0, i as int));
    assert(lit@ =~= lit@.subrange(0, i as int));
    true
}

/// Reads what the line `msg` asks for, or why it cannot be acted on.
fn read_command(msg: &str) -> (r: Result<CommandRequest, CommandFault>)
    ensures
        r == spec_command_outcome(msg@),
{
    let m = chars_of(msg);
    let words = split_words(&m);
    if words.len() == 0 {
        return Err(CommandFault::NoWord);
    }
    let mem_word: Vec<char> = vec!['m', 'e', 'm'];
    let dump_word: Vec<char> = vec!['d', 'u', 'm', 'p'];
    proof {
        assert(words_view(words@)[0] == words@[0]@);
    }
    if !word_is(&words[0], &mem_word) {
        assert(mem_word@ =~= seq!['m', 'e', 'm']);
        return Ok(CommandRequest::Other);
    }
    assert(mem_word@ =~= seq!['m', 'e', 'm']);
    if words.len() < 2 {
        return Err(CommandFault::MissingSubcommand);
    }
    proof {
        assert(words_view(words@)[1] == words@[1]@);
    }
    if !word_is(&words[1], &dump_word) {
        assert(dump_word@ =~= seq!['d', 'u', 'm', 'p']);
        return Ok(CommandRequest::Other);
    }
    assert(dump_word@ =~= seq!['d', 'u', 'm', 'p']);
    if words.len() < 3 {
        return Err(CommandFault::MissingAddress);
    }
    proof {
        assert(words_view(words@)[2] == words@[2]@);
    }
    let addr = match parse_hex_chars(&words[2]) {
        Err(e) => {
            return Err(CommandFault::BadAddress(e));
        },
        Ok(a) => a,
    };
    let len: usize = if words.len() >= 4 {
        proof {
            assert(words_view(words@)[3] == words@[3]@);
        }
        match parse_hex_chars(&words[3]) {
            Ok(n) => n,
            Err(_) => 1,
        }
    } else {
        1
    };
    Ok(CommandRequest::Dump { addr, len })
}

/// Why the server cannot act on the line `m`, if it cannot: on such a line
/// the server's task for the connection stops.
pub open spec fn spec_command_fault(m: Seq<char>) -> Option<CommandFault> {
    match spec_command_outcome(m) {
        Err(f) => Some(f),
        Ok(_) => None,
    }
}

/// What a line the server can act on asks for.
pub open spec fn spec_command_request(m: Seq<char>) -> CommandRequest {
    match spec_command_outcome(m) {
        Ok(r) => r,
        Err(_) => CommandRequest::Other,
    }
}

/// Why the server cannot act on the line `msg`: it has no word, `mem` has
/// no second word, `mem dump` has no address, or the address does not read
/// as a hexadecimal number. `None` for every other line.
pub fn command_fault(msg: &str) -> (r: Option<CommandFault>)
    ensures
        r == spec_command_fault(msg@),
{
    match read_command(msg) {
        Err(f) => Some(f),
        Ok(_) => None,
    }
}

/// Reads what the line `msg` asks for: `mem dump ADDR [LEN]` asks for a
/// dump of `LEN` bytes at `ADDR` (both hexadecimal), where `LEN` is 1 when
/// it is missing or does not read as a number; any other line asks for
/// nothing. The line must be one the server can act on (see
/// `command_fault`).
pub fn command_request(msg: &str) -> (r: CommandRequest)
    requires
        spec_command_fault(msg@) is None,
    ensures
        r == spec_command_request(msg@),
{
    match read_command(msg) {
        Ok(r) => r,
        Err(_) => CommandRequest::Other,
    }
}

/// The text sent back for a request: for a dump, the bytes read at its
/// address rendered eight to a line; for anything else, nothing.
pub open spec fn spec_command_reply(req: CommandRequest, memory: Seq<u8>) -> Seq<char> {
    match req {
        CommandRequest::Dump { .. } => u8_dump_text(memory, 8),
        CommandRequest::Other => Seq::empty(),
    }
}

/// The reply to `req`, given the `len` bytes read at its address when it
/// asks for a dump.
pub fn command_reply(req: &CommandRequest, memory: &[u8]) -> (s: String)
    requires
        req matches CommandRequest::Dump { len, .. } ==> memory.len() == len,
    ensures
        s@ == spec_command_reply(*req, memory@),
{
    match req {
        CommandRequest::Dump { .. } => dump_mem_u8(memory, 8),
        CommandRequest::Other => String::new(),
    }
}

// ---------------------------------------------------------------------------
// White space around a line does not matter
// ---------------------------------------------------------------------------

/// Every character of `w` is white space.
pub open spec fn all_whitespace(w: Seq<char>) -> bool {
    forall|i: int| 0 <= i < w.len() ==> is_whitespace(#[trigger] w[i])
}

proof fn lemma_word_end_shift(x: Seq<char>, y: Seq<char>, p: int)
    requires
        0 <= p,
    ensures
        spec_word_end(x + y, x.len() + p) == x.len() + spec_word_end(y, p),
    decreases y.len() - p,
{
    if p < y.len() {
        assert((x + y)[x.len() + p] == y[p]);
        lemma_word_end_shift(x, y, p + 1);
    }
}

proof fn lemma_words_shift(x: Seq<char>, y: Seq<char>, p: int)
    requires
        0 <= p,
    ensures
        spec_words(x + y, x.len() + p) == spec_words(y, p),
    decreases y.len() - p,
{
    if p < y.len() {
        assert((x + y)[x.len() + p] == y[p]);
        if is_whitespace(y[p]) {
            lemma_words_shift(x, y, p + 1);
        } else {
            lemma_word_end_shift(x, y, p);
            lemma_word_end_bounds(y, p);
            let e = spec_word_end(y, p);
            lemma_words_shift(x, y, e);
            assert((x + y).subrange(x.len() + p, x.len() + e) =~= y.subrange(p, e));
        }
    }
}

proof fn lemma_words_skip_leading(x: Seq<char>, y: Seq<char>, k: int)
    requires
        0 <= k <= x.len(),
        all_whitespace(x),
    ensures
        spec_words(x + y, k) == spec_words(x + y, x.len() as int),
    decreases x.len() - k,
{
    if k < x.len() {
        assert((x + y)[k] == x[k]);
        lemma_words_skip_leading(x, y, k + 1);
    }
}

proof fn lemma_word_end_trailing(m: Seq<char>, w: Seq<char>, p: int)
    requires
        0 <= p <= m.len(),
        all_whitespace(w),
    ensures
        spec_word_end(m + w, p) == spec_word_end(m, p),
    decreases m.len() - p,
{
    if p < m.len() {
        assert((m + w)[p] == m[p]);
        lemma_word_end_trailing(m, w, p + 1);
    } else if w.len() > 0 {
        assert((m + w)[p] == w[0]);
    }
}

proof fn lemma_words_trailing(m: Seq<char>, w: Seq<char>, p: int)
    requires
        0 <= p,
        all_whitespace(w),
    ensures
        spec_words(m + w, p) == spec_words(m, p),
    decreases (m + w).len() - p,
{
    if p < (m + w).len() {
        if p >= m.len() {
            assert((m + w)[p] == w[p - m.len()]);
            lemma_words_trailing(m, w, p + 1);
        } else {
            assert((m + w)[p] == m[p]);
            if is_whitespace(m[p]) {
                lemma_words_trailing(m, w, p + 1);
            } else {
                lemma_word_end_trailing(m, w, p);
                lemma_word_end_bounds(m, p);
                let e = spec_word_end(m, p);
                lemma_words_trailing(m, w, e);
                assert((m + w).subrange(p, e) =~= m.subrange(p, e));
            }
        }
    }
}

/// White space before and after a line does not change what it asks for.
pub proof fn law_command_request_ignores_surrounding_space(
    before: Seq<char>,
    m: Seq<char>,
    after: Seq<char>,
)
    requires
        all_whitespace(before),
        all_whitespace(after),
    ensures
        spec_command_outcome(before + m + after) == spec_command_outcome(m),
        spec_command_fault(before + m + after) == spec_command_fault(m),
        spec_command_request(before + m + after) == spec_command_request(m),
{
    lemma_words_skip_leading(before, m + after, 0);
    lemma_words_shift(before, m + after, 0);
    lemma_words_trailing(m, after, 0);
    assert(before + m + after =~= before + (m + after));
    assert(spec_words(before + m + after, 0) == spec_words(m, 0));
}

// ---------------------------------------------------------------------------
// A dump line asks for the address and length it writes
// ---------------------------------------------------------------------------

/// No character of `w` is white space.
pub open spec fn no_whitespace(w: Seq<char>) -> bool {
    forall|i: int| 0 <= i < w.len() ==> !is_whitespace(#[trigger] w[i])
}

proof fn lemma_word_end_run(s: Seq<char>, p: int, e: int)
    requires
        0 <= p <= e <= s.len(),
        forall|k: int| p <= k < e ==> !is_whitespace(#[trigger] s[k]),
        e == s.len() || is_whitespace(s[e]),
    ensures
        spec_word_end(s, p) == e,
    decreases e - p,
{
    if p < e {
        lemma_word_end_run(s, p + 1, e);
    }
}

proof fn lemma_words_single(w: Seq<char>)
    requires
        w.len() >= 1,
        no_whitespace(w),
    ensures
        spec_words(w, 0) == seq![w],
{
    lemma_word_end_run(w, 0, w.len() as int);
    assert(!is_whitespace(w[0]));
    assert(spec_words(w, w.len() as int) == Seq::<Seq<char>>::empty());
    assert(w.subrange(0, w.len() as int) =~= w);
    assert(seq![w] + Seq::<Seq<char>>::empty() =~= seq![w]);
}

proof fn lemma_words_cons(w: Seq<char>, rest: Seq<char>)
    requires
        w.len() >= 1,
        no_whitespace(w),
    ensures
        spec_words(w + seq![' '] + rest, 0) == seq![w] + spec_words(rest, 0),
{
    let x = w + seq![' '];
    let s = w + seq![' '] + rest;
    let n = w.len() as int;
    assert(s =~= x + rest);
    assert forall|k: int| 0 <= k < n implies !is_whitespace(#[trigger] s[k]) by {
        assert(s[k] == w[k]);
    }
    assert(s[n] == ' ');
    lemma_word_end_run(s, 0, n);
    assert(s.subrange(0, n) =~= w);
    assert(spec_words(s, n) == spec_words(s, n + 1));
    lemma_words_shift(x, rest, 0);
}

/// The line `mem dump A L`.
pub open spec fn dump_line(a: Seq<char>, l: Seq<char>) -> Seq<char> {
    seq!['m', 'e', 'm', ' ', 'd', 'u', 'm', 'p', ' '] + a + seq![' '] + l
}

/// The line `mem dump A`.
pub open spec fn dump_line_no_len(a: Seq<char>) -> Seq<char> {
    seq!['m', 'e', 'm', ' ', 'd', 'u', 'm', 'p', ' '] + a
}

proof fn lemma_dump_line_words(a: Seq<char>, l: Seq<char>)
    requires
        a.len() >= 1,
        no_whitespace(a),
        l.len() >= 1,
        no_whitespace(l),
    ensures
        spec_words(dump_line(a, l), 0) == seq![seq!['m', 'e', 'm'], seq!['d', 'u', 'm', 'p'], a, l],
        spec_words(dump_line_no_len(a), 0) == seq![seq!['m', 'e', 'm'], seq!['d', 'u', 'm', 'p'], a],
{
    let mem = seq!['m', 'e', 'm'];
    let dump = seq!['d', 'u', 'm', 'p'];
    let tail = a + seq![' '] + l;
    assert(dump_line(a, l) =~= mem + seq![' '] + (dump + seq![' '] + tail));
    assert(dump_line_no_len(a) =~= mem + seq![' '] + (dump + seq![' '] + a));
    lemma_words_cons(mem, dump + seq![' '] + tail);
    lemma_words_cons(dump, tail);
    lemma_words_cons(a, l);
    lemma_words_single(l);
    lemma_words_cons(mem, dump + seq![' '] + a);
    lemma_words_cons(dump, a);
    lemma_words_single(a);
    assert(seq![mem] + (seq![dump] + (seq![a] + seq![l])) =~= seq![mem, dump, a, l]);
    assert(seq![mem] + (seq![dump] + seq![a]) =~= seq![mem, dump, a]);
}

/// What a line asks for when its words are `mem dump A L`.
proof fn lemma_outcome_of_four_words(m: Seq<char>, a: Seq<char>, l: Seq<char>)
    requires
        spec_words(m, 0) == seq![seq!['m', 'e', 'm'], seq!['d', 'u', 'm', 'p'], a, l],
    ensures
        spec_command_outcome(m) == match spec_parse_hex(a) {
            Err(e) => Err(CommandFault::BadAddress(e)),
            Ok(x) => Ok(
                CommandRequest::Dump {
                    addr: x as usize,
                    len: match spec_parse_hex(l) {
                        Ok(y) => y as usize,
                        Err(_) => 1usize,
                    },
                },
            ),
        },
{
    let w = spec_words(m, 0);
    assert(w.len() == 4 && w[0] == seq!['m', 'e', 'm'] && w[1] == seq!['d', 'u', 'm', 'p']
        && w[2] == a && w[3] == l);
}

/// What a line asks for when its words are `mem dump A`.
proof fn lemma_outcome_of_three_words(m: Seq<char>, a: Seq<char>)
    requires
        spec_words(m, 0) == seq![seq!['m', 'e', 'm'], seq!['d', 'u', 'm', 'p'], a],
    ensures
        spec_command_outcome(m) == match spec_parse_hex(a) {
            Err(e) => Err(CommandFault::BadAddress(e)),
            Ok(x) => Ok(CommandRequest::Dump { addr: x as usize, len: 1usize }),
        },
{
    let w = spec_words(m, 0);
    assert(w.len() == 3 && w[0] == seq!['m', 'e', 'm'] && w[1] == seq!['d', 'u', 'm', 'p']
        && w[2] == a);
}

/// A line `mem dump A L` asks for a dump at the address that `parse_hex`
/// reads from `A`, of the length it reads from `L` (1 when `L` does not
/// read), over the whole `usize` range; it is refused exactly when `A`
/// does not read, with `parse_hex`'s error. Without `L` the length is 1.
pub proof fn law_dump_line_reads_address_and_length(a: Seq<char>, l: Seq<char>)
    requires
        a.len() >= 1,
        no_whitespace(a),
        l.len() >= 1,
        no_whitespace(l),
    ensures
        spec_parse_hex(a) matches Ok(x) ==> spec_command_outcome(dump_line(a, l)) == Ok::<
            CommandRequest,
            CommandFault,
        >(
            CommandRequest::Dump {
                addr: x as usize,
                len: match spec_parse_hex(l) {
                    Ok(y) => y as usize,
                    Err(_) => 1usize,
                },
            },
        ),
        spec_parse_hex(a) matches Ok(x) ==> spec_command_outcome(dump_line_no_len(a)) == Ok::<
            CommandRequest,
            CommandFault,
        >(CommandRequest::Dump { addr: x as usize, len: 1 }),
        spec_parse_hex(a) matches Err(e) ==> spec_command_outcome(dump_line(a, l)) == Err::<
            CommandRequest,
            CommandFault,
        >(CommandFault::BadAddress(e)),
        spec_parse_hex(a) matches Err(e) ==> spec_command_outcome(dump_line_no_len(a)) == Err::<
            CommandRequest,
            CommandFault,
        >(CommandFault::BadAddress(e)),
{
    lemma_dump_line_words(a, l);
    lemma_outcome_of_four_words(dump_line(a, l), a, l);
    lemma_outcome_of_three_words(dump_line_no_len(a), a);
}

proof fn lemma_hex_literal_no_whitespace(v: nat, n: nat)
    ensures
        no_whitespace(crate::mem_dump::hex_literal(v, n)),
        crate::mem_dump::hex_literal(v, n).len() == n + 2,
{
    let t = crate::mem_dump::hex_literal(v, n);
    crate::hex::lemma_hex_digits_len(v, n);
    assert forall|i: int| 0 <= i < t.len() implies !is_whitespace(#[trigger] t[i]) by {
        if i >= 2 {
            crate::mem_dump::lemma_hex_digits_chars(v, n, i - 2);
            assert(t[i] == crate::hex::hex_digits(v, n)[i - 2]);
        }
    }
}

/// `mem dump 0x<addr> 0x<len>`, with the address and the length written in
/// hexadecimal as a dump writes them, asks for a dump of exactly that length
/// at exactly that address, for every address and length that is a
/// `usize`; without the length it asks for one byte.
pub proof fn law_dump_line_of_hex_literals(x: nat, n: nat, y: nat, m: nat)
    requires
        0 < n,
        x < crate::hex::pow16(n),
        x <= usize::MAX,
        0 < m,
        y < crate::hex::pow16(m),
        y <= usize::MAX,
    ensures
        spec_command_fault(dump_line(crate::mem_dump::hex_literal(x, n), crate::mem_dump::hex_literal(y, m))) is None,
        spec_command_request(dump_line(crate::mem_dump::hex_literal(x, n), crate::mem_dump::hex_literal(y, m)))
            == (CommandRequest::Dump { addr: x as usize, len: y as usize }),
        spec_command_fault(dump_line_no_len(crate::mem_dump::hex_literal(x, n))) is None,
        spec_command_request(dump_line_no_len(crate::mem_dump::hex_literal(x, n))) == (
        CommandRequest::Dump { addr: x as usize, len: 1 }),
{
    let a = crate::mem_dump::hex_literal(x, n);
    let l = crate::mem_dump::hex_literal(y, m);
    lemma_hex_literal_no_whitespace(x, n);
    lemma_hex_literal_no_whitespace(y, m);
    crate::mem_dump::law_parse_hex_reads_dump_literal(x, n);
    crate::mem_dump::law_parse_hex_reads_dump_literal(y, m);
    law_dump_line_reads_address_and_length(a, l);
}

} // verus!
