//! The lexical grammar, as functions on the bytes of the input.
//!
//! Each function takes the bytes and a position and yields what is read there with
//! the position after it, or the offset at which reading fails.
use vstd::prelude::*;
use vstd::utf8::decode_utf8;
use crate::num::FloatView;
use crate::text::{dec_value, is_digit, is_lead, is_trail, pair_scalar};

verus! {

/// What a decoder of floats yields for each decimal text.
pub type Oracle = spec_fn(Seq<char>) -> Option<FloatView>;

/// A token, as contracts see it.
pub enum Lexeme {
    Null,
    Bool(bool),
    NumU(u64),
    NumI(i64),
    NumF(FloatView),
    Str(Seq<char>),
    Colon,
    Comma,
    ObjectBegin,
    ObjectEnd,
    ArrayBegin,
    ArrayEnd,
}

/// What stands at a position, before the decoder of floats is asked: a token, or the
/// text of a number that only the decoder can turn into a token.
pub enum Scanned {
    Token(Lexeme),
    Float(Seq<char>),
}

/// Space, tab, line feed or carriage return.
pub open spec fn is_blank(b: u8) -> bool {
    b == 0x20 || b == 0x09 || b == 0x0a || b == 0x0d
}

/// The first position from `pos` on that holds no blank byte.
pub open spec fn skip_blank(s: Seq<u8>, pos: int) -> int
    decreases s.len() - pos,
{
    if 0 <= pos < s.len() && is_blank(s[pos]) {
        skip_blank(s, pos + 1)
    } else {
        pos
    }
}

/// The position of the first line feed from `pos` on, or the end of the input.
pub open spec fn line_end(s: Seq<u8>, pos: int) -> int
    decreases s.len() - pos,
{
    if 0 <= pos < s.len() && s[pos] != 0x0a {
        line_end(s, pos + 1)
    } else {
        pos
    }
}

/// The position after the first `*/` from `pos` on, if there is one.
pub open spec fn block_end(s: Seq<u8>, pos: int) -> Option<int>
    decreases s.len() - pos,
{
    if pos < 0 || pos + 1 >= s.len() {
        None
    } else if s[pos] == 0x2a && s[pos + 1] == 0x2f {
        Some(pos + 2)
    } else {
        block_end(s, pos + 1)
    }
}

/// Skipping blanks stays within the input and ends on a byte that is no blank.
pub proof fn lemma_skip_blank_bounds(s: Seq<u8>, pos: int)
    requires
        0 <= pos <= s.len(),
    ensures
        pos <= skip_blank(s, pos) <= s.len(),
        skip_blank(s, pos) < s.len() ==> !is_blank(s[skip_blank(s, pos)]),
    decreases s.len() - pos,
{
    if pos < s.len() && is_blank(s[pos]) {
        lemma_skip_blank_bounds(s, pos + 1);
    }
}

/// The end of a line lies at or behind where the search for it starts.
pub proof fn lemma_line_end_bounds(s: Seq<u8>, pos: int)
    requires
        0 <= pos <= s.len(),
    ensures
        pos <= line_end(s, pos) <= s.len(),
    decreases s.len() - pos,
{
    if pos < s.len() && s[pos] != 0x0a {
        lemma_line_end_bounds(s, pos + 1);
    }
}

/// The end of a block comment lies behind where the search for it starts.
pub proof fn lemma_block_end_bounds(s: Seq<u8>, pos: int)
    requires
        0 <= pos <= s.len(),
    ensures
        block_end(s, pos) matches Some(e) ==> pos + 2 <= e <= s.len(),
    decreases s.len() - pos,
{
    if pos + 1 < s.len() && !(s[pos] == 0x2a && s[pos + 1] == 0x2f) {
        lemma_block_end_bounds(s, pos + 1);
    }
}

/// The position of the next token from `pos` on: after blanks and, where the dialect
/// has them, comments. A block comment that is not closed fails at the end of the
/// input.
pub open spec fn skip_space(s: Seq<u8>, pos: int, comments: bool) -> Result<int, int>
    decreases s.len() - pos,
{
    if pos < 0 || pos > s.len() {
        Ok(pos)
    } else {
        let p = skip_blank(s, pos);
        proof {
            lemma_skip_blank_bounds(s, pos);
        }
        if comments && p + 1 < s.len() && s[p] == 0x2f && s[p + 1] == 0x2f {
            proof {
                lemma_line_end_bounds(s, p + 2);
            }
            skip_space(s, line_end(s, p + 2), comments)
        } else if comments && p + 1 < s.len() && s[p] == 0x2f && s[p + 1] == 0x2a {
            proof {
                lemma_block_end_bounds(s, p + 2);
            }
            match block_end(s, p + 2) {
                Some(e) => skip_space(s, e, comments),
                None => Err(s.len() as int),
            }
        } else {
            Ok(p)
        }
    }
}

/// After the first byte of a word: the position after the word, or the offset after
/// the first byte that differs.
pub open spec fn lex_word(s: Seq<u8>, pos: int, word: Seq<u8>) -> Result<int, int>
    decreases word.len(),
{
    if word.len() == 0 {
        Ok(pos)
    } else if pos < 0 || pos >= s.len() {
        Err(s.len() as int)
    } else if s[pos] != word[0] {
        Err(pos + 1)
    } else {
        lex_word(s, pos + 1, word.drop_first())
    }
}

/// The value of a hexadecimal digit.
pub open spec fn hex_value(b: u8) -> Option<nat> {
    if 48 <= b <= 57 {
        Some((b - 48) as nat)
    } else if 97 <= b <= 102 {
        Some((b - 87) as nat)
    } else if 65 <= b <= 70 {
        Some((b - 55) as nat)
    } else {
        None
    }
}

/// The value of `n` hexadecimal digits at `pos`, on top of `acc`.
pub open spec fn lex_hex(s: Seq<u8>, pos: int, n: nat, acc: nat) -> Result<(nat, int), int>
    decreases n,
{
    if n == 0 {
        Ok((acc, pos))
    } else if pos < 0 || pos >= s.len() {
        Err(s.len() as int)
    } else {
        match hex_value(s[pos]) {
            Some(d) => lex_hex(s, pos + 1, (n - 1) as nat, acc * 16 + d),
            None => Err(pos + 1),
        }
    }
}

/// The character that stands for an ill-formed escape.
pub open spec fn replacement() -> char {
    '\u{FFFD}'
}

/// After `\u`: one code unit, or a surrogate pair of two escapes. A lone surrogate
/// gives the replacement character, and an escape that does not complete the pair
/// is left to be read on its own.
pub open spec fn lex_unicode(s: Seq<u8>, pos: int) -> Result<(char, int), int> {
    match lex_hex(s, pos, 4, 0) {
        Err(e) => Err(e),
        Ok((lead, p)) => {
            if !is_lead(lead as u16) && !is_trail(lead as u16) {
                Ok((lead as char, p))
            } else if is_trail(lead as u16) {
                Ok((replacement(), p))
            } else if !(p + 1 < s.len() && s[p] == 0x5c && s[p + 1] == 0x75) {
                Ok((replacement(), p))
            } else {
                match lex_hex(s, p + 2, 4, 0) {
                    Err(e) => Err(e),
                    Ok((trail, q)) => {
                        if is_trail(trail as u16) {
                            Ok((pair_scalar(lead as u16, trail as u16) as char, q))
                        } else {
                            Ok((replacement(), p))
                        }
                    },
                }
            }
        },
    }
}

/// After a backslash: the character that the escape stands for.
pub open spec fn lex_escape(s: Seq<u8>, pos: int) -> Result<(char, int), int> {
    if pos < 0 || pos >= s.len() {
        Err(s.len() as int)
    } else if s[pos] == 0x62 {
        Ok(('\u{8}', pos + 1))
    } else if s[pos] == 0x66 {
        Ok(('\u{c}', pos + 1))
    } else if s[pos] == 0x6e {
        Ok(('\n', pos + 1))
    } else if s[pos] == 0x72 {
        Ok(('\r', pos + 1))
    } else if s[pos] == 0x74 {
        Ok(('\t', pos + 1))
    } else if s[pos] == 0x5c {
        Ok(('\\', pos + 1))
    } else if s[pos] == 0x2f {
        Ok(('/', pos + 1))
    } else if s[pos] == 0x22 {
        Ok(('"', pos + 1))
    } else if s[pos] == 0x75 {
        lex_unicode(s, pos + 1)
    } else {
        Err(pos + 1)
    }
}

/// The first position from `pos` on that holds a quote or a backslash, or the end
/// of the input.
pub open spec fn span_end(s: Seq<u8>, pos: int) -> int
    decreases s.len() - pos,
{
    if 0 <= pos < s.len() && s[pos] != 0x22 && s[pos] != 0x5c {
        span_end(s, pos + 1)
    } else {
        pos
    }
}

/// A span ends within the input, on a quote or a backslash if it ends before the
/// end of the input.
pub proof fn lemma_span_end_bounds(s: Seq<u8>, pos: int)
    requires
        0 <= pos <= s.len(),
    ensures
        pos <= span_end(s, pos) <= s.len(),
        span_end(s, pos) < s.len() ==> s[span_end(s, pos)] == 0x22 || s[span_end(s, pos)] == 0x5c,
    decreases s.len() - pos,
{
    if pos < s.len() && s[pos] != 0x22 && s[pos] != 0x5c {
        lemma_span_end_bounds(s, pos + 1);
    }
}

/// Hexadecimal digits are read one byte each, and all of them are ASCII.
pub proof fn lemma_lex_hex_bounds(s: Seq<u8>, pos: int, n: nat, acc: nat)
    requires
        0 <= pos <= s.len(),
    ensures
        match lex_hex(s, pos, n, acc) {
            Ok((v, p)) => p == pos + n && p <= s.len() && (n > 0 ==> s[p - 1] < 0x80),
            Err(e) => pos <= e <= s.len(),
        },
    decreases n,
{
    if n > 0 && pos < s.len() {
        match hex_value(s[pos]) {
            Some(d) => {
                lemma_lex_hex_bounds(s, pos + 1, (n - 1) as nat, acc * 16 + d);
            },
            None => {},
        }
    }
}

/// Four hexadecimal digits are worth less than 0x10000.
pub proof fn lemma_lex_hex4_value(s: Seq<u8>, pos: int)
    requires
        0 <= pos <= s.len(),
    ensures
        lex_hex(s, pos, 4, 0) matches Ok((v, p)) ==> v < 0x10000,
{
    reveal_with_fuel(lex_hex, 5);
}

/// An escape is read to a position behind an ASCII byte.
pub proof fn lemma_lex_escape_bounds(s: Seq<u8>, pos: int)
    requires
        0 <= pos <= s.len(),
    ensures
        match lex_escape(s, pos) {
            Ok((c, p)) => pos < p <= s.len() && s[p - 1] < 0x80,
            Err(e) => pos <= e <= s.len(),
        },
{
    if pos < s.len() && s[pos] == 0x75 {
        lemma_lex_hex_bounds(s, pos + 1, 4, 0);
        match lex_hex(s, pos + 1, 4, 0) {
            Ok((lead, p)) => {
                if p + 1 < s.len() {
                    lemma_lex_hex_bounds(s, p + 2, 4, 0);
                }
            },
            Err(_) => {},
        }
    }
}

/// After the opening quote, with `acc` read so far: the string's characters. The
/// bytes up to the next quote or backslash are taken as they are; an escape gives
/// one character; the input must not end before the closing quote.
pub open spec fn lex_string(s: Seq<u8>, pos: int, acc: Seq<char>) -> Result<(Seq<char>, int), int>
    decreases s.len() - pos,
{
    if pos < 0 || pos > s.len() {
        Err(pos)
    } else {
        let p = span_end(s, pos);
        proof {
            lemma_span_end_bounds(s, pos);
        }
        if p >= s.len() {
            Err(p)
        } else {
            let acc2 = acc + decode_utf8(s.subrange(pos, p));
            if s[p] == 0x22 {
                Ok((acc2, p + 1))
            } else {
                proof {
                    lemma_lex_escape_bounds(s, p + 1);
                }
                match lex_escape(s, p + 1) {
                    Err(e) => Err(e),
                    Ok((c, next)) => lex_string(s, next, acc2.push(c)),
                }
            }
        }
    }
}

/// One of `.`, `e`, `E`, `+`, `-`: a byte that makes a number a float.
pub open spec fn is_float_mark(b: u8) -> bool {
    b == 0x2e || b == 0x65 || b == 0x45 || b == 0x2b || b == 0x2d
}

/// A byte that may follow a number: `,`, `}`, `]` or a blank, and `/` where the
/// dialect has comments.
pub open spec fn is_delim(b: u8, comments: bool) -> bool {
    b == 0x2c || b == 0x7d || b == 0x5d || is_blank(b) || (comments && b == 0x2f)
}

/// The end of the number whose bytes run up to `pos`: the first delimiter or the end
/// of the input. Any byte that is neither a delimiter nor part of a number fails.
pub open spec fn num_end(s: Seq<u8>, pos: int, comments: bool) -> Result<int, int>
    decreases s.len() - pos,
{
    if pos < 0 || pos >= s.len() {
        Ok(pos)
    } else if is_digit(s[pos]) || is_float_mark(s[pos]) {
        num_end(s, pos + 1, comments)
    } else if is_delim(s[pos], comments) {
        Ok(pos)
    } else {
        Err(pos)
    }
}

/// Some byte makes the number a float.
pub open spec fn has_float_mark(s: Seq<u8>) -> bool {
    exists|i: int| 0 <= i < s.len() && is_float_mark(#[trigger] s[i])
}

/// The number that starts at `start` with a minus sign or a digit. Digits alone are
/// an unsigned integer if they fit in 64 bits; a minus sign and digits are a negative
/// integer if it fits in 64 bits (minus zero is the unsigned zero). Everything else
/// is text for the decoder of floats.
pub open spec fn scan_number(s: Seq<u8>, start: int, comments: bool) -> Result<(Scanned, int), int> {
    match num_end(s, start + 1, comments) {
        Err(e) => Err(e),
        Ok(end) => {
            let neg = s[start] == 0x2d;
            let digits = if neg {
                s.subrange(start + 1, end)
            } else {
                s.subrange(start, end)
            };
            if !has_float_mark(s.subrange(start + 1, end)) && digits.len() > 0 && dec_value(digits)
                <= (if neg {
                0x8000_0000_0000_0000nat
            } else {
                0xffff_ffff_ffff_ffffnat
            }) {
                if neg && dec_value(digits) > 0 {
                    Ok((Scanned::Token(Lexeme::NumI((-dec_value(digits)) as i64)), end))
                } else {
                    Ok((Scanned::Token(Lexeme::NumU(dec_value(digits) as u64)), end))
                }
            } else {
                Ok((Scanned::Float(decode_utf8(s.subrange(start, end))), end))
            }
        },
    }
}

/// The token that is made of what stands at a position: the token itself, or what
/// the decoder of floats makes of the text of a number, which fails behind the text
/// where the decoder makes nothing of it.
pub open spec fn resolve(x: Scanned, end: int, oracle: Oracle) -> Result<(Lexeme, int), int> {
    match x {
        Scanned::Token(t) => Ok((t, end)),
        Scanned::Float(text) => match oracle(text) {
            Some(f) => Ok((Lexeme::NumF(f), end)),
            None => Err(end),
        },
    }
}

/// The bytes of `rue`: what follows the first byte of the keyword.
pub open spec fn word_true() -> Seq<u8> {
    seq![0x72u8, 0x75u8, 0x65u8]
}

/// The bytes of `alse`.
pub open spec fn word_false() -> Seq<u8> {
    seq![0x61u8, 0x6cu8, 0x73u8, 0x65u8]
}

/// The bytes of `ull`.
pub open spec fn word_null() -> Seq<u8> {
    seq![0x75u8, 0x6cu8, 0x6cu8]
}

/// A result with its value replaced.
pub open spec fn scan_as(r: Result<int, int>, lexeme: Lexeme) -> Result<Option<(Scanned, int)>, int> {
    match r {
        Ok(p) => Ok(Some((Scanned::Token(lexeme), p))),
        Err(e) => Err(e),
    }
}

/// What stands at `pos`, after blanks and comments, with the position after it;
/// nothing at the end of the input.
#[verifier::opaque]
pub open spec fn scan_token(s: Seq<u8>, pos: int, comments: bool) -> Result<
    Option<(Scanned, int)>,
    int,
> {
    match skip_space(s, pos, comments) {
        Err(e) => Err(e),
        Ok(p) => {
            if p >= s.len() {
                Ok(None)
            } else if s[p] == 0x3a {
                Ok(Some((Scanned::Token(Lexeme::Colon), p + 1)))
            } else if s[p] == 0x2c {
                Ok(Some((Scanned::Token(Lexeme::Comma), p + 1)))
            } else if s[p] == 0x7b {
                Ok(Some((Scanned::Token(Lexeme::ObjectBegin), p + 1)))
            } else if s[p] == 0x7d {
                Ok(Some((Scanned::Token(Lexeme::ObjectEnd), p + 1)))
            } else if s[p] == 0x5b {
                Ok(Some((Scanned::Token(Lexeme::ArrayBegin), p + 1)))
            } else if s[p] == 0x5d {
                Ok(Some((Scanned::Token(Lexeme::ArrayEnd), p + 1)))
            } else if s[p] == 0x22 {
                match lex_string(s, p + 1, seq![]) {
                    Ok((chars, q)) => Ok(Some((Scanned::Token(Lexeme::Str(chars)), q))),
                    Err(e) => Err(e),
                }
            } else if s[p] == 0x74 {
                scan_as(lex_word(s, p + 1, word_true()), Lexeme::Bool(true))
            } else if s[p] == 0x66 {
                scan_as(lex_word(s, p + 1, word_false()), Lexeme::Bool(false))
            } else if s[p] == 0x6e {
                scan_as(lex_word(s, p + 1, word_null()), Lexeme::Null)
            } else if s[p] == 0x2d || is_digit(s[p]) {
                match scan_number(s, p, comments) {
                    Ok((n, q)) => Ok(Some((n, q))),
                    Err(e) => Err(e),
                }
            } else {
                Err(p + 1)
            }
        },
    }
}

/// The token at `pos`, after blanks and comments, with the position after it; no
/// token at the end of the input.
pub open spec fn lex_token(s: Seq<u8>, pos: int, comments: bool, oracle: Oracle) -> Result<
    Option<(Lexeme, int)>,
    int,
> {
    match scan_token(s, pos, comments) {
        Err(e) => Err(e),
        Ok(None) => Ok(None),
        Ok(Some((x, end))) => match resolve(x, end, oracle) {
            Ok(t) => Ok(Some(t)),
            Err(e) => Err(e),
        },
    }
}

/// Skipping blanks and comments never goes back and stays within the input.
pub proof fn lemma_skip_space_bounds(s: Seq<u8>, pos: int, comments: bool)
    requires
        0 <= pos <= s.len(),
    ensures
        match skip_space(s, pos, comments) {
            Ok(p) => pos <= p <= s.len(),
            Err(e) => e == s.len(),
        },
    decreases s.len() - pos,
{
    let p = skip_blank(s, pos);
    lemma_skip_blank_bounds(s, pos);
    if comments && p + 1 < s.len() && s[p] == 0x2f && s[p + 1] == 0x2f {
        lemma_line_end_bounds(s, p + 2);
        lemma_skip_space_bounds(s, line_end(s, p + 2), comments);
    } else if comments && p + 1 < s.len() && s[p] == 0x2f && s[p + 1] == 0x2a {
        lemma_block_end_bounds(s, p + 2);
        match block_end(s, p + 2) {
            Some(e) => {
                lemma_skip_space_bounds(s, e, comments);
            },
            None => {},
        }
    }
}

/// A word is read to the position behind it.
pub proof fn lemma_lex_word_bounds(s: Seq<u8>, pos: int, word: Seq<u8>)
    requires
        0 <= pos <= s.len(),
    ensures
        match lex_word(s, pos, word) {
            Ok(p) => p == pos + word.len() && p <= s.len(),
            Err(e) => pos <= e <= s.len(),
        },
    decreases word.len(),
{
    if word.len() > 0 && pos < s.len() && s[pos] == word[0] {
        lemma_lex_word_bounds(s, pos + 1, word.drop_first());
    }
}

/// A string is read to a position behind its closing quote.
pub proof fn lemma_lex_string_bounds(s: Seq<u8>, pos: int, acc: Seq<char>)
    requires
        0 <= pos <= s.len(),
    ensures
        match lex_string(s, pos, acc) {
            Ok((chars, p)) => pos < p <= s.len(),
            Err(e) => pos <= e <= s.len(),
        },
    decreases s.len() - pos,
{
    let p = span_end(s, pos);
    lemma_span_end_bounds(s, pos);
    if p < s.len() && s[p] != 0x22 {
        lemma_lex_escape_bounds(s, p + 1);
        match lex_escape(s, p + 1) {
            Ok((c, next)) => {
                lemma_lex_string_bounds(s, next, (acc + decode_utf8(s.subrange(pos, p))).push(c));
            },
            Err(_) => {},
        }
    }
}

/// The end of a number lies at or behind where the search for it starts.
pub proof fn lemma_num_end_bounds(s: Seq<u8>, pos: int, comments: bool)
    requires
        0 <= pos <= s.len(),
    ensures
        match num_end(s, pos, comments) {
            Ok(e) => pos <= e <= s.len() && (forall|i: int|
                pos <= i < e ==> is_digit(#[trigger] s[i]) || is_float_mark(s[i])) && (e < s.len()
                ==> is_delim(s[e], comments)),
            Err(e) => pos <= e < s.len(),
        },
    decreases s.len() - pos,
{
    if pos < s.len() && (is_digit(s[pos]) || is_float_mark(s[pos])) {
        lemma_num_end_bounds(s, pos + 1, comments);
    }
}

/// Whatever stands at a position takes at least one byte.
pub proof fn lemma_scan_token_advances(s: Seq<u8>, pos: int, comments: bool)
    requires
        0 <= pos <= s.len(),
    ensures
        match scan_token(s, pos, comments) {
            Ok(Some((t, p))) => pos < p <= s.len(),
            Ok(None) => true,
            Err(e) => pos <= e <= s.len(),
        },
{
    reveal(scan_token);
    lemma_skip_space_bounds(s, pos, comments);
    match skip_space(s, pos, comments) {
        Ok(p) => {
            if p < s.len() {
                lemma_lex_string_bounds(s, p + 1, seq![]);
                lemma_lex_word_bounds(s, p + 1, word_true());
                lemma_lex_word_bounds(s, p + 1, word_false());
                lemma_lex_word_bounds(s, p + 1, word_null());
                lemma_num_end_bounds(s, p + 1, comments);
            }
        },
        Err(_) => {},
    }
}

/// Every token takes at least one byte.
pub proof fn lemma_lex_token_advances(s: Seq<u8>, pos: int, comments: bool, oracle: Oracle)
    requires
        0 <= pos <= s.len(),
    ensures
        match lex_token(s, pos, comments, oracle) {
            Ok(Some((t, p))) => pos < p <= s.len(),
            Ok(None) => true,
            Err(e) => pos <= e <= s.len(),
        },
{
    lemma_scan_token_advances(s, pos, comments);
}

/// Where skipping blanks and comments ends, there is nothing more to skip.
pub proof fn lemma_skip_space_settles(s: Seq<u8>, pos: int, comments: bool)
    requires
        0 <= pos <= s.len(),
    ensures
        skip_space(s, pos, comments) matches Ok(p) ==> skip_space(s, p, comments) == Ok::<int, int>(p),
    decreases s.len() - pos,
{
    let p = skip_blank(s, pos);
    lemma_skip_blank_bounds(s, pos);
    if comments && p + 1 < s.len() && s[p] == 0x2f && s[p + 1] == 0x2f {
        lemma_line_end_bounds(s, p + 2);
        lemma_skip_space_settles(s, line_end(s, p + 2), comments);
    } else if comments && p + 1 < s.len() && s[p] == 0x2f && s[p + 1] == 0x2a {
        lemma_block_end_bounds(s, p + 2);
        match block_end(s, p + 2) {
            Some(e) => {
                lemma_skip_space_settles(s, e, comments);
            },
            None => {},
        }
    } else {
        assert(skip_blank(s, p) == p);
    }
}

/// The token of a closing bracket that stands where skipping ends.
pub proof fn lemma_scan_close(s: Seq<u8>, pos: int, comments: bool)
    requires
        0 <= pos <= s.len(),
        skip_space(s, pos, comments) matches Ok(p) && p < s.len() && (s[p] == 0x5d || s[p] == 0x7d),
    ensures
        ({
            let p = skip_space(s, pos, comments)->Ok_0;
            let t = if s[p] == 0x5d {
                Lexeme::ArrayEnd
            } else {
                Lexeme::ObjectEnd
            };
            &&& scan_token(s, p, comments) == Ok::<Option<(Scanned, int)>, int>(
                Some((Scanned::Token(t), p + 1)),
            )
            &&& scan_token(s, pos, comments) == Ok::<Option<(Scanned, int)>, int>(
                Some((Scanned::Token(t), p + 1)),
            )
        }),
{
    reveal(scan_token);
    lemma_skip_space_settles(s, pos, comments);
}

} // verus!
