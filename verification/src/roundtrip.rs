//! Reading back what was written: the lemmas that lead from the text of a value to
//! the value that the parser makes of it.
use vstd::prelude::*;
use vstd::utf8::{
    encode_scalar, encode_utf8, encode_utf8_decode_utf8, is_ascii_chars,
    is_ascii_chars_encode_utf8, last_continuation_byte, leading_byte_width_2,
    leading_byte_width_3, leading_byte_width_4, second_last_continuation_byte,
    third_last_continuation_byte,
};
use crate::lex::{
    has_float_mark, hex_value, is_blank, is_delim, is_float_mark, lex_escape, lex_hex,
    lex_string, lex_token, lex_word, num_end, scan_token, skip_blank, skip_space, span_end,
    word_false, word_null, word_true, Lexeme, Oracle, Scanned,
};
use crate::text::{all_digits, dec_text, dec_value, digit_char, int_text, is_digit, text_lt};
use crate::num::{is_infinite, is_nan, FloatView, NumView};
use crate::render::{array_entries, object_entries, render};
use crate::parse::{parse_elements, parse_fields, parse_value, scan_read_at};
use crate::read::{lexeme_is, lexeme_str};
use crate::value::{
    json_wf, keys_sorted, lemma_find_key_none, lemma_keys_before, lemma_text_lt_irreflexive,
    with_field, Json,
};
use crate::write::{
    bool_text, close_text, entries_first, entries_text, entry_lead, escape_char, escaped,
    hex_char, key_text, null_text, open_char, put_text, quoted, scope_text, spaces, Entry,
};

verus! {

/// The bytes of `piece` stand in `s` from `pos` on.
pub open spec fn has_at(s: Seq<u8>, pos: int, piece: Seq<u8>) -> bool {
    &&& 0 <= pos
    &&& pos + piece.len() <= s.len()
    &&& s.subrange(pos, pos + piece.len()) == piece
}

/// Only blanks stand in `s` from `from` up to `to`.
pub open spec fn blank_run(s: Seq<u8>, from: int, to: int) -> bool {
    &&& 0 <= from <= to <= s.len()
    &&& forall|k: int| from <= k < to ==> is_blank(#[trigger] s[k])
}

/// All bytes are blanks.
pub open spec fn all_blank(b: Seq<u8>) -> bool {
    forall|k: int| 0 <= k < b.len() ==> is_blank(#[trigger] b[k])
}

/// What stands at `end` may follow a number: the end of the input, or a delimiter.
pub open spec fn follow_ok(s: Seq<u8>, end: int, comments: bool) -> bool {
    end == s.len() || (0 <= end < s.len() && is_delim(s[end], comments))
}

/// Two pieces stand one behind the other exactly when their concatenation stands.
pub proof fn lemma_has_at_split(s: Seq<u8>, pos: int, a: Seq<u8>, b: Seq<u8>)
    ensures
        has_at(s, pos, a + b) <==> has_at(s, pos, a) && has_at(s, pos + a.len(), b),
{
    if has_at(s, pos, a + b) {
        assert(s.subrange(pos, pos + a.len()) =~= (a + b).subrange(0, a.len() as int));
        assert((a + b).subrange(0, a.len() as int) =~= a);
        assert(s.subrange(pos + a.len(), pos + a.len() + b.len()) =~= (a + b).subrange(
            a.len() as int,
            (a + b).len() as int,
        ));
        assert((a + b).subrange(a.len() as int, (a + b).len() as int) =~= b);
    }
    if has_at(s, pos, a) && has_at(s, pos + a.len(), b) {
        assert(s.subrange(pos, pos + a.len() + b.len()) =~= s.subrange(pos, pos + a.len())
            + s.subrange(pos + a.len(), pos + a.len() + b.len()));
    }
}

/// A byte of a piece that stands in `s`.
pub proof fn lemma_has_at_byte(s: Seq<u8>, pos: int, piece: Seq<u8>, k: int)
    requires
        has_at(s, pos, piece),
        0 <= k < piece.len(),
    ensures
        s[pos + k] == piece[k],
{
    assert(s.subrange(pos, pos + piece.len())[k] == s[pos + k]);
}

/// The encoding of a concatenation is the concatenation of the encodings.
pub proof fn lemma_encode_concat(a: Seq<char>, b: Seq<char>)
    ensures
        encode_utf8(a + b) == encode_utf8(a) + encode_utf8(b),
    decreases a.len(),
{
    if a.len() == 0 {
        assert(a + b =~= b);
        assert(encode_utf8(a) + encode_utf8(b) =~= encode_utf8(b));
    } else {
        lemma_encode_concat(a.drop_first(), b);
        assert((a + b).drop_first() =~= a.drop_first() + b);
        assert((a + b)[0] == a[0]);
        assert(encode_utf8(a + b) =~= encode_utf8(a) + encode_utf8(b));
    }
}

/// The encoding of a text of ASCII characters has each character as one byte.
pub proof fn lemma_encode_ascii(a: Seq<char>)
    requires
        is_ascii_chars(a),
    ensures
        encode_utf8(a).len() == a.len(),
        forall|k: int| 0 <= k < a.len() ==> (#[trigger] encode_utf8(a)[k]) == a[k] as u8,
{
    is_ascii_chars_encode_utf8(a);
}

/// No byte of the encoding of a character above U+007F lies below 0x80.
pub proof fn lemma_encode_high(c: char)
    requires
        c as u32 >= 0x80,
    ensures
        forall|k: int| 0 <= k < encode_scalar(c as u32).len() ==> (#[trigger] encode_scalar(c as u32)[k])
            >= 0x80,
        encode_scalar(c as u32).len() >= 1,
{
    let v = c as u32;
    assert(leading_byte_width_2(v) >= 0x80) by {
        assert(0xC0u8 | ((v >> 6) & 0x1F) as u8 >= 0x80) by (bit_vector);
    }
    assert(leading_byte_width_3(v) >= 0x80) by {
        assert(0xE0u8 | ((v >> 12) & 0x0F) as u8 >= 0x80) by (bit_vector);
    }
    assert(leading_byte_width_4(v) >= 0x80) by {
        assert(0xF0u8 | ((v >> 18) & 0x7) as u8 >= 0x80) by (bit_vector);
    }
    assert(last_continuation_byte(v) >= 0x80) by {
        assert(0x80u8 | (v & 0x3F) as u8 >= 0x80) by (bit_vector);
    }
    assert(second_last_continuation_byte(v) >= 0x80) by {
        assert(0x80u8 | ((v >> 6) & 0x3F) as u8 >= 0x80) by (bit_vector);
    }
    assert(third_last_continuation_byte(v) >= 0x80) by {
        assert(0x80u8 | ((v >> 12) & 0x3F) as u8 >= 0x80) by (bit_vector);
    }
}

/// The one byte of the encoding of an ASCII character.
pub proof fn lemma_encode_low(c: char)
    requires
        (c as u32) < 0x80,
    ensures
        encode_scalar(c as u32) == seq![c as u8],
{
    let v = c as u32;
    assert((v & 0x7F) as u8 == v as u8) by (bit_vector)
        requires
            v < 0x80,
    ;
}

/// Skipping from `pos` over a run of blanks ends behind the run, where what follows
/// is neither a blank nor the start of a comment.
pub proof fn lemma_skip_run(s: Seq<u8>, pos: int, to: int, comments: bool)
    requires
        blank_run(s, pos, to),
        to == s.len() || (!is_blank(s[to]) && s[to] != 0x2f),
    ensures
        skip_space(s, pos, comments) == Ok::<int, int>(to),
        skip_blank(s, pos) == to,
    decreases to - pos,
{
    if pos < to {
        lemma_skip_run(s, pos + 1, to, comments);
    }
}

/// The token of a single byte that stands behind a run of blanks.
pub open spec fn punct(b: u8) -> Option<Lexeme> {
    if b == 0x3a {
        Some(Lexeme::Colon)
    } else if b == 0x2c {
        Some(Lexeme::Comma)
    } else if b == 0x7b {
        Some(Lexeme::ObjectBegin)
    } else if b == 0x7d {
        Some(Lexeme::ObjectEnd)
    } else if b == 0x5b {
        Some(Lexeme::ArrayBegin)
    } else if b == 0x5d {
        Some(Lexeme::ArrayEnd)
    } else {
        None
    }
}

/// Behind a run of blanks, a bracket, colon or comma is read as its token.
pub proof fn lemma_token_punct(s: Seq<u8>, w: int, p: int, comments: bool)
    requires
        blank_run(s, w, p),
        p < s.len(),
        punct(s[p]) is Some,
    ensures
        scan_token(s, w, comments) == Ok::<Option<(Scanned, int)>, int>(Some((Scanned::Token(punct(s[p])->0), p + 1))),
{
    reveal(scan_token);
    lemma_skip_run(s, w, p, comments);
}

/// A word that stands in the input is read to its end.
pub proof fn lemma_word_at(s: Seq<u8>, pos: int, word: Seq<u8>)
    requires
        has_at(s, pos, word),
    ensures
        lex_word(s, pos, word) == Ok::<int, int>(pos + word.len()),
    decreases word.len(),
{
    if word.len() > 0 {
        lemma_has_at_byte(s, pos, word, 0);
        assert(word =~= seq![word[0]] + word.drop_first());
        lemma_has_at_split(s, pos, seq![word[0]], word.drop_first());
        lemma_word_at(s, pos + 1, word.drop_first());
    }
}

/// Behind a run of blanks, the text of `null` is read as its token.
pub proof fn lemma_token_null(s: Seq<u8>, w: int, p: int, comments: bool)
    requires
        blank_run(s, w, p),
        has_at(s, p, encode_utf8(null_text())),
    ensures
        encode_utf8(null_text()).len() == 4,
        scan_token(s, w, comments) == Ok::<Option<(Scanned, int)>, int>(Some((Scanned::Token(Lexeme::Null), p + 4))),
{
    reveal(scan_token);
    let b = encode_utf8(null_text());
    lemma_encode_ascii(null_text());
    assert(b =~= seq![0x6eu8] + word_null());
    lemma_has_at_split(s, p, seq![0x6eu8], word_null());
    lemma_has_at_byte(s, p, b, 0);
    lemma_skip_run(s, w, p, comments);
    lemma_word_at(s, p + 1, word_null());
}

/// Behind a run of blanks, the text of a boolean is read as its token.
pub proof fn lemma_token_bool(s: Seq<u8>, w: int, p: int, v: bool, comments: bool)
    requires
        blank_run(s, w, p),
        has_at(s, p, encode_utf8(bool_text(v))),
    ensures
        scan_token(s, w, comments) == Ok::<Option<(Scanned, int)>, int>(Some((Scanned::Token(Lexeme::Bool(v)), p + encode_utf8(bool_text(v)).len())),
        ),
{
    reveal(scan_token);
    let b = encode_utf8(bool_text(v));
    lemma_encode_ascii(bool_text(v));
    if v {
        assert(b =~= seq![0x74u8] + word_true());
        lemma_has_at_split(s, p, seq![0x74u8], word_true());
        lemma_word_at(s, p + 1, word_true());
    } else {
        assert(b =~= seq![0x66u8] + word_false());
        lemma_has_at_split(s, p, seq![0x66u8], word_false());
        lemma_word_at(s, p + 1, word_false());
    }
    lemma_has_at_byte(s, p, b, 0);
    lemma_skip_run(s, w, p, comments);
}

/// The decimal text of a number is made of digits that are worth the number.
pub proof fn lemma_dec_text(n: nat)
    ensures
        is_ascii_chars(dec_text(n)),
        encode_utf8(dec_text(n)).len() == dec_text(n).len(),
        dec_text(n).len() >= 1,
        all_digits(encode_utf8(dec_text(n))),
        dec_value(encode_utf8(dec_text(n))) == n,
    decreases n,
{
    let t = dec_text(n);
    if n < 10 {
        assert(t =~= seq![digit_char(n)]);
        lemma_encode_ascii(t);
        let b = encode_utf8(t);
        assert(b =~= seq![(48 + n) as u8]);
        assert(b.drop_last() =~= Seq::<u8>::empty());
        assert(dec_value(b.drop_last()) == 0);
    } else {
        let head = dec_text(n / 10);
        let d = (n % 10) as nat;
        lemma_dec_text(n / 10);
        assert(t =~= head + seq![digit_char(d)]);
        lemma_encode_concat(head, seq![digit_char(d)]);
        lemma_encode_ascii(seq![digit_char(d)]);
        assert(is_ascii_chars(t));
        let b = encode_utf8(t);
        let bh = encode_utf8(head);
        assert(encode_utf8(seq![digit_char(d)]) =~= seq![(48 + d) as u8]);
        assert(b =~= bh.push((48 + d) as u8));
        assert(b.drop_last() =~= bh);
        assert forall|i: int| 0 <= i < b.len() implies is_digit(#[trigger] b[i]) by {
            if i < bh.len() {
                assert(is_digit(bh[i]));
            }
        }
    }
}

/// A run of digits that a delimiter or the end of the input follows ends there.
pub proof fn lemma_num_end_run(s: Seq<u8>, from: int, end: int, comments: bool)
    requires
        0 <= from <= end <= s.len(),
        forall|k: int| from <= k < end ==> is_digit(#[trigger] s[k]),
        follow_ok(s, end, comments),
    ensures
        num_end(s, from, comments) == Ok::<int, int>(end),
    decreases end - from,
{
    if from < end {
        assert(is_digit(s[from]));
        lemma_num_end_run(s, from + 1, end, comments);
    }
}

/// The token of an integer.
pub open spec fn int_lexeme(x: int) -> Lexeme {
    if x < 0 {
        Lexeme::NumI(x as i64)
    } else {
        Lexeme::NumU(x as u64)
    }
}

/// Behind a run of blanks, the decimal text of an integer that a delimiter follows is
/// read as the integer.
pub proof fn lemma_token_int(s: Seq<u8>, w: int, p: int, x: int, comments: bool)
    requires
        i64::MIN <= x <= u64::MAX,
        blank_run(s, w, p),
        has_at(s, p, encode_utf8(int_text(x))),
        follow_ok(s, p + encode_utf8(int_text(x)).len(), comments),
    ensures
        scan_token(s, w, comments) == Ok::<Option<(Scanned, int)>, int>(Some((Scanned::Token(int_lexeme(x)), p + encode_utf8(int_text(x)).len())),
        ),
{
    reveal(scan_token);
    let b = encode_utf8(int_text(x));
    let end = p + b.len();
    if x < 0 {
        let m = (-x) as nat;
        let d = encode_utf8(dec_text(m));
        lemma_dec_text(m);
        lemma_encode_concat(seq!['-'], dec_text(m));
        lemma_encode_ascii(seq!['-']);
        assert(encode_utf8(seq!['-']) =~= seq![0x2du8]);
        assert(b =~= seq![0x2du8] + d);
        lemma_has_at_split(s, p, seq![0x2du8], d);
        lemma_has_at_byte(s, p, b, 0);
        assert forall|k: int| p + 1 <= k < end implies is_digit(#[trigger] s[k]) by {
            lemma_has_at_byte(s, p + 1, d, k - p - 1);
            assert(is_digit(d[k - p - 1]));
        }
        lemma_num_end_run(s, p + 1, end, comments);
        let body = s.subrange(p + 1, end);
        assert(body == d);
        if has_float_mark(body) {
            let i = choose|i: int| 0 <= i < body.len() && is_float_mark(#[trigger] body[i]);
            assert(is_digit(d[i]));
        }
    } else {
        let m = x as nat;
        let d = encode_utf8(dec_text(m));
        lemma_dec_text(m);
        assert(b == d);
        lemma_has_at_byte(s, p, b, 0);
        assert(is_digit(d[0]));
        assert forall|k: int| p + 1 <= k < end implies is_digit(#[trigger] s[k]) by {
            lemma_has_at_byte(s, p, d, k - p);
            assert(is_digit(d[k - p]));
        }
        lemma_num_end_run(s, p + 1, end, comments);
        let body = s.subrange(p + 1, end);
        if has_float_mark(body) {
            let i = choose|i: int| 0 <= i < body.len() && is_float_mark(#[trigger] body[i]);
            assert(body[i] == s[p + 1 + i]);
            assert(is_digit(s[p + 1 + i]));
        }
        assert(s.subrange(p, end) == d);
    }
    lemma_skip_run(s, w, p, comments);
}

/// The number of a character lies within 32 bits.
pub proof fn lemma_char_range(c: char)
    ensures
        0 <= c as int <= 0x10FFFF,
        c as int == (c as u32) as int,
{
}

/// A character that stands in a string literal as itself.
pub open spec fn is_plain(c: char) -> bool {
    escape_char(c) == seq![c]
}

/// All characters stand in a string literal as themselves.
pub open spec fn all_plain(r: Seq<char>) -> bool {
    forall|k: int| 0 <= k < r.len() ==> is_plain(#[trigger] r[k])
}

/// The number of characters at the start of a text that stand for themselves.
pub open spec fn plain_len(r: Seq<char>) -> nat
    decreases r.len(),
{
    if r.len() == 0 || !is_plain(r[0]) {
        0
    } else {
        1 + plain_len(r.drop_first())
    }
}

/// The characters counted at the start of a text stand for themselves, and the one
/// behind them, if there is one, does not.
pub proof fn lemma_plain_len(r: Seq<char>)
    ensures
        plain_len(r) <= r.len(),
        all_plain(r.take(plain_len(r) as int)),
        plain_len(r) < r.len() ==> !is_plain(r[plain_len(r) as int]),
    decreases r.len(),
{
    if r.len() > 0 && is_plain(r[0]) {
        let rest = r.drop_first();
        lemma_plain_len(rest);
        let k = plain_len(rest) as int;
        assert forall|i: int| 0 <= i < k + 1 implies is_plain(#[trigger] r.take(k + 1)[i]) by {
            if i > 0 {
                assert(r.take(k + 1)[i] == rest.take(k)[i - 1]);
            }
        }
        if k + 1 < r.len() {
            assert(r[k + 1] == rest[k]);
        }
    }
}

/// The escaped form of a concatenation is the concatenation of the escaped forms.
pub proof fn lemma_escaped_concat(a: Seq<char>, b: Seq<char>)
    ensures
        escaped(a + b) == escaped(a) + escaped(b),
    decreases b.len(),
{
    if b.len() == 0 {
        assert(a + b =~= a);
        assert(escaped(a) + escaped(b) =~= escaped(a));
    } else {
        lemma_escaped_concat(a, b.drop_last());
        assert((a + b).drop_last() =~= a + b.drop_last());
        assert((a + b).last() == b.last());
        assert(escaped(a + b) =~= escaped(a) + escaped(b));
    }
}

/// Characters that stand for themselves are their own escaped form.
pub proof fn lemma_escaped_plain(r: Seq<char>)
    requires
        all_plain(r),
    ensures
        escaped(r) == r,
    decreases r.len(),
{
    if r.len() > 0 {
        assert(all_plain(r.drop_last())) by {
            assert forall|k: int| 0 <= k < r.drop_last().len() implies is_plain(
                #[trigger] r.drop_last()[k],
            ) by {
                assert(r.drop_last()[k] == r[k]);
            }
        }
        lemma_escaped_plain(r.drop_last());
        assert(is_plain(r[r.len() - 1]));
        assert(escaped(r) =~= r);
    }
}

/// The escaped form of one character.
pub proof fn lemma_escaped_one(c: char)
    ensures
        escaped(seq![c]) == escape_char(c),
{
    reveal_with_fuel(escaped, 2);
    assert(seq![c].drop_last() =~= Seq::<char>::empty());
    assert(escaped(seq![c]) =~= escape_char(c));
}

/// No quote or backslash is among the bytes of characters that stand for themselves.
pub proof fn lemma_plain_bytes(r: Seq<char>)
    requires
        all_plain(r),
    ensures
        forall|k: int|
            0 <= k < encode_utf8(r).len() ==> (#[trigger] encode_utf8(r)[k]) != 0x22 && encode_utf8(
                r,
            )[k] != 0x5c,
    decreases r.len(),
{
    if r.len() > 0 {
        let c = r[0];
        let rest = r.drop_first();
        assert(all_plain(rest)) by {
            assert forall|k: int| 0 <= k < rest.len() implies is_plain(#[trigger] rest[k]) by {
                assert(rest[k] == r[k + 1]);
            }
        }
        lemma_plain_bytes(rest);
        let head = encode_scalar(c as u32);
        assert(is_plain(r[0]));
        if (c as u32) < 0x80 {
            lemma_encode_low(c);
            assert(c != '"' && c != '\\') by {
                if c == '"' {
                    assert(escape_char(c).len() == 2);
                }
                if c == '\\' {
                    assert(escape_char(c).len() == 2);
                }
            }
            lemma_char_range(c);
            assert(c as u32 != 0x22);
            assert(c as u32 != 0x5c);
            assert(head[0] == c as u8);
            assert(head[0] != 0x22 && head[0] != 0x5c);
        } else {
            lemma_encode_high(c);
        }
        assert forall|k: int| 0 <= k < encode_utf8(r).len() implies (#[trigger] encode_utf8(r)[k])
            != 0x22 && encode_utf8(r)[k] != 0x5c by {
            if k < head.len() {
                assert(encode_utf8(r)[k] == head[k]);
            } else {
                assert(encode_utf8(r)[k] == encode_utf8(rest)[k - head.len()]);
            }
        }
    }
}

/// A span without quote or backslash, which one of them follows, ends there.
pub proof fn lemma_span(s: Seq<u8>, pos: int, bytes: Seq<u8>)
    requires
        has_at(s, pos, bytes),
        forall|k: int| 0 <= k < bytes.len() ==> (#[trigger] bytes[k]) != 0x22 && bytes[k] != 0x5c,
        pos + bytes.len() < s.len(),
        s[pos + bytes.len()] == 0x22 || s[pos + bytes.len()] == 0x5c,
    ensures
        span_end(s, pos) == pos + bytes.len(),
    decreases bytes.len(),
{
    if bytes.len() > 0 {
        lemma_has_at_byte(s, pos, bytes, 0);
        assert(bytes =~= seq![bytes[0]] + bytes.drop_first());
        lemma_has_at_split(s, pos, seq![bytes[0]], bytes.drop_first());
        assert forall|k: int| 0 <= k < bytes.drop_first().len() implies (
        #[trigger] bytes.drop_first()[k]) != 0x22 && bytes.drop_first()[k] != 0x5c by {
            assert(bytes.drop_first()[k] == bytes[k + 1]);
        }
        lemma_span(s, pos + 1, bytes.drop_first());
    }
}

/// The value of a hexadecimal digit as it is written.
pub proof fn lemma_hex_char(d: nat)
    requires
        d < 16,
    ensures
        (hex_char(d) as u32) < 0x80,
        hex_value(hex_char(d) as u8) == Some(d),
{
}

/// The escape of a character that does not stand for itself is read back as the
/// character.
pub proof fn lemma_escape_at(s: Seq<u8>, p: int, e: char)
    requires
        !is_plain(e),
        has_at(s, p, encode_utf8(escape_char(e))),
    ensures
        s[p] == 0x5c,
        encode_utf8(escape_char(e)).len() >= 2,
        lex_escape(s, p + 1) == Ok::<(char, int), int>((e, p + encode_utf8(escape_char(e)).len())),
{
    let t = escape_char(e);
    let b = encode_utf8(t);
    if e == '\u{8}' || e == '\u{c}' || e == '\n' || e == '\r' || e == '\t' || e == '\\' || e == '"' {
        assert(is_ascii_chars(t));
        lemma_encode_ascii(t);
        lemma_has_at_byte(s, p, b, 0);
        lemma_has_at_byte(s, p, b, 1);
    } else {
        assert((e as u32) < 0x20) by {
            if (e as u32) >= 0x20 {
                assert(escape_char(e) =~= seq![e]);
            }
        }
        let hi = (e as u32 / 16) as nat;
        let lo = (e as u32 % 16) as nat;
        lemma_hex_char(hi);
        lemma_hex_char(lo);
        assert(t =~= seq!['\\', 'u', '0', '0', hex_char(hi), hex_char(lo)]);
        assert(is_ascii_chars(t));
        lemma_encode_ascii(t);
        lemma_has_at_byte(s, p, b, 0);
        lemma_has_at_byte(s, p, b, 1);
        lemma_has_at_byte(s, p, b, 2);
        lemma_has_at_byte(s, p, b, 3);
        lemma_has_at_byte(s, p, b, 4);
        lemma_has_at_byte(s, p, b, 5);
        reveal_with_fuel(lex_hex, 5);
        assert(lex_hex(s, p + 2, 4, 0) == Ok::<(nat, int), int>(((hi * 16 + lo) as nat, p + 6)));
        assert(hi * 16 + lo == e as u32);
        vstd::utf8::char_u32_cast(e, e as u32);
        assert(((hi * 16 + lo) as nat) as char == e);
    }
}

/// Behind the opening quote, the escaped form of a text and the closing quote are
/// read back as the text.
pub proof fn lemma_string_at(s: Seq<u8>, pos: int, r: Seq<char>, acc: Seq<char>)
    requires
        has_at(s, pos, encode_utf8(escaped(r)) + seq![0x22u8]),
    ensures
        lex_string(s, pos, acc) == Ok::<(Seq<char>, int), int>(
            (acc + r, pos + encode_utf8(escaped(r)).len() + 1),
        ),
    decreases r.len(),
{
    lemma_plain_len(r);
    let k = plain_len(r) as int;
    let run = r.take(k);
    let tail = r.skip(k);
    assert(r =~= run + tail);
    lemma_escaped_concat(run, tail);
    lemma_escaped_plain(run);
    lemma_encode_concat(run, escaped(tail));
    lemma_plain_bytes(run);
    let rb = encode_utf8(run);
    let tb = encode_utf8(escaped(tail));
    assert(encode_utf8(escaped(r)) + seq![0x22u8] =~= rb + (tb + seq![0x22u8]));
    lemma_has_at_split(s, pos, rb, tb + seq![0x22u8]);
    let p = pos + rb.len();
    encode_utf8_decode_utf8(run);
    if tail.len() == 0 {
        assert(escaped(tail) =~= Seq::<char>::empty());
        assert(tb =~= Seq::<u8>::empty());
        lemma_has_at_byte(s, p, tb + seq![0x22u8], 0);
        lemma_span(s, pos, rb);
        assert(acc + run =~= acc + r);
    } else {
        let e = tail[0];
        let rest = tail.drop_first();
        assert(tail =~= seq![e] + rest);
        lemma_escaped_concat(seq![e], rest);
        lemma_escaped_one(e);
        lemma_encode_concat(escape_char(e), escaped(rest));
        let eb = encode_utf8(escape_char(e));
        let restb = encode_utf8(escaped(rest));
        assert(tb + seq![0x22u8] =~= eb + (restb + seq![0x22u8]));
        lemma_has_at_split(s, p, eb, restb + seq![0x22u8]);
        assert(!is_plain(e));
        lemma_escape_at(s, p, e);
        lemma_span(s, pos, rb);
        lemma_string_at(s, p + eb.len(), rest, (acc + run).push(e));
        assert((acc + run).push(e) + rest =~= acc + r);
    }
}

/// Behind a run of blanks, a string literal is read as the string.
pub proof fn lemma_token_string(
    s: Seq<u8>,
    w: int,
    p: int,
    r: Seq<char>,
    comments: bool,
)
    requires
        blank_run(s, w, p),
        has_at(s, p, encode_utf8(quoted(r))),
    ensures
        scan_token(s, w, comments) == Ok::<Option<(Scanned, int)>, int>(Some((Scanned::Token(Lexeme::Str(r)), p + encode_utf8(quoted(r)).len())),
        ),
{
    reveal(scan_token);
    lemma_encode_concat(seq!['"'] + escaped(r), seq!['"']);
    lemma_encode_concat(seq!['"'], escaped(r));
    lemma_encode_ascii(seq!['"']);
    let q = encode_utf8(seq!['"']);
    assert(q =~= seq![0x22u8]);
    let b = encode_utf8(quoted(r));
    assert(b =~= seq![0x22u8] + (encode_utf8(escaped(r)) + seq![0x22u8]));
    lemma_has_at_split(s, p, seq![0x22u8], encode_utf8(escaped(r)) + seq![0x22u8]);
    lemma_has_at_byte(s, p, b, 0);
    lemma_skip_run(s, w, p, comments);
    lemma_string_at(s, p + 1, r, seq![]);
    assert(Seq::<char>::empty() + r =~= r);
}

/// The digits of the text of a number: what follows the minus sign, if there is one.
pub open spec fn number_digits(b: Seq<u8>) -> Seq<u8> {
    if b.len() > 0 && b[0] == 0x2d {
        b.skip(1)
    } else {
        b
    }
}

/// The text of a float is read back as the float: it is not the text of an integer
/// that fits, it is made of what a number is made of, and the decoder makes the
/// float of it. A float that is not a number, or infinite, is never read back.
pub open spec fn float_reads_back(f: FloatView, oracle: Oracle) -> bool {
    let b = encode_utf8(f.text);
    &&& !is_nan(f.bits)
    &&& !is_infinite(f.bits)
    &&& b.len() >= 1
    &&& b[0] == 0x2d || is_digit(b[0])
    &&& forall|k: int| 1 <= k < b.len() ==> is_digit(#[trigger] b[k]) || is_float_mark(b[k])
    &&& (has_float_mark(b.skip(1)) || number_digits(b).len() == 0 || dec_value(number_digits(b))
        > (if b[0] == 0x2d {
        0x8000_0000_0000_0000nat
    } else {
        0xffff_ffff_ffff_ffffnat
    }))
    &&& oracle(f.text) == Some(f)
}

/// Every float in the value has a text that is read back as the float.
pub open spec fn reads_back(j: Json, oracle: Oracle) -> bool
    decreases j,
{
    match j {
        Json::Num(NumView::Float(f)) => float_reads_back(f, oracle),
        Json::Array(a) => forall|i: int| 0 <= i < a.len() ==> reads_back(#[trigger] a[i], oracle),
        Json::Object(o) => forall|i: int| 0 <= i < o.len() ==> reads_back((#[trigger] o[i]).1, oracle),
        _ => true,
    }
}

/// No number in the value is held as a float.
pub open spec fn float_free(j: Json) -> bool
    decreases j,
{
    match j {
        Json::Num(n) => n is Int,
        Json::Array(a) => forall|i: int| 0 <= i < a.len() ==> float_free(#[trigger] a[i]),
        Json::Object(o) => forall|i: int| 0 <= i < o.len() ==> float_free((#[trigger] o[i]).1),
        _ => true,
    }
}

/// A value without floats has no float that would have to be read back.
pub proof fn lemma_float_free_reads_back(j: Json, oracle: Oracle)
    requires
        float_free(j),
    ensures
        reads_back(j, oracle),
    decreases j,
{
    match j {
        Json::Array(a) => {
            assert forall|i: int| 0 <= i < a.len() implies reads_back(#[trigger] a[i], oracle) by {
                lemma_float_free_reads_back(a[i], oracle);
            }
        },
        Json::Object(o) => {
            assert forall|i: int| 0 <= i < o.len() implies reads_back((#[trigger] o[i]).1, oracle) by {
                lemma_float_free_reads_back(o[i].1, oracle);
            }
        },
        _ => {},
    }
}

/// A run of digits and float marks that a delimiter or the end of the input follows
/// ends there.
pub proof fn lemma_num_end_marks(s: Seq<u8>, from: int, end: int, comments: bool)
    requires
        0 <= from <= end <= s.len(),
        forall|k: int| from <= k < end ==> is_digit(#[trigger] s[k]) || is_float_mark(s[k]),
        follow_ok(s, end, comments),
    ensures
        num_end(s, from, comments) == Ok::<int, int>(end),
    decreases end - from,
{
    if from < end {
        assert(is_digit(s[from]) || is_float_mark(s[from]));
        lemma_num_end_marks(s, from + 1, end, comments);
    }
}

/// Behind a run of blanks, the text of a float that is read back, which a delimiter
/// follows, is read as the float.
pub proof fn lemma_token_float(s: Seq<u8>, w: int, p: int, f: FloatView, comments: bool, oracle: Oracle)
    requires
        float_reads_back(f, oracle),
        blank_run(s, w, p),
        has_at(s, p, encode_utf8(f.text)),
        follow_ok(s, p + encode_utf8(f.text).len(), comments),
    ensures
        scan_token(s, w, comments) == Ok::<Option<(Scanned, int)>, int>(
            Some((Scanned::Float(f.text), p + encode_utf8(f.text).len())),
        ),
        lex_token(s, w, comments, oracle) == Ok::<Option<(Lexeme, int)>, int>(
            Some((Lexeme::NumF(f), p + encode_utf8(f.text).len())),
        ),
{
    reveal(scan_token);
    let b = encode_utf8(f.text);
    let end = p + b.len();
    lemma_has_at_byte(s, p, b, 0);
    assert forall|k: int| p + 1 <= k < end implies is_digit(#[trigger] s[k]) || is_float_mark(
        s[k],
    ) by {
        lemma_has_at_byte(s, p, b, k - p);
    }
    lemma_num_end_marks(s, p + 1, end, comments);
    lemma_skip_run(s, w, p, comments);
    assert(s.subrange(p, end) == b);
    assert(s.subrange(p + 1, end) =~= b.skip(1));
    encode_utf8_decode_utf8(f.text);
}

/// A byte with which the text of a value starts.
pub open spec fn starts_value(b: u8) -> bool {
    b == 0x6e || b == 0x74 || b == 0x66 || b == 0x2d || is_digit(b) || b == 0x22 || b == 0x5b || b
        == 0x7b
}

/// The encoding of a run of spaces is as many space bytes.
pub proof fn lemma_spaces(n: nat)
    ensures
        is_ascii_chars(spaces(n)),
        encode_utf8(spaces(n)).len() == n,
        all_blank(encode_utf8(spaces(n))),
{
    lemma_encode_ascii(spaces(n));
}

/// The lead of an entry is blank but for the comma that it starts with behind
/// another entry.
pub proof fn lemma_lead(first: bool, depth: nat, pretty: bool)
    ensures
        first ==> all_blank(encode_utf8(entry_lead(first, depth, pretty))),
        !first ==> encode_utf8(entry_lead(first, depth, pretty)).len() >= 1 && encode_utf8(
            entry_lead(first, depth, pretty),
        )[0] == 0x2c && all_blank(encode_utf8(entry_lead(first, depth, pretty)).skip(1)),
{
    let t = entry_lead(first, depth, pretty);
    lemma_spaces(4 * depth);
    assert(is_ascii_chars(t));
    lemma_encode_ascii(t);
    let b = encode_utf8(t);
    if first {
        assert forall|k: int| 0 <= k < b.len() implies is_blank(#[trigger] b[k]) by {
            assert(b[k] == t[k] as u8);
        }
    } else {
        assert(b[0] == t[0] as u8);
        assert forall|k: int| 0 <= k < b.skip(1).len() implies is_blank(#[trigger] b.skip(1)[k]) by {
            assert(b.skip(1)[k] == b[k + 1]);
            assert(b[k + 1] == t[k + 1] as u8);
        }
    }
}

/// The text that closes a scope is its bracket, behind blanks.
pub proof fn lemma_close(first: bool, depth: nat, pretty: bool, is_arr: bool)
    requires
        depth >= 1,
    ensures
        encode_utf8(close_text(first, depth, pretty, is_arr)).len() >= 1,
        encode_utf8(close_text(first, depth, pretty, is_arr)).last() == (if is_arr {
            0x5du8
        } else {
            0x7du8
        }),
        all_blank(encode_utf8(close_text(first, depth, pretty, is_arr)).drop_last()),
        first ==> encode_utf8(close_text(first, depth, pretty, is_arr)).len() == 1,
{
    let t = close_text(first, depth, pretty, is_arr);
    lemma_spaces(4 * ((depth - 1) as nat));
    assert(is_ascii_chars(t));
    lemma_encode_ascii(t);
    let b = encode_utf8(t);
    assert(b[b.len() - 1] == t[t.len() - 1] as u8);
    assert forall|k: int| 0 <= k < b.drop_last().len() implies is_blank(
        #[trigger] b.drop_last()[k],
    ) by {
        assert(b.drop_last()[k] == b[k]);
        assert(b[k] == t[k] as u8);
    }
}

/// The text that a scope writes for entries, with `text` in place of the text that
/// one entry writes.
pub open spec fn fold_entries(entries: Seq<Entry>, first: bool, text: spec_fn(bool, Entry) -> Seq<char>) -> Seq<char>
    decreases entries.len(),
{
    if entries.len() == 0 {
        seq![]
    } else {
        fold_entries(entries.drop_last(), first, text) + text(
            entries_first(entries.drop_last(), first),
            entries.last(),
        )
    }
}

/// Whether a scope is still empty behind its first entry and the rest.
pub proof fn lemma_first_head(entries: Seq<Entry>, first: bool)
    requires
        entries.len() > 0,
    ensures
        entries_first(entries, first) == entries_first(
            entries.drop_first(),
            first && !entries[0].included,
        ),
    decreases entries.len(),
{
    if entries.len() == 1 {
        assert(entries.drop_last() =~= Seq::<Entry>::empty());
        assert(entries.drop_first() =~= Seq::<Entry>::empty());
    } else {
        let front = entries.drop_last();
        lemma_first_head(front, first);
        assert(front.drop_first() =~= entries.drop_first().drop_last());
    }
}

/// What is written for entries is what is written for the first and for the rest.
pub proof fn lemma_fold_head(entries: Seq<Entry>, first: bool, text: spec_fn(bool, Entry) -> Seq<char>)
    requires
        entries.len() > 0,
    ensures
        fold_entries(entries, first, text) == text(first, entries[0]) + fold_entries(
            entries.drop_first(),
            first && !entries[0].included,
            text,
        ),
    decreases entries.len(),
{
    let f1 = first && !entries[0].included;
    if entries.len() == 1 {
        assert(entries.drop_last() =~= Seq::<Entry>::empty());
        assert(entries.drop_first() =~= Seq::<Entry>::empty());
        assert(fold_entries(entries.drop_last(), first, text) =~= Seq::<char>::empty());
        assert(fold_entries(entries.drop_first(), f1, text) =~= Seq::<char>::empty());
        assert(fold_entries(entries, first, text) =~= text(first, entries[0]) + fold_entries(
            entries.drop_first(),
            f1,
            text,
        ));
    } else {
        let front = entries.drop_last();
        let back = entries.drop_first();
        lemma_fold_head(front, first, text);
        lemma_first_head(front, first);
        assert(front.drop_first() =~= back.drop_last());
        assert(back.last() == entries.last());
        let a = text(first, entries[0]);
        let b = fold_entries(back.drop_last(), f1, text);
        let c = text(entries_first(front, first), entries.last());
        assert(fold_entries(entries, first, text) == (a + b) + c);
        assert(fold_entries(back, f1, text) == b + c);
        assert((a + b) + c =~= a + (b + c));
    }
}

/// The text of entries is what is written with the text of each entry.
pub proof fn lemma_entries_fold(entries: Seq<Entry>, first: bool, depth: nat, pretty: bool)
    ensures
        entries_text(entries, first, depth, pretty) == fold_entries(
            entries,
            first,
            |f: bool, e: Entry| put_text(f, depth, pretty, e),
        ),
    decreases entries.len(),
{
    if entries.len() > 0 {
        lemma_entries_fold(entries.drop_last(), first, depth, pretty);
    }
}

/// The text of entries is that of the first entry and that of the rest.
pub proof fn lemma_entries_head(entries: Seq<Entry>, first: bool, depth: nat, pretty: bool)
    requires
        entries.len() > 0,
    ensures
        entries_text(entries, first, depth, pretty) == put_text(first, depth, pretty, entries[0])
            + entries_text(entries.drop_first(), first && !entries[0].included, depth, pretty),
        entries_first(entries, first) == entries_first(
            entries.drop_first(),
            first && !entries[0].included,
        ),
{
    let text = |f: bool, e: Entry| put_text(f, depth, pretty, e);
    lemma_entries_fold(entries, first, depth, pretty);
    lemma_entries_fold(entries.drop_first(), first && !entries[0].included, depth, pretty);
    lemma_fold_head(entries, first, text);
    lemma_first_head(entries, first);
}

/// The text of an integer starts with a minus sign or a digit.
pub proof fn lemma_int_text_first(x: int)
    ensures
        encode_utf8(int_text(x)).len() >= 1,
        starts_value(encode_utf8(int_text(x))[0]),
{
    if x < 0 {
        lemma_encode_concat(seq!['-'], dec_text((-x) as nat));
        lemma_encode_ascii(seq!['-']);
        assert(encode_utf8(seq!['-'])[0] == 0x2d);
    } else {
        lemma_dec_text(x as nat);
        assert(is_digit(encode_utf8(dec_text(x as nat))[0]));
    }
}

/// The text of a value without floats starts with a byte that starts a value.
pub proof fn lemma_render_first(v: Json, depth: nat, pretty: bool, oracle: Oracle)
    requires
        reads_back(v, oracle),
    ensures
        encode_utf8(render(v, depth, pretty)).len() >= 1,
        starts_value(encode_utf8(render(v, depth, pretty))[0]),
{
    let t = render(v, depth, pretty);
    match v {
        Json::Null => {
            lemma_encode_ascii(null_text());
        },
        Json::Bool(b) => {
            lemma_encode_ascii(bool_text(b));
        },
        Json::Num(NumView::Int(x)) => {
            lemma_int_text_first(x);
        },
        Json::Num(NumView::Float(f)) => {},
        Json::Str(x) => {
            lemma_encode_concat(seq!['"'], escaped(x) + seq!['"']);
            assert(quoted(x) =~= seq!['"'] + (escaped(x) + seq!['"']));
            lemma_encode_ascii(seq!['"']);
            assert(encode_utf8(seq!['"'])[0] == 0x22);
        },
        Json::Array(a) => {
            let rest = entries_text(array_entries(a, depth + 1, pretty), true, depth + 1, pretty)
                + close_text(
                entries_first(array_entries(a, depth + 1, pretty), true),
                depth + 1,
                pretty,
                true,
            );
            assert(t =~= seq!['['] + rest);
            lemma_encode_concat(seq!['['], rest);
            lemma_encode_ascii(seq!['[']);
            assert(encode_utf8(seq!['['])[0] == 0x5b);
        },
        Json::Object(o) => {
            let rest = entries_text(object_entries(o, depth + 1, pretty), true, depth + 1, pretty)
                + close_text(
                entries_first(object_entries(o, depth + 1, pretty), true),
                depth + 1,
                pretty,
                false,
            );
            assert(t =~= seq!['{'] + rest);
            lemma_encode_concat(seq!['{'], rest);
            lemma_encode_ascii(seq!['{']);
            assert(encode_utf8(seq!['{'])[0] == 0x7b);
        },
    }
}

/// Every entry takes part in the output.
pub open spec fn all_included(entries: Seq<Entry>) -> bool {
    forall|i: int| 0 <= i < entries.len() ==> (#[trigger] entries[i]).included
}

/// What a scope with at least one entry writes from its entry `i` on, the closing
/// bracket included.
pub open spec fn tail_text(entries: Seq<Entry>, i: int, depth: nat, pretty: bool, is_arr: bool) -> Seq<
    char,
> {
    entries_text(entries.skip(i), i == 0, depth, pretty) + close_text(false, depth, pretty, is_arr)
}

/// What is written from an entry on is the entry and what is written behind it.
pub proof fn lemma_tail_step(entries: Seq<Entry>, i: int, depth: nat, pretty: bool, is_arr: bool)
    requires
        0 <= i < entries.len(),
        all_included(entries),
    ensures
        tail_text(entries, i, depth, pretty, is_arr) == entry_lead(i == 0, depth, pretty) + key_text(
            entries[i].key,
            pretty,
        ) + entries[i].body + tail_text(entries, i + 1, depth, pretty, is_arr),
        encode_utf8(tail_text(entries, i, depth, pretty, is_arr)) == encode_utf8(
            entry_lead(i == 0, depth, pretty),
        ) + encode_utf8(key_text(entries[i].key, pretty)) + encode_utf8(entries[i].body)
            + encode_utf8(tail_text(entries, i + 1, depth, pretty, is_arr)),
{
    let rest = entries.skip(i);
    lemma_entries_head(rest, i == 0, depth, pretty);
    assert(rest[0] == entries[i]);
    assert(rest.drop_first() =~= entries.skip(i + 1));
    assert(entries[i].included);
    let lead = entry_lead(i == 0, depth, pretty);
    let key = key_text(entries[i].key, pretty);
    let body = entries[i].body;
    let next = tail_text(entries, i + 1, depth, pretty, is_arr);
    assert(put_text(i == 0, depth, pretty, entries[i]) == lead + key + body) by {
        reveal(put_text);
    }
    assert(tail_text(entries, i, depth, pretty, is_arr) =~= lead + key + body + next);
    lemma_encode_concat(lead + key + body, next);
    lemma_encode_concat(lead + key, body);
    lemma_encode_concat(lead, key);
}

/// A scope with an entry is not empty; its text is the bracket and what is written
/// from the first entry on.
pub proof fn lemma_scope_tail(entries: Seq<Entry>, is_arr: bool, depth: nat, pretty: bool)
    requires
        entries.len() > 0,
        all_included(entries),
    ensures
        scope_text(entries, is_arr, depth, pretty) == seq![open_char(is_arr)] + tail_text(
            entries,
            0,
            depth + 1,
            pretty,
            is_arr,
        ),
{
    lemma_not_first(entries, true);
    assert(entries.skip(0) =~= entries);
    assert(scope_text(entries, is_arr, depth, pretty) =~= seq![open_char(is_arr)] + tail_text(
        entries,
        0,
        depth + 1,
        pretty,
        is_arr,
    ));
}

/// Behind an entry that takes part, a scope is not empty.
pub proof fn lemma_not_first(entries: Seq<Entry>, first: bool)
    requires
        entries.len() > 0,
        all_included(entries),
    ensures
        !entries_first(entries, first),
{
    assert(entries.last().included);
}

/// What follows an entry: a comma and blanks before the next entry, or blanks and
/// the closing bracket.
pub proof fn lemma_after_entry(
    entries: Seq<Entry>,
    i: int,
    depth: nat,
    pretty: bool,
    is_arr: bool,
    s: Seq<u8>,
    e: int,
    comments: bool,
)
    requires
        0 <= i < entries.len(),
        all_included(entries),
        depth >= 1,
        has_at(s, e, encode_utf8(tail_text(entries, i + 1, depth, pretty, is_arr))),
    ensures
        follow_ok(s, e, comments),
        i + 1 < entries.len() ==> scan_token(s, e, comments) == Ok::<
            Option<(Scanned, int)>,
            int,
        >(Some((Scanned::Token(Lexeme::Comma), e + 1))) && blank_run(
            s,
            e + 1,
            e + encode_utf8(entry_lead(false, depth, pretty)).len(),
        ) && e + 1 <= s.len(),
        i + 1 == entries.len() ==> scan_token(s, e, comments) == Ok::<
            Option<(Scanned, int)>,
            int,
        >(
            Some(
                (
                    Scanned::Token(
                        if is_arr {
                            Lexeme::ArrayEnd
                        } else {
                            Lexeme::ObjectEnd
                        },
                    ),
                    e + encode_utf8(tail_text(entries, i + 1, depth, pretty, is_arr)).len(),
                ),
            ),
        ),
{
    let tail = encode_utf8(tail_text(entries, i + 1, depth, pretty, is_arr));
    if i + 1 < entries.len() {
        lemma_tail_step(entries, i + 1, depth, pretty, is_arr);
        let lead = encode_utf8(entry_lead(false, depth, pretty));
        let rest = encode_utf8(key_text(entries[i + 1].key, pretty)) + encode_utf8(
            entries[i + 1].body,
        ) + encode_utf8(tail_text(entries, i + 2, depth, pretty, is_arr));
        assert(tail =~= lead + rest);
        lemma_has_at_split(s, e, lead, rest);
        lemma_lead(false, depth, pretty);
        lemma_has_at_byte(s, e, lead, 0);
        assert forall|k: int| e + 1 <= k < e + lead.len() implies is_blank(#[trigger] s[k]) by {
            lemma_has_at_byte(s, e, lead, k - e);
            assert(lead.skip(1)[k - e - 1] == lead[k - e]);
        }
        assert(blank_run(s, e, e));
        lemma_token_punct(s, e, e, comments);
    } else {
        assert(entries.skip(i + 1) =~= Seq::<Entry>::empty());
        let close = encode_utf8(close_text(false, depth, pretty, is_arr));
        assert(tail_text(entries, i + 1, depth, pretty, is_arr) =~= close_text(
            false,
            depth,
            pretty,
            is_arr,
        ));
        lemma_close(false, depth, pretty, is_arr);
        let last = e + close.len() - 1;
        lemma_has_at_byte(s, e, close, close.len() - 1);
        assert forall|k: int| e <= k < last implies is_blank(#[trigger] s[k]) by {
            lemma_has_at_byte(s, e, close, k - e);
            assert(close.drop_last()[k - e] == close[k - e]);
        }
        assert(blank_run(s, e, last));
        lemma_token_punct(s, e, last, comments);
        lemma_has_at_byte(s, e, close, 0);
        if close.len() > 1 {
            assert(is_blank(s[e]));
        }
    }
}

/// Setting the field that comes next in sorted fields appends it to those before.
pub proof fn lemma_with_field_next(o: Seq<(Seq<char>, Json)>, i: int)
    requires
        keys_sorted(o),
        0 <= i < o.len(),
    ensures
        with_field(o.take(i), o[i].0, o[i].1) == o.take(i + 1),
{
    let before = o.take(i);
    let key = o[i].0;
    assert forall|j: int| 0 <= j < before.len() implies (#[trigger] before[j]).0 != key by {
        assert(text_lt(o[j].0, o[i].0));
        lemma_text_lt_irreflexive(key);
    }
    lemma_find_key_none(before, key);
    assert forall|j: int| 0 <= j < i implies text_lt((#[trigger] before[j]).0, key) by {
        assert(text_lt(o[j].0, o[i].0));
    }
    lemma_keys_before(before, key, i);
    assert(before.insert(i, (key, o[i].1)) =~= o.take(i + 1));
}

/// The text of an empty array or object is its two brackets.
pub proof fn lemma_scope_empty(is_arr: bool, depth: nat, pretty: bool)
    ensures
        encode_utf8(scope_text(Seq::<Entry>::empty(), is_arr, depth, pretty)) == (if is_arr {
            seq![0x5bu8, 0x5du8]
        } else {
            seq![0x7bu8, 0x7du8]
        }),
{
    let t = scope_text(Seq::<Entry>::empty(), is_arr, depth, pretty);
    assert(t =~= seq![open_char(is_arr), if is_arr { ']' } else { '}' }]);
    lemma_encode_ascii(t);
    assert(encode_utf8(t) =~= (if is_arr {
        seq![0x5bu8, 0x5du8]
    } else {
        seq![0x7bu8, 0x7du8]
    }));
}

/// Where the text of a scope with entries stands: the opening bracket, then what is
/// written from the first entry on, whose lead is blank.
pub proof fn lemma_scope_open(
    entries: Seq<Entry>,
    is_arr: bool,
    depth: nat,
    pretty: bool,
    s: Seq<u8>,
    p: int,
)
    requires
        entries.len() > 0,
        all_included(entries),
        has_at(s, p, encode_utf8(scope_text(entries, is_arr, depth, pretty))),
    ensures
        p < s.len(),
        s[p] == (if is_arr {
            0x5bu8
        } else {
            0x7bu8
        }),
        encode_utf8(scope_text(entries, is_arr, depth, pretty)).len() == 1 + encode_utf8(
            tail_text(entries, 0, depth + 1, pretty, is_arr),
        ).len(),
        has_at(s, p + 1, encode_utf8(tail_text(entries, 0, depth + 1, pretty, is_arr))),
        blank_run(s, p + 1, p + 1 + encode_utf8(entry_lead(true, depth + 1, pretty)).len()),
        has_at(
            s,
            p + 1 + encode_utf8(entry_lead(true, depth + 1, pretty)).len(),
            encode_utf8(key_text(entries[0].key, pretty)) + encode_utf8(entries[0].body),
        ),
{
    lemma_scope_tail(entries, is_arr, depth, pretty);
    let tail = tail_text(entries, 0, depth + 1, pretty, is_arr);
    let open = seq![open_char(is_arr)];
    lemma_encode_concat(open, tail);
    lemma_encode_ascii(open);
    let ob = encode_utf8(open);
    assert(ob.len() == 1);
    assert(ob[0] == open[0] as u8);
    lemma_has_at_split(s, p, ob, encode_utf8(tail));
    lemma_has_at_byte(s, p, ob, 0);
    lemma_tail_step(entries, 0, depth + 1, pretty, is_arr);
    let lead = encode_utf8(entry_lead(true, depth + 1, pretty));
    let head = encode_utf8(key_text(entries[0].key, pretty)) + encode_utf8(entries[0].body);
    let rest = encode_utf8(tail_text(entries, 1, depth + 1, pretty, is_arr));
    assert(encode_utf8(tail) =~= lead + (head + rest));
    lemma_has_at_split(s, p + 1, lead, head + rest);
    lemma_has_at_split(s, p + 1 + lead.len(), head, rest);
    lemma_lead(true, depth + 1, pretty);
    assert forall|k: int| p + 1 <= k < p + 1 + lead.len() implies is_blank(#[trigger] s[k]) by {
        lemma_has_at_byte(s, p + 1, lead, k - p - 1);
    }
}

/// The entries of an array all take part, without keys, with the text of the
/// elements.
pub proof fn lemma_array_entries(a: Seq<Json>, depth: nat, pretty: bool)
    ensures
        array_entries(a, depth, pretty).len() == a.len(),
        all_included(array_entries(a, depth, pretty)),
        forall|i: int|
            0 <= i < a.len() ==> (#[trigger] array_entries(a, depth, pretty)[i]).key is None
                && array_entries(a, depth, pretty)[i].body == render(a[i], depth, pretty),
{
}

/// The entries of an object all take part, with the keys and the text of the values.
pub proof fn lemma_object_entries(o: Seq<(Seq<char>, Json)>, depth: nat, pretty: bool)
    ensures
        object_entries(o, depth, pretty).len() == o.len(),
        all_included(object_entries(o, depth, pretty)),
        forall|i: int|
            0 <= i < o.len() ==> (#[trigger] object_entries(o, depth, pretty)[i]).key == Some(
                o[i].0,
            ) && object_entries(o, depth, pretty)[i].body == render(o[i].1, depth, pretty),
{
}

/// Behind a run of blanks, a key and its colon are read, up to the blank before the
/// value.
pub proof fn lemma_key_at(
    s: Seq<u8>,
    w: int,
    p: int,
    name: Seq<char>,
    pretty: bool,
    comments: bool,
)
    requires
        blank_run(s, w, p),
        has_at(s, p, encode_utf8(key_text(Some(name), pretty))),
    ensures
        ({
            let k = p + encode_utf8(quoted(name)).len();
            let v = p + encode_utf8(key_text(Some(name), pretty)).len();
            &&& scan_read_at(s, w, comments, |t: Lexeme| lexeme_str(t)) == Ok::<
                (Seq<char>, int),
                int,
            >((name, k))
            &&& scan_read_at(s, k, comments, |t: Lexeme| lexeme_is(t, Lexeme::Colon)) == Ok::<((), int), int>(
                ((), k + 1),
            )
            &&& blank_run(s, k + 1, v)
        }),
{
    let colon = if pretty {
        seq![':', ' ']
    } else {
        seq![':']
    };
    assert(key_text(Some(name), pretty) == quoted(name) + colon);
    lemma_encode_concat(quoted(name), colon);
    lemma_encode_ascii(colon);
    let qb = encode_utf8(quoted(name));
    let cb = encode_utf8(colon);
    lemma_has_at_split(s, p, qb, cb);
    lemma_token_string(s, w, p, name, comments);
    let k = p + qb.len();
    lemma_has_at_byte(s, k, cb, 0);
    assert(blank_run(s, k, k));
    lemma_token_punct(s, k, k, comments);
    if pretty {
        lemma_has_at_byte(s, k, cb, 1);
    }
}

/// The value `v` is read from `w` on, up to `end`.
#[verifier::opaque]
pub open spec fn reads_value(
    s: Seq<u8>,
    w: int,
    comments: bool,
    oracle: Oracle,
    v: Json,
    end: int,
) -> bool {
    parse_value(s, w, comments, oracle) == Ok::<(Json, int), int>((v, end))
}

/// The array `v` is read from `w` on, up to `end`, on top of the elements in `acc`.
#[verifier::opaque]
pub open spec fn reads_elements(
    s: Seq<u8>,
    w: int,
    acc: Seq<Json>,
    comments: bool,
    oracle: Oracle,
    v: Json,
    end: int,
) -> bool {
    parse_elements(s, w, acc, comments, oracle) == Ok::<(Json, int), int>((v, end))
}

/// The object `v` is read from `w` on, up to `end`, on top of the fields in `acc`.
#[verifier::opaque]
pub open spec fn reads_fields(
    s: Seq<u8>,
    w: int,
    acc: Seq<(Seq<char>, Json)>,
    comments: bool,
    oracle: Oracle,
    v: Json,
    end: int,
) -> bool {
    parse_fields(s, w, acc, comments, oracle) == Ok::<(Json, int), int>((v, end))
}

/// The value of a token that is a value by itself.
pub open spec fn scalar_json(t: Lexeme) -> Option<Json> {
    match t {
        Lexeme::Null => Some(Json::Null),
        Lexeme::Bool(b) => Some(Json::Bool(b)),
        Lexeme::NumF(f) => Some(Json::Num(crate::parse::float_value(f))),
        Lexeme::NumI(i) => Some(Json::Num(NumView::Int(i as int))),
        Lexeme::NumU(u) => Some(Json::Num(NumView::Int(u as int))),
        Lexeme::Str(x) => Some(Json::Str(x)),
        _ => None,
    }
}

/// A token that is a value by itself is read as that value.
pub proof fn lemma_reads_scalar(
    s: Seq<u8>,
    w: int,
    comments: bool,
    oracle: Oracle,
    t: Lexeme,
    end: int,
)
    requires
        0 <= w <= s.len(),
        lex_token(s, w, comments, oracle) == Ok::<Option<(Lexeme, int)>, int>(Some((t, end))),
        scalar_json(t) is Some,
    ensures
        reads_value(s, w, comments, oracle, scalar_json(t)->0, end),
{
    reveal(reads_value);
}

/// Behind its opening bracket, an array or object that closes at once is read as the
/// empty one.
pub proof fn lemma_reads_empty(
    s: Seq<u8>,
    w: int,
    comments: bool,
    oracle: Oracle,
    p: int,
    is_arr: bool,
)
    requires
        0 <= w <= s.len(),
        0 <= p + 1 < s.len(),
        lex_token(s, w, comments, oracle) == Ok::<Option<(Lexeme, int)>, int>(
            Some(
                (
                    if is_arr {
                        Lexeme::ArrayBegin
                    } else {
                        Lexeme::ObjectBegin
                    },
                    p + 1,
                ),
            ),
        ),
        skip_space(s, p + 1, comments) == Ok::<int, int>(p + 1),
        s[p + 1] == (if is_arr {
            0x5du8
        } else {
            0x7du8
        }),
    ensures
        reads_value(
            s,
            w,
            comments,
            oracle,
            if is_arr {
                Json::Array(seq![])
            } else {
                Json::Object(seq![])
            },
            p + 2,
        ),
{
    reveal(reads_value);
}

/// Behind its opening bracket and blanks, an array is read as its elements are.
pub proof fn lemma_reads_array(
    s: Seq<u8>,
    w: int,
    comments: bool,
    oracle: Oracle,
    p: int,
    first: int,
    v: Json,
    end: int,
)
    requires
        0 <= w <= s.len(),
        0 <= p + 1 <= s.len(),
        scan_token(s, w, comments) == Ok::<Option<(Scanned, int)>, int>(Some((Scanned::Token(Lexeme::ArrayBegin), p + 1))),
        skip_space(s, p + 1, comments) == Ok::<int, int>(first),
        0 <= first < s.len(),
        s[first] != 0x5d,
        reads_elements(s, first, seq![], comments, oracle, v, end),
    ensures
        reads_value(s, w, comments, oracle, v, end),
{
    reveal(reads_value);
    reveal(reads_elements);
}

/// Behind its opening bracket and blanks, an object is read as its fields are.
pub proof fn lemma_reads_object(
    s: Seq<u8>,
    w: int,
    comments: bool,
    oracle: Oracle,
    p: int,
    first: int,
    v: Json,
    end: int,
)
    requires
        0 <= w <= s.len(),
        0 <= p + 1 <= s.len(),
        scan_token(s, w, comments) == Ok::<Option<(Scanned, int)>, int>(Some((Scanned::Token(Lexeme::ObjectBegin), p + 1))),
        skip_space(s, p + 1, comments) == Ok::<int, int>(first),
        0 <= first < s.len(),
        s[first] != 0x7d,
        reads_fields(s, first, seq![], comments, oracle, v, end),
    ensures
        reads_value(s, w, comments, oracle, v, end),
{
    reveal(reads_value);
    reveal(reads_fields);
}

/// An element that a comma follows is read, and then the elements behind it.
pub proof fn lemma_reads_elements_more(
    s: Seq<u8>,
    w: int,
    acc: Seq<Json>,
    comments: bool,
    oracle: Oracle,
    x: Json,
    e: int,
    v: Json,
    end: int,
)
    requires
        reads_value(s, w, comments, oracle, x, e),
        scan_token(s, e, comments) == Ok::<Option<(Scanned, int)>, int>(Some((Scanned::Token(Lexeme::Comma), e + 1))),
        w < e + 1 <= s.len(),
        reads_elements(s, e + 1, acc.push(x), comments, oracle, v, end),
    ensures
        reads_elements(s, w, acc, comments, oracle, v, end),
{
    reveal(reads_value);
    reveal(reads_elements);
}

/// An element that the closing bracket follows is the last of the array.
pub proof fn lemma_reads_elements_last(
    s: Seq<u8>,
    w: int,
    acc: Seq<Json>,
    comments: bool,
    oracle: Oracle,
    x: Json,
    e: int,
    end: int,
)
    requires
        reads_value(s, w, comments, oracle, x, e),
        scan_token(s, e, comments) == Ok::<Option<(Scanned, int)>, int>(Some((Scanned::Token(Lexeme::ArrayEnd), end))),
    ensures
        reads_elements(s, w, acc, comments, oracle, Json::Array(acc.push(x)), end),
{
    reveal(reads_value);
    reveal(reads_elements);
}

/// A field that a comma follows is read, and then the fields behind it.
pub proof fn lemma_reads_fields_more(
    s: Seq<u8>,
    w: int,
    acc: Seq<(Seq<char>, Json)>,
    comments: bool,
    oracle: Oracle,
    key: Seq<char>,
    key_end: int,
    x: Json,
    e: int,
    v: Json,
    end: int,
)
    requires
        0 <= w <= s.len(),
        scan_read_at(s, w, comments, |t: Lexeme| lexeme_str(t)) == Ok::<(Seq<char>, int), int>(
            (key, key_end),
        ),
        scan_read_at(s, key_end, comments, |t: Lexeme| lexeme_is(t, Lexeme::Colon)) == Ok::<((), int), int>(
            ((), key_end + 1),
        ),
        reads_value(s, key_end + 1, comments, oracle, x, e),
        scan_token(s, e, comments) == Ok::<Option<(Scanned, int)>, int>(Some((Scanned::Token(Lexeme::Comma), e + 1))),
        w < e + 1 <= s.len(),
        reads_fields(s, e + 1, with_field(acc, key, x), comments, oracle, v, end),
    ensures
        reads_fields(s, w, acc, comments, oracle, v, end),
{
    reveal(reads_value);
    reveal(reads_fields);
}

/// A field that the closing bracket follows is the last of the object.
pub proof fn lemma_reads_fields_last(
    s: Seq<u8>,
    w: int,
    acc: Seq<(Seq<char>, Json)>,
    comments: bool,
    oracle: Oracle,
    key: Seq<char>,
    key_end: int,
    x: Json,
    e: int,
    end: int,
)
    requires
        0 <= w <= s.len(),
        scan_read_at(s, w, comments, |t: Lexeme| lexeme_str(t)) == Ok::<(Seq<char>, int), int>(
            (key, key_end),
        ),
        scan_read_at(s, key_end, comments, |t: Lexeme| lexeme_is(t, Lexeme::Colon)) == Ok::<((), int), int>(
            ((), key_end + 1),
        ),
        reads_value(s, key_end + 1, comments, oracle, x, e),
        scan_token(s, e, comments) == Ok::<Option<(Scanned, int)>, int>(Some((Scanned::Token(Lexeme::ObjectEnd), end))),
    ensures
        reads_fields(s, w, acc, comments, oracle, Json::Object(with_field(acc, key, x)), end),
{
    reveal(reads_value);
    reveal(reads_fields);
}

/// Behind a run of blanks, the text of a scalar whose float, if it is one, is read
/// back, which a delimiter or the end of the input follows, is read back as the
/// scalar.
pub proof fn lemma_scalar_at(
    v: Json,
    depth: nat,
    pretty: bool,
    comments: bool,
    oracle: Oracle,
    s: Seq<u8>,
    w: int,
    p: int,
)
    requires
        !(v is Array),
        !(v is Object),
        json_wf(v),
        reads_back(v, oracle),
        blank_run(s, w, p),
        has_at(s, p, encode_utf8(render(v, depth, pretty))),
        follow_ok(s, p + encode_utf8(render(v, depth, pretty)).len(), comments),
    ensures
        reads_value(s, w, comments, oracle, v, p + encode_utf8(render(v, depth, pretty)).len()),
{
    let end = p + encode_utf8(render(v, depth, pretty)).len();
    match v {
        Json::Null => {
            lemma_token_null(s, w, p, comments);
            lemma_reads_scalar(s, w, comments, oracle, Lexeme::Null, end);
        },
        Json::Bool(b) => {
            lemma_token_bool(s, w, p, b, comments);
            lemma_reads_scalar(s, w, comments, oracle, Lexeme::Bool(b), end);
        },
        Json::Num(NumView::Int(x)) => {
            lemma_token_int(s, w, p, x, comments);
            lemma_reads_scalar(s, w, comments, oracle, int_lexeme(x), end);
        },
        Json::Num(NumView::Float(f)) => {
            lemma_token_float(s, w, p, f, comments, oracle);
            lemma_reads_scalar(s, w, comments, oracle, Lexeme::NumF(f), end);
        },
        Json::Str(x) => {
            lemma_token_string(s, w, p, x, comments);
            lemma_reads_scalar(s, w, comments, oracle, Lexeme::Str(x), end);
        },
        _ => {},
    }
}

/// Behind a run of blanks, the text of a value whose floats are read back, which a
/// delimiter or the end of the input follows, is read back as the value.
pub proof fn lemma_value_at(
    v: Json,
    depth: nat,
    pretty: bool,
    comments: bool,
    oracle: Oracle,
    s: Seq<u8>,
    w: int,
    p: int,
)
    requires
        json_wf(v),
        reads_back(v, oracle),
        blank_run(s, w, p),
        has_at(s, p, encode_utf8(render(v, depth, pretty))),
        follow_ok(s, p + encode_utf8(render(v, depth, pretty)).len(), comments),
    ensures
        reads_value(s, w, comments, oracle, v, p + encode_utf8(render(v, depth, pretty)).len()),
    decreases v, 0nat,
{
    match v {
        Json::Array(a) => {
            lemma_array_at(a, depth, pretty, comments, oracle, s, w, p);
        },
        Json::Object(o) => {
            lemma_object_at(o, depth, pretty, comments, oracle, s, w, p);
        },
        _ => {
            lemma_scalar_at(v, depth, pretty, comments, oracle, s, w, p);
        },
    }
}

/// Behind a run of blanks, the text of an array is read back as the array.
pub proof fn lemma_array_at(
    a: Seq<Json>,
    depth: nat,
    pretty: bool,
    comments: bool,
    oracle: Oracle,
    s: Seq<u8>,
    w: int,
    p: int,
)
    requires
        forall|j: int| 0 <= j < a.len() ==> json_wf(#[trigger] a[j]) && reads_back(a[j], oracle),
        blank_run(s, w, p),
        has_at(s, p, encode_utf8(scope_text(array_entries(a, depth + 1, pretty), true, depth, pretty))),
    ensures
        reads_value(
            s,
            w,
            comments,
            oracle,
            Json::Array(a),
            p + encode_utf8(
                scope_text(array_entries(a, depth + 1, pretty), true, depth, pretty),
            ).len(),
        ),
    decreases a, a.len() + 1,
{
    let entries = array_entries(a, depth + 1, pretty);
    lemma_array_entries(a, depth + 1, pretty);
    let bytes = encode_utf8(scope_text(entries, true, depth, pretty));
    if a.len() == 0 {
        assert(entries =~= Seq::<Entry>::empty());
        lemma_scope_empty(true, depth, pretty);
        lemma_has_at_byte(s, p, bytes, 0);
        lemma_has_at_byte(s, p, bytes, 1);
        lemma_token_punct(s, w, p, comments);
        assert(blank_run(s, p + 1, p + 1));
        lemma_skip_run(s, p + 1, p + 1, comments);
        assert(a =~= Seq::<Json>::empty());
        lemma_reads_empty(s, w, comments, oracle, p, true);
    } else {
        lemma_scope_open(entries, true, depth, pretty, s, p);
        lemma_token_punct(s, w, p, comments);
        let first = p + 1 + encode_utf8(entry_lead(true, depth + 1, pretty)).len();
        lemma_render_first(a[0], depth + 1, pretty, oracle);
        let head = encode_utf8(key_text(entries[0].key, pretty)) + encode_utf8(entries[0].body);
        assert(head =~= encode_utf8(render(a[0], depth + 1, pretty)));
        lemma_has_at_byte(s, first, head, 0);
        lemma_skip_run(s, p + 1, first, comments);
        assert(a.take(0) =~= Seq::<Json>::empty());
        assert(blank_run(s, first, first));
        lemma_elements_at(a, 0, depth + 1, pretty, comments, oracle, s, first, p + 1);
        lemma_reads_array(
            s,
            w,
            comments,
            oracle,
            p,
            first,
            Json::Array(a),
            p + bytes.len(),
        );
    }
}

/// Behind a run of blanks, the text of an object is read back as the object.
pub proof fn lemma_object_at(
    o: Seq<(Seq<char>, Json)>,
    depth: nat,
    pretty: bool,
    comments: bool,
    oracle: Oracle,
    s: Seq<u8>,
    w: int,
    p: int,
)
    requires
        keys_sorted(o),
        forall|j: int| 0 <= j < o.len() ==> json_wf((#[trigger] o[j]).1) && reads_back(o[j].1, oracle),
        blank_run(s, w, p),
        has_at(
            s,
            p,
            encode_utf8(scope_text(object_entries(o, depth + 1, pretty), false, depth, pretty)),
        ),
    ensures
        reads_value(
            s,
            w,
            comments,
            oracle,
            Json::Object(o),
            p + encode_utf8(
                scope_text(object_entries(o, depth + 1, pretty), false, depth, pretty),
            ).len(),
        ),
    decreases o, o.len() + 1,
{
    let entries = object_entries(o, depth + 1, pretty);
    lemma_object_entries(o, depth + 1, pretty);
    let bytes = encode_utf8(scope_text(entries, false, depth, pretty));
    if o.len() == 0 {
        assert(entries =~= Seq::<Entry>::empty());
        lemma_scope_empty(false, depth, pretty);
        lemma_has_at_byte(s, p, bytes, 0);
        lemma_has_at_byte(s, p, bytes, 1);
        lemma_token_punct(s, w, p, comments);
        assert(blank_run(s, p + 1, p + 1));
        lemma_skip_run(s, p + 1, p + 1, comments);
        assert(o =~= Seq::<(Seq<char>, Json)>::empty());
        lemma_reads_empty(s, w, comments, oracle, p, false);
    } else {
        lemma_scope_open(entries, false, depth, pretty, s, p);
        lemma_token_punct(s, w, p, comments);
        let first = p + 1 + encode_utf8(entry_lead(true, depth + 1, pretty)).len();
        lemma_key_first(o[0].0, pretty);
        let head = encode_utf8(key_text(entries[0].key, pretty)) + encode_utf8(entries[0].body);
        lemma_has_at_byte(s, first, head, 0);
        lemma_skip_run(s, p + 1, first, comments);
        assert(o.take(0) =~= Seq::<(Seq<char>, Json)>::empty());
        assert(blank_run(s, first, first));
        lemma_fields_at(o, 0, depth + 1, pretty, comments, oracle, s, first, p + 1);
        lemma_reads_object(
            s,
            w,
            comments,
            oracle,
            p,
            first,
            Json::Object(o),
            p + bytes.len(),
        );
    }
}

/// The text of a key starts with a quote.
pub proof fn lemma_key_first(key: Seq<char>, pretty: bool)
    ensures
        encode_utf8(key_text(Some(key), pretty)).len() >= 1,
        encode_utf8(key_text(Some(key), pretty))[0] == 0x22,
{
    let colon = if pretty {
        seq![':', ' ']
    } else {
        seq![':']
    };
    assert(key_text(Some(key), pretty) =~= seq!['"'] + (escaped(key) + seq!['"'] + colon));
    lemma_encode_concat(seq!['"'], escaped(key) + seq!['"'] + colon);
    lemma_encode_ascii(seq!['"']);
    assert(encode_utf8(seq!['"'])[0] == 0x22);
}

/// From element `i` on, the elements of an array and its closing bracket are read
/// back as the array, on top of the elements before.
pub proof fn lemma_elements_at(
    a: Seq<Json>,
    i: int,
    depth: nat,
    pretty: bool,
    comments: bool,
    oracle: Oracle,
    s: Seq<u8>,
    w: int,
    q: int,
)
    requires
        0 <= i < a.len(),
        depth >= 1,
        forall|j: int| 0 <= j < a.len() ==> json_wf(#[trigger] a[j]) && reads_back(a[j], oracle),
        has_at(
            s,
            q,
            encode_utf8(tail_text(array_entries(a, depth, pretty), i, depth, pretty, true)),
        ),
        blank_run(s, w, q + encode_utf8(entry_lead(i == 0, depth, pretty)).len()),
    ensures
        reads_elements(
            s,
            w,
            a.take(i),
            comments,
            oracle,
            Json::Array(a),
            q + encode_utf8(
                tail_text(array_entries(a, depth, pretty), i, depth, pretty, true),
            ).len(),
        ),
    decreases a, a.len() - i,
{
    let entries = array_entries(a, depth, pretty);
    lemma_array_entries(a, depth, pretty);
    lemma_tail_step(entries, i, depth, pretty, true);
    let lead = encode_utf8(entry_lead(i == 0, depth, pretty));
    let body = encode_utf8(entries[i].body);
    let rest = encode_utf8(tail_text(entries, i + 1, depth, pretty, true));
    let end = q + encode_utf8(tail_text(entries, i, depth, pretty, true)).len();
    assert(encode_utf8(key_text(entries[i].key, pretty)) =~= Seq::<u8>::empty());
    assert(encode_utf8(tail_text(entries, i, depth, pretty, true)) =~= lead + (body + rest));
    lemma_has_at_split(s, q, lead, body + rest);
    let p = q + lead.len();
    lemma_has_at_split(s, p, body, rest);
    let e = p + body.len();
    lemma_after_entry(entries, i, depth, pretty, true, s, e, comments);
    lemma_value_at(a[i], depth, pretty, comments, oracle, s, w, p);
    lemma_render_first(a[i], depth, pretty, oracle);
    assert(a.take(i).push(a[i]) =~= a.take(i + 1));
    if i + 1 < a.len() {
        lemma_elements_at(a, i + 1, depth, pretty, comments, oracle, s, e + 1, e);
        lemma_reads_elements_more(
            s,
            w,
            a.take(i),
            comments,
            oracle,
            a[i],
            e,
            Json::Array(a),
            end,
        );
    } else {
        assert(a.take(i + 1) =~= a);
        lemma_reads_elements_last(s, w, a.take(i), comments, oracle, a[i], e, end);
    }
}

/// From field `i` on, the fields of an object and its closing bracket are read back
/// as the object, on top of the fields before.
pub proof fn lemma_fields_at(
    o: Seq<(Seq<char>, Json)>,
    i: int,
    depth: nat,
    pretty: bool,
    comments: bool,
    oracle: Oracle,
    s: Seq<u8>,
    w: int,
    q: int,
)
    requires
        0 <= i < o.len(),
        depth >= 1,
        keys_sorted(o),
        forall|j: int| 0 <= j < o.len() ==> json_wf((#[trigger] o[j]).1) && reads_back(o[j].1, oracle),
        has_at(
            s,
            q,
            encode_utf8(tail_text(object_entries(o, depth, pretty), i, depth, pretty, false)),
        ),
        blank_run(s, w, q + encode_utf8(entry_lead(i == 0, depth, pretty)).len()),
    ensures
        reads_fields(
            s,
            w,
            o.take(i),
            comments,
            oracle,
            Json::Object(o),
            q + encode_utf8(
                tail_text(object_entries(o, depth, pretty), i, depth, pretty, false),
            ).len(),
        ),
    decreases o, o.len() - i,
{
    let entries = object_entries(o, depth, pretty);
    lemma_object_entries(o, depth, pretty);
    lemma_tail_step(entries, i, depth, pretty, false);
    let lead = encode_utf8(entry_lead(i == 0, depth, pretty));
    let key = encode_utf8(key_text(entries[i].key, pretty));
    let body = encode_utf8(entries[i].body);
    let rest = encode_utf8(tail_text(entries, i + 1, depth, pretty, false));
    let end = q + encode_utf8(tail_text(entries, i, depth, pretty, false)).len();
    assert(encode_utf8(tail_text(entries, i, depth, pretty, false)) =~= lead + (key + (body + rest)));
    lemma_has_at_split(s, q, lead, key + (body + rest));
    let p = q + lead.len();
    lemma_has_at_split(s, p, key, body + rest);
    let v = p + key.len();
    lemma_has_at_split(s, v, body, rest);
    let e = v + body.len();
    lemma_after_entry(entries, i, depth, pretty, false, s, e, comments);
    lemma_key_at(s, w, p, o[i].0, pretty, comments);
    let k = p + encode_utf8(quoted(o[i].0)).len();
    lemma_value_at(o[i].1, depth, pretty, comments, oracle, s, k + 1, v);
    lemma_with_field_next(o, i);
    if i + 1 < o.len() {
        lemma_fields_at(o, i + 1, depth, pretty, comments, oracle, s, e + 1, e);
        lemma_reads_fields_more(
            s,
            w,
            o.take(i),
            comments,
            oracle,
            o[i].0,
            k,
            o[i].1,
            e,
            Json::Object(o),
            end,
        );
    } else {
        assert(o.take(i + 1) =~= o);
        lemma_reads_fields_last(s, w, o.take(i), comments, oracle, o[i].0, k, o[i].1, e, end);
    }
}

} // verus!
