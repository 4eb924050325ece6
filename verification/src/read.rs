//! The tokenizer: a cursor over the bytes of the input, with one slot to push a
//! token back into.
use vstd::prelude::*;
use vstd::string::StringSliceAdditionalSpecFns;
use vstd::utf8::{encode_utf8_valid_utf8, valid_utf8};
use crate::dialect::Dialect;
use crate::lex::{
    block_end, has_float_mark, hex_value, is_delim, is_float_mark, lemma_block_end_bounds,
    lemma_lex_escape_bounds, lemma_lex_hex4_value, lemma_lex_hex_bounds, lemma_line_end_bounds,
    lemma_skip_blank_bounds, lemma_span_end_bounds, lex_escape, lex_hex, lex_string,
    lex_unicode, lex_word, line_end, num_end, resolve, scan_number, scan_token, skip_blank,
    skip_space, span_end, word_false, word_null, word_true, Lexeme, Oracle, Scanned,
};
use crate::text::{
    dec_utf16_single, is_digit, lemma_boundary_after_ascii, parse_digits, slice_str, Text,
};
use crate::num::{float_to_int, trunc_i128, Float, FloatView};

verus! {

/// Assumed of `String::clear` of std: it leaves the string empty.
pub assume_specification[ String::clear ](s: &mut String)
    ensures
        final(s)@ == Seq::<char>::empty(),
;

/// A failure to read JSON, with the place in the input around which it happened.
#[derive(Clone, Copy, Debug, PartialEq, Eq, Structural)]
pub struct Error {
    /// The offset in bytes.
    pub index: usize,
    /// The number of line feeds before the offset.
    pub line: usize,
    /// The offset in bytes from the start of that line.
    pub column: usize,
}

/// The number of line feeds among the bytes.
pub open spec fn count_lines(s: Seq<u8>) -> nat
    decreases s.len(),
{
    if s.len() == 0 {
        0
    } else {
        count_lines(s.drop_last()) + (if s.last() == 0x0a {
            1nat
        } else {
            0nat
        })
    }
}

/// The position after the last line feed among the bytes, or zero.
pub open spec fn line_start(s: Seq<u8>) -> nat
    decreases s.len(),
{
    if s.len() == 0 {
        0
    } else if s.last() == 0x0a {
        s.len()
    } else {
        line_start(s.drop_last())
    }
}

/// The error for a failure at `offset`: the offset, kept within the input, with its
/// line and column.
pub open spec fn error_at(src: Seq<u8>, offset: int) -> Error {
    let index = if offset < 0 {
        0
    } else if offset > src.len() {
        src.len() as int
    } else {
        offset
    };
    Error {
        index: index as usize,
        line: count_lines(src.take(index)) as usize,
        column: (index - line_start(src.take(index))) as usize,
    }
}

impl Error {
    /// The error as a sentence.
    pub open spec fn message_text(&self) -> Seq<char> {
        "JSON parse error around index "@ + crate::text::dec_text(self.index as nat) + " (line "@
            + crate::text::dec_text(self.line as nat) + " column "@ + crate::text::dec_text(
            self.column as nat,
        ) + ")"@
    }

    /// The error as a sentence.
    pub fn message(&self) -> (s: String)
        ensures
            s@ == self.message_text(),
    {
        let mut s = String::new();
        s.append("JSON parse error around index ");
        crate::text::push_u64(&mut s, self.index as u64);
        s.append(" (line ");
        crate::text::push_u64(&mut s, self.line as u64);
        s.append(" column ");
        crate::text::push_u64(&mut s, self.column as u64);
        s.append(")");
        proof {
            assert(s@ =~= self.message_text());
        }
        s
    }
}

/// One token of the input.
#[derive(Debug)]
pub enum Token<'s> {
    Null,
    Bool(bool),
    NumU(u64),
    NumI(i64),
    NumF(Float),
    /// A string without escapes: a part of the input.
    StrBorrow(&'s str),
    /// A string with its escapes decoded.
    StrOwn(String),
    Colon,
    Comma,
    ObjectBegin,
    ObjectEnd,
    ArrayBegin,
    ArrayEnd,
}

impl<'s> View for Token<'s> {
    type V = Lexeme;

    open spec fn view(&self) -> Lexeme {
        match self {
            Token::Null => Lexeme::Null,
            Token::Bool(b) => Lexeme::Bool(*b),
            Token::NumU(u) => Lexeme::NumU(*u),
            Token::NumI(i) => Lexeme::NumI(*i),
            Token::NumF(f) => Lexeme::NumF(f@),
            Token::StrBorrow(s) => Lexeme::Str(s@),
            Token::StrOwn(s) => Lexeme::Str(s@),
            Token::Colon => Lexeme::Colon,
            Token::Comma => Lexeme::Comma,
            Token::ObjectBegin => Lexeme::ObjectBegin,
            Token::ObjectEnd => Lexeme::ObjectEnd,
            Token::ArrayBegin => Lexeme::ArrayBegin,
            Token::ArrayEnd => Lexeme::ArrayEnd,
        }
    }
}

/// The string that starts at `pos`, behind its opening quote, holds no escape: its
/// closing quote comes before any backslash.
pub open spec fn no_escape(s: Seq<u8>, pos: int) -> bool {
    span_end(s, pos) < s.len() && s[span_end(s, pos)] == 0x22
}

/// The token at `pos` is a string without escapes, which is handed out as a part of
/// the input.
pub open spec fn borrows(s: Seq<u8>, pos: int, comments: bool) -> bool {
    match skip_space(s, pos, comments) {
        Ok(p) => 0 <= p < s.len() && s[p] == 0x22 && no_escape(s, p + 1),
        Err(_) => false,
    }
}

/// The oracle that gives the same answer for every text.
pub open spec fn always(a: Option<FloatView>) -> Oracle {
    |text: Seq<char>| a
}

/// The token of a number is what the answer `a` of the decoder makes it: the float,
/// or a failure at `end` where the answer is none.
pub open spec fn answered<'a>(
    r: Result<Token<'a>, Error>,
    a: Option<FloatView>,
    src: Seq<u8>,
    end: int,
) -> bool {
    match a {
        Some(f) => r is Ok && r->Ok_0@ == Lexeme::NumF(f),
        None => r == Err::<Token<'a>, Error>(error_at(src, end)),
    }
}

/// The decoder may give the answer `a` for the text, and the token of the number is
/// what that answer makes it.
pub open spec fn decoded_as<'a, F: Fn(&str) -> Option<Float>>(
    decode: &F,
    text: Seq<char>,
    a: Option<FloatView>,
    r: Result<Token<'a>, Error>,
    src: Seq<u8>,
    end: int,
) -> bool {
    yields(decode, text, a) && answered(r, a, src, end)
}

/// The outcome `r` of reading a number is what `scanned` asks for: the failure, the
/// integer, or what an answer that the decoder may give for the text makes of it.
pub open spec fn number_read<'a, F: Fn(&str) -> Option<Float>>(
    scanned: Result<(Scanned, int), int>,
    decode: &F,
    r: Result<Token<'a>, Error>,
    src: Seq<u8>,
    cursor: int,
) -> bool {
    match scanned {
        Err(e) => r == Err::<Token<'a>, Error>(error_at(src, e)) && cursor == e,
        Ok((Scanned::Token(lexeme), p)) => r is Ok && r->Ok_0@ == lexeme && cursor == p,
        Ok((Scanned::Float(text), p)) => cursor == p && decoded_somehow(decode, text, r, src, p),
    }
}

/// The token of the number is what some answer that the decoder may give for the
/// text makes it.
pub open spec fn decoded_somehow<'a, F: Fn(&str) -> Option<Float>>(
    decode: &F,
    text: Seq<char>,
    r: Result<Token<'a>, Error>,
    src: Seq<u8>,
    end: int,
) -> bool {
    exists|a: Option<FloatView>| decoded_as(decode, text, a, r, src, end)
}

/// What a float is in contracts, if there is one.
pub open spec fn float_view(f: Option<Float>) -> Option<FloatView> {
    match f {
        Some(f) => Some(f@),
        None => None,
    }
}

/// The decoder may yield `r` for the text.
pub open spec fn yields<F: Fn(&str) -> Option<Float>>(decode: &F, text: Seq<char>, r: Option<FloatView>) -> bool {
    exists|s: &str, f: Option<Float>|
        s@ == text && #[trigger] decode.ensures((s,), f) && float_view(f) == r
}

/// The decoder yields one result for each text.
#[verifier::opaque]
pub open spec fn functional<F: Fn(&str) -> Option<Float>>(decode: &F) -> bool {
    forall|text: Seq<char>, a: Option<FloatView>, b: Option<FloatView>|
        #[trigger] yields(decode, text, a) && #[trigger] yields(decode, text, b) ==> a == b
}

/// What the decoder yields for each text, where it is functional.
#[verifier::opaque]
pub open spec fn oracle_of<F: Fn(&str) -> Option<Float>>(decode: &F) -> Oracle {
    |text: Seq<char>| choose|r: Option<FloatView>| yields(decode, text, r)
}

/// A reader of tokens from a text. It turns the text of a float into a float by
/// calling the decoder it was made with.
pub struct Reader<'a, F: Fn(&str) -> Option<Float>> {
    input: &'a str,
    bytes: &'a [u8],
    pos: usize,
    buf: String,
    stash: Option<Token<'a>>,
    dialect: Dialect,
    decode: F,
}

impl<'a, F: Fn(&str) -> Option<Float>> Reader<'a, F> {
    /// The reader's cursor lies within its input, and its decoder takes any text.
    pub closed spec fn wf(&self) -> bool {
        &&& self.bytes@ == self.input.spec_bytes()
        &&& self.pos <= self.bytes@.len()
        &&& forall|t: &str| self.decode.requires((t,))
    }

    /// The cursor of a reader lies within its input, which is the bytes of its text.
    pub proof fn lemma_wf(&self)
        requires
            self.wf(),
        ensures
            0 <= self.pos() <= self.source().len(),
            self.source() == self.input().spec_bytes(),
            self.remaining() >= 0,
    {
    }

    /// The bytes of the input.
    pub closed spec fn source(&self) -> Seq<u8> {
        self.bytes@
    }

    /// The text of the input.
    pub closed spec fn input(&self) -> &'a str {
        self.input
    }

    /// The position of the cursor, in bytes.
    pub closed spec fn pos(&self) -> int {
        self.pos as int
    }

    /// The token that was pushed back, if any.
    pub closed spec fn stashed(&self) -> Option<Lexeme> {
        match self.stash {
            Some(t) => Some(t@),
            None => None,
        }
    }

    /// The token that was pushed back, if any, as it is.
    pub closed spec fn stash_token(&self) -> Option<Token<'a>> {
        self.stash
    }

    /// The next token is a string that is a part of the input: the token that was
    /// pushed back is one, or the token at the cursor is a string without escapes.
    pub open spec fn next_borrows(&self) -> bool {
        match self.stash_token() {
            Some(t) => t is StrBorrow,
            None => borrows(self.source(), self.pos(), self.dialect().allow_comments),
        }
    }

    /// The characters of the string that is being read.
    pub closed spec fn buffer(&self) -> Seq<char> {
        self.buf@
    }

    /// The dialect that the reader accepts.
    pub closed spec fn dialect(&self) -> Dialect {
        self.dialect
    }

    /// The decoder of floats.
    pub closed spec fn decoder(&self) -> &F {
        &self.decode
    }

    /// What the decoder yields for each text.
    pub open spec fn oracle(&self) -> Oracle {
        oracle_of(self.decoder())
    }

    /// The reader works on the same input, in the same dialect, with the same
    /// decoder.
    pub open spec fn same_input(&self, other: &Self) -> bool {
        &&& self.source() == other.source()
        &&& self.input() == other.input()
        &&& self.dialect() == other.dialect()
        &&& self.decoder() == other.decoder()
    }

    /// A reader at the start of the text, for plain JSON.
    pub fn new(input: &'a str, decode: F) -> (r: Self)
        requires
            forall|t: &str| decode.requires((t,)),
        ensures
            r.wf(),
            r.source() == input.spec_bytes(),
            r.input() == input,
            r.pos() == 0,
            r.stashed() is None,
            r.dialect() == (Dialect { allow_comments: false, allow_trailing_comma: false }),
            r.decoder() == decode,
    {
        Reader {
            input,
            bytes: input.as_bytes(),
            pos: 0,
            buf: String::new(),
            stash: None,
            dialect: Dialect::default(),
            decode,
        }
    }

    /// A reader at the start of the text, for the given dialect.
    pub fn with_dialect(input: &'a str, dialect: Dialect, decode: F) -> (r: Self)
        requires
            forall|t: &str| decode.requires((t,)),
        ensures
            r.wf(),
            r.source() == input.spec_bytes(),
            r.input() == input,
            r.pos() == 0,
            r.stashed() is None,
            r.dialect() == dialect,
            r.decoder() == decode,
    {
        Reader {
            input,
            bytes: input.as_bytes(),
            pos: 0,
            buf: String::new(),
            stash: None,
            dialect,
            decode,
        }
    }

    /// The error for a failure at the cursor.
    pub fn err(&self) -> (e: Error)
        requires
            self.wf(),
        ensures
            e == error_at(self.source(), self.pos()),
    {
        let index = self.pos;
        let ghost so_far = self.bytes@.take(index as int);
        let mut line: usize = 0;
        let mut start: usize = 0;
        let mut i: usize = 0;
        proof {
            assert(so_far.take(0) =~= Seq::<u8>::empty());
        }
        while i < index
            invariant
                i <= index <= self.bytes@.len(),
                so_far == self.bytes@.take(index as int),
                line == count_lines(so_far.take(i as int)),
                start == line_start(so_far.take(i as int)),
                line <= i,
                start <= i,
            decreases index - i,
        {
            proof {
                assert(so_far.take(i + 1).drop_last() =~= so_far.take(i as int));
                assert(so_far.take(i + 1).last() == self.bytes@[i as int]);
            }
            if self.bytes[i] == 0x0a {
                line += 1;
                start = i + 1;
            }
            i += 1;
        }
        proof {
            assert(so_far.take(index as int) =~= so_far);
        }
        Error { index, line, column: index - start }
    }

    /// The byte at the cursor, if there is one.
    fn bpeek(&self) -> (r: Option<u8>)
        requires
            self.wf(),
        ensures
            r == (if self.pos() < self.source().len() {
                Some(self.source()[self.pos()])
            } else {
                None
            }),
    {
        if self.pos < self.bytes.len() {
            Some(self.bytes[self.pos])
        } else {
            None
        }
    }

    /// The byte at the cursor, which moves past it.
    fn bnext(&mut self) -> (r: Option<u8>)
        requires
            old(self).wf(),
        ensures
            final(self).wf(),
            final(self).same_input(old(self)),
            final(self).pos() >= old(self).pos(),
            final(self).stashed() == old(self).stashed(),
            final(self).buffer() == old(self).buffer(),
            r == (if old(self).pos() < old(self).source().len() {
                Some(old(self).source()[old(self).pos()])
            } else {
                None
            }),
            final(self).pos() == (if old(self).pos() < old(self).source().len() {
                old(self).pos() + 1
            } else {
                old(self).pos()
            }),
    {
        if self.pos < self.bytes.len() {
            let ch = self.bytes[self.pos];
            self.pos += 1;
            Some(ch)
        } else {
            None
        }
    }

    /// The byte at the cursor, which moves past it; a failure at the end of the
    /// input.
    fn bnext_or_err(&mut self) -> (r: Result<u8, Error>)
        requires
            old(self).wf(),
        ensures
            final(self).wf(),
            final(self).same_input(old(self)),
            final(self).pos() >= old(self).pos(),
            final(self).stashed() == old(self).stashed(),
            final(self).buffer() == old(self).buffer(),
            r == (if old(self).pos() < old(self).source().len() {
                Ok::<u8, Error>(old(self).source()[old(self).pos()])
            } else {
                Err::<u8, Error>(error_at(old(self).source(), old(self).source().len() as int))
            }),
            final(self).pos() == (if old(self).pos() < old(self).source().len() {
                old(self).pos() + 1
            } else {
                old(self).pos()
            }),
    {
        match self.bnext() {
            Some(c) => Ok(c),
            None => Err(self.err()),
        }
    }

    /// Moves the cursor past blanks.
    fn skip_ws(&mut self)
        requires
            old(self).wf(),
        ensures
            final(self).wf(),
            final(self).same_input(old(self)),
            final(self).pos() >= old(self).pos(),
            final(self).stashed() == old(self).stashed(),
            final(self).pos() == skip_blank(old(self).source(), old(self).pos()),
    {
        let mut p = self.pos;
        while p < self.bytes.len() && (self.bytes[p] == 0x0a || self.bytes[p] == 0x20
            || self.bytes[p] == 0x09 || self.bytes[p] == 0x0d)
            invariant
                self.pos <= p <= self.bytes@.len(),
                skip_blank(self.bytes@, p as int) == skip_blank(self.bytes@, self.pos as int),
            decreases self.bytes@.len() - p,
        {
            p += 1;
        }
        self.pos = p;
    }

    /// Moves the cursor past blanks and, where the dialect has them, comments.
    fn skip_space(&mut self) -> (r: Result<(), Error>)
        requires
            old(self).wf(),
        ensures
            final(self).wf(),
            final(self).same_input(old(self)),
            final(self).pos() >= old(self).pos(),
            final(self).stashed() == old(self).stashed(),
            match skip_space(old(self).source(), old(self).pos(), old(self).dialect().allow_comments) {
                Ok(p) => r is Ok && final(self).pos() == p,
                Err(e) => r == Err::<(), Error>(error_at(old(self).source(), e)) && final(self).pos()
                    == e,
            },
    {
        let ghost src = self.bytes@;
        let ghost comments = self.dialect.allow_comments;
        let ghost goal = skip_space(src, self.pos as int, comments);
        loop
            invariant
                self.wf(),
                self.same_input(old(self)),
                self.pos() >= old(self).pos(),
                self.stashed() == old(self).stashed(),
                src == self.bytes@,
                comments == self.dialect.allow_comments,
                self.pos <= src.len(),
                skip_space(src, self.pos as int, comments) == goal,
                goal == skip_space(old(self).source(), old(self).pos(), old(self).dialect().allow_comments),
            ensures
                match goal {
                    Ok(p) => self.pos == p,
                    Err(e) => false,
                },
            decreases src.len() - self.pos,
        {
            let ghost start = self.pos as int;
            self.skip_ws();
            proof {
                lemma_skip_blank_bounds(src, start);
            }
            let p = self.pos;
            if !self.dialect.allow_comments || self.bytes.len() - p < 2 || self.bytes[p] != 0x2f {
                break ;
            }
            if self.bytes[p + 1] == 0x2f {
                let mut q = p + 2;
                while q < self.bytes.len() && self.bytes[q] != 0x0a
                    invariant
                        p + 2 <= q <= self.bytes@.len(),
                        line_end(self.bytes@, q as int) == line_end(self.bytes@, p + 2),
                    decreases self.bytes@.len() - q,
                {
                    q += 1;
                }
                proof {
                    lemma_line_end_bounds(src, p + 2);
                }
                self.pos = q;
            } else if self.bytes[p + 1] == 0x2a {
                let mut q = p + 2;
                while self.bytes.len() - q >= 2 && !(self.bytes[q] == 0x2a && self.bytes[q + 1]
                    == 0x2f)
                    invariant
                        p + 2 <= q <= self.bytes@.len(),
                        block_end(self.bytes@, q as int) == block_end(self.bytes@, p + 2),
                    decreases self.bytes@.len() - q,
                {
                    q += 1;
                }
                if self.bytes.len() - q < 2 {
                    self.pos = self.bytes.len();
                    return Err(self.err());
                }
                proof {
                    lemma_block_end_bounds(src, p + 2);
                }
                self.pos = q + 2;
            } else {
                break ;
            }
        }
        Ok(())
    }

    /// The byte of the next token, without reading the token. There must be no token
    /// pushed back.
    pub fn skipnpeek(&mut self) -> (r: Result<Option<u8>, Error>)
        requires
            old(self).wf(),
            old(self).stashed() is None,
        ensures
            final(self).wf(),
            final(self).same_input(old(self)),
            final(self).pos() >= old(self).pos(),
            final(self).stashed() is None,
            match skip_space(old(self).source(), old(self).pos(), old(self).dialect().allow_comments) {
                Ok(p) => final(self).pos() == p && r == Ok::<Option<u8>, Error>(
                    if p < old(self).source().len() {
                        Some(old(self).source()[p])
                    } else {
                        None
                    },
                ),
                Err(e) => r == Err::<Option<u8>, Error>(error_at(old(self).source(), e))
                    && final(self).pos() == e,
            },
    {
        match self.skip_space() {
            Ok(()) => Ok(self.bpeek()),
            Err(e) => Err(e),
        }
    }
}

impl<'a, F: Fn(&str) -> Option<Float>> Reader<'a, F> {
    /// Four hexadecimal digits as one code unit.
    fn single_hex_escape(&mut self) -> (r: Result<u16, Error>)
        requires
            old(self).wf(),
        ensures
            final(self).wf(),
            final(self).same_input(old(self)),
            final(self).pos() >= old(self).pos(),
            final(self).stashed() == old(self).stashed(),
            final(self).buffer() == old(self).buffer(),
            match lex_hex(old(self).source(), old(self).pos(), 4, 0) {
                Ok((v, p)) => r == Ok::<u16, Error>(v as u16) && v < 0x10000 && final(self).pos() == p,
                Err(e) => r == Err::<u16, Error>(error_at(old(self).source(), e)) && final(self).pos()
                    == e,
            },
    {
        proof {
            lemma_lex_hex4_value(self.bytes@, self.pos as int);
        }
        let ghost src = self.bytes@;
        let ghost goal = lex_hex(src, self.pos as int, 4, 0);
        let mut acc: u16 = 0;
        let mut i: u8 = 0;
        while i < 4
            invariant
                i <= 4,
                self.wf(),
                self.same_input(old(self)),
                self.pos() >= old(self).pos(),
                self.stashed() == old(self).stashed(),
                self.buffer() == old(self).buffer(),
                src == self.bytes@,
                self.pos <= src.len(),
                i == 0 ==> acc == 0,
                i == 1 ==> acc < 0x10,
                i == 2 ==> acc < 0x100,
                i == 3 ==> acc < 0x1000,
                lex_hex(src, self.pos as int, (4 - i) as nat, acc as nat) == goal,
                goal == lex_hex(old(self).source(), old(self).pos(), 4, 0),
            decreases 4 - i,
        {
            let ghost p0 = self.pos as int;
            proof {
                lemma_lex_hex_bounds(src, p0, (4 - i) as nat, acc as nat);
            }
            let b = match self.bnext_or_err() {
                Ok(b) => b,
                Err(e) => {
                    proof {
                        assert(p0 == src.len());
                        assert(lex_hex(src, p0, (4 - i) as nat, acc as nat) == Err::<(nat, int), int>(
                            src.len() as int,
                        ));
                    }
                    return Err(e);
                },
            };
            proof {
                assert(lex_hex(src, p0, (4 - i) as nat, acc as nat) == (match hex_value(b) {
                    Some(d) => lex_hex(src, p0 + 1, (4 - i - 1) as nat, acc as nat * 16 + d),
                    None => Err(p0 + 1),
                }));
            }
            let n: u8 = if 48 <= b && b <= 57 {
                b - 48
            } else if 97 <= b && b <= 102 {
                b - 97 + 10
            } else if 65 <= b && b <= 70 {
                b - 65 + 10
            } else {
                return Err(self.err());
            };
            proof {
                assert(hex_value(b) == Some(n as nat));
            }
            acc = acc * 16 + (n as u16);
            i += 1;
        }
        Ok(acc)
    }

    /// After `\u`: appends the character of the escape, or of the surrogate pair that
    /// it opens, to the buffer.
    fn read_hex_escape(&mut self) -> (r: Result<(), Error>)
        requires
            old(self).wf(),
        ensures
            final(self).wf(),
            final(self).same_input(old(self)),
            final(self).pos() >= old(self).pos(),
            final(self).stashed() == old(self).stashed(),
            match lex_unicode(old(self).source(), old(self).pos()) {
                Ok((c, p)) => r is Ok && final(self).pos() == p && final(self).buffer() == old(self).buffer().push(c),
                Err(e) => r == Err::<(), Error>(error_at(old(self).source(), e)) && final(self).pos()
                    == e,
            },
    {
        proof {
            lemma_lex_hex_bounds(self.bytes@, self.pos as int, 4, 0);
        }
        let lead = match self.single_hex_escape() {
            Ok(v) => v,
            Err(e) => {
                return Err(e);
            },
        };
        if let Some(c) = char::from_u32(lead as u32) {
            self.buf.push(c);
            return Ok(());
        }
        if 0xdc00 <= lead && lead < 0xe000 {
            self.buf.push('\u{FFFD}');
            return Ok(());
        }
        let p = self.pos;
        if self.bytes.len() - p >= 2 && self.bytes[p] == 0x5c && self.bytes[p + 1] == 0x75 {
            self.pos = p + 2;
        } else {
            self.buf.push('\u{FFFD}');
            return Ok(());
        }
        proof {
            lemma_lex_hex_bounds(self.bytes@, p + 2, 4, 0);
        }
        let trail = match self.single_hex_escape() {
            Ok(v) => v,
            Err(e) => {
                return Err(e);
            },
        };
        match dec_utf16_single(lead, trail) {
            Some(c) => {
                self.buf.push(c);
            },
            None => {
                self.pos = p;
                self.buf.push('\u{FFFD}');
            },
        }
        Ok(())
    }

    /// Reads the bytes of `next`.
    fn expect_next(&mut self, next: &[u8]) -> (r: Result<(), Error>)
        requires
            old(self).wf(),
        ensures
            final(self).wf(),
            final(self).same_input(old(self)),
            final(self).pos() >= old(self).pos(),
            final(self).stashed() == old(self).stashed(),
            match lex_word(old(self).source(), old(self).pos(), next@) {
                Ok(p) => r is Ok && final(self).pos() == p,
                Err(e) => r == Err::<(), Error>(error_at(old(self).source(), e)) && final(self).pos()
                    == e,
            },
    {
        let ghost src = self.bytes@;
        let ghost goal = lex_word(src, self.pos as int, next@);
        let mut i: usize = 0;
        proof {
            assert(next@.skip(0) =~= next@);
        }
        while i < next.len()
            invariant
                i <= next.len(),
                self.wf(),
                self.same_input(old(self)),
                self.pos() >= old(self).pos(),
                self.stashed() == old(self).stashed(),
                src == self.bytes@,
                self.pos <= src.len(),
                lex_word(src, self.pos as int, next@.skip(i as int)) == goal,
                goal == lex_word(old(self).source(), old(self).pos(), next@),
            decreases next.len() - i,
        {
            let ghost p0 = self.pos as int;
            proof {
                assert(next@.skip(i as int).drop_first() =~= next@.skip(i + 1));
                assert(next@.skip(i as int)[0] == next@[i as int]);
                assert(lex_word(src, p0, next@.skip(i as int)) == (if p0 >= src.len() {
                    Err::<int, int>(src.len() as int)
                } else if src[p0] != next@[i as int] {
                    Err::<int, int>(p0 + 1)
                } else {
                    lex_word(src, p0 + 1, next@.skip(i + 1))
                }));
            }
            match self.bnext() {
                Some(b) => {
                    if b != next[i] {
                        return Err(self.err());
                    }
                },
                None => {
                    return Err(self.err());
                },
            }
            i += 1;
        }
        Ok(())
    }

    /// After a backslash: appends the character of the escape to the buffer.
    fn unescape_next(&mut self) -> (r: Result<(), Error>)
        requires
            old(self).wf(),
        ensures
            final(self).wf(),
            final(self).same_input(old(self)),
            final(self).pos() >= old(self).pos(),
            final(self).stashed() == old(self).stashed(),
            match lex_escape(old(self).source(), old(self).pos()) {
                Ok((c, p)) => r is Ok && final(self).pos() == p && final(self).buffer() == old(self).buffer().push(c),
                Err(e) => r == Err::<(), Error>(error_at(old(self).source(), e)) && final(self).pos()
                    == e,
            },
    {
        let b = match self.bnext_or_err() {
            Ok(b) => b,
            Err(e) => {
                return Err(e);
            },
        };
        if b == 0x62 {
            self.buf.push('\u{8}');
        } else if b == 0x66 {
            self.buf.push('\u{c}');
        } else if b == 0x6e {
            self.buf.push('\n');
        } else if b == 0x72 {
            self.buf.push('\r');
        } else if b == 0x74 {
            self.buf.push('\t');
        } else if b == 0x5c {
            self.buf.push('\\');
        } else if b == 0x2f {
            self.buf.push('/');
        } else if b == 0x22 {
            self.buf.push('"');
        } else if b == 0x75 {
            return self.read_hex_escape();
        } else {
            return Err(self.err());
        }
        Ok(())
    }

    /// After the first byte of a keyword: reads the rest of it and gives the token.
    fn read_keyword(&mut self, rest: &[u8], t: Token<'a>) -> (r: Result<Token<'a>, Error>)
        requires
            old(self).wf(),
        ensures
            final(self).wf(),
            final(self).same_input(old(self)),
            final(self).pos() >= old(self).pos(),
            final(self).stashed() == old(self).stashed(),
            match lex_word(old(self).source(), old(self).pos(), rest@) {
                Ok(p) => r == Ok::<Token<'a>, Error>(t) && final(self).pos() == p,
                Err(e) => r == Err::<Token<'a>, Error>(error_at(old(self).source(), e)) && final(self).pos() == e,
            },
    {
        match self.expect_next(rest) {
            Ok(()) => Ok(t),
            Err(e) => Err(e),
        }
    }

    /// After the opening quote: reads the string up to its closing quote.
    fn read_string(&mut self) -> (r: Result<Token<'a>, Error>)
        requires
            old(self).wf(),
            0 < old(self).pos(),
            old(self).source()[old(self).pos() - 1] < 0x80,
        ensures
            final(self).wf(),
            final(self).same_input(old(self)),
            final(self).pos() >= old(self).pos(),
            final(self).stashed() == old(self).stashed(),
            match lex_string(old(self).source(), old(self).pos(), seq![]) {
                Ok((chars, p)) => r is Ok && r->Ok_0@ == Lexeme::Str(chars) && final(self).pos() == p,
                Err(e) => r == Err::<Token<'a>, Error>(error_at(old(self).source(), e)) && final(self).pos() == e,
            },
            r matches Ok(t) ==> (t is StrBorrow <==> no_escape(old(self).source(), old(self).pos())),
            r matches Ok(t) ==> t is StrBorrow || t is StrOwn,
    {
        broadcast use encode_utf8_valid_utf8;
        self.buf.clear();
        let ghost src = self.bytes@;
        let ghost goal = lex_string(src, self.pos as int, seq![]);
        let ghost mut first = true;
        loop
            invariant
                first ==> self.pos() == old(self).pos() && self.buf@.len() == 0,
                !first ==> self.buf@.len() > 0 && !no_escape(old(self).source(), old(self).pos()),
                self.wf(),
                self.same_input(old(self)),
                self.pos() >= old(self).pos(),
                self.stashed() == old(self).stashed(),
                src == self.bytes@,
                src == self.input.spec_bytes(),
                valid_utf8(src),
                0 < self.pos <= src.len(),
                src[self.pos - 1] < 0x80,
                lex_string(src, self.pos as int, self.buf@) == goal,
                goal == lex_string(old(self).source(), old(self).pos(), seq![]),
            decreases src.len() - self.pos,
        {
            let start = self.pos;
            let mut p = start;
            while p < self.bytes.len() && self.bytes[p] != 0x22 && self.bytes[p] != 0x5c
                invariant
                    start <= p <= self.bytes@.len(),
                    span_end(self.bytes@, p as int) == span_end(self.bytes@, start as int),
                decreases self.bytes@.len() - p,
            {
                p += 1;
            }
            proof {
                lemma_span_end_bounds(src, start as int);
            }
            if p == self.bytes.len() {
                self.pos = p;
                return Err(self.err());
            }
            proof {
                lemma_boundary_after_ascii(src, start - 1);
                lemma_boundary_after_ascii(src, p as int);
            }
            self.pos = p + 1;
            let quote = self.bytes[p] == 0x22;
            let piece: &'a str = slice_str(self.input, start, p);
            if quote && self.buf.as_str().is_empty() {
                proof {
                    assert(self.buf@ + piece@ =~= piece@);
                }
                return Ok(Token::StrBorrow(piece));
            }
            self.buf.append(piece);
            if quote {
                return Ok(Token::StrOwn(self.buf.clone()));
            }
            proof {
                lemma_lex_escape_bounds(src, p + 1);
            }
            match self.unescape_next() {
                Ok(()) => {},
                Err(e) => {
                    return Err(e);
                },
            }
            proof {
                first = false;
            }
        }
    }
}

impl<'a, F: Fn(&str) -> Option<Float>> Reader<'a, F> {
    /// Whether a byte may follow a number.
    fn is_delim_byte(&self, b: u8) -> (r: bool)
        ensures
            r == is_delim(b, self.dialect().allow_comments),
    {
        b == 0x2c || b == 0x7d || b == 0x5d || b == 0x20 || b == 0x09 || b == 0x0a || b == 0x0d || (
        self.dialect.allow_comments && b == 0x2f)
    }

    /// After the first byte of a number, which stands at `tok_start`: reads the
    /// number.
    fn read_num(&mut self, tok_start: usize) -> (r: Result<Token<'a>, Error>)
        requires
            old(self).wf(),
            old(self).pos() == tok_start + 1,
            old(self).source()[tok_start as int] == 0x2d || is_digit(
                old(self).source()[tok_start as int],
            ),
        ensures
            final(self).wf(),
            final(self).same_input(old(self)),
            final(self).pos() >= old(self).pos(),
            final(self).stashed() == old(self).stashed(),
            r matches Ok(t) ==> t is NumU || t is NumI || t is NumF,
            number_read(
                scan_number(old(self).source(), tok_start as int, old(self).dialect().allow_comments),
                old(self).decoder(),
                r,
                old(self).source(),
                final(self).pos(),
            ),
    {
        broadcast use encode_utf8_valid_utf8;

        let ghost src = self.bytes@;
        let ghost comments = self.dialect.allow_comments;
        let neg = self.bytes[tok_start] == 0x2d;
        let mut float = false;
        proof {
            assert(src.subrange(tok_start + 1, tok_start + 1) =~= Seq::<u8>::empty());
        }
        loop
            invariant
                self.wf(),
                self.same_input(old(self)),
                self.pos() >= old(self).pos(),
                self.stashed() == old(self).stashed(),
                src == self.bytes@,
                comments == self.dialect.allow_comments,
                tok_start < self.pos <= src.len(),
                num_end(src, self.pos as int, comments) == num_end(src, tok_start + 1, comments),
                float == has_float_mark(src.subrange(tok_start + 1, self.pos as int)),
                forall|i: int|
                    tok_start < i < self.pos ==> is_digit(#[trigger] src[i]) || is_float_mark(src[i]),
            ensures
                num_end(src, tok_start + 1, comments) == Ok::<int, int>(self.pos as int),
            decreases src.len() - self.pos,
        {
            let b = match self.bpeek() {
                Some(b) => b,
                None => {
                    break ;
                },
            };
            let ghost before = src.subrange(tok_start + 1, self.pos as int);
            let ghost after = src.subrange(tok_start + 1, self.pos + 1);
            proof {
                assert(self.pos() < self.source().len());
                assert(self.pos < self.bytes.len());
                assert(after.drop_last() =~= before);
                assert(after.last() == b);
                if has_float_mark(before) {
                    let i = choose|i: int| 0 <= i < before.len() && is_float_mark(#[trigger] before[i]);
                    assert(is_float_mark(after[i]));
                }
                if has_float_mark(after) && !is_float_mark(b) {
                    let i = choose|i: int| 0 <= i < after.len() && is_float_mark(#[trigger] after[i]);
                    assert(is_float_mark(before[i]));
                }
                if is_float_mark(b) {
                    assert(is_float_mark(after[after.len() - 1]));
                }
            }
            if b == 0x2e || b == 0x65 || b == 0x45 || b == 0x2b || b == 0x2d {
                float = true;
                self.pos += 1;
            } else if 48 <= b && b <= 57 {
                self.pos += 1;
            } else if self.is_delim_byte(b) {
                break ;
            } else {
                return Err(self.err());
            }
        }
        let end = self.pos;
        if !float {
            let from = if neg {
                tok_start + 1
            } else {
                tok_start
            };
            proof {
                let d = src.subrange(from as int, end as int);
                let body = src.subrange(tok_start + 1, end as int);
                assert forall|i: int| 0 <= i < d.len() implies is_digit(#[trigger] d[i]) by {
                    if from + i > tok_start {
                        assert(body[from + i - tok_start - 1] == src[from + i]);
                        assert(!is_float_mark(body[from + i - tok_start - 1]));
                        assert(is_digit(src[from + i]) || is_float_mark(src[from + i]));
                    }
                }
            }
            if end > from {
                if neg {
                    match parse_digits(self.bytes, from, end, 0x8000_0000_0000_0000) {
                        Some(v) => {
                            if v == 0 {
                                return Ok(Token::NumU(0));
                            } else if v == 0x8000_0000_0000_0000 {
                                return Ok(Token::NumI(i64::MIN));
                            } else {
                                return Ok(Token::NumI(-(v as i64)));
                            }
                        },
                        None => {},
                    }
                } else {
                    match parse_digits(self.bytes, from, end, 0xffff_ffff_ffff_ffff) {
                        Some(v) => {
                            return Ok(Token::NumU(v));
                        },
                        None => {},
                    }
                }
            }
        }
        proof {
            lemma_boundary_after_ascii(src, tok_start as int);
            if end < src.len() {
                lemma_boundary_after_ascii(src, end as int);
            } else {
                vstd::utf8::is_char_boundary_start_end_of_seq(src);
            }
        }
        let text: &'a str = slice_str(self.input, tok_start, end);
        let decoded = (self.decode)(text);
        let r = self.float_token(decoded);
        proof {
            let a = float_view(decoded);
            assert(yields(&self.decode, text@, a));
            assert(decoded_as(old(self).decoder(), text@, a, r, src, end as int));
            assert(decoded_somehow(old(self).decoder(), text@, r, src, end as int));
            assert(scan_number(src, tok_start as int, comments) == Ok::<(Scanned, int), int>(
                (Scanned::Float(text@), end as int),
            ));
        }
        r
    }

    /// The token for what the decoder made of the text of a number that ends at the
    /// cursor: the float, or a failure at the cursor where the decoder made nothing
    /// of the text.
    pub fn float_token(&self, decoded: Option<Float>) -> (r: Result<Token<'a>, Error>)
        requires
            self.wf(),
        ensures
            match decoded {
                Some(f) => r == Ok::<Token<'a>, Error>(Token::NumF(f)),
                None => r == Err::<Token<'a>, Error>(error_at(self.source(), self.pos())),
            },
    {
        match decoded {
            Some(f) => Ok(Token::NumF(f)),
            None => Err(self.err()),
        }
    }

    /// Pushes a token back: the next call of `next_token` gives it again. The slot
    /// must be empty.
    pub fn unpeek(&mut self, t: Token<'a>)
        requires
            old(self).wf(),
            old(self).stashed() is None,
        ensures
            final(self).wf(),
            final(self).same_input(old(self)),
            final(self).pos() == old(self).pos(),
            final(self).stashed() == Some(t@),
            final(self).stash_token() == Some(t),
            final(self).remaining() == old(self).remaining() + 1,
    {
        self.stash = Some(t);
    }

    /// What is left to read: the bytes from the cursor on, and the token that was
    /// pushed back. Every token that is read makes it less.
    pub open spec fn remaining(&self) -> int {
        self.source().len() - self.pos() + (if self.stashed() is Some {
            1int
        } else {
            0int
        })
    }

    /// What stands next: the token that was pushed back, or what stands at the
    /// cursor.
    pub open spec fn scanned(&self) -> Result<Option<(Scanned, int)>, int> {
        match self.stashed() {
            Some(t) => Ok(Some((Scanned::Token(t), self.pos()))),
            None => scan_token(self.source(), self.pos(), self.dialect().allow_comments),
        }
    }

    /// The decoder may give the answer `a` for the text of a number that stands next,
    /// if one stands next.
    pub open spec fn may_answer(&self, a: Option<FloatView>) -> bool {
        match self.scanned() {
            Ok(Some((Scanned::Float(text), _))) => yields(self.decoder(), text, a),
            _ => true,
        }
    }

    /// What the next call of `next_token` reads, where the decoder answers as the
    /// oracle does.
    pub open spec fn upcoming_with(&self, oracle: Oracle) -> Result<Option<(Lexeme, int)>, int> {
        match self.scanned() {
            Err(e) => Err(e),
            Ok(None) => Ok(None),
            Ok(Some((x, end))) => match resolve(x, end, oracle) {
                Ok(t) => Ok(Some(t)),
                Err(e) => Err(e),
            },
        }
    }

    /// What the next call of `next_token` reads, where the decoder is functional.
    pub open spec fn upcoming(&self) -> Result<Option<(Lexeme, int)>, int> {
        self.upcoming_with(self.oracle())
    }

    /// The token that the next call of `next` reads, which fails at the end of the
    /// input, where the decoder answers as the oracle does.
    pub open spec fn required_with(&self, oracle: Oracle) -> Result<(Lexeme, int), int> {
        match self.upcoming_with(oracle) {
            Ok(Some(x)) => Ok(x),
            Ok(None) => Err(self.source().len() as int),
            Err(e) => Err(e),
        }
    }

    /// The token that the next call of `next` reads, where the decoder is functional.
    pub open spec fn required(&self) -> Result<(Lexeme, int), int> {
        self.required_with(self.oracle())
    }

    /// What a call gives that reads one token and makes `value` of it, failing
    /// behind a token of which `value` makes nothing, where the decoder answers as
    /// the oracle does.
    pub open spec fn reads_with<T>(&self, value: spec_fn(Lexeme) -> Option<T>, oracle: Oracle) -> Result<
        (T, int),
        int,
    > {
        match self.required_with(oracle) {
            Ok((t, p)) => match value(t) {
                Some(v) => Ok((v, p)),
                None => Err(p),
            },
            Err(e) => Err(e),
        }
    }

    /// What a call gives that reads one token and makes `value` of it without the
    /// decoder: the text of a number that is left to the decoder fails behind
    /// itself.
    pub open spec fn scan_reads<T>(&self, value: spec_fn(Lexeme) -> Option<T>) -> Result<(T, int), int> {
        match self.scanned() {
            Ok(Some((Scanned::Token(t), p))) => match value(t) {
                Some(v) => Ok((v, p)),
                None => Err(p),
            },
            Ok(Some((Scanned::Float(_), p))) => Err(p),
            Ok(None) => Err(self.source().len() as int),
            Err(e) => Err(e),
        }
    }

    /// Where the decoder is functional, the answer that it may give is the one that
    /// it gives.
    pub proof fn lemma_answer(&self, a: Option<FloatView>)
        requires
            functional(self.decoder()),
            self.may_answer(a),
        ensures
            self.upcoming_with(always(a)) == self.upcoming(),
            self.required_with(always(a)) == self.required(),
    {
        reveal(functional);
        reveal(oracle_of);
        match self.scanned() {
            Ok(Some((Scanned::Float(text), _))) => {
                let b = self.oracle()(text);
                assert(yields(self.decoder(), text, a));
                assert(yields(self.decoder(), text, b));
            },
            _ => {},
        }
    }

    /// The next call of `next_token` gives `r` and leaves the cursor at `cursor`, where
    /// the decoder gives the answer `a`, which it may give.
    pub open spec fn gives_token(
        &self,
        a: Option<FloatView>,
        r: Result<Option<Token<'a>>, Error>,
        cursor: int,
    ) -> bool {
        &&& self.may_answer(a)
        &&& match self.upcoming_with(always(a)) {
            Ok(Some((lexeme, p))) => r is Ok && r->Ok_0 is Some && r->Ok_0->Some_0@ == lexeme && cursor
                == p,
            Ok(None) => r is Ok && r->Ok_0 is None && cursor == self.source().len(),
            Err(e) => r == Err::<Option<Token<'a>>, Error>(error_at(self.source(), e)) && cursor == e,
        }
    }

    /// The next call of `next` gives `r` and leaves the cursor at `cursor`, where the
    /// decoder gives the answer `a`, which it may give.
    pub open spec fn gives(&self, a: Option<FloatView>, r: Result<Token<'a>, Error>, cursor: int) -> bool {
        self.may_answer(a) && token_outcome(r, self.required_with(always(a)), self.source(), cursor)
    }

    /// The next call of `read_i64` gives `r` and leaves the cursor at `cursor`, where
    /// the decoder gives the answer `a`, which it may give.
    pub open spec fn gives_i64(&self, a: Option<FloatView>, r: Result<i64, Error>, cursor: int) -> bool {
        self.may_answer(a) && outcome(
            r,
            self.reads_with(|t: Lexeme| lexeme_i64(t), always(a)),
            self.source(),
            cursor,
        )
    }

    /// The next call of `read_u64` gives `r` and leaves the cursor at `cursor`, where
    /// the decoder gives the answer `a`, which it may give.
    pub open spec fn gives_u64(&self, a: Option<FloatView>, r: Result<u64, Error>, cursor: int) -> bool {
        self.may_answer(a) && outcome(
            r,
            self.reads_with(|t: Lexeme| lexeme_u64(t), always(a)),
            self.source(),
            cursor,
        )
    }

    /// The next token, or `None` at the end of the input. For the text of a number
    /// that is no integer that fits, the token is what the decoder makes of the
    /// text.
    pub fn next_token(&mut self) -> (r: Result<Option<Token<'a>>, Error>)
        requires
            old(self).wf(),
        ensures
            final(self).wf(),
            final(self).same_input(old(self)),
            final(self).stashed() is None,
            final(self).remaining() <= old(self).remaining(),
            r matches Ok(Some(_)) ==> final(self).remaining() < old(self).remaining(),
            old(self).stash_token() matches Some(t) ==> r == Ok::<Option<Token<'a>>, Error>(Some(t)),
            r matches Ok(Some(t)) ==> (t is StrBorrow <==> old(self).next_borrows()),
            exists|a: Option<FloatView>| old(self).gives_token(a, r, final(self).pos()),
    {
        proof {
            reveal(scan_token);
        }
        if let Some(t) = self.stash.take() {
            proof {
                assert(old(self).gives_token(None, Ok(Some(t)), self.pos()));
            }
            return Ok(Some(t));
        }
        let ghost src = self.bytes@;
        match self.skip_space() {
            Ok(()) => {},
            Err(e) => {
                proof {
                    assert(old(self).gives_token(None, Err(e), self.pos()));
                }
                return Err(e);
            },
        }
        if self.pos >= self.bytes.len() {
            proof {
                assert(old(self).gives_token(None, Ok(None), self.pos()));
            }
            return Ok(None);
        }
        let tok_start = self.pos;
        let b = self.bytes[tok_start];
        self.pos += 1;
        let tok = if b == 0x3a {
            Ok(Token::Colon)
        } else if b == 0x2c {
            Ok(Token::Comma)
        } else if b == 0x7b {
            Ok(Token::ObjectBegin)
        } else if b == 0x7d {
            Ok(Token::ObjectEnd)
        } else if b == 0x5b {
            Ok(Token::ArrayBegin)
        } else if b == 0x5d {
            Ok(Token::ArrayEnd)
        } else if b == 0x22 {
            self.read_string()
        } else if b == 0x74 {
            let rest: [u8; 3] = [0x72, 0x75, 0x65];
            proof {
                assert(rest@ =~= word_true());
            }
            self.read_keyword(rest.as_slice(), Token::Bool(true))
        } else if b == 0x66 {
            let rest: [u8; 4] = [0x61, 0x6c, 0x73, 0x65];
            proof {
                assert(rest@ =~= word_false());
            }
            self.read_keyword(rest.as_slice(), Token::Bool(false))
        } else if b == 0x6e {
            let rest: [u8; 3] = [0x75, 0x6c, 0x6c];
            proof {
                assert(rest@ =~= word_null());
            }
            self.read_keyword(rest.as_slice(), Token::Null)
        } else if b == 0x2d || (48 <= b && b <= 57) {
            self.read_num(tok_start)
        } else {
            Err(self.err())
        };
        let r = match tok {
            Ok(t) => Ok(Some(t)),
            Err(e) => Err(e),
        };
        proof {
            match old(self).scanned() {
                Ok(Some((Scanned::Float(text), p))) => {
                    assert(number_read(
                        scan_number(src, tok_start as int, self.dialect.allow_comments),
                        old(self).decoder(),
                        tok,
                        src,
                        self.pos(),
                    ));
                    assert(decoded_somehow(old(self).decoder(), text, tok, src, p));
                    let a = choose|a: Option<FloatView>|
                        decoded_as(old(self).decoder(), text, a, tok, src, p);
                    assert(old(self).gives_token(a, r, self.pos()));
                },
                _ => {
                    assert(old(self).gives_token(None, r, self.pos()));
                },
            }
        }
        r
    }
}

/// The integer that a number token gives where a signed one is asked for: a float
/// gives its integer part, kept within the range; an unsigned integer beyond the
/// range wraps around.
pub open spec fn lexeme_i64(t: Lexeme) -> Option<i64> {
    match t {
        Lexeme::NumF(f) => Some(float_to_int(f.bits, i64::MIN as int, i64::MAX as int) as i64),
        Lexeme::NumI(i) => Some(i),
        Lexeme::NumU(u) => Some(
            if u <= i64::MAX {
                u as i64
            } else {
                (u - 0x1_0000_0000_0000_0000) as i64
            },
        ),
        _ => None,
    }
}

/// The integer that a number token gives where an unsigned one is asked for: a float
/// gives its integer part, kept within the range; a negative integer gives zero.
pub open spec fn lexeme_u64(t: Lexeme) -> Option<u64> {
    match t {
        Lexeme::NumF(f) => Some(float_to_int(f.bits, 0, u64::MAX as int) as u64),
        Lexeme::NumI(i) => Some(0),
        Lexeme::NumU(u) => Some(u),
        _ => None,
    }
}

/// The text that a string token gives.
pub open spec fn lexeme_str(t: Lexeme) -> Option<Seq<char>> {
    match t {
        Lexeme::Str(s) => Some(s),
        _ => None,
    }
}

/// `true` for a comma, `false` for the given closing bracket.
pub open spec fn lexeme_more(t: Lexeme, close: Lexeme) -> Option<bool> {
    if t == Lexeme::Comma {
        Some(true)
    } else if t == close {
        Some(false)
    } else {
        None
    }
}

/// The outcome `r` of a call that reads a value is `want`: the value with the cursor
/// behind it, or the failure at its offset with the cursor there.
pub open spec fn outcome<T>(r: Result<T, Error>, want: Result<(T, int), int>, src: Seq<u8>, cursor: int) -> bool {
    match want {
        Ok((v, p)) => r == Ok::<T, Error>(v) && cursor == p,
        Err(e) => r == Err::<T, Error>(error_at(src, e)) && cursor == e,
    }
}

/// The outcome `r` of a call that reads a text is `want`.
pub open spec fn text_outcome<'a>(
    r: Result<Text<'a>, Error>,
    want: Result<(Seq<char>, int), int>,
    src: Seq<u8>,
    cursor: int,
) -> bool {
    match want {
        Ok((v, p)) => r is Ok && r->Ok_0@ == v && cursor == p,
        Err(e) => r == Err::<Text<'a>, Error>(error_at(src, e)) && cursor == e,
    }
}

/// The outcome `r` of a call that reads a token is `want`.
pub open spec fn token_outcome<'a>(
    r: Result<Token<'a>, Error>,
    want: Result<(Lexeme, int), int>,
    src: Seq<u8>,
    cursor: int,
) -> bool {
    match want {
        Ok((v, p)) => r is Ok && r->Ok_0@ == v && cursor == p,
        Err(e) => r == Err::<Token<'a>, Error>(error_at(src, e)) && cursor == e,
    }
}

/// Whether a token is the given one.
pub open spec fn lexeme_is(t: Lexeme, want: Lexeme) -> Option<()> {
    if t == want {
        Some(())
    } else {
        None
    }
}

impl<'a, F: Fn(&str) -> Option<Float>> Reader<'a, F> {
    /// The next token, which there must be.
    pub fn next(&mut self) -> (r: Result<Token<'a>, Error>)
        requires
            old(self).wf(),
        ensures
            final(self).wf(),
            final(self).same_input(old(self)),
            final(self).stashed() is None,
            final(self).remaining() <= old(self).remaining(),
            r is Ok ==> final(self).remaining() < old(self).remaining(),
            exists|a: Option<FloatView>| old(self).gives(a, r, final(self).pos()),
    {
        let token = self.next_token();
        let ghost a = choose|a: Option<FloatView>| old(self).gives_token(a, token, self.pos());
        let r = match token {
            Ok(Some(v)) => Ok(v),
            Err(e) => Err(e),
            Ok(None) => Err(self.err()),
        };
        proof {
            assert(old(self).gives(a, r, self.pos()));
        }
        r
    }

    /// Reads one token that must be the given punctuation or keyword.
    fn expect(&mut self, want: &Token<'a>) -> (r: Result<(), Error>)
        requires
            old(self).wf(),
            want is ArrayBegin || want is ObjectBegin || want is Comma || want is Colon || want is Null,
        ensures
            final(self).wf(),
            final(self).same_input(old(self)),
            final(self).stashed() is None,
            final(self).remaining() <= old(self).remaining(),
            r is Ok ==> final(self).remaining() < old(self).remaining(),
            outcome(
                r,
                old(self).scan_reads(|t: Lexeme| lexeme_is(t, want@)),
                old(self).source(),
                final(self).pos(),
            ),
    {
        let t = self.next_token();
        match (t, want) {
            (Ok(Some(Token::ArrayBegin)), Token::ArrayBegin) => Ok(()),
            (Ok(Some(Token::ObjectBegin)), Token::ObjectBegin) => Ok(()),
            (Ok(Some(Token::Comma)), Token::Comma) => Ok(()),
            (Ok(Some(Token::Colon)), Token::Colon) => Ok(()),
            (Ok(Some(Token::Null)), Token::Null) => Ok(()),
            (Err(e), _) => Err(e),
            _ => Err(self.err()),
        }
    }

    /// Reads `[`.
    pub fn array_begin(&mut self) -> (r: Result<(), Error>)
        requires
            old(self).wf(),
        ensures
            final(self).wf(),
            final(self).same_input(old(self)),
            final(self).stashed() is None,
            final(self).remaining() <= old(self).remaining(),
            r is Ok ==> final(self).remaining() < old(self).remaining(),
            outcome(
                r,
                old(self).scan_reads(|t: Lexeme| lexeme_is(t, Lexeme::ArrayBegin)),
                old(self).source(),
                final(self).pos(),
            ),
    {
        self.expect(&Token::ArrayBegin)
    }

    /// Reads `{`.
    pub fn obj_begin(&mut self) -> (r: Result<(), Error>)
        requires
            old(self).wf(),
        ensures
            final(self).wf(),
            final(self).same_input(old(self)),
            final(self).stashed() is None,
            final(self).remaining() <= old(self).remaining(),
            r is Ok ==> final(self).remaining() < old(self).remaining(),
            outcome(
                r,
                old(self).scan_reads(|t: Lexeme| lexeme_is(t, Lexeme::ObjectBegin)),
                old(self).source(),
                final(self).pos(),
            ),
    {
        self.expect(&Token::ObjectBegin)
    }

    /// Reads `,`.
    pub fn comma(&mut self) -> (r: Result<(), Error>)
        requires
            old(self).wf(),
        ensures
            final(self).wf(),
            final(self).same_input(old(self)),
            final(self).stashed() is None,
            final(self).remaining() <= old(self).remaining(),
            r is Ok ==> final(self).remaining() < old(self).remaining(),
            outcome(
                r,
                old(self).scan_reads(|t: Lexeme| lexeme_is(t, Lexeme::Comma)),
                old(self).source(),
                final(self).pos(),
            ),
    {
        self.expect(&Token::Comma)
    }

    /// Reads `:`.
    pub fn colon(&mut self) -> (r: Result<(), Error>)
        requires
            old(self).wf(),
        ensures
            final(self).wf(),
            final(self).same_input(old(self)),
            final(self).stashed() is None,
            final(self).remaining() <= old(self).remaining(),
            r is Ok ==> final(self).remaining() < old(self).remaining(),
            outcome(
                r,
                old(self).scan_reads(|t: Lexeme| lexeme_is(t, Lexeme::Colon)),
                old(self).source(),
                final(self).pos(),
            ),
    {
        self.expect(&Token::Colon)
    }

    /// Reads `null`.
    pub fn null(&mut self) -> (r: Result<(), Error>)
        requires
            old(self).wf(),
        ensures
            final(self).wf(),
            final(self).same_input(old(self)),
            final(self).stashed() is None,
            final(self).remaining() <= old(self).remaining(),
            r is Ok ==> final(self).remaining() < old(self).remaining(),
            outcome(
                r,
                old(self).scan_reads(|t: Lexeme| lexeme_is(t, Lexeme::Null)),
                old(self).source(),
                final(self).pos(),
            ),
    {
        self.expect(&Token::Null)
    }

    /// Reads `,` or `}`: whether another field follows.
    pub fn comma_or_obj_end(&mut self) -> (r: Result<bool, Error>)
        requires
            old(self).wf(),
        ensures
            final(self).wf(),
            final(self).same_input(old(self)),
            final(self).stashed() is None,
            final(self).remaining() <= old(self).remaining(),
            r is Ok ==> final(self).remaining() < old(self).remaining(),
            outcome(
                r,
                old(self).scan_reads(|t: Lexeme| lexeme_more(t, Lexeme::ObjectEnd)),
                old(self).source(),
                final(self).pos(),
            ),
    {
        match self.next_token() {
            Ok(Some(Token::Comma)) => Ok(true),
            Ok(Some(Token::ObjectEnd)) => Ok(false),
            Err(e) => Err(e),
            _ => Err(self.err()),
        }
    }

    /// Reads `,` or `]`: whether another element follows.
    pub fn comma_or_array_end(&mut self) -> (r: Result<bool, Error>)
        requires
            old(self).wf(),
        ensures
            final(self).wf(),
            final(self).same_input(old(self)),
            final(self).stashed() is None,
            final(self).remaining() <= old(self).remaining(),
            r is Ok ==> final(self).remaining() < old(self).remaining(),
            outcome(
                r,
                old(self).scan_reads(|t: Lexeme| lexeme_more(t, Lexeme::ArrayEnd)),
                old(self).source(),
                final(self).pos(),
            ),
    {
        match self.next_token() {
            Ok(Some(Token::Comma)) => Ok(true),
            Ok(Some(Token::ArrayEnd)) => Ok(false),
            Err(e) => Err(e),
            _ => Err(self.err()),
        }
    }

    /// Reads a string as the key of a field.
    pub fn key(&mut self) -> (r: Result<Text<'a>, Error>)
        requires
            old(self).wf(),
        ensures
            final(self).wf(),
            final(self).same_input(old(self)),
            final(self).stashed() is None,
            final(self).remaining() <= old(self).remaining(),
            r is Ok ==> final(self).remaining() < old(self).remaining(),
            r matches Ok(t) ==> (t is Borrowed <==> old(self).next_borrows()),
            text_outcome(
                r,
                old(self).scan_reads(|t: Lexeme| lexeme_str(t)),
                old(self).source(),
                final(self).pos(),
            ),
    {
        match self.next_token() {
            Ok(Some(Token::StrBorrow(b))) => Ok(Text::Borrowed(b)),
            Ok(Some(Token::StrOwn(b))) => Ok(Text::Owned(b)),
            Err(e) => Err(e),
            _ => Err(self.err()),
        }
    }

    /// Reads a number as a signed integer. A float gives its integer part, kept
    /// within the range.
    pub fn read_i64(&mut self) -> (r: Result<i64, Error>)
        requires
            old(self).wf(),
        ensures
            final(self).wf(),
            final(self).same_input(old(self)),
            final(self).stashed() is None,
            final(self).remaining() <= old(self).remaining(),
            r is Ok ==> final(self).remaining() < old(self).remaining(),
            exists|a: Option<FloatView>| old(self).gives_i64(a, r, final(self).pos()),
    {
        let token = self.next_token();
        let ghost a = choose|a: Option<FloatView>| old(self).gives_token(a, token, self.pos());
        let r = match token {
            Ok(Some(Token::NumF(f))) => {
                let t = trunc_i128(f.bits());
                Ok(
                    if t < i64::MIN as i128 {
                        i64::MIN
                    } else if t > i64::MAX as i128 {
                        i64::MAX
                    } else {
                        t as i64
                    },
                )
            },
            Ok(Some(Token::NumI(i))) => Ok(i),
            Ok(Some(Token::NumU(u))) => Ok(
                if u <= 0x7fff_ffff_ffff_ffff {
                    u as i64
                } else {
                    ((u - 0x8000_0000_0000_0000) as i64) + i64::MIN
                },
            ),
            Err(e) => Err(e),
            _ => Err(self.err()),
        };
        proof {
            assert(old(self).gives_i64(a, r, self.pos()));
        }
        r
    }

    /// Reads a number as an unsigned integer. A float gives its integer part, kept
    /// within the range; a negative integer gives zero.
    pub fn read_u64(&mut self) -> (r: Result<u64, Error>)
        requires
            old(self).wf(),
        ensures
            final(self).wf(),
            final(self).same_input(old(self)),
            final(self).stashed() is None,
            final(self).remaining() <= old(self).remaining(),
            r is Ok ==> final(self).remaining() < old(self).remaining(),
            exists|a: Option<FloatView>| old(self).gives_u64(a, r, final(self).pos()),
    {
        let token = self.next_token();
        let ghost a = choose|a: Option<FloatView>| old(self).gives_token(a, token, self.pos());
        let r = match token {
            Ok(Some(Token::NumF(f))) => {
                let t = trunc_i128(f.bits());
                Ok(
                    if t < 0 {
                        0
                    } else if t > u64::MAX as i128 {
                        u64::MAX
                    } else {
                        t as u64
                    },
                )
            },
            Ok(Some(Token::NumI(_))) => Ok(0),
            Ok(Some(Token::NumU(u))) => Ok(u),
            Err(e) => Err(e),
            _ => Err(self.err()),
        };
        proof {
            assert(old(self).gives_u64(a, r, self.pos()));
        }
        r
    }

    /// Reads a string.
    pub fn read_str(&mut self) -> (r: Result<Text<'a>, Error>)
        requires
            old(self).wf(),
        ensures
            final(self).wf(),
            final(self).same_input(old(self)),
            final(self).stashed() is None,
            final(self).remaining() <= old(self).remaining(),
            r is Ok ==> final(self).remaining() < old(self).remaining(),
            r matches Ok(t) ==> (t is Borrowed <==> old(self).next_borrows()),
            text_outcome(
                r,
                old(self).scan_reads(|t: Lexeme| lexeme_str(t)),
                old(self).source(),
                final(self).pos(),
            ),
    {
        match self.next_token() {
            Ok(Some(Token::StrBorrow(s))) => Ok(Text::Borrowed(s)),
            Ok(Some(Token::StrOwn(s))) => Ok(Text::Owned(s)),
            Err(e) => Err(e),
            _ => Err(self.err()),
        }
    }

    /// What `finish` gives: nothing but blanks and comments may be left. Whatever
    /// is left fails behind itself.
    pub open spec fn ends(&self) -> Result<((), int), int> {
        match self.scanned() {
            Ok(Some((t, p))) => Err(p),
            Ok(None) => Ok(((), self.source().len() as int)),
            Err(e) => Err(e),
        }
    }

    /// Requires that the input holds no further token.
    pub fn finish(&mut self) -> (r: Result<(), Error>)
        requires
            old(self).wf(),
        ensures
            final(self).wf(),
            final(self).same_input(old(self)),
            final(self).stashed() is None,
            final(self).remaining() <= old(self).remaining(),
            outcome(r, old(self).ends(), old(self).source(), final(self).pos()),
    {
        match self.next_token() {
            Ok(None) => Ok(()),
            Ok(Some(_)) => Err(self.err()),
            Err(e) => Err(e),
        }
    }
}

} // verus!
