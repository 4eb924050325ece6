//! Text helpers shared by the reader and the writer: decimal and hexadecimal
//! digits, byte-wise ordering of strings, and facts about UTF-8.
use vstd::prelude::*;
use vstd::string::StringSliceAdditionalSpecFns;
use vstd::utf8::*;

verus! {

/// Assumed of `String::push` of std: it appends the character to the string and
/// changes nothing else of it.
pub assume_specification[ String::push ](s: &mut String, ch: char)
    ensures
        final(s)@ == old(s)@.push(ch),
;

/// Assumed of `char::from_u32` of std: it yields the character with the given scalar
/// value, and `None` for a surrogate and for a value above U+10FFFF.
pub assume_specification[ char::from_u32 ](i: u32) -> (r: Option<char>)
    ensures
        is_scalar(i) ==> r == Some(i as char),
        !is_scalar(i) ==> r is None,
;

/// The character for a decimal digit value.
pub open spec fn digit_char(d: nat) -> char {
    ((48 + d) as u8) as char
}

/// The decimal text of a natural number, without sign or leading zeros.
pub open spec fn dec_text(n: nat) -> Seq<char>
    decreases n,
{
    if n < 10 {
        seq![digit_char(n)]
    } else {
        dec_text(n / 10).push(digit_char(n % 10))
    }
}

/// The decimal text of an integer: a minus sign before the digits of a negative one.
pub open spec fn int_text(n: int) -> Seq<char> {
    if n < 0 {
        seq!['-'] + dec_text((-n) as nat)
    } else {
        dec_text(n as nat)
    }
}

/// Appends the decimal text of `n`.
pub fn push_u64(o: &mut String, n: u64)
    ensures
        final(o)@ == old(o)@ + dec_text(n as nat),
    decreases n,
{
    if n >= 10 {
        push_u64(o, n / 10);
    }
    let d: u8 = (n % 10) as u8;
    o.push((48 + d) as char);
    proof {
        assert(o@ =~= old(o)@ + dec_text(n as nat));
    }
}

/// Appends the decimal text of `n`.
pub fn push_i64(o: &mut String, n: i64)
    ensures
        final(o)@ == old(o)@ + int_text(n as int),
{
    if n < 0 {
        o.push('-');
        let m: u64 = ((-(n + 1)) as u64) + 1;
        push_u64(o, m);
        proof {
            assert(o@ =~= old(o)@ + int_text(n as int));
        }
    } else {
        push_u64(o, n as u64);
    }
}

/// A UTF-16 code unit that opens a surrogate pair.
pub open spec fn is_lead(u: u16) -> bool {
    0xd800 <= u < 0xdc00
}

/// A UTF-16 code unit that closes a surrogate pair.
pub open spec fn is_trail(u: u16) -> bool {
    0xdc00 <= u < 0xe000
}

/// The scalar value that a surrogate pair stands for.
pub open spec fn pair_scalar(lead: u16, trail: u16) -> u32 {
    (0x10000 + (lead - 0xd800) * 0x400 + (trail - 0xdc00)) as u32
}

/// The character that two UTF-16 code units stand for, if they are a surrogate pair.
pub fn dec_utf16_single(a: u16, b: u16) -> (r: Option<char>)
    ensures
        r == (if is_lead(a) && is_trail(b) {
            Some(pair_scalar(a, b) as char)
        } else {
            None
        }),
{
    if !(0xd800 <= a && a < 0xdc00) || !(0xdc00 <= b && b < 0xe000) {
        return None;
    }
    let hi: u32 = (a - 0xd800) as u32;
    let lo: u32 = (b - 0xdc00) as u32;
    let c: u32 = hi * 0x400 + lo + 0x10000;
    char::from_u32(c)
}

/// A text has at most as many characters as its UTF-8 encoding has bytes.
pub proof fn lemma_chars_within_bytes(s: Seq<char>)
    ensures
        s.len() <= encode_utf8(s).len(),
    decreases s.len(),
{
    if s.len() > 0 {
        lemma_chars_within_bytes(s.drop_first());
    }
}

/// The number of bytes of the text, which bounds its number of characters.
pub fn byte_len(s: &String) -> (n: usize)
    ensures
        n == encode_utf8(s@).len(),
        s@.len() <= n,
{
    proof {
        lemma_chars_within_bytes(s@);
    }
    s.as_str().as_bytes().len()
}


/// The position after an ASCII byte of well-formed UTF-8 is a character boundary,
/// and so is the position of the byte itself.
pub proof fn lemma_boundary_after_ascii(b: Seq<u8>, i: int)
    requires
        valid_utf8(b),
        0 <= i < b.len(),
        b[i] < 0x80,
    ensures
        is_char_boundary(b, i),
        is_char_boundary(b, i + 1),
    decreases b.len(),
{
    is_char_boundary_iff_not_is_continuation_byte(b, i);
    let n = length_of_first_scalar(b);
    if i < n {
        assert(i == 0);
        assert(n == 1);
        reveal_with_fuel(is_char_boundary, 2);
    } else {
        let rest = pop_first_scalar(b);
        assert(rest[i - n] == b[i]);
        lemma_boundary_after_ascii(rest, i - n);
    }
}

/// The part of a string between two character boundaries, given in bytes.
pub fn slice_str<'a>(s: &'a str, from: usize, to: usize) -> (r: &'a str)
    requires
        from <= to <= s.spec_bytes().len(),
        is_char_boundary(s.spec_bytes(), from as int),
        is_char_boundary(s.spec_bytes(), to as int),
    ensures
        r.spec_bytes() == s.spec_bytes().subrange(from as int, to as int),
        r@ == decode_utf8(s.spec_bytes().subrange(from as int, to as int)),
{
    broadcast use {encode_utf8_valid_utf8, encode_utf8_decode_utf8};

    let ghost src = s.spec_bytes();
    let (head, _) = s.split_at(to);
    proof {
        valid_utf8_split(src, to as int);
        let h = head.spec_bytes();
        assert(h =~= src.subrange(0, to as int));
        if from < to {
            is_char_boundary_iff_not_is_continuation_byte(src, from as int);
            is_char_boundary_iff_not_is_continuation_byte(h, from as int);
        } else {
            is_char_boundary_start_end_of_seq(h);
        }
    }
    let (_, piece) = head.split_at(from);
    proof {
        assert(piece.spec_bytes() =~= src.subrange(from as int, to as int));
    }
    piece
}

/// The value of a run of decimal digits.
pub open spec fn dec_value(d: Seq<u8>) -> nat
    decreases d.len(),
{
    if d.len() == 0 {
        0
    } else {
        dec_value(d.drop_last()) * 10 + (d.last() - 48) as nat
    }
}

/// A decimal digit.
pub open spec fn is_digit(b: u8) -> bool {
    48 <= b <= 57
}

/// All bytes are decimal digits.
pub open spec fn all_digits(d: Seq<u8>) -> bool {
    forall|i: int| 0 <= i < d.len() ==> is_digit(#[trigger] d[i])
}

/// A run of digits is worth at least as much as any of its prefixes.
pub proof fn lemma_dec_value_prefix(d: Seq<u8>, n: int)
    requires
        all_digits(d),
        0 <= n <= d.len(),
    ensures
        dec_value(d.take(n)) <= dec_value(d),
    decreases d.len() - n,
{
    if n < d.len() {
        lemma_dec_value_prefix(d, n + 1);
        assert(d.take(n + 1).drop_last() =~= d.take(n));
        assert(is_digit(d[n]));
    } else {
        assert(d.take(n) =~= d);
    }
}

/// The value of the digits `bytes[from..to]`, if it is at most `limit`.
pub fn parse_digits(bytes: &[u8], from: usize, to: usize, limit: u64) -> (r: Option<u64>)
    requires
        from <= to <= bytes@.len(),
        all_digits(bytes@.subrange(from as int, to as int)),
    ensures
        r == (if dec_value(bytes@.subrange(from as int, to as int)) <= limit {
            Some(dec_value(bytes@.subrange(from as int, to as int)) as u64)
        } else {
            None
        }),
{
    let ghost d = bytes@.subrange(from as int, to as int);
    let mut acc: u64 = 0;
    let mut i: usize = from;
    proof {
        assert(d.take(0) =~= Seq::<u8>::empty());
    }
    while i < to
        invariant
            from <= i <= to <= bytes@.len(),
            d == bytes@.subrange(from as int, to as int),
            all_digits(d),
            acc == dec_value(d.take(i - from)),
            acc <= limit,
        decreases to - i,
    {
        proof {
            assert(is_digit(d[i - from]));
            assert(d[i - from] == bytes@[i as int]);
            assert(d.take(i - from + 1).drop_last() =~= d.take(i - from));
            lemma_dec_value_prefix(d, i - from + 1);
        }
        let digit: u64 = (bytes[i] - 48) as u64;
        if limit < digit || acc > (limit - digit) / 10 {
            return None;
        }
        acc = acc * 10 + digit;
        i += 1;
    }
    proof {
        assert(d.take(to - from) =~= d);
    }
    Some(acc)
}

/// The order of byte strings: by the first byte that differs, a proper prefix first.
pub open spec fn bytes_lt(a: Seq<u8>, b: Seq<u8>) -> bool
    decreases a.len(),
{
    if b.len() == 0 {
        false
    } else if a.len() == 0 {
        true
    } else if a[0] != b[0] {
        a[0] < b[0]
    } else {
        bytes_lt(a.drop_first(), b.drop_first())
    }
}

/// The order of texts: that of their UTF-8 encodings, which is the order of `str`.
pub open spec fn text_lt(a: Seq<char>, b: Seq<char>) -> bool {
    bytes_lt(encode_utf8(a), encode_utf8(b))
}

/// How one text stands to another in the order.
#[derive(Clone, Copy, Debug, PartialEq, Eq, Structural)]
pub enum Rank {
    Before,
    Same,
    After,
}

/// No byte string comes before itself.
pub proof fn lemma_bytes_lt_irreflexive(a: Seq<u8>)
    ensures
        !bytes_lt(a, a),
    decreases a.len(),
{
    if a.len() > 0 {
        lemma_bytes_lt_irreflexive(a.drop_first());
    }
}

/// The order of byte strings is transitive.
pub proof fn lemma_bytes_lt_transitive(a: Seq<u8>, b: Seq<u8>, c: Seq<u8>)
    requires
        bytes_lt(a, b),
        bytes_lt(b, c),
    ensures
        bytes_lt(a, c),
    decreases a.len(),
{
    if a.len() > 0 && a[0] == b[0] && b[0] == c[0] {
        lemma_bytes_lt_transitive(a.drop_first(), b.drop_first(), c.drop_first());
    }
}

/// Two byte strings that agree up to `n` are ordered as what follows is.
pub proof fn lemma_bytes_lt_skip(a: Seq<u8>, b: Seq<u8>, n: int)
    requires
        0 <= n <= a.len(),
        n <= b.len(),
        a.take(n) == b.take(n),
    ensures
        bytes_lt(a, b) == bytes_lt(a.skip(n), b.skip(n)),
        (a == b) == (a.skip(n) == b.skip(n)),
    decreases n,
{
    if n > 0 {
        assert(a[0] == a.take(n)[0]);
        assert(b[0] == b.take(n)[0]);
        assert(a.drop_first().take(n - 1) =~= a.take(n).drop_first());
        assert(b.drop_first().take(n - 1) =~= b.take(n).drop_first());
        lemma_bytes_lt_skip(a.drop_first(), b.drop_first(), n - 1);
        assert(a.drop_first().skip(n - 1) =~= a.skip(n));
        assert(b.drop_first().skip(n - 1) =~= b.skip(n));
        if a.skip(n) == b.skip(n) {
            assert(a =~= a.take(n) + a.skip(n));
            assert(b =~= b.take(n) + b.skip(n));
        }
    } else {
        assert(a.skip(0) =~= a);
        assert(b.skip(0) =~= b);
    }
}

/// Texts with the same encoding are the same.
pub proof fn lemma_encode_injective(a: Seq<char>, b: Seq<char>)
    requires
        encode_utf8(a) == encode_utf8(b),
    ensures
        a == b,
{
    encode_utf8_decode_utf8(a);
    encode_utf8_decode_utf8(b);
}

/// How `a` stands to `b` in the order of texts.
pub fn rank(a: &str, b: &str) -> (r: Rank)
    ensures
        r == Rank::Before <==> text_lt(a@, b@),
        r == Rank::Same <==> a@ == b@,
        r == Rank::After <==> text_lt(b@, a@),
{
    let x = a.as_bytes();
    let y = b.as_bytes();
    let mut i: usize = 0;
    proof {
        lemma_bytes_lt_irreflexive(x@);
        if a@ == b@ {
            assert(x@ == y@);
        }
        if x@ == y@ {
            lemma_encode_injective(a@, b@);
        }
    }
    while i < x.len() && i < y.len() && x[i] == y[i]
        invariant
            i <= x.len(),
            i <= y.len(),
            x@.take(i as int) == y@.take(i as int),
        decreases x.len() - i,
    {
        proof {
            assert(x@.take(i + 1) =~= x@.take(i as int).push(x@[i as int]));
            assert(y@.take(i + 1) =~= y@.take(i as int).push(y@[i as int]));
        }
        i += 1;
    }
    proof {
        lemma_bytes_lt_skip(x@, y@, i as int);
        lemma_bytes_lt_skip(y@, x@, i as int);
        let u = x@.skip(i as int);
        let v = y@.skip(i as int);
        if i < x.len() && i < y.len() {
            assert(u[0] == x@[i as int]);
            assert(v[0] == y@[i as int]);
            assert(u != v);
        } else if i < x.len() {
            assert(u.len() > 0 && v.len() == 0);
        } else if i < y.len() {
            assert(v.len() > 0 && u.len() == 0);
        } else {
            assert(u =~= v);
            lemma_bytes_lt_irreflexive(u);
        }
    }
    if i == x.len() {
        if i == y.len() {
            Rank::Same
        } else {
            Rank::Before
        }
    } else if i == y.len() {
        Rank::After
    } else if x[i] < y[i] {
        Rank::Before
    } else {
        Rank::After
    }
}

/// A text that is part of the input it was read from, or stands on its own.
#[derive(Debug)]
pub enum Text<'a> {
    Borrowed(&'a str),
    Owned(String),
}

impl<'a> View for Text<'a> {
    type V = Seq<char>;

    open spec fn view(&self) -> Seq<char> {
        match self {
            Text::Borrowed(s) => s@,
            Text::Owned(s) => s@,
        }
    }
}

impl<'a> Text<'a> {
    /// The text.
    pub fn as_str(&self) -> (s: &str)
        ensures
            s@ == self@,
    {
        match self {
            Text::Borrowed(s) => s,
            Text::Owned(s) => s.as_str(),
        }
    }

    /// The text on its own, copied if it was borrowed.
    pub fn into_owned(self) -> (s: String)
        ensures
            s@ == self@,
    {
        match self {
            Text::Borrowed(s) => s.to_owned(),
            Text::Owned(s) => s,
        }
    }

    /// The same text, free of the input it was read from.
    pub fn into_static(self) -> (t: Text<'static>)
        ensures
            t@ == self@,
            t is Owned,
    {
        Text::Owned(self.into_owned())
    }
}

impl<'a> Clone for Text<'a> {
    fn clone(&self) -> (r: Text<'a>)
        ensures
            r@ == self@,
    {
        match self {
            Text::Borrowed(s) => Text::Borrowed(s),
            Text::Owned(s) => Text::Owned(s.clone()),
        }
    }
}

} // verus!
