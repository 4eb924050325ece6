//! The parser: from tokens to a value tree.
use vstd::prelude::*;
use vstd::string::StringSliceAdditionalSpecFns;
use crate::dialect::Dialect;
use crate::lex::{
    lemma_lex_token_advances, lemma_scan_close, lemma_scan_token_advances, lex_token, scan_token,
    skip_space, Lexeme, Oracle, Scanned,
};
use crate::num::{sane_int, Float, Num, NumView};
use crate::read::{
    error_at, functional, lexeme_is, lexeme_more, lexeme_str, oracle_of, Error, Reader, Token,
};
use crate::text::Text;
use crate::value::{with_field, Json, Object, Value};

verus! {

/// The token at `pos`, which there must be.
pub open spec fn token_at(s: Seq<u8>, pos: int, comments: bool, oracle: Oracle) -> Result<
    (Lexeme, int),
    int,
> {
    match lex_token(s, pos, comments, oracle) {
        Ok(Some(x)) => Ok(x),
        Ok(None) => Err(s.len() as int),
        Err(e) => Err(e),
    }
}

/// What `value` makes of the token at `pos`, without the decoder of floats: a token
/// of which it makes nothing fails behind the token, and so does the text of a
/// number that is left to the decoder.
pub open spec fn scan_read_at<T>(
    s: Seq<u8>,
    pos: int,
    comments: bool,
    value: spec_fn(Lexeme) -> Option<T>,
) -> Result<(T, int), int> {
    match scan_token(s, pos, comments) {
        Ok(Some((Scanned::Token(t), p))) => match value(t) {
            Some(v) => Ok((v, p)),
            None => Err(p),
        },
        Ok(Some((Scanned::Float(_), p))) => Err(p),
        Ok(None) => Err(s.len() as int),
        Err(e) => Err(e),
    }
}

/// The number of a float token: the integer that the float equals, if it has one of
/// small magnitude, else the float.
pub open spec fn float_value(f: crate::num::FloatView) -> NumView {
    match sane_int(f.bits) {
        Some(i) => NumView::Int(i),
        None => NumView::Float(f),
    }
}

/// The value at `pos`, with the position behind it.
pub open spec fn parse_value(s: Seq<u8>, pos: int, comments: bool, oracle: Oracle) -> Result<
    (Json, int),
    int,
>
    decreases s.len() - pos, 0nat,
{
    if pos < 0 || pos > s.len() {
        Err(pos)
    } else {
        proof {
            lemma_lex_token_advances(s, pos, comments, oracle);
        }
        match token_at(s, pos, comments, oracle) {
            Err(e) => Err(e),
            Ok((t, p)) => parse_after(t, s, p, comments, oracle),
        }
    }
}

/// The value that starts with the token `t`, which ends at `pos`: a scalar for a
/// scalar token, an array behind `[`, an object behind `{`. Any other token fails
/// behind itself.
pub open spec fn parse_after(t: Lexeme, s: Seq<u8>, pos: int, comments: bool, oracle: Oracle) -> Result<
    (Json, int),
    int,
>
    decreases s.len() - pos, 3nat,
{
    match t {
        Lexeme::Null => Ok((Json::Null, pos)),
        Lexeme::Bool(b) => Ok((Json::Bool(b), pos)),
        Lexeme::NumF(f) => Ok((Json::Num(float_value(f)), pos)),
        Lexeme::NumI(i) => Ok((Json::Num(NumView::Int(i as int)), pos)),
        Lexeme::NumU(u) => Ok((Json::Num(NumView::Int(u as int)), pos)),
        Lexeme::Str(text) => Ok((Json::Str(text), pos)),
        Lexeme::ArrayBegin => parse_array(s, pos, comments, oracle),
        Lexeme::ObjectBegin => parse_object(s, pos, comments, oracle),
        _ => Err(pos),
    }
}

/// Behind `[`: the empty array if `]` is next, else the elements.
pub open spec fn parse_array(s: Seq<u8>, pos: int, comments: bool, oracle: Oracle) -> Result<
    (Json, int),
    int,
>
    decreases s.len() - pos, 2nat,
{
    if pos < 0 || pos > s.len() {
        Err(pos)
    } else {
        proof {
            crate::lex::lemma_skip_space_bounds(s, pos, comments);
        }
        match skip_space(s, pos, comments) {
            Err(e) => Err(e),
            Ok(p) => if p < s.len() && s[p] == 0x5d {
                Ok((Json::Array(seq![]), p + 1))
            } else {
                parse_elements(s, p, seq![], comments, oracle)
            },
        }
    }
}

/// The elements of an array from `pos` on, behind those in `acc`: a value, then a
/// comma and more elements, or `]`.
pub open spec fn parse_elements(
    s: Seq<u8>,
    pos: int,
    acc: Seq<Json>,
    comments: bool,
    oracle: Oracle,
) -> Result<(Json, int), int>
    decreases s.len() - pos, 1nat,
{
    match parse_value(s, pos, comments, oracle) {
        Err(e) => Err(e),
        Ok((v, p)) => match scan_read_at(s, p, comments, |t: Lexeme| lexeme_more(t, Lexeme::ArrayEnd)) {
            Err(e) => Err(e),
            Ok((more, q)) => if !more {
                Ok((Json::Array(acc.push(v)), q))
            } else if pos < q <= s.len() {
                parse_elements(s, q, acc.push(v), comments, oracle)
            } else {
                Err(q)
            },
        },
    }
}

/// Behind `{`: the empty object if `}` is next, else the fields.
pub open spec fn parse_object(s: Seq<u8>, pos: int, comments: bool, oracle: Oracle) -> Result<
    (Json, int),
    int,
>
    decreases s.len() - pos, 2nat,
{
    if pos < 0 || pos > s.len() {
        Err(pos)
    } else {
        proof {
            crate::lex::lemma_skip_space_bounds(s, pos, comments);
        }
        match skip_space(s, pos, comments) {
            Err(e) => Err(e),
            Ok(p) => if p < s.len() && s[p] == 0x7d {
                Ok((Json::Object(seq![]), p + 1))
            } else {
                parse_fields(s, p, seq![], comments, oracle)
            },
        }
    }
}

/// The fields of an object from `pos` on, on top of those in `acc`: a string as the
/// key, a colon, a value, then a comma and more fields, or `}`. A key that occurs
/// again replaces the value it had.
pub open spec fn parse_fields(
    s: Seq<u8>,
    pos: int,
    acc: Seq<(Seq<char>, Json)>,
    comments: bool,
    oracle: Oracle,
) -> Result<(Json, int), int>
    decreases s.len() - pos, 1nat,
{
    if pos < 0 || pos > s.len() {
        Err(pos)
    } else {
        proof {
            lemma_scan_token_advances(s, pos, comments);
        }
        match scan_read_at(s, pos, comments, |t: Lexeme| lexeme_str(t)) {
            Err(e) => Err(e),
            Ok((key, key_end)) => {
                proof {
                    lemma_scan_token_advances(s, key_end, comments);
                }
                match scan_read_at(s, key_end, comments, |t: Lexeme| lexeme_is(t, Lexeme::Colon)) {
                    Err(e) => Err(e),
                    Ok((colon, colon_end)) => match parse_value(s, colon_end, comments, oracle) {
                        Err(e) => Err(e),
                        Ok((v, value_end)) => match scan_read_at(
                            s,
                            value_end,
                            comments,
                            |t: Lexeme| lexeme_more(t, Lexeme::ObjectEnd),
                        ) {
                            Err(e) => Err(e),
                            Ok((more, q)) => if !more {
                                Ok((Json::Object(with_field(acc, key, v)), q))
                            } else if pos < q <= s.len() {
                                parse_fields(s, q, with_field(acc, key, v), comments, oracle)
                            } else {
                                Err(q)
                            },
                        },
                    },
                }
            },
        }
    }
}

/// The one value that the whole input holds: what follows the value fails, behind
/// its first token.
pub open spec fn parse_document(s: Seq<u8>, comments: bool, oracle: Oracle) -> Result<Json, int> {
    match parse_value(s, 0, comments, oracle) {
        Err(e) => Err(e),
        Ok((v, p)) => match scan_token(s, p, comments) {
            Ok(None) => Ok(v),
            Ok(Some((t, q))) => Err(q),
            Err(e) => Err(e),
        },
    }
}

/// The views of the values.
pub open spec fn views(a: Seq<Value<'_>>) -> Seq<Json> {
    Seq::new(a.len(), |i: int| a[i]@)
}

impl<'a> Value<'a> {
    /// Reads one value: the token that was pushed back or the token at the cursor,
    /// and what belongs to it. The reader is left behind the value.
    pub fn from_reader<F: Fn(&str) -> Option<Float>>(de: &mut Reader<'a, F>) -> (r: Result<
        Value<'a>,
        Error,
    >)
        requires
            old(de).wf(),
        ensures
            final(de).wf(),
            final(de).same_input(old(de)),
            final(de).stashed() is None,
            final(de).remaining() <= old(de).remaining(),
            r is Ok ==> final(de).remaining() < old(de).remaining(),
            functional(old(de).decoder()) ==> (match old(de).required() {
                Err(e) => r == Err::<Value<'a>, Error>(error_at(old(de).source(), e)) && final(
                    de).pos() == e,
                Ok((t, p)) => match parse_after(
                    t,
                    old(de).source(),
                    p,
                    old(de).dialect().allow_comments,
                    old(de).oracle(),
                ) {
                    Ok((v, q)) => r is Ok && r->Ok_0@ == v && final(de).pos() == q,
                    Err(e) => r == Err::<Value<'a>, Error>(error_at(old(de).source(), e)) && final(
                        de).pos() == e,
                },
            }),
        decreases old(de).remaining(), 0nat,
    {
        let first = de.next();
        proof {
            de.lemma_wf();
            if functional(old(de).decoder()) {
                let a = choose|a: Option<crate::num::FloatView>| old(de).gives(a, first, de.pos());
                old(de).lemma_answer(a);
            }
        }
        let t = match first {
            Ok(t) => t,
            Err(e) => {
                return Err(e);
            },
        };
        match t {
            Token::Null => Ok(Value::Null),
            Token::Bool(b) => Ok(Value::Bool(b)),
            Token::NumF(f) => Ok(Value::Num(Num::from_f64(f))),
            Token::NumI(i) => Ok(Value::Num(Num::from_i64(i))),
            Token::NumU(u) => Ok(Value::Num(Num::from_u64(u))),
            Token::StrBorrow(b) => Ok(Value::Str(Text::Borrowed(b))),
            Token::StrOwn(b) => Ok(Value::Str(Text::Owned(b))),
            Token::ArrayBegin => Value::do_read_array(de),
            Token::ObjectBegin => Value::do_read_obj(de),
            _ => Err(de.err()),
        }
    }

    /// Behind `[`: reads the elements and the closing bracket.
    fn do_read_array<F: Fn(&str) -> Option<Float>>(de: &mut Reader<'a, F>) -> (r: Result<
        Value<'a>,
        Error,
    >)
        requires
            old(de).wf(),
            old(de).stashed() is None,
        ensures
            final(de).wf(),
            final(de).same_input(old(de)),
            final(de).stashed() is None,
            final(de).remaining() <= old(de).remaining(),
            functional(old(de).decoder()) ==> (match parse_array(
                old(de).source(),
                old(de).pos(),
                old(de).dialect().allow_comments,
                old(de).oracle(),
            ) {
                Ok((v, q)) => r is Ok && r->Ok_0@ == v && final(de).pos() == q,
                Err(e) => r == Err::<Value<'a>, Error>(error_at(old(de).source(), e)) && final(
                    de).pos() == e,
            }),
        decreases old(de).remaining(), 1nat,
    {
        let ghost src = de.source();
        let ghost comments = de.dialect().allow_comments;
        let ghost oracle = de.oracle();
        let ghost pos0 = de.pos();
        let ghost goal = parse_array(src, pos0, comments, oracle);
        proof {
            de.lemma_wf();
        }
        let mut v: Vec<Value<'a>> = Vec::new();
        let next = match de.skipnpeek() {
            Ok(b) => b,
            Err(e) => {
                return Err(e);
            },
        };
        if next == Some(0x5d) {
            proof {
                lemma_scan_close(src, pos0, comments);
            }
            return match de.next_token() {
                Ok(Some(Token::ArrayEnd)) => {
                    let r = Value::Array(v);
                    proof {
                        assert(r@->Array_0 =~= Seq::<Json>::empty());
                    }
                    Ok(r)
                },
                Ok(_) => Err(de.err()),
                Err(e) => Err(e),
            };
        }
        proof {
            assert(views(v@) =~= Seq::<Json>::empty());
            assert(goal == parse_elements(src, de.pos(), views(v@), comments, oracle));
        }
        loop
            invariant_except_break
                functional(de.decoder()) ==> parse_elements(src, de.pos(), views(v@), comments, oracle)
                    == goal,
            invariant
                de.wf(),
                de.same_input(old(de)),
                de.stashed() is None,
                de.remaining() <= old(de).remaining(),
                src == de.source(),
                comments == de.dialect().allow_comments,
                oracle == de.oracle(),
                goal == parse_array(
                    old(de).source(),
                    old(de).pos(),
                    old(de).dialect().allow_comments,
                    old(de).oracle(),
                ),
            ensures
                de.wf(),
                de.same_input(old(de)),
                de.stashed() is None,
                de.remaining() <= old(de).remaining(),
                functional(de.decoder()) ==> goal == Ok::<(Json, int), int>(
                    (Json::Array(views(v@)), de.pos()),
                ),
            decreases de.remaining(),
        {
            let ghost start = de.pos();
            let ghost acc = views(v@);
            proof {
                de.lemma_wf();
                assert(de.required() == token_at(src, start, comments, oracle));
            }
            let item = match Value::from_reader(de) {
                Ok(item) => item,
                Err(e) => {
                    return Err(e);
                },
            };
            let ghost p = de.pos();
            proof {
                de.lemma_wf();
                if functional(de.decoder()) {
                    assert(parse_value(src, start, comments, oracle) == Ok::<(Json, int), int>(
                        (item@, p),
                    ));
                    assert(de.scan_reads(|t: Lexeme| lexeme_more(t, Lexeme::ArrayEnd)) == scan_read_at(
                        src,
                        p,
                        comments,
                        |t: Lexeme| lexeme_more(t, Lexeme::ArrayEnd),
                    ));
                }
            }
            v.push(item);
            proof {
                assert(views(v@) =~= acc.push(item@));
            }
            let more = match de.comma_or_array_end() {
                Ok(more) => more,
                Err(e) => {
                    return Err(e);
                },
            };
            proof {
                de.lemma_wf();
            }
            if !more {
                break ;
            }
        }
        let r = Value::Array(v);
        proof {
            assert(r@->Array_0 =~= views(v@));
        }
        Ok(r)
    }

    /// Behind `{`: reads the fields and the closing bracket.
    fn do_read_obj<F: Fn(&str) -> Option<Float>>(de: &mut Reader<'a, F>) -> (r: Result<
        Value<'a>,
        Error,
    >)
        requires
            old(de).wf(),
            old(de).stashed() is None,
        ensures
            final(de).wf(),
            final(de).same_input(old(de)),
            final(de).stashed() is None,
            final(de).remaining() <= old(de).remaining(),
            functional(old(de).decoder()) ==> (match parse_object(
                old(de).source(),
                old(de).pos(),
                old(de).dialect().allow_comments,
                old(de).oracle(),
            ) {
                Ok((v, q)) => r is Ok && r->Ok_0@ == v && final(de).pos() == q,
                Err(e) => r == Err::<Value<'a>, Error>(error_at(old(de).source(), e)) && final(
                    de).pos() == e,
            }),
        decreases old(de).remaining(), 1nat,
    {
        let ghost src = de.source();
        let ghost comments = de.dialect().allow_comments;
        let ghost oracle = de.oracle();
        let ghost pos0 = de.pos();
        let ghost goal = parse_object(src, pos0, comments, oracle);
        proof {
            de.lemma_wf();
        }
        let mut obj: Object<'a> = Object::new();
        let next = match de.skipnpeek() {
            Ok(b) => b,
            Err(e) => {
                return Err(e);
            },
        };
        if next == Some(0x7d) {
            proof {
                lemma_scan_close(src, pos0, comments);
            }
            return match de.next_token() {
                Ok(Some(Token::ObjectEnd)) => Ok(Value::Object(obj)),
                Ok(_) => Err(de.err()),
                Err(e) => Err(e),
            };
        }
        proof {
            assert(goal == parse_fields(src, de.pos(), obj@, comments, oracle));
        }
        loop
            invariant_except_break
                functional(de.decoder()) ==> parse_fields(src, de.pos(), obj@, comments, oracle)
                    == goal,
            invariant
                de.wf(),
                de.same_input(old(de)),
                de.stashed() is None,
                de.remaining() <= old(de).remaining(),
                src == de.source(),
                comments == de.dialect().allow_comments,
                oracle == de.oracle(),
                obj.sorted(),
                goal == parse_object(
                    old(de).source(),
                    old(de).pos(),
                    old(de).dialect().allow_comments,
                    old(de).oracle(),
                ),
            ensures
                de.wf(),
                de.same_input(old(de)),
                de.stashed() is None,
                de.remaining() <= old(de).remaining(),
                functional(de.decoder()) ==> goal == Ok::<(Json, int), int>(
                    (Json::Object(obj@), de.pos()),
                ),
            decreases de.remaining(),
        {
            let ghost start = de.pos();
            let ghost acc = obj@;
            proof {
                de.lemma_wf();
                assert(de.scan_reads(|t: Lexeme| lexeme_str(t)) == scan_read_at(
                    src,
                    start,
                    comments,
                    |t: Lexeme| lexeme_str(t),
                ));
            }
            let k = match de.key() {
                Ok(k) => k,
                Err(e) => {
                    return Err(e);
                },
            };
            let ghost key_end = de.pos();
            proof {
                de.lemma_wf();
                assert(de.scan_reads(|t: Lexeme| lexeme_is(t, Lexeme::Colon)) == scan_read_at(
                    src,
                    key_end,
                    comments,
                    |t: Lexeme| lexeme_is(t, Lexeme::Colon),
                ));
            }
            match de.colon() {
                Ok(()) => {},
                Err(e) => {
                    return Err(e);
                },
            }
            let ghost colon_end = de.pos();
            proof {
                de.lemma_wf();
                assert(de.required() == token_at(src, colon_end, comments, oracle));
            }
            let val = match Value::from_reader(de) {
                Ok(val) => val,
                Err(e) => {
                    return Err(e);
                },
            };
            let ghost value_end = de.pos();
            proof {
                de.lemma_wf();
                if functional(de.decoder()) {
                    assert(parse_value(src, colon_end, comments, oracle) == Ok::<(Json, int), int>(
                        (val@, value_end),
                    ));
                    assert(de.scan_reads(|t: Lexeme| lexeme_more(t, Lexeme::ObjectEnd)) == scan_read_at(
                        src,
                        value_end,
                        comments,
                        |t: Lexeme| lexeme_more(t, Lexeme::ObjectEnd),
                    ));
                }
            }
            obj.insert(k, val);
            let more = match de.comma_or_obj_end() {
                Ok(more) => more,
                Err(e) => {
                    return Err(e);
                },
            };
            proof {
                de.lemma_wf();
            }
            if !more {
                break ;
            }
        }
        Ok(Value::Object(obj))
    }

    /// Reads the one value that the text holds, in the given dialect.
    pub fn from_str_with<F: Fn(&str) -> Option<Float>>(input: &'a str, d: Dialect, decode: F) -> (r:
        Result<Value<'a>, Error>)
        requires
            forall|t: &str| decode.requires((t,)),
        ensures
            functional(&decode) ==> (match parse_document(
                input.spec_bytes(),
                d.allow_comments,
                oracle_of(&decode),
            ) {
                Ok(v) => r is Ok && r->Ok_0@ == v,
                Err(e) => r == Err::<Value<'a>, Error>(error_at(input.spec_bytes(), e)),
            }),
    {
        let mut de = Reader::with_dialect(input, d, decode);
        let r = match Value::from_reader(&mut de) {
            Ok(r) => r,
            Err(e) => {
                return Err(e);
            },
        };
        match de.finish() {
            Ok(()) => Ok(r),
            Err(e) => Err(e),
        }
    }

    /// Reads the one value that the text holds, as plain JSON.
    pub fn from_str<F: Fn(&str) -> Option<Float>>(s: &'a str, decode: F) -> (r: Result<
        Value<'a>,
        Error,
    >)
        requires
            forall|t: &str| decode.requires((t,)),
        ensures
            functional(&decode) ==> (match parse_document(s.spec_bytes(), false, oracle_of(&decode)) {
                Ok(v) => r is Ok && r->Ok_0@ == v,
                Err(e) => r == Err::<Value<'a>, Error>(error_at(s.spec_bytes(), e)),
            }),
    {
        Value::from_str_with(s, Dialect::default(), decode)
    }
}

} // verus!
