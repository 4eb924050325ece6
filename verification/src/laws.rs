//! What holds of the codec as a whole.
use vstd::prelude::*;
use vstd::arithmetic::power2::{lemma2_to64, lemma2_to64_rest, lemma_pow2_adds, lemma_pow2_pos, pow2};
use vstd::utf8::encode_utf8;
use crate::lex::{
    lemma_lex_token_advances, lemma_scan_token_advances, lemma_skip_space_bounds, scan_token,
    skip_space, Lexeme, Oracle, Scanned,
};
use crate::num::{
    float_eq, float_exponent, float_fraction, float_int, float_negative, int_float, lemma_top_bit,
    num_eq, num_wf, sane_int, top_bit, FloatView, NumView, HIDDEN_BIT,
};
use crate::parse::{
    float_value, parse_after, parse_array, parse_document, parse_elements, parse_fields,
    parse_object, parse_value, scan_read_at, token_at,
};
use crate::read::{lexeme_is, lexeme_more, lexeme_str};
use crate::render::render;
use crate::roundtrip::{
    blank_run, float_free, follow_ok, has_at, lemma_float_free_reads_back, lemma_skip_run,
    lemma_value_at, reads_back,
};
use crate::value::{
    find_key, json_eq, json_wf, keys_before, keys_sorted, lemma_find_key_found, lemma_with_field,
    with_field, Json,
};
use crate::write::{entries_first, entries_text, Entry};

verus! {

/// An entry that is left out leaves no trace, wherever it stands among the entries
/// of a scope: neither in the text nor in what the scope knows of being empty.
pub proof fn lemma_omitted_entry(
    before: Seq<Entry>,
    e: Entry,
    after: Seq<Entry>,
    first: bool,
    depth: nat,
    pretty: bool,
)
    requires
        !e.included,
    ensures
        entries_text(before.push(e) + after, first, depth, pretty) == entries_text(
            before + after,
            first,
            depth,
            pretty,
        ),
        entries_first(before.push(e) + after, first) == entries_first(before + after, first),
    decreases after.len(),
{
    reveal(crate::write::put_text);
    if after.len() == 0 {
        assert(before.push(e) + after =~= before.push(e));
        assert(before + after =~= before);
        assert(before.push(e).drop_last() =~= before);
        assert(entries_text(before.push(e), first, depth, pretty) =~= entries_text(
            before,
            first,
            depth,
            pretty,
        ));
    } else {
        let rest = after.drop_last();
        lemma_omitted_entry(before, e, rest, first, depth, pretty);
        assert((before.push(e) + after).drop_last() =~= before.push(e) + rest);
        assert((before + after).drop_last() =~= before + rest);
        assert((before.push(e) + after).last() == after.last());
        assert((before + after).last() == after.last());
    }
}

/// Two numbers, each held in its one form, are equal exactly when both are the same
/// integer or both are floats that are equal as numbers. An integer and a float are
/// never equal, since a float with an integer of small magnitude as its value is
/// held as that integer; a negative integer equals no integer that is not negative.
pub proof fn lemma_num_equality(a: NumView, b: NumView)
    requires
        num_wf(a),
        num_wf(b),
    ensures
        num_eq(a, b) <==> (match (a, b) {
            (NumView::Int(x), NumView::Int(y)) => x == y,
            (NumView::Float(f), NumView::Float(g)) => float_eq(f.bits, g.bits),
            _ => false,
        }),
        (a is Int && b is Int && a->Int_0 < 0 && b->Int_0 >= 0) ==> !num_eq(a, b),
{
}

/// The number that a float makes equals the number of an integer exactly when the
/// float has that integer as its value, within the magnitude up to which floats are
/// held as integers.
pub proof fn lemma_float_equals_integer(f: FloatView, x: int)
    ensures
        num_eq(crate::parse::float_value(f), NumView::Int(x)) <==> sane_int(f.bits) == Some(x),
{
}

/// A value whose floats are read back equals itself.
pub proof fn lemma_equals_itself(v: Json, oracle: Oracle)
    requires
        reads_back(v, oracle),
    ensures
        json_eq(v, v),
    decreases v,
{
    match v {
        Json::Array(a) => {
            assert forall|i: int| 0 <= i < a.len() implies json_eq(#[trigger] a[i], a[i]) by {
                lemma_equals_itself(a[i], oracle);
            }
        },
        Json::Object(o) => {
            assert forall|i: int| 0 <= i < o.len() implies (#[trigger] o[i]).0 == o[i].0 && json_eq(
                o[i].1,
                o[i].1,
            ) by {
                lemma_equals_itself(o[i].1, oracle);
            }
        },
        _ => {},
    }
}

/// Reading what was written gives the value back. It holds of every value that is
/// held as the library holds values and whose floats have a text that is read back
/// as the float, in pretty and in compact mode and in every dialect: the text of
/// such a value, as UTF-8, is read as that value, which equals the one that was
/// written.
pub proof fn lemma_round_trip(v: Json, pretty: bool, comments: bool, oracle: Oracle)
    requires
        json_wf(v),
        reads_back(v, oracle),
    ensures
        parse_document(encode_utf8(render(v, 0, pretty)), comments, oracle) == Ok::<Json, int>(v),
        json_eq(v, v),
{
    let s = encode_utf8(render(v, 0, pretty));
    assert(s.subrange(0, s.len() as int) =~= s);
    assert(has_at(s, 0, s));
    assert(blank_run(s, 0, 0));
    assert(follow_ok(s, s.len() as int, comments));
    lemma_value_at(v, 0, pretty, comments, oracle, s, 0, 0);
    assert(parse_value(s, 0, comments, oracle) == Ok::<(Json, int), int>((v, s.len() as int))) by {
        reveal(crate::roundtrip::reads_value);
    }
    assert(blank_run(s, s.len() as int, s.len() as int));
    lemma_skip_run(s, s.len() as int, s.len() as int, comments);
    assert(scan_token(s, s.len() as int, comments) == Ok::<Option<(Scanned, int)>, int>(None)) by {
        reveal(scan_token);
    }
    lemma_equals_itself(v, oracle);
}

/// Reading what was written gives the value back, whatever the decoder of floats
/// does, where the value has no float in it.
pub proof fn lemma_round_trip_without_floats(v: Json, pretty: bool, comments: bool, oracle: Oracle)
    requires
        json_wf(v),
        float_free(v),
    ensures
        parse_document(encode_utf8(render(v, 0, pretty)), comments, oracle) == Ok::<Json, int>(v),
        json_eq(v, v),
{
    lemma_float_free_reads_back(v, oracle);
    lemma_round_trip(v, pretty, comments, oracle);
}

/// The pretty and the compact text of a value are read as the same value.
pub proof fn lemma_renderings_agree(v: Json, comments: bool, oracle: Oracle)
    requires
        json_wf(v),
        reads_back(v, oracle),
    ensures
        parse_document(encode_utf8(render(v, 0, true)), comments, oracle) == parse_document(
            encode_utf8(render(v, 0, false)),
            comments,
            oracle,
        ),
{
    lemma_round_trip(v, true, comments, oracle);
    lemma_round_trip(v, false, comments, oracle);
}

/// Writing what was read from the text of a value, in the mode in which that text
/// was written, gives the same text again.
pub proof fn lemma_rewrite_is_stable(v: Json, pretty: bool, comments: bool, oracle: Oracle)
    requires
        json_wf(v),
        reads_back(v, oracle),
    ensures
        match parse_document(encode_utf8(render(v, 0, pretty)), comments, oracle) {
            Ok(u) => render(u, 0, pretty) == render(v, 0, pretty),
            Err(_) => false,
        },
{
    lemma_round_trip(v, pretty, comments, oracle);
}

/// Every value among the fields is held as the library holds values.
pub open spec fn fields_wf(fields: Seq<(Seq<char>, Json)>) -> bool {
    forall|i: int| 0 <= i < fields.len() ==> json_wf((#[trigger] fields[i]).1)
}

/// Setting a field of sorted fields with well-formed values to a well-formed value
/// gives such fields again.
pub proof fn lemma_with_field_wf(fields: Seq<(Seq<char>, Json)>, key: Seq<char>, value: Json)
    requires
        keys_sorted(fields),
        fields_wf(fields),
        json_wf(value),
    ensures
        keys_sorted(with_field(fields, key, value)),
        fields_wf(with_field(fields, key, value)),
{
    lemma_with_field(fields, key, value);
    lemma_find_key_found(fields, key);
    let out = with_field(fields, key, value);
    match find_key(fields, key) {
        Some(i) => {
            assert forall|j: int| 0 <= j < out.len() implies json_wf((#[trigger] out[j]).1) by {
                if j != i {
                    assert(out[j] == fields[j]);
                }
            }
        },
        None => {
            let i = keys_before(fields, key);
            assert forall|j: int| 0 <= j < out.len() implies json_wf((#[trigger] out[j]).1) by {
                if j < i {
                    assert(out[j] == fields[j]);
                } else if j > i {
                    assert(out[j] == fields[j - 1]);
                }
            }
        },
    }
}

/// What the parser reads is held as the library holds values: in every object the
/// keys stand in order, so that no key occurs twice, and every number is held in its
/// one form. The parser ends behind where it started, within the input.
pub proof fn lemma_parse_value_wf(s: Seq<u8>, pos: int, comments: bool, oracle: Oracle)
    requires
        0 <= pos <= s.len(),
    ensures
        parse_value(s, pos, comments, oracle) matches Ok((v, p)) ==> json_wf(v) && pos < p <= s.len(),
    decreases s.len() - pos, 0nat,
{
    lemma_lex_token_advances(s, pos, comments, oracle);
    match token_at(s, pos, comments, oracle) {
        Ok((t, p)) => {
            lemma_parse_after_wf(t, s, p, comments, oracle);
        },
        Err(_) => {},
    }
}

/// What is read behind a first token is held as the library holds values.
pub proof fn lemma_parse_after_wf(t: Lexeme, s: Seq<u8>, pos: int, comments: bool, oracle: Oracle)
    requires
        0 <= pos <= s.len(),
    ensures
        parse_after(t, s, pos, comments, oracle) matches Ok((v, p)) ==> json_wf(v) && pos <= p
            <= s.len(),
    decreases s.len() - pos, 3nat,
{
    match t {
        Lexeme::ArrayBegin => {
            lemma_parse_array_wf(s, pos, comments, oracle);
        },
        Lexeme::ObjectBegin => {
            lemma_parse_object_wf(s, pos, comments, oracle);
        },
        _ => {},
    }
}

/// An array that is read is held as the library holds values.
pub proof fn lemma_parse_array_wf(s: Seq<u8>, pos: int, comments: bool, oracle: Oracle)
    requires
        0 <= pos <= s.len(),
    ensures
        parse_array(s, pos, comments, oracle) matches Ok((v, p)) ==> json_wf(v) && pos <= p
            <= s.len(),
    decreases s.len() - pos, 2nat,
{
    lemma_skip_space_bounds(s, pos, comments);
    match skip_space(s, pos, comments) {
        Ok(p) => {
            if !(p < s.len() && s[p] == 0x5d) {
                lemma_parse_elements_wf(s, p, seq![], comments, oracle);
            }
        },
        Err(_) => {},
    }
}

/// The elements that are read are held as the library holds values.
pub proof fn lemma_parse_elements_wf(
    s: Seq<u8>,
    pos: int,
    acc: Seq<Json>,
    comments: bool,
    oracle: Oracle,
)
    requires
        0 <= pos <= s.len(),
        forall|i: int| 0 <= i < acc.len() ==> json_wf(#[trigger] acc[i]),
    ensures
        parse_elements(s, pos, acc, comments, oracle) matches Ok((v, p)) ==> json_wf(v) && pos < p
            <= s.len(),
    decreases s.len() - pos, 1nat,
{
    lemma_parse_value_wf(s, pos, comments, oracle);
    match parse_value(s, pos, comments, oracle) {
        Ok((v, p)) => {
            lemma_scan_token_advances(s, p, comments);
            match scan_read_at(s, p, comments, |t: Lexeme| lexeme_more(t, Lexeme::ArrayEnd)) {
                Ok((more, q)) => {
                    let next = acc.push(v);
                    assert forall|i: int| 0 <= i < next.len() implies json_wf(#[trigger] next[i]) by {
                        if i < acc.len() {
                            assert(next[i] == acc[i]);
                        }
                    }
                    if more && pos < q <= s.len() {
                        lemma_parse_elements_wf(s, q, next, comments, oracle);
                    }
                },
                Err(_) => {},
            }
        },
        Err(_) => {},
    }
}

/// An object that is read is held as the library holds values.
pub proof fn lemma_parse_object_wf(s: Seq<u8>, pos: int, comments: bool, oracle: Oracle)
    requires
        0 <= pos <= s.len(),
    ensures
        parse_object(s, pos, comments, oracle) matches Ok((v, p)) ==> json_wf(v) && pos <= p
            <= s.len(),
    decreases s.len() - pos, 2nat,
{
    lemma_skip_space_bounds(s, pos, comments);
    match skip_space(s, pos, comments) {
        Ok(p) => {
            if !(p < s.len() && s[p] == 0x7d) {
                lemma_parse_fields_wf(s, p, seq![], comments, oracle);
            }
        },
        Err(_) => {},
    }
}

/// The fields that are read are held as the library holds values.
pub proof fn lemma_parse_fields_wf(
    s: Seq<u8>,
    pos: int,
    acc: Seq<(Seq<char>, Json)>,
    comments: bool,
    oracle: Oracle,
)
    requires
        0 <= pos <= s.len(),
        keys_sorted(acc),
        fields_wf(acc),
    ensures
        parse_fields(s, pos, acc, comments, oracle) matches Ok((v, p)) ==> json_wf(v) && pos < p
            <= s.len(),
    decreases s.len() - pos, 1nat,
{
    lemma_scan_token_advances(s, pos, comments);
    match scan_read_at(s, pos, comments, |t: Lexeme| lexeme_str(t)) {
        Ok((key, key_end)) => {
            lemma_scan_token_advances(s, key_end, comments);
            match scan_read_at(s, key_end, comments, |t: Lexeme| lexeme_is(t, Lexeme::Colon)) {
                Ok((colon, colon_end)) => {
                    lemma_parse_value_wf(s, colon_end, comments, oracle);
                    match parse_value(s, colon_end, comments, oracle) {
                        Ok((v, value_end)) => {
                            lemma_scan_token_advances(s, value_end, comments);
                            lemma_with_field_wf(acc, key, v);
                            match scan_read_at(
                                s,
                                value_end,
                                comments,
                                |t: Lexeme| lexeme_more(t, Lexeme::ObjectEnd),
                            ) {
                                Ok((more, q)) => {
                                    if more && pos < q <= s.len() {
                                        lemma_parse_fields_wf(
                                            s,
                                            q,
                                            with_field(acc, key, v),
                                            comments,
                                            oracle,
                                        );
                                    }
                                },
                                Err(_) => {},
                            }
                        },
                        Err(_) => {},
                    }
                },
                Err(_) => {},
            }
        },
        Err(_) => {},
    }
}

/// The value that a text is read as is held as the library holds values.
pub proof fn lemma_parse_document_wf(s: Seq<u8>, comments: bool, oracle: Oracle)
    ensures
        parse_document(s, comments, oracle) matches Ok(v) ==> json_wf(v),
{
    lemma_parse_value_wf(s, 0, comments, oracle);
}

/// The fields of a bit pattern that is put together from a sign, an exponent and a
/// fraction.
pub proof fn lemma_float_fields(sign: bool, exponent: nat, fraction: nat)
    requires
        exponent < 0x800,
        fraction < HIDDEN_BIT,
    ensures
        ({
            let b = ((if sign {
                0x8000_0000_0000_0000nat
            } else {
                0nat
            }) + exponent * HIDDEN_BIT + fraction) as u64;
            &&& float_negative(b) == sign
            &&& float_exponent(b) == exponent
            &&& float_fraction(b) == fraction
        }),
{
    let high = if sign {
        0x8000_0000_0000_0000nat
    } else {
        0nat
    };
    let h = HIDDEN_BIT as int;
    let total = (high + exponent * HIDDEN_BIT + fraction) as int;
    assert(exponent * h <= 0x7ff * h) by (nonlinear_arith)
        requires
            exponent <= 0x7ff,
            h > 0,
    ;
    let upper = (if sign {
        0x800int
    } else {
        0int
    }) + exponent;
    assert(total == upper * h + fraction) by (nonlinear_arith)
        requires
            total == high + exponent * h + fraction,
            high == (if sign {
                0x800int
            } else {
                0int
            }) * h,
            upper == (if sign {
                0x800int
            } else {
                0int
            }) + exponent,
    ;
    vstd::arithmetic::div_mod::lemma_fundamental_div_mod_converse(
        total,
        h,
        upper,
        fraction as int,
    );
}

/// The float that is given for an integer equals the integer.
pub proof fn lemma_int_float(n: int)
    requires
        i64::MIN <= n <= u64::MAX,
    ensures
        int_float(n) matches Some(b) ==> float_int(b) == Some(n),
{
    lemma2_to64();
    lemma2_to64_rest();
    if n == 0 {
        lemma_pow2_pos(1074);
        vstd::arithmetic::div_mod::lemma_small_mod(0, pow2(1074));
        vstd::arithmetic::div_mod::lemma_basic_div(0, pow2(1074) as int);
    } else {
        let m = (if n < 0 {
            -n
        } else {
            n
        }) as nat;
        let p = top_bit(m);
        lemma_top_bit(m);
        if p >= 64 {
            vstd::arithmetic::power2::lemma_pow2_strictly_increases(63, p);
        }
        if p == 64 {
            assert(false);
        }
        assert(p <= 63) by {
            if p > 63 {
                if p > 64 {
                    vstd::arithmetic::power2::lemma_pow2_strictly_increases(64, p);
                }
            }
        }
        if p <= 52 {
            let k = (52 - p) as nat;
            let unit = pow2(k);
            lemma_pow2_pos(k);
            lemma_pow2_adds(p, k);
            lemma_pow2_adds(p + 1, k);
            let mant = m * unit;
            assert(pow2(52) <= mant < pow2(53)) by (nonlinear_arith)
                requires
                    pow2(p) <= m < pow2(p + 1),
                    unit > 0,
                    pow2(p) * unit == pow2(52),
                    pow2(p + 1) * unit == pow2(53),
                    mant == m * unit,
            ;
            lemma_float_fields(n < 0, 1023 + p, (mant - HIDDEN_BIT) as nat);
            vstd::arithmetic::div_mod::lemma_mod_multiples_basic(m as int, unit as int);
            vstd::arithmetic::div_mod::lemma_div_by_multiple(m as int, unit as int);
            if k == 0 {
                assert(mant * pow2(0) == m) by (nonlinear_arith)
                    requires
                        mant == m * unit,
                        unit == 1,
                        pow2(0) == 1,
                ;
            }
        } else if m % pow2((p - 52) as nat) == 0 {
            let k = (p - 52) as nat;
            let unit = pow2(k);
            lemma_pow2_pos(k);
            lemma_pow2_adds(52, k);
            lemma_pow2_adds(53, k);
            let mant = m / unit;
            vstd::arithmetic::div_mod::lemma_fundamental_div_mod(m as int, unit as int);
            assert(pow2(52) <= mant < pow2(53)) by (nonlinear_arith)
                requires
                    pow2(52) * unit <= m < pow2(53) * unit,
                    unit > 0,
                    m == unit * mant,
            ;
            lemma_float_fields(n < 0, 1023 + p, (mant - HIDDEN_BIT) as nat);
            assert(mant * unit == m) by (nonlinear_arith)
                requires
                    m == unit * mant,
            ;
        }
    }
}

} // verus!
