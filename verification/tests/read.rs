use smoljson::num::{Float, Num};
use smoljson::read::{Error, Reader, Token};
use smoljson::text::Text;
use smoljson::value::{Object, Value};
use smoljson::Dialect;

fn decode(s: &str) -> Option<Float> {
    s.parse::<f64>()
        .ok()
        .map(|f| Float::new(f.to_bits(), format!("{}", f)))
}

fn float(f: f64) -> Value<'static> {
    Value::from(Float::new(f.to_bits(), format!("{}", f)))
}

fn parse(s: &str) -> Result<Value<'static>, Error> {
    Value::from_str(s, decode).map(|v| v.into_static())
}

fn arr(items: Vec<Value<'static>>) -> Value<'static> {
    Value::Array(items)
}

fn obj(fields: Vec<(&str, Value<'static>)>) -> Value<'static> {
    let mut o = Object::new();
    for (k, v) in fields {
        o.insert(Text::Owned(k.to_string()), v);
    }
    Value::Object(o)
}

fn text(s: &str) -> Value<'static> {
    Value::from(s.to_string())
}

const TESTJSON: &str = r#"{
    "foo": 3,
    "a": "12345 test 123",
    "test": [
        "foo",
        "bar"
    ],
    "baz": null,
    "emptyo": {},
    "emptya": [],
    "ooo": {
        "a b c": 40.45
    },
    "aaa": [
        1,
        -4,
        9
    ],
    "aaapak": [1,2,3,4,5,6,7,8,9,10],
    "recs": [
        {"foo":1,"bar":1,"baz":["111"],"quux":{"frob":false}},
        {"foo":2,"bar":4,"baz":["222"],"quux":{"frob":true}},
        {"foo":3,"bar":9,"baz":["333"],"quux":{"frob":false}}
    ]
}"#;

fn rec(foo: i32, bar: i32, baz: &str, frob: bool) -> Value<'static> {
    obj(vec![
        ("foo", Value::from(foo)),
        ("bar", Value::from(bar)),
        ("baz", arr(vec![text(baz)])),
        ("quux", obj(vec![("frob", Value::from(frob))])),
    ])
}

#[test]
fn test_parse() {
    let mut t = Reader::new(TESTJSON, decode);
    let have = Value::from_reader(&mut t).unwrap();
    let want = obj(vec![
        ("foo", Value::from(3)),
        ("a", text("12345 test 123")),
        ("test", arr(vec![text("foo"), text("bar")])),
        ("baz", Value::Null),
        ("emptyo", obj(vec![])),
        ("emptya", arr(vec![])),
        ("ooo", obj(vec![("a b c", float(40.45))])),
        ("aaa", arr(vec![Value::from(1), Value::from(-4), Value::from(9)])),
        (
            "aaapak",
            arr((1..=10).map(Value::from).collect()),
        ),
        (
            "recs",
            arr(vec![
                rec(1, 1, "111", false),
                rec(2, 4, "222", true),
                rec(3, 9, "333", false),
            ]),
        ),
    ]);
    assert_eq!(want, have);
    let s = want.to_string(true);
    let vv = parse(&s).unwrap();
    assert_eq!(vv, have);
    assert_eq!(vv, want);
    let vv2 = parse(&want.to_string(false)).unwrap();
    assert_eq!(vv2, have);
    assert_eq!(vv2, want);
    assert_eq!(vv2, vv);
    assert!(vv["recs"][1]["quux"]["frob"].is_bool());
    assert!(vv["recs"]["nope"]["???"][0].is_null());
    assert_eq!(vv["test"][0].as_str(), Some("foo"));
    let mut vn = vv.clone();
    *vn.index_key_mut("x").index_key_mut("y").index_key_mut("z") = Value::from(3);
    assert_eq!(&vn["x"]["y"]["z"], &Value::from(3));
}

#[test]
fn test_escapes() {
    let s = r#"
        "\r\n\t\u0020\f\b\\\"\/\ud83d\uDE0B"
    "#;

    let vv = parse(s).expect("should parse");
    let s = vv.as_str().expect("should be str");
    assert_eq!(s, "\r\n\t\u{20}\x0c\x08\\\"/😋", "{:?}", s.as_bytes());
}

#[test]
fn test_escape_replacement() {
    let cases = &[
        (r#""\ud83d""#, "\u{FFFD}"),
        (r#""\ude0b""#, "\u{FFFD}"),
        (r#""\ud83d""#, "\u{FFFD}"),
        (r#""\ud83d1""#, "\u{FFFD}1"),
        (r#""\ude0b\ud83d""#, "\u{FFFD}\u{FFFD}"),
        (r#""\ud83d\ud83d""#, "\u{FFFD}\u{FFFD}"),
        (r#""\ude0b\ude0b""#, "\u{FFFD}\u{FFFD}"),
        (r#""\ud83d\u0020""#, "\u{FFFD} "),
        (r#""\ude0b\ud83d\ude0b""#, "\u{FFFD}😋"),
        (r#"" \ud83d""#, " \u{FFFD}"),
        (r#"" \ude0b""#, " \u{FFFD}"),
        (r#"" \ud83d""#, " \u{FFFD}"),
        (r#"" \ud83d1""#, " \u{FFFD}1"),
        (r#"" \ude0b\ud83d""#, " \u{FFFD}\u{FFFD}"),
        (r#"" \ud83d\ud83d""#, " \u{FFFD}\u{FFFD}"),
        (r#"" \ude0b\ude0b""#, " \u{FFFD}\u{FFFD}"),
        (r#"" \ud83d\u0020""#, " \u{FFFD} "),
        (r#"" \ude0b\ud83d\ude0b""#, " \u{FFFD}😋"),
        (r#"" \ude0b\ud83d\ude0b ""#, " \u{FFFD}😋 "),
        (r#"" \ude0b \ud83d\ude0b ""#, " \u{FFFD} 😋 "),
        (r#"" \ude0b\ud83d \ude0b ""#, " \u{FFFD}\u{FFFD} \u{FFFD} "),
    ];
    for &(json, want) in cases {
        let val = parse(json)
            .unwrap_or_else(|e| panic!("should be able to parse {:?}: {:?}", (json, want), e));
        let s = val
            .as_str()
            .unwrap_or_else(|| panic!("should be a str {:?}", (&val, json)));
        assert_eq!(s, want, "test case {:#?}", (json, want, s));
    }
}

#[test]
fn test_escape_surrogates1() {
    for hi in 0xd800..0xdc00 {
        for lo in 0xdc00..0xe000 {
            let utf16: &[u16] = &[hi, lo];
            let json = format!("\"\\u{:04x}\\u{:04x}\"", hi, lo);
            let val = parse(&json).unwrap_or_else(|e| {
                panic!("should be able to parse {:#?}: {:?}", (&json, lo, hi), e)
            });

            let expect =
                core::char::decode_utf16(utf16.iter().copied()).collect::<Vec<Result<char, _>>>();

            assert_eq!(expect.len(), 1, "{:#?}", (&json, lo, hi, expect, &val));
            assert!(expect[0].is_ok(), "{:#?}", (&json, lo, hi, expect, &val));

            let utf8 = expect[0].as_ref().unwrap().to_string();
            assert_eq!(
                val.as_str(),
                Some(&utf8[..]),
                "{:#?}",
                (&json, lo, hi, expect, &val, &utf8)
            )
        }
    }
}

#[test]
fn test_escape_surrogates2() {
    let always_lead = 0xd800;
    let always_trail = 0xdc00;
    for u in 0..=0xffff_u16 {
        let cases: &[(String, &[u16])] = &[
            (format!("\\u{:04x}", u), &[u]),
            (format!("\\u{:04x}\\u{:04x}", u, u), &[u, u]),
            (
                format!("\\u{:04x}\\u{:04x}", always_lead, u),
                &[always_lead, u],
            ),
            (
                format!("\\u{:04x}\\u{:04x}", u, always_lead),
                &[u, always_lead],
            ),
            (
                format!("\\u{:04x}\\u{:04x}", always_trail, u),
                &[always_trail, u],
            ),
            (
                format!("\\u{:04x}\\u{:04x}", u, always_trail),
                &[u, always_trail],
            ),
        ];
        for (case, utf16) in cases {
            let expect_chars = core::char::decode_utf16(utf16.iter().cloned())
                .map(|r| r.unwrap_or(core::char::REPLACEMENT_CHARACTER))
                .collect::<Vec<char>>();
            let expect_string: String = expect_chars.into_iter().collect();
            let json = format!("\"{}\"", case);

            let val = parse(&json).unwrap_or_else(|e| {
                panic!(
                    "should be able to parse {:#?}: {:?}",
                    (&json, &expect_string, case, utf16),
                    e
                )
            });
            assert_eq!(
                val.as_str(),
                Some(&expect_string[..]),
                "{:#?}",
                (&json, &expect_string, case, utf16, &val)
            );
        }
    }
}

#[test]
fn dialect_flags() {
    let d = Dialect::strict();
    assert!(!d.allow_comments);
    assert!(!d.allow_trailing_comma);
    assert!(d.comments(true).allow_comments);
    assert!(!d.comments(true).comments(false).allow_comments);
    assert!(d.trailing_comma(true).allow_trailing_comma);
    assert_eq!(Dialect::default(), Dialect::strict());
    assert!(Value::from_str_with("[1,]", d.trailing_comma(true), decode).is_err());
}

fn dialects() -> Vec<Dialect> {
    vec![Dialect::strict(), Dialect::strict().comments(true)]
}

fn check_valid(s: &str, want: Option<Value<'static>>, d: Dialect) {
    let parse_res = Value::from_str_with(s, d, decode);
    let parsed = match parse_res {
        Ok(got) => got,
        Err(e) => panic!(
            "Should be valid: {:?}. Wanted `{:?}`. Error: {:?}. Dialect {:?}",
            s, want, e, d
        ),
    };
    if let Some(want) = want {
        assert_eq!(
            parsed, want,
            "Got unexpected value from {:?}. (under {:?})",
            s, d
        );
    }
}

fn check_invalid(s: &str, d: Option<Dialect>) {
    let parse_res = Value::from_str_with(s, d.unwrap_or(Dialect::strict()), decode);
    if let Ok(got) = parse_res {
        panic!("Should be invalid: {:?}, got `{:?}` under {:?}", s, got, d);
    }
}

fn all(s: &str, want: Value<'static>) {
    let inps = &[
        s.to_string(),
        format!("  {}", s),
        format!("{}  ", s),
        format!("  {}  ", s),
    ];
    for s in inps {
        for d in dialects() {
            check_valid(s, Some(want.clone()), d);
        }
    }
}

fn none(s: &str) {
    for d in dialects() {
        check_invalid(s, Some(d));
    }
}

fn need_comments(s: &str, want: Value<'static>) {
    for d in dialects() {
        if d.allow_comments {
            check_valid(s, Some(want.clone()), d);
        } else {
            check_invalid(s, Some(d));
        }
    }
}

#[test]
fn test_focused() {
    all("true", Value::from(true));
    all("false", Value::from(false));
    all("null", Value::Null);
    all(r#""foo""#, text("foo"));
    all(
        r#""\" \\ / \b \f \n \r \t""#,
        text("\" \\ / \x08 \x0c \n \r \t"),
    );
    all(r#""\u00DC""#, text(r"Ü"));
    all(r#"9"#, Value::from(9));
    all(r#"-9"#, Value::from(-9));
    all(r#"0.125"#, float(0.125));
    all(r#"2e3"#, float(2e3));
    all(r#"2e+3"#, float(2e+3));
    all(r#"2e-3"#, float(2e-3));
    all(r#"2.5e3"#, float(2.5e3));
    all(r#"2.5E+3"#, float(2.5e+3));
    all(r#"2.5E-3"#, float(2.5e-3));
    all("{}", obj(vec![]));
    all("[]", arr(vec![]));
    none("1 2");
    none("1, 2");
    none("1/**/2");

    need_comments("/**/5", Value::from(5));
    need_comments("5/**/", Value::from(5));
    need_comments("5//", Value::from(5));
    need_comments("//\n5", Value::from(5));
    all(
        "[ [],  [ [] ]]",
        arr(vec![arr(vec![]), arr(vec![arr(vec![])])]),
    );
    all(r#"{ "foo": true }"#, obj(vec![("foo", Value::from(true))]));
    all(
        r#"{ "foo": true, "": 123 }"#,
        obj(vec![("foo", Value::from(true)), ("", Value::from(123))]),
    );
    all(
        r#"{ "mado": "homu", "kyubey": false }"#,
        obj(vec![("mado", text("homu")), ("kyubey", Value::from(false))]),
    );
    all(
        r#"{ "comments": ["/*", "*/", "//"] }"#,
        obj(vec![(
            "comments",
            arr(vec![text("/*"), text("*/"), text("//")]),
        )]),
    );
    need_comments(
        r#"{ "test": /*hello*/true }"#,
        obj(vec![("test", Value::from(true))]),
    );
    need_comments(
        r#"/**/{ "test": // what?
true }/**/"#,
        obj(vec![("test", Value::from(true))]),
    );
    need_comments(
        r#"{ "test": //
true }"#,
        obj(vec![("test", Value::from(true))]),
    );
    need_comments(
        "[5/* // */, 6]",
        arr(vec![Value::from(5), Value::from(6)]),
    );
    need_comments("[5//,\n,6]", arr(vec![Value::from(5), Value::from(6)]));
    need_comments("[5/*, 7*/,6]", arr(vec![Value::from(5), Value::from(6)]));
    need_comments("[/*[]*/]", arr(vec![]));
    need_comments("[//]\n]", arr(vec![]));

    none("tr/**/ue");
    none("tr/*/ue");
}

#[test]
fn number_keeps_its_provenance() {
    let nine = parse("9").unwrap();
    assert_eq!(nine.as_u64(), Some(9));
    assert_eq!(nine.as_i64(), Some(9));
    let minus = parse("-9").unwrap();
    assert_eq!(minus.as_u64(), None);
    assert_eq!(minus.as_i64(), Some(-9));
    let eighth = parse("0.125").unwrap();
    assert_eq!(eighth.as_u64(), None);
    assert_eq!(eighth.as_i64(), None);
    match &eighth {
        Value::Num(n) => {
            let f = n.get_float().expect("a float");
            assert_eq!(f64::from_bits(f.bits()), 0.125);
            assert_eq!(n.get_int(), None);
        }
        other => panic!("not a number: {:?}", other),
    }
    assert_eq!(Num::from_u64(9), Num::from_f64(Float::new(9.0f64.to_bits(), "9".to_string())));
    assert_ne!(Num::from_i64(-9), Num::from_u64(9));
    assert_eq!(Num::from_i64(-9), Num::from_f64(Float::new((-9.0f64).to_bits(), "-9".to_string())));
    assert_ne!(Num::from_u64(0), Num::from_f64(Float::new(0.5f64.to_bits(), "0.5".to_string())));
}

#[test]
fn duplicate_key_keeps_the_last_value() {
    let v = parse(r#"{"a":1,"a":2}"#).unwrap();
    let o = v.as_object().expect("an object");
    assert_eq!(o.len(), 1);
    assert_eq!(o.key_at(0), "a");
    assert_eq!(v["a"].as_u64(), Some(2));
}

#[test]
fn object_fields_stand_in_key_order() {
    let v = parse(r#"{"b":1,"a":2,"c":3,"":4}"#).unwrap();
    let o = v.as_object().unwrap();
    let keys: Vec<&str> = (0..o.len()).map(|i| o.key_at(i)).collect();
    assert_eq!(keys, vec!["", "a", "b", "c"]);
    assert_eq!(v.to_string(false), r#"{"":4,"a":2,"b":1,"c":3}"#);
}

#[test]
fn error_carries_offset_line_and_column() {
    let e = parse("[1,\n 2,\n x]").unwrap_err();
    assert_eq!(e.index, 10);
    assert_eq!(e.line, 2);
    assert_eq!(e.column, 2);
    assert_eq!(
        e.message(),
        "JSON parse error around index 10 (line 2 column 2)"
    );
    let e = parse("").unwrap_err();
    assert_eq!((e.index, e.line, e.column), (0, 0, 0));
    let e = parse("\"abc").unwrap_err();
    assert_eq!((e.index, e.line, e.column), (4, 0, 4));
    let e = parse("1 2").unwrap_err();
    assert_eq!(e.index, 3);
    let e = Value::from_str_with("/* open", Dialect::strict().comments(true), decode).unwrap_err();
    assert_eq!(e.index, 7);
}

#[test]
fn malformed_input_is_refused() {
    for bad in [
        "", " ", "tru", "truex", "nul", "fals", "\"", "\"\\x\"", "\"\\u12\"", "\"\\u12G4\"",
        "[", "[1", "[1,", "[1,]", "[,]", "{", "{\"a\"", "{\"a\":", "{\"a\":1", "{\"a\":1,}",
        "{1:2}", "{\"a\" 1}", "]", "}", ":", ",", "-", "1x", "1e", "--1", "1.2.3", "@",
        "\"\\ud83d\\u12\"",
    ] {
        assert!(parse(bad).is_err(), "should be refused: {:?}", bad);
    }
}

#[test]
fn integers_at_the_limits() {
    assert_eq!(parse("18446744073709551615").unwrap().as_u64(), Some(u64::MAX));
    assert_eq!(parse("-9223372036854775808").unwrap().as_i64(), Some(i64::MIN));
    assert_eq!(parse("9223372036854775807").unwrap().as_i64(), None);
    assert_eq!(parse("9223372036854775806").unwrap().as_i64(), Some(i64::MAX - 1));
    assert_eq!(parse("-0").unwrap().as_u64(), Some(0));
    assert_eq!(parse("007").unwrap().as_u64(), Some(7));
    let big = parse("18446744073709551616").unwrap();
    assert_eq!(big.as_u64(), None);
    match &big {
        Value::Num(n) => assert_eq!(
            f64::from_bits(n.get_float().unwrap().bits()),
            18446744073709551616.0
        ),
        other => panic!("not a number: {:?}", other),
    }
    let small = parse("-9223372036854775809").unwrap();
    assert_eq!(small.as_i64(), None);
}

#[test]
fn integral_floats_become_integers() {
    assert_eq!(parse("2e3").unwrap().as_u64(), Some(2000));
    assert_eq!(parse("-2.5e1").unwrap().as_i64(), Some(-25));
    assert_eq!(parse("-0.0").unwrap().as_u64(), Some(0));
    assert_eq!(parse("9007199254740990.0").unwrap().as_u64(), Some(9007199254740990));
    assert_eq!(parse("9007199254740991.0").unwrap().as_u64(), None);
    assert_eq!(parse("-9007199254740990.0").unwrap().as_i64(), Some(-9007199254740990));
    assert_eq!(parse("1e300").unwrap().as_u64(), None);
    assert_eq!(parse("5e-324").unwrap().as_u64(), None);
    assert_eq!(parse("0.5").unwrap().as_i64(), None);
    assert_eq!(parse("4503599627370496.5").unwrap().as_u64(), Some(4503599627370496));
}

#[test]
fn float_as_integer_is_truncated_and_clamped() {
    let n = |f: f64| Num::from_f64(Float::new(f.to_bits(), format!("{}", f)));
    assert_eq!(n(40.45).as_int(), 40);
    assert_eq!(n(-40.95).as_int(), -40);
    assert_eq!(n(1e300).as_int(), i128::MAX);
    assert_eq!(n(-1e300).as_int(), i128::MIN);
    assert_eq!(n(f64::NAN).as_int(), 0);
    assert_eq!(n(f64::INFINITY).as_int(), i128::MAX);
    assert_eq!(n(f64::NEG_INFINITY).as_int(), i128::MIN);
    assert_eq!(n(1e20).as_int(), 100000000000000000000);
    assert_eq!(n(1.7e38).as_int(), 1.7e38f64 as i128);
    assert_eq!(n(5e-324).as_int(), 0);
    assert_eq!(Num::from_i64(-7).as_int(), -7);
}

#[test]
fn reader_gives_numbers_and_strings() {
    let mut r = Reader::new(" 12 -3 4.75 -1e30 \"a\\nb\" \"plain\" 18446744073709551615", decode);
    assert_eq!(r.read_i64().unwrap(), 12);
    assert_eq!(r.read_u64().unwrap(), 0);
    assert_eq!(r.read_i64().unwrap(), 4);
    assert_eq!(r.read_u64().unwrap(), 0);
    let s = r.read_str().unwrap();
    assert_eq!(s.as_str(), "a\nb");
    assert!(matches!(s, Text::Owned(_)));
    let s = r.read_str().unwrap();
    assert_eq!(s.as_str(), "plain");
    assert!(matches!(s, Text::Borrowed(_)));
    assert_eq!(r.read_i64().unwrap(), -1);
    assert!(r.read_i64().is_err());
    let mut r = Reader::new("true", decode);
    assert!(r.read_str().is_err());
}

#[test]
fn values_can_be_read_one_after_another() {
    let mut r = Reader::with_dialect("1 [2] // tail\n{\"k\":null}", Dialect::strict().comments(true), decode);
    assert_eq!(Value::from_reader(&mut r).unwrap(), Value::from(1));
    assert_eq!(Value::from_reader(&mut r).unwrap(), arr(vec![Value::from(2)]));
    assert_eq!(
        Value::from_reader(&mut r).unwrap(),
        obj(vec![("k", Value::Null)])
    );
    assert!(r.finish().is_ok());
    assert!(Value::from_reader(&mut r).is_err());
}

#[test]
fn accessors_are_total() {
    let mut v = parse(r#"{"a":[1,"two",true,null],"b":{}}"#).unwrap();
    assert!(v.is_object() && !v.is_array() && !v.is_null());
    assert!(v["a"].is_array());
    assert_eq!(v["a"][1].as_str(), Some("two"));
    assert_eq!(v["a"][2].as_bool(), Some(true));
    assert!(v["a"][3].is_null());
    assert!(v["a"][4].is_null());
    assert!(v["zzz"]["y"][7].is_null());
    assert!(v.at(0).is_none());
    assert!(v.get("nope").is_none());
    assert_eq!(v.get("a").unwrap().at(0).unwrap().as_u64(), Some(1));
    assert_eq!(v["a"].as_array().unwrap().len(), 4);
    assert!(v["b"].as_object().unwrap().is_empty());
    assert!(v.as_object().unwrap().contains_key("a"));
    assert!(!v.as_object().unwrap().contains_key("A"));
    assert_eq!(v.as_object().unwrap().position("b"), Some(1));
    assert!(v.as_object().unwrap().value_at(1).is_object());
    assert!(v["a"][0].is_number() && v["a"][1].is_str() && v["a"][2].is_bool());
    let taken = v.get_mut("a").unwrap().at_mut(1).unwrap().take();
    assert_eq!(taken, text("two"));
    assert!(v["a"][1].is_null());
    *v.get_mut("a").unwrap().index_mut(0) = Value::from(false);
    assert_eq!(v["a"][0].as_bool(), Some(false));
    v.as_mut_object().unwrap().insert(Text::Owned("c".to_string()), Value::from(5u8));
    assert_eq!(v["c"].as_u64(), Some(5));
    v["a"].clone().into_array().unwrap();
    assert!(v.clone().into_str().is_none());
    assert_eq!(v.clone().into_object().unwrap().len(), 3);
    assert_eq!(text("x").into_str().unwrap().as_str(), "x");
    assert_eq!(Value::default(), Value::Null);
    let mut a = arr(vec![]);
    a.as_mut_array().unwrap().push(Value::Null);
    assert_eq!(a.to_string(false), "[null]");
}

#[test]
fn borrowed_strings_can_be_detached() {
    let owned: Value<'static> = {
        let input = String::from(r#"["plain","esc\u0041ped",{"k":"v"}]"#);
        let v = Value::from_str(&input, decode).unwrap();
        match &v {
            Value::Array(items) => {
                assert!(matches!(&items[0], Value::Str(Text::Borrowed(_))));
                assert!(matches!(&items[1], Value::Str(Text::Owned(_))));
            }
            other => panic!("not an array: {:?}", other),
        }
        v.into_static()
    };
    assert_eq!(owned[0].as_str(), Some("plain"));
    assert_eq!(owned[1].as_str(), Some("escAped"));
    assert_eq!(owned[2]["k"].as_str(), Some("v"));
}

#[test]
fn numbers_as_floats() {
    let bits = |v: &Value| v.as_f64().map(f64::from_bits);
    assert_eq!(bits(&parse("0").unwrap()), Some(0.0));
    assert_eq!(bits(&parse("1").unwrap()), Some(1.0));
    assert_eq!(bits(&parse("-1").unwrap()), Some(-1.0));
    assert_eq!(bits(&parse("3").unwrap()), Some(3.0));
    assert_eq!(bits(&parse("0.125").unwrap()), Some(0.125));
    assert_eq!(bits(&parse("9007199254740992").unwrap()), Some(9007199254740992.0));
    assert_eq!(bits(&parse("9007199254740993").unwrap()), None);
    assert_eq!(bits(&parse("9007199254740994").unwrap()), Some(9007199254740994.0));
    assert_eq!(bits(&parse("4611686018427387904").unwrap()), Some(4611686018427387904.0));
    assert_eq!(bits(&parse("18446744073709549568").unwrap()), Some(18446744073709549568.0));
    assert_eq!(bits(&parse("18446744073709551614").unwrap()), None);
    assert_eq!(bits(&parse("18446744073709551615").unwrap()), Some(18446744073709551616.0));
    assert_eq!(bits(&parse("-9223372036854775808").unwrap()), Some(-9223372036854775808.0));
    assert_eq!(bits(&parse("-9223372036854775807").unwrap()), None);
    assert_eq!(bits(&parse("-4503599627370497").unwrap()), Some(-4503599627370497.0));
    assert_eq!(bits(&parse("\"1\"").unwrap()), None);
    for i in 0u64..2000 {
        let n = Num::from_u64(i * 7919);
        assert_eq!(n.as_f64().map(f64::from_bits), Some((i * 7919) as f64));
        let m = Num::from_i64(-((i * 104729) as i64) - 1);
        assert_eq!(m.as_f64().map(f64::from_bits), Some(-((i * 104729) as f64) - 1.0));
    }
    for shift in 0..64 {
        let u = 1u64 << shift;
        assert_eq!(Num::from_u64(u).as_f64().map(f64::from_bits), Some(u as f64));
        let odd = u | 1;
        let expect = if (odd as f64) as u64 == odd && odd != u64::MAX { Some(odd as f64) } else { None };
        assert_eq!(Num::from_u64(odd).as_f64().map(f64::from_bits), expect);
    }
}

#[test]
fn written_text_is_read_back() {
    let v = obj(vec![
        ("plain", text("héllo wörld 😋")),
        ("escapes", text("\"\\/\u{8}\u{c}\n\r\t\u{0}\u{1}\u{1f}\u{7f}")),
        ("", arr(vec![])),
        ("nested", arr(vec![
            obj(vec![]),
            arr(vec![arr(vec![Value::Null, Value::from(true), Value::from(false)])]),
            obj(vec![("k", obj(vec![("k", arr(vec![Value::from(-1), Value::from(u64::MAX)]))]))]),
        ])),
        ("numbers", arr(vec![
            Value::from(0), Value::from(i64::MIN), Value::from(i64::MAX), float(0.1), float(-2.5e-7),
            float(1e300), float(123456.789),
        ])),
        ("ключ", text("значение")),
    ]);
    for pretty in [true, false] {
        let written = v.to_string(pretty);
        for d in dialects() {
            let read = Value::from_str_with(&written, d, decode).unwrap();
            assert_eq!(read, v);
            assert_eq!(read.to_string(pretty), written);
            assert_eq!(read.to_string(!pretty), v.to_string(!pretty));
        }
    }
    assert_eq!(parse(&v.to_string(true)).unwrap(), parse(&v.to_string(false)).unwrap());
}

#[test]
fn canonical_text_is_written_again_as_it_was_read() {
    let compact = r#"{"a":[1,-2,"x\ny",true,false,null,{}],"b":{"c":[]}}"#;
    assert_eq!(parse(compact).unwrap().to_string(false), compact);
    let pretty = "{\n    \"a\": [\n        1,\n        {\n            \"k\": \"v\"\n        }\n    ],\n    \"b\": {}\n}";
    assert_eq!(parse(pretty).unwrap().to_string(true), pretty);
}

#[test]
fn tokens_can_be_pushed_back() {
    let mut r = Reader::new("[1, \"two\"]", decode);
    assert!(matches!(r.next_token().unwrap(), Some(Token::ArrayBegin)));
    let t = r.next_token().unwrap().unwrap();
    assert!(matches!(t, Token::NumU(1)));
    r.unpeek(t);
    assert_eq!(r.read_u64().unwrap(), 1);
    assert!(r.comma().is_ok());
    assert_eq!(r.skipnpeek().unwrap(), Some(b'"'));
    let t = r.next().unwrap();
    assert!(matches!(t, Token::StrBorrow("two")));
    r.unpeek(t);
    assert_eq!(r.key().unwrap().as_str(), "two");
    assert!(!r.comma_or_array_end().unwrap());
    assert!(matches!(r.next_token().unwrap(), None));
    assert!(r.next().is_err());
    let mut r = Reader::new("{ : null }", decode);
    assert!(r.obj_begin().is_ok());
    assert!(r.colon().is_ok());
    assert!(r.null().is_ok());
    assert!(!r.comma_or_obj_end().unwrap());
    assert!(r.finish().is_ok());
    let mut r = Reader::new("[", decode);
    assert!(r.obj_begin().is_err());
    let mut r = Reader::new("x", decode);
    let e = r.array_begin().unwrap_err();
    assert_eq!(e, r.err());
    let r = Reader::new("1.5", decode);
    assert!(matches!(r.float_token(decode("1.5")), Ok(Token::NumF(_))));
    assert_eq!(r.float_token(None).unwrap_err(), r.err());
}
