use smoljson::num::{Float, Num};
use smoljson::text::Text;
use smoljson::value::{Object, Value};
use smoljson::write::{Null, Undefined, WriteJson, Writer};

fn float_of(f: f64) -> Float {
    Float::new(f.to_bits(), format!("{}", f))
}

#[test]
fn test_obj() {
    let mut w = Writer::new(true);
    let mut o = w.object();
    o.put_all(&[("foo", &3), ("a", &"12345 test 123")]);
    o.put("test", &["foo", "bar"] as &[&str]);
    o.put("baz", &Null);
    {
        let _subo = o.begin_object("emptyo");
        _subo.end();
    }
    {
        let _suba = o.begin_array("emptya");
        _suba.end();
    }
    {
        let mut subo2 = o.begin_object("ooo");
        subo2.put("a b c", &float_of(40.45));
        subo2.end();
    }
    {
        let mut suba2 = o.begin_array("aaa");
        for i in 1..=3 {
            suba2.put(i * i);
        }
        suba2.end();
    }
    {
        let mut suba_compact = o.begin_array("aaapak").compact();
        for i in 1..=10 {
            suba_compact.put(i);
        }
        suba_compact.end();
    }
    {
        let mut recs = o.begin_array("recs");
        for i in 1..=3 {
            let mut o = recs.begin_object().compact();
            o.put("foo", &i);
            o.put("bar", &(i * i));
            o.put("baz", &[&format!("{}{}{}", i, i, i)[..]] as &[&str]);
            {
                let mut o2 = o.begin_object("quux");
                o2.put("frob", &(i % 2 == 0));
                o2.end();
            }
            o.end();
        }
        recs.end();
    }
    o.end();
    assert_eq!(&w.finish(), TJSON0)
}

const TJSON0: &str = r#"{
    "foo": 3,
    "a": "12345 test 123",
    "test": [
        "foo",
        "bar"
    ],
    "baz": null,
    "emptyo": {},
    "emptya": [],
    "ooo": {
        "a b c": 40.45
    },
    "aaa": [
        1,
        4,
        9
    ],
    "aaapak": [1,2,3,4,5,6,7,8,9,10],
    "recs": [
        {"foo":1,"bar":1,"baz":["111"],"quux":{"frob":false}},
        {"foo":2,"bar":4,"baz":["222"],"quux":{"frob":true}},
        {"foo":3,"bar":9,"baz":["333"],"quux":{"frob":false}}
    ]
}"#;

#[test]
fn compact_object_skips_omitted_fields() {
    let mut w = Writer::new(false);
    let mut o = w.object();
    o.put("foo", &3);
    o.put("baz", &float_of(f64::NAN));
    {
        let mut a = o.begin_array("bar");
        a.put(1);
        a.put(2);
        a.end();
    }
    o.end();
    assert_eq!(w.finish(), "{\"foo\":3,\"bar\":[1,2]}");
}

fn fields_with(omit: [bool; 3], pretty: bool) -> String {
    let present = 7u64;
    let mut w = Writer::new(pretty);
    let mut o = w.object();
    for (i, name) in ["x", "y", "z"].iter().enumerate() {
        if omit[i] {
            o.put(name, &Undefined);
        } else {
            o.put(name, &present);
        }
    }
    o.end();
    w.finish()
}

#[test]
fn omitted_fields_leave_no_comma_wherever_they_stand() {
    assert_eq!(fields_with([false, false, false], false), r#"{"x":7,"y":7,"z":7}"#);
    assert_eq!(fields_with([true, false, false], false), r#"{"y":7,"z":7}"#);
    assert_eq!(fields_with([false, true, false], false), r#"{"x":7,"z":7}"#);
    assert_eq!(fields_with([false, false, true], false), r#"{"x":7,"y":7}"#);
    assert_eq!(fields_with([true, true, false], false), r#"{"z":7}"#);
    assert_eq!(fields_with([true, false, true], false), r#"{"y":7}"#);
    assert_eq!(fields_with([false, true, true], false), r#"{"x":7}"#);
    assert_eq!(fields_with([true, true, true], false), "{}");
    assert_eq!(fields_with([true, true, true], true), "{}");
    assert_eq!(fields_with([true, false, true], true), "{\n    \"y\": 7\n}");
    assert_eq!(
        fields_with([false, true, false], true),
        "{\n    \"x\": 7,\n    \"z\": 7\n}"
    );
}

#[test]
fn options_and_undefined_are_left_out() {
    let some: Option<u64> = Some(4);
    let none: Option<u64> = None;
    let mut w = Writer::new(false);
    w.put_array(&[&some, &none, &Undefined, &Null, &true]);
    assert_eq!(w.finish(), "[4,null,true]");
    let mut w = Writer::new(false);
    w.put_object(&[("a", &none), ("b", &some), ("c", &Undefined)]);
    assert_eq!(w.finish(), r#"{"b":4}"#);
    assert!(!none.should_include());
    assert!(some.should_include());
    assert!(!Undefined.should_include());
    assert!(Null.should_include());
    let mut w = Writer::new(false);
    Undefined.write_json(&mut w);
    none.write_json(&mut w);
    assert_eq!(w.finish(), "nullnull");
}

#[test]
fn strings_are_escaped() {
    let mut w = Writer::new(false);
    "a\"b\\c/d\u{8}\u{c}\n\r\t\u{0}\u{1f}\u{f}\u{7f}é😋".write_json(&mut w);
    assert_eq!(
        w.finish(),
        "\"a\\\"b\\\\c/d\\b\\f\\n\\r\\t\\u0000\\u001f\\u000f\u{7f}é😋\""
    );
    let mut w = Writer::new(false);
    w.put_escaped("x\ny", false);
    assert_eq!(w.finish(), "x\\ny");
}

#[test]
fn integers_are_written_in_decimal() {
    let mut w = Writer::new(false);
    let mut a = w.array();
    a.put(0u64);
    a.put(u64::MAX);
    a.put(i64::MIN);
    a.put(i64::MAX);
    a.put(-1i32);
    a.put(10usize);
    a.put(1000000i64);
    a.end();
    assert_eq!(
        w.finish(),
        "[0,18446744073709551615,-9223372036854775808,9223372036854775807,-1,10,1000000]"
    );
}

#[test]
fn floats_are_written_with_their_text() {
    let mut w = Writer::new(false);
    let mut a = w.array();
    a.put(float_of(40.45));
    a.put(float_of(f64::NAN));
    a.put(float_of(f64::INFINITY));
    a.put(float_of(f64::NEG_INFINITY));
    a.put(float_of(-0.5));
    a.end();
    let max = format!("{}", f64::MAX);
    assert_eq!(w.finish(), format!("[40.45,{},-{},-0.5]", max, max));
    let mut w = Writer::new(false);
    float_of(f64::NAN).write_json(&mut w);
    assert_eq!(w.finish(), "null");
    assert_eq!(
        Value::from(float_of(f64::NAN)).to_string(false),
        "null"
    );
    assert_eq!(Value::from(float_of(3.0)).to_string(false), "3");
    assert_eq!(Value::from(float_of(-0.0)).to_string(false), "0");
    assert_eq!(Value::from(float_of(1e300)).to_string(false), format!("{}", 1e300));
}

#[test]
fn compact_scope_inside_pretty_document() {
    let mut w = Writer::new(true);
    assert!(w.pretty());
    let mut o = w.object();
    {
        let mut a = o.begin_array("flat");
        a.set_compact();
        a.put(1).put(2);
        {
            let mut inner = a.begin_object();
            inner.put("k", &3);
            inner.end();
        }
        a.end();
    }
    {
        let mut a = o.begin_array("tall");
        a.put(1).put(2);
        a.end();
    }
    o.end();
    assert!(w.pretty());
    assert_eq!(
        w.finish(),
        "{\n    \"flat\": [1,2,{\"k\":3}],\n    \"tall\": [\n        1,\n        2\n    ]\n}"
    );
}

#[test]
fn compact_counter_is_layered() {
    let mut w = Writer::new(true);
    w.push_compact();
    w.push_compact();
    assert!(!w.pretty());
    w.pop_compact();
    assert!(!w.pretty());
    w.pop_compact();
    assert!(w.pretty());
    let w = Writer::new(false);
    assert!(!w.pretty());
}

#[test]
fn iterators_and_slices_are_arrays() {
    let mut w = Writer::new(false);
    w.put_iter(vec![1u64, 2, 3].into_iter());
    assert_eq!(w.finish(), "[1,2,3]");
    let mut w = Writer::new(false);
    let mut a = w.array();
    a.put_iter(["a", "b"].iter());
    a.put_all(&[&1, &Undefined, &"z"]);
    a.end();
    assert_eq!(w.finish(), r#"["a","b",1,"z"]"#);
    let mut w = Writer::new(true);
    let items: &[u64] = &[];
    items.write_json(&mut w);
    assert_eq!(w.finish(), "[]");
    let mut w = Writer::new(true);
    let fields: &[(&str, &dyn WriteJson)] = &[("a", &1), ("b", &Null)];
    fields.write_json(&mut w);
    assert_eq!(w.finish(), "{\n    \"a\": 1,\n    \"b\": null\n}");
}

#[test]
fn value_renders_pretty_and_compact() {
    let mut o = Object::new();
    o.insert(Text::Owned("b".to_string()), Value::Array(vec![Value::from(1), Value::Null]));
    o.insert(Text::Owned("a".to_string()), Value::from("x"));
    o.insert(Text::Owned("c".to_string()), Value::Object(Object::new()));
    o.insert(Text::Owned("d".to_string()), Value::Array(vec![]));
    let v = Value::Object(o);
    assert_eq!(v.to_string(false), r#"{"a":"x","b":[1,null],"c":{},"d":[]}"#);
    assert_eq!(
        v.to_string(true),
        "{\n    \"a\": \"x\",\n    \"b\": [\n        1,\n        null\n    ],\n    \"c\": {},\n    \"d\": []\n}"
    );
    let mut w = Writer::new(false);
    let mut a = w.array();
    a.put(&v);
    a.put(Num::from_i64(-2));
    a.end();
    assert_eq!(w.finish(), r#"[{"a":"x","b":[1,null],"c":{},"d":[]},-2]"#);
}

struct Celsius(i64);

impl WriteJson for Celsius {
    fn write_json(&self, dest: &mut Writer) {
        self.0.write_json(dest)
    }

    fn should_include(&self) -> bool {
        self.0 > -274
    }
}

#[test]
fn user_type_can_render_itself() {
    let mut w = Writer::new(false);
    let mut a = w.array();
    a.put(Celsius(21));
    a.put(Celsius(-300));
    a.put(Celsius(-5));
    a.end();
    assert_eq!(w.finish(), "[21,-5]");
}
