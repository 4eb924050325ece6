//! The value tree.
use vstd::prelude::*;
use crate::num::{float_num, int_float, int_num, num_eq, num_wf, Float, Num, NumView};
use vstd::utf8::encode_utf8;
use crate::text::{
    lemma_bytes_lt_irreflexive, lemma_bytes_lt_transitive, rank, text_lt, Rank, Text,
};

verus! {

/// What a value is in contracts. The fields of an object stand in the order of their
/// keys.
pub enum Json {
    Null,
    Bool(bool),
    Num(NumView),
    Str(Seq<char>),
    Array(Seq<Json>),
    Object(Seq<(Seq<char>, Json)>),
}

/// The keys stand in strictly rising order, so none occurs twice.
pub open spec fn keys_sorted(fields: Seq<(Seq<char>, Json)>) -> bool {
    forall|i: int, j: int| 0 <= i < j < fields.len() ==> text_lt(#[trigger] fields[i].0, #[trigger] fields[j].0)
}

/// Every object in the value has its keys in order, and every number is held in its
/// one form.
pub open spec fn json_wf(j: Json) -> bool
    decreases j,
{
    match j {
        Json::Num(n) => num_wf(n),
        Json::Array(a) => forall|i: int| 0 <= i < a.len() ==> json_wf(#[trigger] a[i]),
        Json::Object(o) => keys_sorted(o) && forall|i: int|
            0 <= i < o.len() ==> json_wf((#[trigger] o[i]).1),
        _ => true,
    }
}

/// The position of the first field with the key, if there is one.
pub open spec fn find_key(fields: Seq<(Seq<char>, Json)>, key: Seq<char>) -> Option<int>
    decreases fields.len(),
{
    if fields.len() == 0 {
        None
    } else {
        match find_key(fields.drop_last(), key) {
            Some(i) => Some(i),
            None => if fields.last().0 == key {
                Some(fields.len() - 1)
            } else {
                None
            },
        }
    }
}

/// The value of the field with the key, if there is one.
pub open spec fn field(fields: Seq<(Seq<char>, Json)>, key: Seq<char>) -> Option<Json> {
    match find_key(fields, key) {
        Some(i) => Some(fields[i].1),
        None => None,
    }
}

/// The number of keys among the fields that come before `key` in the order.
pub open spec fn keys_before(fields: Seq<(Seq<char>, Json)>, key: Seq<char>) -> int
    decreases fields.len(),
{
    if fields.len() == 0 {
        0
    } else {
        keys_before(fields.drop_last(), key) + (if text_lt(fields.last().0, key) {
            1int
        } else {
            0int
        })
    }
}

/// The fields with `key` set to `value`: in place of the field of that key, or as a
/// new field at the key's place in the order.
pub open spec fn with_field(fields: Seq<(Seq<char>, Json)>, key: Seq<char>, value: Json) -> Seq<
    (Seq<char>, Json),
> {
    match find_key(fields, key) {
        Some(i) => fields.update(i, (key, value)),
        None => fields.insert(keys_before(fields, key), (key, value)),
    }
}

/// A JSON value.
#[derive(Debug)]
pub enum Value<'a> {
    Null,
    Bool(bool),
    Num(Num),
    Str(Text<'a>),
    Array(Vec<Value<'a>>),
    Object(Object<'a>),
}

/// The fields of a JSON object: a map from keys to values, held in the order of the
/// keys.
#[derive(Debug)]
pub struct Object<'a> {
    entries: Vec<(Text<'a>, Value<'a>)>,
}

/// The fields of an object, in contracts.
pub closed spec fn fields_of(o: Object<'_>) -> Seq<(Seq<char>, Json)>
    decreases o,
{
    Seq::new(
        o.entries@.len(),
        |i: int|
            if 0 <= i < o.entries@.len() {
                (o.entries@[i].0@, json_of(o.entries@[i].1))
            } else {
                (Seq::empty(), Json::Null)
            },
    )
}

/// A value, in contracts.
pub open spec fn json_of(v: Value<'_>) -> Json
    decreases v,
{
    match v {
        Value::Null => Json::Null,
        Value::Bool(b) => Json::Bool(b),
        Value::Num(n) => Json::Num(n@),
        Value::Str(s) => Json::Str(s@),
        Value::Array(a) => Json::Array(
            Seq::new(
                a@.len(),
                |i: int|
                    if 0 <= i < a@.len() {
                        json_of(a@[i])
                    } else {
                        Json::Null
                    },
            ),
        ),
        Value::Object(o) => Json::Object(fields_of(o)),
    }
}

/// No key or string among the fields of the object is a part of an input.
pub closed spec fn fields_owned(o: Object<'_>) -> bool
    decreases o,
{
    forall|i: int|
        0 <= i < o.entries@.len() ==> (#[trigger] o.entries@[i]).0 is Owned && owned(
            o.entries@[i].1,
        )
}

/// No string in the value is a part of an input: the value stands on its own.
pub open spec fn owned(v: Value<'_>) -> bool
    decreases v,
{
    match v {
        Value::Str(s) => s is Owned,
        Value::Array(a) => forall|i: int| 0 <= i < a@.len() ==> owned(#[trigger] a@[i]),
        Value::Object(o) => fields_owned(o),
        _ => true,
    }
}

impl<'a> View for Object<'a> {
    type V = Seq<(Seq<char>, Json)>;

    open spec fn view(&self) -> Seq<(Seq<char>, Json)> {
        fields_of(*self)
    }
}

impl<'a> View for Value<'a> {
    type V = Json;

    open spec fn view(&self) -> Json {
        json_of(*self)
    }
}

/// The key is at `i` and nowhere before.
pub proof fn lemma_find_key_at(fields: Seq<(Seq<char>, Json)>, key: Seq<char>, i: int)
    requires
        0 <= i < fields.len(),
        fields[i].0 == key,
        forall|j: int| 0 <= j < i ==> (#[trigger] fields[j]).0 != key,
    ensures
        find_key(fields, key) == Some(i),
    decreases fields.len(),
{
    if i < fields.len() - 1 {
        lemma_find_key_at(fields.drop_last(), key, i);
    } else {
        lemma_find_key_none(fields.drop_last(), key);
    }
}

/// The key is nowhere.
pub proof fn lemma_find_key_none(fields: Seq<(Seq<char>, Json)>, key: Seq<char>)
    requires
        forall|j: int| 0 <= j < fields.len() ==> (#[trigger] fields[j]).0 != key,
    ensures
        find_key(fields, key) is None,
    decreases fields.len(),
{
    if fields.len() > 0 {
        lemma_find_key_none(fields.drop_last(), key);
    }
}

/// Where a key is found, it stands.
pub proof fn lemma_find_key_found(fields: Seq<(Seq<char>, Json)>, key: Seq<char>)
    ensures
        match find_key(fields, key) {
            Some(i) => 0 <= i < fields.len() && fields[i].0 == key && forall|j: int|
                0 <= j < i ==> (#[trigger] fields[j]).0 != key,
            None => forall|j: int| 0 <= j < fields.len() ==> (#[trigger] fields[j]).0 != key,
        },
    decreases fields.len(),
{
    if fields.len() > 0 {
        lemma_find_key_found(fields.drop_last(), key);
        match find_key(fields.drop_last(), key) {
            Some(i) => {
                assert(fields.drop_last()[i] == fields[i]);
                assert forall|j: int| 0 <= j < i implies (#[trigger] fields[j]).0 != key by {
                    assert(fields.drop_last()[j] == fields[j]);
                }
            },
            None => {
                assert forall|j: int| 0 <= j < fields.len() - 1 implies (#[trigger] fields[j]).0
                    != key by {
                    assert(fields.drop_last()[j] == fields[j]);
                }
            },
        }
    }
}

/// The keys up to `i`, and no others, come before `key`.
pub proof fn lemma_keys_before(fields: Seq<(Seq<char>, Json)>, key: Seq<char>, i: int)
    requires
        0 <= i <= fields.len(),
        forall|j: int| 0 <= j < i ==> text_lt((#[trigger] fields[j]).0, key),
        forall|j: int| i <= j < fields.len() ==> !text_lt((#[trigger] fields[j]).0, key),
    ensures
        keys_before(fields, key) == i,
    decreases fields.len(),
{
    if fields.len() > 0 {
        let rest = fields.drop_last();
        assert forall|j: int| 0 <= j < rest.len() implies rest[j] == fields[j] by {}
        if i == fields.len() {
            assert(text_lt(fields[i - 1].0, key));
            lemma_keys_before(rest, key, i - 1);
        } else {
            assert(!text_lt(fields[fields.len() - 1].0, key));
            lemma_keys_before(rest, key, i);
        }
    }
}

/// The order of texts is transitive.
pub proof fn lemma_text_lt_transitive(a: Seq<char>, b: Seq<char>, c: Seq<char>)
    requires
        text_lt(a, b),
        text_lt(b, c),
    ensures
        text_lt(a, c),
{
    lemma_bytes_lt_transitive(encode_utf8(a), encode_utf8(b), encode_utf8(c));
}

/// No text comes before itself.
pub proof fn lemma_text_lt_irreflexive(a: Seq<char>)
    ensures
        !text_lt(a, a),
{
    lemma_bytes_lt_irreflexive(encode_utf8(a));
}

/// Setting a field keeps the keys in order and puts the value where the key is found.
pub proof fn lemma_with_field(fields: Seq<(Seq<char>, Json)>, key: Seq<char>, value: Json)
    requires
        keys_sorted(fields),
    ensures
        keys_sorted(with_field(fields, key, value)),
        find_key(with_field(fields, key, value), key) == Some(
            match find_key(fields, key) {
                Some(i) => i,
                None => keys_before(fields, key),
            },
        ),
        field(with_field(fields, key, value), key) == Some(value),
        0 <= keys_before(fields, key) <= fields.len(),
{
    let out = with_field(fields, key, value);
    lemma_find_key_found(fields, key);
    lemma_keys_before_bounds(fields, key);
    match find_key(fields, key) {
        Some(i) => {
            assert forall|a: int, b: int| 0 <= a < b < out.len() implies text_lt(
                #[trigger] out[a].0,
                #[trigger] out[b].0,
            ) by {
                assert(text_lt(fields[a].0, fields[b].0));
            }
            assert forall|j: int| 0 <= j < i implies (#[trigger] out[j]).0 != key by {
                assert(fields[j].0 != key);
            }
            lemma_find_key_at(out, key, i);
        },
        None => {
            let i = keys_before(fields, key);
            lemma_keys_before_split(fields, key);
            assert forall|a: int, b: int| 0 <= a < b < out.len() implies text_lt(
                #[trigger] out[a].0,
                #[trigger] out[b].0,
            ) by {
                let a0 = if a < i { a } else { a - 1 };
                let b0 = if b < i { b } else { b - 1 };
                if a == i {
                    assert(out[b].0 == fields[b0].0);
                    assert(!text_lt(fields[b0].0, key));
                    assert(fields[b0].0 != key);
                    lemma_text_trichotomy(fields[b0].0, key);
                } else if b == i {
                    assert(out[a].0 == fields[a0].0);
                    assert(text_lt(fields[a0].0, key));
                } else {
                    assert(out[a].0 == fields[a0].0);
                    assert(out[b].0 == fields[b0].0);
                    assert(text_lt(fields[a0].0, fields[b0].0));
                }
            }
            assert forall|j: int| 0 <= j < i implies (#[trigger] out[j]).0 != key by {
                assert(out[j].0 == fields[j].0);
            }
            lemma_find_key_at(out, key, i);
        },
    }
}

/// Of two texts that differ, one comes before the other.
pub proof fn lemma_text_trichotomy(a: Seq<char>, b: Seq<char>)
    ensures
        text_lt(a, b) || a == b || text_lt(b, a),
{
    lemma_bytes_trichotomy(encode_utf8(a), encode_utf8(b));
    if encode_utf8(a) == encode_utf8(b) {
        crate::text::lemma_encode_injective(a, b);
    }
}

/// Of two byte strings that differ, one comes before the other.
pub proof fn lemma_bytes_trichotomy(a: Seq<u8>, b: Seq<u8>)
    ensures
        crate::text::bytes_lt(a, b) || a == b || crate::text::bytes_lt(b, a),
    decreases a.len(),
{
    if a.len() == 0 || b.len() == 0 {
        if a.len() == 0 && b.len() == 0 {
            assert(a =~= b);
        }
    } else if a[0] == b[0] {
        lemma_bytes_trichotomy(a.drop_first(), b.drop_first());
        if a.drop_first() == b.drop_first() {
            assert(a =~= seq![a[0]] + a.drop_first());
            assert(b =~= seq![b[0]] + b.drop_first());
        }
    }
}

/// The number of keys before a key lies within the number of fields.
pub proof fn lemma_keys_before_bounds(fields: Seq<(Seq<char>, Json)>, key: Seq<char>)
    ensures
        0 <= keys_before(fields, key) <= fields.len(),
    decreases fields.len(),
{
    if fields.len() > 0 {
        lemma_keys_before_bounds(fields.drop_last(), key);
    }
}

/// Among sorted fields, the keys before a key are the first ones.
pub proof fn lemma_keys_before_split(fields: Seq<(Seq<char>, Json)>, key: Seq<char>)
    requires
        keys_sorted(fields),
    ensures
        forall|j: int| 0 <= j < keys_before(fields, key) ==> text_lt((#[trigger] fields[j]).0, key),
        forall|j: int|
            keys_before(fields, key) <= j < fields.len() ==> !text_lt((#[trigger] fields[j]).0, key),
    decreases fields.len(),
{
    lemma_keys_before_bounds(fields, key);
    if fields.len() > 0 {
        let rest = fields.drop_last();
        let last = fields.last();
        assert forall|a: int, b: int| 0 <= a < b < rest.len() implies text_lt(
            #[trigger] rest[a].0,
            #[trigger] rest[b].0,
        ) by {
            assert(text_lt(fields[a].0, fields[b].0));
        }
        lemma_keys_before_split(rest, key);
        lemma_keys_before_bounds(rest, key);
        let n = keys_before(rest, key);
        assert forall|j: int| 0 <= j < rest.len() implies rest[j] == fields[j] by {}
        if text_lt(last.0, key) {
            assert forall|j: int| 0 <= j < rest.len() implies text_lt((#[trigger] fields[j]).0, key) by {
                assert(text_lt(fields[j].0, fields[fields.len() - 1].0));
                lemma_text_lt_transitive(fields[j].0, last.0, key);
            }
            if n < rest.len() {
                assert(!text_lt(rest[n].0, key));
                assert(false);
            }
        }
    }
}

impl<'a> Object<'a> {
    /// The keys stand in strictly rising order.
    pub open spec fn sorted(&self) -> bool {
        keys_sorted(self@)
    }

    /// An object without fields.
    pub fn new() -> (o: Object<'a>)
        ensures
            o@ == Seq::<(Seq<char>, Json)>::empty(),
            o.sorted(),
    {
        let o = Object { entries: Vec::new() };
        proof {
            assert(o@ =~= Seq::<(Seq<char>, Json)>::empty());
        }
        o
    }

    /// The number of fields.
    pub fn len(&self) -> (n: usize)
        ensures
            n == self@.len(),
    {
        self.entries.len()
    }

    /// Whether there is no field.
    pub fn is_empty(&self) -> (b: bool)
        ensures
            b == (self@.len() == 0),
    {
        self.entries.len() == 0
    }

    /// The value of a field is smaller than the object, for recursion over it.
    pub proof fn lemma_child_smaller(&self, i: int)
        requires
            0 <= i < self@.len(),
        ensures
            decreases_to!(self => self.child(i)),
    {
        assert(decreases_to!(self => self.entries));
        assert(decreases_to!(self.entries => self.entries@[i]));
        assert(decreases_to!(self.entries@[i] => self.entries@[i].1));
    }

    /// The value of the field at a position.
    pub closed spec fn child(&self, i: int) -> Value<'a> {
        self.entries@[i].1
    }

    /// The key of the field at a position.
    pub fn key_at(&self, i: usize) -> (k: &str)
        requires
            i < self@.len(),
        ensures
            k@ == self@[i as int].0,
    {
        self.entries[i].0.as_str()
    }

    /// The value of the field at a position.
    pub fn value_at(&self, i: usize) -> (v: &Value<'a>)
        requires
            i < self@.len(),
        ensures
            v@ == self@[i as int].1,
            *v == self.child(i as int),
    {
        &self.entries[i].1
    }

    /// The position of the field with the key, if there is one.
    pub fn position(&self, key: &str) -> (r: Option<usize>)
        ensures
            match r {
                Some(i) => find_key(self@, key@) == Some(i as int),
                None => find_key(self@, key@) is None,
            },
    {
        let mut i: usize = 0;
        while i < self.entries.len()
            invariant
                i <= self.entries@.len(),
                forall|j: int| 0 <= j < i ==> (#[trigger] self@[j]).0 != key@,
            decreases self.entries@.len() - i,
        {
            if rank(self.entries[i].0.as_str(), key) == Rank::Same {
                proof {
                    lemma_find_key_at(self@, key@, i as int);
                }
                return Some(i);
            }
            i += 1;
        }
        proof {
            lemma_find_key_none(self@, key@);
        }
        None
    }

    /// The value of the field with the key, if there is one.
    pub fn get(&self, key: &str) -> (r: Option<&Value<'a>>)
        ensures
            match field(self@, key@) {
                Some(v) => r is Some && r->0@ == v,
                None => r is None,
            },
    {
        proof {
            lemma_find_key_found(self@, key@);
        }
        match self.position(key) {
            Some(i) => {
                proof {
                    assert(self@[i as int].1 == self.entries@[i as int].1@);
                }
                Some(&self.entries[i].1)
            },
            None => None,
        }
    }

    /// The value of the field with the key, to be changed in place, if there is one.
    pub fn get_mut(&mut self, key: &str) -> (r: Option<&mut Value<'a>>)
        ensures
            match find_key(old(self)@, key@) {
                Some(i) => r is Some && (*r->0)@ == old(self)@[i].1 && final(self)@ =~= old(self)@.update(
                    i,
                    (key@, (*final(r->0))@),
                ),
                None => r is None && final(self)@ == old(self)@,
            },
    {
        proof {
            lemma_find_key_found(self@, key@);
        }
        match self.position(key) {
            Some(i) => {
                proof {
                    assert(self@[i as int].1 == self.entries@[i as int].1@);
                }
                let slot = &mut self.entries[i];
                Some(&mut slot.1)
            },
            None => None,
        }
    }

    /// The value of the field with the key, to be changed in place. Where there is no
    /// such field, one is made with the value `null`.
    pub fn entry(&mut self, key: &str) -> (r: &mut Value<'a>)
        requires
            old(self).sorted(),
        ensures
            (*r)@ == (match field(old(self)@, key@) {
                Some(v) => v,
                None => Json::Null,
            }),
            final(self)@ =~= with_field(old(self)@, key@, (*final(r))@),
            final(self).sorted(),
    {
        let ghost fields = self@;
        proof {
            lemma_find_key_found(fields, key@);
            assert forall|x: Json| keys_sorted(#[trigger] with_field(fields, key@, x)) by {
                lemma_with_field(fields, key@, x);
            }
        }
        let i = match self.position(key) {
            Some(i) => i,
            None => {
                let k: Text<'a> = Text::Owned(key.to_owned());
                self.insert(k, Value::Null);
                proof {
                    lemma_with_field(fields, key@, Json::Null);
                    lemma_find_key_found(self@, key@);
                }
                match self.position(key) {
                    Some(i) => i,
                    None => 0,
                }
            },
        };
        proof {
            assert(self@[i as int].1 == self.entries@[i as int].1@);
            assert(self@[i as int].0 == self.entries@[i as int].0@);
            assert(self@[i as int].0 == key@);
            let mid = self@;
            assert forall|x: Json| #[trigger] with_field(fields, key@, x) == mid.update(
                i as int,
                (key@, x),
            ) by {
                assert(with_field(fields, key@, x) =~= mid.update(i as int, (key@, x)));
            }
            assert(keys_sorted(mid)) by {
                lemma_with_field(fields, key@, Json::Null);
            }
            let ents = self.entries@;
            assert forall|a: int| 0 <= a < ents.len() implies (#[trigger] ents[a]).0@ == mid[a].0 by {}
        }
        let slot = &mut self.entries[i];
        &mut slot.1
    }

    /// Whether there is a field with the key.
    pub fn contains_key(&self, key: &str) -> (b: bool)
        ensures
            b == (find_key(self@, key@) is Some),
    {
        self.position(key).is_some()
    }

    /// Sets the field with the key to the value, as a new field if there is none with
    /// that key, and gives the value that the field had.
    pub fn insert(&mut self, key: Text<'a>, value: Value<'a>) -> (r: Option<Value<'a>>)
        requires
            old(self).sorted(),
        ensures
            final(self).sorted(),
            final(self)@ == with_field(old(self)@, key@, value@),
            match field(old(self)@, key@) {
                Some(v) => r is Some && r->0@ == v,
                None => r is None,
            },
    {
        let ghost fields = self@;
        let mut i: usize = 0;
        while i < self.entries.len() && rank(self.entries[i].0.as_str(), key.as_str()) == Rank::Before
            invariant
                i <= self.entries@.len(),
                self@ == fields,
                forall|j: int| 0 <= j < i ==> text_lt((#[trigger] fields[j]).0, key@),
            decreases self.entries@.len() - i,
        {
            i += 1;
        }
        if i < self.entries.len() && rank(self.entries[i].0.as_str(), key.as_str()) == Rank::Same {
            proof {
                assert forall|j: int| 0 <= j < i implies (#[trigger] fields[j]).0 != key@ by {
                    lemma_text_lt_irreflexive(key@);
                }
                assert(fields[i as int].0 == key@);
                lemma_find_key_at(fields, key@, i as int);
            }
            let mut slot = (key, value);
            core::mem::swap(&mut self.entries[i], &mut slot);
            proof {
                assert(self@ =~= fields.update(i as int, (key@, value@)));
                assert forall|a: int, b: int| 0 <= a < b < self@.len() implies text_lt(
                    #[trigger] self@[a].0,
                    #[trigger] self@[b].0,
                ) by {
                    assert(text_lt(fields[a].0, fields[b].0));
                }
            }
            return Some(slot.1);
        }
        proof {
            assert forall|j: int| i <= j < fields.len() implies !text_lt(
                (#[trigger] fields[j]).0,
                key@,
            ) by {
                if text_lt(fields[j].0, key@) {
                    if j > i {
                        assert(text_lt(fields[i as int].0, fields[j].0));
                        lemma_text_lt_transitive(fields[i as int].0, fields[j].0, key@);
                    }
                }
            }
            lemma_keys_before(fields, key@, i as int);
            assert forall|j: int| 0 <= j < fields.len() implies (#[trigger] fields[j]).0 != key@ by {
                if j < i {
                    lemma_text_lt_irreflexive(key@);
                } else if j > i {
                    assert(text_lt(fields[i as int].0, fields[j].0));
                    if fields[j].0 == key@ {
                        assert(text_lt(fields[i as int].0, key@));
                    }
                }
            }
            lemma_find_key_none(fields, key@);
        }
        self.entries.insert(i, (key, value));
        proof {
            assert(self@ =~= fields.insert(i as int, (key@, value@)));
            assert forall|a: int, b: int| 0 <= a < b < self@.len() implies text_lt(
                #[trigger] self@[a].0,
                #[trigger] self@[b].0,
            ) by {
                let a0 = if a < i { a } else { a - 1 };
                let b0 = if b < i { b } else { b - 1 };
                if a == i {
                    assert(self@[b].0 == fields[b0].0);
                    assert(text_lt(key@, fields[i as int].0));
                    if b0 > i {
                        assert(text_lt(fields[i as int].0, fields[b0].0));
                        lemma_text_lt_transitive(key@, fields[i as int].0, fields[b0].0);
                    }
                } else if b == i {
                    assert(self@[a].0 == fields[a0].0);
                } else {
                    assert(self@[a].0 == fields[a0].0);
                    assert(self@[b].0 == fields[b0].0);
                    assert(text_lt(fields[a0].0, fields[b0].0));
                }
            }
        }
        None
    }
}

/// Whether two values are equal: numbers as numbers, arrays element by element,
/// objects field by field in the order of their keys.
pub open spec fn json_eq(a: Json, b: Json) -> bool
    decreases a,
{
    match (a, b) {
        (Json::Null, Json::Null) => true,
        (Json::Bool(x), Json::Bool(y)) => x == y,
        (Json::Num(x), Json::Num(y)) => num_eq(x, y),
        (Json::Str(x), Json::Str(y)) => x == y,
        (Json::Array(x), Json::Array(y)) => x.len() == y.len() && forall|i: int|
            0 <= i < x.len() ==> json_eq(#[trigger] x[i], y[i]),
        (Json::Object(x), Json::Object(y)) => x.len() == y.len() && forall|i: int|
            0 <= i < x.len() ==> (#[trigger] x[i]).0 == y[i].0 && json_eq(x[i].1, y[i].1),
        _ => false,
    }
}

/// The items in the opposite order.
pub fn reversed<T>(v: Vec<T>) -> (r: Vec<T>)
    ensures
        r@.len() == v@.len(),
        forall|j: int| 0 <= j < r@.len() ==> (#[trigger] r@[j]) == v@[v@.len() - 1 - j],
{
    let ghost items = v@;
    let mut src = v;
    let mut out: Vec<T> = Vec::new();
    while src.len() > 0
        invariant
            src@.len() <= items.len(),
            src@ == items.take(src@.len() as int),
            out@.len() == items.len() - src@.len(),
            forall|j: int| 0 <= j < out@.len() ==> (#[trigger] out@[j]) == items[items.len() - 1 - j],
        decreases src@.len(),
    {
        let ghost n = src@.len();
        let x = src.pop().unwrap();
        proof {
            assert(src@ =~= items.take(n - 1));
        }
        out.push(x);
    }
    out
}

impl<'a> Object<'a> {
    /// Whether two objects have equal fields.
    pub fn same(&self, other: &Object<'_>) -> (r: bool)
        ensures
            r == json_eq(Json::Object(self@), Json::Object(other@)),
        decreases self,
    {
        if self.entries.len() != other.entries.len() {
            return false;
        }
        let mut i: usize = 0;
        while i < self.entries.len()
            invariant
                i <= self.entries@.len(),
                self.entries@.len() == other.entries@.len(),
                forall|j: int|
                    0 <= j < i ==> (#[trigger] self@[j]).0 == other@[j].0 && json_eq(
                        self@[j].1,
                        other@[j].1,
                    ),
            decreases self.entries@.len() - i,
        {
            proof {
                assert(self@[i as int] == (self.entries@[i as int].0@, self.entries@[i as int].1@));
                assert(other@[i as int] == (other.entries@[i as int].0@, other.entries@[i as int].1@));
                assert(decreases_to!(self => self.entries));
                assert(decreases_to!(self.entries => self.entries@[i as int]));
                assert(decreases_to!(self.entries@[i as int] => self.entries@[i as int].1));
            }
            if rank(self.entries[i].0.as_str(), other.entries[i].0.as_str()) != Rank::Same {
                return false;
            }
            if !self.entries[i].1.same(&other.entries[i].1) {
                return false;
            }
            i += 1;
        }
        true
    }

    /// A copy of the object.
    pub fn duplicate(&self) -> (r: Object<'a>)
        ensures
            r@ == self@,
        decreases self,
    {
        let mut out: Vec<(Text<'a>, Value<'a>)> = Vec::new();
        let mut i: usize = 0;
        while i < self.entries.len()
            invariant
                i <= self.entries@.len(),
                out@.len() == i,
                forall|j: int|
                    0 <= j < i ==> (#[trigger] out@[j]).0@ == self.entries@[j].0@ && out@[j].1@
                        == self.entries@[j].1@,
            decreases self.entries@.len() - i,
        {
            proof {
                assert(decreases_to!(self => self.entries));
                assert(decreases_to!(self.entries => self.entries@[i as int]));
                assert(decreases_to!(self.entries@[i as int] => self.entries@[i as int].1));
            }
            let k = self.entries[i].0.clone();
            let v = self.entries[i].1.duplicate();
            out.push((k, v));
            i += 1;
        }
        let r = Object { entries: out };
        proof {
            assert(r@ =~= self@);
        }
        r
    }

    /// The same object, free of the input it was read from.
    pub fn into_static(self) -> (r: Object<'static>)
        ensures
            r@ == self@,
            fields_owned(r),
        decreases self,
    {
        let ghost fields = self@;
        let ghost ents = self.entries@;
        let mut src = self.entries;
        let mut out: Vec<(Text<'static>, Value<'static>)> = Vec::new();
        proof {
            assert(decreases_to!(self => self.entries));
        }
        while src.len() > 0
            invariant
                src@.len() <= ents.len(),
                src@ == ents.take(src@.len() as int),
                fields.len() == ents.len(),
                forall|j: int| 0 <= j < ents.len() ==> fields[j] == ((#[trigger] ents[j]).0@, ents[j].1@),
                forall|j: int| 0 <= j < ents.len() ==> decreases_to!(self => (#[trigger] ents[j]).1),
                out@.len() == ents.len() - src@.len(),
                forall|j: int|
                    0 <= j < out@.len() ==> ((#[trigger] out@[j]).0@, out@[j].1@) == fields[ents.len()
                        - 1 - j],
                forall|j: int| 0 <= j < out@.len() ==> (#[trigger] out@[j]).0 is Owned && owned(out@[j].1),
            decreases src@.len(),
        {
            let ghost n = src@.len();
            let (k, v) = src.pop().unwrap();
            proof {
                assert(src@ =~= ents.take(n - 1));
                assert((k, v) == ents[n - 1]);
            }
            out.push((k.into_static(), v.into_static()));
        }
        let rev = reversed(out);
        let r = Object { entries: rev };
        proof {
            assert(r@ =~= fields);
        }
        r
    }
}

impl<'a> Value<'a> {
    /// Whether two values are equal.
    pub fn same(&self, other: &Value<'_>) -> (r: bool)
        ensures
            r == json_eq(self@, other@),
        decreases self,
    {
        match (self, other) {
            (Value::Null, Value::Null) => true,
            (Value::Bool(x), Value::Bool(y)) => *x == *y,
            (Value::Num(x), Value::Num(y)) => x == y,
            (Value::Str(x), Value::Str(y)) => rank(x.as_str(), y.as_str()) == Rank::Same,
            (Value::Array(x), Value::Array(y)) => {
                if x.len() != y.len() {
                    return false;
                }
                let mut i: usize = 0;
                while i < x.len()
                    invariant
                        i <= x@.len(),
                        x@.len() == y@.len(),
                        *self == Value::Array(*x),
                        *other == Value::Array(*y),
                        forall|j: int| 0 <= j < i ==> json_eq((#[trigger] x@[j])@, y@[j]@),
                    decreases x@.len() - i,
                {
                    proof {
                        assert(decreases_to!(self => self->Array_0));
                    }
                    if !x[i].same(&y[i]) {
                        proof {
                            assert(!json_eq(self@->Array_0[i as int], other@->Array_0[i as int]));
                        }
                        return false;
                    }
                    i += 1;
                }
                proof {
                    assert forall|j: int| 0 <= j < self@->Array_0.len() implies json_eq(
                        #[trigger] self@->Array_0[j],
                        other@->Array_0[j],
                    ) by {
                        assert(json_eq(x@[j]@, y@[j]@));
                    }
                }
                true
            },
            (Value::Object(x), Value::Object(y)) => x.same(y),
            _ => false,
        }
    }

    /// The same value, free of the input it was read from: every string that was
    /// borrowed from the input is copied.
    pub fn into_static(self) -> (r: Value<'static>)
        ensures
            r@ == self@,
            owned(r),
        decreases self,
    {
        match self {
            Value::Null => Value::Null,
            Value::Bool(b) => Value::Bool(b),
            Value::Num(n) => Value::Num(n),
            Value::Str(s) => Value::Str(s.into_static()),
            Value::Array(a) => {
                let ghost items = a@;
                let mut src = a;
                let mut out: Vec<Value<'static>> = Vec::new();
                proof {
                    assert(decreases_to!(self => self->Array_0));
                }
                while src.len() > 0
                    invariant
                        src@.len() <= items.len(),
                        src@ == items.take(src@.len() as int),
                        forall|j: int| 0 <= j < items.len() ==> decreases_to!(self => #[trigger] items[j]),
                        out@.len() == items.len() - src@.len(),
                        forall|j: int|
                            0 <= j < out@.len() ==> (#[trigger] out@[j])@ == items[items.len() - 1 - j]@,
                        forall|j: int| 0 <= j < out@.len() ==> owned(#[trigger] out@[j]),
                    decreases src@.len(),
                {
                    let ghost n = src@.len();
                    let v = src.pop().unwrap();
                    proof {
                        assert(src@ =~= items.take(n - 1));
                        assert(v == items[n - 1]);
                    }
                    out.push(v.into_static());
                }
                let rev = reversed(out);
                let r = Value::Array(rev);
                proof {
                    assert(r@->Array_0 =~= self@->Array_0);
                }
                r
            },
            Value::Object(o) => Value::Object(o.into_static()),
        }
    }

    /// A copy of the value.
    pub fn duplicate(&self) -> (r: Value<'a>)
        ensures
            r@ == self@,
        decreases self,
    {
        match self {
            Value::Null => Value::Null,
            Value::Bool(b) => Value::Bool(*b),
            Value::Num(n) => Value::Num(n.clone()),
            Value::Str(s) => Value::Str(s.clone()),
            Value::Array(a) => {
                let mut out: Vec<Value<'a>> = Vec::new();
                let mut i: usize = 0;
                while i < a.len()
                    invariant
                        i <= a@.len(),
                        out@.len() == i,
                        *self == Value::Array(*a),
                        forall|j: int| 0 <= j < i ==> (#[trigger] out@[j])@ == a@[j]@,
                    decreases a@.len() - i,
                {
                    proof {
                        assert(decreases_to!(self => self->Array_0));
                    }
                    out.push(a[i].duplicate());
                    i += 1;
                }
                let r = Value::Array(out);
                proof {
                    assert(r@->Array_0 =~= self@->Array_0);
                }
                r
            },
            Value::Object(o) => Value::Object(o.duplicate()),
        }
    }
}

impl<'a> Clone for Value<'a> {
    fn clone(&self) -> (r: Value<'a>)
        ensures
            r@ == self@,
    {
        self.duplicate()
    }
}

impl<'a> Clone for Object<'a> {
    fn clone(&self) -> (r: Object<'a>)
        ensures
            r@ == self@,
    {
        self.duplicate()
    }
}

impl<'a> PartialEq for Value<'a> {
    fn eq(&self, other: &Value<'a>) -> (r: bool) {
        self.same(other)
    }
}

impl<'a> vstd::std_specs::cmp::PartialEqSpecImpl for Value<'a> {
    open spec fn obeys_eq_spec() -> bool {
        true
    }

    open spec fn eq_spec(&self, other: &Value<'a>) -> bool {
        json_eq(self@, other@)
    }
}

impl<'a> PartialEq for Object<'a> {
    fn eq(&self, other: &Object<'a>) -> (r: bool) {
        self.same(other)
    }
}

impl<'a> vstd::std_specs::cmp::PartialEqSpecImpl for Object<'a> {
    open spec fn obeys_eq_spec() -> bool {
        true
    }

    open spec fn eq_spec(&self, other: &Object<'a>) -> bool {
        json_eq(Json::Object(self@), Json::Object(other@))
    }
}




/// The element of an array at a position, if the value is an array that has one.
pub open spec fn element(j: Json, i: int) -> Option<Json> {
    match j {
        Json::Array(a) => if 0 <= i < a.len() {
            Some(a[i])
        } else {
            None
        },
        _ => None,
    }
}

/// The value of a field of an object, if the value is an object that has the field.
pub open spec fn member(j: Json, key: Seq<char>) -> Option<Json> {
    match j {
        Json::Object(o) => field(o, key),
        _ => None,
    }
}

impl<'a> core::ops::Index<usize> for Value<'a> {
    type Output = Value<'a>;

    /// The element at a position, or `null` where there is none.
    fn index(&self, i: usize) -> (r: &Value<'a>)
        ensures
            r@ == (match element(self@, i as int) {
                Some(v) => v,
                None => Json::Null,
            }),
    {
        match self.at(i) {
            Some(v) => v,
            None => &Value::Null,
        }
    }
}

impl<'a> core::ops::Index<&str> for Value<'a> {
    type Output = Value<'a>;

    /// The value of a field, or `null` where there is none.
    fn index(&self, key: &str) -> (r: &Value<'a>)
        ensures
            r@ == (match member(self@, key@) {
                Some(v) => v,
                None => Json::Null,
            }),
    {
        match self.get(key) {
            Some(v) => v,
            None => &Value::Null,
        }
    }
}

impl<'a> Default for Value<'a> {
    fn default() -> (v: Value<'a>)
        ensures
            v@ == Json::Null,
    {
        Value::Null
    }
}

impl<'a> Value<'a> {
    /// Whether the value is `null`.
    pub fn is_null(&self) -> (b: bool)
        ensures
            b == (self@ is Null),
    {
        match self {
            Value::Null => true,
            _ => false,
        }
    }

    /// Whether the value is a boolean.
    pub fn is_bool(&self) -> (b: bool)
        ensures
            b == (self@ is Bool),
    {
        match self {
            Value::Bool(_) => true,
            _ => false,
        }
    }

    /// Whether the value is a number.
    pub fn is_number(&self) -> (b: bool)
        ensures
            b == (self@ is Num),
    {
        match self {
            Value::Num(_) => true,
            _ => false,
        }
    }

    /// Whether the value is a string.
    pub fn is_str(&self) -> (b: bool)
        ensures
            b == (self@ is Str),
    {
        match self {
            Value::Str(_) => true,
            _ => false,
        }
    }

    /// Whether the value is an array.
    pub fn is_array(&self) -> (b: bool)
        ensures
            b == (self@ is Array),
    {
        match self {
            Value::Array(_) => true,
            _ => false,
        }
    }

    /// Whether the value is an object.
    pub fn is_object(&self) -> (b: bool)
        ensures
            b == (self@ is Object),
    {
        match self {
            Value::Object(_) => true,
            _ => false,
        }
    }

    /// The boolean, if the value is one.
    pub fn as_bool(&self) -> (r: Option<bool>)
        ensures
            r == (match self@ {
                Json::Bool(b) => Some(b),
                _ => None,
            }),
    {
        match self {
            Value::Bool(b) => Some(*b),
            _ => None,
        }
    }

    /// The number as the bit pattern of a float, if the value is a float or an integer
    /// that a float equals. The largest `u64` gives two to the power 64.
    pub fn as_f64(&self) -> (r: Option<u64>)
        ensures
            r == (match self@ {
                Json::Num(NumView::Float(f)) => Some(f.bits),
                Json::Num(NumView::Int(x)) => if x == u64::MAX {
                    Some(0x43F0_0000_0000_0000u64)
                } else {
                    int_float(x)
                },
                _ => None,
            }),
    {
        match self {
            Value::Num(n) => n.as_f64(),
            _ => None,
        }
    }

    /// The number as an `i64`, if the value is an integer below `i64::MAX`.
    pub fn as_i64(&self) -> (r: Option<i64>)
        ensures
            r == (match self@ {
                Json::Num(NumView::Int(x)) => if x < i64::MAX {
                    Some(x as i64)
                } else {
                    None
                },
                _ => None,
            }),
    {
        match self {
            Value::Num(n) => n.as_i64(),
            _ => None,
        }
    }

    /// The number as a `u64`, if the value is an integer that is not negative.
    pub fn as_u64(&self) -> (r: Option<u64>)
        ensures
            r == (match self@ {
                Json::Num(NumView::Int(x)) => if x >= 0 {
                    Some(x as u64)
                } else {
                    None
                },
                _ => None,
            }),
    {
        match self {
            Value::Num(n) => n.as_u64(),
            _ => None,
        }
    }

    /// The text, if the value is a string.
    pub fn as_str(&self) -> (r: Option<&str>)
        ensures
            match self@ {
                Json::Str(s) => r is Some && r->0@ == s,
                _ => r is None,
            },
    {
        match self {
            Value::Str(s) => Some(s.as_str()),
            _ => None,
        }
    }

    /// The elements, if the value is an array.
    pub fn as_array(&self) -> (r: Option<&[Value<'a>]>)
        ensures
            match self {
                Value::Array(a) => r is Some && r->0@ == a@,
                _ => r is None,
            },
    {
        match self {
            Value::Array(a) => Some(a.as_slice()),
            _ => None,
        }
    }

    /// The fields, if the value is an object.
    pub fn as_object(&self) -> (r: Option<&Object<'a>>)
        ensures
            match self {
                Value::Object(o) => r == Some(o),
                _ => r is None,
            },
    {
        match self {
            Value::Object(o) => Some(o),
            _ => None,
        }
    }

    /// The text, if the value is a string.
    pub fn into_str(self) -> (r: Option<Text<'a>>)
        ensures
            match self {
                Value::Str(s) => r == Some(s),
                _ => r is None,
            },
    {
        match self {
            Value::Str(s) => Some(s),
            _ => None,
        }
    }

    /// The elements, if the value is an array.
    pub fn into_array(self) -> (r: Option<Vec<Value<'a>>>)
        ensures
            match self {
                Value::Array(a) => r == Some(a),
                _ => r is None,
            },
    {
        match self {
            Value::Array(a) => Some(a),
            _ => None,
        }
    }

    /// The fields, if the value is an object.
    pub fn into_object(self) -> (r: Option<Object<'a>>)
        ensures
            match self {
                Value::Object(o) => r == Some(o),
                _ => r is None,
            },
    {
        match self {
            Value::Object(o) => Some(o),
            _ => None,
        }
    }

    /// The elements, to be changed in place, if the value is an array.
    pub fn as_mut_array(&mut self) -> (r: Option<&mut Vec<Value<'a>>>)
        ensures
            match *old(self) {
                Value::Array(a) => r is Some && *r->0 == a && *final(self) == Value::Array(
                    *final(r->0),
                ),
                _ => r is None && *final(self) == *old(self),
            },
    {
        match self {
            Value::Array(a) => Some(a),
            _ => None,
        }
    }

    /// The fields, to be changed in place, if the value is an object.
    pub fn as_mut_object(&mut self) -> (r: Option<&mut Object<'a>>)
        ensures
            match *old(self) {
                Value::Object(o) => r is Some && *r->0 == o && *final(self) == Value::Object(
                    *final(r->0),
                ),
                _ => r is None && *final(self) == *old(self),
            },
    {
        match self {
            Value::Object(o) => Some(o),
            _ => None,
        }
    }

    /// The value of a field of an object.
    pub fn get(&self, key: &str) -> (r: Option<&Value<'a>>)
        ensures
            match member(self@, key@) {
                Some(v) => r is Some && r->0@ == v,
                None => r is None,
            },
    {
        match self {
            Value::Object(o) => o.get(key),
            _ => None,
        }
    }

    /// The element of an array at a position.
    pub fn at(&self, i: usize) -> (r: Option<&Value<'a>>)
        ensures
            match element(self@, i as int) {
                Some(v) => r is Some && r->0@ == v,
                None => r is None,
            },
    {
        match self {
            Value::Array(a) => if i < a.len() {
                Some(&a[i])
            } else {
                None
            },
            _ => None,
        }
    }

    /// The value of a field of an object, to be changed in place. What is written
    /// there takes the place of the field's value.
    pub fn get_mut(&mut self, key: &str) -> (r: Option<&mut Value<'a>>)
        ensures
            match old(self)@ {
                Json::Object(o) => match find_key(o, key@) {
                    Some(i) => r is Some && (*r->0)@ == o[i].1 && final(self)@ == Json::Object(
                        o.update(i, (key@, (*final(r->0))@)),
                    ),
                    None => r is None && final(self)@ == old(self)@,
                },
                _ => r is None && final(self)@ == old(self)@,
            },
    {
        match self {
            Value::Object(o) => o.get_mut(key),
            _ => None,
        }
    }

    /// The element of an array at a position, to be changed in place. What is
    /// written there takes the place of the element.
    pub fn at_mut(&mut self, i: usize) -> (r: Option<&mut Value<'a>>)
        ensures
            match old(self)@ {
                Json::Array(a) => if i < a.len() {
                    r is Some && (*r->0)@ == a[i as int] && final(self)@ is Array && final(
                        self)@->Array_0 =~= a.update(i as int, (*final(r->0))@)
                } else {
                    r is None && final(self)@ == old(self)@
                },
                _ => r is None && final(self)@ == old(self)@,
            },
    {
        match self {
            Value::Array(a) => if i < a.len() {
                Some(&mut a[i])
            } else {
                None
            },
            _ => None,
        }
    }

    /// Takes the value out and leaves `null` in its place.
    pub fn take(&mut self) -> (r: Value<'a>)
        ensures
            r == *old(self),
            *final(self) == Value::<'a>::Null,
    {
        let mut v = Value::Null;
        core::mem::swap(self, &mut v);
        v
    }

    /// The element of an array at a position, to be changed in place. The value must
    /// be an array that has the position.
    pub fn index_mut(&mut self, i: usize) -> (r: &mut Value<'a>)
        requires
            old(self)@ is Array,
            i < old(self)@->Array_0.len(),
        ensures
            (*r)@ == old(self)@->Array_0[i as int],
            final(self)@ is Array,
            final(self)@->Array_0 =~= old(self)@->Array_0.update(i as int, (*final(r))@),
    {
        match self {
            Value::Array(a) => &mut a[i],
            _ => {
                proof {
                    assert(false);
                }
                self
            },
        }
    }

    /// The value of a field, to be changed in place. `null` becomes an empty object
    /// first, and a field that is not there is made with the value `null`. The value
    /// must be `null` or an object.
    pub fn index_key_mut(&mut self, key: &str) -> (r: &mut Value<'a>)
        requires
            old(self)@ is Null || old(self)@ is Object,
            old(self)@ is Object ==> keys_sorted(old(self)@->Object_0),
        ensures
            (*r)@ == (match member(old(self)@, key@) {
                Some(v) => v,
                None => Json::Null,
            }),
            final(self)@ == Json::Object(
                with_field(
                    match old(self)@ {
                        Json::Object(o) => o,
                        _ => Seq::empty(),
                    },
                    key@,
                    (*final(r))@,
                ),
            ),
    {
        if self.is_null() {
            *self = Value::Object(Object::new());
        }
        match self {
            Value::Object(o) => o.entry(key),
            _ => {
                proof {
                    assert(false);
                }
                self
            },
        }
    }
}
impl<'a> From<bool> for Value<'a> {
    fn from(t: bool) -> (v: Value<'a>) {
        Value::Bool(t)
    }
}

impl<'a> vstd::std_specs::convert::FromSpecImpl<bool> for Value<'a> {
    open spec fn obeys_from_spec() -> bool {
        true
    }

    open spec fn from_spec(t: bool) -> Value<'a> {
        Value::Bool(t)
    }
}

impl<'a> From<String> for Value<'a> {
    fn from(t: String) -> (v: Value<'a>) {
        Value::Str(Text::Owned(t))
    }
}

impl<'a> vstd::std_specs::convert::FromSpecImpl<String> for Value<'a> {
    open spec fn obeys_from_spec() -> bool {
        true
    }

    open spec fn from_spec(t: String) -> Value<'a> {
        Value::Str(Text::Owned(t))
    }
}

impl<'a> From<&'a str> for Value<'a> {
    fn from(t: &'a str) -> (v: Value<'a>) {
        Value::Str(Text::Borrowed(t))
    }
}

impl<'a> vstd::std_specs::convert::FromSpecImpl<&'a str> for Value<'a> {
    open spec fn obeys_from_spec() -> bool {
        true
    }

    open spec fn from_spec(t: &'a str) -> Value<'a> {
        Value::Str(Text::Borrowed(t))
    }
}

impl<'a> From<Text<'a>> for Value<'a> {
    fn from(t: Text<'a>) -> (v: Value<'a>) {
        Value::Str(t)
    }
}

impl<'a> vstd::std_specs::convert::FromSpecImpl<Text<'a>> for Value<'a> {
    open spec fn obeys_from_spec() -> bool {
        true
    }

    open spec fn from_spec(t: Text<'a>) -> Value<'a> {
        Value::Str(t)
    }
}

impl<'a> From<Num> for Value<'a> {
    fn from(t: Num) -> (v: Value<'a>) {
        Value::Num(t)
    }
}

impl<'a> vstd::std_specs::convert::FromSpecImpl<Num> for Value<'a> {
    open spec fn obeys_from_spec() -> bool {
        true
    }

    open spec fn from_spec(t: Num) -> Value<'a> {
        Value::Num(t)
    }
}

impl<'a> From<Float> for Value<'a> {
    fn from(t: Float) -> (v: Value<'a>) {
        Value::Num(Num::from_f64(t))
    }
}

impl<'a> vstd::std_specs::convert::FromSpecImpl<Float> for Value<'a> {
    open spec fn obeys_from_spec() -> bool {
        true
    }

    open spec fn from_spec(t: Float) -> Value<'a> {
        Value::Num(float_num(t))
    }
}

impl<'a> From<i8> for Value<'a> {
    fn from(t: i8) -> (v: Value<'a>) {
        Value::Num(Num::from_i64(t as i64))
    }
}

impl<'a> vstd::std_specs::convert::FromSpecImpl<i8> for Value<'a> {
    open spec fn obeys_from_spec() -> bool {
        true
    }

    open spec fn from_spec(t: i8) -> Value<'a> {
        Value::Num(int_num(t as int))
    }
}

impl<'a> From<i16> for Value<'a> {
    fn from(t: i16) -> (v: Value<'a>) {
        Value::Num(Num::from_i64(t as i64))
    }
}

impl<'a> vstd::std_specs::convert::FromSpecImpl<i16> for Value<'a> {
    open spec fn obeys_from_spec() -> bool {
        true
    }

    open spec fn from_spec(t: i16) -> Value<'a> {
        Value::Num(int_num(t as int))
    }
}

impl<'a> From<i32> for Value<'a> {
    fn from(t: i32) -> (v: Value<'a>) {
        Value::Num(Num::from_i64(t as i64))
    }
}

impl<'a> vstd::std_specs::convert::FromSpecImpl<i32> for Value<'a> {
    open spec fn obeys_from_spec() -> bool {
        true
    }

    open spec fn from_spec(t: i32) -> Value<'a> {
        Value::Num(int_num(t as int))
    }
}

impl<'a> From<i64> for Value<'a> {
    fn from(t: i64) -> (v: Value<'a>) {
        Value::Num(Num::from_i64(t as i64))
    }
}

impl<'a> vstd::std_specs::convert::FromSpecImpl<i64> for Value<'a> {
    open spec fn obeys_from_spec() -> bool {
        true
    }

    open spec fn from_spec(t: i64) -> Value<'a> {
        Value::Num(int_num(t as int))
    }
}

impl<'a> From<isize> for Value<'a> {
    fn from(t: isize) -> (v: Value<'a>) {
        Value::Num(Num::from_i64(t as i64))
    }
}

impl<'a> vstd::std_specs::convert::FromSpecImpl<isize> for Value<'a> {
    open spec fn obeys_from_spec() -> bool {
        true
    }

    open spec fn from_spec(t: isize) -> Value<'a> {
        Value::Num(int_num(t as int))
    }
}

impl<'a> From<u8> for Value<'a> {
    fn from(t: u8) -> (v: Value<'a>) {
        Value::Num(Num::from_u64(t as u64))
    }
}

impl<'a> vstd::std_specs::convert::FromSpecImpl<u8> for Value<'a> {
    open spec fn obeys_from_spec() -> bool {
        true
    }

    open spec fn from_spec(t: u8) -> Value<'a> {
        Value::Num(int_num(t as int))
    }
}

impl<'a> From<u16> for Value<'a> {
    fn from(t: u16) -> (v: Value<'a>) {
        Value::Num(Num::from_u64(t as u64))
    }
}

impl<'a> vstd::std_specs::convert::FromSpecImpl<u16> for Value<'a> {
    open spec fn obeys_from_spec() -> bool {
        true
    }

    open spec fn from_spec(t: u16) -> Value<'a> {
        Value::Num(int_num(t as int))
    }
}

impl<'a> From<u32> for Value<'a> {
    fn from(t: u32) -> (v: Value<'a>) {
        Value::Num(Num::from_u64(t as u64))
    }
}

impl<'a> vstd::std_specs::convert::FromSpecImpl<u32> for Value<'a> {
    open spec fn obeys_from_spec() -> bool {
        true
    }

    open spec fn from_spec(t: u32) -> Value<'a> {
        Value::Num(int_num(t as int))
    }
}

impl<'a> From<u64> for Value<'a> {
    fn from(t: u64) -> (v: Value<'a>) {
        Value::Num(Num::from_u64(t as u64))
    }
}

impl<'a> vstd::std_specs::convert::FromSpecImpl<u64> for Value<'a> {
    open spec fn obeys_from_spec() -> bool {
        true
    }

    open spec fn from_spec(t: u64) -> Value<'a> {
        Value::Num(int_num(t as int))
    }
}

impl<'a> From<usize> for Value<'a> {
    fn from(t: usize) -> (v: Value<'a>) {
        Value::Num(Num::from_u64(t as u64))
    }
}

impl<'a> vstd::std_specs::convert::FromSpecImpl<usize> for Value<'a> {
    open spec fn obeys_from_spec() -> bool {
        true
    }

    open spec fn from_spec(t: usize) -> Value<'a> {
        Value::Num(int_num(t as int))
    }
}

} // verus!
