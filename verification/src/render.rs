//! The text of a value tree.
use vstd::prelude::*;
use crate::num::{num_json, Num};
use crate::value::{Json, Object, Value};
use crate::write::{
    bool_text, entries_first, entries_text, lemma_entries_step, null_text, quoted, scope_text,
    Entry, WriteJson, Writer,
};

verus! {

/// The entries that the elements of an array make in its scope.
pub open spec fn array_entries(a: Seq<Json>, depth: nat, pretty: bool) -> Seq<Entry>
    decreases a, 0nat,
{
    Seq::new(
        a.len(),
        |i: int|
            Entry {
                key: None,
                included: true,
                body: if 0 <= i < a.len() {
                    render(a[i], depth, pretty)
                } else {
                    seq![]
                },
            },
    )
}

/// The entries that the fields of an object make in its scope.
pub open spec fn object_entries(o: Seq<(Seq<char>, Json)>, depth: nat, pretty: bool) -> Seq<Entry>
    decreases o, 0nat,
{
    Seq::new(
        o.len(),
        |i: int|
            Entry {
                key: Some(o[i].0),
                included: true,
                body: if 0 <= i < o.len() {
                    render(o[i].1, depth, pretty)
                } else {
                    seq![]
                },
            },
    )
}

/// The text of a value written at nesting depth `depth`: in pretty mode one entry a
/// line, indented by four spaces a level; in compact mode without any space.
pub open spec fn render(j: Json, depth: nat, pretty: bool) -> Seq<char>
    decreases j, 1nat,
{
    match j {
        Json::Null => null_text(),
        Json::Bool(b) => bool_text(b),
        Json::Num(n) => num_json(n),
        Json::Str(s) => quoted(s),
        Json::Array(a) => scope_text(array_entries(a, depth + 1, pretty), true, depth, pretty),
        Json::Object(o) => scope_text(object_entries(o, depth + 1, pretty), false, depth, pretty),
    }
}

impl<'a> Object<'a> {
    /// Appends the text of the object.
    pub fn write(&self, w: &mut Writer)
        requires
            old(w).wf(),
        ensures
            final(w).wf(),
            final(w).text() == old(w).text() + render(
                Json::Object(self@),
                old(w).depth(),
                old(w).is_pretty(),
            ),
            final(w).depth() == old(w).depth(),
            final(w).compact_depth() == old(w).compact_depth(),
        decreases self, 0nat,
    {
        let ghost depth = w.depth();
        let ghost pretty = w.is_pretty();
        let ghost entries = object_entries(self@, depth + 1, pretty);
        let ghost t0 = w.text();
        let mut o = w.object();
        let mut i: usize = 0;
        proof {
            assert(o.0.w.text() =~= t0.push('{') + entries_text(entries.take(0), true, depth + 1, pretty));
        }
        while i < self.len()
            invariant
                i <= self@.len(),
                o.wf(),
                entries == object_entries(self@, depth + 1, pretty),
                o.0.first == entries_first(entries.take(i as int), true),
                !o.0.tmp_compact,
                o.0.w.text() == t0.push('{') + entries_text(entries.take(i as int), true, depth + 1, pretty),
                o.0.w.depth() == depth + 1,
                o.0.w.is_pretty() == pretty,
                o.0.w.compact_depth() == old(w).compact_depth(),
                after_borrow(*w) == *final(o.0.w),
            decreases self@.len() - i,
        {
            proof {
                lemma_entries_step(entries, i as int, true, depth + 1, pretty);
            }
            let ghost before = o.0.w.text();
            o.0.enter_key(Some(self.key_at(i)));
            let child = self.value_at(i);
            proof {
                self.lemma_child_smaller(i as int);
            }
            child.write(&mut *o.0.w);
            proof {
                reveal(crate::write::put_text);
                assert(o.0.w.text() =~= before + crate::write::put_text(
                    entries_first(entries.take(i as int), true),
                    depth + 1,
                    pretty,
                    entries[i as int],
                ));
            }
            i += 1;
        }
        proof {
            assert(entries.take(i as int) =~= entries);
        }
        o.end();
        proof {
            assert(w.text() =~= t0 + render(Json::Object(self@), depth, pretty));
        }
    }
}

impl<'a> Value<'a> {
    /// Appends the text of the value.
    pub fn write(&self, w: &mut Writer)
        requires
            old(w).wf(),
        ensures
            final(w).wf(),
            final(w).text() == old(w).text() + render(self@, old(w).depth(), old(w).is_pretty()),
            final(w).depth() == old(w).depth(),
            final(w).compact_depth() == old(w).compact_depth(),
        decreases self, 1nat,
    {
        match self {
            Value::Null => {
                w.put_null();
            },
            Value::Bool(b) => {
                w.put_bool(*b);
            },
            Value::Num(n) => {
                n.write_json(w);
            },
            Value::Str(s) => {
                w.put_escaped(s.as_str(), true);
            },
            Value::Array(s) => {
                let ghost depth = w.depth();
                let ghost pretty = w.is_pretty();
                let ghost entries = array_entries(self@->Array_0, depth + 1, pretty);
                let ghost t0 = w.text();
                let mut a = w.array();
                let mut i: usize = 0;
                proof {
                    assert(a.0.w.text() =~= t0.push('[') + entries_text(
                        entries.take(0),
                        true,
                        depth + 1,
                        pretty,
                    ));
                }
                while i < s.len()
                    invariant
                        i <= s@.len(),
                        *self == Value::Array(*s),
                        a.wf(),
                        entries == array_entries(self@->Array_0, depth + 1, pretty),
                        a.0.first == entries_first(entries.take(i as int), true),
                        !a.0.tmp_compact,
                        a.0.w.text() == t0.push('[') + entries_text(
                            entries.take(i as int),
                            true,
                            depth + 1,
                            pretty,
                        ),
                        a.0.w.depth() == depth + 1,
                        a.0.w.is_pretty() == pretty,
                        a.0.w.compact_depth() == old(w).compact_depth(),
                        after_borrow(*w) == *final(a.0.w),
                    decreases s@.len() - i,
                {
                    proof {
                        lemma_entries_step(entries, i as int, true, depth + 1, pretty);
                        assert(decreases_to!(self => self->Array_0));
                    }
                    let ghost before = a.0.w.text();
                    a.0.enter_key(None);
                    s[i].write(&mut *a.0.w);
                    proof {
                        reveal(crate::write::put_text);
                        assert(a.0.w.text() =~= before + crate::write::put_text(
                            entries_first(entries.take(i as int), true),
                            depth + 1,
                            pretty,
                            entries[i as int],
                        ));
                    }
                    i += 1;
                }
                proof {
                    assert(entries.take(i as int) =~= entries);
                }
                a.end();
                proof {
                    assert(w.text() =~= t0 + render(self@, depth, pretty));
                }
            },
            Value::Object(o) => {
                o.write(w);
            },
        }
    }

    /// The text of the value, in pretty or compact mode.
    pub fn to_string(&self, pretty: bool) -> (s: String)
        ensures
            s@ == render(self@, 0, pretty),
    {
        let mut w = Writer::new(pretty);
        self.write(&mut w);
        w.finish()
    }
}

impl WriteJson for Value<'_> {
    open spec fn included(&self) -> bool {
        true
    }

    open spec fn json(&self, depth: nat, pretty: bool) -> Seq<char> {
        render(self@, depth, pretty)
    }

    fn write_json(&self, dest: &mut Writer) {
        self.write(dest);
    }

    fn should_include(&self) -> (b: bool) {
        true
    }
}

} // verus!
