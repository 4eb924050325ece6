//! The streaming writer: one text buffer, a nesting depth, and a counter of
//! compact scopes, with scoped builders for arrays and objects.
use vstd::prelude::*;
use vstd::std_specs::iter::IteratorSpec;
use crate::text::{byte_len, dec_text, int_text, push_i64, push_u64};

verus! {

/// `n` spaces.
pub open spec fn spaces(n: nat) -> Seq<char> {
    Seq::new(n, |i: int| ' ')
}

/// The indentation of an entry at nesting depth `depth`: four spaces a level.
pub open spec fn indent_text(depth: nat) -> Seq<char> {
    spaces(4 * depth)
}

/// A lower-case hexadecimal digit.
pub open spec fn hex_char(d: nat) -> char {
    if d < 10 {
        ((48 + d) as u8) as char
    } else {
        ((87 + d) as u8) as char
    }
}

/// How one character of a string stands in JSON text.
pub open spec fn escape_char(c: char) -> Seq<char> {
    if c == '\u{8}' {
        seq!['\\', 'b']
    } else if c == '\u{c}' {
        seq!['\\', 'f']
    } else if c == '\n' {
        seq!['\\', 'n']
    } else if c == '\r' {
        seq!['\\', 'r']
    } else if c == '\t' {
        seq!['\\', 't']
    } else if c == '\\' {
        seq!['\\', '\\']
    } else if c == '"' {
        seq!['\\', '"']
    } else if (c as u32) < 0x20 {
        seq!['\\', 'u', '0', '0', hex_char((c as u32 / 16) as nat), hex_char((c as u32 % 16) as nat)]
    } else {
        seq![c]
    }
}

/// The escaped form of a string, without the surrounding quotes.
pub open spec fn escaped(s: Seq<char>) -> Seq<char>
    decreases s.len(),
{
    if s.len() == 0 {
        seq![]
    } else {
        escaped(s.drop_last()) + escape_char(s.last())
    }
}

/// A string as a JSON string literal.
pub open spec fn quoted(s: Seq<char>) -> Seq<char> {
    seq!['"'] + escaped(s) + seq!['"']
}

/// What precedes an entry of a scope: the separator from the entry before it, and
/// in pretty mode a line break and the indentation.
pub open spec fn entry_lead(first: bool, depth: nat, pretty: bool) -> Seq<char> {
    if pretty {
        (if first {
            seq!['\n']
        } else {
            seq![',', '\n']
        }) + indent_text(depth)
    } else if first {
        seq![]
    } else {
        seq![',']
    }
}

/// A key with its colon, or nothing for an array entry.
pub open spec fn key_text(key: Option<Seq<char>>, pretty: bool) -> Seq<char> {
    match key {
        Some(k) => quoted(k) + (if pretty {
            seq![':', ' ']
        } else {
            seq![':']
        }),
        None => seq![],
    }
}

/// One entry handed to a scope: its key, if it is a field, whether it takes part in
/// the output, and the text of its value.
pub struct Entry {
    pub key: Option<Seq<char>>,
    pub included: bool,
    pub body: Seq<char>,
}

/// The text that one entry writes into a scope: nothing if it is not included, else
/// the lead, the key if it has one, and the value.
#[verifier::opaque]
pub open spec fn put_text(first: bool, depth: nat, pretty: bool, e: Entry) -> Seq<char> {
    if e.included {
        entry_lead(first, depth, pretty) + key_text(e.key, pretty) + e.body
    } else {
        seq![]
    }
}

/// Whether a scope that was at `first` is still without an entry after `entries`.
pub open spec fn entries_first(entries: Seq<Entry>, first: bool) -> bool
    decreases entries.len(),
{
    if entries.len() == 0 {
        first
    } else {
        entries_first(entries.drop_last(), first) && !entries.last().included
    }
}

/// The text that a scope writes for `entries`, starting from `first`, at the scope's
/// depth. An entry that is not included writes nothing.
pub open spec fn entries_text(entries: Seq<Entry>, first: bool, depth: nat, pretty: bool) -> Seq<char>
    decreases entries.len(),
{
    if entries.len() == 0 {
        seq![]
    } else {
        entries_text(entries.drop_last(), first, depth, pretty) + put_text(
            entries_first(entries.drop_last(), first),
            depth,
            pretty,
            entries.last(),
        )
    }
}

/// The opening bracket of a scope.
pub open spec fn open_char(is_arr: bool) -> char {
    if is_arr {
        '['
    } else {
        '{'
    }
}

/// What closes a scope whose entries stand at `depth`: in pretty mode, after at
/// least one entry, a line break and the indentation of the enclosing level; then
/// the closing bracket.
pub open spec fn close_text(first: bool, depth: nat, pretty: bool, is_arr: bool) -> Seq<char> {
    (if !first && pretty {
        seq!['\n'] + indent_text((depth - 1) as nat)
    } else {
        seq![]
    }).push(if is_arr { ']' } else { '}' })
}

/// The whole text of an array or object written at `depth` with the given entries.
pub open spec fn scope_text(entries: Seq<Entry>, is_arr: bool, depth: nat, pretty: bool) -> Seq<char> {
    seq![open_char(is_arr)] + entries_text(entries, true, depth + 1, pretty) + close_text(
        entries_first(entries, true),
        depth + 1,
        pretty,
        is_arr,
    )
}

/// A text buffer that JSON is written into.
pub struct Writer {
    o: String,
    depth: usize,
    compact: usize,
}

impl Writer {
    /// The text written so far.
    pub closed spec fn text(&self) -> Seq<char> {
        self.o@
    }

    /// The number of scopes that are open.
    pub closed spec fn depth(&self) -> nat {
        self.depth as nat
    }

    /// The number of compact scopes around the current position; pretty output
    /// needs it to be zero.
    pub closed spec fn compact_depth(&self) -> nat {
        self.compact as nat
    }

    /// Every open scope has written its opening bracket.
    pub closed spec fn wf(&self) -> bool {
        self.depth <= self.o@.len()
    }

    /// Whether entries are written one a line.
    pub open spec fn is_pretty(&self) -> bool {
        self.compact_depth() == 0
    }

    /// A writer with an empty buffer, in pretty or compact mode.
    pub fn new(pretty: bool) -> (w: Writer)
        ensures
            w.wf(),
            w.text() == Seq::<char>::empty(),
            w.depth() == 0,
            w.compact_depth() == (if pretty { 0nat } else { 1nat }),
    {
        Writer { o: String::new(), depth: 0, compact: if pretty { 0 } else { 1 } }
    }

    /// Hands out the text.
    pub fn finish(self) -> (s: String)
        ensures
            s@ == self.text(),
    {
        self.o
    }

    /// Whether entries are written one a line.
    pub fn pretty(&self) -> (b: bool)
        ensures
            b == self.is_pretty(),
    {
        self.compact == 0
    }

    /// Enters a compact scope.
    pub fn push_compact(&mut self)
        requires
            old(self).compact_depth() < usize::MAX,
        ensures
            final(self).compact_depth() == old(self).compact_depth() + 1,
            final(self).text() == old(self).text(),
            final(self).depth() == old(self).depth(),
            final(self).wf() == old(self).wf(),
    {
        self.compact = self.compact + 1;
    }

    /// Leaves a compact scope.
    pub fn pop_compact(&mut self)
        requires
            old(self).compact_depth() > 0,
        ensures
            final(self).compact_depth() == old(self).compact_depth() - 1,
            final(self).text() == old(self).text(),
            final(self).depth() == old(self).depth(),
            final(self).wf() == old(self).wf(),
    {
        self.compact = self.compact - 1;
    }

    /// Appends text as it is.
    pub(crate) fn put_raw(&mut self, s: &str)
        ensures
            final(self).text() == old(self).text() + s@,
            final(self).depth() == old(self).depth(),
            final(self).compact_depth() == old(self).compact_depth(),
            old(self).wf() ==> final(self).wf(),
    {
        self.o.append(s);
    }

    /// Appends one character.
    pub(crate) fn put_char(&mut self, c: char)
        ensures
            final(self).text() == old(self).text().push(c),
            final(self).depth() == old(self).depth(),
            final(self).compact_depth() == old(self).compact_depth(),
            old(self).wf() ==> final(self).wf(),
    {
        self.o.push(c);
    }

    /// Appends the decimal text of an unsigned integer.
    pub(crate) fn put_u64(&mut self, n: u64)
        ensures
            final(self).text() == old(self).text() + dec_text(n as nat),
            final(self).depth() == old(self).depth(),
            final(self).compact_depth() == old(self).compact_depth(),
            old(self).wf() ==> final(self).wf(),
    {
        push_u64(&mut self.o, n);
    }

    /// Appends the decimal text of a signed integer.
    pub(crate) fn put_i64(&mut self, n: i64)
        ensures
            final(self).text() == old(self).text() + int_text(n as int),
            final(self).depth() == old(self).depth(),
            final(self).compact_depth() == old(self).compact_depth(),
            old(self).wf() ==> final(self).wf(),
    {
        push_i64(&mut self.o, n);
    }

    /// Appends a string in its escaped form, between quotes if asked.
    pub fn put_escaped(&mut self, s: &str, add_quotes: bool)
        ensures
            final(self).text() == old(self).text() + (if add_quotes {
                quoted(s@)
            } else {
                escaped(s@)
            }),
            final(self).depth() == old(self).depth(),
            final(self).compact_depth() == old(self).compact_depth(),
            old(self).wf() ==> final(self).wf(),
    {
        let ghost start = self.o@;
        if add_quotes {
            self.o.push('"');
        }
        let ghost base = self.o@;
        let mut it = s.chars();
        let ghost mut done: Seq<char> = seq![];
        proof {
            assert(self.o@ =~= base + escaped(done));
            assert(done + it.remaining() =~= s@);
        }
        loop
            invariant
                it.obeys_prophetic_iter_laws(),
                it.decrease() is Some,
                done + it.remaining() == s@,
                self.o@ == base + escaped(done),
                self.depth == old(self).depth,
                self.compact == old(self).compact,
            ensures
                done == s@,
            decreases it.decrease()->0,
        {
            let ghost before = self.o@;
            match it.next() {
                None => {
                    proof {
                        assert(done =~= s@);
                    }
                    break ;
                },
                Some(c) => {
                    if c == '\u{8}' {
                        self.o.append("\\b");
                        proof {
                            reveal_strlit("\\b");
                            assert("\\b"@ =~= seq!['\\', 'b']);
                        }
                    } else if c == '\u{c}' {
                        self.o.append("\\f");
                        proof {
                            reveal_strlit("\\f");
                            assert("\\f"@ =~= seq!['\\', 'f']);
                        }
                    } else if c == '\n' {
                        self.o.append("\\n");
                        proof {
                            reveal_strlit("\\n");
                            assert("\\n"@ =~= seq!['\\', 'n']);
                        }
                    } else if c == '\r' {
                        self.o.append("\\r");
                        proof {
                            reveal_strlit("\\r");
                            assert("\\r"@ =~= seq!['\\', 'r']);
                        }
                    } else if c == '\t' {
                        self.o.append("\\t");
                        proof {
                            reveal_strlit("\\t");
                            assert("\\t"@ =~= seq!['\\', 't']);
                        }
                    } else if c == '\\' {
                        self.o.append("\\\\");
                        proof {
                            reveal_strlit("\\\\");
                            assert("\\\\"@ =~= seq!['\\', '\\']);
                        }
                    } else if c == '"' {
                        self.o.append("\\\"");
                        proof {
                            reveal_strlit("\\\"");
                            assert("\\\""@ =~= seq!['\\', '"']);
                        }
                    } else if (c as u32) < 0x20 {
                        self.o.append("\\u00");
                        proof {
                            reveal_strlit("\\u00");
                            assert("\\u00"@ =~= seq!['\\', 'u', '0', '0']);
                        }
                        let u: u32 = c as u32;
                        self.o.push(hex_digit((u / 16) as u8));
                        self.o.push(hex_digit((u % 16) as u8));
                        proof {
                            assert(self.o@ =~= before + seq!['\\', 'u', '0', '0'].push(
                                hex_char((u / 16) as nat),
                            ).push(hex_char((u % 16) as nat)));
                            assert(seq!['\\', 'u', '0', '0'].push(hex_char((u / 16) as nat)).push(
                                hex_char((u % 16) as nat),
                            ) =~= escape_char(c));
                        }
                    } else {
                        self.o.push(c);
                    }
                    proof {
                        assert(self.o@ =~= before + escape_char(c));
                        assert((done.push(c)).drop_last() =~= done);
                        done = done.push(c);
                        assert(done + it.remaining() =~= s@);
                    }
                },
            }
        }
        if add_quotes {
            self.o.push('"');
        }
        proof {
            if add_quotes {
                assert(base =~= start + seq!['"']);
                assert(self.o@ =~= start + quoted(s@));
            } else {
                assert(base =~= start);
                assert(self.o@ =~= start + escaped(s@));
            }
        }
    }

    /// Appends `size` spaces.
    fn put_spaces(&mut self, size: usize)
        ensures
            final(self).text() == old(self).text() + spaces(size as nat),
            final(self).depth() == old(self).depth(),
            final(self).compact_depth() == old(self).compact_depth(),
            old(self).wf() ==> final(self).wf(),
    {
        let mut n: usize = 0;
        while n < size
            invariant
                n <= size,
                self.o@ == old(self).o@ + spaces(n as nat),
                self.depth == old(self).depth,
                self.compact == old(self).compact,
            decreases size - n,
        {
            self.o.push(' ');
            n += 1;
            proof {
                assert(self.o@ =~= old(self).o@ + spaces(n as nat));
            }
        }
    }

    /// In pretty mode, appends the indentation of the current depth.
    fn put_indent(&mut self)
        ensures
            final(self).text() == old(self).text() + (if old(self).is_pretty() {
                indent_text(old(self).depth())
            } else {
                seq![]
            }),
            final(self).depth() == old(self).depth(),
            final(self).compact_depth() == old(self).compact_depth(),
            old(self).wf() ==> final(self).wf(),
    {
        if self.pretty() {
            let mut n: usize = 0;
            while n < self.depth
                invariant
                    n <= self.depth,
                    self.o@ == old(self).o@ + spaces(4 * (n as nat)),
                    self.depth == old(self).depth,
                    self.compact == old(self).compact,
                decreases self.depth - n,
            {
                self.put_spaces(4);
                n += 1;
                proof {
                    assert(self.o@ =~= old(self).o@ + spaces(4 * (n as nat)));
                }
            }
        } else {
            proof {
                assert(self.o@ =~= old(self).o@ + Seq::<char>::empty());
            }
        }
    }

    /// Appends one of two texts, by mode.
    fn ppush(&mut self, if_pretty: &str, if_not_pretty: &str)
        ensures
            final(self).text() == old(self).text() + (if old(self).is_pretty() {
                if_pretty@
            } else {
                if_not_pretty@
            }),
            final(self).depth() == old(self).depth(),
            final(self).compact_depth() == old(self).compact_depth(),
            old(self).wf() ==> final(self).wf(),
    {
        if self.pretty() {
            self.o.append(if_pretty);
        } else {
            self.o.append(if_not_pretty);
        }
    }

    /// Appends the separator between two entries.
    fn comma_nl(&mut self)
        ensures
            final(self).text() == old(self).text() + (if old(self).is_pretty() {
                seq![',', '\n']
            } else {
                seq![',']
            }),
            final(self).depth() == old(self).depth(),
            final(self).compact_depth() == old(self).compact_depth(),
            old(self).wf() ==> final(self).wf(),
    {
        proof {
            reveal_strlit(",\n");
            reveal_strlit(",");
            assert(",\n"@ =~= seq![',', '\n']);
            assert(","@ =~= seq![',']);
        }
        self.ppush(",\n", ",");
    }

    /// In pretty mode, appends a line break.
    fn nl(&mut self)
        ensures
            final(self).text() == old(self).text() + (if old(self).is_pretty() {
                seq!['\n']
            } else {
                seq![]
            }),
            final(self).depth() == old(self).depth(),
            final(self).compact_depth() == old(self).compact_depth(),
            old(self).wf() ==> final(self).wf(),
    {
        if self.pretty() {
            self.o.push('\n');
            proof {
                assert(self.o@ =~= old(self).o@ + seq!['\n']);
            }
        } else {
            proof {
                assert(self.o@ =~= old(self).o@ + Seq::<char>::empty());
            }
        }
    }
}

/// One more entry extends the text and the `first` flag of the entries before it.
pub proof fn lemma_entries_step(entries: Seq<Entry>, i: int, first: bool, depth: nat, pretty: bool)
    requires
        0 <= i < entries.len(),
    ensures
        entries_text(entries.take(i + 1), first, depth, pretty) == entries_text(
            entries.take(i),
            first,
            depth,
            pretty,
        ) + put_text(entries_first(entries.take(i), first), depth, pretty, entries[i]),
        entries_first(entries.take(i + 1), first) == (entries_first(entries.take(i), first)
            && !entries[i].included),
{
    assert(entries.take(i + 1).drop_last() =~= entries.take(i));
    assert(entries.take(i + 1).last() == entries[i]);
}

/// What can render itself as JSON.
pub trait WriteJson {
    /// Whether the value takes part in the output at all. A scope skips one that
    /// does not: no key, no separator.
    open spec fn included(&self) -> bool {
        true
    }

    /// The text of the value when written at nesting depth `depth`. An implementation
    /// states it; until it does, nothing is known of it.
    open spec fn json(&self, depth: nat, pretty: bool) -> Seq<char> {
        arbitrary()
    }

    /// Appends the value's text.
    fn write_json(&self, dest: &mut Writer)
        requires
            old(dest).wf(),
        ensures
            final(dest).wf(),
            final(dest).text() == old(dest).text() + self.json(
                old(dest).depth(),
                old(dest).is_pretty(),
            ),
            final(dest).depth() == old(dest).depth(),
            final(dest).compact_depth() == old(dest).compact_depth(),
    ;

    /// Whether the value takes part in the output at all.
    fn should_include(&self) -> (b: bool)
        ensures
            b == self.included(),
    ;
}

/// The key of an entry as text.
pub open spec fn key_view(k: Option<&str>) -> Option<Seq<char>> {
    match k {
        Some(s) => Some(s@),
        None => None,
    }
}

/// The entry that a value makes under a key, at a depth.
pub open spec fn entry_of<V: WriteJson + ?Sized>(key: Option<Seq<char>>, v: &V, depth: nat, pretty: bool) -> Entry {
    Entry { key, included: v.included(), body: v.json(depth, pretty) }
}

/// An open array or object.
pub struct SeqWriter<'a> {
    /// The writer that the scope writes into.
    pub w: &'a mut Writer,
    /// No entry has been written yet.
    pub first: bool,
    /// An array, not an object.
    pub is_arr: bool,
    /// The scope has put the writer into compact mode.
    pub tmp_compact: bool,
}

impl<'a> SeqWriter<'a> {
    /// The scope's bracket is written and, if it asked for compact mode, the writer
    /// is in it.
    pub open spec fn wf(&self) -> bool {
        &&& self.w.wf()
        &&& self.w.depth() > 0
        &&& self.tmp_compact ==> self.w.compact_depth() > 0
    }

    /// Opens a scope: writes the bracket and goes one level deeper.
    pub fn begin(w: &'a mut Writer, arr: bool) -> (r: Self)
        requires
            old(w).wf(),
        ensures
            r.wf(),
            r.w.text() == old(w).text().push(open_char(arr)),
            r.w.depth() == old(w).depth() + 1,
            r.w.compact_depth() == old(w).compact_depth(),
            r.first,
            r.is_arr == arr,
            !r.tmp_compact,
            *final(w) == *final(r.w),
    {
        w.o.push(if arr { '[' } else { '{' });
        // Every open scope has written its bracket, so there are at most as many of
        // them as the text has bytes, and the count cannot overflow.
        let _bytes = byte_len(&w.o);
        w.depth = w.depth + 1;
        SeqWriter { w, first: true, tmp_compact: false, is_arr: arr }
    }

    /// Puts the scope, which must still be empty, into compact mode.
    pub fn set_compact(&mut self)
        requires
            old(self).wf(),
            !old(self).tmp_compact,
            old(self).first,
            old(self).w.compact_depth() < usize::MAX,
        ensures
            final(self).wf(),
            final(self).tmp_compact,
            final(self).first,
            final(self).is_arr == old(self).is_arr,
            final(self).w.text() == old(self).w.text(),
            final(self).w.depth() == old(self).w.depth(),
            final(self).w.compact_depth() == old(self).w.compact_depth() + 1,
            *final(final(self).w) == *final(old(self).w),
    {
        self.tmp_compact = true;
        self.w.push_compact();
    }

    /// Starts an entry: the lead, then for a field the key and its colon.
    pub fn enter_key(&mut self, k: Option<&str>)
        requires
            old(self).wf(),
        ensures
            final(self).wf(),
            !final(self).first,
            final(self).is_arr == old(self).is_arr,
            final(self).tmp_compact == old(self).tmp_compact,
            final(self).w.text() == old(self).w.text() + entry_lead(
                old(self).first,
                old(self).w.depth(),
                old(self).w.is_pretty(),
            ) + key_text(key_view(k), old(self).w.is_pretty()),
            final(self).w.depth() == old(self).w.depth(),
            final(self).w.compact_depth() == old(self).w.compact_depth(),
            *final(final(self).w) == *final(old(self).w),
    {
        let ghost t0 = self.w.text();
        if self.first {
            self.first = false;
            self.w.nl();
        } else {
            self.w.comma_nl();
        }
        self.w.put_indent();
        proof {
            assert(self.w.text() =~= t0 + entry_lead(
                old(self).first,
                old(self).w.depth(),
                old(self).w.is_pretty(),
            ));
        }
        match k {
            Some(k) => {
                let ghost t1 = self.w.text();
                self.w.put_escaped(k, true);
                proof {
                    reveal_strlit(": ");
                    reveal_strlit(":");
                    assert(": "@ =~= seq![':', ' ']);
                    assert(":"@ =~= seq![':']);
                }
                self.w.ppush(": ", ":");
                proof {
                    assert(self.w.text() =~= t1 + key_text(Some(k@), old(self).w.is_pretty()));
                }
            },
            None => {
                proof {
                    assert(key_text(None, old(self).w.is_pretty()) =~= Seq::<char>::empty());
                }
            },
        }
    }

    /// Writes one entry, unless the value asks to be left out.
    pub fn put_impl<V: WriteJson + ?Sized>(&mut self, k: Option<&str>, v: &V)
        requires
            old(self).wf(),
            old(self).is_arr == (k is None),
        ensures
            final(self).wf(),
            final(self).first == (old(self).first && !v.included()),
            final(self).is_arr == old(self).is_arr,
            final(self).tmp_compact == old(self).tmp_compact,
            final(self).w.text() == old(self).w.text() + put_text(
                old(self).first,
                old(self).w.depth(),
                old(self).w.is_pretty(),
                entry_of(key_view(k), v, old(self).w.depth(), old(self).w.is_pretty()),
            ),
            final(self).w.depth() == old(self).w.depth(),
            final(self).w.compact_depth() == old(self).w.compact_depth(),
            *final(final(self).w) == *final(old(self).w),
    {
        if !v.should_include() {
            proof {
                reveal(put_text);
                assert(self.w.text() =~= old(self).w.text() + put_text(
                    old(self).first,
                    old(self).w.depth(),
                    old(self).w.is_pretty(),
                    entry_of(key_view(k), v, old(self).w.depth(), old(self).w.is_pretty()),
                ));
            }
            return ;
        }
        self.enter_key(k);
        v.write_json(self.w);
        proof {
            reveal(put_text);
            assert(self.w.text() =~= old(self).w.text() + put_text(
                old(self).first,
                old(self).w.depth(),
                old(self).w.is_pretty(),
                entry_of(key_view(k), v, old(self).w.depth(), old(self).w.is_pretty()),
            ));
        }
    }

    /// Closes the scope: in pretty mode, after at least one entry, a line break and
    /// the enclosing indentation; then the bracket. The writer is back at the depth
    /// and mode it had before the scope was opened.
    pub fn end(self)
        requires
            self.wf(),
        ensures
            final(self.w).wf(),
            final(self.w).text() == old(self.w).text() + close_text(
                self.first,
                old(self.w).depth(),
                old(self.w).is_pretty(),
                self.is_arr,
            ),
            final(self.w).depth() == old(self.w).depth() - 1,
            final(self.w).compact_depth() == old(self.w).compact_depth() - (if self.tmp_compact {
                1int
            } else {
                0int
            }),
    {
        let ghost t0 = self.w.text();
        self.w.depth = self.w.depth - 1;
        if !self.first {
            self.w.nl();
            self.w.put_indent();
        }
        self.w.o.push(if self.is_arr { ']' } else { '}' });
        if self.tmp_compact {
            self.w.pop_compact();
        }
        proof {
            assert(self.w.text() =~= t0 + close_text(
                self.first,
                old(self.w).depth(),
                old(self.w).is_pretty(),
                self.is_arr,
            ));
        }
    }
}

/// The entries that a list of values makes in an array.
pub open spec fn dyn_entries(items: Seq<&dyn WriteJson>, depth: nat, pretty: bool) -> Seq<Entry> {
    Seq::new(items.len(), |i: int| entry_of(None, items[i], depth, pretty))
}

/// The entries that a list of keys and values makes in an object.
pub open spec fn field_entries(items: Seq<(&str, &dyn WriteJson)>, depth: nat, pretty: bool) -> Seq<
    Entry,
> {
    Seq::new(items.len(), |i: int| entry_of(Some(items[i].0@), items[i].1, depth, pretty))
}

/// The entries that a list of values of one type makes in an array.
pub open spec fn item_entries<T: WriteJson>(items: Seq<T>, depth: nat, pretty: bool) -> Seq<Entry> {
    Seq::new(items.len(), |i: int| entry_of(None, &items[i], depth, pretty))
}

/// An open array.
pub struct ArrayWriter<'a>(pub SeqWriter<'a>);

/// An open object.
pub struct ObjectWriter<'a>(pub SeqWriter<'a>);

impl<'a> ArrayWriter<'a> {
    /// An open scope that is an array.
    pub open spec fn wf(&self) -> bool {
        self.0.wf() && self.0.is_arr
    }

    /// Opens an object as the next element. When it is closed, this array's writer
    /// is as the object left it.
    pub fn begin_object(&mut self) -> (r: ObjectWriter<'_>)
        requires
            old(self).wf(),
        ensures
            r.wf(),
            r.0.first,
            !r.0.tmp_compact,
            r.0.w.text() == (old(self).0.w.text() + entry_lead(
                old(self).0.first,
                old(self).0.w.depth(),
                old(self).0.w.is_pretty(),
            )).push('{'),
            r.0.w.depth() == old(self).0.w.depth() + 1,
            r.0.w.compact_depth() == old(self).0.w.compact_depth(),
            *final(self).0.w == *final(r.0.w),
            !final(self).0.first,
            final(self).0.is_arr,
            final(self).0.tmp_compact == old(self).0.tmp_compact,
            *final(final(self).0.w) == *final(old(self).0.w),
    {
        self.0.enter_key(None);
        proof {
            assert(key_text(None, old(self).0.w.is_pretty()) =~= Seq::<char>::empty());
            assert(self.0.w.text() =~= old(self).0.w.text() + entry_lead(
                old(self).0.first,
                old(self).0.w.depth(),
                old(self).0.w.is_pretty(),
            ));
        }
        ObjectWriter(SeqWriter::begin(&mut *self.0.w, false))
    }

    /// Opens an array as the next element. When it is closed, this array's writer
    /// is as the inner array left it.
    pub fn begin_array(&mut self) -> (r: ArrayWriter<'_>)
        requires
            old(self).wf(),
        ensures
            r.wf(),
            r.0.first,
            !r.0.tmp_compact,
            r.0.w.text() == (old(self).0.w.text() + entry_lead(
                old(self).0.first,
                old(self).0.w.depth(),
                old(self).0.w.is_pretty(),
            )).push('['),
            r.0.w.depth() == old(self).0.w.depth() + 1,
            r.0.w.compact_depth() == old(self).0.w.compact_depth(),
            *final(self).0.w == *final(r.0.w),
            !final(self).0.first,
            final(self).0.is_arr,
            final(self).0.tmp_compact == old(self).0.tmp_compact,
            *final(final(self).0.w) == *final(old(self).0.w),
    {
        self.0.enter_key(None);
        proof {
            assert(key_text(None, old(self).0.w.is_pretty()) =~= Seq::<char>::empty());
            assert(self.0.w.text() =~= old(self).0.w.text() + entry_lead(
                old(self).0.first,
                old(self).0.w.depth(),
                old(self).0.w.is_pretty(),
            ));
        }
        ArrayWriter(SeqWriter::begin(&mut *self.0.w, true))
    }

    /// Puts the array, which must still be empty, into compact mode.
    pub fn set_compact(&mut self) -> (r: &mut Self)
        requires
            old(self).wf(),
            !old(self).0.tmp_compact,
            old(self).0.first,
            old(self).0.w.compact_depth() < usize::MAX,
        ensures
            r.wf(),
            r.0.tmp_compact,
            r.0.first,
            r.0.w.text() == old(self).0.w.text(),
            r.0.w.depth() == old(self).0.w.depth(),
            r.0.w.compact_depth() == old(self).0.w.compact_depth() + 1,
            *final(r.0.w) == *final(old(self).0.w),
            *final(self) == *final(r),
    {
        self.0.set_compact();
        self
    }

    /// The array, which must still be empty, in compact mode.
    pub fn compact(self) -> (r: Self)
        requires
            self.wf(),
            !self.0.tmp_compact,
            self.0.first,
            self.0.w.compact_depth() < usize::MAX,
        ensures
            r.wf(),
            r.0.tmp_compact,
            r.0.first,
            r.0.w.text() == old(self.0.w).text(),
            r.0.w.depth() == old(self.0.w).depth(),
            r.0.w.compact_depth() == old(self.0.w).compact_depth() + 1,
            *final(r.0.w) == *final(self.0.w),
    {
        let mut this = self;
        this.0.set_compact();
        this
    }

    /// Writes one element, unless the value asks to be left out.
    pub fn put<V: WriteJson>(&mut self, val: V) -> (r: &mut Self)
        requires
            old(self).wf(),
        ensures
            r.wf(),
            r.0.first == (old(self).0.first && !val.included()),
            r.0.tmp_compact == old(self).0.tmp_compact,
            r.0.w.text() == old(self).0.w.text() + put_text(
                old(self).0.first,
                old(self).0.w.depth(),
                old(self).0.w.is_pretty(),
                entry_of(None, &val, old(self).0.w.depth(), old(self).0.w.is_pretty()),
            ),
            r.0.w.depth() == old(self).0.w.depth(),
            r.0.w.compact_depth() == old(self).0.w.compact_depth(),
            *final(r.0.w) == *final(old(self).0.w),
            *final(self) == *final(r),
    {
        self.0.put_impl(None, &val);
        self
    }

    /// Writes the values in order as elements, leaving out those that ask for it.
    pub fn put_all(&mut self, vals: &[&dyn WriteJson]) -> (r: &mut Self)
        requires
            old(self).wf(),
        ensures
            r.wf(),
            r.0.first == entries_first(
                dyn_entries(vals@, old(self).0.w.depth(), old(self).0.w.is_pretty()),
                old(self).0.first,
            ),
            r.0.tmp_compact == old(self).0.tmp_compact,
            r.0.w.text() == old(self).0.w.text() + entries_text(
                dyn_entries(vals@, old(self).0.w.depth(), old(self).0.w.is_pretty()),
                old(self).0.first,
                old(self).0.w.depth(),
                old(self).0.w.is_pretty(),
            ),
            r.0.w.depth() == old(self).0.w.depth(),
            r.0.w.compact_depth() == old(self).0.w.compact_depth(),
            *final(r.0.w) == *final(old(self).0.w),
            *final(self) == *final(r),
    {
        let ghost depth = self.0.w.depth();
        let ghost pretty = self.0.w.is_pretty();
        let ghost entries = dyn_entries(vals@, depth, pretty);
        let mut i: usize = 0;
        proof {
            assert(self.0.w.text() =~= old(self).0.w.text() + entries_text(
                entries.take(0),
                old(self).0.first,
                depth,
                pretty,
            ));
        }
        while i < vals.len()
            invariant
                i <= vals.len(),
                self.wf(),
                depth == old(self).0.w.depth(),
                pretty == old(self).0.w.is_pretty(),
                entries == dyn_entries(vals@, depth, pretty),
                self.0.first == entries_first(entries.take(i as int), old(self).0.first),
                self.0.tmp_compact == old(self).0.tmp_compact,
                self.0.w.text() == old(self).0.w.text() + entries_text(
                    entries.take(i as int),
                    old(self).0.first,
                    depth,
                    pretty,
                ),
                self.0.w.depth() == depth,
                self.0.w.compact_depth() == old(self).0.w.compact_depth(),
                *final(self.0.w) == *final(old(self).0.w),
            decreases vals.len() - i,
        {
            proof {
                lemma_entries_step(entries, i as int, old(self).0.first, depth, pretty);
            }
            self.0.put_impl(None, vals[i]);
            i += 1;
        }
        proof {
            assert(entries.take(i as int) =~= entries);
        }
        self
    }

    /// Writes what the iterator yields as elements, leaving out those that ask for it.
    pub fn put_iter<I>(&mut self, vals: I) -> (r: &mut Self) where I: Iterator, I::Item: WriteJson
        requires
            old(self).wf(),
            vals.obeys_prophetic_iter_laws(),
            vals.decrease() is Some,
        ensures
            r.wf(),
            r.0.first == entries_first(
                item_entries(vals.remaining(), old(self).0.w.depth(), old(self).0.w.is_pretty()),
                old(self).0.first,
            ),
            r.0.tmp_compact == old(self).0.tmp_compact,
            r.0.w.text() == old(self).0.w.text() + entries_text(
                item_entries(vals.remaining(), old(self).0.w.depth(), old(self).0.w.is_pretty()),
                old(self).0.first,
                old(self).0.w.depth(),
                old(self).0.w.is_pretty(),
            ),
            r.0.w.depth() == old(self).0.w.depth(),
            r.0.w.compact_depth() == old(self).0.w.compact_depth(),
            *final(r.0.w) == *final(old(self).0.w),
            *final(self) == *final(r),
    {
        let ghost depth = self.0.w.depth();
        let ghost pretty = self.0.w.is_pretty();
        let ghost all = vals.remaining();
        let ghost entries = item_entries(all, depth, pretty);
        let ghost mut n: int = 0;
        let mut it = vals;
        proof {
            assert(self.0.w.text() =~= old(self).0.w.text() + entries_text(
                entries.take(0),
                old(self).0.first,
                depth,
                pretty,
            ));
            assert(all.skip(0) =~= all);
        }
        loop
            invariant
                0 <= n <= all.len(),
                it.obeys_prophetic_iter_laws(),
                it.decrease() is Some,
                it.remaining() == all.skip(n),
                self.wf(),
                depth == old(self).0.w.depth(),
                pretty == old(self).0.w.is_pretty(),
                entries == item_entries(all, depth, pretty),
                self.0.first == entries_first(entries.take(n), old(self).0.first),
                self.0.tmp_compact == old(self).0.tmp_compact,
                self.0.w.text() == old(self).0.w.text() + entries_text(
                    entries.take(n),
                    old(self).0.first,
                    depth,
                    pretty,
                ),
                self.0.w.depth() == depth,
                self.0.w.compact_depth() == old(self).0.w.compact_depth(),
                *final(self.0.w) == *final(old(self).0.w),
            ensures
                n == all.len(),
            decreases it.decrease()->0,
        {
            match it.next() {
                None => {
                    break ;
                },
                Some(val) => {
                    proof {
                        lemma_entries_step(entries, n, old(self).0.first, depth, pretty);
                        assert(val == all[n]);
                        assert(all.skip(n).drop_first() =~= all.skip(n + 1));
                    }
                    self.0.put_impl(None, &val);
                    proof {
                        n = n + 1;
                    }
                },
            }
        }
        proof {
            assert(entries.take(n) =~= entries);
        }
        self
    }

    /// Closes the array.
    pub fn end(self)
        requires
            self.wf(),
        ensures
            final(self.0.w).wf(),
            final(self.0.w).text() == old(self.0.w).text() + close_text(
                self.0.first,
                old(self.0.w).depth(),
                old(self.0.w).is_pretty(),
                true,
            ),
            final(self.0.w).depth() == old(self.0.w).depth() - 1,
            final(self.0.w).compact_depth() == old(self.0.w).compact_depth() - (if self.0.tmp_compact {
                1int
            } else {
                0int
            }),
    {
        self.0.end()
    }
}

impl<'a> ObjectWriter<'a> {
    /// An open scope that is an object.
    pub open spec fn wf(&self) -> bool {
        self.0.wf() && !self.0.is_arr
    }

    /// Opens an object as the next field. When it is closed, this object's writer
    /// is as the inner object left it.
    pub fn begin_object(&mut self, name: &str) -> (r: ObjectWriter<'_>)
        requires
            old(self).wf(),
        ensures
            r.wf(),
            r.0.first,
            !r.0.tmp_compact,
            r.0.w.text() == (old(self).0.w.text() + entry_lead(
                old(self).0.first,
                old(self).0.w.depth(),
                old(self).0.w.is_pretty(),
            ) + key_text(Some(name@), old(self).0.w.is_pretty())).push('{'),
            r.0.w.depth() == old(self).0.w.depth() + 1,
            r.0.w.compact_depth() == old(self).0.w.compact_depth(),
            *final(self).0.w == *final(r.0.w),
            !final(self).0.first,
            !final(self).0.is_arr,
            final(self).0.tmp_compact == old(self).0.tmp_compact,
            *final(final(self).0.w) == *final(old(self).0.w),
    {
        self.0.enter_key(Some(name));
        ObjectWriter(SeqWriter::begin(&mut *self.0.w, false))
    }

    /// Opens an array as the next field. When it is closed, this object's writer
    /// is as the array left it.
    pub fn begin_array(&mut self, name: &str) -> (r: ArrayWriter<'_>)
        requires
            old(self).wf(),
        ensures
            r.wf(),
            r.0.first,
            !r.0.tmp_compact,
            r.0.w.text() == (old(self).0.w.text() + entry_lead(
                old(self).0.first,
                old(self).0.w.depth(),
                old(self).0.w.is_pretty(),
            ) + key_text(Some(name@), old(self).0.w.is_pretty())).push('['),
            r.0.w.depth() == old(self).0.w.depth() + 1,
            r.0.w.compact_depth() == old(self).0.w.compact_depth(),
            *final(self).0.w == *final(r.0.w),
            !final(self).0.first,
            !final(self).0.is_arr,
            final(self).0.tmp_compact == old(self).0.tmp_compact,
            *final(final(self).0.w) == *final(old(self).0.w),
    {
        self.0.enter_key(Some(name));
        ArrayWriter(SeqWriter::begin(&mut *self.0.w, true))
    }

    /// Puts the object, which must still be empty, into compact mode.
    pub fn set_compact(&mut self) -> (r: &mut Self)
        requires
            old(self).wf(),
            !old(self).0.tmp_compact,
            old(self).0.first,
            old(self).0.w.compact_depth() < usize::MAX,
        ensures
            r.wf(),
            r.0.tmp_compact,
            r.0.first,
            r.0.w.text() == old(self).0.w.text(),
            r.0.w.depth() == old(self).0.w.depth(),
            r.0.w.compact_depth() == old(self).0.w.compact_depth() + 1,
            *final(r.0.w) == *final(old(self).0.w),
            *final(self) == *final(r),
    {
        self.0.set_compact();
        self
    }

    /// The object, which must still be empty, in compact mode.
    pub fn compact(self) -> (r: Self)
        requires
            self.wf(),
            !self.0.tmp_compact,
            self.0.first,
            self.0.w.compact_depth() < usize::MAX,
        ensures
            r.wf(),
            r.0.tmp_compact,
            r.0.first,
            r.0.w.text() == old(self.0.w).text(),
            r.0.w.depth() == old(self.0.w).depth(),
            r.0.w.compact_depth() == old(self.0.w).compact_depth() + 1,
            *final(r.0.w) == *final(self.0.w),
    {
        let mut this = self;
        this.0.set_compact();
        this
    }

    /// Writes one field, unless the value asks to be left out.
    pub fn put<WJ: ?Sized + WriteJson>(&mut self, k: &str, val: &WJ) -> (r: &mut Self)
        requires
            old(self).wf(),
        ensures
            r.wf(),
            r.0.first == (old(self).0.first && !val.included()),
            r.0.tmp_compact == old(self).0.tmp_compact,
            r.0.w.text() == old(self).0.w.text() + put_text(
                old(self).0.first,
                old(self).0.w.depth(),
                old(self).0.w.is_pretty(),
                entry_of(Some(k@), val, old(self).0.w.depth(), old(self).0.w.is_pretty()),
            ),
            r.0.w.depth() == old(self).0.w.depth(),
            r.0.w.compact_depth() == old(self).0.w.compact_depth(),
            *final(r.0.w) == *final(old(self).0.w),
            *final(self) == *final(r),
    {
        self.0.put_impl(Some(k), val);
        self
    }

    /// Writes the fields in order, leaving out those whose value asks for it.
    pub fn put_all(&mut self, vals: &[(&str, &dyn WriteJson)]) -> (r: &mut Self)
        requires
            old(self).wf(),
        ensures
            r.wf(),
            r.0.first == entries_first(
                field_entries(vals@, old(self).0.w.depth(), old(self).0.w.is_pretty()),
                old(self).0.first,
            ),
            r.0.tmp_compact == old(self).0.tmp_compact,
            r.0.w.text() == old(self).0.w.text() + entries_text(
                field_entries(vals@, old(self).0.w.depth(), old(self).0.w.is_pretty()),
                old(self).0.first,
                old(self).0.w.depth(),
                old(self).0.w.is_pretty(),
            ),
            r.0.w.depth() == old(self).0.w.depth(),
            r.0.w.compact_depth() == old(self).0.w.compact_depth(),
            *final(r.0.w) == *final(old(self).0.w),
            *final(self) == *final(r),
    {
        let ghost depth = self.0.w.depth();
        let ghost pretty = self.0.w.is_pretty();
        let ghost entries = field_entries(vals@, depth, pretty);
        let mut i: usize = 0;
        proof {
            assert(self.0.w.text() =~= old(self).0.w.text() + entries_text(
                entries.take(0),
                old(self).0.first,
                depth,
                pretty,
            ));
        }
        while i < vals.len()
            invariant
                i <= vals.len(),
                self.wf(),
                depth == old(self).0.w.depth(),
                pretty == old(self).0.w.is_pretty(),
                entries == field_entries(vals@, depth, pretty),
                self.0.first == entries_first(entries.take(i as int), old(self).0.first),
                self.0.tmp_compact == old(self).0.tmp_compact,
                self.0.w.text() == old(self).0.w.text() + entries_text(
                    entries.take(i as int),
                    old(self).0.first,
                    depth,
                    pretty,
                ),
                self.0.w.depth() == depth,
                self.0.w.compact_depth() == old(self).0.w.compact_depth(),
                *final(self.0.w) == *final(old(self).0.w),
            decreases vals.len() - i,
        {
            proof {
                lemma_entries_step(entries, i as int, old(self).0.first, depth, pretty);
            }
            self.0.put_impl(Some(vals[i].0), vals[i].1);
            i += 1;
        }
        proof {
            assert(entries.take(i as int) =~= entries);
        }
        self
    }

    /// Closes the object.
    pub fn end(self)
        requires
            self.wf(),
        ensures
            final(self.0.w).wf(),
            final(self.0.w).text() == old(self.0.w).text() + close_text(
                self.0.first,
                old(self.0.w).depth(),
                old(self.0.w).is_pretty(),
                false,
            ),
            final(self.0.w).depth() == old(self.0.w).depth() - 1,
            final(self.0.w).compact_depth() == old(self.0.w).compact_depth() - (if self.0.tmp_compact {
                1int
            } else {
                0int
            }),
    {
        self.0.end()
    }
}

impl Writer {
    /// Opens an object. When it is closed, this writer is as the object left it.
    pub fn object(&mut self) -> (r: ObjectWriter<'_>)
        requires
            old(self).wf(),
        ensures
            r.wf(),
            r.0.first,
            !r.0.tmp_compact,
            r.0.w.text() == old(self).text().push('{'),
            r.0.w.depth() == old(self).depth() + 1,
            r.0.w.compact_depth() == old(self).compact_depth(),
            *final(self) == *final(r.0.w),
    {
        ObjectWriter(SeqWriter::begin(self, false))
    }

    /// Opens an array. When it is closed, this writer is as the array left it.
    pub fn array(&mut self) -> (r: ArrayWriter<'_>)
        requires
            old(self).wf(),
        ensures
            r.wf(),
            r.0.first,
            !r.0.tmp_compact,
            r.0.w.text() == old(self).text().push('['),
            r.0.w.depth() == old(self).depth() + 1,
            r.0.w.compact_depth() == old(self).compact_depth(),
            *final(self) == *final(r.0.w),
    {
        ArrayWriter(SeqWriter::begin(self, true))
    }

    /// Writes an object with the given fields.
    pub fn put_object(&mut self, arr: &[(&str, &dyn WriteJson)])
        requires
            old(self).wf(),
        ensures
            final(self).wf(),
            final(self).text() == old(self).text() + scope_text(
                field_entries(arr@, old(self).depth() + 1, old(self).is_pretty()),
                false,
                old(self).depth(),
                old(self).is_pretty(),
            ),
            final(self).depth() == old(self).depth(),
            final(self).compact_depth() == old(self).compact_depth(),
    {
        let mut ow = self.object();
        ow.put_all(arr);
        ow.end();
        proof {
            assert(self.text() =~= old(self).text() + scope_text(
                field_entries(arr@, old(self).depth() + 1, old(self).is_pretty()),
                false,
                old(self).depth(),
                old(self).is_pretty(),
            ));
        }
    }

    /// Writes an array with the given elements.
    pub fn put_array(&mut self, arr: &[&dyn WriteJson])
        requires
            old(self).wf(),
        ensures
            final(self).wf(),
            final(self).text() == old(self).text() + scope_text(
                dyn_entries(arr@, old(self).depth() + 1, old(self).is_pretty()),
                true,
                old(self).depth(),
                old(self).is_pretty(),
            ),
            final(self).depth() == old(self).depth(),
            final(self).compact_depth() == old(self).compact_depth(),
    {
        let mut aw = self.array();
        aw.put_all(arr);
        aw.end();
        proof {
            assert(self.text() =~= old(self).text() + scope_text(
                dyn_entries(arr@, old(self).depth() + 1, old(self).is_pretty()),
                true,
                old(self).depth(),
                old(self).is_pretty(),
            ));
        }
    }

    /// Writes an array of what the iterator yields.
    pub fn put_iter<I>(&mut self, it: I) where I: Iterator, I::Item: WriteJson
        requires
            old(self).wf(),
            it.obeys_prophetic_iter_laws(),
            it.decrease() is Some,
        ensures
            final(self).wf(),
            final(self).text() == old(self).text() + scope_text(
                item_entries(it.remaining(), old(self).depth() + 1, old(self).is_pretty()),
                true,
                old(self).depth(),
                old(self).is_pretty(),
            ),
            final(self).depth() == old(self).depth(),
            final(self).compact_depth() == old(self).compact_depth(),
    {
        let ghost all = it.remaining();
        let mut aw = self.array();
        aw.put_iter(it);
        aw.end();
        proof {
            assert(self.text() =~= old(self).text() + scope_text(
                item_entries(all, old(self).depth() + 1, old(self).is_pretty()),
                true,
                old(self).depth(),
                old(self).is_pretty(),
            ));
        }
    }
}

/// The JSON `null`.
#[derive(Clone, Copy, Debug)]
pub struct Null;

/// A value that is left out of the scope it is put into; written on its own it is
/// `null`.
#[derive(Clone, Copy, Debug)]
pub struct Undefined;

/// The text `null`.
pub open spec fn null_text() -> Seq<char> {
    seq!['n', 'u', 'l', 'l']
}

/// The text of a boolean.
pub open spec fn bool_text(b: bool) -> Seq<char> {
    if b {
        seq!['t', 'r', 'u', 'e']
    } else {
        seq!['f', 'a', 'l', 's', 'e']
    }
}

impl Writer {
    /// Appends `null`.
    pub(crate) fn put_null(&mut self)
        ensures
            final(self).text() == old(self).text() + null_text(),
            final(self).depth() == old(self).depth(),
            final(self).compact_depth() == old(self).compact_depth(),
            old(self).wf() ==> final(self).wf(),
    {
        proof {
            reveal_strlit("null");
            assert("null"@ =~= null_text());
        }
        self.o.append("null");
    }

    /// Appends `true` or `false`.
    pub(crate) fn put_bool(&mut self, b: bool)
        ensures
            final(self).text() == old(self).text() + bool_text(b),
            final(self).depth() == old(self).depth(),
            final(self).compact_depth() == old(self).compact_depth(),
            old(self).wf() ==> final(self).wf(),
    {
        proof {
            reveal_strlit("true");
            reveal_strlit("false");
            assert("true"@ =~= bool_text(true));
            assert("false"@ =~= bool_text(false));
        }
        if b {
            self.o.append("true");
        } else {
            self.o.append("false");
        }
    }
}

impl WriteJson for Null {
    open spec fn included(&self) -> bool {
        true
    }

    open spec fn json(&self, depth: nat, pretty: bool) -> Seq<char> {
        null_text()
    }

    fn write_json(&self, dest: &mut Writer) {
        dest.put_null();
    }

    fn should_include(&self) -> (b: bool) {
        true
    }
}

impl WriteJson for Undefined {
    open spec fn included(&self) -> bool {
        false
    }

    open spec fn json(&self, depth: nat, pretty: bool) -> Seq<char> {
        null_text()
    }

    fn write_json(&self, dest: &mut Writer) {
        dest.put_null();
    }

    fn should_include(&self) -> (b: bool) {
        false
    }
}

impl WriteJson for bool {
    open spec fn included(&self) -> bool {
        true
    }

    open spec fn json(&self, depth: nat, pretty: bool) -> Seq<char> {
        bool_text(*self)
    }

    fn write_json(&self, dest: &mut Writer) {
        dest.put_bool(*self);
    }

    fn should_include(&self) -> (b: bool) {
        true
    }
}

impl WriteJson for i32 {
    open spec fn included(&self) -> bool {
        true
    }

    open spec fn json(&self, depth: nat, pretty: bool) -> Seq<char> {
        int_text(*self as int)
    }

    fn write_json(&self, dest: &mut Writer) {
        dest.put_i64(*self as i64);
    }

    fn should_include(&self) -> (b: bool) {
        true
    }
}

impl WriteJson for i64 {
    open spec fn included(&self) -> bool {
        true
    }

    open spec fn json(&self, depth: nat, pretty: bool) -> Seq<char> {
        int_text(*self as int)
    }

    fn write_json(&self, dest: &mut Writer) {
        dest.put_i64(*self);
    }

    fn should_include(&self) -> (b: bool) {
        true
    }
}

impl WriteJson for u64 {
    open spec fn included(&self) -> bool {
        true
    }

    open spec fn json(&self, depth: nat, pretty: bool) -> Seq<char> {
        dec_text(*self as nat)
    }

    fn write_json(&self, dest: &mut Writer) {
        dest.put_u64(*self);
    }

    fn should_include(&self) -> (b: bool) {
        true
    }
}

impl WriteJson for usize {
    open spec fn included(&self) -> bool {
        true
    }

    open spec fn json(&self, depth: nat, pretty: bool) -> Seq<char> {
        dec_text(*self as nat)
    }

    fn write_json(&self, dest: &mut Writer) {
        dest.put_u64(*self as u64);
    }

    fn should_include(&self) -> (b: bool) {
        true
    }
}

impl WriteJson for str {
    open spec fn included(&self) -> bool {
        true
    }

    open spec fn json(&self, depth: nat, pretty: bool) -> Seq<char> {
        quoted(self@)
    }

    fn write_json(&self, dest: &mut Writer) {
        dest.put_escaped(self, true);
    }

    fn should_include(&self) -> (b: bool) {
        true
    }
}

impl<T: ?Sized + WriteJson> WriteJson for &T {
    open spec fn included(&self) -> bool {
        (**self).included()
    }

    open spec fn json(&self, depth: nat, pretty: bool) -> Seq<char> {
        (**self).json(depth, pretty)
    }

    fn write_json(&self, dest: &mut Writer) {
        (**self).write_json(dest);
    }

    fn should_include(&self) -> (b: bool) {
        (**self).should_include()
    }
}

impl<T: WriteJson> WriteJson for Option<T> {
    open spec fn included(&self) -> bool {
        match self {
            Some(v) => v.included(),
            None => false,
        }
    }

    open spec fn json(&self, depth: nat, pretty: bool) -> Seq<char> {
        match self {
            Some(v) => v.json(depth, pretty),
            None => null_text(),
        }
    }

    fn write_json(&self, dest: &mut Writer) {
        match self {
            Some(v) => v.write_json(dest),
            None => Undefined.write_json(dest),
        }
    }

    fn should_include(&self) -> (b: bool) {
        match self {
            Some(v) => v.should_include(),
            None => false,
        }
    }
}

impl<T: WriteJson> WriteJson for [T] {
    open spec fn included(&self) -> bool {
        true
    }

    open spec fn json(&self, depth: nat, pretty: bool) -> Seq<char> {
        scope_text(item_entries(self@, depth + 1, pretty), true, depth, pretty)
    }

    fn write_json(&self, dest: &mut Writer) {
        let ghost depth = dest.depth();
        let ghost pretty = dest.is_pretty();
        let ghost entries = item_entries(self@, depth + 1, pretty);
        let ghost t0 = dest.text();
        let mut a = dest.array();
        let mut i: usize = 0;
        proof {
            assert(a.0.w.text() =~= t0.push('[') + entries_text(entries.take(0), true, depth + 1, pretty));
        }
        while i < self.len()
            invariant
                i <= self.len(),
                a.wf(),
                entries == item_entries(self@, depth + 1, pretty),
                a.0.first == entries_first(entries.take(i as int), true),
                !a.0.tmp_compact,
                a.0.w.text() == t0.push('[') + entries_text(entries.take(i as int), true, depth + 1, pretty),
                a.0.w.depth() == depth + 1,
                a.0.w.is_pretty() == pretty,
                a.0.w.compact_depth() == old(dest).compact_depth(),
                after_borrow(*dest) == *final(a.0.w),
            decreases self.len() - i,
        {
            proof {
                lemma_entries_step(entries, i as int, true, depth + 1, pretty);
            }
            a.put(&self[i]);
            i += 1;
        }
        proof {
            assert(entries.take(i as int) =~= entries);
        }
        a.end();
        proof {
            assert(dest.text() =~= t0 + self.json(depth, pretty));
        }
    }

    fn should_include(&self) -> (b: bool) {
        true
    }
}

impl WriteJson for [(&str, &dyn WriteJson)] {
    open spec fn included(&self) -> bool {
        true
    }

    open spec fn json(&self, depth: nat, pretty: bool) -> Seq<char> {
        scope_text(field_entries(self@, depth + 1, pretty), false, depth, pretty)
    }

    fn write_json(&self, dest: &mut Writer) {
        dest.put_object(self);
    }

    fn should_include(&self) -> (b: bool) {
        true
    }
}

/// The character of a hexadecimal digit value.
fn hex_digit(d: u8) -> (c: char)
    requires
        d < 16,
    ensures
        c == hex_char(d as nat),
{
    if d < 10 {
        (48 + d) as char
    } else {
        (87 + d) as char
    }
}

} // verus!
