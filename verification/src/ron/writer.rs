//! The writer: from a value to a document that reads back as the value.

use crate::bytes::BLANK;
use crate::ron::lexer::{ARRAY_CLOSE, ARRAY_OPEN, ESCAPE, ID_CLOSE, OBJECT_CLOSE, OBJECT_OPEN};
use crate::ron::value::{find_entry, last_index_of, lemma_last_index_of, Value};
use vstd::prelude::*;
use vstd::utf8::encode_utf8;

verus! {

/// The bytes `bytes[from..]` with a `\` put before each `:`.
pub open spec fn escaped(bytes: Seq<u8>, from: int) -> Seq<u8>
    decreases bytes.len() - from,
{
    if from < 0 || from >= bytes.len() {
        Seq::empty()
    } else if bytes[from] == ID_CLOSE {
        seq![ESCAPE, ID_CLOSE] + escaped(bytes, from + 1)
    } else {
        seq![bytes[from]] + escaped(bytes, from + 1)
    }
}

/// Whether entry `k` of an object counts: no later entry has its key.
pub open spec fn counts(entries: Seq<(String, Value)>, k: int) -> bool {
    last_index_of(entries, entries[k].0@, entries.len() as int) == Some(k)
}

/// The document that a value is written as.
///
/// A text is written with its `:` escaped. An array is written as `[`, its
/// items with a blank behind each, and `]`. An object is written as `{`,
/// its entries as key, `:` and value with a blank behind each, and `}`;
/// an entry whose key a later entry has is left out.
pub open spec fn written(value: Value) -> Seq<u8>
    decreases value, 0nat, 0nat,
{
    match value {
        Value::Text(text) => escaped(encode_utf8(text@), 0),
        Value::Array(items) => seq![ARRAY_OPEN] + written_items(items@, 0) + seq![ARRAY_CLOSE],
        Value::Object(entries) => seq![OBJECT_OPEN] + written_entries(entries@, 0) + seq![
            OBJECT_CLOSE
        ],
    }
}

/// The items of an array from item `k` on, as they are written.
pub open spec fn written_items(items: Seq<Value>, k: int) -> Seq<u8>
    decreases items, 0nat, items.len() - k,
{
    if k < 0 || k >= items.len() {
        Seq::empty()
    } else {
        written(items[k]) + seq![BLANK] + written_items(items, k + 1)
    }
}

/// The entries of an object from entry `k` on, as they are written.
pub open spec fn written_entries(entries: Seq<(String, Value)>, k: int) -> Seq<u8>
    decreases entries, 0nat, entries.len() - k,
{
    if k < 0 || k >= entries.len() {
        Seq::empty()
    } else if counts(entries, k) {
        escaped(encode_utf8(entries[k].0@), 0) + seq![ID_CLOSE] + written(entries[k].1) + seq![
            BLANK
        ] + written_entries(entries, k + 1)
    } else {
        written_entries(entries, k + 1)
    }
}

/// Adds `bytes` to `out` with each `:` escaped.
fn write_escaped(bytes: &[u8], out: &mut Vec<u8>)
    ensures
        final(out)@ == old(out)@ + escaped(bytes@, 0),
{
    let mut i: usize = 0;
    while i < bytes.len()
        invariant
            i <= bytes@.len(),
            out@ + escaped(bytes@, i as int) == old(out)@ + escaped(bytes@, 0),
        decreases bytes.len() - i,
    {
        let ghost before = out@;
        let ghost rest = escaped(bytes@, i as int + 1);
        if bytes[i] == ID_CLOSE {
            out.push(ESCAPE);
            out.push(ID_CLOSE);
            proof {
                assert(before.push(ESCAPE).push(ID_CLOSE) + rest == before + (seq![ESCAPE, ID_CLOSE]
                    + rest));
            }
        } else {
            out.push(bytes[i]);
            proof {
                assert(before.push(bytes@[i as int]) + rest == before + (seq![bytes@[i as int]]
                    + rest));
            }
        }
        i += 1;
    }
    proof {
        assert(out@ + Seq::<u8>::empty() == out@);
    }
}

impl Value {
    /// Adds the document of the value to `out`.
    pub fn write(&self, out: &mut Vec<u8>)
        ensures
            final(out)@ == old(out)@ + written(*self),
        decreases self,
    {
        match self {
            Value::Text(text) => {
                write_escaped(text.as_str().as_bytes(), out);
            },
            Value::Array(items) => {
                out.push(ARRAY_OPEN);
                let mut k: usize = 0;
                let ghost start = out@;
                while k < items.len()
                    invariant
                        k <= items@.len(),
                        *self == Value::Array(*items),
                        start == old(out)@.push(ARRAY_OPEN),
                        out@ + written_items(items@, k as int) == start + written_items(items@, 0),
                    decreases items.len() - k,
                {
                    proof {
                        assert(decreases_to!(self => self->Array_0@[k as int]));
                    }
                    let ghost before = out@;
                    let ghost rest = written_items(items@, k as int + 1);
                    items[k].write(out);
                    out.push(BLANK);
                    proof {
                        let one = written(items@[k as int]);
                        assert((before + one).push(BLANK) + rest == before + (one + seq![BLANK]
                            + rest));
                    }
                    k += 1;
                }
                out.push(ARRAY_CLOSE);
                proof {
                    let all = written_items(items@, 0);
                    assert(start + all == old(out)@ + (seq![ARRAY_OPEN] + all));
                    assert((old(out)@ + (seq![ARRAY_OPEN] + all)).push(ARRAY_CLOSE) == old(out)@
                        + (seq![ARRAY_OPEN] + all + seq![ARRAY_CLOSE]));
                }
            },
            Value::Object(entries) => {
                out.push(OBJECT_OPEN);
                let mut k: usize = 0;
                let ghost start = out@;
                while k < entries.len()
                    invariant
                        k <= entries@.len(),
                        *self == Value::Object(*entries),
                        start == old(out)@.push(OBJECT_OPEN),
                        out@ + written_entries(entries@, k as int) == start + written_entries(
                            entries@,
                            0,
                        ),
                    decreases entries.len() - k,
                {
                    proof {
                        assert(decreases_to!(self => self->Object_0@[k as int].1));
                        lemma_last_index_of(entries@, entries@[k as int].0@, entries@.len() as int);
                    }
                    let last = find_entry(entries, &entries[k].0);
                    if last == Some(k) {
                        let ghost before = out@;
                        let ghost rest = written_entries(entries@, k as int + 1);
                        write_escaped(entries[k].0.as_str().as_bytes(), out);
                        out.push(ID_CLOSE);
                        entries[k].1.write(out);
                        out.push(BLANK);
                        proof {
                            let key = escaped(encode_utf8(entries@[k as int].0@), 0);
                            let one = written(entries@[k as int].1);
                            assert(((before + key).push(ID_CLOSE) + one).push(BLANK) + rest == before
                                + (key + seq![ID_CLOSE] + one + seq![BLANK] + rest));
                        }
                    }
                    k += 1;
                }
                out.push(OBJECT_CLOSE);
                proof {
                    let all = written_entries(entries@, 0);
                    assert(start + all == old(out)@ + (seq![OBJECT_OPEN] + all));
                    assert((old(out)@ + (seq![OBJECT_OPEN] + all)).push(OBJECT_CLOSE) == old(out)@
                        + (seq![OBJECT_OPEN] + all + seq![OBJECT_CLOSE]));
                }
            },
        }
    }
}

/// The document of a value: one that reads back as the value.
pub fn serialize(value: &Value) -> (document: Vec<u8>)
    ensures
        document@ == written(*value),
{
    let mut document: Vec<u8> = Vec::new();
    value.write(&mut document);
    proof {
        assert(Seq::<u8>::empty() + written(*value) == written(*value));
    }
    document
}

} // verus!
