//! Writing and reading: a document that is written from a value reads back
//! as that value.

use crate::bytes::{is_space, BLANK};
use crate::error::Error;
use crate::ron::lexer::{
    before, closes_key, in_run, is_bracket, lemma_run_end, run_end, tokens_from, tokens_of, Token,
    ARRAY_CLOSE, ARRAY_OPEN, ESCAPE, ID_CLOSE, OBJECT_CLOSE, OBJECT_OPEN,
};
use crate::ron::parser::{
    array_from, object_from, parse_spec, token_text, unescaped, value_at,
};
use crate::ron::value::{
    fields_view, items_view, last_index_of, lemma_fields_view, lemma_items_view,
    lemma_items_view_push, lemma_last_index_of, Tree, Value,
};
use crate::ron::writer::{counts, escaped, written, written_entries, written_items};
use vstd::prelude::*;
use vstd::utf8::{
    decode_utf8_encode_utf8, encode_utf8, encode_utf8_decode_utf8, encode_utf8_valid_utf8,
};

verus! {

/// Whether a byte can stand in a key or a text as it is: it is no
/// whitespace, no bracket and no `:`.
pub open spec fn plain_byte(b: u8) -> bool {
    !is_space(b) && !is_bracket(b) && b != ID_CLOSE
}

/// Whether a text can be written as it is: it is not empty and all its
/// bytes are plain.
pub open spec fn plain_text(text: Seq<char>) -> bool {
    let bytes = encode_utf8(text);
    bytes.len() > 0 && forall|i: int| 0 <= i < bytes.len() ==> plain_byte(#[trigger] bytes[i])
}

/// Whether a key can be written as it is: it is a plain text that does not
/// end in `\`, which would take the `:` behind the key for its own.
pub open spec fn plain_key(text: Seq<char>) -> bool {
    plain_text(text) && encode_utf8(text).last() != ESCAPE
}

/// Whether a document holds no escape: no `\` with a `:` behind it.
pub open spec fn no_escapes(doc: Seq<u8>) -> bool {
    forall|k: int| 0 <= k && k + 1 < doc.len() ==> !(#[trigger] doc[k] == ESCAPE && doc[k + 1]
        == ID_CLOSE)
}

/// Whether all the keys and texts of a tree are plain.
pub open spec fn plain(tree: Tree) -> bool
    decreases tree,
{
    match tree {
        Tree::Text(text) => plain_text(text),
        Tree::Array(items) => forall|i: int| 0 <= i < items.len() ==> plain(#[trigger] items[i]),
        Tree::Object(fields) => forall|key: Seq<char>| #[trigger]
            fields.contains_key(key) ==> plain_key(key) && plain(fields[key]),
    }
}

/// What plainness says of each kind of tree.
proof fn lemma_plain(tree: Tree)
    ensures
        tree matches Tree::Text(text) ==> plain(tree) == plain_text(text),
        tree matches Tree::Array(items) ==> plain(tree) == (forall|i: int|
            0 <= i < items.len() ==> plain(#[trigger] items[i])),
        tree matches Tree::Object(fields) ==> plain(tree) == (forall|key: Seq<char>| #[trigger]
            fields.contains_key(key) ==> plain_key(key) && plain(fields[key])),
{
    match tree {
        Tree::Text(text) => {
            assert(plain(tree) == plain_text(text));
        },
        Tree::Array(items) => {
            assert(plain(tree) == (forall|i: int|
                0 <= i < items.len() ==> plain(#[trigger] items[i])));
        },
        Tree::Object(fields) => {
            assert(plain(tree) == (forall|key: Seq<char>| #[trigger]
                fields.contains_key(key) ==> plain_key(key) && plain(fields[key])));
        },
    }
}

/// The items of a plain array are plain.
proof fn lemma_plain_item(items: Seq<Value>, i: int)
    requires
        plain(Tree::Array(items_view(items))),
        0 <= i < items.len(),
    ensures
        plain(items[i]@),
{
    lemma_plain(Tree::Array(items_view(items)));
    lemma_items_view(items);
    assert(items_view(items)[i] == items[i]@);
}

/// The key and the value of an entry that counts in a plain object are
/// plain.
proof fn lemma_plain_entry(entries: Seq<(String, Value)>, k: int)
    requires
        plain(Tree::Object(fields_view(entries))),
        0 <= k < entries.len(),
        counts(entries, k),
    ensures
        plain_key(entries[k].0@),
        plain(entries[k].1@),
{
    let fields = fields_view(entries);
    let name = entries[k].0@;
    lemma_plain(Tree::Object(fields));
    lemma_fields_view(entries, name);
    assert(last_index_of(entries, name, entries.len() as int) == Some(k));
    assert(fields.contains_key(name));
    assert(fields[name] == entries[k].1@);
    let tree = Tree::Object(fields);
    assert(decreases_to!(tree => tree->Object_0[name]));
    assert(plain_key(name));
}

/// Whether `doc` holds `bytes` at position `at`.
pub open spec fn holds(doc: Seq<u8>, at: int, bytes: Seq<u8>) -> bool {
    &&& 0 <= at
    &&& at + bytes.len() <= doc.len()
    &&& forall|i: int| 0 <= i < bytes.len() ==> doc[at + i] == #[trigger] bytes[i]
}

/// Whether a run cannot go on at position `at`: the document ends there or
/// holds whitespace or a bracket.
pub open spec fn ends_run(doc: Seq<u8>, at: int) -> bool {
    at >= doc.len() || is_space(doc[at]) || is_bracket(doc[at])
}

/// A result with its token index moved on by `by`.
pub open spec fn bumped(result: Result<(Tree, int), Error>, by: int) -> Result<(Tree, int), Error> {
    match result {
        Ok((tree, next)) => Ok((tree, next + by)),
        Err(e) => Err(e),
    }
}

/// Where a document holds one piece before another, it holds the first
/// there and the second behind it.
proof fn lemma_holds_parts(doc: Seq<u8>, at: int, a: Seq<u8>, b: Seq<u8>)
    requires
        holds(doc, at, a + b),
    ensures
        holds(doc, at, a),
        holds(doc, at + a.len(), b),
{
    let ab = a + b;
    assert forall|i: int| 0 <= i < a.len() implies doc[at + i] == #[trigger] a[i] by {
        assert(ab[i] == a[i]);
    }
    assert forall|i: int| 0 <= i < b.len() implies doc[at + a.len() + i] == #[trigger] b[i] by {
        assert(ab[a.len() + i] == b[i]);
    }
}

/// A run over plain bytes ends where the plain bytes end.
proof fn lemma_run_over(doc: Seq<u8>, i: int, j: int)
    requires
        0 <= i <= j <= doc.len(),
        forall|k: int| i <= k < j ==> plain_byte(#[trigger] doc[k]),
        !in_run(doc, j),
    ensures
        run_end(doc, i) == j,
    decreases j - i,
{
    if i < j {
        assert(plain_byte(doc[i]));
        lemma_run_over(doc, i + 1, j);
    }
}

/// Plain bytes hold no escapes: they are read as they are.
proof fn lemma_unescaped_plain(doc: Seq<u8>, start: int, end: int)
    requires
        0 <= start <= end <= doc.len(),
        forall|k: int| start <= k < end ==> plain_byte(#[trigger] doc[k]),
    ensures
        unescaped(doc, start, end) == doc.subrange(start, end),
    decreases end - start,
{
    if start < end {
        if start + 1 < end {
            assert(plain_byte(doc[start + 1]));
        }
        lemma_unescaped_plain(doc, start + 1, end);
        assert(doc.subrange(start, end) == seq![doc[start]] + doc.subrange(start + 1, end));
    } else {
        assert(doc.subrange(start, end) == Seq::<u8>::empty());
    }
}

/// Plain bytes need no escapes: they are written as they are.
proof fn lemma_escaped_plain(bytes: Seq<u8>, from: int)
    requires
        0 <= from <= bytes.len(),
        forall|k: int| 0 <= k < bytes.len() ==> plain_byte(#[trigger] bytes[k]),
    ensures
        escaped(bytes, from) == bytes.subrange(from, bytes.len() as int),
    decreases bytes.len() - from,
{
    if from < bytes.len() {
        assert(plain_byte(bytes[from]));
        lemma_escaped_plain(bytes, from + 1);
        assert(bytes.subrange(from, bytes.len() as int) == seq![bytes[from]] + bytes.subrange(
            from + 1,
            bytes.len() as int,
        ));
    } else {
        assert(bytes.subrange(from, bytes.len() as int) == Seq::<u8>::empty());
    }
}

/// A plain text is written as its bytes.
proof fn lemma_written_text(text: Seq<char>)
    requires
        plain_text(text),
    ensures
        escaped(encode_utf8(text), 0) == encode_utf8(text),
{
    let bytes = encode_utf8(text);
    lemma_escaped_plain(bytes, 0);
    assert(bytes.subrange(0, bytes.len() as int) == bytes);
}

/// Where the document holds a plain text, the bytes there are plain and
/// read as the text.
proof fn lemma_text_in_place(doc: Seq<u8>, at: int, text: Seq<char>)
    requires
        plain_text(text),
        holds(doc, at, encode_utf8(text)),
    ensures
        forall|k: int| at <= k < at + encode_utf8(text).len() ==> plain_byte(#[trigger] doc[k]),
        token_text(doc, at, at + encode_utf8(text).len()) == Some(text),
        doc[at + encode_utf8(text).len() - 1] == encode_utf8(text).last(),
{
    let bytes = encode_utf8(text);
    assert(doc[at + (bytes.len() - 1)] == bytes[bytes.len() - 1]);
    assert forall|k: int| at <= k < at + bytes.len() implies plain_byte(#[trigger] doc[k]) by {
        assert(doc[at + (k - at)] == bytes[k - at]);
    }
    lemma_unescaped_plain(doc, at, at + bytes.len());
    assert(doc.subrange(at, at + bytes.len()) =~= bytes) by {
        assert forall|i: int| 0 <= i < bytes.len() implies doc.subrange(at, at + bytes.len())[i]
            == bytes[i] by {
            assert(doc[at + i] == bytes[i]);
        }
    }
    encode_utf8_valid_utf8(text);
    encode_utf8_decode_utf8(text);
}

/// Lexing at a plain text that something ends gives a text token.
proof fn lemma_lex_text(doc: Seq<u8>, at: int, len: int)
    requires
        0 <= at,
        0 < len,
        at + len <= doc.len(),
        forall|k: int| at <= k < at + len ==> plain_byte(#[trigger] doc[k]),
        ends_run(doc, at + len),
    ensures
        tokens_from(doc, at) == before(
            Token::Text { start: at as usize, end: (at + len) as usize },
            tokens_from(doc, at + len),
        ),
{
    assert(plain_byte(doc[at]));
    lemma_run_over(doc, at, at + len);
}

/// Lexing at a plain text that a `:` follows gives a key token.
proof fn lemma_lex_key(doc: Seq<u8>, at: int, len: int)
    requires
        0 <= at,
        0 < len,
        at + len < doc.len(),
        forall|k: int| at <= k < at + len ==> plain_byte(#[trigger] doc[k]),
        doc[at + len - 1] != ESCAPE,
        doc[at + len] == ID_CLOSE,
    ensures
        tokens_from(doc, at) == before(
            Token::Id { start: at as usize, end: (at + len) as usize },
            tokens_from(doc, at + len + 1),
        ),
{
    assert(plain_byte(doc[at]));
    assert(closes_key(doc, at + len));
    lemma_run_over(doc, at, at + len);
}

/// Reading a value depends only on the tokens from where it starts.
proof fn lemma_shift_value(src: Seq<u8>, pre: Seq<Token>, toks: Seq<Token>, i: int)
    requires
        0 <= i,
    ensures
        value_at(src, pre + toks, pre.len() + i) == bumped(value_at(src, toks, i), pre.len() as int),
    decreases toks.len() - i, 1nat,
{
    if i < toks.len() {
        assert((pre + toks)[pre.len() + i] == toks[i]);
        match toks[i] {
            Token::ObjectOpen { .. } => {
                lemma_shift_object(src, pre, toks, i + 1, Map::empty());
            },
            Token::ArrayOpen { .. } => {
                lemma_shift_array(src, pre, toks, i + 1, Seq::empty());
            },
            _ => {},
        }
    }
}

/// Reading the rest of an object depends only on the tokens from where it
/// starts.
proof fn lemma_shift_object(
    src: Seq<u8>,
    pre: Seq<Token>,
    toks: Seq<Token>,
    i: int,
    fields: Map<Seq<char>, Tree>,
)
    requires
        0 <= i,
    ensures
        object_from(src, pre + toks, pre.len() + i, fields) == bumped(
            object_from(src, toks, i, fields),
            pre.len() as int,
        ),
    decreases toks.len() - i, 0nat,
{
    if i < toks.len() {
        assert((pre + toks)[pre.len() + i] == toks[i]);
        match toks[i] {
            Token::Id { start, end } => {
                lemma_shift_value(src, pre, toks, i + 1);
                match token_text(src, start as int, end as int) {
                    Some(key) => match value_at(src, toks, i + 1) {
                        Ok((value, next)) => {
                            if i < next <= toks.len() {
                                lemma_shift_object(src, pre, toks, next, fields.insert(key, value));
                            }
                        },
                        Err(_) => {},
                    },
                    None => {},
                }
            },
            _ => {},
        }
    }
}

/// Reading the rest of an array depends only on the tokens from where it
/// starts.
proof fn lemma_shift_array(
    src: Seq<u8>,
    pre: Seq<Token>,
    toks: Seq<Token>,
    i: int,
    items: Seq<Tree>,
)
    requires
        0 <= i,
    ensures
        array_from(src, pre + toks, pre.len() + i, items) == bumped(
            array_from(src, toks, i, items),
            pre.len() as int,
        ),
    decreases toks.len() - i, 2nat,
{
    if i < toks.len() {
        assert((pre + toks)[pre.len() + i] == toks[i]);
        match toks[i] {
            Token::ArrayClose { .. } => {},
            _ => {
                lemma_shift_value(src, pre, toks, i);
                match value_at(src, toks, i) {
                    Ok((value, next)) => {
                        if i < next <= toks.len() {
                            lemma_shift_array(src, pre, toks, next, items.push(value));
                        }
                    },
                    Err(_) => {},
                }
            },
        }
    }
}

/// The entries of an object that count among those before entry `k`, as a
/// map.
pub open spec fn kept(entries: Seq<(String, Value)>, k: int) -> Map<Seq<char>, Tree> {
    Map::new(
        |key: Seq<char>|
            last_index_of(entries, key, entries.len() as int) matches Some(i) && i < k,
        |key: Seq<char>| entries[last_index_of(entries, key, entries.len() as int)->0].1@,
    )
}

/// Whether the tokens from `at` are those of a value that reads as `tree`,
/// followed by the tokens from `end`.
pub open spec fn reads_value(doc: Seq<u8>, at: int, end: int, tree: Tree) -> bool {
    &&& tokens_from(doc, end) matches Ok(rest)
    &&& tokens_from(doc, at) matches Ok(toks)
    &&& toks.len() > rest.len()
    &&& toks.skip(toks.len() - rest.len()) == rest
    &&& value_at(doc, toks, 0) == Ok::<(Tree, int), Error>((tree, toks.len() - rest.len()))
}

/// Whether the tokens from `at` are those of the rest of an array that,
/// after the items `done`, reads as `tree`, followed by the tokens from
/// `end`.
pub open spec fn reads_items(doc: Seq<u8>, at: int, end: int, done: Seq<Tree>, tree: Tree) -> bool {
    &&& tokens_from(doc, end) matches Ok(rest)
    &&& tokens_from(doc, at) matches Ok(toks)
    &&& toks.len() > rest.len()
    &&& toks.skip(toks.len() - rest.len()) == rest
    &&& array_from(doc, toks, 0, done) == Ok::<(Tree, int), Error>(
        (tree, toks.len() - rest.len()),
    )
}

/// Whether the tokens from `at` are those of the rest of an object that,
/// after the entries `done`, reads as `tree`, followed by the tokens from
/// `end`.
pub open spec fn reads_entries(
    doc: Seq<u8>,
    at: int,
    end: int,
    done: Map<Seq<char>, Tree>,
    tree: Tree,
) -> bool {
    &&& tokens_from(doc, end) matches Ok(rest)
    &&& tokens_from(doc, at) matches Ok(toks)
    &&& toks.len() > rest.len()
    &&& toks.skip(toks.len() - rest.len()) == rest
    &&& object_from(doc, toks, 0, done) == Ok::<(Tree, int), Error>(
        (tree, toks.len() - rest.len()),
    )
}

/// A value that stands written in a document reads as its tree.
#[verifier::rlimit(50)]
proof fn lemma_reads_value(doc: Seq<u8>, value: Value, at: int)
    requires
        doc.len() <= usize::MAX,
        plain(value@),
        holds(doc, at, written(value)),
        ends_run(doc, at + written(value).len()),
        tokens_from(doc, at + written(value).len()) is Ok,
    ensures
        reads_value(doc, at, at + written(value).len(), value@),
    decreases value, 0nat, 0nat,
{
    let end = at + written(value).len();
    let rest = tokens_from(doc, end)->Ok_0;
    lemma_plain(value@);
    match value {
        Value::Text(text) => {
            lemma_written_text(text@);
            lemma_text_in_place(doc, at, text@);
            lemma_lex_text(doc, at, encode_utf8(text@).len() as int);
            let toks = tokens_from(doc, at)->Ok_0;
            assert(toks == seq![Token::Text { start: at as usize, end: end as usize }] + rest);
            assert(toks.skip(1) == rest);
            assert(toks[0] == Token::Text { start: at as usize, end: end as usize });
        },
        Value::Array(items) => {
            let inner = written_items(items@, 0);
            lemma_holds_parts(doc, at, seq![ARRAY_OPEN] + inner, seq![ARRAY_CLOSE]);
            lemma_holds_parts(doc, at, seq![ARRAY_OPEN], inner);
            assert(doc[at] == ARRAY_OPEN) by {
                assert(seq![ARRAY_OPEN][0] == ARRAY_OPEN);
            }
            assert(holds(doc, at + 1, inner + seq![ARRAY_CLOSE])) by {
                let both = inner + seq![ARRAY_CLOSE];
                assert forall|i: int| 0 <= i < both.len() implies doc[at + 1 + i]
                    == #[trigger] both[i] by {
                    if i < inner.len() {
                        assert(inner[i] == both[i]);
                    } else {
                        assert(seq![ARRAY_CLOSE][i - inner.len()] == both[i]);
                    }
                }
            }
            lemma_items_view(items@);
            assert(value@ == Tree::Array(items_view(items@)));
            assert forall|i: int| 0 <= i < items@.len() implies plain(#[trigger] items@[i]@) by {
                lemma_plain_item(items@, i);
            }
            assert(items@.take(0) == Seq::<Value>::empty());
            lemma_reads_items(doc, items@, 0, at + 1);
            let inside = tokens_from(doc, at + 1)->Ok_0;
            let open = seq![Token::ArrayOpen { at: at as usize }];
            let toks = tokens_from(doc, at)->Ok_0;
            assert(toks == open + inside);
            let n = inside.len() - rest.len();
            assert(toks.skip(n + 1) == inside.skip(n));
            assert(toks[0] == Token::ArrayOpen { at: at as usize });
            lemma_shift_array(doc, open, inside, 0, Seq::empty());
        },
        Value::Object(entries) => {
            let inner = written_entries(entries@, 0);
            lemma_holds_parts(doc, at, seq![OBJECT_OPEN] + inner, seq![OBJECT_CLOSE]);
            lemma_holds_parts(doc, at, seq![OBJECT_OPEN], inner);
            assert(doc[at] == OBJECT_OPEN) by {
                assert(seq![OBJECT_OPEN][0] == OBJECT_OPEN);
            }
            assert(holds(doc, at + 1, inner + seq![OBJECT_CLOSE])) by {
                let both = inner + seq![OBJECT_CLOSE];
                assert forall|i: int| 0 <= i < both.len() implies doc[at + 1 + i]
                    == #[trigger] both[i] by {
                    if i < inner.len() {
                        assert(inner[i] == both[i]);
                    } else {
                        assert(seq![OBJECT_CLOSE][i - inner.len()] == both[i]);
                    }
                }
            }
            assert(value@ == Tree::Object(fields_view(entries@)));
            assert(kept(entries@, 0) =~= Map::<Seq<char>, Tree>::empty()) by {
                assert forall|key: Seq<char>| !(#[trigger] kept(entries@, 0).dom().contains(
                    key,
                )) by {
                    lemma_last_index_of(entries@, key, entries@.len() as int);
                }
            }
            lemma_reads_entries(doc, entries@, 0, at + 1);
            let inside = tokens_from(doc, at + 1)->Ok_0;
            let open = seq![Token::ObjectOpen { at: at as usize }];
            let toks = tokens_from(doc, at)->Ok_0;
            assert(toks == open + inside);
            let n = inside.len() - rest.len();
            assert(toks.skip(n + 1) == inside.skip(n));
            assert(toks[0] == Token::ObjectOpen { at: at as usize });
            lemma_shift_object(doc, open, inside, 0, Map::empty());
        },
    }
}

/// The items of an array from item `k` on, standing written in a document
/// before the `]`, read as the rest of the array.
#[verifier::rlimit(50)]
proof fn lemma_reads_items(doc: Seq<u8>, items: Seq<Value>, k: int, at: int)
    requires
        doc.len() <= usize::MAX,
        0 <= k <= items.len(),
        forall|i: int| 0 <= i < items.len() ==> plain(#[trigger] items[i]@),
        holds(doc, at, written_items(items, k) + seq![ARRAY_CLOSE]),
        tokens_from(doc, at + written_items(items, k).len() + 1) is Ok,
    ensures
        reads_items(
            doc,
            at,
            at + written_items(items, k).len() + 1,
            items_view(items.take(k)),
            Tree::Array(items_view(items)),
        ),
    decreases items, 0nat, items.len() - k,
{
    let body = written_items(items, k);
    let end = at + body.len() + 1;
    let rest = tokens_from(doc, end)->Ok_0;
    let done = items_view(items.take(k));
    lemma_holds_parts(doc, at, body, seq![ARRAY_CLOSE]);
    if k == items.len() {
        assert(doc[at] == ARRAY_CLOSE) by {
            assert(seq![ARRAY_CLOSE][0] == ARRAY_CLOSE);
        }
        let toks = tokens_from(doc, at)->Ok_0;
        assert(toks == seq![Token::ArrayClose { at: at as usize }] + rest);
        assert(toks.skip(1) == rest);
        assert(toks[0] == Token::ArrayClose { at: at as usize });
        assert(items.take(k) == items);
    } else {
        let item = items[k];
        let one = written(item);
        let more = written_items(items, k + 1);
        assert(body == one + seq![BLANK] + more);
        lemma_holds_parts(doc, at, one + seq![BLANK], more);
        lemma_holds_parts(doc, at, one, seq![BLANK]);
        let blank = at + one.len();
        assert(doc[blank] == BLANK) by {
            assert(seq![BLANK][0] == BLANK);
        }
        let next = blank + 1;
        assert(holds(doc, next, more + seq![ARRAY_CLOSE])) by {
            let both = more + seq![ARRAY_CLOSE];
            assert forall|i: int| 0 <= i < both.len() implies doc[next + i] == #[trigger] both[i] by {
                if i < more.len() {
                    assert(more[i] == both[i]);
                } else {
                    assert(seq![ARRAY_CLOSE][i - more.len()] == both[i]);
                }
            }
        }
        lemma_reads_items(doc, items, k + 1, next);
        let tail = tokens_from(doc, next)->Ok_0;
        assert(tokens_from(doc, blank) == tokens_from(doc, next));
        lemma_reads_value(doc, item, at);
        let toks = tokens_from(doc, at)->Ok_0;
        let n1 = toks.len() - tail.len();
        let n2 = tail.len() - rest.len();
        assert(toks.skip(n1 + n2) == tail.skip(n2));
        assert(items.take(k + 1) == items.take(k).push(item));
        lemma_items_view_push(items.take(k), item);
        assert(toks == toks.take(n1) + tail);
        lemma_shift_array(doc, toks.take(n1), tail, 0, done.push(item@));
        assert(!(toks[0] is ArrayClose));
    }
}

/// All the entries that count are the fields of the object.
proof fn lemma_kept_all(entries: Seq<(String, Value)>)
    ensures
        kept(entries, entries.len() as int) == fields_view(entries),
{
    let done = kept(entries, entries.len() as int);
    let fields = fields_view(entries);
    assert forall|key: Seq<char>| #[trigger]
        done.dom().contains(key) == fields.dom().contains(key) by {
        lemma_fields_view(entries, key);
        lemma_last_index_of(entries, key, entries.len() as int);
    }
    assert forall|key: Seq<char>| #[trigger] done.dom().contains(key) implies done[key]
        == fields[key] by {
        lemma_fields_view(entries, key);
        lemma_last_index_of(entries, key, entries.len() as int);
    }
    assert(done =~= fields);
}

/// With one entry more the entries that count are those that counted,
/// together with the new one where it counts.
proof fn lemma_kept_next(entries: Seq<(String, Value)>, k: int)
    requires
        0 <= k < entries.len(),
    ensures
        kept(entries, k + 1) == if counts(entries, k) {
            kept(entries, k).insert(entries[k].0@, entries[k].1@)
        } else {
            kept(entries, k)
        },
{
    let done = kept(entries, k);
    let wanted = kept(entries, k + 1);
    let grown = if counts(entries, k) {
        done.insert(entries[k].0@, entries[k].1@)
    } else {
        done
    };
    assert forall|other: Seq<char>| #[trigger]
        grown.dom().contains(other) == wanted.dom().contains(other) by {
        lemma_last_index_of(entries, other, entries.len() as int);
    }
    assert forall|other: Seq<char>| #[trigger] grown.dom().contains(other) implies grown[other]
        == wanted[other] by {
        lemma_last_index_of(entries, other, entries.len() as int);
    }
    assert(grown =~= wanted);
}

/// Where a document holds one piece before another, it holds the second
/// behind the first, and behind a third piece that follows them.
proof fn lemma_holds_rest(doc: Seq<u8>, at: int, first: Seq<u8>, rest: Seq<u8>, last: Seq<u8>)
    requires
        holds(doc, at, first + rest + last),
    ensures
        holds(doc, at, first),
        holds(doc, at + first.len(), rest + last),
{
    assert(first + rest + last == first + (rest + last));
    lemma_holds_parts(doc, at, first, rest + last);
}

/// The tokens of an entry that stands written before the rest of an
/// object: a key, the tokens of the value and the tokens of the rest.
#[verifier::rlimit(50)]
proof fn lemma_reads_entry(
    doc: Seq<u8>,
    at: int,
    name: Seq<char>,
    value: Tree,
    start: int,
    next: int,
    end: int,
    done: Map<Seq<char>, Tree>,
    tree: Tree,
)
    requires
        doc.len() <= usize::MAX,
        plain_key(name),
        holds(doc, at, encode_utf8(name) + seq![ID_CLOSE]),
        start == at + encode_utf8(name).len() + 1,
        start <= next <= doc.len(),
        tokens_from(doc, start) is Ok,
        tokens_from(doc, next) is Ok,
        ({
            let middle = tokens_from(doc, start)->Ok_0;
            let tail = tokens_from(doc, next)->Ok_0;
            &&& middle.len() > tail.len()
            &&& middle.skip(middle.len() - tail.len()) == tail
            &&& value_at(doc, middle, 0) == Ok::<(Tree, int), Error>(
                (value, middle.len() - tail.len()),
            )
        }),
        reads_entries(doc, next, end, done.insert(name, value), tree),
    ensures
        reads_entries(doc, at, end, done, tree),
{
    let key = encode_utf8(name);
    let middle = tokens_from(doc, start)->Ok_0;
    let tail = tokens_from(doc, next)->Ok_0;
    let rest = tokens_from(doc, end)->Ok_0;
    lemma_holds_parts(doc, at, key, seq![ID_CLOSE]);
    let colon = at + key.len();
    assert(doc[colon] == ID_CLOSE) by {
        assert(seq![ID_CLOSE][0] == ID_CLOSE);
    }
    lemma_text_in_place(doc, at, name);
    lemma_lex_key(doc, at, key.len() as int);
    let id = seq![Token::Id { start: at as usize, end: colon as usize }];
    let toks = tokens_from(doc, at)->Ok_0;
    assert(toks == id + middle);
    assert(toks[0] == Token::Id { start: at as usize, end: colon as usize });
    let nv = middle.len() - tail.len();
    let n2 = tail.len() - rest.len();
    assert(toks.skip(1 + nv + n2) == tail.skip(n2));
    lemma_shift_value(doc, id, middle, 0);
    assert(value_at(doc, toks, 1) == Ok::<(Tree, int), Error>((value, nv + 1)));
    assert(toks == toks.take(nv + 1) + tail);
    lemma_shift_object(doc, toks.take(nv + 1), tail, 0, done.insert(name, value));
}

/// The entries of an object from entry `k` on, standing written in a
/// document before the `}`, read as the rest of the object.
#[verifier::rlimit(50)]
proof fn lemma_reads_entries(doc: Seq<u8>, entries: Seq<(String, Value)>, k: int, at: int)
    requires
        doc.len() <= usize::MAX,
        0 <= k <= entries.len(),
        plain(Tree::Object(fields_view(entries))),
        holds(doc, at, written_entries(entries, k) + seq![OBJECT_CLOSE]),
        tokens_from(doc, at + written_entries(entries, k).len() + 1) is Ok,
    ensures
        reads_entries(
            doc,
            at,
            at + written_entries(entries, k).len() + 1,
            kept(entries, k),
            Tree::Object(fields_view(entries)),
        ),
    decreases entries, 0nat, entries.len() - k,
{
    let body = written_entries(entries, k);
    let end = at + body.len() + 1;
    let rest = tokens_from(doc, end)->Ok_0;
    let done = kept(entries, k);
    let fields = fields_view(entries);
    if k == entries.len() {
        lemma_holds_parts(doc, at, body, seq![OBJECT_CLOSE]);
        assert(doc[at] == OBJECT_CLOSE) by {
            assert(seq![OBJECT_CLOSE][0] == OBJECT_CLOSE);
        }
        let toks = tokens_from(doc, at)->Ok_0;
        assert(toks == seq![Token::ObjectClose { at: at as usize }] + rest);
        assert(toks.skip(1) == rest);
        assert(toks[0] == Token::ObjectClose { at: at as usize });
        lemma_kept_all(entries);
    } else if counts(entries, k) {
        let name = entries[k].0@;
        let value = entries[k].1;
        lemma_plain_entry(entries, k);
        lemma_written_text(name);
        lemma_kept_next(entries, k);
        let key = encode_utf8(name);
        let one = written(value);
        let more = written_entries(entries, k + 1);
        assert(body + seq![OBJECT_CLOSE] == (key + seq![ID_CLOSE]) + (one + seq![BLANK]) + (more
            + seq![OBJECT_CLOSE]));
        lemma_holds_rest(doc, at, key + seq![ID_CLOSE], one + seq![BLANK], more + seq![OBJECT_CLOSE]);
        let start = at + key.len() + 1;
        assert(one + seq![BLANK] + (more + seq![OBJECT_CLOSE]) == one + (seq![BLANK] + (more
            + seq![OBJECT_CLOSE])));
        lemma_holds_parts(doc, start, one, seq![BLANK] + (more + seq![OBJECT_CLOSE]));
        let blank = start + one.len();
        lemma_holds_parts(doc, blank, seq![BLANK], more + seq![OBJECT_CLOSE]);
        assert(doc[blank] == BLANK) by {
            assert(seq![BLANK][0] == BLANK);
        }
        let next = blank + 1;
        lemma_reads_entries(doc, entries, k + 1, next);
        assert(tokens_from(doc, blank) == tokens_from(doc, next));
        lemma_reads_value(doc, value, start);
        lemma_reads_entry(doc, at, name, value@, start, next, end, done, Tree::Object(fields));
    } else {
        lemma_kept_next(entries, k);
        lemma_reads_entries(doc, entries, k + 1, at);
    }
}

/// A document that is written from a value reads back as that value, where
/// the keys and texts of the value are plain, that is not empty and without
/// whitespace, brackets and `:`, no key ends in `\`, and the document is
/// no longer than a machine can hold.
pub proof fn lemma_round_trip(value: Value)
    requires
        plain(value@),
        written(value).len() <= usize::MAX,
    ensures
        parse_spec(written(value)) == Ok::<Tree, Error>(value@),
{
    let doc = written(value);
    assert(holds(doc, 0, doc));
    lemma_reads_value(doc, value, 0);
}

/// An object whose keys and values are plain is plain.
proof fn lemma_plain_object(fields: Map<Seq<char>, Tree>)
    requires
        forall|key: Seq<char>| #[trigger]
            fields.contains_key(key) ==> plain_key(key) && plain(fields[key]),
    ensures
        plain(Tree::Object(fields)),
{
    let tree = Tree::Object(fields);
    lemma_plain(tree);
    assert forall|key: Seq<char>| #[trigger] fields.contains_key(key) implies plain_key(key)
        && plain(fields[key]) by {
        assert(decreases_to!(tree => tree->Object_0[key]));
    }
}

/// The keys and values of a plain object are plain.
proof fn lemma_plain_field(fields: Map<Seq<char>, Tree>, key: Seq<char>)
    requires
        plain(Tree::Object(fields)),
        fields.contains_key(key),
    ensures
        plain_key(key),
        plain(fields[key]),
{
    let tree = Tree::Object(fields);
    lemma_plain(tree);
    assert(decreases_to!(tree => tree->Object_0[key]));
}

/// An array whose items are plain is plain.
proof fn lemma_plain_array(items: Seq<Tree>)
    requires
        forall|i: int| 0 <= i < items.len() ==> plain(#[trigger] items[i]),
    ensures
        plain(Tree::Array(items)),
{
    lemma_plain(Tree::Array(items));
}

/// Whether a key or text token covers a range of plain bytes that is not
/// empty.
pub open spec fn plain_token(doc: Seq<u8>, token: Token) -> bool {
    match token {
        Token::Id { start, end } => start < end <= doc.len() && doc[end - 1] != ESCAPE && forall|
            k: int,
        | start <= k < end ==> plain_byte(#[trigger] doc[k]),
        Token::Text { start, end } => start < end <= doc.len() && forall|k: int|
            start <= k < end ==> plain_byte(#[trigger] doc[k]),
        _ => true,
    }
}

/// In a document without escapes the keys and texts are runs of plain
/// bytes.
proof fn lemma_tokens_plain(doc: Seq<u8>, i: int)
    requires
        0 <= i,
        doc.len() <= usize::MAX,
        no_escapes(doc),
    ensures
        tokens_from(doc, i) matches Ok(toks) ==> forall|j: int|
            0 <= j < toks.len() ==> plain_token(doc, #[trigger] toks[j]),
    decreases doc.len() - i,
{
    if i < doc.len() {
        if is_space(doc[i]) {
            lemma_tokens_plain(doc, i + 1);
        } else if is_bracket(doc[i]) {
            lemma_tokens_plain(doc, i + 1);
            match tokens_from(doc, i + 1) {
                Ok(rest) => {
                    let toks = tokens_from(doc, i)->Ok_0;
                    assert forall|j: int| 0 <= j < toks.len() implies plain_token(
                        doc,
                        #[trigger] toks[j],
                    ) by {
                        if j > 0 {
                            assert(toks[j] == rest[j - 1]);
                        }
                    }
                },
                Err(_) => {},
            }
        } else if !closes_key(doc, i) {
            let end = run_end(doc, i);
            lemma_run_end(doc, i);
            assert forall|k: int| i <= k < end implies plain_byte(#[trigger] doc[k]) by {
                assert(in_run(doc, k));
                if k > 0 {
                    assert(!(doc[k - 1] == ESCAPE && doc[k] == ID_CLOSE));
                }
            }
            let next = if closes_key(doc, end) {
                end + 1
            } else {
                end
            };
            lemma_tokens_plain(doc, next);
            match tokens_from(doc, next) {
                Ok(rest) => {
                    let toks = tokens_from(doc, i)->Ok_0;
                    assert forall|j: int| 0 <= j < toks.len() implies plain_token(
                        doc,
                        #[trigger] toks[j],
                    ) by {
                        if j > 0 {
                            assert(toks[j] == rest[j - 1]);
                        }
                    }
                },
                Err(_) => {},
            }
        }
    }
}

/// The text of a token of plain bytes is plain.
proof fn lemma_token_text_plain(doc: Seq<u8>, start: int, end: int)
    requires
        0 <= start < end <= doc.len(),
        forall|k: int| start <= k < end ==> plain_byte(#[trigger] doc[k]),
    ensures
        token_text(doc, start, end) matches Some(text) ==> plain_text(text) && (doc[end - 1]
            != ESCAPE ==> plain_key(text)),
{
    lemma_unescaped_plain(doc, start, end);
    let bytes = doc.subrange(start, end);
    match token_text(doc, start, end) {
        Some(text) => {
            decode_utf8_encode_utf8(bytes);
            assert forall|i: int| 0 <= i < bytes.len() implies plain_byte(#[trigger] bytes[i]) by {
                assert(bytes[i] == doc[start + i]);
            }
            assert(bytes.last() == doc[end - 1]);
        },
        None => {},
    }
}

/// A value that is read from tokens of plain bytes is plain.
proof fn lemma_value_plain(doc: Seq<u8>, toks: Seq<Token>, i: int)
    requires
        forall|j: int| 0 <= j < toks.len() ==> plain_token(doc, #[trigger] toks[j]),
    ensures
        value_at(doc, toks, i) matches Ok((tree, _)) ==> plain(tree),
    decreases toks.len() - i, 1nat,
{
    if 0 <= i < toks.len() {
        assert(plain_token(doc, toks[i]));
        match toks[i] {
            Token::ObjectOpen { .. } => {
                lemma_plain_object(Map::empty());
                lemma_object_plain(doc, toks, i + 1, Map::empty());
            },
            Token::ArrayOpen { .. } => {
                lemma_plain_array(Seq::empty());
                lemma_array_plain(doc, toks, i + 1, Seq::empty());
            },
            Token::Text { start, end } => {
                lemma_token_text_plain(doc, start as int, end as int);
                match token_text(doc, start as int, end as int) {
                    Some(text) => {
                        lemma_plain(Tree::Text(text));
                    },
                    None => {},
                }
            },
            _ => {},
        }
    }
}

/// The rest of an object that is read from tokens of plain bytes is plain,
/// where the entries before it are.
proof fn lemma_object_plain(
    doc: Seq<u8>,
    toks: Seq<Token>,
    i: int,
    fields: Map<Seq<char>, Tree>,
)
    requires
        forall|j: int| 0 <= j < toks.len() ==> plain_token(doc, #[trigger] toks[j]),
        plain(Tree::Object(fields)),
    ensures
        object_from(doc, toks, i, fields) matches Ok((tree, _)) ==> plain(tree),
    decreases toks.len() - i, 0nat,
{
    if 0 <= i < toks.len() {
        assert(plain_token(doc, toks[i]));
        match toks[i] {
            Token::Id { start, end } => {
                lemma_token_text_plain(doc, start as int, end as int);
                lemma_value_plain(doc, toks, i + 1);
                match token_text(doc, start as int, end as int) {
                    Some(key) => match value_at(doc, toks, i + 1) {
                        Ok((value, next)) => {
                            if i < next <= toks.len() {
                                let grown = fields.insert(key, value);
                                assert forall|other: Seq<char>| #[trigger]
                                    grown.contains_key(other) implies plain_key(other) && plain(
                                    grown[other],
                                ) by {
                                    if other != key {
                                        lemma_plain_field(fields, other);
                                    }
                                }
                                lemma_plain_object(grown);
                                lemma_object_plain(doc, toks, next, grown);
                            }
                        },
                        Err(_) => {},
                    },
                    None => {},
                }
            },
            _ => {},
        }
    }
}

/// The rest of an array that is read from tokens of plain bytes is plain,
/// where the items before it are.
proof fn lemma_array_plain(doc: Seq<u8>, toks: Seq<Token>, i: int, items: Seq<Tree>)
    requires
        forall|j: int| 0 <= j < toks.len() ==> plain_token(doc, #[trigger] toks[j]),
        plain(Tree::Array(items)),
    ensures
        array_from(doc, toks, i, items) matches Ok((tree, _)) ==> plain(tree),
    decreases toks.len() - i, 2nat,
{
    if 0 <= i < toks.len() {
        match toks[i] {
            Token::ArrayClose { .. } => {},
            _ => {
                lemma_value_plain(doc, toks, i);
                match value_at(doc, toks, i) {
                    Ok((value, next)) => {
                        if i < next <= toks.len() {
                            let grown = items.push(value);
                            lemma_plain(Tree::Array(items));
                            assert forall|j: int| 0 <= j < grown.len() implies plain(
                                #[trigger] grown[j],
                            ) by {
                                if j < items.len() {
                                    assert(grown[j] == items[j]);
                                }
                            }
                            lemma_plain_array(grown);
                            lemma_array_plain(doc, toks, next, grown);
                        }
                    },
                    Err(_) => {},
                }
            },
        }
    }
}

/// What is read from a document without escapes is plain.
pub proof fn lemma_read_is_plain(doc: Seq<u8>)
    requires
        doc.len() <= usize::MAX,
        no_escapes(doc),
    ensures
        parse_spec(doc) matches Ok(tree) ==> plain(tree),
{
    lemma_tokens_plain(doc, 0);
    match tokens_of(doc) {
        Ok(toks) => {
            lemma_value_plain(doc, toks, 0);
        },
        Err(_) => {},
    }
}

/// Reading, writing and reading again gives the tree that the first
/// reading gave: where a document without escapes reads as a value, the
/// document that is written from the value reads as an equal tree.
pub proof fn lemma_read_write_read(doc: Seq<u8>, value: Value)
    requires
        doc.len() <= usize::MAX,
        written(value).len() <= usize::MAX,
        no_escapes(doc),
        parse_spec(doc) == Ok::<Tree, Error>(value@),
    ensures
        parse_spec(written(value)) == Ok::<Tree, Error>(value@),
{
    lemma_read_is_plain(doc);
    lemma_round_trip(value);
}

} // verus!
