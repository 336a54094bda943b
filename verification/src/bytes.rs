//! Bytes and text: the classes of bytes that the grammars speak of, and the
//! passage between bytes and strings.

use crate::error::ErrorKind;
use vstd::prelude::*;
use vstd::utf8::{decode_utf8, valid_utf8};

verus! {

/// The blank.
pub const BLANK: u8 = 32;

/// `.`, which parts the segments of a path.
pub const DOT: u8 = 46;

/// ASCII whitespace: blank, tab, line feed, form feed, carriage return.
pub open spec fn is_space(b: u8) -> bool {
    b == BLANK || b == 9 || b == 10 || b == 12 || b == 13
}

/// Whether `b` is ASCII whitespace.
#[verifier::when_used_as_spec(is_space)]
pub fn byte_is_space(b: u8) -> (r: bool)
    ensures
        r == is_space(b),
{
    b == BLANK || b == 9 || b == 10 || b == 12 || b == 13
}

/// The text that bytes hold, where they are well-formed UTF-8.
pub open spec fn text_of(bytes: Seq<u8>) -> Option<Seq<char>> {
    if valid_utf8(bytes) {
        Some(decode_utf8(bytes))
    } else {
        None
    }
}

/// `String::from_utf8` of std: it accepts exactly the byte strings that are
/// well-formed UTF-8, and the string it gives holds the scalar values that
/// they encode.
#[verifier::external_body]
pub(crate) fn string_from_utf8(bytes: Vec<u8>) -> (text: Option<String>)
    ensures
        text is Some <==> valid_utf8(bytes@),
        text matches Some(s) ==> s@ == decode_utf8(bytes@),
{
    match String::from_utf8(bytes) {
        Ok(s) => Some(s),
        Err(_) => None,
    }
}

/// The bytes of `source` from `start` up to `end`, copied.
pub fn copy_range(source: &[u8], start: usize, end: usize) -> (copy: Vec<u8>)
    requires
        start <= end <= source@.len(),
    ensures
        copy@ == source@.subrange(start as int, end as int),
{
    let mut copy: Vec<u8> = Vec::new();
    let mut i: usize = start;
    while i < end
        invariant
            start <= i <= end <= source@.len(),
            copy@ == source@.subrange(start as int, i as int),
        decreases end - i,
    {
        copy.push(source[i]);
        i += 1;
    }
    copy
}


/// `String::push` of std appends one character to the string.
pub assume_specification[ String::push ](s: &mut String, ch: char)
    ensures
        final(s)@ == old(s)@.push(ch),
;

/// The characters of a string, in order.
pub fn chars_of(s: &str) -> (chars: Vec<char>)
    ensures
        chars@ == s@,
{
    let mut chars: Vec<char> = Vec::new();
    for c in it: s.chars()
        invariant
            chars@ == it.seq().take(it.index() as int),
            it.seq() == s@,
    {
        chars.push(c);
    }
    chars
}

/// Adds `bytes` to the end of `out`.
pub fn append(out: &mut Vec<u8>, bytes: &[u8])
    ensures
        final(out)@ == old(out)@ + bytes@,
{
    let mut i: usize = 0;
    proof {
        assert(old(out)@ + bytes@.take(0) == old(out)@);
    }
    while i < bytes.len()
        invariant
            i <= bytes@.len(),
            out@ == old(out)@ + bytes@.take(i as int),
        decreases bytes.len() - i,
    {
        out.push(bytes[i]);
        i += 1;
        proof {
            assert(bytes@.take(i as int) == bytes@.take(i - 1).push(bytes@[i - 1]));
            assert(old(out)@ + bytes@.take(i - 1).push(bytes@[i - 1]) == (old(out)@ + bytes@.take(
                i - 1,
            )).push(bytes@[i - 1]));
        }
    }
    proof {
        assert(bytes@.take(i as int) == bytes@);
    }
}

/// Whether two byte strings are the same.
pub fn same_bytes(a: &[u8], b: &[u8]) -> (same: bool)
    ensures
        same == (a@ == b@),
{
    if a.len() != b.len() {
        return false;
    }
    let mut i: usize = 0;
    while i < a.len()
        invariant
            i <= a.len(),
            a.len() == b.len(),
            forall|j: int| 0 <= j < i ==> a@[j] == b@[j],
        decreases a.len() - i,
    {
        if a[i] != b[i] {
            return false;
        }
        i += 1;
    }
    proof {
        assert(a@ =~= b@);
    }
    true
}

/// The first position from `from` on at which `source` holds `b`, or the
/// length of `source` where it holds none.
pub open spec fn position_of(source: Seq<u8>, b: u8, from: int) -> int
    decreases source.len() - from,
{
    if from < 0 || from >= source.len() {
        source.len() as int
    } else if source[from] == b {
        from
    } else {
        position_of(source, b, from + 1)
    }
}

/// The position found holds the byte, or is the length, and no position
/// before it from `from` on holds the byte.
pub proof fn lemma_position_of(source: Seq<u8>, b: u8, from: int)
    requires
        0 <= from <= source.len(),
    ensures
        from <= position_of(source, b, from) <= source.len(),
        position_of(source, b, from) < source.len() ==> source[position_of(source, b, from)] == b,
        forall|j: int| from <= j < position_of(source, b, from) ==> source[j] != b,
    decreases source.len() - from,
{
    if from < source.len() && source[from] != b {
        lemma_position_of(source, b, from + 1);
    }
}

/// Finds the first `b` in `source` from `from` on.
pub fn find_byte(source: &[u8], b: u8, from: usize) -> (at: usize)
    requires
        from <= source@.len(),
    ensures
        at == position_of(source@, b, from as int),
        from <= at <= source@.len(),
{
    proof {
        lemma_position_of(source@, b, from as int);
    }
    let mut at: usize = from;
    while at < source.len() && source[at] != b
        invariant
            from <= at <= source@.len(),
            position_of(source@, b, from as int) == position_of(source@, b, at as int),
        decreases source.len() - at,
    {
        at += 1;
    }
    at
}

/// The first position from `from` on and below `end` at which `source` holds
/// `b`, or `end` where it holds none there.
pub open spec fn position_in(source: Seq<u8>, b: u8, from: int, end: int) -> int
    decreases end - from,
{
    if from >= end {
        end
    } else if 0 <= from < source.len() && source[from] == b {
        from
    } else {
        position_in(source, b, from + 1, end)
    }
}

/// Finds the first `b` in `source[from..end]`.
pub fn find_in(source: &[u8], b: u8, from: usize, end: usize) -> (at: usize)
    requires
        from <= end <= source@.len(),
    ensures
        at == position_in(source@, b, from as int, end as int),
        from <= at <= end,
{
    let mut at: usize = from;
    while at < end && source[at] != b
        invariant
            from <= at <= end <= source@.len(),
            position_in(source@, b, from as int, end as int) == position_in(
                source@,
                b,
                at as int,
                end as int,
            ),
        decreases end - at,
    {
        at += 1;
    }
    at
}

/// The first position from `start` on, below `end`, that holds no whitespace,
/// or `end`.
pub open spec fn skip_spaces(source: Seq<u8>, start: int, end: int) -> int
    decreases end - start,
{
    if start < end && 0 <= start < source.len() && is_space(source[start]) {
        skip_spaces(source, start + 1, end)
    } else {
        start
    }
}

/// The end of `source[start..end]` without the whitespace at its end.
pub open spec fn drop_spaces(source: Seq<u8>, start: int, end: int) -> int
    decreases end - start,
{
    if start < end && 0 < end <= source.len() && is_space(source[end - 1]) {
        drop_spaces(source, start, end - 1)
    } else {
        end
    }
}

/// The range that is left of `source[start..end]` when the whitespace at both
/// its ends is taken off. Whitespace inside stays.
pub open spec fn trimmed(source: Seq<u8>, start: int, end: int) -> (int, int) {
    let first = skip_spaces(source, start, end);
    (first, drop_spaces(source, first, end))
}

/// What is left after trimming lies inside the range that was trimmed.
pub proof fn lemma_trimmed(source: Seq<u8>, start: int, end: int)
    requires
        0 <= start <= end <= source.len(),
    ensures
        start <= trimmed(source, start, end).0 <= trimmed(source, start, end).1 <= end,
{
    lemma_skip_spaces(source, start, end);
    lemma_drop_spaces(source, skip_spaces(source, start, end), end);
}

/// Skipping whitespace stays inside the range.
pub proof fn lemma_skip_spaces(source: Seq<u8>, start: int, end: int)
    requires
        0 <= start <= end <= source.len(),
    ensures
        start <= skip_spaces(source, start, end) <= end,
    decreases end - start,
{
    if start < end && is_space(source[start]) {
        lemma_skip_spaces(source, start + 1, end);
    }
}

/// Dropping whitespace stays inside the range.
pub proof fn lemma_drop_spaces(source: Seq<u8>, start: int, end: int)
    requires
        0 <= start <= end <= source.len(),
    ensures
        start <= drop_spaces(source, start, end) <= end,
    decreases end - start,
{
    if start < end && is_space(source[end - 1]) {
        lemma_drop_spaces(source, start, end - 1);
    }
}

/// Takes the whitespace off both ends of `source[start..end]`.
pub fn trim(source: &[u8], start: usize, end: usize) -> (range: (usize, usize))
    requires
        start <= end <= source@.len(),
    ensures
        (range.0 as int, range.1 as int) == trimmed(source@, start as int, end as int),
        start <= range.0 <= range.1 <= end,
{
    proof {
        lemma_trimmed(source@, start as int, end as int);
    }
    let mut first: usize = start;
    while first < end && byte_is_space(source[first])
        invariant
            start <= first <= end <= source@.len(),
            skip_spaces(source@, start as int, end as int) == skip_spaces(
                source@,
                first as int,
                end as int,
            ),
        decreases end - first,
    {
        first += 1;
    }
    let mut last: usize = end;
    while first < last && byte_is_space(source[last - 1])
        invariant
            first <= last <= end <= source@.len(),
            drop_spaces(source@, first as int, end as int) == drop_spaces(
                source@,
                first as int,
                last as int,
            ),
        decreases last - first,
    {
        last -= 1;
    }
    (first, last)
}

/// The parts of `source[start..end]` between the separators `sep`: one part
/// more than there are separators, so at least one.
pub open spec fn split(source: Seq<u8>, sep: u8, start: int, end: int) -> Seq<Seq<u8>>
    decreases end - start,
{
    if start >= end {
        seq![Seq::empty()]
    } else {
        let front = split(source, sep, start, end - 1);
        if source[end - 1] == sep {
            front.push(Seq::empty())
        } else {
            front.update(front.len() - 1, front.last().push(source[end - 1]))
        }
    }
}

/// Splits `source[start..end]` at each `sep`.
pub fn split_at(source: &[u8], sep: u8, start: usize, end: usize) -> (parts: Vec<Vec<u8>>)
    requires
        start <= end <= source@.len(),
    ensures
        parts@.len() >= 1,
        parts@.len() == split(source@, sep, start as int, end as int).len(),
        forall|i: int|
            0 <= i < parts@.len() ==> (#[trigger] parts@[i])@ == split(
                source@,
                sep,
                start as int,
                end as int,
            )[i],
{
    let mut parts: Vec<Vec<u8>> = Vec::new();
    let mut current: Vec<u8> = Vec::new();
    let mut i: usize = start;
    while i < end
        invariant
            start <= i <= end <= source@.len(),
            parts@.len() + 1 == split(source@, sep, start as int, i as int).len(),
            forall|k: int|
                0 <= k < parts@.len() ==> (#[trigger] parts@[k])@ == split(
                    source@,
                    sep,
                    start as int,
                    i as int,
                )[k],
            current@ == split(source@, sep, start as int, i as int).last(),
        decreases end - i,
    {
        let b = source[i];
        if b == sep {
            parts.push(current);
            current = Vec::new();
        } else {
            current.push(b);
        }
        i += 1;
    }
    parts.push(current);
    parts
}

/// The texts of byte strings, where all of them are well-formed UTF-8.
pub open spec fn names(parts: Seq<Seq<u8>>) -> Option<Seq<Seq<char>>> {
    if forall|i: int| 0 <= i < parts.len() ==> valid_utf8(#[trigger] parts[i]) {
        Some(Seq::new(parts.len(), |i: int| decode_utf8(parts[i])))
    } else {
        None
    }
}


/// The texts of a list of strings.
pub open spec fn texts(names: Seq<String>) -> Seq<Seq<char>> {
    Seq::new(names.len(), |i: int| names[i]@)
}

/// The byte strings that a list of byte vectors holds.
pub open spec fn byte_strings(parts: Seq<Vec<u8>>) -> Seq<Seq<u8>> {
    Seq::new(parts.len(), |i: int| parts[i]@)
}

/// The strings of the byte vectors from `from` on; a lex error where one of
/// them is no UTF-8.
pub fn to_names(parts: &Vec<Vec<u8>>, from: usize) -> (result: Result<Vec<String>, ErrorKind>)
    requires
        from <= parts@.len(),
    ensures
        match names(byte_strings(parts@).skip(from as int)) {
            Some(wanted) => result matches Ok(found) && texts(found@) == wanted,
            None => result == Err::<Vec<String>, ErrorKind>(ErrorKind::Lex),
        },
{
    let ghost wanted = byte_strings(parts@).skip(from as int);
    let mut found: Vec<String> = Vec::new();
    let mut i: usize = from;
    while i < parts.len()
        invariant
            from <= i <= parts@.len(),
            wanted == byte_strings(parts@).skip(from as int),
            found@.len() == i - from,
            forall|k: int| 0 <= k < found@.len() ==> valid_utf8(#[trigger] wanted[k]),
            forall|k: int|
                0 <= k < found@.len() ==> (#[trigger] found@[k])@ == decode_utf8(wanted[k]),
        decreases parts.len() - i,
    {
        let bytes = copy_range(parts[i].as_slice(), 0, parts[i].len());
        proof {
            assert(bytes@ == parts@[i as int]@);
            assert(wanted[i - from] == parts@[i as int]@);
        }
        match string_from_utf8(bytes) {
            Some(name) => {
                found.push(name);
            },
            None => {
                proof {
                    assert(!valid_utf8(wanted[i - from]));
                }
                return Err(ErrorKind::Lex);
            },
        }
        i += 1;
    }
    proof {
        assert(texts(found@) =~= names(wanted)->0);
    }
    Ok(found)
}

} // verus!
