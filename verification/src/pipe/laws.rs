//! The grammar of a sort expression, as the parsers accept it, is the
//! grammar as it is written down byte by byte.

use crate::bytes::{BLANK, DOT};
use crate::pipe::combinator::{
    attempt_spec, choice_from, flat, flat_all, in_ranges, repeat_from, sequence_from, Grammar,
    Match, Outcome,
};
use crate::pipe::expr::{
    byte_grammar, call_of, call_spec, holds_word, id_end, id_grammar, int_word, is_id_byte,
    matched, op_grammar, string_word, word_grammar, word_parts, CALL_CLOSE, CALL_OPEN, DOLLAR,
    UNDERSCORE,
};
use vstd::prelude::*;

verus! {

/// The grammar of a byte matches that byte and nothing else.
proof fn lemma_byte(b: u8, input: Seq<u8>, pos: int)
    ensures
        attempt_spec(byte_grammar(b), input, pos) == if 0 <= pos < input.len() && input[pos] == b {
            Outcome::Matched { value: Match::Byte(b), end: pos + 1 }
        } else {
            Outcome::NoMatch
        },
        matched(byte_grammar(b), input, pos) == if 0 <= pos < input.len() && input[pos] == b {
            Some((seq![b], pos + 1))
        } else {
            None
        },
{
    let ranges = seq![(b, b)];
    assert(flat(Match::Byte(b)) == seq![b]);
    if 0 <= pos < input.len() {
        if input[pos] == b {
            assert(ranges[0].0 <= b <= ranges[0].1);
        }
    }
}

/// The parts of a word are the grammars of its bytes.
proof fn lemma_word_parts(word: Seq<u8>)
    ensures
        word_parts(word).len() == word.len(),
        forall|k: int| 0 <= k < word.len() ==> #[trigger] word_parts(word)[k] == byte_grammar(
            word[k],
        ),
    decreases word.len(),
{
    if word.len() > 0 {
        lemma_word_parts(word.drop_last());
    }
}

/// The bytes of a list of matches with one byte more.
proof fn lemma_flat_push(done: Seq<Match>, b: u8)
    ensures
        flat_all(done.push(Match::Byte(b))) == flat_all(done).push(b),
{
    let grown = done.push(Match::Byte(b));
    assert(grown.drop_last() == done);
    assert(grown.last() == Match::Byte(b));
    assert(flat(Match::Byte(b)) == seq![b]);
    assert(flat_all(grown) == flat_all(grown.drop_last()) + flat(grown.last()));
    assert(flat_all(done) + seq![b] == flat_all(done).push(b));
}

/// The bytes of a word from byte `k` on match where the input holds them.
proof fn lemma_word_from(word: Seq<u8>, k: int, input: Seq<u8>, start: int, done: Seq<Match>)
    requires
        0 <= k <= word.len(),
        0 <= start,
        flat_all(done) == word.take(k),
        holds_word(input, start, word.take(k)),
    ensures
        match sequence_from(word_parts(word), k, input, start + k, done) {
            Outcome::Matched { value, end } => holds_word(input, start, word) && end == start
                + word.len() && flat(value) == word,
            Outcome::NoMatch => !holds_word(input, start, word),
        },
    decreases word.len() - k,
{
    lemma_word_parts(word);
    let pos = start + k;
    if k == word.len() {
        assert(word.take(k) == word);
    } else {
        lemma_byte(word[k], input, pos);
        if 0 <= pos < input.len() && input[pos] == word[k] {
            let grown = done.push(Match::Byte(word[k]));
            lemma_flat_push(done, word[k]);
            assert(word.take(k + 1) == word.take(k).push(word[k]));
            assert(holds_word(input, start, word.take(k + 1))) by {
                assert(input.subrange(start, start + k + 1) == input.subrange(start, start + k).push(
                    input[pos],
                ));
            }
            lemma_word_from(word, k + 1, input, start, grown);
        } else {
            if holds_word(input, start, word) {
                assert(input.subrange(start, start + word.len())[k] == word[k]);
            }
        }
    }
}

/// The grammar of a word matches where the input holds the word, and
/// nowhere else.
proof fn lemma_word(word: Seq<u8>, input: Seq<u8>, pos: int)
    requires
        0 <= pos <= input.len(),
    ensures
        matched(word_grammar(word), input, pos) == if holds_word(input, pos, word) {
            Some((word, pos + word.len()))
        } else {
            None
        },
{
    assert(word.take(0) == Seq::<u8>::empty());
    assert(flat_all(Seq::<Match>::empty()) == Seq::<u8>::empty());
    assert(input.subrange(pos, pos) == Seq::<u8>::empty());
    lemma_word_from(word, 0, input, pos, Seq::empty());
}

/// The grammar of an operation matches one of the two words.
proof fn lemma_op(input: Seq<u8>, pos: int)
    requires
        0 <= pos <= input.len(),
    ensures
        matched(op_grammar(), input, pos) == if holds_word(input, pos, int_word()) {
            Some((int_word(), pos + 8))
        } else if holds_word(input, pos, string_word()) {
            Some((string_word(), pos + 8))
        } else {
            None
        },
{
    let parts = seq![word_grammar(int_word()), word_grammar(string_word())];
    lemma_word(int_word(), input, pos);
    lemma_word(string_word(), input, pos);
    assert(parts[0] == word_grammar(int_word()));
    assert(parts[1] == word_grammar(string_word()));
    assert(choice_from(parts, 2, input, pos) == Outcome::NoMatch);
    assert(choice_from(parts, 1, input, pos) == match attempt_spec(parts[1], input, pos) {
        Outcome::Matched { value, end } => Outcome::Matched { value, end },
        Outcome::NoMatch => Outcome::NoMatch,
    });
}

/// The grammar of one byte of an argument matches such a byte and nothing
/// else.
proof fn lemma_id_byte(input: Seq<u8>, pos: int)
    ensures
        attempt_spec(*id_grammar()->Repeat_0, input, pos) == if 0 <= pos < input.len()
            && is_id_byte(input[pos]) {
            Outcome::Matched { value: Match::Byte(input[pos]), end: pos + 1 }
        } else {
            Outcome::NoMatch
        },
{
    let ranges = seq![(48u8, 57u8), (97u8, 122u8), (65u8, 90u8)];
    let parts = seq![
        Grammar::Ranges(ranges),
        byte_grammar(DOLLAR),
        byte_grammar(UNDERSCORE),
        byte_grammar(DOT),
    ];
    assert(*id_grammar()->Repeat_0 == Grammar::Choice(parts));
    lemma_byte(DOLLAR, input, pos);
    lemma_byte(UNDERSCORE, input, pos);
    lemma_byte(DOT, input, pos);
    assert(parts[0] == Grammar::Ranges(ranges));
    assert(parts[1] == byte_grammar(DOLLAR));
    assert(parts[2] == byte_grammar(UNDERSCORE));
    assert(parts[3] == byte_grammar(DOT));
    if 0 <= pos < input.len() {
        let b = input[pos];
        if 48 <= b <= 57 {
            assert(ranges[0].0 <= b <= ranges[0].1);
        } else if 97 <= b <= 122 {
            assert(ranges[1].0 <= b <= ranges[1].1);
        } else if 65 <= b <= 90 {
            assert(ranges[2].0 <= b <= ranges[2].1);
        } else {
            assert forall|k: int| 0 <= k < ranges.len() implies !((#[trigger] ranges[k]).0 <= b
                <= ranges[k].1) by {
                assert(k == 0 || k == 1 || k == 2);
            }
            assert(!in_ranges(ranges, b));
        }
    }
    assert(choice_from(parts, 4, input, pos) == Outcome::NoMatch);
    assert(choice_from(parts, 3, input, pos) == match attempt_spec(parts[3], input, pos) {
        Outcome::Matched { value, end } => Outcome::Matched { value, end },
        Outcome::NoMatch => Outcome::NoMatch,
    });
    assert(choice_from(parts, 2, input, pos) == match attempt_spec(parts[2], input, pos) {
        Outcome::Matched { value, end } => Outcome::Matched { value, end },
        Outcome::NoMatch => choice_from(parts, 3, input, pos),
    });
    assert(choice_from(parts, 1, input, pos) == match attempt_spec(parts[1], input, pos) {
        Outcome::Matched { value, end } => Outcome::Matched { value, end },
        Outcome::NoMatch => choice_from(parts, 2, input, pos),
    });
    assert(choice_from(parts, 0, input, pos) == match attempt_spec(parts[0], input, pos) {
        Outcome::Matched { value, end } => Outcome::Matched { value, end },
        Outcome::NoMatch => choice_from(parts, 1, input, pos),
    });
}

/// A repetition of argument bytes takes all the argument bytes that stand
/// at the position.
proof fn lemma_id_from(input: Seq<u8>, pos: int, done: Seq<Match>)
    requires
        0 <= pos <= input.len(),
    ensures
        repeat_from(*id_grammar()->Repeat_0, input, pos, done) matches Outcome::Matched {
            value,
            end,
        } && end == id_end(input, pos) && pos <= end <= input.len() && flat(value) == flat_all(
            done,
        ) + input.subrange(pos, end),
    decreases input.len() - pos,
{
    lemma_id_byte(input, pos);
    if pos < input.len() && is_id_byte(input[pos]) {
        let grown = done.push(Match::Byte(input[pos]));
        lemma_flat_push(done, input[pos]);
        lemma_id_from(input, pos + 1, grown);
        let end = id_end(input, pos);
        assert(flat_all(done).push(input[pos]) + input.subrange(pos + 1, end) == flat_all(done)
            + input.subrange(pos, end));
    } else {
        assert(input.subrange(pos, pos) == Seq::<u8>::empty());
        assert(flat_all(done) + Seq::<u8>::empty() == flat_all(done));
    }
}

/// The grammar of an argument takes all the argument bytes that stand at
/// the position; it matches everywhere, if only nothing.
proof fn lemma_id(input: Seq<u8>, pos: int)
    requires
        0 <= pos <= input.len(),
    ensures
        matched(id_grammar(), input, pos) == Some(
            (input.subrange(pos, id_end(input, pos)), id_end(input, pos)),
        ),
        pos <= id_end(input, pos) <= input.len(),
{
    lemma_id_from(input, pos, Seq::empty());
    assert(flat_all(Seq::<Match>::empty()) == Seq::<u8>::empty());
    let end = id_end(input, pos);
    assert(Seq::<u8>::empty() + input.subrange(pos, end) == input.subrange(pos, end));
}

/// The grammar of a call accepts what is written as `(`, `$int_cmp` or
/// `$str_cmp`, a blank, an argument, a blank, an argument and `)`, where an
/// argument is made of digits, letters, `$`, `_` and `.` and goes on as far
/// as such bytes stand. Nothing else is accepted.
pub proof fn lemma_call_grammar(input: Seq<u8>)
    ensures
        call_spec(input) == call_of(input),
{
    lemma_byte(CALL_OPEN, input, 0);
    if input.len() > 0 && input[0] == CALL_OPEN {
        lemma_op(input, 1);
        assert(int_word()[1] != string_word()[1]);
        assert(int_word().len() == 8 && string_word().len() == 8);
        if holds_word(input, 1, int_word()) || holds_word(input, 1, string_word()) {
            lemma_byte(BLANK, input, 9);
            if input.len() > 9 && input[9] == BLANK {
                lemma_id(input, 10);
                let first_end = id_end(input, 10);
                lemma_byte(BLANK, input, first_end);
                if first_end < input.len() && input[first_end] == BLANK {
                    lemma_id(input, first_end + 1);
                    let second_end = id_end(input, first_end + 1);
                    lemma_byte(CALL_CLOSE, input, second_end);
                }
            }
        }
    }
}

} // verus!
