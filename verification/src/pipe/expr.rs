//! Sort expressions and their grammar.

use crate::bytes::{same_bytes, string_from_utf8, text_of, BLANK, DOT};
use crate::error::ErrorKind;
use crate::pipe::combinator::{
    attempt_spec, flat, grammars, lemma_grammars_push, parser_byte, parser_byte_ranges,
    parser_many, parser_map, parser_or, parser_seq, Grammar, Outcome, Parsed, Parser, ParserState,
};
use crate::pipe::laws::lemma_call_grammar;
use vstd::prelude::*;
use vstd::utf8::encode_utf8;

verus! {

/// `(`, which opens a call.
pub const CALL_OPEN: u8 = 40;

/// `)`, which closes a call.
pub const CALL_CLOSE: u8 = 41;

/// `$`, with which the names of operations and arguments start.
pub const DOLLAR: u8 = 36;

/// `_`, which can stand in a name.
pub const UNDERSCORE: u8 = 95;

/// The comparisons that a sort expression can name.
#[derive(Debug, Clone, Copy, PartialEq, Eq, Structural)]
pub enum Op {
    /// `$int_cmp`: the operands are compared as unsigned decimal numbers.
    IntCompare,
    /// `$str_cmp`: the operands are compared character by character.
    StringCompare,
}

/// A sort expression: a name, or the call of a comparison on names.
#[derive(Debug, PartialEq, Eq)]
pub enum Expr {
    Id(String),
    Call(Op, Vec<Expr>),
}

/// The grammar of one given byte.
pub open spec fn byte_grammar(b: u8) -> Grammar {
    Grammar::Ranges(seq![(b, b)])
}

/// The grammars of the bytes of a word, in order.
pub open spec fn word_parts(word: Seq<u8>) -> Seq<Grammar>
    decreases word.len(),
{
    if word.len() == 0 {
        Seq::empty()
    } else {
        word_parts(word.drop_last()).push(byte_grammar(word.last()))
    }
}

/// The grammar of a given word: its bytes, one after the other.
pub open spec fn word_grammar(word: Seq<u8>) -> Grammar {
    Grammar::Sequence(word_parts(word))
}

/// The bytes of `$int_cmp`.
pub open spec fn int_word() -> Seq<u8> {
    seq![36u8, 105u8, 110u8, 116u8, 95u8, 99u8, 109u8, 112u8]
}

/// The bytes of `$str_cmp`.
pub open spec fn string_word() -> Seq<u8> {
    seq![36u8, 115u8, 116u8, 114u8, 95u8, 99u8, 109u8, 112u8]
}

/// The grammar of an operation: `$int_cmp` or `$str_cmp`.
pub open spec fn op_grammar() -> Grammar {
    Grammar::Choice(seq![word_grammar(int_word()), word_grammar(string_word())])
}

/// The grammar of an argument: letters, digits, `$`, `_` and `.`, as many as
/// there are.
pub open spec fn id_grammar() -> Grammar {
    Grammar::Repeat(
        Box::new(
            Grammar::Choice(
                seq![
                    Grammar::Ranges(seq![(48u8, 57u8), (97u8, 122u8), (65u8, 90u8)]),
                    byte_grammar(DOLLAR),
                    byte_grammar(UNDERSCORE),
                    byte_grammar(DOT),
                ],
            ),
        ),
    )
}

/// The operation that a word names.
pub open spec fn op_of(word: Seq<u8>) -> Option<Op> {
    if word == int_word() {
        Some(Op::IntCompare)
    } else if word == string_word() {
        Some(Op::StringCompare)
    } else {
        None
    }
}

/// The parts of a call: the operation and the bytes of its two arguments.
pub struct Call {
    pub op: Op,
    pub first: Seq<u8>,
    pub second: Seq<u8>,
}

/// Where a grammar's match at `pos` ends and the bytes that it holds.
pub open spec fn matched(grammar: Grammar, input: Seq<u8>, pos: int) -> Option<(Seq<u8>, int)> {
    match attempt_spec(grammar, input, pos) {
        Outcome::Matched { value, end } => Some((flat(value), end)),
        Outcome::NoMatch => None,
    }
}

/// The call that the parsers of the grammar find at the start of `input`:
/// `(`, an operation, a blank, an argument, a blank, an argument and `)`.
/// What follows the `)` is not looked at.
pub open spec fn call_spec(input: Seq<u8>) -> Option<Call> {
    match matched(byte_grammar(CALL_OPEN), input, 0) {
        None => None,
        Some((_, at_op)) => match matched(op_grammar(), input, at_op) {
            None => None,
            Some((word, after_op)) => match op_of(word) {
                None => None,
                Some(op) => match matched(byte_grammar(BLANK), input, after_op) {
                    None => None,
                    Some((_, at_first)) => match matched(id_grammar(), input, at_first) {
                        None => None,
                        Some((first, after_first)) => match matched(
                            byte_grammar(BLANK),
                            input,
                            after_first,
                        ) {
                            None => None,
                            Some((_, at_second)) => match matched(id_grammar(), input, at_second) {
                                None => None,
                                Some((second, after_second)) => match matched(
                                    byte_grammar(CALL_CLOSE),
                                    input,
                                    after_second,
                                ) {
                                    None => None,
                                    Some(_) => Some(Call { op, first, second }),
                                },
                            },
                        },
                    },
                },
            },
        },
    }
}

/// Whether a byte can stand in an argument: a digit, a letter, `$`, `_` or
/// `.`.
pub open spec fn is_id_byte(b: u8) -> bool {
    ||| 48 <= b <= 57
    ||| 97 <= b <= 122
    ||| 65 <= b <= 90
    ||| b == DOLLAR
    ||| b == UNDERSCORE
    ||| b == DOT
}

/// Where the bytes of an argument that starts at `pos` end.
pub open spec fn id_end(input: Seq<u8>, pos: int) -> int
    decreases input.len() - pos,
{
    if 0 <= pos < input.len() && is_id_byte(input[pos]) {
        id_end(input, pos + 1)
    } else {
        pos
    }
}

/// Whether `input` holds `word` at `pos`.
pub open spec fn holds_word(input: Seq<u8>, pos: int, word: Seq<u8>) -> bool {
    0 <= pos && pos + word.len() <= input.len() && input.subrange(pos, pos + word.len()) == word
}

/// The call that `input` starts with, read byte by byte: `(`, then
/// `$int_cmp` or `$str_cmp`, a blank, the bytes of the first argument, a
/// blank, the bytes of the second argument, and `)`.
pub open spec fn call_of(input: Seq<u8>) -> Option<Call> {
    let first_end = id_end(input, 10);
    let second_end = id_end(input, first_end + 1);
    if input.len() > 0 && input[0] == CALL_OPEN && (holds_word(input, 1, int_word()) || holds_word(
        input,
        1,
        string_word(),
    )) && input.len() > 9 && input[9] == BLANK && first_end < input.len() && input[first_end]
        == BLANK && second_end < input.len() && input[second_end] == CALL_CLOSE {
        Some(
            Call {
                op: if holds_word(input, 1, int_word()) {
                    Op::IntCompare
                } else {
                    Op::StringCompare
                },
                first: input.subrange(10, first_end),
                second: input.subrange(first_end + 1, second_end),
            },
        )
    } else {
        None
    }
}

/// The bytes of `$int_cmp`.
fn int_word_bytes() -> (word: Vec<u8>)
    ensures
        word@ == int_word(),
{
    let word: Vec<u8> = vec![36, 105, 110, 116, 95, 99, 109, 112];
    proof {
        assert(word@ =~= int_word());
    }
    word
}

/// The bytes of `$str_cmp`.
fn string_word_bytes() -> (word: Vec<u8>)
    ensures
        word@ == string_word(),
{
    let word: Vec<u8> = vec![36, 115, 116, 114, 95, 99, 109, 112];
    proof {
        assert(word@ =~= string_word());
    }
    word
}

/// A parser of the word `word`.
fn word_parser(word: &Vec<u8>) -> (parser: Parser)
    ensures
        parser@ == word_grammar(word@),
{
    let mut parts: Vec<Parser> = Vec::new();
    let mut i: usize = 0;
    while i < word.len()
        invariant
            i <= word.len(),
            grammars(parts@) == word_parts(word@.take(i as int)),
        decreases word.len() - i,
    {
        let part = parser_byte(word[i]);
        proof {
            lemma_grammars_push(parts@, part);
            assert(word@.take(i as int + 1).drop_last() == word@.take(i as int));
        }
        parts.push(part);
        i += 1;
    }
    proof {
        assert(word@.take(i as int) == word@);
    }
    parser_seq(parts)
}

/// A parser of an operation.
fn op_parser() -> (parser: Parser)
    ensures
        parser@ == op_grammar(),
{
    let mut parts: Vec<Parser> = Vec::new();
    let first = word_parser(&int_word_bytes());
    proof {
        lemma_grammars_push(parts@, first);
    }
    parts.push(first);
    let second = word_parser(&string_word_bytes());
    proof {
        lemma_grammars_push(parts@, second);
    }
    parts.push(second);
    proof {
        assert(grammars(parts@) =~= seq![word_grammar(int_word()), word_grammar(string_word())]);
    }
    parser_or(parts)
}

/// A parser of an argument.
fn id_parser() -> (parser: Parser)
    ensures
        parser@ == id_grammar(),
{
    let mut parts: Vec<Parser> = Vec::new();
    let ranges: Vec<(u8, u8)> = vec![(48, 57), (97, 122), (65, 90)];
    proof {
        assert(ranges@ =~= seq![(48u8, 57u8), (97u8, 122u8), (65u8, 90u8)]);
    }
    let alnum = parser_byte_ranges(ranges);
    proof {
        lemma_grammars_push(parts@, alnum);
    }
    parts.push(alnum);
    let dollar = parser_byte(DOLLAR);
    proof {
        lemma_grammars_push(parts@, dollar);
    }
    parts.push(dollar);
    let underscore = parser_byte(UNDERSCORE);
    proof {
        lemma_grammars_push(parts@, underscore);
    }
    parts.push(underscore);
    let dot = parser_byte(DOT);
    proof {
        lemma_grammars_push(parts@, dot);
    }
    parts.push(dot);
    proof {
        assert(grammars(parts@) =~= seq![
            Grammar::Ranges(seq![(48u8, 57u8), (97u8, 122u8), (65u8, 90u8)]),
            byte_grammar(DOLLAR),
            byte_grammar(UNDERSCORE),
            byte_grammar(DOT),
        ]);
    }
    parser_many(parser_or(parts))
}

/// The operation that a matched word names.
fn to_op(parsed: Parsed) -> (op: Option<Op>)
    ensures
        op == op_of(flat(parsed@)),
{
    let word = parsed.into_bytes();
    if same_bytes(word.as_slice(), int_word_bytes().as_slice()) {
        Some(Op::IntCompare)
    } else if same_bytes(word.as_slice(), string_word_bytes().as_slice()) {
        Some(Op::StringCompare)
    } else {
        None
    }
}

/// Tries `parser` and keeps the bytes of its match.
fn take(parser: &Parser, state: &mut ParserState) -> (bytes: Option<Vec<u8>>)
    ensures
        final(state).in_bytes == old(state).in_bytes,
        match matched(parser@, old(state).in_bytes@, old(state).pos as int) {
            Some((word, end)) => {
                &&& bytes matches Some(found)
                &&& found@ == word
                &&& final(state).pos == end
            },
            None => bytes is None && final(state).pos == old(state).pos,
        },
{
    match parser.attempt(state) {
        Ok(Some(parsed)) => Some(parsed.into_bytes()),
        _ => None,
    }
}

/// Reads a call from the start of `input`.
pub fn read_call(input: &[u8]) -> (call: Option<(Op, Vec<u8>, Vec<u8>)>)
    ensures
        match call_of(input@) {
            Some(found) => {
                &&& call matches Some((op, first, second))
                &&& op == found.op
                &&& first@ == found.first
                &&& second@ == found.second
            },
            None => call is None,
        },
{
    proof {
        lemma_call_grammar(input@);
    }
    let mut state = ParserState { in_bytes: vstd::slice::slice_to_vec(input), pos: 0 };
    let call_open = parser_byte(CALL_OPEN);
    let call_close = parser_byte(CALL_CLOSE);
    let space = parser_byte(BLANK);
    let id = id_parser();
    let op = parser_map(op_parser(), to_op);

    if take(&call_open, &mut state).is_none() {
        return None;
    }
    let operation = match op.attempt(&mut state) {
        Ok(Some(Some(operation))) => operation,
        _ => {
            return None;
        },
    };
    if take(&space, &mut state).is_none() {
        return None;
    }
    let left = match take(&id, &mut state) {
        Some(left) => left,
        None => {
            return None;
        },
    };
    if take(&space, &mut state).is_none() {
        return None;
    }
    let right = match take(&id, &mut state) {
        Some(right) => right,
        None => {
            return None;
        },
    };
    if take(&call_close, &mut state).is_none() {
        return None;
    }
    Some((operation, left, right))
}

impl Expr {
    /// Reads a sort expression: a call of a comparison on two names.
    pub fn from_string(value: &str) -> (result: Result<Expr, ErrorKind>)
        ensures
            match call_of(encode_utf8(value@)) {
                None => result == Err::<Expr, ErrorKind>(ErrorKind::Syntax),
                Some(call) => match (text_of(call.first), text_of(call.second)) {
                    (Some(first), Some(second)) => {
                        &&& result matches Ok(Expr::Call(op, args))
                        &&& op == call.op
                        &&& args@.len() == 2
                        &&& args@[0] matches Expr::Id(a)
                        &&& a@ == first
                        &&& args@[1] matches Expr::Id(b)
                        &&& b@ == second
                    },
                    _ => result == Err::<Expr, ErrorKind>(ErrorKind::Lex),
                },
            },
    {
        match read_call(value.as_bytes()) {
            None => Err(ErrorKind::Syntax),
            Some((op, first, second)) => {
                let left = match string_from_utf8(first) {
                    Some(left) => left,
                    None => {
                        return Err(ErrorKind::Lex);
                    },
                };
                let right = match string_from_utf8(second) {
                    Some(right) => right,
                    None => {
                        return Err(ErrorKind::Lex);
                    },
                };
                let mut args: Vec<Expr> = Vec::new();
                args.push(Expr::Id(left));
                args.push(Expr::Id(right));
                Ok(Expr::Call(op, args))
            },
        }
    }
}

} // verus!
