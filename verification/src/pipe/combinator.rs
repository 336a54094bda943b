//! The parsing toolkit: parsers of bytes and the ways to combine them.

use crate::error::ErrorKind;
use vstd::prelude::*;
use vstd::utf8::encode_utf8;

verus! {

/// What a parser is, as a mathematical value.
pub enum Grammar {
    /// One byte that lies in one of the inclusive ranges.
    Ranges(Seq<(u8, u8)>),
    /// All the parts, one after the other.
    Sequence(Seq<Grammar>),
    /// The first of the parts that matches.
    Choice(Seq<Grammar>),
    /// The inner parser again and again, as long as it matches.
    Repeat(Box<Grammar>),
}

/// What a parser found, as a mathematical value.
#[verifier::ext_equal]
pub enum Match {
    Byte(u8),
    List(Seq<Match>),
}

/// How an attempt ends: with a match that ends at a position, or with none.
pub enum Outcome {
    Matched { value: Match, end: int },
    NoMatch,
}

/// Whether `b` lies in one of the ranges.
pub open spec fn in_ranges(ranges: Seq<(u8, u8)>, b: u8) -> bool {
    exists|k: int| 0 <= k < ranges.len() && (#[trigger] ranges[k]).0 <= b <= ranges[k].1
}

/// What a parser does at position `pos` of `input`.
///
/// A failed attempt consumes nothing: the caller goes on at `pos`.
pub open spec fn attempt_spec(grammar: Grammar, input: Seq<u8>, pos: int) -> Outcome
    decreases grammar, 0nat, 0nat,
{
    match grammar {
        Grammar::Ranges(ranges) => if 0 <= pos < input.len() && in_ranges(ranges, input[pos]) {
            Outcome::Matched { value: Match::Byte(input[pos]), end: pos + 1 }
        } else {
            Outcome::NoMatch
        },
        Grammar::Sequence(parts) => sequence_from(parts, 0, input, pos, Seq::empty()),
        Grammar::Choice(parts) => choice_from(parts, 0, input, pos),
        Grammar::Repeat(inner) => repeat_from(*inner, input, pos, Seq::empty()),
    }
}

/// The parts of a sequence from part `k` on, after the matches in `done`:
/// each part starts where the one before it ended, and one part that does not
/// match fails the whole sequence.
pub open spec fn sequence_from(
    parts: Seq<Grammar>,
    k: int,
    input: Seq<u8>,
    pos: int,
    done: Seq<Match>,
) -> Outcome
    decreases parts, 1nat, parts.len() - k,
{
    if k < 0 || k >= parts.len() {
        Outcome::Matched { value: Match::List(done), end: pos }
    } else {
        match attempt_spec(parts[k], input, pos) {
            Outcome::Matched { value, end } => sequence_from(
                parts,
                k + 1,
                input,
                end,
                done.push(value),
            ),
            Outcome::NoMatch => Outcome::NoMatch,
        }
    }
}

/// The parts of a choice from part `k` on, each tried at the same position:
/// the first match wins.
pub open spec fn choice_from(parts: Seq<Grammar>, k: int, input: Seq<u8>, pos: int) -> Outcome
    decreases parts, 1nat, parts.len() - k,
{
    if k < 0 || k >= parts.len() {
        Outcome::NoMatch
    } else {
        match attempt_spec(parts[k], input, pos) {
            Outcome::Matched { value, end } => Outcome::Matched { value, end },
            Outcome::NoMatch => choice_from(parts, k + 1, input, pos),
        }
    }
}

/// A repetition after the matches in `done`: it goes on while the inner
/// parser matches and consumes something, and always succeeds.
pub open spec fn repeat_from(inner: Grammar, input: Seq<u8>, pos: int, done: Seq<Match>) -> Outcome
    decreases inner, 1nat, input.len() - pos,
{
    match attempt_spec(inner, input, pos) {
        Outcome::Matched { value, end } => if pos < end <= input.len() {
            repeat_from(inner, input, end, done.push(value))
        } else {
            Outcome::Matched { value: Match::List(done), end: pos }
        },
        Outcome::NoMatch => Outcome::Matched { value: Match::List(done), end: pos },
    }
}

/// The bytes that a match holds, in order.
pub open spec fn flat(value: Match) -> Seq<u8>
    decreases value, 1nat,
{
    match value {
        Match::Byte(b) => seq![b],
        Match::List(items) => flat_all(items),
    }
}

/// The bytes that a list of matches holds, in order.
pub open spec fn flat_all(items: Seq<Match>) -> Seq<u8>
    decreases items, 0nat,
{
    if items.len() == 0 {
        Seq::empty()
    } else {
        flat_all(items.drop_last()) + flat(items.last())
    }
}

/// The input to parse and the position reached in it.
#[derive(Debug)]
pub struct ParserState {
    pub in_bytes: Vec<u8>,
    pub pos: usize,
}

impl ParserState {
    /// A state at the start of the bytes of `value`.
    pub fn from_string(value: &str) -> (state: Self)
        ensures
            state.in_bytes@ == encode_utf8(value@),
            state.pos == 0,
    {
        ParserState { in_bytes: vstd::slice::slice_to_vec(value.as_bytes()), pos: 0 }
    }

    /// The byte at the position.
    pub fn peek(&self) -> (b: u8)
        requires
            self.pos < self.in_bytes@.len(),
        ensures
            b == self.in_bytes@[self.pos as int],
    {
        self.in_bytes[self.pos]
    }

    /// Moves one byte on.
    pub fn advance(&mut self)
        requires
            old(self).pos < usize::MAX,
        ensures
            final(self).pos == old(self).pos + 1,
            final(self).in_bytes == old(self).in_bytes,
    {
        self.pos += 1
    }

    /// Whether the position is behind the last byte.
    pub fn is_at_end(&self) -> (at_end: bool)
        ensures
            at_end == (self.pos >= self.in_bytes@.len()),
    {
        self.pos >= self.in_bytes.len()
    }
}

/// The value of a match.
#[derive(Debug, PartialEq, Eq)]
pub enum Parsed {
    Byte(u8),
    List(Vec<Parsed>),
}

/// The matches that a list of parsed values stands for.
pub open spec fn parsed_view(items: Seq<Parsed>) -> Seq<Match>
    decreases items, 0nat,
{
    if items.len() == 0 {
        Seq::empty()
    } else {
        parsed_view(items.drop_last()).push(items.last().view())
    }
}

impl Parsed {
    /// The match that the value stands for.
    pub open spec fn view(&self) -> Match
        decreases self, 1nat,
    {
        match self {
            Parsed::Byte(b) => Match::Byte(*b),
            Parsed::List(items) => Match::List(parsed_view(items@)),
        }
    }

    /// The bytes of the match, in order.
    pub fn into_bytes(self) -> (bytes: Vec<u8>)
        ensures
            bytes@ == flat(self@),
    {
        let mut bytes: Vec<u8> = Vec::new();
        self.flatten_into(&mut bytes);
        bytes
    }

    /// Adds the bytes of the match to `out`.
    pub fn flatten_into(&self, out: &mut Vec<u8>)
        ensures
            final(out)@ == old(out)@ + flat(self@),
        decreases self,
    {
        match self {
            Parsed::Byte(b) => {
                out.push(*b);
                proof {
                    assert(old(out)@.push(*b) == old(out)@ + seq![*b]);
                }
            },
            Parsed::List(items) => {
                let mut i: usize = 0;
                proof {
                    assert(items@.take(0) == Seq::<Parsed>::empty());
                    assert(old(out)@ + Seq::<u8>::empty() == old(out)@);
                }
                while i < items.len()
                    invariant
                        i <= items.len(),
                        *self == Parsed::List(*items),
                        out@ == old(out)@ + flat_all(parsed_view(items@.take(i as int))),
                    decreases items.len() - i,
                {
                    proof {
                        assert(decreases_to!(self => self->List_0@[i as int]));
                    }
                    items[i].flatten_into(out);
                    proof {
                        let front = items@.take(i as int);
                        assert(items@.take(i as int + 1) == front.push(items@[i as int]));
                        lemma_parsed_view_push(front, items@[i as int]);
                        let views = parsed_view(front).push(items@[i as int]@);
                        assert(views.drop_last() == parsed_view(front));
                        assert(old(out)@ + flat_all(parsed_view(front)) + flat(items@[i as int]@)
                            == old(out)@ + (flat_all(parsed_view(front)) + flat(
                            items@[i as int]@,
                        )));
                    }
                    i += 1;
                }
                proof {
                    assert(items@.take(i as int) == items@);
                }
            },
        }
    }
}

/// The matches of a list with one value more.
pub proof fn lemma_parsed_view_push(items: Seq<Parsed>, item: Parsed)
    ensures
        parsed_view(items.push(item)) == parsed_view(items).push(item@),
{
    assert(items.push(item).drop_last() == items);
}

/// A parser: a value that can be tried at a position of an input.
#[derive(Debug)]
pub enum Parser {
    Ranges(Vec<(u8, u8)>),
    Sequence(Vec<Parser>),
    Choice(Vec<Parser>),
    Repeat(Box<Parser>),
}

/// The grammars of a list of parsers.
pub open spec fn grammars(parsers: Seq<Parser>) -> Seq<Grammar>
    decreases parsers, 0nat,
{
    if parsers.len() == 0 {
        Seq::empty()
    } else {
        grammars(parsers.drop_last()).push(parsers.last().view())
    }
}

/// The grammars of a list with one parser more.
pub proof fn lemma_grammars_push(parsers: Seq<Parser>, parser: Parser)
    ensures
        grammars(parsers.push(parser)) == grammars(parsers).push(parser@),
{
    assert(parsers.push(parser).drop_last() == parsers);
}

/// The grammars of a list of parsers are as many as the parsers, each the
/// grammar of its parser.
pub proof fn lemma_grammars(parsers: Seq<Parser>)
    ensures
        grammars(parsers).len() == parsers.len(),
        forall|i: int| 0 <= i < parsers.len() ==> #[trigger] grammars(parsers)[i] == parsers[i]@,
    decreases parsers.len(),
{
    if parsers.len() > 0 {
        lemma_grammars(parsers.drop_last());
    }
}

/// A match ends at or behind the position where it started, and inside the
/// input unless it consumed nothing.
pub proof fn lemma_attempt_bounds(grammar: Grammar, input: Seq<u8>, pos: int)
    ensures
        attempt_spec(grammar, input, pos) matches Outcome::Matched { end, .. } ==> pos <= end && (
        end == pos || end <= input.len()),
    decreases grammar, 0nat, 0nat,
{
    match grammar {
        Grammar::Ranges(_) => {},
        Grammar::Sequence(parts) => lemma_sequence_bounds(parts, 0, input, pos, Seq::empty()),
        Grammar::Choice(parts) => lemma_choice_bounds(parts, 0, input, pos),
        Grammar::Repeat(inner) => lemma_repeat_bounds(*inner, input, pos, Seq::empty()),
    }
}

/// A sequence ends at or behind the position where it started.
pub proof fn lemma_sequence_bounds(
    parts: Seq<Grammar>,
    k: int,
    input: Seq<u8>,
    pos: int,
    done: Seq<Match>,
)
    ensures
        sequence_from(parts, k, input, pos, done) matches Outcome::Matched { end, .. } ==> pos
            <= end && (end == pos || end <= input.len()),
    decreases parts, 1nat, parts.len() - k,
{
    if 0 <= k < parts.len() {
        lemma_attempt_bounds(parts[k], input, pos);
        match attempt_spec(parts[k], input, pos) {
            Outcome::Matched { value, end } => {
                lemma_sequence_bounds(parts, k + 1, input, end, done.push(value));
            },
            Outcome::NoMatch => {},
        }
    }
}

/// A choice ends at or behind the position where it started.
pub proof fn lemma_choice_bounds(parts: Seq<Grammar>, k: int, input: Seq<u8>, pos: int)
    ensures
        choice_from(parts, k, input, pos) matches Outcome::Matched { end, .. } ==> pos <= end && (
        end == pos || end <= input.len()),
    decreases parts, 1nat, parts.len() - k,
{
    if 0 <= k < parts.len() {
        lemma_attempt_bounds(parts[k], input, pos);
        lemma_choice_bounds(parts, k + 1, input, pos);
    }
}

/// A repetition ends at or behind the position where it started.
pub proof fn lemma_repeat_bounds(inner: Grammar, input: Seq<u8>, pos: int, done: Seq<Match>)
    ensures
        repeat_from(inner, input, pos, done) matches Outcome::Matched { end, .. } ==> pos <= end
            && (end == pos || end <= input.len()),
    decreases inner, 1nat, input.len() - pos,
{
    match attempt_spec(inner, input, pos) {
        Outcome::Matched { value, end } => {
            if pos < end <= input.len() {
                lemma_repeat_bounds(inner, input, end, done.push(value));
            }
        },
        Outcome::NoMatch => {},
    }
}

/// What an attempt returns and where it leaves the state, for a given
/// outcome: a match moves the position to its end, no match leaves it.
pub open spec fn attempted(
    outcome: Outcome,
    before: &ParserState,
    after: &ParserState,
    result: Result<Option<Parsed>, ErrorKind>,
) -> bool {
    &&& after.in_bytes == before.in_bytes
    &&& match outcome {
        Outcome::Matched { value, end } => result matches Ok(Some(parsed)) && parsed@ == value
            && after.pos == end,
        Outcome::NoMatch => result == Ok::<Option<Parsed>, ErrorKind>(None) && after.pos
            == before.pos,
    }
}

impl Parser {
    /// What the parser is.
    pub open spec fn view(&self) -> Grammar
        decreases self, 1nat,
    {
        match self {
            Parser::Ranges(ranges) => Grammar::Ranges(ranges@),
            Parser::Sequence(parts) => Grammar::Sequence(grammars(parts@)),
            Parser::Choice(parts) => Grammar::Choice(grammars(parts@)),
            Parser::Repeat(inner) => Grammar::Repeat(Box::new(inner.view())),
        }
    }

    /// Tries the parser at the position of `state`.
    #[verifier::loop_isolation(false)]
    pub fn attempt(&self, state: &mut ParserState) -> (result: Result<Option<Parsed>, ErrorKind>)
        ensures
            attempted(
                attempt_spec(self@, old(state).in_bytes@, old(state).pos as int),
                old(state),
                final(state),
                result,
            ),
        decreases self,
    {
        match self {
            Parser::Ranges(ranges) => {
                if state.is_at_end() {
                    return Ok(None);
                }
                let b = state.peek();
                assert(state.in_bytes@.len() == state.in_bytes.len());
                let mut found = false;
                let mut k: usize = 0;
                while k < ranges.len() && !found
                    invariant
                        k <= ranges.len(),
                        found ==> in_ranges(ranges@, b),
                        !found ==> forall|j: int|
                            0 <= j < k ==> !((#[trigger] ranges@[j]).0 <= b <= ranges@[j].1),
                    decreases ranges.len() - k + (if found { 0int } else { 1int }),
                {
                    if ranges[k].0 <= b && b <= ranges[k].1 {
                        proof {
                            assert(ranges@[k as int].0 <= b <= ranges@[k as int].1);
                        }
                        found = true;
                    } else {
                        k += 1;
                    }
                }
                if found {
                    state.advance();
                    Ok(Some(Parsed::Byte(b)))
                } else {
                    Ok(None)
                }
            },
            Parser::Sequence(parts) => {
                let initial_pos = state.pos;
                let mut result: Vec<Parsed> = Vec::new();
                let mut k: usize = 0;
                proof {
                    lemma_grammars(parts@);
                }
                while k < parts.len()
                    invariant
                        k <= parts.len(),
                        *self == Parser::Sequence(*parts),
                        state.in_bytes == old(state).in_bytes,
                        grammars(parts@).len() == parts@.len(),
                        forall|i: int|
                            0 <= i < parts@.len() ==> #[trigger] grammars(parts@)[i] == parts@[i]@,
                        sequence_from(
                            grammars(parts@),
                            0,
                            old(state).in_bytes@,
                            old(state).pos as int,
                            Seq::empty(),
                        ) == sequence_from(
                            grammars(parts@),
                            k as int,
                            state.in_bytes@,
                            state.pos as int,
                            parsed_view(result@),
                        ),
                    decreases parts.len() - k,
                {
                    proof {
                        assert(decreases_to!(self => self->Sequence_0@[k as int]));
                    }
                    match parts[k].attempt(state) {
                        Ok(Some(r)) => {
                            proof {
                                lemma_parsed_view_push(result@, r);
                            }
                            result.push(r);
                        },
                        Ok(None) => {
                            state.pos = initial_pos;
                            return Ok(None);
                        },
                        Err(err) => {
                            return Err(err);
                        },
                    }
                    k += 1;
                }
                Ok(Some(Parsed::List(result)))
            },
            Parser::Choice(parts) => {
                let initial_pos = state.pos;
                let mut k: usize = 0;
                proof {
                    lemma_grammars(parts@);
                }
                while k < parts.len()
                    invariant
                        k <= parts.len(),
                        *self == Parser::Choice(*parts),
                        state.in_bytes == old(state).in_bytes,
                        state.pos == old(state).pos,
                        state.pos == initial_pos,
                        grammars(parts@).len() == parts@.len(),
                        forall|i: int|
                            0 <= i < parts@.len() ==> #[trigger] grammars(parts@)[i] == parts@[i]@,
                        choice_from(
                            grammars(parts@),
                            0,
                            old(state).in_bytes@,
                            old(state).pos as int,
                        ) == choice_from(
                            grammars(parts@),
                            k as int,
                            state.in_bytes@,
                            state.pos as int,
                        ),
                    decreases parts.len() - k,
                {
                    proof {
                        assert(decreases_to!(self => self->Choice_0@[k as int]));
                    }
                    match parts[k].attempt(state) {
                        Ok(Some(r)) => {
                            return Ok(Some(r));
                        },
                        Ok(None) => {
                            state.pos = initial_pos;
                        },
                        Err(err) => {
                            return Err(err);
                        },
                    }
                    k += 1;
                }
                Ok(None)
            },
            Parser::Repeat(inner) => {
                let mut results: Vec<Parsed> = Vec::new();
                loop
                    invariant
                        *self == Parser::Repeat(*inner),
                        state.in_bytes == old(state).in_bytes,
                        repeat_from(
                            inner@,
                            old(state).in_bytes@,
                            old(state).pos as int,
                            Seq::empty(),
                        ) == repeat_from(
                            inner@,
                            state.in_bytes@,
                            state.pos as int,
                            parsed_view(results@),
                        ),
                    decreases state.in_bytes@.len() - state.pos,
                {
                    let initial_pos = state.pos;
                    proof {
                        lemma_attempt_bounds(inner@, state.in_bytes@, state.pos as int);
                    }
                    match inner.attempt(state) {
                        Ok(Some(r)) => {
                            if state.pos <= initial_pos {
                                state.pos = initial_pos;
                                return Ok(Some(Parsed::List(results)));
                            }
                            proof {
                                lemma_parsed_view_push(results@, r);
                            }
                            results.push(r);
                        },
                        Ok(None) => {
                            state.pos = initial_pos;
                            return Ok(Some(Parsed::List(results)));
                        },
                        Err(err) => {
                            return Err(err);
                        },
                    }
                }
            },
        }
    }
}

/// A parser of one byte that lies in one of the inclusive ranges.
pub fn parser_byte_ranges(ranges: Vec<(u8, u8)>) -> (parser: Parser)
    ensures
        parser@ == Grammar::Ranges(ranges@),
{
    Parser::Ranges(ranges)
}

/// A parser of the byte `ch`.
pub fn parser_byte(ch: u8) -> (parser: Parser)
    ensures
        parser@ == Grammar::Ranges(seq![(ch, ch)]),
{
    let mut ranges: Vec<(u8, u8)> = Vec::new();
    ranges.push((ch, ch));
    proof {
        assert(ranges@ == seq![(ch, ch)]);
    }
    parser_byte_ranges(ranges)
}

/// A parser of all of `parsers`, in order.
pub fn parser_seq(parsers: Vec<Parser>) -> (parser: Parser)
    ensures
        parser@ == Grammar::Sequence(grammars(parsers@)),
{
    Parser::Sequence(parsers)
}

/// A parser of the first of `parsers` that matches.
pub fn parser_or(parsers: Vec<Parser>) -> (parser: Parser)
    ensures
        parser@ == Grammar::Choice(grammars(parsers@)),
{
    Parser::Choice(parsers)
}

/// A parser of `parser` as often as it matches.
pub fn parser_many(parser: Parser) -> (repeated: Parser)
    ensures
        repeated@ == Grammar::Repeat(Box::new(parser@)),
{
    Parser::Repeat(Box::new(parser))
}


/// A parser together with a function that is applied to what it matches.
pub struct Mapped<F> {
    pub parser: Parser,
    pub map: F,
}

impl<F> Mapped<F> {
    /// Tries the parser at the position of `state` and hands its match to the
    /// function. No match stays no match.
    pub fn attempt<R>(&self, state: &mut ParserState) -> (result: Result<Option<R>, ErrorKind>) where
        F: Fn(Parsed) -> R,

        requires
            forall|parsed: Parsed| call_requires(self.map, (parsed,)),
        ensures
            final(state).in_bytes == old(state).in_bytes,
            match attempt_spec(self.parser@, old(state).in_bytes@, old(state).pos as int) {
                Outcome::Matched { value, end } => {
                    &&& result matches Ok(Some(mapped))
                    &&& final(state).pos == end
                    &&& exists|parsed: Parsed|
                        parsed@ == value && call_ensures(self.map, (parsed,), mapped)
                },
                Outcome::NoMatch => result matches Ok(None) && final(state).pos == old(state).pos,
            },
    {
        match self.parser.attempt(state) {
            Ok(Some(parsed)) => Ok(Some((self.map)(parsed))),
            Ok(None) => Ok(None),
            Err(err) => Err(err),
        }
    }
}

/// A parser whose matches are handed to `map`.
pub fn parser_map<F>(parser: Parser, map: F) -> (mapped: Mapped<F>)
    ensures
        mapped.parser == parser,
        mapped.map == map,
{
    Mapped { parser, map }
}

} // verus!
