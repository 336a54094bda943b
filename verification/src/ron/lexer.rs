//! The lexer: from the bytes of a document to its tokens.

use crate::bytes::{byte_is_space, is_space};
use crate::error::{Error, ErrorKind};
use vstd::prelude::*;

verus! {

/// `{`, which opens an object.
pub const OBJECT_OPEN: u8 = 123;

/// `}`, which closes an object.
pub const OBJECT_CLOSE: u8 = 125;

/// `[`, which opens an array.
pub const ARRAY_OPEN: u8 = 91;

/// `]`, which closes an array.
pub const ARRAY_CLOSE: u8 = 93;

/// `:`, which ends a key.
pub const ID_CLOSE: u8 = 58;

/// `\`, which before a `:` makes it part of the key or text.
pub const ESCAPE: u8 = 92;

/// A token of the data notation. A key and a text hold the range of the
/// source bytes that they cover; a key's range leaves out the `:` that ends it.
#[derive(Debug, Clone, Copy, PartialEq, Eq, Structural)]
pub enum Token {
    Id { start: usize, end: usize },
    Text { start: usize, end: usize },
    ObjectOpen { at: usize },
    ObjectClose { at: usize },
    ArrayOpen { at: usize },
    ArrayClose { at: usize },
}

/// `{`, `}`, `[` or `]`.
pub open spec fn is_bracket(b: u8) -> bool {
    b == OBJECT_OPEN || b == OBJECT_CLOSE || b == ARRAY_OPEN || b == ARRAY_CLOSE
}

/// Whether the byte at `i` is a `:` that ends a key: one that no `\` stands
/// directly before.
pub open spec fn closes_key(source: Seq<u8>, i: int) -> bool {
    0 <= i < source.len() && source[i] == ID_CLOSE && !(i > 0 && source[i - 1] == ESCAPE)
}

/// Whether the byte at `i` can stand inside a key or a text: it is no
/// whitespace, no bracket and no `:` that ends a key.
pub open spec fn in_run(source: Seq<u8>, i: int) -> bool {
    0 <= i < source.len() && !is_space(source[i]) && !is_bracket(source[i]) && !closes_key(
        source,
        i,
    )
}

/// Where the run of bytes that starts at `i` ends: the first position from `i`
/// on that is outside the source or holds a byte that cannot stand in a run.
pub open spec fn run_end(source: Seq<u8>, i: int) -> int
    decreases source.len() - i,
{
    if in_run(source, i) {
        run_end(source, i + 1)
    } else {
        i
    }
}

/// The token that a bracket stands for.
pub open spec fn bracket_token(b: u8, at: usize) -> Token {
    if b == OBJECT_OPEN {
        Token::ObjectOpen { at }
    } else if b == OBJECT_CLOSE {
        Token::ObjectClose { at }
    } else if b == ARRAY_OPEN {
        Token::ArrayOpen { at }
    } else {
        Token::ArrayClose { at }
    }
}

/// A token before the tokens that follow it, where those could be read.
pub open spec fn before(first: Token, rest: Result<Seq<Token>, Error>) -> Result<
    Seq<Token>,
    Error,
> {
    match rest {
        Ok(tokens) => Ok(seq![first] + tokens),
        Err(e) => Err(e),
    }
}

/// Tokens already read before what the rest of the source gives.
pub open spec fn after(done: Seq<Token>, rest: Result<Seq<Token>, Error>) -> Result<
    Seq<Token>,
    Error,
> {
    match rest {
        Ok(tokens) => Ok(done + tokens),
        Err(e) => Err(e),
    }
}

/// The tokens of the source from position `i` on.
///
/// Whitespace between tokens is passed over. A bracket is a token by itself.
/// Any other byte starts a run, which goes on up to the next whitespace,
/// bracket, key-ending `:` or the end of the source: followed by such a `:` the
/// run is a key and the `:` is consumed, otherwise it is a text. A `:` that
/// ends a key where no run stands before it is refused.
pub open spec fn tokens_from(source: Seq<u8>, i: int) -> Result<Seq<Token>, Error>
    decreases source.len() - i,
{
    if i < 0 || i >= source.len() {
        Ok(Seq::empty())
    } else if is_space(source[i]) {
        tokens_from(source, i + 1)
    } else if is_bracket(source[i]) {
        before(bracket_token(source[i], i as usize), tokens_from(source, i + 1))
    } else if closes_key(source, i) {
        Err(Error { kind: ErrorKind::Lex, position: i as usize })
    } else {
        let end = run_end(source, i);
        if i < end <= source.len() {
            if closes_key(source, end) {
                before(
                    Token::Id { start: i as usize, end: end as usize },
                    tokens_from(source, end + 1),
                )
            } else {
                before(
                    Token::Text { start: i as usize, end: end as usize },
                    tokens_from(source, end),
                )
            }
        } else {
            Ok(Seq::empty())
        }
    }
}

/// The tokens of a whole source.
pub open spec fn tokens_of(source: Seq<u8>) -> Result<Seq<Token>, Error> {
    tokens_from(source, 0)
}

/// A run ends inside the source, at a byte that cannot stand in a run, and
/// all the bytes before its end can.
pub proof fn lemma_run_end(source: Seq<u8>, i: int)
    requires
        0 <= i <= source.len(),
    ensures
        i <= run_end(source, i) <= source.len(),
        !in_run(source, run_end(source, i)),
        forall|j: int| i <= j < run_end(source, i) ==> in_run(source, j),
        in_run(source, i) ==> i < run_end(source, i),
    decreases source.len() - i,
{
    if in_run(source, i) {
        lemma_run_end(source, i + 1);
    }
}

/// A token at the end of those read is a token before those to come.
proof fn lemma_after_before(done: Seq<Token>, token: Token, rest: Result<Seq<Token>, Error>)
    ensures
        after(done.push(token), rest) == after(done, before(token, rest)),
{
    match rest {
        Ok(tokens) => {
            assert(done.push(token) + tokens == done + (seq![token] + tokens));
        },
        Err(_) => {},
    }
}

/// The state of a lexer: the source, how far it has read, and the tokens it
/// has found.
pub struct Lexer<'a> {
    pos: usize,
    bytes: &'a [u8],
    tokens: Vec<Token>,
}

impl<'a> Lexer<'a> {
    /// What the lexer will have returned once it has run: the tokens of the
    /// whole source, as long as it has read correctly so far.
    pub closed spec fn pending(&self) -> Result<Seq<Token>, Error> {
        after(self.tokens@, tokens_from(self.bytes@, self.pos as int))
    }

    /// The bytes that the lexer reads.
    pub closed spec fn source(&self) -> Seq<u8> {
        self.bytes@
    }

    /// How far the lexer has read.
    pub closed spec fn position(&self) -> int {
        self.pos as int
    }

    /// The tokens found so far.
    pub closed spec fn found(&self) -> Seq<Token> {
        self.tokens@
    }

    /// The lexer stands inside its source.
    pub closed spec fn well_formed(&self) -> bool {
        self.pos <= self.bytes@.len()
    }

    /// A lexer at the start of `bytes`.
    pub fn from(bytes: &'a [u8]) -> (lexer: Self)
        ensures
            lexer.well_formed(),
            lexer.source() == bytes@,
            lexer.position() == 0,
            lexer.found() == Seq::<Token>::empty(),
            lexer.pending() == tokens_of(bytes@),
    {
        Self { pos: 0, bytes, tokens: Vec::new() }
    }

    /// Reads the rest of the source and returns all its tokens.
    pub fn run(self) -> (result: Result<Vec<Token>, Error>)
        requires
            self.well_formed(),
        ensures
            match self.pending() {
                Ok(tokens) => result matches Ok(found) && found@ == tokens,
                Err(e) => result == Err::<Vec<Token>, Error>(e),
            },
    {
        let mut lexer = self;
        let ghost goal = lexer.pending();
        while lexer.pos < lexer.bytes.len()
            invariant
                lexer.well_formed(),
                lexer.pending() == goal,
                goal == self.pending(),
            decreases lexer.bytes@.len() - lexer.pos,
        {
            let current = lexer.bytes[lexer.pos];
            if current == OBJECT_OPEN || current == OBJECT_CLOSE || current == ARRAY_OPEN
                || current == ARRAY_CLOSE {
                let at = lexer.pos;
                let token = if current == OBJECT_OPEN {
                    Token::ObjectOpen { at }
                } else if current == OBJECT_CLOSE {
                    Token::ObjectClose { at }
                } else if current == ARRAY_OPEN {
                    Token::ArrayOpen { at }
                } else {
                    Token::ArrayClose { at }
                };
                proof {
                    lemma_after_before(
                        lexer.tokens@,
                        token,
                        tokens_from(lexer.bytes@, lexer.pos as int + 1),
                    );
                }
                lexer.emit(token, 1);
            } else if byte_is_space(current) {
                lexer.advance(1);
            } else if current == ID_CLOSE && !(lexer.pos > 0 && lexer.bytes[lexer.pos - 1]
                == ESCAPE) {
                return Err(Error { kind: ErrorKind::Lex, position: lexer.pos });
            } else {
                let start = lexer.pos;
                let end = lexer.run_end();
                proof {
                    lemma_run_end(lexer.bytes@, start as int);
                }
                if end < lexer.bytes.len() && lexer.bytes[end] == ID_CLOSE {
                    let token = Token::Id { start, end };
                    proof {
                        lemma_after_before(
                            lexer.tokens@,
                            token,
                            tokens_from(lexer.bytes@, end as int + 1),
                        );
                    }
                    lexer.emit(token, end - start + 1);
                } else {
                    let token = Token::Text { start, end };
                    proof {
                        lemma_after_before(lexer.tokens@, token, tokens_from(lexer.bytes@, end as int));
                    }
                    lexer.emit(token, end - start);
                }
            }
        }
        proof {
            assert(lexer.tokens@ + Seq::<Token>::empty() == lexer.tokens@);
        }
        Ok(lexer.tokens)
    }

    /// Where the run at the lexer's position ends.
    fn run_end(&self) -> (end: usize)
        requires
            self.well_formed(),
        ensures
            end == run_end(self.source(), self.position()),
            self.position() <= end <= self.source().len(),
    {
        proof {
            lemma_run_end(self.bytes@, self.pos as int);
        }
        let mut end = self.pos;
        while end < self.bytes.len() && !byte_is_space(self.bytes[end]) && !(self.bytes[end]
            == OBJECT_OPEN || self.bytes[end] == OBJECT_CLOSE || self.bytes[end] == ARRAY_OPEN
            || self.bytes[end] == ARRAY_CLOSE) && !(self.bytes[end] == ID_CLOSE && !(end > 0
            && self.bytes[end - 1] == ESCAPE))
            invariant
                self.pos <= end <= self.bytes@.len(),
                run_end(self.bytes@, self.pos as int) == run_end(self.bytes@, end as int),
            decreases self.bytes@.len() - end,
        {
            end += 1;
        }
        end
    }

    /// Moves the lexer `n` bytes on.
    fn advance(&mut self, n: usize)
        requires
            old(self).position() + n <= old(self).source().len(),
        ensures
            final(self).well_formed(),
            final(self).position() == old(self).position() + n,
            final(self).source() == old(self).source(),
            final(self).found() == old(self).found(),
    {
        assert(self.bytes@.len() == self.bytes.len());
        self.pos += n;
    }

    /// Adds a token, then moves the lexer `advance_n` bytes on.
    fn emit(&mut self, token: Token, advance_n: usize)
        requires
            old(self).position() + advance_n <= old(self).source().len(),
        ensures
            final(self).well_formed(),
            final(self).position() == old(self).position() + advance_n,
            final(self).source() == old(self).source(),
            final(self).found() == old(self).found().push(token),
    {
        self.tokens.push(token);
        self.advance(advance_n);
    }
}

} // verus!
