//! The parser: from the tokens of a document to its value.

use crate::bytes::{string_from_utf8, text_of};
use crate::error::{Error, ErrorKind};
use crate::ron::lexer::{tokens_of, Lexer, Token, ESCAPE, ID_CLOSE};
use crate::ron::value::{
    lemma_fields_view_push, lemma_items_view_push, fields_view, items_view, Tree, Value,
};
use vstd::prelude::*;
use vstd::utf8::encode_utf8;

verus! {

/// The bytes of a run with each `\:` replaced by `:`.
pub open spec fn unescaped(source: Seq<u8>, start: int, end: int) -> Seq<u8>
    decreases end - start,
{
    if start >= end {
        Seq::empty()
    } else if start + 1 < end && source[start] == ESCAPE && source[start + 1] == ID_CLOSE {
        seq![ID_CLOSE] + unescaped(source, start + 2, end)
    } else {
        seq![source[start]] + unescaped(source, start + 1, end)
    }
}

/// The text of a key or text token: its bytes without the escapes, read as
/// UTF-8. `None` where the range lies outside the source or the bytes are
/// no UTF-8.
pub open spec fn token_text(source: Seq<u8>, start: int, end: int) -> Option<Seq<char>> {
    if 0 <= start <= end <= source.len() {
        text_of(unescaped(source, start, end))
    } else {
        None
    }
}

/// Where a token starts in the source.
pub open spec fn token_start(token: Token) -> usize {
    match token {
        Token::Id { start, .. } => start,
        Token::Text { start, .. } => start,
        Token::ObjectOpen { at } => at,
        Token::ObjectClose { at } => at,
        Token::ArrayOpen { at } => at,
        Token::ArrayClose { at } => at,
    }
}

/// A syntax error at a position.
pub open spec fn syntax_error(position: int) -> Error {
    Error { kind: ErrorKind::Syntax, position: position as usize }
}

/// A lex error at a position.
pub open spec fn lex_error(position: int) -> Error {
    Error { kind: ErrorKind::Lex, position: position as usize }
}

/// The value that starts at token `i`, and the index of the token after it.
///
/// `{` starts an object and `[` an array; a text is a value by itself. Any
/// other token, or the end of the tokens, is a syntax error.
pub open spec fn value_at(source: Seq<u8>, tokens: Seq<Token>, i: int) -> Result<(Tree, int), Error>
    decreases tokens.len() - i, 1nat,
{
    if i < 0 || i >= tokens.len() {
        Err(syntax_error(source.len() as int))
    } else {
        match tokens[i] {
            Token::ObjectOpen { .. } => object_from(source, tokens, i + 1, Map::empty()),
            Token::ArrayOpen { .. } => array_from(source, tokens, i + 1, Seq::empty()),
            Token::Text { start, end } => match token_text(source, start as int, end as int) {
                Some(text) => Ok((Tree::Text(text), i + 1)),
                None => Err(lex_error(start as int)),
            },
            other => Err(syntax_error(token_start(other) as int)),
        }
    }
}

/// The rest of an object whose entries so far are `fields`: pairs of a key
/// and a value up to the closing `}`. A key written again replaces the entry
/// it had.
pub open spec fn object_from(
    source: Seq<u8>,
    tokens: Seq<Token>,
    i: int,
    fields: Map<Seq<char>, Tree>,
) -> Result<(Tree, int), Error>
    decreases tokens.len() - i, 0nat,
{
    if i < 0 || i >= tokens.len() {
        Err(syntax_error(source.len() as int))
    } else {
        match tokens[i] {
            Token::ObjectClose { .. } => Ok((Tree::Object(fields), i + 1)),
            Token::Id { start, end } => match token_text(source, start as int, end as int) {
                None => Err(lex_error(start as int)),
                Some(key) => match value_at(source, tokens, i + 1) {
                    Err(e) => Err(e),
                    Ok((value, next)) => if i < next <= tokens.len() {
                        object_from(source, tokens, next, fields.insert(key, value))
                    } else {
                        Err(syntax_error(start as int))
                    },
                },
            },
            other => Err(syntax_error(token_start(other) as int)),
        }
    }
}

/// The rest of an array whose items so far are `items`: values up to the
/// closing `]`.
pub open spec fn array_from(source: Seq<u8>, tokens: Seq<Token>, i: int, items: Seq<Tree>) -> Result<
    (Tree, int),
    Error,
>
    decreases tokens.len() - i, 2nat,
{
    if i < 0 || i >= tokens.len() {
        Err(syntax_error(source.len() as int))
    } else {
        match tokens[i] {
            Token::ArrayClose { .. } => Ok((Tree::Array(items), i + 1)),
            other => match value_at(source, tokens, i) {
                Err(e) => Err(e),
                Ok((value, next)) => if i < next <= tokens.len() {
                    array_from(source, tokens, next, items.push(value))
                } else {
                    Err(syntax_error(token_start(other) as int))
                },
            },
        }
    }
}

/// The tree that a document stands for: the value at its first token. Tokens
/// after that value are not looked at.
pub open spec fn parse_spec(source: Seq<u8>) -> Result<Tree, Error> {
    match tokens_of(source) {
        Err(e) => Err(e),
        Ok(tokens) => match value_at(source, tokens, 0) {
            Ok((tree, _)) => Ok(tree),
            Err(e) => Err(e),
        },
    }
}

/// A value always ends after the token at which it starts.
pub proof fn lemma_value_advances(source: Seq<u8>, tokens: Seq<Token>, i: int)
    ensures
        value_at(source, tokens, i) matches Ok((_, next)) ==> i < next <= tokens.len(),
    decreases tokens.len() - i, 1nat,
{
    if 0 <= i < tokens.len() {
        match tokens[i] {
            Token::ObjectOpen { .. } => lemma_object_advances(source, tokens, i + 1, Map::empty()),
            Token::ArrayOpen { .. } => lemma_array_advances(source, tokens, i + 1, Seq::empty()),
            _ => {},
        }
    }
}

/// The rest of an object ends after the token at which it starts.
pub proof fn lemma_object_advances(
    source: Seq<u8>,
    tokens: Seq<Token>,
    i: int,
    fields: Map<Seq<char>, Tree>,
)
    ensures
        object_from(source, tokens, i, fields) matches Ok((_, next)) ==> i < next <= tokens.len(),
    decreases tokens.len() - i, 0nat,
{
    if 0 <= i < tokens.len() {
        match tokens[i] {
            Token::Id { start, end } => {
                lemma_value_advances(source, tokens, i + 1);
                match token_text(source, start as int, end as int) {
                    Some(key) => match value_at(source, tokens, i + 1) {
                        Ok((value, next)) => {
                            lemma_object_advances(source, tokens, next, fields.insert(key, value));
                        },
                        Err(_) => {},
                    },
                    None => {},
                }
            },
            _ => {},
        }
    }
}

/// The rest of an array ends after the token at which it starts.
pub proof fn lemma_array_advances(source: Seq<u8>, tokens: Seq<Token>, i: int, items: Seq<Tree>)
    ensures
        array_from(source, tokens, i, items) matches Ok((_, next)) ==> i < next <= tokens.len(),
    decreases tokens.len() - i, 2nat,
{
    if 0 <= i < tokens.len() {
        match tokens[i] {
            Token::ArrayClose { .. } => {},
            _ => {
                lemma_value_advances(source, tokens, i);
                match value_at(source, tokens, i) {
                    Ok((value, next)) => {
                        lemma_array_advances(source, tokens, next, items.push(value));
                    },
                    Err(_) => {},
                }
            },
        }
    }
}

/// The bytes of a run without its escapes.
pub fn unescape(source: &[u8], start: usize, end: usize) -> (out: Vec<u8>)
    requires
        start <= end <= source@.len(),
    ensures
        out@ == unescaped(source@, start as int, end as int),
{
    let mut out: Vec<u8> = Vec::new();
    let mut i: usize = start;
    while i < end
        invariant
            start <= i <= end <= source@.len(),
            unescaped(source@, start as int, end as int) == out@ + unescaped(
                source@,
                i as int,
                end as int,
            ),
        decreases end - i,
    {
        let ghost rest = unescaped(source@, i as int, end as int);
        if i + 1 < end && source[i] == ESCAPE && source[i + 1] == ID_CLOSE {
            proof {
                let tail = unescaped(source@, i as int + 2, end as int);
                assert(out@ + (seq![ID_CLOSE] + tail) == out@.push(ID_CLOSE) + tail);
            }
            out.push(ID_CLOSE);
            i += 2;
        } else {
            proof {
                let tail = unescaped(source@, i as int + 1, end as int);
                assert(out@ + (seq![source@[i as int]] + tail) == out@.push(source@[i as int])
                    + tail);
            }
            out.push(source[i]);
            i += 1;
        }
    }
    proof {
        assert(out@ + Seq::<u8>::empty() == out@);
    }
    out
}

/// The state of a parser: the source, its tokens, and the index of the next
/// token to read.
pub struct Parser<'a> {
    source: &'a [u8],
    tokens: &'a Vec<Token>,
    pos: usize,
}

impl<'a> Parser<'a> {
    /// The bytes that the tokens were read from.
    pub closed spec fn source(&self) -> Seq<u8> {
        self.source@
    }

    /// The tokens that the parser reads.
    pub closed spec fn tokens(&self) -> Seq<Token> {
        self.tokens@
    }

    /// The index of the next token.
    pub closed spec fn position(&self) -> int {
        self.pos as int
    }

    /// The parser stands inside its tokens.
    pub closed spec fn well_formed(&self) -> bool {
        self.pos <= self.tokens@.len()
    }

    /// The same parser at another token.
    pub open spec fn moved(&self, other: &Self, position: int) -> bool {
        &&& other.well_formed()
        &&& other.source() == self.source()
        &&& other.tokens() == self.tokens()
        &&& other.position() == position
    }

    /// A parser at the first of `tokens`, which were read from `source`.
    pub fn from(source: &'a [u8], tokens: &'a Vec<Token>) -> (parser: Self)
        ensures
            parser.well_formed(),
            parser.source() == source@,
            parser.tokens() == tokens@,
            parser.position() == 0,
    {
        Self { source, tokens, pos: 0 }
    }

    /// Reads one value, and leaves the parser at the token after it.
    pub fn run(&mut self) -> (result: Result<Value, Error>)
        requires
            old(self).well_formed(),
        ensures
            match value_at(old(self).source(), old(self).tokens(), old(self).position()) {
                Ok((tree, next)) => result matches Ok(value) && value@ == tree && old(self).moved(
                    final(self),
                    next,
                ),
                Err(e) => result == Err::<Value, Error>(e),
            },
        decreases old(self).tokens().len() - old(self).position(), 1nat,
    {
        if self.pos >= self.tokens.len() {
            return Err(Error { kind: ErrorKind::Syntax, position: self.source.len() });
        }
        let token = self.tokens[self.pos];
        self.pos += 1;
        match token {
            Token::ObjectOpen { .. } => self.run_object(),
            Token::ArrayOpen { .. } => self.run_array(),
            Token::Text { start, end } => self.run_text(start, end),
            Token::Id { start, .. } => Err(Error { kind: ErrorKind::Syntax, position: start }),
            Token::ObjectClose { at } => Err(Error { kind: ErrorKind::Syntax, position: at }),
            Token::ArrayClose { at } => Err(Error { kind: ErrorKind::Syntax, position: at }),
        }
    }

    /// The text of a token as a string.
    fn read_text(&self, start: usize, end: usize) -> (result: Result<String, Error>)
        ensures
            match token_text(self.source(), start as int, end as int) {
                Some(text) => result matches Ok(s) && s@ == text,
                None => result == Err::<String, Error>(lex_error(start as int)),
            },
    {
        if start <= end && end <= self.source.len() {
            match string_from_utf8(unescape(self.source, start, end)) {
                Some(text) => Ok(text),
                None => Err(Error { kind: ErrorKind::Lex, position: start }),
            }
        } else {
            Err(Error { kind: ErrorKind::Lex, position: start })
        }
    }

    /// The value of a text token.
    fn run_text(&self, start: usize, end: usize) -> (result: Result<Value, Error>)
        ensures
            match token_text(self.source(), start as int, end as int) {
                Some(text) => result matches Ok(value) && value@ == Tree::Text(text),
                None => result == Err::<Value, Error>(lex_error(start as int)),
            },
    {
        match self.read_text(start, end) {
            Ok(text) => Ok(Value::Text(text)),
            Err(e) => Err(e),
        }
    }

    /// Reads the entries of an object up to its `}`; the parser stands behind
    /// the `{`.
    fn run_object(&mut self) -> (result: Result<Value, Error>)
        requires
            old(self).well_formed(),
        ensures
            match object_from(
                old(self).source(),
                old(self).tokens(),
                old(self).position(),
                Map::empty(),
            ) {
                Ok((tree, next)) => result matches Ok(value) && value@ == tree && old(self).moved(
                    final(self),
                    next,
                ),
                Err(e) => result == Err::<Value, Error>(e),
            },
        decreases old(self).tokens().len() - old(self).position(), 0nat,
    {
        let mut object: Vec<(String, Value)> = Vec::new();
        let ghost goal = object_from(self.source(), self.tokens(), self.position(), Map::empty());
        loop
            invariant
                old(self).moved(self, self.position()),
                old(self).position() <= self.position(),
                goal == object_from(
                    old(self).source(),
                    old(self).tokens(),
                    old(self).position(),
                    Map::empty(),
                ),
                goal == object_from(
                    self.source(),
                    self.tokens(),
                    self.position(),
                    fields_view(object@),
                ),
            decreases self.tokens().len() - self.position(),
        {
            if self.pos >= self.tokens.len() {
                return Err(Error { kind: ErrorKind::Syntax, position: self.source.len() });
            }
            let token = self.tokens[self.pos];
            match token {
                Token::Id { start, end } => {
                    let key = match self.read_text(start, end) {
                        Ok(key) => key,
                        Err(e) => {
                            return Err(e);
                        },
                    };
                    self.pos += 1;
                    proof {
                        lemma_value_advances(self.source(), self.tokens(), self.position());
                    }
                    let value = match self.run() {
                        Ok(value) => value,
                        Err(e) => {
                            return Err(e);
                        },
                    };
                    proof {
                        lemma_fields_view_push(object@, key, value);
                    }
                    object.push((key, value));
                },
                Token::ObjectClose { .. } => {
                    self.pos += 1;
                    return Ok(Value::Object(object));
                },
                Token::Text { start, .. } => {
                    return Err(Error { kind: ErrorKind::Syntax, position: start });
                },
                Token::ObjectOpen { at } => {
                    return Err(Error { kind: ErrorKind::Syntax, position: at });
                },
                Token::ArrayOpen { at } => {
                    return Err(Error { kind: ErrorKind::Syntax, position: at });
                },
                Token::ArrayClose { at } => {
                    return Err(Error { kind: ErrorKind::Syntax, position: at });
                },
            }
        }
    }

    /// Reads the items of an array up to its `]`; the parser stands behind
    /// the `[`.
    fn run_array(&mut self) -> (result: Result<Value, Error>)
        requires
            old(self).well_formed(),
        ensures
            match array_from(
                old(self).source(),
                old(self).tokens(),
                old(self).position(),
                Seq::empty(),
            ) {
                Ok((tree, next)) => result matches Ok(value) && value@ == tree && old(self).moved(
                    final(self),
                    next,
                ),
                Err(e) => result == Err::<Value, Error>(e),
            },
        decreases old(self).tokens().len() - old(self).position(), 2nat,
    {
        let mut array: Vec<Value> = Vec::new();
        let ghost goal = array_from(self.source(), self.tokens(), self.position(), Seq::empty());
        loop
            invariant
                old(self).moved(self, self.position()),
                old(self).position() <= self.position(),
                goal == array_from(
                    old(self).source(),
                    old(self).tokens(),
                    old(self).position(),
                    Seq::empty(),
                ),
                goal == array_from(
                    self.source(),
                    self.tokens(),
                    self.position(),
                    items_view(array@),
                ),
            decreases self.tokens().len() - self.position(),
        {
            if self.pos >= self.tokens.len() {
                return Err(Error { kind: ErrorKind::Syntax, position: self.source.len() });
            }
            let token = self.tokens[self.pos];
            match token {
                Token::ArrayClose { .. } => {
                    self.pos += 1;
                    return Ok(Value::Array(array));
                },
                _ => {
                    proof {
                        lemma_value_advances(self.source(), self.tokens(), self.position());
                    }
                    let value = match self.run() {
                        Ok(value) => value,
                        Err(e) => {
                            return Err(e);
                        },
                    };
                    proof {
                        lemma_items_view_push(array@, value);
                    }
                    array.push(value);
                },
            }
        }
    }
}

/// Reads a document given as bytes.
pub fn parse_bytes(bytes: &[u8]) -> (result: Result<Value, Error>)
    ensures
        match parse_spec(bytes@) {
            Ok(tree) => result matches Ok(value) && value@ == tree,
            Err(e) => result == Err::<Value, Error>(e),
        },
{
    let tokens = match Lexer::from(bytes).run() {
        Ok(tokens) => tokens,
        Err(e) => {
            return Err(e);
        },
    };
    let mut parser = Parser::from(bytes, &tokens);
    parser.run()
}

/// Reads a document: the tree of its first value.
pub fn parse(value: String) -> (result: Result<Value, Error>)
    ensures
        match parse_spec(encode_utf8(value@)) {
            Ok(tree) => result matches Ok(value) && value@ == tree,
            Err(e) => result == Err::<Value, Error>(e),
        },
{
    parse_bytes(value.as_str().as_bytes())
}

} // verus!
