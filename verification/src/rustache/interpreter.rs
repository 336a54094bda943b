//! The interpreter as it runs: a cursor in the template, the output and the
//! scopes, moved on step by step as the model says.

use crate::bytes::{
    append, byte_strings, copy_range, find_in, same_bytes, split, split_at, string_from_utf8, text_of,
    texts, to_names, trim, DOT,
};
use crate::error::{Error, ErrorKind};
use crate::pipe::compile;
use crate::ron::parser::{parse_bytes, parse_spec};
use crate::ron::value::{
    fields_view, find_entry, items_view, lemma_fields_view_push, lemma_items_view,
    lemma_items_view_push, Tree, Value,
};
use crate::rustache::model::{
    asset_text, directive, directive_parts, each, empty_scope, fail, find_pair, inlined, item_scope,
    lemma_directive_ends, lemma_find_pair, lemma_scan_stops, lemma_skip_block, lemma_then_then,
    looping, optional, pair_at, path_at, piped, render_spec, resolve, resolve_in, scan, skip_block,
    then, variable, Asset, BAR, CLOSE, INLINE, INLINE_END, LOOP, MAX_DEPTH, OPEN, OPTIONAL,
};
use vstd::prelude::*;
use vstd::utf8::encode_utf8;

verus! {

/// The state of the interpreter: the template, how far it has been read,
/// what has been put out, the scopes that are open and the assets.
pub struct Parser {
    in_bytes: Vec<u8>,
    out_bytes: Vec<u8>,
    pos: usize,
    scopes: Vec<Value>,
    assets: Vec<Asset>,
}

impl Parser {
    /// The bytes of the template.
    pub closed spec fn template(&self) -> Seq<u8> {
        self.in_bytes@
    }

    /// What has been put out.
    pub closed spec fn output(&self) -> Seq<u8> {
        self.out_bytes@
    }

    /// How far the template has been read.
    pub closed spec fn position(&self) -> int {
        self.pos as int
    }

    /// The scopes that are open, the data first and the innermost last.
    pub closed spec fn scopes(&self) -> Seq<Tree> {
        items_view(self.scopes@)
    }

    /// The assets that the template can take in.
    pub closed spec fn assets(&self) -> Seq<Asset> {
        self.assets@
    }

    /// The interpreter stands inside its template and has the data as its
    /// first scope and no more scopes than can be open.
    pub closed spec fn well_formed(&self) -> bool {
        &&& self.pos <= self.in_bytes@.len()
        &&& 1 <= self.scopes@.len() <= MAX_DEPTH
    }

    /// `after` is this interpreter further on: the same template, assets
    /// and scopes.
    pub open spec fn continued(&self, after: &Parser) -> bool {
        &&& after.well_formed()
        &&& after.template() == self.template()
        &&& after.assets() == self.assets()
        &&& after.scopes() == self.scopes()
    }

    /// What a step leaves behind for a given outcome: on success the output
    /// has grown by the bytes of the outcome and the interpreter stands at
    /// its position, on failure the error is returned.
    pub open spec fn stepped(
        &self,
        after: &Parser,
        outcome: Result<(Seq<u8>, int), Error>,
        result: Result<(), Error>,
    ) -> bool {
        match outcome {
            Ok((bytes, stop)) => {
                &&& result is Ok
                &&& self.continued(after)
                &&& after.output() == self.output() + bytes
                &&& after.position() == stop
            },
            Err(e) => result == Err::<(), Error>(e),
        }
    }

    /// A well-formed interpreter has at least the data as a scope and stands
    /// inside its template.
    proof fn lemma_depth(&self)
        requires
            self.well_formed(),
        ensures
            1 <= self.scopes().len() <= MAX_DEPTH,
            self.position() <= self.template().len(),
    {
        lemma_items_view(self.scopes@);
    }

    /// There are as many scopes as values that stand for them.
    proof fn lemma_scopes(&self)
        ensures
            self.scopes().len() == self.scopes@.len(),
    {
        lemma_items_view(self.scopes@);
    }

    /// An interpreter at the start of `template` with `root` as the data.
    pub fn new(template: Vec<u8>, root: Value, assets: Vec<Asset>) -> (parser: Parser)
        ensures
            parser.well_formed(),
            parser.template() == template@,
            parser.assets() == assets@,
            parser.scopes() == seq![root@],
            parser.output() == Seq::<u8>::empty(),
            parser.position() == 0,
    {
        let mut scopes: Vec<Value> = Vec::new();
        proof {
            lemma_items_view_push(scopes@, root);
            assert(items_view(scopes@).push(root@) =~= seq![root@]);
        }
        scopes.push(root);
        Parser { in_bytes: template, out_bytes: Vec::new(), pos: 0, scopes, assets }
    }

    /// An interpreter at the start of a template, with the data read from
    /// the document `variables`.
    pub fn from_string(template: String, variables: String, assets: Vec<Asset>) -> (result: Result<
        Parser,
        Error,
    >)
        ensures
            match parse_spec(encode_utf8(variables@)) {
                Ok(root) => {
                    &&& result matches Ok(parser)
                    &&& parser.well_formed()
                    &&& parser.template() == encode_utf8(template@)
                    &&& parser.assets() == assets@
                    &&& parser.scopes() == seq![root]
                    &&& parser.output() == Seq::<u8>::empty()
                    &&& parser.position() == 0
                },
                Err(e) => result matches Err(x) && x == e,
            },
    {
        let root = match parse_bytes(variables.as_str().as_bytes()) {
            Ok(root) => root,
            Err(e) => {
                return Err(e);
            },
        };
        let in_bytes = vstd::slice::slice_to_vec(template.as_str().as_bytes());
        Ok(Parser::new(in_bytes, root, assets))
    }

    /// Renders the whole template. Where that fails nothing is left in the
    /// output.
    pub fn run(&mut self) -> (result: Result<(), Error>)
        requires
            old(self).well_formed(),
            old(self).scopes().len() == 1,
        ensures
            old(self).stepped(
                final(self),
                scan(
                    old(self).template(),
                    old(self).assets(),
                    old(self).scopes(),
                    old(self).position(),
                ),
                result,
            ),
            result is Ok ==> final(self).position() == final(self).template().len(),
            result is Err ==> final(self).output() == Seq::<u8>::empty(),
    {
        proof {
            lemma_scan_stops(self.template(), self.assets(), self.scopes(), self.position());
        }
        match self.run_html() {
            Ok(()) => Ok(()),
            Err(e) => {
                self.out_bytes.clear();
                Err(e)
            },
        }
    }

    /// The output as a string.
    pub fn result(self) -> (result: Result<String, Error>)
        ensures
            match text_of(self.output()) {
                Some(text) => result matches Ok(s) && s@ == text,
                None => result matches Err(e) && e == fail(ErrorKind::Lex, 0),
            },
    {
        match string_from_utf8(self.out_bytes) {
            Some(text) => Ok(text),
            None => Err(Error { kind: ErrorKind::Lex, position: 0 }),
        }
    }

    /// The output as bytes.
    pub fn into_bytes(self) -> (bytes: Vec<u8>)
        ensures
            bytes@ == self.output(),
    {
        self.out_bytes
    }

    /// The two bytes at the position, where the template has that many.
    fn peek_pair(&self) -> (pair: Option<(u8, u8)>)
        requires
            self.well_formed(),
        ensures
            match pair {
                Some((a, b)) => pair_at(self.template(), self.position(), a, b),
                None => self.position() + 1 >= self.template().len(),
            },
    {
        if self.in_bytes.len() - self.pos < 2 {
            None
        } else {
            Some((self.in_bytes[self.pos], self.in_bytes[self.pos + 1]))
        }
    }

    /// Moves `n` bytes on and puts nothing out.
    fn skip(&mut self, n: usize)
        requires
            old(self).well_formed(),
            old(self).position() + n <= old(self).template().len(),
        ensures
            old(self).continued(final(self)),
            final(self).output() == old(self).output(),
            final(self).position() == old(self).position() + n,
    {
        assert(self.in_bytes@.len() == self.in_bytes.len());
        self.pos += n;
    }

    /// Moves to the next pair `a`, `b`: the end of a directive's text.
    fn skip_until_pair(&mut self, a: u8, b: u8) -> (result: Result<(), Error>)
        requires
            old(self).well_formed(),
            old(self).position() >= 2,
        ensures
            ({
                let close = find_pair(old(self).template(), old(self).position(), a, b);
                if close + 2 <= old(self).template().len() {
                    &&& result is Ok
                    &&& old(self).continued(final(self))
                    &&& final(self).output() == old(self).output()
                    &&& final(self).position() == close
                    &&& old(self).position() <= close
                } else {
                    result == Err::<(), Error>(fail(ErrorKind::Syntax, old(self).position() - 2))
                }
            }),
    {
        let start = self.pos;
        proof {
            lemma_find_pair(self.in_bytes@, self.pos as int, a, b);
        }
        loop
            invariant
                old(self).continued(self),
                self.output() == old(self).output(),
                2 <= start <= self.pos,
                start == old(self).pos,
                find_pair(self.in_bytes@, start as int, a, b) == find_pair(
                    self.in_bytes@,
                    self.pos as int,
                    a,
                    b,
                ),
            decreases self.in_bytes@.len() - self.pos,
        {
            match self.peek_pair() {
                None => {
                    return Err(Error { kind: ErrorKind::Syntax, position: start - 2 });
                },
                Some((x, y)) => {
                    if x == a && y == b {
                        return Ok(());
                    }
                    self.skip(1);
                },
            }
        }
    }

    /// Copies `n` bytes of the template to the output.
    fn consume(&mut self, n: usize)
        requires
            old(self).well_formed(),
            old(self).position() + n <= old(self).template().len(),
        ensures
            old(self).continued(final(self)),
            final(self).output() == old(self).output() + old(self).template().subrange(
                old(self).position(),
                old(self).position() + n,
            ),
            final(self).position() == old(self).position() + n,
    {
        let mut i: usize = 0;
        while i < n
            invariant
                i <= n,
                self.pos == old(self).pos + i,
                self.pos + (n - i) <= self.in_bytes@.len(),
                self.in_bytes@.len() == self.in_bytes.len(),
                self.in_bytes == old(self).in_bytes,
                self.assets == old(self).assets,
                self.scopes == old(self).scopes,
                self.out_bytes@ == old(self).out_bytes@ + old(self).in_bytes@.subrange(
                    old(self).pos as int,
                    old(self).pos + i,
                ),
            decreases n - i,
        {
            let b = self.in_bytes[self.pos];
            self.out_bytes.push(b);
            self.pos += 1;
            i += 1;
            proof {
                let t = old(self).in_bytes@;
                let p = old(self).pos as int;
                assert(t.subrange(p, p + i) == t.subrange(p, p + i - 1).push(b));
                assert(old(self).out_bytes@ + t.subrange(p, p + i - 1).push(b) == (old(
                    self,
                ).out_bytes@ + t.subrange(p, p + i - 1)).push(b));
            }
        }
    }

    /// Puts `bytes` out.
    fn emit(&mut self, bytes: &[u8])
        requires
            old(self).well_formed(),
        ensures
            old(self).continued(final(self)),
            final(self).output() == old(self).output() + bytes@,
            final(self).position() == old(self).position(),
    {
        append(&mut self.out_bytes, bytes);
    }

    /// What a path names in the scopes.
    fn get_value(&self, path: &Vec<String>) -> (result: Result<&Value, ErrorKind>)
        requires
            self.well_formed(),
        ensures
            match resolve(self.scopes(), texts(path@)) {
                Ok(tree) => result matches Ok(value) && value@ == tree,
                Err(e) => result matches Err(x) && x == e,
            },
    {
        proof {
            lemma_items_view(self.scopes@);
        }
        if path.len() == 0 {
            return Err(ErrorKind::UndefinedReference);
        }
        let mut n: usize = self.scopes.len();
        while n > 0
            invariant
                n <= self.scopes@.len(),
                path@.len() > 0,
                items_view(self.scopes@).len() == self.scopes@.len(),
                forall|i: int|
                    0 <= i < self.scopes@.len() ==> #[trigger] items_view(self.scopes@)[i]
                        == self.scopes@[i]@,
                resolve(self.scopes(), texts(path@)) == resolve_in(
                    self.scopes(),
                    texts(path@),
                    n as int,
                ),
            decreases n,
        {
            match &self.scopes[n - 1] {
                Value::Object(entries) => match find_entry(entries, &path[0]) {
                    Some(at) => {
                        return entries[at].1.descend(path, 1);
                    },
                    None => {},
                },
                _ => {
                    return Err(ErrorKind::ShapeMismatch);
                },
            }
            n -= 1;
        }
        Err(ErrorKind::UndefinedReference)
    }

    /// The path that `template[start..end]` writes.
    fn read_path(&self, start: usize, end: usize) -> (result: Result<Vec<String>, ErrorKind>)
        requires
            start <= end <= self.template().len(),
        ensures
            match path_at(self.template(), start as int, end as int) {
                Some(path) => result matches Ok(found) && texts(found@) == path,
                None => result matches Err(x) && x == ErrorKind::Lex,
            },
    {
        let parts = split_at(self.in_bytes.as_slice(), DOT, start, end);
        proof {
            assert(byte_strings(parts@) =~= split(self.in_bytes@, DOT, start as int, end as int));
            assert(byte_strings(parts@).skip(0) =~= byte_strings(parts@));
        }
        to_names(&parts, 0)
    }

    /// The path of the directive text `template[from..close]` and the range
    /// of its pipe, where it has one.
    fn get_name_and_pipe(&self, from: usize, close: usize) -> (result: Result<
        (Vec<String>, Option<(usize, usize)>),
        ErrorKind,
    >)
        requires
            from <= close <= self.template().len(),
        ensures
            ({
                let (name, pipe) = directive_parts(self.template(), from as int, close as int);
                match path_at(self.template(), name.0, name.1) {
                    Some(path) => {
                        &&& result matches Ok((found, range))
                        &&& texts(found@) == path
                        &&& match pipe {
                            Some((start, end)) => range matches Some((a, b)) && a == start && b
                                == end && from <= a <= b <= close,
                            None => range is None,
                        }
                    },
                    None => result matches Err(x) && x == ErrorKind::Lex,
                }
            }),
    {
        let (start, end) = trim(self.in_bytes.as_slice(), from, close);
        let bar = find_in(self.in_bytes.as_slice(), BAR, start, end);
        if bar < end {
            let (name_start, name_end) = trim(self.in_bytes.as_slice(), start, bar);
            let pipe = trim(self.in_bytes.as_slice(), bar + 1, end);
            match self.read_path(name_start, name_end) {
                Ok(path) => Ok((path, Some(pipe))),
                Err(e) => Err(e),
            }
        } else {
            match self.read_path(start, end) {
                Ok(path) => Ok((path, None)),
                Err(e) => Err(e),
            }
        }
    }

    /// The value of the directive text `template[from..close]`.
    fn evaluate(&self, from: usize, close: usize) -> (result: Result<Value, ErrorKind>)
        requires
            self.well_formed(),
            from <= close <= self.template().len(),
        ensures
            match piped(self.template(), self.scopes(), from as int, close as int) {
                Ok(tree) => result matches Ok(value) && value@ == tree,
                Err(e) => result matches Err(x) && x == e,
            },
    {
        let (path, pipe) = match self.get_name_and_pipe(from, close) {
            Ok(parts) => parts,
            Err(e) => {
                return Err(e);
            },
        };
        let value = match self.get_value(&path) {
            Ok(value) => value,
            Err(e) => {
                return Err(e);
            },
        };
        match pipe {
            None => Ok(value.duplicate()),
            Some((start, end)) => {
                let text = copy_range(self.in_bytes.as_slice(), start, end);
                match compile(text.as_slice()) {
                    Ok(pipe) => pipe.apply(value),
                    Err(e) => Err(e),
                }
            },
        }
    }

    /// What the asset with the key `key` puts out.
    fn asset_bytes(&self, key: &[u8]) -> (bytes: Option<Vec<u8>>)
        ensures
            match asset_text(self.assets(), key@, 0) {
                Some(text) => bytes matches Some(found) && found@ == text,
                None => bytes is None,
            },
    {
        let mut k: usize = 0;
        while k < self.assets.len()
            invariant
                k <= self.assets@.len(),
                asset_text(self.assets@, key@, 0) == asset_text(self.assets@, key@, k as int),
            decreases self.assets.len() - k,
        {
            let asset = &self.assets[k];
            if same_bytes(asset.key.as_slice(), key) {
                return match &asset.content {
                    Some(content) => {
                        let mut out: Vec<u8> = Vec::new();
                        append(&mut out, asset.prefix.as_slice());
                        append(&mut out, content.as_slice());
                        append(&mut out, asset.suffix.as_slice());
                        proof {
                            assert(out@ =~= asset.prefix@ + content@ + asset.suffix@);
                        }
                        Some(out)
                    },
                    None => None,
                };
            }
            k += 1;
        }
        None
    }

    /// Runs a variable; the interpreter stands behind its `{{`.
    fn run_variable(&mut self) -> (result: Result<(), Error>)
        requires
            old(self).well_formed(),
            old(self).position() >= 2,
        ensures
            old(self).stepped(
                final(self),
                variable(old(self).template(), old(self).scopes(), old(self).position()),
                result,
            ),
    {
        let from = self.pos;
        match self.skip_until_pair(CLOSE, CLOSE) {
            Ok(()) => {},
            Err(e) => {
                return Err(e);
            },
        }
        let close = self.pos;
        self.skip(2);
        let value = match self.evaluate(from, close) {
            Ok(value) => value,
            Err(kind) => {
                return Err(Error { kind, position: from - 2 });
            },
        };
        match value {
            Value::Text(text) => {
                self.emit(text.as_str().as_bytes());
                Ok(())
            },
            _ => Err(Error { kind: ErrorKind::ShapeMismatch, position: from - 2 }),
        }
    }

    /// Runs an inline asset; the interpreter stands behind its `{>`.
    fn run_inline(&mut self) -> (result: Result<(), Error>)
        requires
            old(self).well_formed(),
            old(self).position() >= 2,
        ensures
            old(self).stepped(
                final(self),
                inlined(old(self).template(), old(self).assets(), old(self).position()),
                result,
            ),
    {
        let from = self.pos;
        match self.skip_until_pair(INLINE_END, CLOSE) {
            Ok(()) => {},
            Err(e) => {
                return Err(e);
            },
        }
        let close = self.pos;
        self.skip(2);
        let (start, end) = trim(self.in_bytes.as_slice(), from, close);
        let key = copy_range(self.in_bytes.as_slice(), start, end);
        match self.asset_bytes(key.as_slice()) {
            Some(bytes) => {
                self.emit(bytes.as_slice());
                Ok(())
            },
            None => Err(Error { kind: ErrorKind::UndefinedReference, position: from - 2 }),
        }
    }

    /// Skips the body of a block up to and with its `{}`; `at` is where the
    /// block's directive opened.
    fn skip_body(&mut self, at: usize) -> (result: Result<(), Error>)
        requires
            old(self).well_formed(),
        ensures
            match skip_block(old(self).template(), old(self).position(), 0) {
                Some(next) => {
                    &&& result is Ok
                    &&& old(self).continued(final(self))
                    &&& final(self).output() == old(self).output()
                    &&& final(self).position() == next
                },
                None => result == Err::<(), Error>(fail(ErrorKind::Syntax, at as int)),
            },
    {
        let mut inner_blocks: usize = 0;
        loop
            invariant
                old(self).continued(self),
                self.well_formed(),
                self.output() == old(self).output(),
                inner_blocks <= self.position(),
                skip_block(old(self).template(), old(self).position(), 0) == skip_block(
                    self.template(),
                    self.position(),
                    inner_blocks as nat,
                ),
            decreases self.template().len() - self.position(),
        {
            proof {
                lemma_skip_block(self.template(), self.position(), inner_blocks as nat);
            }
            match self.peek_pair() {
                None => {
                    return Err(Error { kind: ErrorKind::Syntax, position: at });
                },
                Some((a, b)) => {
                    if a == OPEN && (b == LOOP || b == OPTIONAL) {
                        self.skip(2);
                        inner_blocks += 1;
                    } else if a == OPEN && b == CLOSE {
                        self.skip(2);
                        if inner_blocks > 0 {
                            inner_blocks -= 1;
                        } else {
                            return Ok(());
                        }
                    } else {
                        self.skip(1);
                    }
                },
            }
        }
    }

    /// Opens a scope.
    fn push_scope(&mut self, scope: Value)
        requires
            old(self).well_formed(),
            old(self).scopes().len() < MAX_DEPTH,
        ensures
            final(self).well_formed(),
            final(self).template() == old(self).template(),
            final(self).assets() == old(self).assets(),
            final(self).output() == old(self).output(),
            final(self).position() == old(self).position(),
            final(self).scopes() == old(self).scopes().push(scope@),
    {
        proof {
            lemma_items_view(self.scopes@);
            lemma_items_view_push(self.scopes@, scope);
        }
        self.scopes.push(scope);
    }

    /// Closes the innermost scope.
    fn pop_scope(&mut self)
        requires
            old(self).well_formed(),
            old(self).scopes().len() > 1,
        ensures
            final(self).well_formed(),
            final(self).template() == old(self).template(),
            final(self).assets() == old(self).assets(),
            final(self).output() == old(self).output(),
            final(self).position() == old(self).position(),
            final(self).scopes() == old(self).scopes().drop_last(),
    {
        proof {
            lemma_items_view(self.scopes@);
        }
        self.scopes.pop();
        proof {
            assert(self.scopes@ == old(self).scopes@.drop_last());
        }
    }

    /// Runs a loop; the interpreter stands behind its `{*`.
    fn run_loop(&mut self) -> (result: Result<(), Error>)
        requires
            old(self).well_formed(),
            old(self).position() >= 2,
        ensures
            old(self).stepped(
                final(self),
                looping(
                    old(self).template(),
                    old(self).assets(),
                    old(self).scopes(),
                    old(self).position(),
                ),
                result,
            ),
        decreases old(self).template().len() - old(self).position(), 2nat, 0nat,
    {
        let from = self.pos;
        match self.skip_until_pair(LOOP, CLOSE) {
            Ok(()) => {},
            Err(e) => {
                return Err(e);
            },
        }
        let close = self.pos;
        self.skip(2);
        proof {
            self.lemma_depth();
            self.lemma_scopes();
        }
        if self.scopes.len() >= MAX_DEPTH {
            return Err(Error { kind: ErrorKind::Syntax, position: from - 2 });
        }
        let value = match self.evaluate(from, close) {
            Ok(value) => value,
            Err(kind) => {
                return Err(Error { kind, position: from - 2 });
            },
        };
        let items = match value {
            Value::Array(items) => items,
            _ => {
                return Err(Error { kind: ErrorKind::ShapeMismatch, position: from - 2 });
            },
        };
        proof {
            lemma_items_view(items@);
        }
        if items.len() == 0 {
            self.skip_body(from - 2)
        } else {
            self.run_each(&items)
        }
    }

    /// Runs the body of a loop, which starts at the position, once for each
    /// of `items`, and leaves the interpreter behind the `{}` of the body.
    #[verifier::loop_isolation(false)]
    #[verifier::rlimit(50)]
    fn run_each(&mut self, items: &Vec<Value>) -> (result: Result<(), Error>)
        requires
            old(self).well_formed(),
            old(self).scopes().len() < MAX_DEPTH,
        ensures
            old(self).stepped(
                final(self),
                each(
                    old(self).template(),
                    old(self).assets(),
                    old(self).scopes(),
                    items_view(items@),
                    0,
                    old(self).position(),
                    old(self).position(),
                ),
                result,
            ),
        decreases old(self).template().len() - old(self).position(), 4nat, 0nat,
    {
        let body = self.pos;
        let ghost trees = items_view(items@);
        let ghost base = self.scopes();
        let ghost t = self.template();
        let ghost assets = self.assets();
        let ghost goal = each(t, assets, base, trees, 0, body as int, body as int);
        let ghost mut done: Seq<u8> = Seq::empty();
        let mut end: usize = body;
        let mut k: usize = 0;
        proof {
            lemma_items_view(items@);
            self.lemma_depth();
            assert(then(done, goal) == goal) by {
                match goal {
                    Ok((bytes, _)) => {
                        assert(done + bytes == bytes);
                    },
                    Err(_) => {},
                }
            }
            assert(self.output() + done == self.output());
        }
        while k < items.len()
            invariant
                k <= items@.len(),
                old(self).continued(self),
                self.output() == old(self).output() + done,
                body <= end <= t.len(),
                base.len() >= 1,
                goal == then(done, each(t, assets, base, trees, k as int, body as int, end as int)),
            decreases items.len() - k,
        {
            let scope = item_scope_of(&items[k]);
            self.pos = body;
            self.push_scope(scope);
            let ghost inner = self.scopes();
            proof {
                assert(inner == base.push(item_scope(trees[k as int])));
                lemma_scan_stops(t, assets, inner, body as int);
            }
            match self.run_html() {
                Ok(()) => {},
                Err(e) => {
                    return Err(e);
                },
            }
            proof {
                self.lemma_depth();
                assert(inner.drop_last() == base);
            }
            self.pop_scope();
            proof {
                let bytes = scan(t, assets, inner, body as int)->Ok_0.0;
                lemma_then_then(
                    done,
                    bytes,
                    each(t, assets, base, trees, k as int + 1, body as int, self.position() + 2),
                );
                assert(old(self).output() + done + bytes == old(self).output() + (done + bytes));
                done = done + bytes;
                assert(pair_at(t, self.position(), OPEN, CLOSE));
            }
            self.skip(2);
            end = self.pos;
            k += 1;
        }
        proof {
            assert(done + Seq::<u8>::empty() == done);
        }
        self.pos = end;
        Ok(())
    }

    /// Runs an optional block; the interpreter stands behind its `{?`.
    fn run_optional(&mut self) -> (result: Result<(), Error>)
        requires
            old(self).well_formed(),
            old(self).position() >= 2,
        ensures
            old(self).stepped(
                final(self),
                optional(
                    old(self).template(),
                    old(self).assets(),
                    old(self).scopes(),
                    old(self).position(),
                ),
                result,
            ),
        decreases old(self).template().len() - old(self).position(), 2nat,
    {
        let from = self.pos;
        match self.skip_until_pair(OPTIONAL, CLOSE) {
            Ok(()) => {},
            Err(e) => {
                return Err(e);
            },
        }
        let close = self.pos;
        self.skip(2);
        let (start, end) = trim(self.in_bytes.as_slice(), from, close);
        let path = match self.read_path(start, end) {
            Ok(path) => path,
            Err(kind) => {
                return Err(Error { kind, position: from - 2 });
            },
        };
        let found = self.get_value(&path).is_ok();
        if found {
            proof {
                self.lemma_depth();
                self.lemma_scopes();
            }
            if self.scopes.len() >= MAX_DEPTH {
                return Err(Error { kind: ErrorKind::Syntax, position: from - 2 });
            }
            let entries: Vec<(String, Value)> = Vec::new();
            let scope = Value::Object(entries);
            proof {
                assert(scope@ == empty_scope());
            }
            let ghost base = self.scopes();
            self.push_scope(scope);
            proof {
                lemma_scan_stops(self.template(), self.assets(), self.scopes(), self.position());
            }
            match self.run_html() {
                Ok(()) => {},
                Err(e) => {
                    return Err(e);
                },
            }
            proof {
                self.lemma_depth();
            }
            self.pop_scope();
            proof {
                assert(base.push(empty_scope()).drop_last() == base);
            }
            self.skip(2);
            Ok(())
        } else {
            self.skip_body(from - 2)
        }
    }

    /// Runs the directive that opens at the position with `{` and `kind`.
    fn run_directive(&mut self, kind: u8) -> (result: Result<(), Error>)
        requires
            old(self).well_formed(),
            pair_at(old(self).template(), old(self).position(), OPEN, kind),
            kind == OPEN || kind == LOOP || kind == OPTIONAL || kind == INLINE,
        ensures
            directive(
                old(self).template(),
                old(self).assets(),
                old(self).scopes(),
                old(self).position(),
            ) matches Some(outcome) && old(self).stepped(final(self), outcome, result),
        decreases old(self).template().len() - old(self).position(), 2nat, 0nat,
    {
        self.skip(2);
        if kind == OPEN {
            self.run_variable()
        } else if kind == LOOP {
            self.run_loop()
        } else if kind == OPTIONAL {
            self.run_optional()
        } else {
            self.run_inline()
        }
    }

    /// Ends scanning where fewer than two bytes are left: the last byte is
    /// text, and the end of the template inside a block is an error.
    fn finish(&mut self) -> (result: Result<(), Error>)
        requires
            old(self).well_formed(),
            old(self).position() + 1 >= old(self).template().len(),
        ensures
            old(self).stepped(
                final(self),
                scan(
                    old(self).template(),
                    old(self).assets(),
                    old(self).scopes(),
                    old(self).position(),
                ),
                result,
            ),
    {
        let ghost t = self.template();
        let ghost pos = self.position();
        let ghost assets = self.assets();
        let ghost scopes = self.scopes();
        proof {
            self.lemma_depth();
            self.lemma_scopes();
        }
        if self.in_bytes.len() > self.pos {
            self.consume(1);
            proof {
                assert(t.subrange(pos, pos + 1) == seq![t[pos]]);
                assert(seq![t[pos]] + Seq::<u8>::empty() == seq![t[pos]]);
                self.lemma_scopes();
                assert(directive(t, assets, scopes, pos) is None);
                assert(scan(t, assets, scopes, pos) == then(
                    seq![t[pos]],
                    scan(t, assets, scopes, pos + 1),
                ));
                assert(scan(t, assets, scopes, pos + 1) == if scopes.len() > 1 {
                    Err::<(Seq<u8>, int), Error>(fail(ErrorKind::Syntax, t.len() as int))
                } else {
                    Ok((Seq::empty(), t.len() as int))
                });
            }
        } else {
            proof {
                assert(self.output() + Seq::<u8>::empty() == self.output());
            }
        }
        if self.scopes.len() > 1 {
            Err(Error { kind: ErrorKind::Syntax, position: self.in_bytes.len() })
        } else {
            Ok(())
        }
    }

    /// Scans from the position on: copies text to the output and runs the
    /// directives, up to the end of the block or of the template.
    #[verifier::loop_isolation(false)]
    #[verifier::rlimit(50)]
    fn run_html(&mut self) -> (result: Result<(), Error>)
        requires
            old(self).well_formed(),
        ensures
            old(self).stepped(
                final(self),
                scan(
                    old(self).template(),
                    old(self).assets(),
                    old(self).scopes(),
                    old(self).position(),
                ),
                result,
            ),
        decreases old(self).template().len() - old(self).position(), 3nat, 0nat,
    {
        let ghost t = self.template();
        let ghost assets = self.assets();
        let ghost scopes = self.scopes();
        let ghost goal = scan(t, assets, scopes, self.position());
        let ghost mut done: Seq<u8> = Seq::empty();
        proof {
            assert(then(done, goal) == goal) by {
                match goal {
                    Ok((bytes, _)) => {
                        assert(done + bytes == bytes);
                    },
                    Err(_) => {},
                }
            }
            assert(self.output() + done == self.output());
        }
        loop
            invariant
                old(self).continued(self),
                self.output() == old(self).output() + done,
                old(self).position() <= self.position(),
                goal == then(done, scan(t, assets, scopes, self.position())),
            decreases t.len() - self.position(),
        {
            let ghost pos = self.position();
            let ghost rest = scan(t, assets, scopes, pos);
            proof {
                self.lemma_depth();
                self.lemma_scopes();
                lemma_directive_ends(t, assets, scopes, pos);
            }
            match self.peek_pair() {
                Some((a, b)) => {
                    if a == OPEN && (b == OPEN || b == LOOP || b == OPTIONAL || b == INLINE) {
                        match self.run_directive(b) {
                            Ok(()) => {},
                            Err(e) => {
                                return Err(e);
                            },
                        }
                        proof {
                            let bytes = directive(t, assets, scopes, pos)->Some_0->Ok_0.0;
                            assert(rest == then(bytes, scan(t, assets, scopes, self.position())));
                            lemma_then_then(done, bytes, scan(t, assets, scopes, self.position()));
                            assert(old(self).output() + done + bytes == old(self).output() + (done
                                + bytes));
                            done = done + bytes;
                        }
                    } else if a == OPEN && b == CLOSE {
                        if self.scopes.len() > 1 {
                            proof {
                                assert(rest == Ok::<(Seq<u8>, int), Error>((Seq::empty(), pos)));
                                assert(done + Seq::<u8>::empty() == done);
                            }
                            return Ok(());
                        } else {
                            self.consume(2);
                            proof {
                                let bytes = seq![OPEN, CLOSE];
                                assert(t.subrange(pos, pos + 2) == bytes);
                                assert(rest == then(bytes, scan(t, assets, scopes, pos + 2)));
                                lemma_then_then(done, bytes, scan(t, assets, scopes, pos + 2));
                                assert(old(self).output() + done + bytes == old(self).output() + (
                                done + bytes));
                                done = done + bytes;
                            }
                        }
                    } else {
                        self.consume(1);
                        proof {
                            let bytes = seq![t[pos]];
                            assert(t.subrange(pos, pos + 1) == bytes);
                            assert(rest == then(bytes, scan(t, assets, scopes, pos + 1)));
                            lemma_then_then(done, bytes, scan(t, assets, scopes, pos + 1));
                            assert(old(self).output() + done + bytes == old(self).output() + (done
                                + bytes));
                            done = done + bytes;
                        }
                    }
                },
                None => {
                    let result = self.finish();
                    proof {
                        match rest {
                            Ok((bytes, _)) => {
                                assert(old(self).output() + done + bytes == old(self).output() + (
                                done + bytes));
                            },
                            Err(_) => {},
                        }
                    }
                    return result;
                },
            }
        }
    }
}

/// The scope that a loop opens for `item`.
fn item_scope_of(item: &Value) -> (scope: Value)
    ensures
        scope@ == item_scope(item@),
{
    let mut entries: Vec<(String, Value)> = Vec::new();
    let name = "$it".to_string();
    let copy = item.duplicate();
    proof {
        lemma_fields_view_push(entries@, name, copy);
        assert(fields_view(entries@) =~= Map::<Seq<char>, Tree>::empty());
    }
    entries.push((name, copy));
    Value::Object(entries)
}

/// What a template renders to as text, with the data read from a document.
/// Output that is no UTF-8 is a lex error.
pub open spec fn render_text(template: Seq<u8>, variables: Seq<u8>, assets: Seq<Asset>) -> Result<
    Seq<char>,
    Error,
> {
    match parse_spec(variables) {
        Err(e) => Err(e),
        Ok(root) => match render_spec(template, assets, root) {
            Err(e) => Err(e),
            Ok(out) => match text_of(out) {
                Some(text) => Ok(text),
                None => Err(fail(ErrorKind::Lex, 0)),
            },
        },
    }
}

/// Renders a template given as bytes with `root` as its data.
pub fn render_bytes(template: &[u8], root: Value, assets: Vec<Asset>) -> (result: Result<
    Vec<u8>,
    Error,
>)
    ensures
        match render_spec(template@, assets@, root@) {
            Ok(out) => result matches Ok(bytes) && bytes@ == out,
            Err(e) => result matches Err(x) && x == e,
        },
{
    let mut parser = Parser::new(vstd::slice::slice_to_vec(template), root, assets);
    match parser.run() {
        Ok(()) => {
            proof {
                assert(Seq::<u8>::empty() + parser.output() == parser.output());
            }
            Ok(parser.into_bytes())
        },
        Err(e) => Err(e),
    }
}

/// Renders a template with the data of the document `variables`.
pub fn render(template: &str, variables: &str, assets: Vec<Asset>) -> (result: Result<String, Error>)
    ensures
        match render_text(encode_utf8(template@), encode_utf8(variables@), assets@) {
            Ok(text) => result matches Ok(s) && s@ == text,
            Err(e) => result matches Err(x) && x == e,
        },
{
    let root = match parse_bytes(variables.as_bytes()) {
        Ok(root) => root,
        Err(e) => {
            return Err(e);
        },
    };
    let mut parser = Parser::new(vstd::slice::slice_to_vec(template.as_bytes()), root, assets);
    match parser.run() {
        Ok(()) => {
            proof {
                assert(Seq::<u8>::empty() + parser.output() == parser.output());
            }
            parser.result()
        },
        Err(e) => Err(e),
    }
}

} // verus!
