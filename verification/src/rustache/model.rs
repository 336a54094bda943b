//! What rendering means: the interpreter of templates as mathematical
//! functions from a template, the data and a position to the bytes that are
//! put out and the position reached.

use crate::bytes::{names, position_in, split, trimmed, DOT};
use crate::error::{Error, ErrorKind};
use crate::pipe::{apply_plan, plan_of};
use crate::ron::value::{descend, Tree};
use vstd::prelude::*;
use vstd::utf8::encode_utf8;

verus! {

/// `{`, with which every directive and the end of a block start.
pub const OPEN: u8 = 123;

/// `}`, with which every directive and the end of a block end.
pub const CLOSE: u8 = 125;

/// `*`, which marks a loop: `{*` and `*}`.
pub const LOOP: u8 = 42;

/// `?`, which marks an optional block: `{?` and `?}`.
pub const OPTIONAL: u8 = 63;

/// `>`, which opens an inline asset: `{>`.
pub const INLINE: u8 = 62;

/// `<`, which closes an inline asset: `<}`.
pub const INLINE_END: u8 = 60;

/// `|`, which stands between a path and a pipe.
pub const BAR: u8 = 124;

/// How many scopes can be open at once: the data and the blocks around a
/// position. A template that nests its blocks deeper is refused.
pub const MAX_DEPTH: usize = 64;

/// A named piece of text that a template can take in, with the markup that
/// is put before and behind it. `content` is `None` where the host has no
/// such piece.
#[derive(Debug)]
pub struct Asset {
    pub key: Vec<u8>,
    pub prefix: Vec<u8>,
    pub suffix: Vec<u8>,
    pub content: Option<Vec<u8>>,
}

/// An error of a kind at a position.
pub open spec fn fail(kind: ErrorKind, position: int) -> Error {
    Error { kind, position: position as usize }
}

/// Whether the two bytes at `pos` are `a` and `b`.
pub open spec fn pair_at(t: Seq<u8>, pos: int, a: u8, b: u8) -> bool {
    0 <= pos && pos + 1 < t.len() && t[pos] == a && t[pos + 1] == b
}

/// The first position from `from` on at which the pair `a`, `b` stands, or
/// the length of `t` where it stands nowhere.
pub open spec fn find_pair(t: Seq<u8>, from: int, a: u8, b: u8) -> int
    decreases t.len() - from,
{
    if from < 0 || from + 1 >= t.len() {
        t.len() as int
    } else if pair_at(t, from, a, b) {
        from
    } else {
        find_pair(t, from + 1, a, b)
    }
}

/// An output before the output of what follows it.
pub open spec fn then(first: Seq<u8>, rest: Result<(Seq<u8>, int), Error>) -> Result<
    (Seq<u8>, int),
    Error,
> {
    match rest {
        Ok((bytes, stop)) => Ok((first + bytes, stop)),
        Err(e) => Err(e),
    }
}

/// The scope that a loop opens for an item: the item under the name `$it`.
pub open spec fn item_scope(item: Tree) -> Tree {
    Tree::Object(Map::empty().insert("$it"@, item))
}

/// The scope that a matched optional block opens: it binds nothing.
pub open spec fn empty_scope() -> Tree {
    Tree::Object(Map::empty())
}

/// What a path names in the first `n` scopes. The first segment is looked up
/// from the innermost of them outwards; the first scope that holds it
/// decides, and the other segments lead down from there through objects.
pub open spec fn resolve_in(scopes: Seq<Tree>, path: Seq<Seq<char>>, n: int) -> Result<
    Tree,
    ErrorKind,
>
    decreases n,
{
    if n <= 0 || path.len() == 0 {
        Err(ErrorKind::UndefinedReference)
    } else {
        match scopes[n - 1] {
            Tree::Object(fields) => if fields.contains_key(path[0]) {
                descend(fields[path[0]], path, 1)
            } else {
                resolve_in(scopes, path, n - 1)
            },
            _ => Err(ErrorKind::ShapeMismatch),
        }
    }
}

/// What a path names in the scopes.
pub open spec fn resolve(scopes: Seq<Tree>, path: Seq<Seq<char>>) -> Result<Tree, ErrorKind> {
    resolve_in(scopes, path, scopes.len() as int)
}

/// The parts of the text `t[from..close]` of a directive: the range of the
/// path and, where a `|` follows it, the range of the pipe. Whitespace
/// round the text, the path and the pipe does not count.
pub open spec fn directive_parts(t: Seq<u8>, from: int, close: int) -> (
    (int, int),
    Option<(int, int)>,
) {
    let (start, end) = trimmed(t, from, close);
    let bar = position_in(t, BAR, start, end);
    if bar < end {
        (trimmed(t, start, bar), Some(trimmed(t, bar + 1, end)))
    } else {
        ((start, end), None)
    }
}

/// The path that `t[start..end]` writes: its parts between the dots.
pub open spec fn path_at(t: Seq<u8>, start: int, end: int) -> Option<Seq<Seq<char>>> {
    names(split(t, DOT, start, end))
}

/// The value of the directive text `t[from..close]`: what its path names,
/// put through its pipe where it has one.
pub open spec fn piped(t: Seq<u8>, scopes: Seq<Tree>, from: int, close: int) -> Result<
    Tree,
    ErrorKind,
> {
    let (name, pipe) = directive_parts(t, from, close);
    match path_at(t, name.0, name.1) {
        None => Err(ErrorKind::Lex),
        Some(path) => match resolve(scopes, path) {
            Err(e) => Err(e),
            Ok(value) => match pipe {
                None => Ok(value),
                Some((start, end)) => match plan_of(t.subrange(start, end)) {
                    Err(e) => Err(e),
                    Ok(plan) => apply_plan(plan, value),
                },
            },
        },
    }
}

/// What the asset with the key `key` puts out, looking from asset `k` on:
/// its prefix, its content and its suffix. `None` where no asset has the key
/// or the first that has it has no content.
pub open spec fn asset_text(assets: Seq<Asset>, key: Seq<u8>, k: int) -> Option<Seq<u8>>
    decreases assets.len() - k,
{
    if k < 0 || k >= assets.len() {
        None
    } else if assets[k].key@ == key {
        match assets[k].content {
            Some(content) => Some(assets[k].prefix@ + content@ + assets[k].suffix@),
            None => None,
        }
    } else {
        asset_text(assets, key, k + 1)
    }
}

/// Where the block ends whose body holds `pos`, with `depth` blocks open
/// inside it: the position behind its `{}`. Each `{*` and `{?` opens a block
/// and each `{}` closes one. `None` where the template ends first.
pub open spec fn skip_block(t: Seq<u8>, pos: int, depth: nat) -> Option<int>
    decreases t.len() - pos,
{
    if pos < 0 || pos + 1 >= t.len() {
        None
    } else if pair_at(t, pos, OPEN, LOOP) || pair_at(t, pos, OPEN, OPTIONAL) {
        skip_block(t, pos + 2, depth + 1)
    } else if pair_at(t, pos, OPEN, CLOSE) {
        if depth > 0 {
            skip_block(t, pos + 2, (depth - 1) as nat)
        } else {
            Some(pos + 2)
        }
    } else {
        skip_block(t, pos + 1, depth)
    }
}

/// A variable whose text starts at `from`, behind its `{{`: the text up to
/// the next `}}` is a path with or without a pipe, and its value has to be a
/// text, which is put out.
pub open spec fn variable(t: Seq<u8>, scopes: Seq<Tree>, from: int) -> Result<
    (Seq<u8>, int),
    Error,
> {
    let close = find_pair(t, from, CLOSE, CLOSE);
    if close < from || close + 2 > t.len() {
        Err(fail(ErrorKind::Syntax, from - 2))
    } else {
        match piped(t, scopes, from, close) {
            Err(kind) => Err(fail(kind, from - 2)),
            Ok(Tree::Text(text)) => Ok((encode_utf8(text), close + 2)),
            Ok(_) => Err(fail(ErrorKind::ShapeMismatch, from - 2)),
        }
    }
}

/// An inline asset whose key starts at `from`, behind its `{>`: the text up
/// to the next `<}` names an asset, which is put out inside its markup.
pub open spec fn inlined(t: Seq<u8>, assets: Seq<Asset>, from: int) -> Result<
    (Seq<u8>, int),
    Error,
> {
    let close = find_pair(t, from, INLINE_END, CLOSE);
    if close < from || close + 2 > t.len() {
        Err(fail(ErrorKind::Syntax, from - 2))
    } else {
        let (start, end) = trimmed(t, from, close);
        match asset_text(assets, t.subrange(start, end), 0) {
            Some(bytes) => Ok((bytes, close + 2)),
            None => Err(fail(ErrorKind::UndefinedReference, from - 2)),
        }
    }
}

/// Scanning from `pos`: what is put out up to where scanning stops, and
/// that position.
///
/// A directive is run and scanning goes on behind it. Inside a block, that
/// is with more scopes than the data alone, scanning stops at the `{}` that
/// ends the block, which it leaves in place, and the end of the template is
/// an error. Outside of any block `{}` is text like any other byte, and
/// scanning stops at the end of the template.
pub open spec fn scan(t: Seq<u8>, assets: Seq<Asset>, scopes: Seq<Tree>, pos: int) -> Result<
    (Seq<u8>, int),
    Error,
>
    decreases t.len() - pos, 3nat, 0nat,
{
    if pos < 0 || pos >= t.len() {
        if scopes.len() > 1 {
            Err(fail(ErrorKind::Syntax, t.len() as int))
        } else {
            Ok((Seq::empty(), t.len() as int))
        }
    } else {
        match directive(t, assets, scopes, pos) {
            Some(Err(e)) => Err(e),
            Some(Ok((bytes, next))) => if pos < next <= t.len() {
                then(bytes, scan(t, assets, scopes, next))
            } else {
                Err(fail(ErrorKind::Syntax, pos))
            },
            None => if pair_at(t, pos, OPEN, CLOSE) {
                if scopes.len() > 1 {
                    Ok((Seq::empty(), pos))
                } else {
                    then(seq![OPEN, CLOSE], scan(t, assets, scopes, pos + 2))
                }
            } else {
                then(seq![t[pos]], scan(t, assets, scopes, pos + 1))
            },
        }
    }
}

/// The directive that opens at `pos`, where one does: what it puts out and
/// the position behind it.
pub open spec fn directive(t: Seq<u8>, assets: Seq<Asset>, scopes: Seq<Tree>, pos: int) -> Option<
    Result<(Seq<u8>, int), Error>,
>
    decreases t.len() - pos, 2nat, 0nat,
{
    if pair_at(t, pos, OPEN, OPEN) {
        Some(variable(t, scopes, pos + 2))
    } else if pair_at(t, pos, OPEN, LOOP) {
        Some(looping(t, assets, scopes, pos + 2))
    } else if pair_at(t, pos, OPEN, OPTIONAL) {
        Some(optional(t, assets, scopes, pos + 2))
    } else if pair_at(t, pos, OPEN, INLINE) {
        Some(inlined(t, assets, pos + 2))
    } else {
        None
    }
}

/// A loop whose text starts at `from`, behind its `{*`: the text up to the
/// next `*}` is a path with or without a pipe, and its value has to be an
/// array. The body that follows is run once for each item, in order, and the
/// loop ends behind the `{}` of its body. With no item the body is skipped.
pub open spec fn looping(t: Seq<u8>, assets: Seq<Asset>, scopes: Seq<Tree>, from: int) -> Result<
    (Seq<u8>, int),
    Error,
>
    decreases t.len() - from, 2nat, 0nat,
{
    let close = find_pair(t, from, LOOP, CLOSE);
    if close < from || close + 2 > t.len() {
        Err(fail(ErrorKind::Syntax, from - 2))
    } else if scopes.len() >= MAX_DEPTH {
        Err(fail(ErrorKind::Syntax, from - 2))
    } else {
        match piped(t, scopes, from, close) {
            Err(kind) => Err(fail(kind, from - 2)),
            Ok(Tree::Array(items)) => if items.len() == 0 {
                match skip_block(t, close + 2, 0) {
                    Some(next) => Ok((Seq::empty(), next)),
                    None => Err(fail(ErrorKind::Syntax, from - 2)),
                }
            } else {
                each(t, assets, scopes, items, 0, close + 2, close + 2)
            },
            Ok(_) => Err(fail(ErrorKind::ShapeMismatch, from - 2)),
        }
    }
}

/// The runs of a loop body from item `k` on. Each run scans the body, which
/// starts at `body`, with the item in a scope of its own on top of the
/// scopes, and ends at the `{}` of the body. `end` is the position behind
/// the block as the run before found it.
pub open spec fn each(
    t: Seq<u8>,
    assets: Seq<Asset>,
    scopes: Seq<Tree>,
    items: Seq<Tree>,
    k: int,
    body: int,
    end: int,
) -> Result<(Seq<u8>, int), Error>
    decreases t.len() - body, 4nat, items.len() - k,
{
    if k < 0 || k >= items.len() {
        Ok((Seq::empty(), end))
    } else {
        match scan(t, assets, scopes.push(item_scope(items[k])), body) {
            Err(e) => Err(e),
            Ok((bytes, stop)) => then(bytes, each(t, assets, scopes, items, k + 1, body, stop + 2)),
        }
    }
}

/// An optional block whose path starts at `from`, behind its `{?`: the text
/// up to the next `?}` is a path. Where the path names something the body is
/// run once, in a scope of its own that binds nothing; where it names
/// nothing the body is skipped and nothing is put out. Either way the block
/// ends behind the `{}` of its body.
pub open spec fn optional(t: Seq<u8>, assets: Seq<Asset>, scopes: Seq<Tree>, from: int) -> Result<
    (Seq<u8>, int),
    Error,
>
    decreases t.len() - from, 2nat, 0nat,
{
    let close = find_pair(t, from, OPTIONAL, CLOSE);
    if close < from || close + 2 > t.len() {
        Err(fail(ErrorKind::Syntax, from - 2))
    } else {
        let (start, end) = trimmed(t, from, close);
        match path_at(t, start, end) {
            None => Err(fail(ErrorKind::Lex, from - 2)),
            Some(path) => match resolve(scopes, path) {
                Ok(_) => if scopes.len() >= MAX_DEPTH {
                    Err(fail(ErrorKind::Syntax, from - 2))
                } else {
                    match scan(t, assets, scopes.push(empty_scope()), close + 2) {
                        Err(e) => Err(e),
                        Ok((bytes, stop)) => Ok((bytes, stop + 2)),
                    }
                },
                Err(_) => match skip_block(t, close + 2, 0) {
                    Some(next) => Ok((Seq::empty(), next)),
                    None => Err(fail(ErrorKind::Syntax, from - 2)),
                },
            },
        }
    }
}

/// What a template renders to with `root` as its data.
pub open spec fn render_spec(t: Seq<u8>, assets: Seq<Asset>, root: Tree) -> Result<Seq<u8>, Error> {
    match scan(t, assets, seq![root], 0) {
        Ok((out, _)) => Ok(out),
        Err(e) => Err(e),
    }
}

/// The position found holds the pair, or is the length, and no position
/// before it from `from` on holds the pair.
pub proof fn lemma_find_pair(t: Seq<u8>, from: int, a: u8, b: u8)
    requires
        0 <= from <= t.len(),
    ensures
        from <= find_pair(t, from, a, b) <= t.len(),
        find_pair(t, from, a, b) < t.len() ==> pair_at(t, find_pair(t, from, a, b), a, b),
        forall|p: int| from <= p < find_pair(t, from, a, b) ==> !pair_at(t, p, a, b),
    decreases t.len() - from,
{
    if from + 1 < t.len() && !pair_at(t, from, a, b) {
        lemma_find_pair(t, from + 1, a, b);
    }
}

/// Skipping ends right behind a `{}`, inside the template.
pub proof fn lemma_skip_block(t: Seq<u8>, pos: int, depth: nat)
    requires
        0 <= pos,
    ensures
        skip_block(t, pos, depth) matches Some(next) ==> pos + 2 <= next <= t.len() && pair_at(
            t,
            next - 2,
            OPEN,
            CLOSE,
        ),
    decreases t.len() - pos,
{
    if pos + 1 < t.len() {
        if pair_at(t, pos, OPEN, LOOP) || pair_at(t, pos, OPEN, OPTIONAL) {
            lemma_skip_block(t, pos + 2, depth + 1);
        } else if pair_at(t, pos, OPEN, CLOSE) {
            if depth > 0 {
                lemma_skip_block(t, pos + 2, (depth - 1) as nat);
            }
        } else {
            lemma_skip_block(t, pos + 1, depth);
        }
    }
}

/// Outputs add up: two outputs before a rest are their sum before it.
pub proof fn lemma_then_then(first: Seq<u8>, second: Seq<u8>, rest: Result<(Seq<u8>, int), Error>)
    ensures
        then(first, then(second, rest)) == then(first + second, rest),
{
    match rest {
        Ok((bytes, _)) => {
            assert(first + (second + bytes) == first + second + bytes);
        },
        Err(_) => {},
    }
}

/// Where scanning stops: inside a block at the `{}` that ends it, outside of
/// any block at the end of the template.
pub proof fn lemma_scan_stops(t: Seq<u8>, assets: Seq<Asset>, scopes: Seq<Tree>, pos: int)
    requires
        0 <= pos <= t.len(),
        scopes.len() >= 1,
    ensures
        scan(t, assets, scopes, pos) matches Ok((_, stop)) ==> pos <= stop <= t.len() && (
        scopes.len() > 1 ==> pair_at(t, stop, OPEN, CLOSE)) && (scopes.len() <= 1 ==> stop
            == t.len()),
    decreases t.len() - pos, 3nat, 0nat,
{
    if pos < t.len() {
        lemma_directive_ends(t, assets, scopes, pos);
        match directive(t, assets, scopes, pos) {
            Some(Err(_)) => {},
            Some(Ok((_, next))) => {
                lemma_scan_stops(t, assets, scopes, next);
            },
            None => {
                if pair_at(t, pos, OPEN, CLOSE) {
                    if scopes.len() <= 1 {
                        lemma_scan_stops(t, assets, scopes, pos + 2);
                    }
                } else {
                    lemma_scan_stops(t, assets, scopes, pos + 1);
                }
            },
        }
    }
}

/// A directive ends behind its two opening bytes and inside the template.
pub proof fn lemma_directive_ends(t: Seq<u8>, assets: Seq<Asset>, scopes: Seq<Tree>, pos: int)
    requires
        0 <= pos <= t.len(),
        scopes.len() >= 1,
    ensures
        directive(t, assets, scopes, pos) matches Some(Ok((_, next))) ==> pos + 2 <= next
            <= t.len(),
    decreases t.len() - pos, 2nat, 0nat,
{
    if pair_at(t, pos, OPEN, OPEN) {
        lemma_find_pair(t, pos + 2, CLOSE, CLOSE);
    } else if pair_at(t, pos, OPEN, LOOP) {
        lemma_looping_ends(t, assets, scopes, pos + 2);
    } else if pair_at(t, pos, OPEN, OPTIONAL) {
        lemma_optional_ends(t, assets, scopes, pos + 2);
    } else if pair_at(t, pos, OPEN, INLINE) {
        lemma_find_pair(t, pos + 2, INLINE_END, CLOSE);
    }
}

/// A loop ends behind its opening and inside the template.
pub proof fn lemma_looping_ends(t: Seq<u8>, assets: Seq<Asset>, scopes: Seq<Tree>, from: int)
    requires
        0 <= from <= t.len(),
        scopes.len() >= 1,
    ensures
        looping(t, assets, scopes, from) matches Ok((_, next)) ==> from <= next <= t.len(),
    decreases t.len() - from, 2nat, 0nat,
{
    let close = find_pair(t, from, LOOP, CLOSE);
    if from <= close && close + 2 <= t.len() && scopes.len() < MAX_DEPTH {
        match piped(t, scopes, from, close) {
            Ok(Tree::Array(items)) => {
                if items.len() == 0 {
                    lemma_skip_block(t, close + 2, 0);
                } else {
                    lemma_each_ends(t, assets, scopes, items, 0, close + 2, close + 2);
                }
            },
            _ => {},
        }
    }
}

/// The runs of a loop end behind the start of the body and inside the
/// template.
pub proof fn lemma_each_ends(
    t: Seq<u8>,
    assets: Seq<Asset>,
    scopes: Seq<Tree>,
    items: Seq<Tree>,
    k: int,
    body: int,
    end: int,
)
    requires
        0 <= body <= end <= t.len(),
        scopes.len() >= 1,
    ensures
        each(t, assets, scopes, items, k, body, end) matches Ok((_, next)) ==> body <= next
            <= t.len(),
    decreases t.len() - body, 4nat, items.len() - k,
{
    if 0 <= k < items.len() {
        let inner = scopes.push(item_scope(items[k]));
        lemma_scan_stops(t, assets, inner, body);
        match scan(t, assets, inner, body) {
            Ok((_, stop)) => {
                lemma_each_ends(t, assets, scopes, items, k + 1, body, stop + 2);
            },
            Err(_) => {},
        }
    }
}

/// An optional block ends behind its opening and inside the template.
pub proof fn lemma_optional_ends(t: Seq<u8>, assets: Seq<Asset>, scopes: Seq<Tree>, from: int)
    requires
        0 <= from <= t.len(),
        scopes.len() >= 1,
    ensures
        optional(t, assets, scopes, from) matches Ok((_, next)) ==> from <= next <= t.len(),
    decreases t.len() - from, 2nat, 0nat,
{
    let close = find_pair(t, from, OPTIONAL, CLOSE);
    if from <= close && close + 2 <= t.len() {
        lemma_skip_block(t, close + 2, 0);
        lemma_scan_stops(t, assets, scopes.push(empty_scope()), close + 2);
    }
}

} // verus!
