//! What holds of every template: how scopes bind names, in which order a
//! loop runs, and where a skipped block ends.

use crate::bytes::trimmed;
use crate::error::{Error, ErrorKind};
use crate::ron::value::{descend, Tree};
use crate::rustache::model::{
    directive, each, find_pair, item_scope, lemma_skip_block, optional, pair_at, path_at, resolve,
    resolve_in, scan, skip_block, then, Asset, CLOSE, LOOP, OPEN, OPTIONAL,
};
use vstd::prelude::*;

verus! {

/// Inside the body of a loop `$it` names the item of the run: a path that
/// starts with `$it` leads from the item on, whatever the scopes around the
/// loop hold.
pub proof fn lemma_item_is_bound(scopes: Seq<Tree>, item: Tree, path: Seq<Seq<char>>)
    requires
        path.len() >= 1,
        path[0] == "$it"@,
    ensures
        resolve(scopes.push(item_scope(item)), path) == descend(item, path, 1),
{
    let inner = scopes.push(item_scope(item));
    assert(inner[inner.len() - 1] == item_scope(item));
}

/// A loop binds `$it` and nothing else: inside its body every other name
/// means what it means outside, and outside the scope of the item is gone,
/// so that `$it` names there only what the scopes around the loop hold.
pub proof fn lemma_other_names_stay(scopes: Seq<Tree>, item: Tree, path: Seq<Seq<char>>)
    requires
        path.len() >= 1,
        path[0] != "$it"@,
    ensures
        resolve(scopes.push(item_scope(item)), path) == resolve(scopes, path),
{
    let inner = scopes.push(item_scope(item));
    assert(inner[inner.len() - 1] == item_scope(item));
    lemma_resolve_below(inner, scopes, path, scopes.len() as int);
}

/// Outside of every loop `$it` names nothing, unless the data itself holds
/// that key: with the data as the one scope, a path that starts with `$it`
/// is an undefined reference.
pub proof fn lemma_item_is_unbound_outside(fields: Map<Seq<char>, Tree>, path: Seq<Seq<char>>)
    requires
        path.len() >= 1,
        path[0] == "$it"@,
        !fields.contains_key("$it"@),
    ensures
        resolve(seq![Tree::Object(fields)], path) == Err::<Tree, ErrorKind>(
            ErrorKind::UndefinedReference,
        ),
{
    let scopes = seq![Tree::Object(fields)];
    assert(scopes[0] == Tree::Object(fields));
    assert(resolve_in(scopes, path, 0) == Err::<Tree, ErrorKind>(ErrorKind::UndefinedReference));
}

/// What a path names in the first `n` scopes depends on those scopes alone.
pub proof fn lemma_resolve_below(a: Seq<Tree>, b: Seq<Tree>, path: Seq<Seq<char>>, n: int)
    requires
        n <= a.len(),
        n <= b.len(),
        forall|i: int| 0 <= i < n ==> a[i] == b[i],
    ensures
        resolve_in(a, path, n) == resolve_in(b, path, n),
    decreases n,
{
    if n > 0 {
        lemma_resolve_below(a, b, path, n - 1);
    }
}

/// A loop runs its body for the items in the order of the array: the runs
/// for an array with one more item at its end are the runs for the array,
/// followed by the run for that item.
pub proof fn lemma_loop_runs_in_order(
    t: Seq<u8>,
    assets: Seq<Asset>,
    scopes: Seq<Tree>,
    items: Seq<Tree>,
    last: Tree,
    k: int,
    body: int,
    end: int,
)
    requires
        0 <= k <= items.len(),
    ensures
        each(t, assets, scopes, items.push(last), k, body, end) == match each(
            t,
            assets,
            scopes,
            items,
            k,
            body,
            end,
        ) {
            Err(e) => Err(e),
            Ok((bytes, _)) => match scan(t, assets, scopes.push(item_scope(last)), body) {
                Err(e) => Err(e),
                Ok((more, stop)) => Ok((bytes + more, stop + 2)),
            },
        },
    decreases items.len() - k,
{
    let longer = items.push(last);
    if k < items.len() {
        assert(longer[k] == items[k]);
        match scan(t, assets, scopes.push(item_scope(items[k])), body) {
            Err(_) => {},
            Ok((first, stop)) => {
                lemma_loop_runs_in_order(t, assets, scopes, items, last, k + 1, body, stop + 2);
                match each(t, assets, scopes, items, k + 1, body, stop + 2) {
                    Err(_) => {},
                    Ok((bytes, _)) => {
                        match scan(t, assets, scopes.push(item_scope(last)), body) {
                            Err(_) => {},
                            Ok((more, _)) => {
                                assert(first + (bytes + more) == first + bytes + more);
                            },
                        }
                    },
                }
            },
        }
    } else {
        assert(longer[k] == last);
        match scan(t, assets, scopes.push(item_scope(last)), body) {
            Err(_) => {},
            Ok((more, stop)) => {
                assert(each(t, assets, scopes, longer, k + 1, body, stop + 2) == Ok::<
                    (Seq<u8>, int),
                    Error,
                >((Seq::empty(), stop + 2)));
                assert(more + Seq::<u8>::empty() == more);
                assert(Seq::<u8>::empty() + more == more);
            },
        }
    }
}

/// Blocks inside a skipped block balance: where skipping from `pos` with
/// `depth` blocks open ends at `next`, skipping from `pos` with more blocks
/// open comes to `next` with one block fewer open than the surplus. So a
/// whole loop or optional block inside a skipped body is passed over, and
/// the `{}` that ends the skipping is the one of the body itself.
pub proof fn lemma_skip_balances(t: Seq<u8>, pos: int, depth: nat, surplus: nat)
    requires
        0 <= pos,
        skip_block(t, pos, depth) is Some,
    ensures
        skip_block(t, pos, depth + 1 + surplus) == skip_block(
            t,
            skip_block(t, pos, depth)->0,
            surplus,
        ),
    decreases t.len() - pos,
{
    if pos + 1 < t.len() {
        if pair_at(t, pos, OPEN, LOOP) || pair_at(t, pos, OPEN, OPTIONAL) {
            lemma_skip_balances(t, pos + 2, depth + 1, surplus);
        } else if pair_at(t, pos, OPEN, CLOSE) {
            if depth > 0 {
                lemma_skip_balances(t, pos + 2, (depth - 1) as nat, surplus);
            }
        } else {
            lemma_skip_balances(t, pos + 1, depth, surplus);
        }
    }
}

/// A block that opens inside a skipped body is passed over as a whole:
/// skipping from its `{*` or `{?` goes on behind the `{}` of that block
/// with as many blocks open as before.
pub proof fn lemma_skip_passes_inner_block(t: Seq<u8>, pos: int, depth: nat)
    requires
        0 <= pos,
        pair_at(t, pos, OPEN, LOOP) || pair_at(t, pos, OPEN, OPTIONAL),
        skip_block(t, pos + 2, 0) is Some,
    ensures
        skip_block(t, pos, depth) == skip_block(t, skip_block(t, pos + 2, 0)->0, depth),
{
    lemma_skip_balances(t, pos + 2, 0, depth);
}

/// An optional block whose path names nothing puts nothing out, whatever
/// its body holds, and scanning goes on right behind the `{}` that ends the
/// block.
pub proof fn lemma_missing_optional_is_skipped(
    t: Seq<u8>,
    assets: Seq<Asset>,
    scopes: Seq<Tree>,
    pos: int,
)
    requires
        0 <= pos,
        pair_at(t, pos, OPEN, OPTIONAL),
        ({
            let close = find_pair(t, pos + 2, OPTIONAL, CLOSE);
            let name = trimmed(t, pos + 2, close);
            &&& pos + 2 <= close
            &&& close + 2 <= t.len()
            &&& path_at(t, name.0, name.1) matches Some(path)
            &&& resolve(scopes, path) is Err
            &&& skip_block(t, close + 2, 0) is Some
        }),
    ensures
        ({
            let close = find_pair(t, pos + 2, OPTIONAL, CLOSE);
            let next = skip_block(t, close + 2, 0)->0;
            &&& optional(t, assets, scopes, pos + 2) == Ok::<(Seq<u8>, int), Error>(
                (Seq::empty(), next),
            )
            &&& scan(t, assets, scopes, pos) == scan(t, assets, scopes, next)
            &&& pair_at(t, next - 2, OPEN, CLOSE)
            &&& close + 4 <= next <= t.len()
        }),
{
    let close = find_pair(t, pos + 2, OPTIONAL, CLOSE);
    let next = skip_block(t, close + 2, 0)->0;
    lemma_skip_block(t, close + 2, 0);
    let skipped = Ok::<(Seq<u8>, int), Error>((Seq::empty(), next));
    assert(optional(t, assets, scopes, pos + 2) == skipped);
    assert(directive(t, assets, scopes, pos) == Some(skipped));
    assert(scan(t, assets, scopes, pos) == then(Seq::empty(), scan(t, assets, scopes, next)));
    match scan(t, assets, scopes, next) {
        Ok((bytes, _)) => {
            assert(Seq::<u8>::empty() + bytes == bytes);
        },
        Err(_) => {},
    }
}

} // verus!
