//! The sort pipe: its parameters, its keys and the order it puts items in.

use crate::bytes::{
    byte_strings, chars_of, names, same_bytes, split, split_at, texts, to_names, DOT,
};
use crate::error::ErrorKind;
use crate::pipe::expr::{call_of, read_call, Op, DOLLAR};
use crate::ron::value::{descend, items_view, lemma_items_view, lemma_items_view_push, Tree, Value};
use vstd::prelude::*;

verus! {

/// What a sort pipe does, as a mathematical value.
///
/// Two items of the array are compared through two texts: the one that `left`
/// leads to in the item that stands further left, and the one that `right`
/// leads to in the item that stands further right. `swapped` says that the
/// directive named the right item first, which turns the comparison round.
pub struct SortPlan {
    pub op: Op,
    pub swapped: bool,
    pub left: Seq<Seq<char>>,
    pub right: Seq<Seq<char>>,
}

/// What an item is compared by.
pub enum SortKey {
    Number(u32),
    Word(Seq<char>),
}

/// The value of a decimal digit.
pub open spec fn digit_value(c: char) -> Option<nat> {
    if '0' <= c <= '9' {
        Some((c as u32 - 48) as nat)
    } else {
        None
    }
}

/// The number that the digits `text[from..to]` write, where all of them are
/// digits.
pub open spec fn digits_value(text: Seq<char>, from: int, to: int) -> Option<nat>
    decreases to - from,
{
    if from >= to {
        Some(0)
    } else {
        match (digits_value(text, from, to - 1), digit_value(text[to - 1])) {
            (Some(front), Some(digit)) => Some(front * 10 + digit),
            _ => None,
        }
    }
}

/// The unsigned number that a text writes: decimal digits, at least one, with
/// or without a `+` before them, and no greater than `u32::MAX`.
pub open spec fn number_of(text: Seq<char>) -> Option<u32> {
    let from: int = if text.len() > 0 && text[0] == '+' {
        1
    } else {
        0
    };
    if from >= text.len() {
        None
    } else {
        match digits_value(text, from, text.len() as int) {
            Some(value) => if value <= u32::MAX {
                Some(value as u32)
            } else {
                None
            },
            None => None,
        }
    }
}

/// Whether `a` is greater than `b` from position `from` on, character by
/// character: the first character that differs decides, and a text is greater
/// than each of its beginnings.
pub open spec fn word_exceeds(a: Seq<char>, b: Seq<char>, from: int) -> bool
    decreases a.len() - from,
{
    if from < 0 || from >= a.len() {
        false
    } else if from >= b.len() {
        true
    } else if a[from] != b[from] {
        a[from] as u32 > b[from] as u32
    } else {
        word_exceeds(a, b, from + 1)
    }
}

/// Whether key `a` is greater than key `b`.
pub open spec fn key_exceeds(a: SortKey, b: SortKey) -> bool {
    match (a, b) {
        (SortKey::Number(x), SortKey::Number(y)) => x > y,
        (SortKey::Word(x), SortKey::Word(y)) => word_exceeds(x, y, 0),
        _ => false,
    }
}

/// The key that a path leads to in an item: the path has to end at a text,
/// and for a numeric comparison the text has to write a number.
pub open spec fn key_of(op: Op, tree: Tree, path: Seq<Seq<char>>) -> Result<SortKey, ErrorKind> {
    match descend(tree, path, 0) {
        Err(e) => Err(e),
        Ok(Tree::Text(text)) => match op {
            Op::IntCompare => match number_of(text) {
                Some(n) => Ok(SortKey::Number(n)),
                None => Err(ErrorKind::NumericParse),
            },
            Op::StringCompare => Ok(SortKey::Word(text)),
        },
        Ok(_) => Err(ErrorKind::ShapeMismatch),
    }
}

/// The two keys of an item: the one it is compared by when it stands left,
/// and the one it is compared by when it stands right.
pub open spec fn keys_of(plan: SortPlan, tree: Tree) -> Result<(SortKey, SortKey), ErrorKind> {
    match key_of(plan.op, tree, plan.left) {
        Err(e) => Err(e),
        Ok(left) => match key_of(plan.op, tree, plan.right) {
            Err(e) => Err(e),
            Ok(right) => Ok((left, right)),
        },
    }
}

/// The keys of the first `n` items, or the error of the first item that has
/// one.
pub open spec fn all_keys(plan: SortPlan, items: Seq<Tree>, n: int) -> Result<
    Seq<(SortKey, SortKey)>,
    ErrorKind,
>
    decreases n,
{
    if n <= 0 {
        Ok(Seq::empty())
    } else {
        match all_keys(plan, items, n - 1) {
            Err(e) => Err(e),
            Ok(keys) => match keys_of(plan, items[n - 1]) {
                Err(e) => Err(e),
                Ok(pair) => Ok(keys.push(pair)),
            },
        }
    }
}

/// Whether an item with the keys `l` that stands left of an item with the
/// keys `r` has to go behind it: the comparison that the directive wrote,
/// with the left item for `$1` and the right item for `$2`, says "greater".
pub open spec fn must_swap(swapped: bool, l: (SortKey, SortKey), r: (SortKey, SortKey)) -> bool {
    if swapped {
        key_exceeds(r.1, l.0)
    } else {
        key_exceeds(l.0, r.1)
    }
}

/// The order `order` with the item `x` put in: `x` goes before the items at
/// the end of the order that have to go behind it, and behind all others.
pub open spec fn inserted(
    swapped: bool,
    keys: Seq<(SortKey, SortKey)>,
    order: Seq<int>,
    x: int,
) -> Seq<int>
    decreases order.len(),
{
    if order.len() > 0 && must_swap(swapped, keys[order.last()], keys[x]) {
        inserted(swapped, keys, order.drop_last(), x).push(order.last())
    } else {
        order.push(x)
    }
}

/// The order in which the first `n` items come out: each item in turn is put
/// into the order of those before it. Items that need no swap keep the order
/// in which they came.
pub open spec fn sorted_order(swapped: bool, keys: Seq<(SortKey, SortKey)>, n: int) -> Seq<int>
    decreases n,
{
    if n <= 0 {
        Seq::empty()
    } else {
        inserted(swapped, keys, sorted_order(swapped, keys, n - 1), n - 1)
    }
}

/// What a sort pipe makes of a tree. Only an array can be sorted. An array
/// of fewer than two items stays as it is; in a longer one every item needs
/// both its keys.
pub open spec fn sort_spec(plan: SortPlan, tree: Tree) -> Result<Tree, ErrorKind> {
    match tree {
        Tree::Array(items) => if items.len() < 2 {
            Ok(tree)
        } else {
            match all_keys(plan, items, items.len() as int) {
                Err(e) => Err(e),
                Ok(keys) => {
                    let order = sorted_order(plan.swapped, keys, items.len() as int);
                    Ok(Tree::Array(Seq::new(items.len(), |k: int| items[order[k]])))
                },
            }
        },
        _ => Err(ErrorKind::Pipe),
    }
}

/// The digit `1`, which with `$` names the item on the left.
pub const LEFT: u8 = 49;

/// The digit `2`, which with `$` names the item on the right.
pub const RIGHT: u8 = 50;

/// Whether a part of an argument is `$` and the digit `digit`.
pub open spec fn head_is(part: Seq<u8>, digit: u8) -> bool {
    part == seq![DOLLAR, digit]
}

/// The plan with the given paths, where they are text.
pub open spec fn plan_with(op: Op, swapped: bool, left: Seq<Seq<u8>>, right: Seq<Seq<u8>>) -> Result<
    SortPlan,
    ErrorKind,
> {
    match (names(left), names(right)) {
        (Some(left), Some(right)) => Ok(SortPlan { op, swapped, left, right }),
        _ => Err(ErrorKind::Lex),
    }
}

/// The plan that the parameters of a sort directive stand for: a call whose
/// two arguments are dotted paths, one that starts with `$1` and one that
/// starts with `$2`, in either order.
pub open spec fn sort_plan_of(params: Seq<u8>) -> Result<SortPlan, ErrorKind> {
    match call_of(params) {
        None => Err(ErrorKind::Syntax),
        Some(call) => {
            let first = split(call.first, DOT, 0, call.first.len() as int);
            let second = split(call.second, DOT, 0, call.second.len() as int);
            if head_is(first[0], LEFT) && head_is(second[0], RIGHT) {
                plan_with(call.op, false, first.skip(1), second.skip(1))
            } else if head_is(first[0], RIGHT) && head_is(second[0], LEFT) {
                plan_with(call.op, true, second.skip(1), first.skip(1))
            } else {
                Err(ErrorKind::Syntax)
            }
        },
    }
}

/// A sort key as the program holds it.
#[derive(Debug)]
pub enum Key {
    Number(u32),
    Word(Vec<char>),
}

impl Key {
    /// The key that this key stands for.
    pub open spec fn view(&self) -> SortKey {
        match self {
            Key::Number(n) => SortKey::Number(*n),
            Key::Word(chars) => SortKey::Word(chars@),
        }
    }

    /// Whether this key is greater than `other`.
    pub fn exceeds(&self, other: &Key) -> (greater: bool)
        ensures
            greater == key_exceeds(self@, other@),
    {
        match (self, other) {
            (Key::Number(x), Key::Number(y)) => *x > *y,
            (Key::Word(x), Key::Word(y)) => {
                let mut i: usize = 0;
                while i < x.len() && i < y.len() && x[i] == y[i]
                    invariant
                        i <= x.len(),
                        i <= y.len(),
                        word_exceeds(x@, y@, 0) == word_exceeds(x@, y@, i as int),
                    decreases x.len() - i,
                {
                    i += 1;
                }
                if i >= x.len() {
                    false
                } else if i >= y.len() {
                    true
                } else {
                    x[i] as u32 > y[i] as u32
                }
            },
            _ => false,
        }
    }
}

/// The pairs of keys that a list of pairs of keys stands for.
pub open spec fn key_pairs(keys: Seq<(Key, Key)>) -> Seq<(SortKey, SortKey)> {
    Seq::new(keys.len(), |i: int| (keys[i].0@, keys[i].1@))
}

/// Positions as numbers.
pub open spec fn indices(order: Seq<usize>) -> Seq<int> {
    Seq::new(order.len(), |i: int| order[i] as int)
}

/// Where digits write a number, each beginning of them writes a number
/// that is no greater.
proof fn lemma_digits_prefix(text: Seq<char>, from: int, mid: int, to: int)
    requires
        from <= mid <= to,
    ensures
        digits_value(text, from, to) matches Some(whole) ==> digits_value(text, from, mid)
            matches Some(part) && part <= whole,
    decreases to - mid,
{
    if mid < to {
        lemma_digits_prefix(text, from, mid, to - 1);
    }
}

/// Reads an unsigned decimal number.
#[verifier::loop_isolation(false)]
pub fn parse_number(text: &Vec<char>) -> (number: Option<u32>)
    ensures
        number == number_of(text@),
{
    let from: usize = if text.len() > 0 && text[0] == '+' {
        1
    } else {
        0
    };
    if from >= text.len() {
        return None;
    }
    let mut value: u64 = 0;
    let mut i: usize = from;
    while i < text.len()
        invariant
            from <= i <= text@.len(),
            value <= u32::MAX,
            digits_value(text@, from as int, i as int) == Some(value as nat),
        decreases text.len() - i,
    {
        let c = text[i];
        if !(c >= '0' && c <= '9') {
            proof {
                lemma_digits_prefix(text@, from as int, i as int + 1, text@.len() as int);
            }
            return None;
        }
        value = value * 10 + (c as u32 - 48) as u64;
        i += 1;
        if value > 0xffff_ffff {
            proof {
                lemma_digits_prefix(text@, from as int, i as int, text@.len() as int);
            }
            return None;
        }
    }
    Some(value as u32)
}

/// The key that `path` leads to in `value`.
fn key_for(op: Op, value: &Value, path: &Vec<String>) -> (result: Result<Key, ErrorKind>)
    ensures
        match key_of(op, value@, texts(path@)) {
            Ok(key) => result matches Ok(found) && found@ == key,
            Err(e) => result matches Err(x) && x == e,
        },
{
    match value.descend(path, 0) {
        Err(e) => Err(e),
        Ok(Value::Text(text)) => {
            let chars = chars_of(text.as_str());
            match op {
                Op::IntCompare => match parse_number(&chars) {
                    Some(n) => Ok(Key::Number(n)),
                    None => Err(ErrorKind::NumericParse),
                },
                Op::StringCompare => Ok(Key::Word(chars)),
            }
        },
        Ok(_) => Err(ErrorKind::ShapeMismatch),
    }
}

/// Putting `x` into an order at position `at` is what [`inserted`] does,
/// where the items from `at` on have to go behind `x` and the one before `at`
/// has not.
proof fn lemma_inserted(
    swapped: bool,
    keys: Seq<(SortKey, SortKey)>,
    order: Seq<int>,
    x: int,
    at: int,
)
    requires
        0 <= at <= order.len(),
        forall|j: int| at <= j < order.len() ==> must_swap(swapped, keys[#[trigger] order[j]], keys[x]),
        at > 0 ==> !must_swap(swapped, keys[order[at - 1]], keys[x]),
    ensures
        inserted(swapped, keys, order, x) == order.take(at).push(x) + order.skip(at),
    decreases order.len() - at,
{
    if at == order.len() {
        assert(order.take(at) == order);
        assert(order.push(x) + order.skip(at) == order.push(x));
        if order.len() > 0 {
            assert(order.last() == order[at - 1]);
        }
    } else {
        let front = order.drop_last();
        assert(must_swap(swapped, keys[order[order.len() - 1]], keys[x]));
        assert forall|j: int| at <= j < front.len() implies must_swap(
            swapped,
            keys[#[trigger] front[j]],
            keys[x],
        ) by {
            assert(front[j] == order[j]);
        }
        if at > 0 {
            assert(front[at - 1] == order[at - 1]);
        }
        lemma_inserted(swapped, keys, front, x, at);
        assert((front.take(at).push(x) + front.skip(at)).push(order.last()) == order.take(at).push(
            x,
        ) + order.skip(at));
    }
}

/// Whether the item with the keys `l` has to go behind the one with the keys
/// `r` that stands right of it.
fn has_to_swap(swapped: bool, l: &(Key, Key), r: &(Key, Key)) -> (swap: bool)
    ensures
        swap == must_swap(swapped, (l.0@, l.1@), (r.0@, r.1@)),
{
    if swapped {
        r.1.exceeds(&l.0)
    } else {
        l.0.exceeds(&r.1)
    }
}

/// The positions of the items in sorted order.
#[verifier::loop_isolation(false)]
fn sort_indices(swapped: bool, keys: &Vec<(Key, Key)>) -> (order: Vec<usize>)
    ensures
        indices(order@) == sorted_order(swapped, key_pairs(keys@), keys@.len() as int),
        order@.len() == keys@.len(),
        forall|k: int| 0 <= k < order@.len() ==> #[trigger] order@[k] < keys@.len(),
{
    let ghost pairs = key_pairs(keys@);
    let mut order: Vec<usize> = Vec::new();
    let mut x: usize = 0;
    proof {
        assert(indices(order@) =~= sorted_order(swapped, pairs, 0));
    }
    while x < keys.len()
        invariant
            x <= keys@.len(),
            order@.len() == x,
            forall|k: int| 0 <= k < order@.len() ==> #[trigger] order@[k] < x,
            indices(order@) == sorted_order(swapped, pairs, x as int),
        decreases keys.len() - x,
    {
        let mut at: usize = order.len();
        while at > 0 && has_to_swap(swapped, &keys[order[at - 1]], &keys[x])
            invariant
                at <= order@.len(),
                order@.len() == x,
                x < keys@.len(),
                forall|k: int| 0 <= k < order@.len() ==> #[trigger] order@[k] < x,
                forall|j: int|
                    at <= j < order@.len() ==> must_swap(
                        swapped,
                        pairs[#[trigger] indices(order@)[j]],
                        pairs[x as int],
                    ),
            decreases at,
        {
            at -= 1;
        }
        proof {
            let before = indices(order@);
            lemma_inserted(swapped, pairs, before, x as int, at as int);
            assert(indices(order@.insert(at as int, x)) =~= before.take(at as int).push(x as int)
                + before.skip(at as int));
        }
        order.insert(at, x);
        x += 1;
    }
    order
}

/// A pipe that sorts an array by a comparison of its items.
#[derive(Debug)]
pub struct SortPipe {
    op: Op,
    swapped: bool,
    left: Vec<String>,
    right: Vec<String>,
}

impl SortPipe {
    /// What the pipe does.
    pub closed spec fn view(&self) -> SortPlan {
        SortPlan {
            op: self.op,
            swapped: self.swapped,
            left: texts(self.left@),
            right: texts(self.right@),
        }
    }

    /// Compiles the parameters of a sort directive.
    pub fn from_bytes(params: &[u8]) -> (result: Result<SortPipe, ErrorKind>)
        ensures
            match sort_plan_of(params@) {
                Ok(plan) => result matches Ok(pipe) && pipe@ == plan,
                Err(e) => result matches Err(x) && x == e,
            },
    {
        let (op, first_id, second_id) = match read_call(params) {
            Some(call) => call,
            None => {
                return Err(ErrorKind::Syntax);
            },
        };
        let first = split_at(first_id.as_slice(), DOT, 0, first_id.len());
        let second = split_at(second_id.as_slice(), DOT, 0, second_id.len());
        proof {
            assert(byte_strings(first@) =~= split(first_id@, DOT, 0, first_id@.len() as int));
            assert(byte_strings(second@) =~= split(second_id@, DOT, 0, second_id@.len() as int));
        }
        let one: Vec<u8> = vec![DOLLAR, LEFT];
        let two: Vec<u8> = vec![DOLLAR, RIGHT];
        proof {
            assert(one@ =~= seq![DOLLAR, LEFT]);
            assert(two@ =~= seq![DOLLAR, RIGHT]);
        }
        let swapped = if same_bytes(first[0].as_slice(), one.as_slice()) && same_bytes(
            second[0].as_slice(),
            two.as_slice(),
        ) {
            false
        } else if same_bytes(first[0].as_slice(), two.as_slice()) && same_bytes(
            second[0].as_slice(),
            one.as_slice(),
        ) {
            true
        } else {
            return Err(ErrorKind::Syntax);
        };
        let first_path = match to_names(&first, 1) {
            Ok(path) => Some(path),
            Err(_) => None,
        };
        let second_path = match to_names(&second, 1) {
            Ok(path) => Some(path),
            Err(_) => None,
        };
        match (first_path, second_path) {
            (Some(first_path), Some(second_path)) => if swapped {
                Ok(SortPipe { op, swapped, left: second_path, right: first_path })
            } else {
                Ok(SortPipe { op, swapped, left: first_path, right: second_path })
            },
            _ => Err(ErrorKind::Lex),
        }
    }

    /// Sorts an array.
    #[verifier::loop_isolation(false)]
    pub fn sort(&self, value: &Value) -> (result: Result<Value, ErrorKind>)
        ensures
            match sort_spec(self@, value@) {
                Ok(tree) => result matches Ok(sorted) && sorted@ == tree,
                Err(e) => result matches Err(x) && x == e,
            },
    {
        let items = match value {
            Value::Array(items) => items,
            _ => {
                return Err(ErrorKind::Pipe);
            },
        };
        proof {
            lemma_items_view(items@);
        }
        if items.len() < 2 {
            return Ok(value.duplicate());
        }
        let ghost trees = items_view(items@);
        let mut keys: Vec<(Key, Key)> = Vec::new();
        let mut i: usize = 0;
        proof {
            assert(key_pairs(keys@) =~= Seq::<(SortKey, SortKey)>::empty());
        }
        while i < items.len()
            invariant
                i <= items@.len(),
                keys@.len() == i,
                all_keys(self@, trees, i as int) == Ok::<Seq<(SortKey, SortKey)>, ErrorKind>(
                    key_pairs(keys@),
                ),
            decreases items.len() - i,
        {
            let left = match key_for(self.op, &items[i], &self.left) {
                Ok(key) => key,
                Err(e) => {
                    proof {
                        lemma_all_keys_error(self@, trees, i as int + 1, items@.len() as int);
                    }
                    return Err(e);
                },
            };
            let right = match key_for(self.op, &items[i], &self.right) {
                Ok(key) => key,
                Err(e) => {
                    proof {
                        lemma_all_keys_error(self@, trees, i as int + 1, items@.len() as int);
                    }
                    return Err(e);
                },
            };
            proof {
                assert(key_pairs(keys@.push((left, right))) =~= key_pairs(keys@).push(
                    (left@, right@),
                ));
            }
            keys.push((left, right));
            i += 1;
        }
        let order = sort_indices(self.swapped, &keys);
        let ghost wanted = sorted_order(self.swapped, key_pairs(keys@), items@.len() as int);
        let mut sorted: Vec<Value> = Vec::new();
        let mut k: usize = 0;
        proof {
            assert(items_view(sorted@) =~= Seq::<Tree>::empty());
        }
        while k < order.len()
            invariant
                k <= order@.len(),
                items_view(sorted@) == Seq::new(k as nat, |j: int| trees[wanted[j]]),
            decreases order.len() - k,
        {
            let item = items[order[k]].duplicate();
            proof {
                lemma_items_view_push(sorted@, item);
                assert(indices(order@)[k as int] == wanted[k as int]);
                assert(items_view(sorted@).push(item@) =~= Seq::new(
                    (k + 1) as nat,
                    |j: int| trees[wanted[j]],
                ));
            }
            sorted.push(item);
            k += 1;
        }
        Ok(Value::Array(sorted))
    }
}

/// An error among the keys of the first items is the error of all the keys.
proof fn lemma_all_keys_error(plan: SortPlan, items: Seq<Tree>, n: int, m: int)
    requires
        0 <= n <= m,
    ensures
        all_keys(plan, items, n) is Err ==> all_keys(plan, items, m) == all_keys(plan, items, n),
    decreases m - n,
{
    if n < m {
        lemma_all_keys_error(plan, items, n, m - 1);
    }
}

/// Whether the keys are those of one comparison that reads both sides
/// through the same path: each item has the same key on either side, and
/// the keys are all numbers or all words.
pub open spec fn uniform(keys: Seq<(SortKey, SortKey)>) -> bool {
    &&& forall|i: int| 0 <= i < keys.len() ==> (#[trigger] keys[i]).0 == keys[i].1
    &&& {
        ||| forall|i: int| 0 <= i < keys.len() ==> (#[trigger] keys[i]).0 is Number
        ||| forall|i: int| 0 <= i < keys.len() ==> (#[trigger] keys[i]).0 is Word
    }
}

/// Whether `order` arranges the first `n` items: it names each of them once.
pub open spec fn is_arrangement(order: Seq<int>, n: int) -> bool {
    &&& order.len() == n
    &&& forall|i: int| 0 <= i < order.len() ==> 0 <= #[trigger] order[i] < n
    &&& forall|i: int, j: int|
        0 <= i < j < order.len() ==> #[trigger] order[i] != #[trigger] order[j]
}

/// Whether no item stands before one that it has to go behind.
pub open spec fn is_sorted(swapped: bool, keys: Seq<(SortKey, SortKey)>, order: Seq<int>) -> bool {
    forall|i: int, j: int|
        0 <= i < j < order.len() ==> !must_swap(
            swapped,
            keys[#[trigger] order[i]],
            keys[#[trigger] order[j]],
        )
}

/// Whether items that the comparison does not tell apart stand in the order
/// in which they came.
pub open spec fn is_stable(swapped: bool, keys: Seq<(SortKey, SortKey)>, order: Seq<int>) -> bool {
    forall|i: int, j: int|
        0 <= i < j < order.len() && !must_swap(
            swapped,
            keys[#[trigger] order[j]],
            keys[#[trigger] order[i]],
        ) ==> order[i] < order[j]
}

/// "Greater" on words never holds both ways, and what is not greater than
/// a word that is not greater than a third is not greater than the third.
proof fn lemma_word_order(a: Seq<char>, b: Seq<char>, c: Seq<char>, from: int)
    requires
        0 <= from,
    ensures
        word_exceeds(a, b, from) ==> !word_exceeds(b, a, from),
        !word_exceeds(a, b, from) && !word_exceeds(b, c, from) ==> !word_exceeds(a, c, from),
    decreases a.len() - from,
{
    if from < a.len() && from < b.len() && from < c.len() {
        vstd::utf8::char_u32_cast(a[from], a[from] as u32);
        vstd::utf8::char_u32_cast(b[from], b[from] as u32);
        vstd::utf8::char_u32_cast(c[from], c[from] as u32);
    }
    if from < a.len() && from < b.len() {
        if a[from] == b[from] {
            if from < c.len() && b[from] == c[from] {
                lemma_word_order(a, b, c, from + 1);
            } else {
                lemma_word_order(a, b, b, from + 1);
                if from < c.len() {
                    assert(a[from] != c[from]);
                }
            }
        } else if from < c.len() && b[from] == c[from] {
            assert(a[from] != c[from]);
        }
    }
}

/// On keys of one kind "greater" is a strict order in which any two keys
/// compare: it never holds both ways, and what is not greater than a key
/// that is not greater than a third is not greater than the third.
proof fn lemma_key_order(a: SortKey, b: SortKey, c: SortKey)
    requires
        (a is Number && b is Number && c is Number) || (a is Word && b is Word && c is Word),
    ensures
        key_exceeds(a, b) ==> !key_exceeds(b, a),
        !key_exceeds(a, b) && !key_exceeds(b, c) ==> !key_exceeds(a, c),
{
    match (a, b, c) {
        (SortKey::Word(x), SortKey::Word(y), SortKey::Word(z)) => {
            lemma_word_order(x, y, z, 0);
        },
        _ => {},
    }
}

/// Where an item goes that is put into an order: before the items at the
/// end that have to go behind it.
pub open spec fn slot(swapped: bool, keys: Seq<(SortKey, SortKey)>, order: Seq<int>, x: int) -> int
    decreases order.len(),
{
    if order.len() > 0 && must_swap(swapped, keys[order.last()], keys[x]) {
        slot(swapped, keys, order.drop_last(), x)
    } else {
        order.len() as int
    }
}

/// The slot lies in the order; all the items from it on have to go behind
/// the new item, and the one before it has not.
proof fn lemma_slot(swapped: bool, keys: Seq<(SortKey, SortKey)>, order: Seq<int>, x: int)
    ensures
        0 <= slot(swapped, keys, order, x) <= order.len(),
        forall|j: int|
            slot(swapped, keys, order, x) <= j < order.len() ==> must_swap(
                swapped,
                keys[#[trigger] order[j]],
                keys[x],
            ),
        slot(swapped, keys, order, x) > 0 ==> !must_swap(
            swapped,
            keys[order[slot(swapped, keys, order, x) - 1]],
            keys[x],
        ),
    decreases order.len(),
{
    if order.len() > 0 && must_swap(swapped, keys[order.last()], keys[x]) {
        let front = order.drop_last();
        lemma_slot(swapped, keys, front, x);
        assert forall|j: int| slot(swapped, keys, order, x) <= j < order.len() implies must_swap(
            swapped,
            keys[#[trigger] order[j]],
            keys[x],
        ) by {
            if j < front.len() {
                assert(front[j] == order[j]);
            }
        }
        if slot(swapped, keys, order, x) > 0 {
            assert(front[slot(swapped, keys, order, x) - 1] == order[slot(swapped, keys, order, x)
                - 1]);
        }
    }
}

/// Putting the next item into an order that is sorted and stable gives an
/// order that is sorted and stable.
#[verifier::rlimit(50)]
proof fn lemma_inserted_keeps_order(
    swapped: bool,
    keys: Seq<(SortKey, SortKey)>,
    order: Seq<int>,
    x: int,
)
    requires
        0 <= x < keys.len(),
        uniform(keys),
        is_arrangement(order, x),
        is_sorted(swapped, keys, order),
        is_stable(swapped, keys, order),
    ensures
        is_arrangement(inserted(swapped, keys, order, x), x + 1),
        is_sorted(swapped, keys, inserted(swapped, keys, order, x)),
        is_stable(swapped, keys, inserted(swapped, keys, order, x)),
{
    let at = slot(swapped, keys, order, x);
    lemma_slot(swapped, keys, order, x);
    lemma_inserted(swapped, keys, order, x, at);
    let out = inserted(swapped, keys, order, x);
    assert(out.len() == x + 1);
    assert forall|i: int| 0 <= i < out.len() implies #[trigger] out[i] == (if i < at {
        order[i]
    } else if i == at {
        x
    } else {
        order[i - 1]
    }) by {}
    assert forall|i: int, j: int| 0 <= i < j < out.len() implies !must_swap(
        swapped,
        keys[#[trigger] out[i]],
        keys[#[trigger] out[j]],
    ) by {
        let l = keys[out[i]];
        let r = keys[out[j]];
        if j == at {
            let pivot = keys[order[at - 1]];
            assert(!must_swap(swapped, pivot, keys[x]));
            if i < at - 1 {
                assert(!must_swap(swapped, keys[order[i]], keys[order[at - 1]]));
            }
            lemma_key_order(l.0, pivot.0, r.0);
            lemma_key_order(r.0, pivot.0, l.0);
        } else if i == at {
            assert(must_swap(swapped, keys[order[j - 1]], keys[x]));
            lemma_key_order(l.0, r.0, l.0);
            lemma_key_order(r.0, l.0, r.0);
        } else {
            let oi = if i < at { i } else { i - 1 };
            let oj = if j < at { j } else { j - 1 };
            assert(!must_swap(swapped, keys[order[oi]], keys[order[oj]]));
        }
    }
    assert forall|i: int, j: int|
        0 <= i < j < out.len() && !must_swap(
            swapped,
            keys[#[trigger] out[j]],
            keys[#[trigger] out[i]],
        ) implies out[i] < out[j] by {
        if j == at {
            assert(order[i] < x);
        } else if i == at {
            assert(must_swap(swapped, keys[order[j - 1]], keys[x]));
        } else {
            let oi = if i < at { i } else { i - 1 };
            let oj = if j < at { j } else { j - 1 };
            assert(!must_swap(swapped, keys[order[oj]], keys[order[oi]]));
        }
    }
    assert forall|i: int, j: int| 0 <= i < j < out.len() implies #[trigger] out[i]
        != #[trigger] out[j] by {
        let oi = if i < at { i } else { i - 1 };
        let oj = if j < at { j } else { j - 1 };
        if i != at && j != at {
            assert(order[oi] != order[oj]);
        } else if i == at {
            assert(order[oj] < x);
        } else {
            assert(order[oi] < x);
        }
    }
}

/// The order in which a sort puts out the items is a stable sort, where the
/// comparison reads both sides through the same path: every item comes out
/// once, no item comes out before one that it has to go behind, and items
/// that the comparison does not tell apart come out in the order in which
/// they went in.
pub proof fn lemma_order_is_stable_sort(swapped: bool, keys: Seq<(SortKey, SortKey)>, n: int)
    requires
        0 <= n <= keys.len(),
        uniform(keys),
    ensures
        is_arrangement(sorted_order(swapped, keys, n), n),
        is_sorted(swapped, keys, sorted_order(swapped, keys, n)),
        is_stable(swapped, keys, sorted_order(swapped, keys, n)),
    decreases n,
{
    if n > 0 {
        lemma_order_is_stable_sort(swapped, keys, n - 1);
        lemma_inserted_keeps_order(swapped, keys, sorted_order(swapped, keys, n - 1), n - 1);
    }
}

/// The keys of a plan whose two paths are the same are uniform.
pub proof fn lemma_same_path_keys(plan: SortPlan, items: Seq<Tree>, n: int)
    requires
        plan.left == plan.right,
        0 <= n,
    ensures
        all_keys(plan, items, n) matches Ok(keys) ==> keys.len() == n && uniform(keys) && forall|
            i: int,
        |
            0 <= i < keys.len() ==> ((#[trigger] keys[i]).0 is Number <==> plan.op
                == Op::IntCompare),
    decreases n,
{
    if n > 0 {
        lemma_same_path_keys(plan, items, n - 1);
        match all_keys(plan, items, n) {
            Ok(keys) => {
                let front = all_keys(plan, items, n - 1)->Ok_0;
                let pair = keys_of(plan, items[n - 1])->Ok_0;
                assert(keys == front.push(pair));
                assert forall|i: int| 0 <= i < keys.len() implies (#[trigger] keys[i]).0
                    == keys[i].1 && (keys[i].0 is Number <==> plan.op == Op::IntCompare) by {
                    if i < front.len() {
                        assert(keys[i] == front[i]);
                    }
                }
            },
            Err(_) => {},
        }
    }
}

/// A sort whose comparison reads both sides through the same path is a
/// stable sort: the array that comes out holds the items that went in, each
/// once, in an order in which no item stands before one that it has to go
/// behind, and items with equal keys stand as they stood.
pub proof fn lemma_sort_is_stable(plan: SortPlan, items: Seq<Tree>)
    requires
        plan.left == plan.right,
        items.len() >= 2,
        all_keys(plan, items, items.len() as int) is Ok,
    ensures
        ({
            let keys = all_keys(plan, items, items.len() as int)->Ok_0;
            let order = sorted_order(plan.swapped, keys, items.len() as int);
            &&& sort_spec(plan, Tree::Array(items)) matches Ok(Tree::Array(sorted))
            &&& sorted.len() == items.len()
            &&& forall|k: int| 0 <= k < sorted.len() ==> #[trigger] sorted[k] == items[order[k]]
            &&& is_arrangement(order, items.len() as int)
            &&& is_sorted(plan.swapped, keys, order)
            &&& is_stable(plan.swapped, keys, order)
        }),
{
    lemma_same_path_keys(plan, items, items.len() as int);
    let keys = all_keys(plan, items, items.len() as int)->Ok_0;
    lemma_order_is_stable_sort(plan.swapped, keys, items.len() as int);
}

} // verus!
