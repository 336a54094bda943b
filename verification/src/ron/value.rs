//! Values, the trees that they stand for, and the paths that lead into them.

use crate::bytes::texts;
use crate::error::ErrorKind;
use vstd::prelude::*;

verus! {

/// The mathematical content of a document: what a [`Value`] stands for.
///
/// An array is a sequence, whose order matters. An object is a map from keys to
/// trees; it has no order and holds each key once.
#[verifier::ext_equal]
pub enum Tree {
    Text(Seq<char>),
    Array(Seq<Tree>),
    Object(Map<Seq<char>, Tree>),
}

/// A document value as the program holds it.
///
/// An object is kept as the list of its entries in the order in which they were
/// written. Where a key is written twice the later entry counts, so the list
/// stands for the map that [`fields_view`] builds from it.
#[derive(Debug)]
pub enum Value {
    Text(String),
    Array(Vec<Value>),
    Object(Vec<(String, Value)>),
}

/// The map that a list of entries stands for: each entry is written into the
/// map in turn, a later one replacing an earlier one with the same key.
pub open spec fn fields_view(entries: Seq<(String, Value)>) -> Map<Seq<char>, Tree>
    decreases entries, 0nat,
{
    if entries.len() == 0 {
        Map::empty()
    } else {
        fields_view(entries.drop_last()).insert(entries.last().0@, entries.last().1.view())
    }
}

/// The trees of a list of values, in the same order.
pub open spec fn items_view(items: Seq<Value>) -> Seq<Tree>
    decreases items, 0nat,
{
    if items.len() == 0 {
        Seq::empty()
    } else {
        items_view(items.drop_last()).push(items.last().view())
    }
}

/// The greatest index below `n` at which `entries` holds `key`, if there is one.
pub open spec fn last_index_of(entries: Seq<(String, Value)>, key: Seq<char>, n: int) -> Option<int>
    decreases n,
{
    if n <= 0 {
        None
    } else if entries[n - 1].0@ == key {
        Some(n - 1)
    } else {
        last_index_of(entries, key, n - 1)
    }
}

impl Value {
    /// The tree that the value stands for.
    pub open spec fn view(&self) -> Tree
        decreases self, 1nat,
    {
        match self {
            Value::Text(s) => Tree::Text(s@),
            Value::Array(items) => Tree::Array(items_view(items@)),
            Value::Object(entries) => Tree::Object(fields_view(entries@)),
        }
    }
}

/// The trees of a list of values are as many as the values, each the tree
/// of its value.
pub proof fn lemma_items_view(items: Seq<Value>)
    ensures
        items_view(items).len() == items.len(),
        forall|i: int| 0 <= i < items.len() ==> #[trigger] items_view(items)[i] == items[i]@,
    decreases items.len(),
{
    if items.len() > 0 {
        lemma_items_view(items.drop_last());
    }
}

/// The trees of a list with one value more.
pub proof fn lemma_items_view_push(items: Seq<Value>, item: Value)
    ensures
        items_view(items.push(item)) == items_view(items).push(item@),
{
    assert(items.push(item).drop_last() == items);
}

/// The map of a list with one entry more.
pub proof fn lemma_fields_view_push(entries: Seq<(String, Value)>, key: String, value: Value)
    ensures
        fields_view(entries.push((key, value))) == fields_view(entries).insert(key@, value@),
{
    assert(entries.push((key, value)).drop_last() == entries);
}

/// What the map of a list of entries holds at a key is what the last entry with
/// that key holds.
pub proof fn lemma_fields_view(entries: Seq<(String, Value)>, key: Seq<char>)
    ensures
        match last_index_of(entries, key, entries.len() as int) {
            Some(i) => 0 <= i < entries.len() && entries[i].0@ == key && fields_view(
                entries,
            ).contains_key(key) && fields_view(entries)[key] == entries[i].1@,
            None => !fields_view(entries).contains_key(key),
        },
    decreases entries.len(),
{
    if entries.len() > 0 {
        let front = entries.drop_last();
        lemma_fields_view(front, key);
        lemma_last_index_of_prefix(entries, front, key, front.len() as int);
    }
}

/// The index of the last entry with a key among the first `n` entries
/// depends on those entries alone.
pub proof fn lemma_last_index_of_prefix(
    a: Seq<(String, Value)>,
    b: Seq<(String, Value)>,
    key: Seq<char>,
    n: int,
)
    requires
        n <= a.len(),
        n <= b.len(),
        forall|i: int| 0 <= i < n ==> a[i] == b[i],
    ensures
        last_index_of(a, key, n) == last_index_of(b, key, n),
    decreases n,
{
    if n > 0 {
        lemma_last_index_of_prefix(a, b, key, n - 1);
    }
}

/// The index found holds the key and no later entry below `n` does; where
/// none is found no entry below `n` holds the key.
pub proof fn lemma_last_index_of(entries: Seq<(String, Value)>, key: Seq<char>, n: int)
    requires
        n <= entries.len(),
    ensures
        match last_index_of(entries, key, n) {
            Some(i) => 0 <= i < n && entries[i].0@ == key && forall|j: int|
                i < j < n ==> (#[trigger] entries[j]).0@ != key,
            None => forall|j: int| 0 <= j < n ==> (#[trigger] entries[j]).0@ != key,
        },
    decreases n,
{
    if n > 0 {
        lemma_last_index_of(entries, key, n - 1);
    }
}


/// What a path leads to inside a tree, from its segment `from` on: each
/// segment names a key of the object reached so far. A segment that meets
/// anything but an object is a shape mismatch, a key that the object lacks an
/// undefined reference.
pub open spec fn descend(tree: Tree, path: Seq<Seq<char>>, from: int) -> Result<Tree, ErrorKind>
    decreases path.len() - from,
{
    if from < 0 || from >= path.len() {
        Ok(tree)
    } else {
        match tree {
            Tree::Object(fields) => if fields.contains_key(path[from]) {
                descend(fields[path[from]], path, from + 1)
            } else {
                Err(ErrorKind::UndefinedReference)
            },
            _ => Err(ErrorKind::ShapeMismatch),
        }
    }
}

/// The index of the entry that counts for `key`: the last one that holds it.
#[verifier::loop_isolation(false)]
pub fn find_entry(entries: &Vec<(String, Value)>, key: &String) -> (found: Option<usize>)
    ensures
        found == match last_index_of(entries@, key@, entries@.len() as int) {
            Some(i) => Some(i as usize),
            None => None,
        },
        found matches Some(i) ==> i < entries@.len() && fields_view(entries@).contains_key(key@)
            && fields_view(entries@)[key@] == entries@[i as int].1@,
        found is None ==> !fields_view(entries@).contains_key(key@),
{
    proof {
        lemma_fields_view(entries@, key@);
    }
    let mut n: usize = entries.len();
    while n > 0
        invariant
            n <= entries@.len(),
            last_index_of(entries@, key@, entries@.len() as int) == last_index_of(
                entries@,
                key@,
                n as int,
            ),
        decreases n,
    {
        if entries[n - 1].0 == *key {
            return Some(n - 1);
        }
        n -= 1;
    }
    None
}

impl Value {
    /// Follows `path` from its segment `from` on, down through objects.
    pub fn descend<'v>(&'v self, path: &Vec<String>, from: usize) -> (result: Result<
        &'v Value,
        ErrorKind,
    >)
        ensures
            match descend(self@, texts(path@), from as int) {
                Ok(tree) => result matches Ok(value) && value@ == tree,
                Err(e) => result == Err::<&Value, ErrorKind>(e),
            },
    {
        let mut current: &'v Value = self;
        let mut i: usize = from;
        while i < path.len()
            invariant
                descend(self@, texts(path@), from as int) == descend(
                    current@,
                    texts(path@),
                    i as int,
                ),
            decreases path.len() - i,
        {
            match current {
                Value::Object(entries) => match find_entry(entries, &path[i]) {
                    Some(at) => {
                        current = &entries[at].1;
                    },
                    None => {
                        return Err(ErrorKind::UndefinedReference);
                    },
                },
                _ => {
                    return Err(ErrorKind::ShapeMismatch);
                },
            }
            i += 1;
        }
        Ok(current)
    }

    /// A deep copy.
    pub fn duplicate(&self) -> (copy: Value)
        ensures
            copy@ == self@,
        decreases self,
    {
        match self {
            Value::Text(s) => Value::Text(s.clone()),
            Value::Array(items) => {
                let mut out: Vec<Value> = Vec::new();
                let mut i: usize = 0;
                while i < items.len()
                    invariant
                        i <= items.len(),
                        items_view(out@) == items_view(items@.take(i as int)),
                        *self == Value::Array(*items),
                    decreases items.len() - i,
                {
                    proof {
                        assert(decreases_to!(self => self->Array_0@[i as int]));
                    }
                    let c = items[i].duplicate();
                    proof {
                        lemma_items_view_push(out@, c);
                        lemma_items_view_push(items@.take(i as int), items@[i as int]);
                        assert(items@.take(i as int + 1) == items@.take(i as int).push(
                            items@[i as int],
                        ));
                    }
                    out.push(c);
                    i += 1;
                }
                proof {
                    assert(items@.take(i as int) == items@);
                }
                Value::Array(out)
            },
            Value::Object(entries) => {
                let mut out: Vec<(String, Value)> = Vec::new();
                let mut i: usize = 0;
                while i < entries.len()
                    invariant
                        i <= entries.len(),
                        fields_view(out@) == fields_view(entries@.take(i as int)),
                        *self == Value::Object(*entries),
                    decreases entries.len() - i,
                {
                    proof {
                        assert(decreases_to!(self => self->Object_0@[i as int].1));
                    }
                    let k = entries[i].0.clone();
                    let c = entries[i].1.duplicate();
                    proof {
                        lemma_fields_view_push(out@, k, c);
                        lemma_fields_view_push(
                            entries@.take(i as int),
                            entries@[i as int].0,
                            entries@[i as int].1,
                        );
                        assert(entries@.take(i as int + 1) == entries@.take(i as int).push(
                            entries@[i as int],
                        ));
                    }
                    out.push((k, c));
                    i += 1;
                }
                proof {
                    assert(entries@.take(i as int) == entries@);
                }
                Value::Object(out)
            },
        }
    }

    /// Whether two values stand for the same tree: arrays item by item in
    /// order, objects key by key whatever the order of their entries.
    #[verifier::loop_isolation(false)]
    pub fn same(&self, other: &Value) -> (equal: bool)
        ensures
            equal == (self@ == other@),
        decreases self,
    {
        match (self, other) {
            (Value::Text(a), Value::Text(b)) => *a == *b,
            (Value::Array(a), Value::Array(b)) => {
                proof {
                    lemma_items_view(a@);
                    lemma_items_view(b@);
                }
                if a.len() != b.len() {
                    return false;
                }
                let mut i: usize = 0;
                while i < a.len()
                    invariant
                        i <= a.len(),
                        a.len() == b.len(),
                        *self == Value::Array(*a),
                        forall|j: int| 0 <= j < i ==> (#[trigger] a@[j])@ == b@[j]@,
                        items_view(a@).len() == a@.len(),
                        items_view(b@).len() == b@.len(),
                        forall|j: int| 0 <= j < a@.len() ==> #[trigger] items_view(a@)[j] == a@[j]@,
                        forall|j: int| 0 <= j < b@.len() ==> #[trigger] items_view(b@)[j] == b@[j]@,
                    decreases a.len() - i,
                {
                    proof {
                        assert(decreases_to!(self => self->Array_0@[i as int]));
                    }
                    if !a[i].same(&b[i]) {
                        proof {
                            assert(items_view(a@)[i as int] != items_view(b@)[i as int]);
                        }
                        return false;
                    }
                    i += 1;
                }
                proof {
                    assert(items_view(a@) =~= items_view(b@));
                }
                true
            },
            (Value::Object(a), Value::Object(b)) => {
                let mut i: usize = 0;
                while i < a.len()
                    invariant
                        i <= a.len(),
                        *self == Value::Object(*a),
                        forall|j: int|
                            0 <= j < i ==> fields_view(a@).contains_key((#[trigger] a@[j]).0@)
                                && fields_view(b@).contains_key(a@[j].0@) && fields_view(
                                b@,
                            )[a@[j].0@] == fields_view(a@)[a@[j].0@],
                    decreases a.len() - i,
                {
                    let at_a = find_entry(a, &a[i].0);
                    let at_b = find_entry(b, &a[i].0);
                    proof {
                        lemma_last_index_of(a@, a@[i as int].0@, a@.len() as int);
                    }
                    match (at_a, at_b) {
                        (Some(ia), Some(ib)) => {
                            proof {
                                assert(decreases_to!(self => self->Object_0@[ia as int].1));
                            }
                            if !a[ia].1.same(&b[ib].1) {
                                return false;
                            }
                        },
                        _ => {
                            return false;
                        },
                    }
                    i += 1;
                }
                let mut k: usize = 0;
                while k < b.len()
                    invariant
                        k <= b.len(),
                        forall|j: int|
                            0 <= j < k ==> fields_view(a@).contains_key((#[trigger] b@[j]).0@),
                    decreases b.len() - k,
                {
                    if find_entry(a, &b[k].0).is_none() {
                        proof {
                            lemma_fields_view(b@, b@[k as int].0@);
                            lemma_last_index_of(b@, b@[k as int].0@, b@.len() as int);
                        }
                        return false;
                    }
                    k += 1;
                }
                proof {
                    let ma = fields_view(a@);
                    let mb = fields_view(b@);
                    assert forall|key: Seq<char>| #[trigger]
                        ma.dom().contains(key) implies mb.dom().contains(key) && ma[key]
                        == mb[key] by {
                        lemma_fields_view(a@, key);
                        lemma_last_index_of(a@, key, a@.len() as int);
                        let j = last_index_of(a@, key, a@.len() as int)->0;
                        assert(a@[j].0@ == key);
                    }
                    assert forall|key: Seq<char>| #[trigger]
                        mb.dom().contains(key) implies ma.dom().contains(key) by {
                        lemma_fields_view(b@, key);
                        lemma_last_index_of(b@, key, b@.len() as int);
                        let j = last_index_of(b@, key, b@.len() as int)->0;
                        assert(b@[j].0@ == key);
                    }
                    assert(ma.dom() =~= mb.dom());
                    assert(ma =~= mb);
                }
                true
            },
            _ => false,
        }
    }
}

impl Clone for Value {
    fn clone(&self) -> (copy: Self)
        ensures
            copy@ == self@,
    {
        self.duplicate()
    }
}

impl PartialEq for Value {
    fn eq(&self, other: &Value) -> (equal: bool) {
        self.same(other)
    }
}

impl vstd::std_specs::cmp::PartialEqSpecImpl for Value {
    open spec fn obeys_eq_spec() -> bool {
        true
    }

    open spec fn eq_spec(&self, other: &Value) -> bool {
        self@ == other@
    }
}

} // verus!
