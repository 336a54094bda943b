//! Pipes: the directives that transform a value, and the small parsing
//! toolkit that reads their parameters.

pub mod combinator;
pub mod expr;
pub mod laws;
pub mod sort;

pub use combinator::{
    parser_byte, parser_byte_ranges, parser_many, parser_map, parser_or, parser_seq, Mapped,
    Parsed, Parser, ParserState,
};
pub use expr::{Expr, Op};
pub use sort::SortPipe;

use crate::bytes::{chars_of, copy_range, find_byte, position_of, same_bytes, BLANK};
use crate::error::ErrorKind;
use crate::ron::value::{items_view, lemma_items_view, lemma_items_view_push, Tree, Value};
use sort::{sort_plan_of, sort_spec, SortPlan};
use vstd::prelude::*;
use vstd::utf8::encode_utf8;

verus! {

/// What a pipe does, as a mathematical value.
pub enum Plan {
    Reverse,
    Sort(SortPlan),
}

/// What the reverse pipe makes of a tree: the characters of a text in
/// reverse order, or the items of an array in reverse order, each item as it
/// was. An object cannot be reversed.
pub open spec fn reverse_spec(tree: Tree) -> Result<Tree, ErrorKind> {
    match tree {
        Tree::Text(text) => Ok(Tree::Text(text.reverse())),
        Tree::Array(items) => Ok(Tree::Array(items.reverse())),
        Tree::Object(_) => Err(ErrorKind::Pipe),
    }
}

/// Reversing keeps what it reverses: the array that comes out holds the
/// items that went in, each as it was, the last first, and reversing it
/// again gives back what went in. The same holds of the characters of a
/// text.
pub proof fn lemma_reverse_keeps_items(tree: Tree)
    requires
        !(tree is Object),
    ensures
        reverse_spec(tree) matches Ok(once) && reverse_spec(once) == Ok::<Tree, ErrorKind>(tree),
        tree matches Tree::Array(items) ==> reverse_spec(tree) matches Ok(Tree::Array(turned))
            && turned.len() == items.len() && forall|i: int|
            0 <= i < items.len() ==> #[trigger] turned[i] == items[items.len() - 1 - i],
        tree matches Tree::Text(text) ==> reverse_spec(tree) matches Ok(Tree::Text(turned))
            && turned.len() == text.len() && forall|i: int|
            0 <= i < text.len() ==> #[trigger] turned[i] == text[text.len() - 1 - i],
{
    match tree {
        Tree::Text(text) => {
            assert(text.reverse().reverse() =~= text);
        },
        Tree::Array(items) => {
            assert(items.reverse().reverse() =~= items);
        },
        Tree::Object(_) => {},
    }
}

/// What a pipe makes of a tree.
pub open spec fn apply_plan(plan: Plan, tree: Tree) -> Result<Tree, ErrorKind> {
    match plan {
        Plan::Reverse => reverse_spec(tree),
        Plan::Sort(sort) => sort_spec(sort, tree),
    }
}

/// The bytes of `$reverse`.
pub open spec fn reverse_name() -> Seq<u8> {
    seq![36u8, 114u8, 101u8, 118u8, 101u8, 114u8, 115u8, 101u8]
}

/// The bytes of `$sort`.
pub open spec fn sort_name() -> Seq<u8> {
    seq![36u8, 115u8, 111u8, 114u8, 116u8]
}

/// The name of a directive: what stands before its first blank.
pub open spec fn name_of(directive: Seq<u8>) -> Seq<u8> {
    directive.subrange(0, position_of(directive, BLANK, 0))
}

/// The parameters of a directive: what stands behind its first blank.
pub open spec fn params_of(directive: Seq<u8>) -> Seq<u8> {
    let blank = position_of(directive, BLANK, 0);
    if blank < directive.len() {
        directive.subrange(blank + 1, directive.len() as int)
    } else {
        Seq::empty()
    }
}

/// The pipe that a directive stands for. `$reverse` takes no parameters and
/// passes over any that are given; a name that no pipe has is a pipe error.
pub open spec fn plan_of(directive: Seq<u8>) -> Result<Plan, ErrorKind> {
    if name_of(directive) == reverse_name() {
        Ok(Plan::Reverse)
    } else if name_of(directive) == sort_name() {
        match sort_plan_of(params_of(directive)) {
            Ok(sort) => Ok(Plan::Sort(sort)),
            Err(e) => Err(e),
        }
    } else {
        Err(ErrorKind::Pipe)
    }
}

/// A transformer of values that is built from the parameters of a directive.
pub trait Pipe: Sized {
    /// What the pipe does.
    spec fn plan(&self) -> Plan;

    /// The pipe that the parameters stand for.
    spec fn plan_for(params: Seq<u8>) -> Result<Plan, ErrorKind>;

    /// Builds the pipe from the parameters of its directive.
    fn from_string(params: String) -> (result: Result<Self, ErrorKind>)
        ensures
            match Self::plan_for(encode_utf8(params@)) {
                Ok(plan) => result matches Ok(pipe) && pipe.plan() == plan,
                Err(e) => result matches Err(x) && x == e,
            },
    ;

    /// Applies the pipe to a value.
    fn apply(&self, value: &Value) -> (result: Result<Value, ErrorKind>)
        ensures
            match apply_plan(self.plan(), value@) {
                Ok(tree) => result matches Ok(out) && out@ == tree,
                Err(e) => result matches Err(x) && x == e,
            },
    ;
}

/// The pipe that reverses a text or an array.
#[derive(Debug)]
pub struct ReversePipe;

impl Pipe for ReversePipe {
    open spec fn plan(&self) -> Plan {
        Plan::Reverse
    }

    open spec fn plan_for(params: Seq<u8>) -> Result<Plan, ErrorKind> {
        Ok(Plan::Reverse)
    }

    fn from_string(_params: String) -> (result: Result<Self, ErrorKind>) {
        Ok(ReversePipe {  })
    }

    fn apply(&self, value: &Value) -> (result: Result<Value, ErrorKind>) {
        match value {
            Value::Text(text) => {
                let chars = chars_of(text.as_str());
                let mut out = String::new();
                let mut i: usize = chars.len();
                while i > 0
                    invariant
                        i <= chars@.len(),
                        out@ == chars@.reverse().take(chars@.len() - i),
                    decreases i,
                {
                    i -= 1;
                    out.push(chars[i]);
                    proof {
                        assert(chars@.reverse().take(chars@.len() - i) == chars@.reverse().take(
                            chars@.len() - i - 1,
                        ).push(chars@[i as int]));
                    }
                }
                proof {
                    assert(chars@.reverse().take(chars@.len() as int) == chars@.reverse());
                }
                Ok(Value::Text(out))
            },
            Value::Array(array) => {
                let mut out: Vec<Value> = Vec::new();
                let mut i: usize = array.len();
                proof {
                    lemma_items_view(array@);
                    assert(items_view(out@) =~= items_view(array@).reverse().take(0));
                }
                while i > 0
                    invariant
                        i <= array@.len(),
                        items_view(array@).len() == array@.len(),
                        forall|j: int|
                            0 <= j < array@.len() ==> #[trigger] items_view(array@)[j]
                                == array@[j]@,
                        items_view(out@) == items_view(array@).reverse().take(array@.len() - i),
                    decreases i,
                {
                    i -= 1;
                    let item = array[i].duplicate();
                    proof {
                        lemma_items_view_push(out@, item);
                        assert(items_view(array@).reverse().take(array@.len() - i) == items_view(
                            array@,
                        ).reverse().take(array@.len() - i - 1).push(item@));
                    }
                    out.push(item);
                }
                proof {
                    assert(items_view(array@).reverse().take(array@.len() as int) == items_view(
                        array@,
                    ).reverse());
                }
                Ok(Value::Array(out))
            },
            Value::Object(_) => Err(ErrorKind::Pipe),
        }
    }
}

impl Pipe for SortPipe {
    open spec fn plan(&self) -> Plan {
        Plan::Sort(self@)
    }

    open spec fn plan_for(params: Seq<u8>) -> Result<Plan, ErrorKind> {
        match sort_plan_of(params) {
            Ok(sort) => Ok(Plan::Sort(sort)),
            Err(e) => Err(e),
        }
    }

    fn from_string(params: String) -> (result: Result<Self, ErrorKind>) {
        SortPipe::from_bytes(params.as_str().as_bytes())
    }

    fn apply(&self, value: &Value) -> (result: Result<Value, ErrorKind>) {
        self.sort(value)
    }
}

/// One of the pipes that this library has.
#[derive(Debug)]
pub enum AnyPipe {
    Reverse(ReversePipe),
    Sort(SortPipe),
}

impl AnyPipe {
    /// What the pipe does.
    pub open spec fn plan(&self) -> Plan {
        match self {
            AnyPipe::Reverse(pipe) => pipe.plan(),
            AnyPipe::Sort(pipe) => pipe.plan(),
        }
    }

    /// Applies the pipe to a value.
    pub fn apply(&self, value: &Value) -> (result: Result<Value, ErrorKind>)
        ensures
            match apply_plan(self.plan(), value@) {
                Ok(tree) => result matches Ok(out) && out@ == tree,
                Err(e) => result matches Err(x) && x == e,
            },
    {
        match self {
            AnyPipe::Reverse(pipe) => pipe.apply(value),
            AnyPipe::Sort(pipe) => pipe.apply(value),
        }
    }
}

/// Compiles a directive given as bytes: a name and, behind the first blank,
/// parameters.
pub fn compile(directive: &[u8]) -> (result: Result<AnyPipe, ErrorKind>)
    ensures
        match plan_of(directive@) {
            Ok(plan) => result matches Ok(pipe) && pipe.plan() == plan,
            Err(e) => result matches Err(x) && x == e,
        },
{
    let blank = find_byte(directive, BLANK, 0);
    let name = copy_range(directive, 0, blank);
    let reverse: Vec<u8> = vec![36, 114, 101, 118, 101, 114, 115, 101];
    let sort: Vec<u8> = vec![36, 115, 111, 114, 116];
    proof {
        assert(reverse@ =~= reverse_name());
        assert(sort@ =~= sort_name());
    }
    if same_bytes(name.as_slice(), reverse.as_slice()) {
        Ok(AnyPipe::Reverse(ReversePipe {  }))
    } else if same_bytes(name.as_slice(), sort.as_slice()) {
        let params = if blank < directive.len() {
            copy_range(directive, blank + 1, directive.len())
        } else {
            Vec::new()
        };
        match SortPipe::from_bytes(params.as_slice()) {
            Ok(pipe) => Ok(AnyPipe::Sort(pipe)),
            Err(e) => Err(e),
        }
    } else {
        Err(ErrorKind::Pipe)
    }
}

/// Compiles a directive.
pub fn parse(value: &str) -> (result: Result<AnyPipe, ErrorKind>)
    ensures
        match plan_of(encode_utf8(value@)) {
            Ok(plan) => result matches Ok(pipe) && pipe.plan() == plan,
            Err(e) => result matches Err(x) && x == e,
        },
{
    compile(value.as_bytes())
}

} // verus!
