//! Configuration values and their structural equality.

use crate::mapping::{is_listing, Mapping};
use crate::tree::{kind_of, lemma_element_is_smaller, lemma_entry_is_smaller, Kind, Tree};
use vstd::prelude::*;
use vstd::set_lib::lemma_subset_equality;
use vstd::std_specs::cmp::PartialEqSpecImpl;

verus! {

/// A configuration value.
#[derive(Debug)]
pub enum Value {
    Null,
    Bool(bool),
    Int(i64),
    /// A real number, kept as the text it was written with.
    Real(String),
    String(String),
    Array(Vec<Value>),
    Mapping(Mapping),
}

/// The tree of a value.
pub open spec fn tree_of(v: Value) -> Tree
    decreases v,
{
    match v {
        Value::Null => Tree::Null,
        Value::Bool(b) => Tree::Bool(b),
        Value::Int(i) => Tree::Int(i as int),
        Value::Real(s) => Tree::Real(s@),
        Value::String(s) => Tree::String(s@),
        Value::Array(a) => Tree::Array(
            Seq::new(
                a@.len(),
                |i: int|
                    if 0 <= i < a@.len() {
                        tree_of(a@[i])
                    } else {
                        Tree::Null
                    },
            ),
        ),
        Value::Mapping(m) => Tree::Mapping(m@),
    }
}

impl View for Value {
    type V = Tree;

    open spec fn view(&self) -> Tree {
        tree_of(*self)
    }
}

/// The trees of a sequence of values, in order.
pub open spec fn trees_of(s: Seq<Value>) -> Seq<Tree> {
    Seq::new(s.len(), |i: int| s[i]@)
}

/// The tree of an array holds the trees of its elements, in order.
pub proof fn lemma_tree_of_array(a: Vec<Value>)
    ensures
        tree_of(Value::Array(a)) == Tree::Array(trees_of(a@)),
{
    assert(tree_of(Value::Array(a))->Array_0 =~= trees_of(a@));
}

impl Value {
    /// The variant of this value.
    pub fn kind(&self) -> (k: Kind)
        ensures
            k == kind_of(self@),
    {
        match self {
            Value::Null => Kind::Null,
            Value::Bool(_) => Kind::Bool,
            Value::Int(_) => Kind::Int,
            Value::Real(_) => Kind::Real,
            Value::String(_) => Kind::String,
            Value::Array(_) => Kind::Array,
            Value::Mapping(_) => Kind::Mapping,
        }
    }

    /// Whether this value is `Null`.
    pub fn is_null(&self) -> (r: bool)
        ensures
            r == (self@ == Tree::Null),
    {
        match self {
            Value::Null => true,
            _ => false,
        }
    }
}

impl Clone for Value {
    /// A deep copy: a value with the same tree.
    fn clone(&self) -> (copy: Value)
        ensures
            copy@ == self@,
        decreases self@,
    {
        match self {
            Value::Null => Value::Null,
            Value::Bool(b) => Value::Bool(*b),
            Value::Int(i) => Value::Int(*i),
            Value::Real(s) => Value::Real(s.clone()),
            Value::String(s) => Value::String(s.clone()),
            Value::Array(a) => {
                proof {
                    lemma_tree_of_array(*a);
                }
                let mut out: Vec<Value> = Vec::with_capacity(a.len());
                let mut i: usize = 0;
                while i < a.len()
                    invariant
                        i <= a.len(),
                        out.len() == i,
                        self@ == Tree::Array(trees_of(a@)),
                        forall|j: int| 0 <= j < i ==> out@[j]@ == a@[j]@,
                    decreases a.len() - i,
                {
                    proof {
                        assert(trees_of(a@)[i as int] == a@[i as int]@);
                        lemma_element_is_smaller(self@, i as int);
                    }
                    out.push(a[i].clone());
                    i += 1;
                }
                proof {
                    lemma_tree_of_array(out);
                    assert(trees_of(out@) =~= trees_of(a@));
                }
                Value::Array(out)
            },
            Value::Mapping(m) => {
                assert(decreases_to!(self@ => self@->Mapping_0));
                Value::Mapping(m.clone())
            },
        }
    }
}

/// Structural equality: scalars by their exact value, arrays by length and
/// position, mappings by key set and the value under each key. It holds
/// exactly when the two trees are the same.
pub fn deep_equal(a: &Value, b: &Value) -> (r: bool)
    ensures
        r == (a@ == b@),
    decreases a@,
{
    match (a, b) {
        (Value::Null, Value::Null) => true,
        (Value::Bool(x), Value::Bool(y)) => *x == *y,
        (Value::Int(x), Value::Int(y)) => *x == *y,
        (Value::Real(x), Value::Real(y)) => *x == *y,
        (Value::String(x), Value::String(y)) => *x == *y,
        (Value::Array(x), Value::Array(y)) => {
            proof {
                lemma_tree_of_array(*x);
                lemma_tree_of_array(*y);
            }
            if x.len() != y.len() {
                assert(trees_of(x@).len() != trees_of(y@).len());
                return false;
            }
            let mut i: usize = 0;
            while i < x.len()
                invariant
                    i <= x.len(),
                    x.len() == y.len(),
                    a@ == Tree::Array(trees_of(x@)),
                    b@ == Tree::Array(trees_of(y@)),
                    forall|j: int| 0 <= j < i ==> x@[j]@ == y@[j]@,
                decreases x.len() - i,
            {
                proof {
                    assert(trees_of(x@)[i as int] == x@[i as int]@);
                    assert(trees_of(y@)[i as int] == y@[i as int]@);
                    lemma_element_is_smaller(a@, i as int);
                }
                if !deep_equal(&x[i], &y[i]) {
                    return false;
                }
                i += 1;
            }
            assert(trees_of(x@) =~= trees_of(y@));
            true
        },
        (Value::Mapping(x), Value::Mapping(y)) => {
            if x.len() != y.len() {
                return false;
            }
            let items = x.entries();
            let mut i: usize = 0;
            while i < items.len()
                invariant
                    i <= items.len(),
                    is_listing(items@, x@),
                    a@ == Tree::Mapping(x@),
                    b@ == Tree::Mapping(y@),
                    forall|j: int|
                        0 <= j < i ==> y@.contains_key(#[trigger] items@[j].0@) && y@[items@[j].0@]
                            == x@[items@[j].0@],
                decreases items.len() - i,
            {
                let (key, value) = items[i];
                match y.get(key.as_str()) {
                    None => {
                        return false;
                    },
                    Some(other) => {
                        proof {
                            lemma_entry_is_smaller(a@, key@);
                        }
                        if !deep_equal(value, other) {
                            return false;
                        }
                    },
                }
                i += 1;
            }
            proof {
                assert(x@.dom().subset_of(y@.dom()));
                lemma_subset_equality(x@.dom(), y@.dom());
                assert(x@ =~= y@);
            }
            true
        },
        _ => false,
    }
}

impl PartialEq for Value {
    /// `==` on values is structural equality.
    fn eq(&self, other: &Value) -> (r: bool) {
        deep_equal(self, other)
    }
}

impl PartialEqSpecImpl for Value {
    open spec fn obeys_eq_spec() -> bool {
        true
    }

    open spec fn eq_spec(&self, other: &Value) -> bool {
        self@ == other@
    }
}

} // verus!
