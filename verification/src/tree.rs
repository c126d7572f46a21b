//! The mathematical model of a configuration value.

use vstd::prelude::*;

verus! {

/// What a configuration value is, apart from how it is stored: a scalar, a
/// sequence of trees, or a map from keys to trees. Two values are
/// structurally equal exactly when their trees are the same.
pub enum Tree {
    Null,
    Bool(bool),
    Int(int),
    /// A real number, kept as the text it was written with.
    Real(Seq<char>),
    String(Seq<char>),
    Array(Seq<Tree>),
    Mapping(Map<Seq<char>, Tree>),
}

/// The variant of a value, without its contents.
#[derive(Clone, Copy, Debug, PartialEq, Eq, Structural)]
pub enum Kind {
    Null,
    Bool,
    Int,
    Real,
    String,
    Array,
    Mapping,
}

/// The variant of a tree.
pub open spec fn kind_of(t: Tree) -> Kind {
    match t {
        Tree::Null => Kind::Null,
        Tree::Bool(_) => Kind::Bool,
        Tree::Int(_) => Kind::Int,
        Tree::Real(_) => Kind::Real,
        Tree::String(_) => Kind::String,
        Tree::Array(_) => Kind::Array,
        Tree::Mapping(_) => Kind::Mapping,
    }
}

/// A scalar is anything but an array or a mapping; `Null` is a scalar.
pub open spec fn is_scalar(k: Kind) -> bool {
    k != Kind::Array && k != Kind::Mapping
}

/// What a mapping holds under a key, with `Null` standing for a missing key.
pub open spec fn entry_or_null(m: Map<Seq<char>, Tree>, key: Seq<char>) -> Tree {
    if m.contains_key(key) {
        m[key]
    } else {
        Tree::Null
    }
}

/// A mapping with these entries, or nothing where there are none.
pub open spec fn some_mapping(entries: Map<Seq<char>, Tree>) -> Option<Tree> {
    if entries.dom() == Set::<Seq<char>>::empty() {
        None
    } else {
        Some(Tree::Mapping(entries))
    }
}

/// An element of an array is a smaller tree than the array.
pub proof fn lemma_element_is_smaller(t: Tree, i: int)
    requires
        t is Array,
        0 <= i < t->Array_0.len(),
    ensures
        decreases_to!(t => t->Array_0[i]),
{
}

/// A value held in a mapping is a smaller tree than the mapping.
pub proof fn lemma_entry_is_smaller(t: Tree, key: Seq<char>)
    requires
        t is Mapping,
        t->Mapping_0.contains_key(key),
    ensures
        decreases_to!(t => t->Mapping_0[key]),
{
}

} // verus!
