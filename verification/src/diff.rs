//! The directed difference of a candidate against a baseline: what in the
//! candidate departs from the baseline.

use crate::mapping::{is_listing, Mapping};
use crate::slots::{hands_back, into_value, slot_tree};
use crate::tree::{
    entry_or_null, lemma_element_is_smaller, lemma_entry_is_smaller, some_mapping, Tree,
};
use crate::value::{deep_equal, lemma_tree_of_array, trees_of, Value};
use std::borrow::Cow;
use vstd::prelude::*;

verus! {

/// The difference under `key` of a candidate mapping: that of the value it
/// holds there against what the baseline holds there, with `Null` for a key
/// that the baseline lacks. A key that the candidate lacks has none.
pub open spec fn entry_diff(candidate: Tree, baseline: Tree, key: Seq<char>) -> Option<Tree>
    decreases candidate, 0nat,
{
    match (candidate, baseline) {
        (Tree::Mapping(c), Tree::Mapping(b)) => {
            if c.contains_key(key) {
                proof {
                    assert(decreases_to!(candidate => candidate->Mapping_0[key]));
                }
                diff_spec(c[key], entry_or_null(b, key))
            } else {
                None
            }
        },
        _ => None,
    }
}

/// The difference at position `i` of a candidate array against a baseline
/// array that has that position too.
pub open spec fn element_diff(candidate: Tree, baseline: Tree, i: int) -> Option<Tree>
    decreases candidate, 0nat,
{
    match (candidate, baseline) {
        (Tree::Array(c), Tree::Array(b)) => {
            if 0 <= i < c.len() && i < b.len() {
                proof {
                    assert(decreases_to!(candidate => candidate->Array_0[i]));
                }
                diff_spec(c[i], b[i])
            } else {
                None
            }
        },
        _ => None,
    }
}

/// What stands at a position of an array difference: the difference there,
/// or `Null` where there is none.
pub open spec fn or_placeholder(d: Option<Tree>) -> Tree {
    match d {
        Some(t) => t,
        None => Tree::Null,
    }
}

/// The candidate is handed back as it is wherever it differs: the two are
/// not both mappings, nor arrays of one length.
pub open spec fn replaces(candidate: Tree, baseline: Tree) -> bool {
    match (candidate, baseline) {
        (Tree::Mapping(_), Tree::Mapping(_)) => false,
        (Tree::Array(c), Tree::Array(b)) => c.len() != b.len(),
        _ => true,
    }
}

/// The entries of the difference of two mappings: for each key of the
/// candidate whose value has a difference, that difference.
pub open spec fn changed_entries(candidate: Tree, baseline: Tree) -> Map<Seq<char>, Tree>
    decreases candidate, 1nat,
{
    Map::new(
        |key: Seq<char>| entry_diff(candidate, baseline, key) is Some,
        |key: Seq<char>| entry_diff(candidate, baseline, key)->0,
    )
}

/// The difference at each position of a candidate array, against a baseline
/// array of the same length.
pub open spec fn element_diffs(candidate: Tree, baseline: Tree) -> Seq<Option<Tree>>
    decreases candidate, 1nat,
{
    match candidate {
        Tree::Array(c) => Seq::new(c.len(), |i: int| element_diff(candidate, baseline, i)),
        _ => Seq::empty(),
    }
}

/// At least one position has a difference.
pub open spec fn any_changed(diffs: Seq<Option<Tree>>) -> bool {
    exists|i: int| 0 <= i < diffs.len() && (#[trigger] diffs[i]) is Some
}

/// Each difference in its position, and `Null` in the positions without one.
pub open spec fn with_placeholders(diffs: Seq<Option<Tree>>) -> Seq<Tree> {
    Seq::new(diffs.len(), |i: int| or_placeholder(diffs[i]))
}

/// The difference of `candidate` against `baseline`.
///
/// Equal trees have none. Of two mappings it holds, for each key of the
/// candidate whose value has a difference, that difference, and is absent
/// when no key has one; keys that only the baseline holds are left out. Of
/// two arrays of one length it holds at each position the difference there,
/// or `Null` where there is none. In every other case it is the candidate
/// itself.
pub open spec fn diff_spec(candidate: Tree, baseline: Tree) -> Option<Tree>
    decreases candidate, 2nat,
{
    if candidate == baseline {
        None
    } else {
        match (candidate, baseline) {
            (Tree::Mapping(_), Tree::Mapping(_)) => some_mapping(
                changed_entries(candidate, baseline),
            ),
            (Tree::Array(c), Tree::Array(b)) => {
                if c.len() != b.len() {
                    Some(candidate)
                } else if any_changed(element_diffs(candidate, baseline)) {
                    Some(Tree::Array(with_placeholders(element_diffs(candidate, baseline))))
                } else {
                    None
                }
            },
            _ => Some(candidate),
        }
    }
}

/// The difference of `candidate` against `baseline`: `None` where the two are
/// structurally equal or nothing in the candidate departs from the baseline,
/// and otherwise what departs.
///
/// Where the candidate is handed back as it is, the result is a reference to
/// it; a difference of mappings or of arrays of one length is a value of its
/// own.
pub fn compute_diff<'a>(candidate: &'a Value, baseline: &'a Value) -> (out: Option<
    Cow<'a, Value>,
>)
    ensures
        slot_tree(out) == diff_spec(candidate@, baseline@),
        hands_back(out, candidate, replaces(candidate@, baseline@)),
    decreases candidate@,
{
    if deep_equal(candidate, baseline) {
        return None;
    }
    match (candidate, baseline) {
        (Value::Mapping(c), Value::Mapping(b)) => {
            let items = c.entries();
            let mut changed = Mapping::new();
            let mut i: usize = 0;
            while i < items.len()
                invariant
                    i <= items.len(),
                    is_listing(items@, c@),
                    candidate@ == Tree::Mapping(c@),
                    baseline@ == Tree::Mapping(b@),
                    forall|key: Seq<char>|
                        changed@.contains_key(key) <==> (entry_diff(
                            candidate@,
                            baseline@,
                            key,
                        ) is Some && exists|t: int| 0 <= t < i && #[trigger] items@[t].0@ == key),
                    forall|key: Seq<char>|
                        changed@.contains_key(key) ==> changed@[key] == entry_diff(
                            candidate@,
                            baseline@,
                            key,
                        )->0,
                decreases items.len() - i,
            {
                let (key, value) = items[i];
                let other: &Value = match b.get(key.as_str()) {
                    Some(v) => v,
                    None => &Value::Null,
                };
                proof {
                    lemma_entry_is_smaller(candidate@, key@);
                    assert(other@ == entry_or_null(b@, key@));
                }
                match compute_diff(value, other) {
                    Some(d) => {
                        changed.insert(key.clone(), into_value(d));
                    },
                    None => {},
                }
                i += 1;
            }
            proof {
                let wanted = changed_entries(candidate@, baseline@);
                assert forall|key: Seq<char>| wanted.contains_key(key) implies changed@.contains_key(
                    key,
                ) by {
                    assert(c@.contains_key(key));
                    let t = choose|t: int| 0 <= t < items@.len() && #[trigger] items@[t].0@ == key;
                    assert(items@[t].0@ == key);
                }
                assert(changed@ =~= wanted);
            }
            if changed.len() == 0 {
                assert(changed@.dom() =~= Set::<Seq<char>>::empty());
                None
            } else {
                assert(changed@.dom() != Set::<Seq<char>>::empty());
                Some(Cow::Owned(Value::Mapping(changed)))
            }
        },
        (Value::Array(c), Value::Array(b)) => {
            proof {
                lemma_tree_of_array(*c);
                lemma_tree_of_array(*b);
            }
            if c.len() != b.len() {
                return Some(Cow::Borrowed(candidate));
            }
            let ghost wanted = element_diffs(candidate@, baseline@);
            let mut diffs: Vec<Value> = Vec::with_capacity(c.len());
            let mut has_diff = false;
            let mut i: usize = 0;
            while i < c.len()
                invariant
                    i <= c.len(),
                    c.len() == b.len(),
                    diffs@.len() == i,
                    candidate@ == Tree::Array(trees_of(c@)),
                    baseline@ == Tree::Array(trees_of(b@)),
                    wanted == element_diffs(candidate@, baseline@),
                    wanted.len() == c.len(),
                    forall|t: int|
                        0 <= t < i ==> (#[trigger] diffs@[t])@ == or_placeholder(wanted[t]),
                    has_diff <==> exists|t: int| 0 <= t < i && (#[trigger] wanted[t]) is Some,
                decreases c.len() - i,
            {
                proof {
                    lemma_element_is_smaller(candidate@, i as int);
                    assert(trees_of(c@)[i as int] == c@[i as int]@);
                    assert(trees_of(b@)[i as int] == b@[i as int]@);
                    assert(wanted[i as int] == element_diff(candidate@, baseline@, i as int));
                }
                match compute_diff(&c[i], &b[i]) {
                    Some(d) => {
                        diffs.push(into_value(d));
                        has_diff = true;
                        assert(wanted[i as int] is Some);
                    },
                    None => {
                        diffs.push(Value::Null);
                    },
                }
                i += 1;
            }
            if has_diff {
                proof {
                    lemma_tree_of_array(diffs);
                    assert(trees_of(diffs@) =~= with_placeholders(wanted));
                }
                Some(Cow::Owned(Value::Array(diffs)))
            } else {
                None
            }
        },
        _ => Some(Cow::Borrowed(candidate)),
    }
}

/// A value has no difference against itself.
pub proof fn lemma_diff_of_equal(x: Tree)
    ensures
        diff_spec(x, x) is None,
{
}

/// Wherever the two trees hold mappings in the same place, the candidate's
/// mapping holds every key of the baseline's, and holds no `Null` under a key
/// that the baseline's lacks.
///
/// Without this a candidate can have no difference from a baseline that it
/// does not equal: keys that only the baseline holds are never looked at,
/// and a `Null` of the candidate is taken for a key that is missing in the
/// baseline.
pub open spec fn covers(candidate: Tree, baseline: Tree) -> bool
    decreases candidate,
{
    match (candidate, baseline) {
        (Tree::Mapping(c), Tree::Mapping(b)) => {
            &&& b.dom().subset_of(c.dom())
            &&& forall|key: Seq<char>|
                c.contains_key(key) ==> {
                    proof {
                        assert(decreases_to!(candidate => candidate->Mapping_0[key]));
                    }
                    if b.contains_key(key) {
                        covers(c[key], b[key])
                    } else {
                        !(c[key] is Null)
                    }
                }
        },
        (Tree::Array(c), Tree::Array(b)) => {
            c.len() == b.len() ==> forall|i: int|
                0 <= i < c.len() ==> {
                    proof {
                        assert(decreases_to!(candidate => candidate->Array_0[i]));
                    }
                    covers(c[i], b[i])
                }
        },
        _ => true,
    }
}

/// A candidate has no difference against a baseline exactly when the two are
/// equal, for every pair but those in which a difference is hidden: the
/// candidate does not cover the baseline, and yet has no difference.
pub proof fn lemma_no_diff_iff_equal(candidate: Tree, baseline: Tree)
    requires
        covers(candidate, baseline) || diff_spec(candidate, baseline) is Some,
    ensures
        diff_spec(candidate, baseline) is None <==> candidate == baseline,
    decreases candidate,
{
    if candidate != baseline && diff_spec(candidate, baseline) is None {
        match (candidate, baseline) {
            (Tree::Mapping(c), Tree::Mapping(b)) => {
                let changed = changed_entries(candidate, baseline);
                assert(changed.dom() =~= Set::<Seq<char>>::empty());
                assert forall|key: Seq<char>| c.contains_key(key) implies b.contains_key(key)
                    && c[key] == b[key] by {
                    assert(!changed.contains_key(key));
                    assert(entry_diff(candidate, baseline, key) is None);
                    assert(decreases_to!(candidate => candidate->Mapping_0[key]));
                    if b.contains_key(key) {
                        lemma_no_diff_iff_equal(c[key], b[key]);
                    }
                }
                assert(c =~= b);
            },
            (Tree::Array(c), Tree::Array(b)) => {
                let diffs = element_diffs(candidate, baseline);
                assert forall|i: int| 0 <= i < c.len() implies c[i] == b[i] by {
                    assert(diffs[i] is None);
                    assert(diffs[i] == element_diff(candidate, baseline, i));
                    assert(decreases_to!(candidate => candidate->Array_0[i]));
                    lemma_no_diff_iff_equal(c[i], b[i]);
                }
                assert(c =~= b);
            },
            _ => {},
        }
    }
}

/// The difference of a mapping is a mapping that holds no key which the
/// candidate lacks. Against a mapping, it holds under each of its keys the
/// difference of the candidate's value there.
pub proof fn lemma_diff_keys_from_candidate(candidate: Tree, baseline: Tree)
    requires
        candidate is Mapping,
        diff_spec(candidate, baseline) is Some,
    ensures
        diff_spec(candidate, baseline)->0 is Mapping,
        diff_spec(candidate, baseline)->0->Mapping_0.dom().subset_of(candidate->Mapping_0.dom()),
        baseline is Mapping ==> forall|key: Seq<char>| #[trigger]
            diff_spec(candidate, baseline)->0->Mapping_0.contains_key(key) ==> diff_spec(
                candidate->Mapping_0[key],
                entry_or_null(baseline->Mapping_0, key),
            ) == Some(diff_spec(candidate, baseline)->0->Mapping_0[key]),
{
}

/// The difference of an array against an array of the same length has that
/// length too. A position whose elements have no difference holds `Null`,
/// and every other position holds the difference of its elements.
pub proof fn lemma_array_diff_keeps_length(candidate: Tree, baseline: Tree)
    requires
        candidate is Array,
        baseline is Array,
        candidate->Array_0.len() == baseline->Array_0.len(),
        diff_spec(candidate, baseline) is Some,
    ensures
        diff_spec(candidate, baseline)->0 is Array,
        diff_spec(candidate, baseline)->0->Array_0.len() == candidate->Array_0.len(),
        forall|i: int|
            0 <= i < candidate->Array_0.len() ==> #[trigger] diff_spec(
                candidate,
                baseline,
            )->0->Array_0[i] == or_placeholder(
                diff_spec(candidate->Array_0[i], baseline->Array_0[i]),
            ),
{
    let diffs = element_diffs(candidate, baseline);
    assert forall|i: int| 0 <= i < candidate->Array_0.len() implies diffs[i] == diff_spec(
        candidate->Array_0[i],
        baseline->Array_0[i],
    ) by {
        assert(diffs[i] == element_diff(candidate, baseline, i));
    }
}

/// The difference of an array against an array of another length is the
/// whole candidate.
pub proof fn lemma_array_diff_of_other_length(candidate: Tree, baseline: Tree)
    requires
        candidate is Array,
        baseline is Array,
        candidate->Array_0.len() != baseline->Array_0.len(),
    ensures
        diff_spec(candidate, baseline) == Some(candidate),
{
}

/// The difference of trees of different kinds, or of scalars that are not
/// equal, is the whole candidate.
pub proof fn lemma_diff_replaces(candidate: Tree, baseline: Tree)
    requires
        candidate != baseline,
        replaces(candidate, baseline),
    ensures
        diff_spec(candidate, baseline) == Some(candidate),
{
}

} // verus!
