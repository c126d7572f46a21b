//! A bound on nesting, for callers that take trees from outside: the work of
//! this library goes as deep as the trees do.

use crate::diff::{compute_diff, diff_spec, replaces};
use crate::error::DiffError;
use crate::mapping::is_listing;
use crate::quorum::Quorum;
use crate::reduce::{all_mappings, base_hands_back, diff_and_common_multiple, reduce_spec};
use crate::slots::{slots_hand_back, hands_back, slot_tree, slot_trees, trees_at};
use crate::tree::{lemma_element_is_smaller, lemma_entry_is_smaller, Tree};
use crate::value::{lemma_tree_of_array, trees_of, Value};
use std::borrow::Cow;
use vstd::prelude::*;

verus! {

/// The tree is nested no deeper than `limit`: a scalar always; an array or a
/// mapping if `limit` is above zero and what it holds is nested no deeper
/// than `limit - 1`.
pub open spec fn within_depth(t: Tree, limit: nat) -> bool
    decreases t,
{
    match t {
        Tree::Array(elements) => limit > 0 && forall|i: int|
            0 <= i < elements.len() ==> {
                proof {
                    assert(decreases_to!(t => t->Array_0[i]));
                }
                within_depth(#[trigger] elements[i], (limit - 1) as nat)
            },
        Tree::Mapping(entries) => limit > 0 && forall|key: Seq<char>|
            entries.contains_key(key) ==> {
                proof {
                    assert(decreases_to!(t => t->Mapping_0[key]));
                }
                within_depth(#[trigger] entries[key], (limit - 1) as nat)
            },
        _ => true,
    }
}

/// Every one of the trees is nested no deeper than `limit`.
pub open spec fn all_within_depth(values: Seq<Tree>, limit: nat) -> bool {
    forall|i: int| 0 <= i < values.len() ==> within_depth(#[trigger] values[i], limit)
}

impl Value {
    /// Whether this value is nested no deeper than `limit`. The check itself
    /// goes no deeper than `limit`.
    pub fn fits_depth(&self, limit: usize) -> (r: bool)
        ensures
            r == within_depth(self@, limit as nat),
        decreases self@,
    {
        match self {
            Value::Array(elements) => {
                proof {
                    lemma_tree_of_array(*elements);
                }
                if limit == 0 {
                    return false;
                }
                let mut i: usize = 0;
                while i < elements.len()
                    invariant
                        i <= elements.len(),
                        limit > 0,
                        self@ == Tree::Array(trees_of(elements@)),
                        forall|t: int|
                            0 <= t < i ==> within_depth(
                                #[trigger] trees_of(elements@)[t],
                                (limit - 1) as nat,
                            ),
                    decreases elements.len() - i,
                {
                    proof {
                        lemma_element_is_smaller(self@, i as int);
                        assert(trees_of(elements@)[i as int] == elements@[i as int]@);
                    }
                    if !elements[i].fits_depth(limit - 1) {
                        return false;
                    }
                    i += 1;
                }
                true
            },
            Value::Mapping(entries) => {
                if limit == 0 {
                    return false;
                }
                let items = entries.entries();
                let mut i: usize = 0;
                while i < items.len()
                    invariant
                        i <= items.len(),
                        limit > 0,
                        self@ == Tree::Mapping(entries@),
                        is_listing(items@, entries@),
                        forall|t: int|
                            0 <= t < i ==> within_depth(
                                entries@[#[trigger] items@[t].0@],
                                (limit - 1) as nat,
                            ),
                    decreases items.len() - i,
                {
                    let (key, value) = items[i];
                    proof {
                        lemma_entry_is_smaller(self@, key@);
                    }
                    if !value.fits_depth(limit - 1) {
                        return false;
                    }
                    i += 1;
                }
                proof {
                    assert forall|key: Seq<char>| entries@.contains_key(key) implies within_depth(
                        #[trigger] entries@[key],
                        (limit - 1) as nat,
                    ) by {
                        let t = choose|t: int|
                            0 <= t < items@.len() && #[trigger] items@[t].0@ == key;
                        assert(within_depth(entries@[items@[t].0@], (limit - 1) as nat));
                    }
                }
                true
            },
            _ => true,
        }
    }
}

/// The difference of `candidate` against `baseline`, for a candidate that is
/// nested no deeper than `max_depth`. A deeper candidate is refused before
/// any work is done on it.
pub fn compute_diff_bounded<'a>(
    candidate: &'a Value,
    baseline: &'a Value,
    max_depth: usize,
) -> (r: Result<Option<Cow<'a, Value>>, DiffError>)
    ensures
        match r {
            Ok(out) => {
                &&& within_depth(candidate@, max_depth as nat)
                &&& slot_tree(out) == diff_spec(candidate@, baseline@)
                &&& hands_back(out, candidate, replaces(candidate@, baseline@))
            },
            Err(e) => e == DiffError::ResourceExhausted && !within_depth(
                candidate@,
                max_depth as nat,
            ),
        },
{
    if candidate.fits_depth(max_depth) {
        Ok(compute_diff(candidate, baseline))
    } else {
        Err(DiffError::ResourceExhausted)
    }
}

/// The common base and the differences of the inputs, for inputs that are
/// nested no deeper than `max_depth`. If one of them is deeper, all are
/// refused before any work is done on them.
pub fn diff_and_common_multiple_bounded<'a>(
    objs: &[&'a Value],
    quorum: Quorum,
    max_depth: usize,
) -> (r: Result<(Option<Cow<'a, Value>>, Vec<Option<Cow<'a, Value>>>), DiffError>)
    ensures
        match r {
            Ok(out) => {
                &&& all_within_depth(trees_at(objs@), max_depth as nat)
                &&& (slot_tree(out.0), slot_trees(out.1@)) == reduce_spec(
                    trees_at(objs@),
                    quorum.count(objs@.len()),
                )
                &&& out.1@.len() == objs@.len()
                &&& base_hands_back(
                    out.0,
                    objs@,
                    quorum.count(objs@.len()),
                    !all_mappings(trees_at(objs@)),
                )
                &&& slots_hand_back(out.1@, objs@, !all_mappings(trees_at(objs@)))
            },
            Err(e) => e == DiffError::ResourceExhausted && !all_within_depth(
                trees_at(objs@),
                max_depth as nat,
            ),
        },
{
    let mut i: usize = 0;
    while i < objs.len()
        invariant
            i <= objs.len(),
            forall|t: int|
                0 <= t < i ==> within_depth(#[trigger] trees_at(objs@)[t], max_depth as nat),
        decreases objs.len() - i,
    {
        if !objs[i].fits_depth(max_depth) {
            assert(!within_depth(trees_at(objs@)[i as int], max_depth as nat));
            return Err(DiffError::ResourceExhausted);
        }
        i += 1;
    }
    Ok(diff_and_common_multiple(objs, quorum))
}

} // verus!
