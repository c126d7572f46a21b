//! A common base for several trees, and what each of them adds to it.
//!
//! Given the trees and the number of them that must agree, every position is
//! split into a base, the value on which enough inputs agree, and one
//! difference per input. Mappings are split key by key; scalars are put to
//! the vote; arrays, and inputs of different kinds, are never merged.

use crate::mapping::{is_listing, Mapping};
use crate::tree::{
    entry_or_null, is_scalar, kind_of, lemma_entry_is_smaller, some_mapping, Kind, Tree,
};
use crate::quorum::Quorum;
use crate::slots::{
    slots_hand_back, hands_back, holds, holds_null, into_value, slot_tree, slot_trees, trees_at,
};
use crate::value::{deep_equal, Value};
use std::borrow::Cow;
use vstd::prelude::*;

verus! {

/// A base, if there is one, and one slot per input, in the order of the
/// inputs. An empty slot says that the input adds nothing to the base.
pub type Reduction = (Option<Tree>, Seq<Option<Tree>>);

/// How many of `values` are equal to `v`.
pub open spec fn occurrences(values: Seq<Tree>, v: Tree) -> nat
    decreases values.len(),
{
    if values.len() == 0 {
        0
    } else {
        occurrences(values.drop_last(), v) + if values.last() == v {
            1nat
        } else {
            0nat
        }
    }
}

/// All of `values` are of one kind.
pub open spec fn uniform(values: Seq<Tree>) -> bool {
    forall|i: int| 0 <= i < values.len() ==> kind_of(#[trigger] values[i]) == kind_of(values[0])
}

/// There is at least one value, and all of them are mappings.
pub open spec fn all_mappings(values: Seq<Tree>) -> bool {
    values.len() > 0 && forall|i: int| 0 <= i < values.len() ==> #[trigger] values[i] is Mapping
}

/// Every input in its own slot, unchanged; a `Null` input leaves its slot
/// empty.
pub open spec fn verbatim(values: Seq<Tree>) -> Seq<Option<Tree>> {
    Seq::new(
        values.len(),
        |i: int|
            if values[i] is Null {
                None
            } else {
                Some(values[i])
            },
    )
}

/// The value at `i` occurs at least `count` times among `values`.
pub open spec fn meets_quorum(values: Seq<Tree>, count: nat, i: int) -> bool {
    0 <= i < values.len() && occurrences(values, values[i]) >= count
}

/// The value at `i` meets the quorum, and no value before it does.
pub open spec fn is_winner(values: Seq<Tree>, count: nat, i: int) -> bool {
    meets_quorum(values, count, i) && forall|j: int| 0 <= j < i ==> !meets_quorum(values, count, j)
}

/// Every input that differs from `base` in its own slot; the slots of the
/// others are empty.
pub open spec fn against_base(values: Seq<Tree>, base: Tree) -> Seq<Option<Tree>> {
    Seq::new(
        values.len(),
        |i: int|
            if values[i] == base {
                None
            } else {
                Some(values[i])
            },
    )
}

/// The vote among scalars: the base is the first value in input order that
/// occurs at least `count` times. Without such a value there is no base, and
/// the inputs are handed back verbatim.
pub open spec fn reduce_scalars(values: Seq<Tree>, count: nat) -> Reduction {
    if exists|i: int| is_winner(values, count, i) {
        let w = choose|i: int| is_winner(values, count, i);
        (Some(values[w]), against_base(values, values[w]))
    } else {
        (None, verbatim(values))
    }
}

/// The reduction of inputs that are not all mappings: a vote if they are
/// scalars of one kind, and otherwise no base and the inputs verbatim.
pub open spec fn reduce_flat(values: Seq<Tree>, count: nat) -> Reduction {
    if values.len() == 0 {
        (None, Seq::empty())
    } else if uniform(values) && is_scalar(kind_of(values[0])) {
        reduce_scalars(values, count)
    } else {
        (None, verbatim(values))
    }
}

/// The keys that at least one of the mappings among `values` holds.
pub open spec fn key_union(values: Seq<Tree>) -> Set<Seq<char>> {
    Set::new(
        |key: Seq<char>|
            exists|i: int|
                0 <= i < values.len() && #[trigger] values[i] is Mapping
                    && values[i]->Mapping_0.contains_key(key),
    )
}

/// What each input holds under `key`, with `Null` for an input that lacks the
/// key.
pub open spec fn column(values: Seq<Tree>, key: Seq<char>) -> Seq<Tree> {
    Seq::new(
        values.len(),
        |i: int|
            match values[i] {
                Tree::Mapping(m) => entry_or_null(m, key),
                _ => Tree::Null,
            },
    )
}

/// A sub-difference is kept under its key if it is there and is not `Null`.
pub open spec fn is_kept(slot: Option<Tree>) -> bool {
    slot is Some && !(slot->0 is Null)
}

/// The entries of the base: for each of `keys` whose column has a base, that
/// base.
pub open spec fn base_entries(values: Seq<Tree>, count: nat, keys: Set<Seq<char>>) -> Map<
    Seq<char>,
    Tree,
>
    decreases values[0], 1nat,
{
    Map::new(
        |key: Seq<char>| keys.contains(key) && reduce_column(values, count, key).0 is Some,
        |key: Seq<char>| reduce_column(values, count, key).0->0,
    )
}

/// The entries of the difference of input `i`: for each of `keys` whose
/// column leaves something but `Null` in the slot of that input, what it
/// leaves.
pub open spec fn diff_entries(
    values: Seq<Tree>,
    count: nat,
    keys: Set<Seq<char>>,
    i: int,
) -> Map<Seq<char>, Tree>
    decreases values[0], 1nat,
{
    Map::new(
        |key: Seq<char>| keys.contains(key) && is_kept(reduce_column(values, count, key).1[i]),
        |key: Seq<char>| reduce_column(values, count, key).1[i]->0,
    )
}

/// The reduction of `values` with `count` as the number of inputs that must
/// agree.
///
/// Mappings are reduced key by key, over the union of their keys: the column
/// of a key is reduced in turn, its base goes into the base under that key,
/// and what it leaves in the slot of an input goes into that input's
/// difference under that key. A base or a difference without entries is
/// absent. All other inputs follow [`reduce_flat`].
pub open spec fn reduce_spec(values: Seq<Tree>, count: nat) -> Reduction
    decreases values[0], 2nat,
{
    if all_mappings(values) {
        (
            some_mapping(base_entries(values, count, key_union(values))),
            Seq::new(
                values.len(),
                |i: int| some_mapping(diff_entries(values, count, key_union(values), i)),
            ),
        )
    } else {
        reduce_flat(values, count)
    }
}

/// The reduction of the column of `key`. A column of mappings is reduced as
/// mappings are; any other column is flat.
pub open spec fn reduce_column(values: Seq<Tree>, count: nat, key: Seq<char>) -> Reduction
    decreases values[0], 0nat,
{
    let col = column(values, key);
    if all_mappings(col) {
        proof {
            assert(col[0] is Mapping);
            assert(col[0] == values[0]->Mapping_0[key]);
            assert(decreases_to!(values[0] => values[0]->Mapping_0[key]));
        }
        reduce_spec(col, count)
    } else {
        reduce_flat(col, count)
    }
}

/// The reduction of a column is the reduction of those values, by the same
/// rules as at the top.
pub proof fn lemma_reduce_column(values: Seq<Tree>, count: nat, key: Seq<char>)
    ensures
        reduce_column(values, count, key) == reduce_spec(column(values, key), count),
{
}

/// A base that is there is, if `borrowed`, a reference to the first input
/// that meets the quorum, and a value of its own otherwise.
pub open spec fn base_hands_back<'a>(
    base: Option<Cow<'a, Value>>,
    sources: Seq<&'a Value>,
    count: nat,
    borrowed: bool,
) -> bool {
    match base {
        Some(Cow::Borrowed(r)) => borrowed && exists|w: int|
            is_winner(trees_at(sources), count, w) && r == #[trigger] sources[w],
        Some(Cow::Owned(_)) => !borrowed,
        None => true,
    }
}

/// Whether all inputs are of one kind.
fn same_kinds(objs: &[&Value]) -> (r: bool)
    ensures
        r == uniform(trees_at(objs@)),
{
    let mut i: usize = 1;
    while i < objs.len()
        invariant
            1 <= i,
            forall|j: int|
                0 <= j < i && j < objs@.len() ==> kind_of(#[trigger] trees_at(objs@)[j]) == kind_of(
                    trees_at(objs@)[0],
                ),
        decreases objs.len() - i,
    {
        if objs[i].kind() != objs[0].kind() {
            assert(kind_of(trees_at(objs@)[i as int]) != kind_of(trees_at(objs@)[0]));
            return false;
        }
        i += 1;
    }
    true
}

/// Whether there are inputs and all of them are mappings.
fn only_mappings(objs: &[&Value]) -> (r: bool)
    ensures
        r == all_mappings(trees_at(objs@)),
{
    if objs.len() == 0 {
        return false;
    }
    let mut i: usize = 0;
    while i < objs.len()
        invariant
            i <= objs.len(),
            forall|j: int| 0 <= j < i ==> #[trigger] trees_at(objs@)[j] is Mapping,
        decreases objs.len() - i,
    {
        if objs[i].kind() != Kind::Mapping {
            assert(!(trees_at(objs@)[i as int] is Mapping));
            return false;
        }
        i += 1;
    }
    true
}

/// Every input that is not `Null`, by reference, in its own slot.
fn verbatim_slots<'a>(objs: &[&'a Value]) -> (slots: Vec<Option<Cow<'a, Value>>>)
    ensures
        slot_trees(slots@) == verbatim(trees_at(objs@)),
        slots@.len() == objs@.len(),
        slots_hand_back(slots@, objs@, true),
{
    let mut slots: Vec<Option<Cow<'a, Value>>> = Vec::new();
    let mut i: usize = 0;
    while i < objs.len()
        invariant
            i <= objs.len(),
            slots@.len() == i,
            forall|j: int|
                0 <= j < i ==> slot_tree(#[trigger] slots@[j]) == verbatim(trees_at(objs@))[j],
            forall|j: int| 0 <= j < i ==> hands_back(#[trigger] slots@[j], objs@[j], true),
        decreases objs.len() - i,
    {
        let obj: &'a Value = objs[i];
        if obj.is_null() {
            slots.push(None);
        } else {
            slots.push(Some(Cow::Borrowed(obj)));
        }
        i += 1;
    }
    assert(slot_trees(slots@) =~= verbatim(trees_at(objs@)));
    slots
}

/// How many of the inputs are structurally equal to `v`.
fn count_equal(objs: &[&Value], v: &Value) -> (n: usize)
    ensures
        n == occurrences(trees_at(objs@), v@),
{
    let ghost trees = trees_at(objs@);
    let mut n: usize = 0;
    let mut i: usize = 0;
    while i < objs.len()
        invariant
            i <= objs.len(),
            trees == trees_at(objs@),
            n <= i,
            n == occurrences(trees.take(i as int), v@),
        decreases objs.len() - i,
    {
        proof {
            assert(trees.take(i + 1).drop_last() =~= trees.take(i as int));
            assert(trees.take(i + 1).last() == objs@[i as int]@);
        }
        if deep_equal(objs[i], v) {
            n += 1;
        }
        i += 1;
    }
    assert(trees.take(objs@.len() as int) =~= trees);
    n
}

/// The first input, in input order, that occurs at least `count` times.
fn first_winner(objs: &[&Value], count: usize) -> (w: Option<usize>)
    ensures
        match w {
            Some(i) => is_winner(trees_at(objs@), count as nat, i as int),
            None => forall|i: int| !meets_quorum(trees_at(objs@), count as nat, i),
        },
{
    let mut i: usize = 0;
    while i < objs.len()
        invariant
            i <= objs.len(),
            forall|j: int| 0 <= j < i ==> !meets_quorum(trees_at(objs@), count as nat, j),
        decreases objs.len() - i,
    {
        if count_equal(objs, objs[i]) >= count {
            return Some(i);
        }
        i += 1;
    }
    None
}

/// The vote among scalars. The base and the differences are references to
/// inputs.
fn vote<'a>(objs: &[&'a Value], count: usize) -> (out: (
    Option<Cow<'a, Value>>,
    Vec<Option<Cow<'a, Value>>>,
))
    ensures
        (slot_tree(out.0), slot_trees(out.1@)) == reduce_scalars(trees_at(objs@), count as nat),
        out.1@.len() == objs@.len(),
        base_hands_back(out.0, objs@, count as nat, true),
        slots_hand_back(out.1@, objs@, true),
{
    let ghost trees = trees_at(objs@);
    match first_winner(objs, count) {
        Some(w) => {
            let base: &'a Value = objs[w];
            proof {
                let chosen = choose|i: int| is_winner(trees, count as nat, i);
                assert(is_winner(trees, count as nat, w as int));
                assert(is_winner(trees, count as nat, chosen));
                assert(chosen == w);
            }
            let mut slots: Vec<Option<Cow<'a, Value>>> = Vec::new();
            let mut i: usize = 0;
            while i < objs.len()
                invariant
                    i <= objs.len(),
                    slots@.len() == i,
                    trees == trees_at(objs@),
                    forall|j: int|
                        0 <= j < i ==> slot_tree(#[trigger] slots@[j]) == against_base(
                            trees,
                            base@,
                        )[j],
                    forall|j: int| 0 <= j < i ==> hands_back(#[trigger] slots@[j], objs@[j], true),
                decreases objs.len() - i,
            {
                let obj: &'a Value = objs[i];
                if deep_equal(obj, base) {
                    slots.push(None);
                } else {
                    slots.push(Some(Cow::Borrowed(obj)));
                }
                i += 1;
            }
            assert(slot_trees(slots@) =~= against_base(trees, base@));
            (Some(Cow::Borrowed(base)), slots)
        },
        None => (None, verbatim_slots(objs)),
    }
}

/// The reduction of inputs that are not all mappings. Whatever it hands back
/// is a reference to an input.
fn reduce_flat_values<'a>(objs: &[&'a Value], count: usize) -> (out: (
    Option<Cow<'a, Value>>,
    Vec<Option<Cow<'a, Value>>>,
))
    ensures
        (slot_tree(out.0), slot_trees(out.1@)) == reduce_flat(trees_at(objs@), count as nat),
        out.1@.len() == objs@.len(),
        base_hands_back(out.0, objs@, count as nat, true),
        slots_hand_back(out.1@, objs@, true),
{
    if objs.len() == 0 {
        let slots: Vec<Option<Cow<'a, Value>>> = Vec::new();
        assert(slot_trees(slots@) =~= Seq::<Option<Tree>>::empty());
        return (None, slots);
    }
    if !same_kinds(objs) {
        return (None, verbatim_slots(objs));
    }
    let kind = objs[0].kind();
    if kind != Kind::Array && kind != Kind::Mapping {
        vote(objs, count)
    } else {
        (None, verbatim_slots(objs))
    }
}

/// The keys among `keys`.
spec fn listed(keys: Seq<String>) -> Set<Seq<char>> {
    Set::new(|key: Seq<char>| exists|t: int| 0 <= t < keys.len() && #[trigger] keys[t]@ == key)
}

/// The keys of the first `upto` of `items`.
spec fn item_keys(items: Seq<(&String, &Value)>, upto: int) -> Set<Seq<char>> {
    Set::new(|key: Seq<char>| exists|t: int| 0 <= t < upto && #[trigger] items[t].0@ == key)
}

/// The keys of a tree that is a mapping; no keys for any other tree.
spec fn keys_of(t: Tree) -> Set<Seq<char>> {
    match t {
        Tree::Mapping(m) => m.dom(),
        _ => Set::empty(),
    }
}

proof fn lemma_listed_push(keys: Seq<String>, key: String)
    ensures
        listed(keys.push(key)) == listed(keys).insert(key@),
{
    let longer = keys.push(key);
    assert forall|k: Seq<char>|
        listed(longer).contains(k) <==> listed(keys).insert(key@).contains(k) by {
        if listed(keys).contains(k) {
            let t = choose|t: int| 0 <= t < keys.len() && #[trigger] keys[t]@ == k;
            assert(longer[t]@ == k);
        }
        if k == key@ {
            assert(longer[keys.len() as int]@ == k);
        }
        if listed(longer).contains(k) {
            let t = choose|t: int| 0 <= t < keys.len() + 1 && #[trigger] longer[t]@ == k;
            if t < keys.len() {
                assert(keys[t]@ == k);
            }
        }
    }
    assert(listed(longer) =~= listed(keys).insert(key@));
}

proof fn lemma_item_keys_step(items: Seq<(&String, &Value)>, j: int)
    requires
        0 <= j < items.len(),
    ensures
        item_keys(items, 0) == Set::<Seq<char>>::empty(),
        item_keys(items, j + 1) == item_keys(items, j).insert(items[j].0@),
{
    assert(item_keys(items, 0) =~= Set::<Seq<char>>::empty());
    assert forall|k: Seq<char>|
        item_keys(items, j + 1).contains(k) <==> item_keys(items, j).insert(items[j].0@).contains(
            k,
        ) by {
        if item_keys(items, j).contains(k) {
            let t = choose|t: int| 0 <= t < j && #[trigger] items[t].0@ == k;
            assert(0 <= t < j + 1 && items[t].0@ == k);
        }
        if k == items[j].0@ {
            assert(0 <= j < j + 1 && items[j].0@ == k);
        }
        if item_keys(items, j + 1).contains(k) {
            let t = choose|t: int| 0 <= t < j + 1 && #[trigger] items[t].0@ == k;
            if t < j {
                assert(0 <= t < j && items[t].0@ == k);
            }
        }
    }
    assert(item_keys(items, j + 1) =~= item_keys(items, j).insert(items[j].0@));
}

proof fn lemma_item_keys_all(items: Seq<(&String, &Value)>, m: Map<Seq<char>, Tree>)
    requires
        is_listing(items, m),
    ensures
        item_keys(items, items.len() as int) == m.dom(),
{
    assert forall|k: Seq<char>| item_keys(items, items.len() as int).contains(k) <==> m.dom().contains(
        k,
    ) by {
        if item_keys(items, items.len() as int).contains(k) {
            let t = choose|t: int| 0 <= t < items.len() && #[trigger] items[t].0@ == k;
            assert(m.contains_key(items[t].0@));
        }
        if m.contains_key(k) {
            let t = choose|t: int| 0 <= t < items.len() && #[trigger] items[t].0@ == k;
            assert(0 <= t < items.len() && items[t].0@ == k);
        }
    }
    assert(item_keys(items, items.len() as int) =~= m.dom());
}

/// The keys held among the first `i + 1` values are those held among the
/// first `i`, and those of the value at `i`.
proof fn lemma_key_union_step(values: Seq<Tree>, i: int)
    requires
        0 <= i < values.len(),
    ensures
        key_union(values.take(0)) == Set::<Seq<char>>::empty(),
        key_union(values.take(i + 1)) == key_union(values.take(i)).union(keys_of(values[i])),
{
    let shorter = values.take(i);
    let longer = values.take(i + 1);
    assert(key_union(values.take(0)) =~= Set::<Seq<char>>::empty());
    assert forall|key: Seq<char>|
        key_union(longer).contains(key) <==> key_union(shorter).union(keys_of(values[i])).contains(
            key,
        ) by {
        if key_union(shorter).contains(key) {
            let t = choose|t: int|
                0 <= t < shorter.len() && #[trigger] shorter[t] is Mapping
                    && shorter[t]->Mapping_0.contains_key(key);
            assert(longer[t] is Mapping && longer[t]->Mapping_0.contains_key(key));
        }
        if keys_of(values[i]).contains(key) {
            assert(longer[i] is Mapping && longer[i]->Mapping_0.contains_key(key));
        }
        if key_union(longer).contains(key) {
            let t = choose|t: int|
                0 <= t < longer.len() && #[trigger] longer[t] is Mapping
                    && longer[t]->Mapping_0.contains_key(key);
            if t < i {
                assert(shorter[t] is Mapping && shorter[t]->Mapping_0.contains_key(key));
            }
        }
    }
    assert(key_union(longer) =~= key_union(shorter).union(keys_of(values[i])));
}

/// The keys of all the mappings among the inputs, in the order in which they
/// are first met.
fn union_keys(objs: &[&Value]) -> (keys: Vec<String>)
    ensures
        listed(keys@) == key_union(trees_at(objs@)),
{
    let ghost trees = trees_at(objs@);
    let mut seen = Mapping::new();
    let mut keys: Vec<String> = Vec::new();
    let mut i: usize = 0;
    proof {
        if trees.len() > 0 {
            lemma_key_union_step(trees, 0);
        } else {
            assert(key_union(trees.take(0)) =~= Set::<Seq<char>>::empty());
        }
        assert(listed(keys@) =~= Set::<Seq<char>>::empty());
        assert(seen@.dom() =~= Set::<Seq<char>>::empty());
    }
    while i < objs.len()
        invariant
            i <= objs.len(),
            trees == trees_at(objs@),
            seen@.dom() == listed(keys@),
            listed(keys@) == key_union(trees.take(i as int)),
        decreases objs.len() - i,
    {
        let ghost before = key_union(trees.take(i as int));
        proof {
            lemma_key_union_step(trees, i as int);
        }
        match objs[i] {
            Value::Mapping(m) => {
                let items = m.entries();
                let mut j: usize = 0;
                proof {
                    if items@.len() > 0 {
                        lemma_item_keys_step(items@, 0);
                    } else {
                        assert(item_keys(items@, 0) =~= Set::<Seq<char>>::empty());
                    }
                    assert(before.union(item_keys(items@, 0)) =~= before);
                }
                while j < items.len()
                    invariant
                        j <= items.len(),
                        seen@.dom() == listed(keys@),
                        listed(keys@) == before.union(
                            item_keys(items@, j as int),
                        ),
                    decreases items.len() - j,
                {
                    let (key, _) = items[j];
                    proof {
                        lemma_item_keys_step(items@, j as int);
                        lemma_listed_push(keys@, *key);
                    }
                    if seen.get(key.as_str()).is_none() {
                        seen.insert(key.clone(), Value::Null);
                        keys.push(key.clone());
                        assert(seen@.dom() =~= listed(keys@));
                    }
                    assert(listed(keys@) =~= before.union(
                        item_keys(items@, j + 1),
                    ));
                    j += 1;
                }
                proof {
                    lemma_item_keys_all(items@, m@);
                    assert(trees[i as int] == Tree::Mapping(m@));
                }
            },
            _ => {
                assert(keys_of(trees[i as int]) =~= Set::<Seq<char>>::empty());
                assert(before.union(keys_of(trees[i as int])) =~= before);
            },
        }
        i += 1;
    }
    assert(trees.take(objs@.len() as int) =~= trees);
    keys
}

/// What each input holds under `key`, by reference, with `Null` for an input
/// that lacks the key.
fn column_of<'a>(objs: &[&'a Value], key: &String) -> (col: Vec<&'a Value>)
    ensures
        trees_at(col@) == column(trees_at(objs@), key@),
{
    let mut col: Vec<&'a Value> = Vec::new();
    let mut i: usize = 0;
    while i < objs.len()
        invariant
            i <= objs.len(),
            col@.len() == i,
            forall|t: int| 0 <= t < i ==> (#[trigger] col@[t])@ == column(trees_at(objs@), key@)[t],
        decreases objs.len() - i,
    {
        let obj: &'a Value = objs[i];
        let held: &'a Value = match obj {
            Value::Mapping(m) => match m.get(key.as_str()) {
                Some(v) => v,
                None => &Value::Null,
            },
            _ => &Value::Null,
        };
        col.push(held);
        i += 1;
    }
    assert(trees_at(col@) =~= column(trees_at(objs@), key@));
    col
}

/// As many mappings without entries as `n`.
fn empty_mappings(n: usize) -> (maps: Vec<Mapping>)
    ensures
        maps@.len() == n,
        forall|t: int| 0 <= t < n ==> (#[trigger] maps@[t])@ == Map::<Seq<char>, Tree>::empty(),
{
    let mut maps: Vec<Mapping> = Vec::new();
    let mut i: usize = 0;
    while i < n
        invariant
            i <= n,
            maps@.len() == i,
            forall|t: int| 0 <= t < i ==> (#[trigger] maps@[t])@ == Map::<Seq<char>, Tree>::empty(),
        decreases n - i,
    {
        maps.push(Mapping::new());
        i += 1;
    }
    maps
}

/// Each mapping that has entries as a value of its own in its slot, in the
/// same order; the slot of a mapping without entries is empty.
fn into_slots<'a>(maps: Vec<Mapping>) -> (slots: Vec<Option<Cow<'a, Value>>>)
    ensures
        slots@.len() == maps@.len(),
        forall|t: int|
            0 <= t < maps@.len() ==> slot_tree(#[trigger] slots@[t]) == some_mapping(maps@[t]@),
        forall|t: int| 0 <= t < slots@.len() ==> holds(#[trigger] slots@[t], false),
{
    let ghost all = maps@;
    let mut maps = maps;
    let mut backwards: Vec<Option<Cow<'a, Value>>> = Vec::new();
    while maps.len() > 0
        invariant
            maps@.len() + backwards@.len() == all.len(),
            maps@ == all.take(maps@.len() as int),
            forall|t: int|
                0 <= t < backwards@.len() ==> slot_tree(#[trigger] backwards@[t]) == some_mapping(
                    all[all.len() - 1 - t]@,
                ),
            forall|t: int| 0 <= t < backwards@.len() ==> holds(#[trigger] backwards@[t], false),
        decreases maps.len(),
    {
        let m = maps.pop().unwrap();
        if m.len() == 0 {
            assert(m@.dom() =~= Set::<Seq<char>>::empty());
            backwards.push(None);
        } else {
            assert(m@.dom() != Set::<Seq<char>>::empty());
            backwards.push(Some(Cow::Owned(Value::Mapping(m))));
        }
        assert(maps@ =~= all.take(maps@.len() as int));
    }
    let mut slots: Vec<Option<Cow<'a, Value>>> = Vec::new();
    let ghost turned = backwards@;
    while backwards.len() > 0
        invariant
            turned.len() == all.len(),
            backwards@.len() + slots@.len() == all.len(),
            backwards@ == turned.take(backwards@.len() as int),
            forall|t: int| 0 <= t < slots@.len() ==> #[trigger] slots@[t] == turned[all.len() - 1 - t],
        decreases backwards.len(),
    {
        let slot = backwards.pop().unwrap();
        slots.push(slot);
        assert(backwards@ =~= turned.take(backwards@.len() as int));
    }
    slots
}

/// The reduction of mappings, key by key. The base and the differences are
/// mappings of their own, built from copies.
fn reduce_mappings<'a>(objs: &[&'a Value], count: usize) -> (out: (
    Option<Cow<'a, Value>>,
    Vec<Option<Cow<'a, Value>>>,
))
    requires
        all_mappings(trees_at(objs@)),
    ensures
        (slot_tree(out.0), slot_trees(out.1@)) == reduce_spec(trees_at(objs@), count as nat),
        out.1@.len() == objs@.len(),
        base_hands_back(out.0, objs@, count as nat, false),
        slots_hand_back(out.1@, objs@, false),
    decreases trees_at(objs@)[0],
{
    let ghost trees = trees_at(objs@);
    let ghost quota = count as nat;
    let n = objs.len();
    let keys = union_keys(objs);
    let mut base_map = Mapping::new();
    let mut diff_maps = empty_mappings(n);
    let mut j: usize = 0;
    proof {
        assert(listed(keys@.take(0)) =~= Set::<Seq<char>>::empty());
        assert(base_map@ =~= base_entries(trees, quota, listed(keys@.take(0))));
        assert forall|t: int| 0 <= t < n implies (#[trigger] diff_maps@[t])@ == diff_entries(
            trees,
            quota,
            listed(keys@.take(0)),
            t,
        ) by {
            assert(diff_maps@[t]@ =~= diff_entries(trees, quota, listed(keys@.take(0)), t));
        }
    }
    while j < keys.len()
        invariant
            j <= keys.len(),
            n == objs.len(),
            trees == trees_at(objs@),
            quota == count as nat,
            all_mappings(trees),
            diff_maps@.len() == n,
            base_map@ == base_entries(trees, quota, listed(keys@.take(j as int))),
            forall|t: int|
                0 <= t < n ==> (#[trigger] diff_maps@[t])@ == diff_entries(
                    trees,
                    quota,
                    listed(keys@.take(j as int)),
                    t,
                ),
        decreases keys.len() - j,
    {
        let key = &keys[j];
        let ghost done = listed(keys@.take(j as int));
        let ghost next = listed(keys@.take(j + 1));
        proof {
            assert(keys@.take(j + 1) =~= keys@.take(j as int).push(keys@[j as int]));
            lemma_listed_push(keys@.take(j as int), keys@[j as int]);
            assert(next == done.insert(key@));
        }
        let col = column_of(objs, key);
        let sub = if only_mappings(col.as_slice()) {
            proof {
                assert(trees_at(col@)[0] is Mapping);
                assert(trees_at(col@)[0] == trees[0]->Mapping_0[key@]);
                lemma_entry_is_smaller(trees[0], key@);
            }
            reduce_mappings(col.as_slice(), count)
        } else {
            reduce_flat_values(col.as_slice(), count)
        };
        let ghost column_result = reduce_column(trees, quota, key@);
        assert((slot_tree(sub.0), slot_trees(sub.1@)) == column_result);
        let (sub_base, sub_diffs) = sub;
        let mut sub_diffs = sub_diffs;
        match sub_base {
            Some(b) => {
                base_map.insert(key.clone(), into_value(b));
            },
            None => {},
        }
        assert(base_map@ =~= base_entries(trees, quota, next));
        assert(sub_diffs@.len() == n) by {
            assert(slot_trees(sub_diffs@).len() == column(trees, key@).len());
            lemma_reduce_len(column(trees, key@), quota);
            lemma_reduce_column(trees, quota, key@);
        }
        while sub_diffs.len() > 0
            invariant
                sub_diffs@.len() <= n,
                diff_maps@.len() == n,
                next == done.insert(key@),
                column_result == reduce_column(trees, quota, key@),
                column_result.1.len() == n,
                forall|t: int|
                    0 <= t < sub_diffs@.len() ==> slot_tree(#[trigger] sub_diffs@[t])
                        == column_result.1[t],
                forall|t: int|
                    0 <= t < sub_diffs@.len() ==> (#[trigger] diff_maps@[t])@ == diff_entries(
                        trees,
                        quota,
                        done,
                        t,
                    ),
                forall|t: int|
                    sub_diffs@.len() <= t < n ==> (#[trigger] diff_maps@[t])@ == diff_entries(
                        trees,
                        quota,
                        next,
                        t,
                    ),
            decreases sub_diffs.len(),
        {
            let i = sub_diffs.len() - 1;
            let ghost before = diff_maps@;
            let slot = sub_diffs.pop().unwrap();
            match slot {
                Some(d) => {
                    if !holds_null(&d) {
                        diff_maps[i].insert(key.clone(), into_value(d));
                    }
                },
                None => {},
            }
            proof {
                assert(diff_maps@[i as int]@ =~= diff_entries(trees, quota, next, i as int));
                assert forall|t: int| 0 <= t < n && t != i implies diff_maps@[t] == before[t] by {}
            }
        }
        j += 1;
    }
    proof {
        assert(keys@.take(keys@.len() as int) =~= keys@);
    }
    let base = if base_map.len() == 0 {
        assert(base_map@.dom() =~= Set::<Seq<char>>::empty());
        None
    } else {
        assert(base_map@.dom() != Set::<Seq<char>>::empty());
        Some(Cow::Owned(Value::Mapping(base_map)))
    };
    let diffs = into_slots(diff_maps);
    proof {
        assert(slot_trees(diffs@) =~= reduce_spec(trees, quota).1);
    }
    (base, diffs)
}

/// A reduction has one slot per input.
pub proof fn lemma_reduce_len(values: Seq<Tree>, count: nat)
    ensures
        reduce_spec(values, count).1.len() == values.len(),
{
}

/// The reduction of the inputs with `count` as the number of them that must
/// agree.
fn reduce_values<'a>(objs: &[&'a Value], count: usize) -> (out: (
    Option<Cow<'a, Value>>,
    Vec<Option<Cow<'a, Value>>>,
))
    ensures
        (slot_tree(out.0), slot_trees(out.1@)) == reduce_spec(trees_at(objs@), count as nat),
        out.1@.len() == objs@.len(),
        base_hands_back(out.0, objs@, count as nat, !all_mappings(trees_at(objs@))),
        slots_hand_back(out.1@, objs@, !all_mappings(trees_at(objs@))),
{
    if only_mappings(objs) {
        reduce_mappings(objs, count)
    } else {
        reduce_flat_values(objs, count)
    }
}

/// Splits the inputs into a common base and one difference per input.
///
/// The number of inputs that must agree on a value is the quorum's share of
/// the number of inputs, rounded up. The result is the reduction of the
/// inputs' trees under that number: the base, if there is one, and one slot
/// per input, in the order of the inputs. For mappings the base and the
/// differences are new mappings; for all other inputs whatever is handed
/// back is a reference to an input.
pub fn diff_and_common_multiple<'a>(objs: &[&'a Value], quorum: Quorum) -> (out: (
    Option<Cow<'a, Value>>,
    Vec<Option<Cow<'a, Value>>>,
))
    ensures
        (slot_tree(out.0), slot_trees(out.1@)) == reduce_spec(
            trees_at(objs@),
            quorum.count(objs@.len()),
        ),
        out.1@.len() == objs@.len(),
        base_hands_back(
            out.0,
            objs@,
            quorum.count(objs@.len()),
            !all_mappings(trees_at(objs@)),
        ),
        slots_hand_back(out.1@, objs@, !all_mappings(trees_at(objs@))),
{
    let count = quorum.count_for(objs.len());
    let out = reduce_values(objs, count);
    proof {
        lemma_reduce_len(trees_at(objs@), count as nat);
        assert(slot_trees(out.1@).len() == out.1@.len());
    }
    out
}

/// As many empty slots as `n`.
pub open spec fn empty_slots(n: nat) -> Seq<Option<Tree>> {
    Seq::new(n, |i: int| None::<Tree>)
}

/// Without inputs there is no base and there are no slots, whatever the
/// quorum.
pub proof fn lemma_reduce_nothing(count: nat)
    ensures
        reduce_spec(Seq::<Tree>::empty(), count) == (None::<Tree>, Seq::<Option<Tree>>::empty()),
{
}

/// A value occurs as often among copies of itself as there are copies.
proof fn lemma_occurrences_of_copies(values: Seq<Tree>, v: Tree)
    requires
        forall|i: int| 0 <= i < values.len() ==> #[trigger] values[i] == v,
    ensures
        occurrences(values, v) == values.len(),
    decreases values.len(),
{
    if values.len() > 0 {
        lemma_occurrences_of_copies(values.drop_last(), v);
    }
}

/// Inputs that are all the same scalar have that scalar as their base, and
/// none of them adds anything to it: under the full quorum, where all of
/// them must agree, and so under every quorum that asks for no more inputs
/// than there are.
pub proof fn lemma_unanimous_scalars(values: Seq<Tree>, count: nat)
    requires
        values.len() > 0,
        is_scalar(kind_of(values[0])),
        forall|i: int| 0 <= i < values.len() ==> #[trigger] values[i] == values[0],
        count <= values.len(),
    ensures
        reduce_spec(values, count) == (Some(values[0]), empty_slots(values.len())),
{
    lemma_occurrences_of_copies(values, values[0]);
    assert(!(values[0] is Mapping));
    assert(is_winner(values, count, 0));
    let w = choose|i: int| is_winner(values, count, i);
    assert(against_base(values, values[w]) =~= empty_slots(values.len()));
}

/// Where no value occurs as often among scalars of one kind as the quorum
/// asks, there is no base, and every input but `Null` stands unchanged in
/// its own slot.
pub proof fn lemma_no_quorum(values: Seq<Tree>, count: nat)
    requires
        values.len() > 0,
        uniform(values),
        is_scalar(kind_of(values[0])),
        forall|i: int| 0 <= i < values.len() ==> occurrences(values, #[trigger] values[i]) < count,
    ensures
        reduce_spec(values, count) == (None::<Tree>, verbatim(values)),
        forall|i: int|
            0 <= i < values.len() ==> #[trigger] verbatim(values)[i] == (if values[i] is Null {
                None
            } else {
                Some(values[i])
            }),
{
    assert(!(values[0] is Mapping));
    assert forall|i: int| !is_winner(values, count, i) by {
        if 0 <= i < values.len() {
            assert(occurrences(values, values[i]) < count);
        }
    }
}

/// Inputs of more than one kind have no base, and every input but `Null`
/// stands unchanged in its own slot; the slot of a `Null` is empty.
pub proof fn lemma_mixed_kinds(values: Seq<Tree>, count: nat)
    requires
        !uniform(values),
    ensures
        reduce_spec(values, count) == (None::<Tree>, verbatim(values)),
        forall|i: int|
            0 <= i < values.len() ==> #[trigger] verbatim(values)[i] == (if values[i] is Null {
                None
            } else {
                Some(values[i])
            }),
{
    let i = choose|i: int| 0 <= i < values.len() && kind_of(#[trigger] values[i]) != kind_of(values[0]);
    if all_mappings(values) {
        assert(values[i] is Mapping);
        assert(values[0] is Mapping);
    }
}

/// Arrays are never merged: they have no base, even where all of them are
/// equal, and each stands unchanged in its own slot.
pub proof fn lemma_arrays_stand_apart(values: Seq<Tree>, count: nat)
    requires
        values.len() > 0,
        forall|i: int| 0 <= i < values.len() ==> #[trigger] values[i] is Array,
    ensures
        reduce_spec(values, count).0 is None,
        forall|i: int|
            0 <= i < values.len() ==> #[trigger] reduce_spec(values, count).1[i] == Some(values[i]),
{
    assert(values[0] is Array);
}

/// The base of mappings holds a key exactly if the column of that key has a
/// base, and holds that base under it. The difference of an input holds a
/// key exactly if the column leaves something but `Null` in the slot of that
/// input, and holds that under it.
pub proof fn lemma_reduce_mappings(values: Seq<Tree>, count: nat, key: Seq<char>, i: int)
    requires
        all_mappings(values),
        0 <= i < values.len(),
    ensures
        key_union(values).contains(key) ==> reduce_spec(column(values, key), count).1.len()
            == values.len(),
        match reduce_spec(values, count).0 {
            Some(base) => base is Mapping && (base->Mapping_0.contains_key(key) <==> key_union(
                values,
            ).contains(key) && reduce_spec(column(values, key), count).0 is Some),
            None => !(key_union(values).contains(key) && reduce_spec(
                column(values, key),
                count,
            ).0 is Some),
        },
        match reduce_spec(values, count).0 {
            Some(base) => base->Mapping_0.contains_key(key) ==> Some(base->Mapping_0[key])
                == reduce_spec(column(values, key), count).0,
            None => true,
        },
        match reduce_spec(values, count).1[i] {
            Some(diff) => diff is Mapping && (diff->Mapping_0.contains_key(key) <==> key_union(
                values,
            ).contains(key) && is_kept(reduce_spec(column(values, key), count).1[i])),
            None => !(key_union(values).contains(key) && is_kept(
                reduce_spec(column(values, key), count).1[i],
            )),
        },
        match reduce_spec(values, count).1[i] {
            Some(diff) => diff->Mapping_0.contains_key(key) ==> Some(diff->Mapping_0[key])
                == reduce_spec(column(values, key), count).1[i],
            None => true,
        },
{
    lemma_reduce_column(values, count, key);
    lemma_reduce_len(column(values, key), count);
    let keys = key_union(values);
    let base = base_entries(values, count, keys);
    let diff = diff_entries(values, count, keys, i);
    if reduce_spec(values, count).0 is None {
        assert(base.dom() =~= Set::<Seq<char>>::empty());
        assert(!base.contains_key(key));
    }
    if reduce_spec(values, count).1[i] is None {
        assert(diff.dom() =~= Set::<Seq<char>>::empty());
        assert(!diff.contains_key(key));
    }
}

} // verus!
