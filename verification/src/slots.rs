//! What a result hands back: a reference to an input, or a value of its own.

use crate::tree::Tree;
use crate::value::Value;
use std::borrow::Cow;
use vstd::prelude::*;

verus! {

/// The trees of the inputs, in order.
pub open spec fn trees_at<'a>(objs: Seq<&'a Value>) -> Seq<Tree> {
    Seq::new(objs.len(), |i: int| objs[i]@)
}

/// The tree in a slot, if the slot is filled.
pub open spec fn slot_tree<'a>(slot: Option<Cow<'a, Value>>) -> Option<Tree> {
    match slot {
        Some(held) => Some(held@),
        None => None,
    }
}

/// The trees in the slots, in order.
pub open spec fn slot_trees<'a>(slots: Seq<Option<Cow<'a, Value>>>) -> Seq<Option<Tree>> {
    Seq::new(slots.len(), |i: int| slot_tree(slots[i]))
}

/// A filled slot holds a reference to an input if `borrowed`, and a value of
/// its own otherwise. An empty slot holds neither.
pub open spec fn holds<'a>(slot: Option<Cow<'a, Value>>, borrowed: bool) -> bool {
    match slot {
        Some(Cow::Borrowed(_)) => borrowed,
        Some(Cow::Owned(_)) => !borrowed,
        None => true,
    }
}

/// A filled slot holds `source` itself, by reference, if `borrowed`, and a
/// value of its own otherwise.
pub open spec fn hands_back<'a>(
    slot: Option<Cow<'a, Value>>,
    source: &'a Value,
    borrowed: bool,
) -> bool {
    match slot {
        Some(Cow::Borrowed(r)) => borrowed && r == source,
        Some(Cow::Owned(_)) => !borrowed,
        None => true,
    }
}

/// Each filled slot holds the input of its position, by reference, if
/// `borrowed`, and a value of its own otherwise.
pub open spec fn slots_hand_back<'a>(
    slots: Seq<Option<Cow<'a, Value>>>,
    sources: Seq<&'a Value>,
    borrowed: bool,
) -> bool {
    forall|i: int|
        0 <= i < slots.len() && i < sources.len() ==> hands_back(
            #[trigger] slots[i],
            sources[i],
            borrowed,
        )
}

/// The value that is held, as a value of its own: a copy where a reference
/// is held.
pub fn into_value<'a>(held: Cow<'a, Value>) -> (v: Value)
    ensures
        v@ == held@,
{
    match held {
        Cow::Borrowed(r) => r.clone(),
        Cow::Owned(v) => v,
    }
}

/// Whether the value that is held is `Null`.
pub fn holds_null<'a>(held: &Cow<'a, Value>) -> (r: bool)
    ensures
        r == (held@ is Null),
{
    match held {
        Cow::Borrowed(r) => r.is_null(),
        Cow::Owned(v) => v.is_null(),
    }
}

} // verus!
