//! Sets that keep the order in which their values were last put in, from
//! the `linked_hash_set` crate.

use linked_hash_set::LinkedHashSet;
use std::collections::hash_map::RandomState;
use vstd::prelude::*;

verus! {

/// `linked_hash_set::LinkedHashSet`, a set that keeps its values in the
/// order in which they were last put in. What stands inside a value of it
/// is not looked at: what a set holds goes by the names below.
#[verifier::external_type_specification]
#[verifier::external_body]
#[verifier::reject_recursive_types(T)]
#[verifier::reject_recursive_types(S)]
pub struct ExLinkedHashSet<T, S>(LinkedHashSet<T, S>);

/// A set of numbers in the order of their last insertion.
pub type NumberSet = LinkedHashSet<u32, RandomState>;

/// A set of texts in the order of their last insertion.
pub type TextSet = LinkedHashSet<String, RandomState>;

/// `items` with `value` at its end and nowhere else: what a set holds after
/// `value` is put in.
pub open spec fn moved_last<T>(items: Seq<T>, value: T) -> Seq<T> {
    items.filter(|x: T| x != value).push(value)
}

/// What was not among the values is put at their end, and nothing else
/// changes.
pub proof fn lemma_moved_last_fresh<T>(items: Seq<T>, value: T)
    requires
        !items.contains(value),
    ensures
        moved_last(items, value) == items.push(value),
{
    lemma_filter_keeps_all(items, |x: T| x != value);
}

/// A filter that every value passes keeps all of them.
pub proof fn lemma_filter_keeps_all<T>(items: Seq<T>, keep: spec_fn(T) -> bool)
    requires
        forall|i: int| 0 <= i < items.len() ==> keep(#[trigger] items[i]),
    ensures
        items.filter(keep) == items,
    decreases items.len(),
{
    reveal(Seq::filter);
    if items.len() > 0 {
        lemma_filter_keeps_all(items.drop_last(), keep);
        assert(items.drop_last().push(items.last()) =~= items);
    }
}

/// The numbers that a set holds, in its order.
pub uninterp spec fn number_items(set: NumberSet) -> Seq<u32>;

/// The texts that a set holds, in its order.
pub uninterp spec fn text_items(set: TextSet) -> Seq<Seq<char>>;

/// Calls `LinkedHashSet::new`, which makes an empty set.
#[verifier::external_body]
pub(crate) fn new_number_set() -> (set: NumberSet)
    ensures
        number_items(set) == Seq::<u32>::empty(),
{
    LinkedHashSet::new()
}

/// Calls `LinkedHashSet::insert`, which puts the value at the end of the
/// order whether the set held it or not, and tells whether it was absent.
#[verifier::external_body]
pub(crate) fn insert_number(set: &mut NumberSet, value: u32) -> (fresh: bool)
    ensures
        number_items(*final(set)) == moved_last(number_items(*old(set)), value),
        fresh == !number_items(*old(set)).contains(value),
{
    set.insert(value)
}

/// Calls `LinkedHashSet::into_iter`, which hands the values out in the
/// set's order.
#[verifier::external_body]
pub(crate) fn numbers_in_order(set: NumberSet) -> (r: Vec<u32>)
    ensures
        r@ == number_items(set),
{
    set.into_iter().collect()
}

/// Calls `LinkedHashSet::new`, which makes an empty set.
#[verifier::external_body]
pub(crate) fn new_text_set() -> (set: TextSet)
    ensures
        text_items(set) == Seq::<Seq<char>>::empty(),
{
    LinkedHashSet::new()
}

/// Calls `LinkedHashSet::insert`, which puts the value at the end of the
/// order whether the set held it or not, and tells whether it was absent.
#[verifier::external_body]
pub(crate) fn insert_text(set: &mut TextSet, value: String) -> (fresh: bool)
    ensures
        text_items(*final(set)) == moved_last(text_items(*old(set)), value@),
        fresh == !text_items(*old(set)).contains(value@),
{
    set.insert(value)
}

/// Calls `LinkedHashSet::into_iter`, which hands the values out in the
/// set's order.
#[verifier::external_body]
pub(crate) fn texts_in_order(set: TextSet) -> (r: Vec<String>)
    ensures
        r.deep_view() == text_items(set),
{
    set.into_iter().collect()
}

} // verus!
