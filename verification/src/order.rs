//! The order of a dictionary on texts, and sorting by it.

use crate::text::{starts_with, views};
use vstd::prelude::*;
use vstd::seq_lib::to_multiset_build;

verus! {

/// Whether `d` is where `a` and `b` first differ, and `a` is the smaller
/// there: it has ended and `b` has not, or its character has the smaller
/// code point.
pub open spec fn decided_at(a: Seq<char>, b: Seq<char>, d: int) -> bool {
    &&& 0 <= d <= a.len()
    &&& d <= b.len()
    &&& forall|k: int| 0 <= k < d ==> a[k] == b[k]
    &&& if d == a.len() {
        d < b.len()
    } else {
        d < b.len() && a[d] < b[d]
    }
}

/// Whether `a` stands before `b` in the order of a dictionary.
pub open spec fn precedes(a: Seq<char>, b: Seq<char>) -> bool {
    exists|d: int| decided_at(a, b, d)
}

/// No text stands before itself.
pub proof fn lemma_precedes_irreflexive(a: Seq<char>)
    ensures
        !precedes(a, a),
{
}

/// The order is transitive.
pub proof fn lemma_precedes_transitive(a: Seq<char>, b: Seq<char>, c: Seq<char>)
    requires
        precedes(a, b),
        precedes(b, c),
    ensures
        precedes(a, c),
{
    let d1 = choose|d: int| decided_at(a, b, d);
    let d2 = choose|d: int| decided_at(b, c, d);
    let d = if d1 <= d2 {
        d1
    } else {
        d2
    };
    assert(decided_at(a, c, d));
}

/// Of two texts that differ, one stands before the other.
pub proof fn lemma_precedes_total(a: Seq<char>, b: Seq<char>)
    requires
        a != b,
    ensures
        precedes(a, b) || precedes(b, a),
{
    lemma_total_from(a, b, 0);
}

proof fn lemma_total_from(a: Seq<char>, b: Seq<char>, k: int)
    requires
        a != b,
        0 <= k <= a.len(),
        k <= b.len(),
        forall|j: int| 0 <= j < k ==> a[j] == b[j],
    ensures
        precedes(a, b) || precedes(b, a),
    decreases a.len() - k,
{
    if k == a.len() {
        if k == b.len() {
            assert(a =~= b);
        } else {
            assert(decided_at(a, b, k));
        }
    } else if k == b.len() {
        assert(decided_at(b, a, k));
    } else if a[k] != b[k] {
        if a[k] < b[k] {
            assert(decided_at(a, b, k));
        } else {
            assert(decided_at(b, a, k));
        }
    } else {
        lemma_total_from(a, b, k + 1);
    }
}

/// Where `c` does not stand before `b`, nor `b` before `a`, `c` does not
/// stand before `a`.
pub proof fn lemma_not_before_transitive(a: Seq<char>, b: Seq<char>, c: Seq<char>)
    requires
        !precedes(b, a),
        !precedes(c, b),
    ensures
        !precedes(c, a),
{
    if precedes(c, a) {
        if a == b {
        } else {
            lemma_precedes_total(a, b);
            lemma_precedes_transitive(c, a, b);
        }
    }
}

/// A text does not stand before what it begins with.
pub proof fn lemma_prefix_not_after(text: Seq<char>, prefix: Seq<char>)
    requires
        starts_with(text, prefix),
    ensures
        !precedes(text, prefix),
{
    if precedes(text, prefix) {
        let d = choose|d: int| decided_at(text, prefix, d);
        if d < prefix.len() {
            assert(text.take(prefix.len() as int)[d] == prefix[d]);
        }
    }
}

/// Between a prefix and a text that begins with it stand only texts that
/// begin with it.
pub proof fn lemma_between_prefixed(low: Seq<char>, high: Seq<char>, prefix: Seq<char>)
    requires
        !precedes(low, prefix),
        !precedes(high, low),
        starts_with(high, prefix),
    ensures
        starts_with(low, prefix),
{
    lemma_between_from(low, high, prefix, 0);
    assert(low.take(prefix.len() as int) =~= prefix);
}

proof fn lemma_between_from(low: Seq<char>, high: Seq<char>, prefix: Seq<char>, j: int)
    requires
        !precedes(low, prefix),
        !precedes(high, low),
        starts_with(high, prefix),
        0 <= j <= prefix.len(),
        j <= low.len(),
        forall|i: int| 0 <= i < j ==> low[i] == prefix[i],
    ensures
        prefix.len() <= low.len(),
        forall|i: int| 0 <= i < prefix.len() ==> low[i] == prefix[i],
    decreases prefix.len() - j,
{
    if j < prefix.len() {
        assert forall|i: int| 0 <= i < prefix.len() implies high[i] == prefix[i] by {
            assert(high.take(prefix.len() as int)[i] == prefix[i]);
        }
        if j == low.len() {
            assert(decided_at(low, prefix, j));
        } else if low[j] < prefix[j] {
            assert(decided_at(low, prefix, j));
        } else if low[j] > prefix[j] {
            assert(decided_at(high, low, j));
        } else {
            lemma_between_from(low, high, prefix, j + 1);
        }
    }
}

/// Tells whether `a` stands before `b` in the order of a dictionary.
pub fn stands_before(a: &[char], b: &[char]) -> (r: bool)
    ensures
        r == precedes(a@, b@),
{
    let mut k: usize = 0;
    while k < a.len() && k < b.len()
        invariant
            k <= a.len(),
            k <= b.len(),
            forall|j: int| 0 <= j < k ==> a@[j] == b@[j],
        decreases a.len() - k,
    {
        if a[k] != b[k] {
            if a[k] < b[k] {
                assert(decided_at(a@, b@, k as int));
                return true;
            } else {
                assert forall|d: int| !decided_at(a@, b@, d) by {
                    if decided_at(a@, b@, d) {
                        if d > k {
                            assert(a@[k as int] == b@[k as int]);
                        }
                    }
                }
                return false;
            }
        }
        k += 1;
    }
    if k < b.len() {
        assert(decided_at(a@, b@, k as int));
        true
    } else {
        assert forall|d: int| !decided_at(a@, b@, d) by {
            if decided_at(a@, b@, d) {
                if d < k {
                    assert(a@[d] == b@[d]);
                }
            }
        }
        false
    }
}

/// Whether the keys that `order` names in turn never go down.
pub open spec fn in_order(keys: Seq<Seq<char>>, order: Seq<usize>) -> bool {
    forall|a: int, b: int|
        0 <= a < b < order.len() ==> !precedes(
            keys[#[trigger] order[b] as int],
            keys[#[trigger] order[a] as int],
        )
}

/// Whether each entry of `order` names one of `n` keys.
pub open spec fn names_keys(order: Seq<usize>, n: nat) -> bool {
    forall|a: int| 0 <= a < order.len() ==> #[trigger] order[a] < n
}

/// Whether place `p` comes before place `q` where places are sorted by the
/// keys that they have, and a place with the same key as another stays
/// before it if it was before it.
pub open spec fn key_before(keys: Seq<Seq<char>>, p: int, q: int) -> bool {
    precedes(keys[p], keys[q]) || (keys[p] == keys[q] && p < q)
}

/// Whether the places that `order` names stand sorted by their keys, those
/// with the same key in the order of the places.
pub open spec fn ascending_keys(keys: Seq<Seq<char>>, order: Seq<usize>) -> bool {
    forall|a: int, b: int|
        0 <= a < b < order.len() ==> key_before(
            keys,
            #[trigger] order[a] as int,
            #[trigger] order[b] as int,
        )
}

/// What comes before a place comes before all that the place comes before.
pub proof fn lemma_key_before_transitive(keys: Seq<Seq<char>>, p: int, q: int, r: int)
    requires
        key_before(keys, p, q),
        key_before(keys, q, r),
    ensures
        key_before(keys, p, r),
{
    if precedes(keys[p], keys[q]) && precedes(keys[q], keys[r]) {
        lemma_precedes_transitive(keys[p], keys[q], keys[r]);
    }
}

/// Of two places, one comes before the other.
pub proof fn lemma_key_before_total(keys: Seq<Seq<char>>, p: int, q: int)
    requires
        p != q,
    ensures
        key_before(keys, p, q) || key_before(keys, q, p),
{
    if keys[p] != keys[q] {
        lemma_precedes_total(keys[p], keys[q]);
    }
}

/// Places that stand sorted by their keys have keys that never go down.
pub proof fn lemma_ascending_in_order(keys: Seq<Seq<char>>, order: Seq<usize>)
    requires
        ascending_keys(keys, order),
    ensures
        in_order(keys, order),
{
    assert forall|a: int, b: int| 0 <= a < b < order.len() implies !precedes(
        keys[#[trigger] order[b] as int],
        keys[#[trigger] order[a] as int],
    ) by {
        let low = keys[order[a] as int];
        let high = keys[order[b] as int];
        lemma_precedes_irreflexive(low);
        if precedes(high, low) && precedes(low, high) {
            lemma_precedes_transitive(low, high, low);
        }
    }
}

/// Merges two runs of places that are sorted by their keys into one.
fn merge(keys: &Vec<Vec<char>>, left: &Vec<usize>, right: &Vec<usize>) -> (r: Vec<usize>)
    requires
        names_keys(left@, keys.len() as nat),
        names_keys(right@, keys.len() as nat),
        ascending_keys(views(keys@), left@),
        ascending_keys(views(keys@), right@),
        forall|i: int, j: int|
            0 <= i < left.len() && 0 <= j < right.len() ==> #[trigger] left[i]
                != #[trigger] right[j],
    ensures
        names_keys(r@, keys.len() as nat),
        ascending_keys(views(keys@), r@),
        r@.to_multiset() == left@.to_multiset().add(right@.to_multiset()),
        r.len() == left.len() + right.len(),
{
    let ghost texts = views(keys@);
    let mut out: Vec<usize> = Vec::new();
    let mut i: usize = 0;
    let mut j: usize = 0;
    assert(left@.take(0) =~= Seq::empty());
    assert(right@.take(0) =~= Seq::empty());
    proof {
        out@.to_multiset_ensures();
        vstd::multiset::lemma_multiset_empty_len(out@.to_multiset());
    }
    assert(out@.to_multiset() =~= left@.take(0).to_multiset().add(right@.take(0).to_multiset()));
    while i < left.len() || j < right.len()
        invariant
            i <= left.len(),
            j <= right.len(),
            texts == views(keys@),
            names_keys(left@, keys.len() as nat),
            names_keys(right@, keys.len() as nat),
            ascending_keys(texts, left@),
            ascending_keys(texts, right@),
            forall|x: int, y: int|
                0 <= x < left.len() && 0 <= y < right.len() ==> #[trigger] left[x]
                    != #[trigger] right[y],
            names_keys(out@, keys.len() as nat),
            ascending_keys(texts, out@),
            out.len() == i + j,
            out@.to_multiset() == left@.take(i as int).to_multiset().add(
                right@.take(j as int).to_multiset(),
            ),
            forall|a: int, b: int|
                0 <= a < out.len() && i <= b < left.len() ==> key_before(
                    texts,
                    #[trigger] out[a] as int,
                    #[trigger] left[b] as int,
                ),
            forall|a: int, b: int|
                0 <= a < out.len() && j <= b < right.len() ==> key_before(
                    texts,
                    #[trigger] out[a] as int,
                    #[trigger] right[b] as int,
                ),
        decreases left.len() - i + right.len() - j,
    {
        let take_left = if i == left.len() {
            false
        } else if j == right.len() {
            true
        } else {
            let p = left[i];
            let q = right[j];
            let ghost low = texts[p as int];
            let ghost high = texts[q as int];
            if stands_before(keys[p].as_slice(), keys[q].as_slice()) {
                true
            } else if stands_before(keys[q].as_slice(), keys[p].as_slice()) {
                proof {
                    lemma_precedes_irreflexive(low);
                }
                false
            } else {
                proof {
                    if low != high {
                        lemma_precedes_total(low, high);
                    }
                }
                p < q
            }
        };
        if take_left {
            let x = left[i];
            proof {
                to_multiset_build(out@, x);
                to_multiset_build(left@.take(i as int), x);
                assert(left@.take(i + 1) =~= left@.take(i as int).push(x));
                assert forall|b: int| j <= b < right.len() implies key_before(
                    texts,
                    x as int,
                    #[trigger] right[b] as int,
                ) by {
                    if b > j {
                        lemma_key_before_transitive(
                            texts,
                            x as int,
                            right[j as int] as int,
                            right[b] as int,
                        );
                    }
                }
            }
            out.push(x);
            i += 1;
            assert(out@.to_multiset() =~= left@.take(i as int).to_multiset().add(
                right@.take(j as int).to_multiset(),
            ));
        } else {
            let y = right[j];
            proof {
                to_multiset_build(out@, y);
                to_multiset_build(right@.take(j as int), y);
                assert(right@.take(j + 1) =~= right@.take(j as int).push(y));
                assert forall|b: int| i <= b < left.len() implies key_before(
                    texts,
                    y as int,
                    #[trigger] left[b] as int,
                ) by {
                    lemma_key_before_total(texts, y as int, left[i as int] as int);
                    if b > i {
                        lemma_key_before_transitive(
                            texts,
                            y as int,
                            left[i as int] as int,
                            left[b] as int,
                        );
                    }
                }
            }
            out.push(y);
            j += 1;
            assert(out@.to_multiset() =~= left@.take(i as int).to_multiset().add(
                right@.take(j as int).to_multiset(),
            ));
        }
    }
    assert(left@.take(left.len() as int) =~= left@);
    assert(right@.take(right.len() as int) =~= right@);
    out
}

/// Sorts places by the keys that they have. A place with the same key as
/// another stays before it if its place is the lower one.
fn sort_by_key(keys: &Vec<Vec<char>>, items: Vec<usize>) -> (r: Vec<usize>)
    requires
        names_keys(items@, keys.len() as nat),
        items@.no_duplicates(),
    ensures
        names_keys(r@, keys.len() as nat),
        ascending_keys(views(keys@), r@),
        r@.to_multiset() == items@.to_multiset(),
        r.len() == items.len(),
    decreases items.len(),
{
    if items.len() <= 1 {
        return items;
    }
    let half = items.len() / 2;
    let mut left: Vec<usize> = Vec::new();
    let mut right: Vec<usize> = Vec::new();
    let mut k: usize = 0;
    assert(items@.subrange(0, 0) =~= Seq::empty());
    while k < half
        invariant
            k <= half <= items.len(),
            left@ == items@.subrange(0, k as int),
        decreases half - k,
    {
        left.push(items[k]);
        k += 1;
        assert(left@ =~= items@.subrange(0, k as int));
    }
    assert(items@.subrange(half as int, half as int) =~= Seq::empty());
    while k < items.len()
        invariant
            half <= k <= items.len(),
            right@ == items@.subrange(half as int, k as int),
        decreases items.len() - k,
    {
        right.push(items[k]);
        k += 1;
        assert(right@ =~= items@.subrange(half as int, k as int));
    }
    proof {
        assert(items@ =~= left@ + right@);
        vstd::seq_lib::lemma_multiset_commutative(left@, right@);
    }
    let sorted_left = sort_by_key(keys, left);
    let sorted_right = sort_by_key(keys, right);
    proof {
        lemma_halves_apart(items@, half as int, left@, right@, sorted_left@, sorted_right@);
    }
    merge(keys, &sorted_left, &sorted_right)
}

/// The two halves of a list in which nothing occurs twice have nothing in
/// common, however each of them is rearranged.
proof fn lemma_halves_apart(
    items: Seq<usize>,
    half: int,
    left: Seq<usize>,
    right: Seq<usize>,
    sorted_left: Seq<usize>,
    sorted_right: Seq<usize>,
)
    requires
        items.no_duplicates(),
        0 <= half <= items.len(),
        left == items.subrange(0, half),
        right == items.subrange(half, items.len() as int),
        sorted_left.to_multiset() == left.to_multiset(),
        sorted_right.to_multiset() == right.to_multiset(),
    ensures
        left.no_duplicates(),
        right.no_duplicates(),
        forall|i: int, j: int|
            0 <= i < sorted_left.len() && 0 <= j < sorted_right.len() ==> #[trigger] sorted_left[i]
                != #[trigger] sorted_right[j],
{
    left.to_multiset_ensures();
    right.to_multiset_ensures();
    sorted_left.to_multiset_ensures();
    sorted_right.to_multiset_ensures();
    assert forall|i: int, j: int|
        0 <= i < sorted_left.len() && 0 <= j < sorted_right.len() implies #[trigger] sorted_left[i]
        != #[trigger] sorted_right[j] by {
        let x = sorted_left[i];
        let y = sorted_right[j];
        assert(sorted_left.contains(x));
        assert(sorted_right.contains(y));
        assert(left.to_multiset().count(x) > 0);
        assert(right.to_multiset().count(y) > 0);
        assert(left.contains(x));
        assert(right.contains(y));
        let a = choose|a: int| 0 <= a < left.len() && left[a] == x;
        let b = choose|b: int| 0 <= b < right.len() && right[b] == y;
        assert(items[a] == x);
        assert(items[half + b] == y);
    }
    assert forall|i: int, j: int|
        0 <= i < left.len() && 0 <= j < left.len() && i != j implies left[i] != left[j] by {
        assert(items[i] == left[i]);
        assert(items[j] == left[j]);
    }
    assert forall|i: int, j: int|
        0 <= i < right.len() && 0 <= j < right.len() && i != j implies right[i] != right[j] by {
        assert(items[half + i] == right[i]);
        assert(items[half + j] == right[j]);
    }
}

/// The numbers from 0 up to, not including, `n`.
pub fn count_up(n: usize) -> (r: Vec<usize>)
    ensures
        r.len() == n,
        forall|i: int| 0 <= i < n ==> r[i] == i,
{
    let mut out: Vec<usize> = Vec::new();
    let mut i: usize = 0;
    while i < n
        invariant
            i <= n,
            out.len() == i,
            forall|k: int| 0 <= k < i ==> out[k] == k,
        decreases n - i,
    {
        out.push(i);
        i += 1;
    }
    out
}

/// Whether `order` names each of `n` keys.
pub open spec fn names_all(order: Seq<usize>, n: nat) -> bool {
    forall|i: int| 0 <= i < n ==> order.contains(#[trigger] (i as usize))
}

/// The places of the keys in the order of a dictionary; places with the
/// same key stand in the order of the places. Each place stands in it
/// once.
pub fn sorted_places(keys: &Vec<Vec<char>>) -> (order: Vec<usize>)
    ensures
        names_keys(order@, keys.len() as nat),
        names_all(order@, keys.len() as nat),
        ascending_keys(views(keys@), order@),
        in_order(views(keys@), order@),
        order@.no_duplicates(),
        order.len() == keys.len(),
{
    let start = count_up(keys.len());
    assert(start@.no_duplicates());
    let order = sort_by_key(keys, start);
    proof {
        lemma_ascending_in_order(views(keys@), order@);
        start@.lemma_multiset_has_no_duplicates();
        order@.lemma_multiset_has_no_duplicates_conv();
        start@.to_multiset_ensures();
        order@.to_multiset_ensures();
        assert forall|i: int| 0 <= i < keys.len() implies order@.contains(
            #[trigger] (i as usize),
        ) by {
            assert(start@[i] == i as usize);
            assert(start@.contains(i as usize));
            assert(start@.to_multiset().count(i as usize) > 0);
            assert(order@.to_multiset().count(i as usize) > 0);
        }
    }
    order
}

/// Whether the text at place `k` stands at an earlier place too.
pub open spec fn is_repeated(texts: Seq<Seq<char>>, k: int) -> bool {
    0 <= k < texts.len() && exists|j: int| 0 <= j < k && #[trigger] texts[j] == texts[k]
}

/// Whether `k` is the first place whose text stands at an earlier place
/// too.
pub open spec fn is_first_repeated(texts: Seq<Seq<char>>, k: int) -> bool {
    is_repeated(texts, k) && forall|h: int| 0 <= h < k ==> !is_repeated(texts, h)
}

/// The first place whose text stands at an earlier place too, if any text
/// occurs twice.
pub open spec fn first_repeated(texts: Seq<Seq<char>>) -> Option<int> {
    if exists|k: int| is_first_repeated(texts, k) {
        Some(choose|k: int| is_first_repeated(texts, k))
    } else {
        None
    }
}

/// Where a text stands at an earlier place too, there is a first such
/// text.
pub proof fn lemma_first_repeated_exists(texts: Seq<Seq<char>>, k: int)
    requires
        is_repeated(texts, k),
    ensures
        first_repeated(texts) is Some,
    decreases k,
{
    if exists|h: int| 0 <= h < k && is_repeated(texts, h) {
        let h = choose|h: int| 0 <= h < k && is_repeated(texts, h);
        lemma_first_repeated_exists(texts, h);
    } else {
        assert(is_first_repeated(texts, k));
    }
}

/// Finds the first text that stands at an earlier place too. The search
/// sorts the texts; it does not hold each against each.
pub fn find_first_repeated(keys: &Vec<Vec<char>>) -> (r: Option<usize>)
    ensures
        match r {
            Some(k) => first_repeated(views(keys@)) == Some(k as int) && k < keys.len(),
            None => first_repeated(views(keys@)) is None,
        },
{
    let ghost texts = views(keys@);
    let order = sorted_places(keys);
    let mut best: Option<usize> = None;
    let mut a: usize = 0;
    while a < order.len() && a + 1 < order.len()
        invariant
            a <= order.len(),
            texts == views(keys@),
            names_keys(order@, keys.len() as nat),
            ascending_keys(texts, order@),
            match best {
                Some(k) => k < keys.len() && is_repeated(texts, k as int),
                None => true,
            },
            forall|x: int|
                0 <= x < a && x + 1 < order.len() && texts[#[trigger] order[x] as int]
                    == texts[order[x + 1] as int] ==> best is Some && best->0 <= order[x + 1],
        decreases order.len() - a,
    {
        let low = order[a];
        let high = order[a + 1];
        if crate::text::same_chars(keys[low].as_slice(), keys[high].as_slice()) {
            proof {
                lemma_precedes_irreflexive(texts[low as int]);
                assert(key_before(texts, low as int, high as int));
                assert(texts[low as int] == texts[high as int]);
                assert(is_repeated(texts, high as int));
            }
            best = match best {
                Some(k) => if high < k {
                    Some(high)
                } else {
                    Some(k)
                },
                None => Some(high),
            };
        }
        a += 1;
    }
    proof {
        // A text that stands at an earlier place too stands right after a
        // text like it in the sorted order, so the scan has met it.
        assert forall|k: int| is_repeated(texts, k) implies best is Some && best->0 <= k by {
            let j = choose|j: int| 0 <= j < k && #[trigger] texts[j] == texts[k];
            assert(order@.contains(j as usize));
            assert(order@.contains(k as usize));
            let x = choose|x: int| 0 <= x < order.len() && order[x] == j as usize;
            let y = choose|y: int| 0 <= y < order.len() && order[y] == k as usize;
            lemma_precedes_irreflexive(texts[k]);
            assert(key_before(texts, j, k));
            if y < x {
                assert(key_before(texts, order[y] as int, order[x] as int));
            }
            assert(x < y);
            let before = order[y - 1] as int;
            assert(texts[order[y - 1] as int] == texts[order[(y - 1) + 1] as int]) by {
                if x < y - 1 {
                    assert(key_before(texts, order[x] as int, order[y - 1] as int));
                }
                assert(key_before(texts, order[y - 1] as int, order[y] as int));
                if precedes(texts[j], texts[before]) && precedes(texts[before], texts[k]) {
                    lemma_precedes_transitive(texts[j], texts[before], texts[k]);
                }
            }
        }
        match best {
            Some(k) => {
                assert(is_first_repeated(texts, k as int));
                assert forall|h: int| is_first_repeated(texts, h) implies h == k by {}
            },
            None => {},
        }
    }
    best
}

/// A list of texts, sorted once so that a text is found in it by
/// bisection.
pub struct SortedTexts {
    keys: Vec<Vec<char>>,
    order: Vec<usize>,
}

impl SortedTexts {
    #[verifier::type_invariant]
    spec fn well_formed(self) -> bool {
        &&& names_keys(self.order@, self.keys.len() as nat)
        &&& names_all(self.order@, self.keys.len() as nat)
        &&& in_order(views(self.keys@), self.order@)
    }

    /// The texts of the list.
    pub closed spec fn texts(&self) -> Seq<Seq<char>> {
        views(self.keys@)
    }

    /// Sorts `keys` for lookup.
    pub fn new(keys: Vec<Vec<char>>) -> (r: SortedTexts)
        ensures
            r.texts() == views(keys@),
    {
        let order = sorted_places(&keys);
        SortedTexts { keys, order }
    }

    /// Tells whether the list holds `text`.
    pub fn holds(&self, text: &[char]) -> (r: bool)
        ensures
            r == self.texts().contains(text@),
    {
        proof {
            use_type_invariant(self);
        }
        let ghost texts = views(self.keys@);
        let mut low: usize = 0;
        let mut high: usize = self.order.len();
        while low < high
            invariant
                low <= high <= self.order.len(),
                texts == views(self.keys@),
                names_keys(self.order@, self.keys.len() as nat),
                in_order(texts, self.order@),
                forall|a: int|
                    0 <= a < low ==> precedes(texts[#[trigger] self.order[a] as int], text@),
                forall|a: int|
                    high <= a < self.order.len() ==> !precedes(
                        texts[#[trigger] self.order[a] as int],
                        text@,
                    ),
            decreases high - low,
        {
            let middle = low + (high - low) / 2;
            let ghost pivot = texts[self.order[middle as int] as int];
            if stands_before(self.keys[self.order[middle]].as_slice(), text) {
                assert forall|a: int| 0 <= a < middle + 1 implies precedes(
                    texts[#[trigger] self.order[a] as int],
                    text@,
                ) by {
                    let key = texts[self.order[a] as int];
                    if a < middle && !precedes(key, text@) {
                        // `text` does not stand after `key`, which does not
                        // stand after the pivot.
                        lemma_not_before_transitive(text@, key, pivot);
                    }
                }
                low = middle + 1;
            } else {
                assert forall|a: int| middle <= a < self.order.len() implies !precedes(
                    texts[#[trigger] self.order[a] as int],
                    text@,
                ) by {
                    let key = texts[self.order[a] as int];
                    if a > middle {
                        lemma_not_before_transitive(text@, pivot, key);
                    }
                }
                high = middle;
            }
        }
        let at = low;
        if at < self.order.len() && crate::text::same_chars(
            self.keys[self.order[at]].as_slice(),
            text,
        ) {
            assert(texts[self.order[at as int] as int] == text@);
            return true;
        }
        assert forall|i: int| 0 <= i < texts.len() implies texts[i] != text@ by {
            if texts[i] == text@ {
                assert(self.order@.contains(i as usize));
                let a = choose|a: int| 0 <= a < self.order.len() && self.order[a] == i as usize;
                lemma_precedes_irreflexive(text@);
                if a > at {
                    let key = texts[self.order[at as int] as int];
                    lemma_precedes_total(key, text@);
                }
            }
        }
        false
    }
}

/// Whether place `p` comes before place `q` where places are sorted by the
/// numbers that they have, and a place with the same number as another
/// stays before it if it was before it.
pub open spec fn comes_before(numbers: Seq<u32>, p: int, q: int) -> bool {
    numbers[p] < numbers[q] || (numbers[p] == numbers[q] && p < q)
}

/// Whether the places that `order` names stand sorted by their numbers,
/// those with the same number in the order of the places.
pub open spec fn ascending_numbers(numbers: Seq<u32>, order: Seq<usize>) -> bool {
    forall|a: int, b: int|
        0 <= a < b < order.len() ==> comes_before(
            numbers,
            #[trigger] order[a] as int,
            #[trigger] order[b] as int,
        )
}

/// Merges two runs of places that are sorted by their numbers into one.
fn merge_numbers(numbers: &Vec<u32>, left: &Vec<usize>, right: &Vec<usize>) -> (r: Vec<usize>)
    requires
        names_keys(left@, numbers.len() as nat),
        names_keys(right@, numbers.len() as nat),
        ascending_numbers(numbers@, left@),
        ascending_numbers(numbers@, right@),
        forall|i: int, j: int|
            0 <= i < left.len() && 0 <= j < right.len() ==> #[trigger] left[i]
                != #[trigger] right[j],
    ensures
        names_keys(r@, numbers.len() as nat),
        ascending_numbers(numbers@, r@),
        r@.to_multiset() == left@.to_multiset().add(right@.to_multiset()),
        r.len() == left.len() + right.len(),
{
    let mut out: Vec<usize> = Vec::new();
    let mut i: usize = 0;
    let mut j: usize = 0;
    assert(left@.take(0) =~= Seq::empty());
    assert(right@.take(0) =~= Seq::empty());
    proof {
        out@.to_multiset_ensures();
        vstd::multiset::lemma_multiset_empty_len(out@.to_multiset());
    }
    assert(out@.to_multiset() =~= left@.take(0).to_multiset().add(right@.take(0).to_multiset()));
    while i < left.len() || j < right.len()
        invariant
            i <= left.len(),
            j <= right.len(),
            names_keys(left@, numbers.len() as nat),
            names_keys(right@, numbers.len() as nat),
            ascending_numbers(numbers@, left@),
            ascending_numbers(numbers@, right@),
            forall|x: int, y: int|
                0 <= x < left.len() && 0 <= y < right.len() ==> #[trigger] left[x]
                    != #[trigger] right[y],
            names_keys(out@, numbers.len() as nat),
            ascending_numbers(numbers@, out@),
            out.len() == i + j,
            out@.to_multiset() == left@.take(i as int).to_multiset().add(
                right@.take(j as int).to_multiset(),
            ),
            forall|a: int, b: int|
                0 <= a < out.len() && i <= b < left.len() ==> comes_before(
                    numbers@,
                    #[trigger] out[a] as int,
                    #[trigger] left[b] as int,
                ),
            forall|a: int, b: int|
                0 <= a < out.len() && j <= b < right.len() ==> comes_before(
                    numbers@,
                    #[trigger] out[a] as int,
                    #[trigger] right[b] as int,
                ),
        decreases left.len() - i + right.len() - j,
    {
        let take_left = if i == left.len() {
            false
        } else if j == right.len() {
            true
        } else {
            let p = left[i];
            let q = right[j];
            numbers[p] < numbers[q] || (numbers[p] == numbers[q] && p < q)
        };
        if take_left {
            let x = left[i];
            proof {
                to_multiset_build(out@, x);
                to_multiset_build(left@.take(i as int), x);
                assert(left@.take(i + 1) =~= left@.take(i as int).push(x));
            }
            out.push(x);
            i += 1;
            assert(out@.to_multiset() =~= left@.take(i as int).to_multiset().add(
                right@.take(j as int).to_multiset(),
            ));
        } else {
            let y = right[j];
            proof {
                to_multiset_build(out@, y);
                to_multiset_build(right@.take(j as int), y);
                assert(right@.take(j + 1) =~= right@.take(j as int).push(y));
            }
            out.push(y);
            j += 1;
            assert(out@.to_multiset() =~= left@.take(i as int).to_multiset().add(
                right@.take(j as int).to_multiset(),
            ));
        }
    }
    assert(left@.take(left.len() as int) =~= left@);
    assert(right@.take(right.len() as int) =~= right@);
    out
}

/// Sorts places by the numbers that they have. A place with the same
/// number as another stays before it if its place is the lower one.
fn sort_by_number(numbers: &Vec<u32>, items: Vec<usize>) -> (r: Vec<usize>)
    requires
        names_keys(items@, numbers.len() as nat),
        items@.no_duplicates(),
    ensures
        names_keys(r@, numbers.len() as nat),
        ascending_numbers(numbers@, r@),
        r@.to_multiset() == items@.to_multiset(),
        r.len() == items.len(),
    decreases items.len(),
{
    if items.len() <= 1 {
        return items;
    }
    let half = items.len() / 2;
    let mut left: Vec<usize> = Vec::new();
    let mut right: Vec<usize> = Vec::new();
    let mut k: usize = 0;
    assert(items@.subrange(0, 0) =~= Seq::empty());
    while k < half
        invariant
            k <= half <= items.len(),
            left@ == items@.subrange(0, k as int),
        decreases half - k,
    {
        left.push(items[k]);
        k += 1;
        assert(left@ =~= items@.subrange(0, k as int));
    }
    assert(items@.subrange(half as int, half as int) =~= Seq::empty());
    while k < items.len()
        invariant
            half <= k <= items.len(),
            right@ == items@.subrange(half as int, k as int),
        decreases items.len() - k,
    {
        right.push(items[k]);
        k += 1;
        assert(right@ =~= items@.subrange(half as int, k as int));
    }
    proof {
        assert(items@ =~= left@ + right@);
        vstd::seq_lib::lemma_multiset_commutative(left@, right@);
    }
    let sorted_left = sort_by_number(numbers, left);
    let sorted_right = sort_by_number(numbers, right);
    proof {
        lemma_halves_apart(items@, half as int, left@, right@, sorted_left@, sorted_right@);
    }
    merge_numbers(numbers, &sorted_left, &sorted_right)
}

/// The places of the numbers, sorted by the numbers; places with the same
/// number stand in the order of the places. Each place stands in it once.
pub fn sorted_places_by_number(numbers: &Vec<u32>) -> (order: Vec<usize>)
    ensures
        names_keys(order@, numbers.len() as nat),
        names_all(order@, numbers.len() as nat),
        ascending_numbers(numbers@, order@),
        order@.no_duplicates(),
        order.len() == numbers.len(),
{
    let start = count_up(numbers.len());
    assert(start@.no_duplicates());
    let order = sort_by_number(numbers, start);
    proof {
        start@.lemma_multiset_has_no_duplicates();
        order@.lemma_multiset_has_no_duplicates_conv();
        start@.to_multiset_ensures();
        order@.to_multiset_ensures();
        assert forall|i: int| 0 <= i < numbers.len() implies order@.contains(
            #[trigger] (i as usize),
        ) by {
            assert(start@[i] == i as usize);
            assert(start@.contains(i as usize));
            assert(start@.to_multiset().count(i as usize) > 0);
            assert(order@.to_multiset().count(i as usize) > 0);
        }
    }
    order
}

} // verus!
