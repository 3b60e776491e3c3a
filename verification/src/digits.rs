//! Rules about sequences of digits: the range a digit lies in and the
//! absence of repeated digits. `0` stands for an empty cell and may repeat.

use std::collections::HashSet;
use vstd::prelude::*;

verus! {

/// Every element is a digit: it lies in `0..=9`.
pub open spec fn digits_in_range(s: Seq<u8>) -> bool {
    forall|i: int| 0 <= i < s.len() ==> #[trigger] s[i] <= 9
}

/// Every element lies in `0..=9`.
pub open spec fn input_in_range(s: Seq<i32>) -> bool {
    forall|i: int| 0 <= i < s.len() ==> 0 <= #[trigger] s[i] <= 9
}

/// No digit other than `0` occurs at two places.
pub open spec fn no_repeats(s: Seq<u8>) -> bool {
    forall|i: int, j: int| 0 <= i < j < s.len() && s[i] != 0 ==> #[trigger] s[i] != #[trigger] s[j]
}

/// Tells whether every element is a digit.
pub fn all_digits(items: &[u8]) -> (ok: bool)
    ensures
        ok == digits_in_range(items@),
{
    let mut idx: usize = 0;
    while idx < items.len()
        invariant
            idx <= items.len(),
            digits_in_range(items@.take(idx as int)),
        decreases items.len() - idx,
    {
        if items[idx] > 9 {
            return false;
        }
        idx += 1;
    }
    assert(items@.take(idx as int) == items@);
    true
}

/// Tells whether no digit other than `0` occurs twice.
pub fn all_distinct(items: &[u8]) -> (ok: bool)
    ensures
        ok == no_repeats(items@),
{
    broadcast use vstd::std_specs::hash::group_hash_axioms;

    let mut seen: HashSet<u8> = HashSet::new();
    let mut idx: usize = 0;
    while idx < items.len()
        invariant
            idx <= items.len(),
            no_repeats(items@.take(idx as int)),
            forall|d: u8|
                seen@.contains(d) <==> d != 0 && exists|i: int|
                    0 <= i < idx && #[trigger] items@[i] == d,
        decreases items.len() - idx,
    {
        let item = items[idx];
        if item != 0 {
            let fresh = seen.insert(item);
            if !fresh {
                let ghost first = choose|i: int| 0 <= i < idx && #[trigger] items@[i] == item;
                assert(items@[first] == items@[idx as int]);
                return false;
            }
        }
        assert forall|i: int, j: int|
            0 <= i < j < idx + 1 && items@.take(idx + 1)[i] != 0 implies #[trigger] items@.take(
            idx + 1,
        )[i] != #[trigger] items@.take(idx + 1)[j] by {
            if j < idx {
                assert(items@.take(idx as int)[i] != items@.take(idx as int)[j]);
            }
        }
        idx += 1;
    }
    assert(items@.take(idx as int) == items@);
    true
}

} // verus!
