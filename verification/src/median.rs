//! The median of a sequence of numbers, and the sort that finds it.

use vstd::prelude::*;
use vstd::seq_lib::{group_to_multiset_ensures, lemma_sorted_unique};

verus! {

/// The order in which numbers are sorted: ascending.
pub open spec fn ascending_order() -> spec_fn(int, int) -> bool {
    |a: int, b: int| a <= b
}

/// The lower median of `values`: of the values in ascending order, the one
/// in the middle, or the earlier of the two in the middle where their
/// number is even. Meaningful where there is a value at all.
pub open spec fn median(values: Seq<int>) -> int {
    values.sort_by(ascending_order())[(values.len() - 1) / 2]
}

/// The lower median is one of the values and stands in their middle: in
/// ascending order no value up to the middle is greater than it, and none
/// from the middle on is less. Of an even number of values the middle is
/// the earlier of the two places nearest to it.
pub proof fn lemma_median_is_in_the_middle(values: Seq<int>)
    requires
        values.len() > 0,
    ensures
        values.contains(median(values)),
        values.sort_by(ascending_order()).len() == values.len(),
        forall|i: int|
            0 <= i <= (values.len() - 1) / 2 ==> #[trigger] values.sort_by(ascending_order())[i]
                <= median(values),
        forall|i: int|
            (values.len() - 1) / 2 <= i < values.len() ==> median(values)
                <= #[trigger] values.sort_by(ascending_order())[i],
{
    broadcast use group_to_multiset_ensures;

    let sorted = values.sort_by(ascending_order());
    values.lemma_sort_by_ensures(ascending_order());
    assert(values.len() == values.to_multiset().len());
    assert(sorted.len() == sorted.to_multiset().len());
    let middle = (values.len() - 1) / 2;
    assert(sorted.contains(sorted[middle]));
    assert forall|i: int| 0 <= i <= middle implies #[trigger] sorted[i] <= sorted[middle] by {
        if i < middle {
            assert(ascending_order()(sorted[i], sorted[middle]));
        }
    }
    assert forall|i: int| middle <= i < values.len() implies sorted[middle]
        <= #[trigger] sorted[i] by {
        if middle < i {
            assert(ascending_order()(sorted[middle], sorted[i]));
        }
    }
}

/// The numbers of `values` as integers.
pub open spec fn as_ints(values: Seq<u64>) -> Seq<int> {
    values.map_values(|v: u64| v as int)
}

/// The lower median of `values`, where they hold a value at all.
pub fn median_of(values: Vec<u64>) -> (middle: Option<u64>)
    ensures
        values.len() == 0 ==> middle is None,
        values.len() > 0 ==> middle is Some && middle->0 == median(as_ints(values@)),
{
    if values.len() == 0 {
        return None;
    }
    let mut sorted = values;
    sort_ascending(&mut sorted);
    proof {
        lemma_same_values_as_ints(sorted@, values@);
        let found = as_ints(sorted@);
        let wanted = as_ints(values@).sort_by(ascending_order());
        as_ints(values@).lemma_sort_by_ensures(ascending_order());
        lemma_sorted_unique(found, wanted, ascending_order());
        values@.to_multiset_ensures();
        sorted@.to_multiset_ensures();
    }
    let middle = (sorted.len() - 1) / 2;
    Some(sorted[middle])
}

/// Two sequences that hold the same numbers as often hold the same
/// integers as often.
proof fn lemma_same_values_as_ints(s: Seq<u64>, t: Seq<u64>)
    requires
        s.to_multiset() == t.to_multiset(),
    ensures
        as_ints(s).to_multiset() == as_ints(t).to_multiset(),
    decreases s.len(),
{
    broadcast use group_to_multiset_ensures;

    assert(s.len() == s.to_multiset().len() && t.len() == t.to_multiset().len());
    if s.len() > 0 {
        // Take the last number out of both, wherever the other holds it.
        let last = s.last();
        assert(t.to_multiset().count(last) > 0);
        let at = t.index_of(last);
        let s_rest = s.drop_last();
        let t_rest = t.remove(at);
        assert(s_rest =~= s.remove(s.len() - 1));
        lemma_same_values_as_ints(s_rest, t_rest);
        assert(as_ints(s) =~= as_ints(s_rest).push(last as int));
        assert(as_ints(t_rest) =~= as_ints(t).remove(at));
        assert(as_ints(t_rest).to_multiset() =~= as_ints(t).to_multiset().remove(last as int));
    }
}

/// Sorts `values` with `slice::sort`: afterwards no value is greater than
/// one that follows it, and each value is there as often as it was.
#[verifier::external_body]
fn sort_ascending(values: &mut Vec<u64>)
    ensures
        final(values)@.to_multiset() == old(values)@.to_multiset(),
        forall|i: int, j: int|
            0 <= i <= j < final(values)@.len() ==> final(values)@[i] <= final(values)@[j],
{
    values.sort();
}

} // verus!
