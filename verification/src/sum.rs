use vstd::prelude::*;

verus! {

/// Mathematical sum of a sequence of token amounts.
pub open spec fn sum_amounts(s: Seq<u128>) -> int
    decreases s.len(),
{
    if s.len() == 0 {
        0
    } else {
        sum_amounts(s.drop_last()) + s.last()
    }
}

/// A sum of unsigned amounts is never negative.
pub proof fn lemma_sum_nonneg(s: Seq<u128>)
    ensures
        sum_amounts(s) >= 0,
    decreases s.len(),
{
    if s.len() > 0 {
        lemma_sum_nonneg(s.drop_last());
    }
}

/// Appending an amount adds exactly that amount to the sum.
pub proof fn lemma_sum_push(s: Seq<u128>, x: u128)
    ensures
        sum_amounts(s.push(x)) == sum_amounts(s) + x,
{
    assert(s.push(x).drop_last() =~= s);
}

/// Every element is bounded by the sum of the whole sequence.
pub proof fn lemma_sum_bounds_element(s: Seq<u128>, i: int)
    requires
        0 <= i < s.len(),
    ensures
        s[i] <= sum_amounts(s),
    decreases s.len(),
{
    if i == s.len() - 1 {
        lemma_sum_nonneg(s.drop_last());
    } else {
        lemma_sum_bounds_element(s.drop_last(), i);
        assert(s.drop_last()[i] == s[i]);
    }
}

/// Replacing the element at `i` by zero subtracts exactly that element.
pub proof fn lemma_sum_update_zero(s: Seq<u128>, i: int)
    requires
        0 <= i < s.len(),
    ensures
        sum_amounts(s.update(i, 0u128)) == sum_amounts(s) - s[i],
    decreases s.len(),
{
    let t = s.update(i, 0u128);
    if i == s.len() - 1 {
        assert(t.drop_last() =~= s.drop_last());
    } else {
        assert(t.drop_last() =~= s.drop_last().update(i, 0u128));
        lemma_sum_update_zero(s.drop_last(), i);
        assert(t.last() == s.last());
    }
}

/// Mathematical sum of the amounts in a sequence of rollback details.
pub open spec fn sum_details(s: Seq<(u32, u128)>) -> int
    decreases s.len(),
{
    if s.len() == 0 {
        0
    } else {
        sum_details(s.drop_last()) + s.last().1
    }
}

/// A sum of detail amounts is never negative.
pub proof fn lemma_sum_details_nonneg(s: Seq<(u32, u128)>)
    ensures
        sum_details(s) >= 0,
    decreases s.len(),
{
    if s.len() > 0 {
        lemma_sum_details_nonneg(s.drop_last());
    }
}

/// Appending a detail adds exactly its amount to the sum.
pub proof fn lemma_sum_details_push(s: Seq<(u32, u128)>, x: (u32, u128))
    ensures
        sum_details(s.push(x)) == sum_details(s) + x.1,
{
    assert(s.push(x).drop_last() =~= s);
}

pub proof fn lemma_sum_details_take_step(s: Seq<(u32, u128)>, k: int)
    requires
        0 <= k < s.len(),
    ensures
        sum_details(s.take(k + 1)) == sum_details(s.take(k)) + s[k].1,
{
    assert(s.take(k + 1).drop_last() =~= s.take(k));
}

/// A prefix sum of details never exceeds the sum of the whole sequence.
pub proof fn lemma_sum_details_prefix_le(s: Seq<(u32, u128)>, k: int)
    requires
        0 <= k <= s.len(),
    ensures
        sum_details(s.take(k)) <= sum_details(s),
    decreases s.len() - k,
{
    if k == s.len() {
        assert(s.take(k) =~= s);
    } else {
        lemma_sum_details_take_step(s, k);
        lemma_sum_details_prefix_le(s, k + 1);
    }
}

} // verus!
