use vstd::prelude::*;

use crate::sum::{lemma_sum_bounds_element, lemma_sum_nonneg, lemma_sum_push, lemma_sum_update_zero, sum_amounts};
use crate::types::{AccrualIndex, Duration, TokensAmount, UnixTimestamp, spec_is_within_period};

verus! {

/// One accrual bucket: the append-only list of recorded amounts together with
/// the running total of the amounts that are still active. Zeroed amounts stay
/// in place so that the position of every other amount is stable.
pub struct Bucket {
    pub amounts: Vec<TokensAmount>,
    pub total: TokensAmount,
}

impl Bucket {
    /// The bucket invariant: the running total always equals the sum of the
    /// stored amounts, and positions fit an accrual index.
    pub open spec fn wf(self) -> bool {
        &&& self.total == sum_amounts(self.amounts@)
        &&& self.amounts@.len() <= u32::MAX
    }
}

/// The buckets of one asset, keyed by recording timestamp.
pub struct BucketMap {
    pub entries: Vec<(UnixTimestamp, Bucket)>,
}

impl BucketMap {
    pub open spec fn keys_unique(self) -> bool {
        forall|i: int, j: int|
            0 <= i < j < self.entries@.len() ==> (#[trigger] self.entries@[i]).0 != (
            #[trigger] self.entries@[j]).0
    }

    /// Every bucket satisfies its invariant and timestamps are unique keys.
    pub open spec fn wf(self) -> bool {
        &&& self.keys_unique()
        &&& forall|i: int| 0 <= i < self.entries@.len() ==> (#[trigger] self.entries@[i]).1.wf()
    }

    pub open spec fn spec_has(self, t: UnixTimestamp) -> bool {
        exists|i: int| 0 <= i < self.entries@.len() && (#[trigger] self.entries@[i]).0 == t
    }

    pub open spec fn spec_index_of(self, t: UnixTimestamp) -> int {
        choose|i: int| 0 <= i < self.entries@.len() && (#[trigger] self.entries@[i]).0 == t
    }

    /// The bucket stored under `t`; meaningful only when `spec_has(t)`.
    pub open spec fn spec_bucket(self, t: UnixTimestamp) -> Bucket {
        self.entries@[self.spec_index_of(t)].1
    }

    /// The amount a reference `(t, i)` points at, if the bucket and the
    /// position both exist.
    pub open spec fn spec_amount(self, t: UnixTimestamp, i: AccrualIndex) -> Option<TokensAmount> {
        if self.spec_has(t) && i < self.spec_bucket(t).amounts@.len() {
            Some(self.spec_bucket(t).amounts@[i as int])
        } else {
            None
        }
    }

    /// Sum of the running totals of all buckets in `s`.
    pub open spec fn seq_total(s: Seq<(UnixTimestamp, Bucket)>) -> int
        decreases s.len(),
    {
        if s.len() == 0 {
            0
        } else {
            Self::seq_total(s.drop_last()) + s.last().1.total
        }
    }

    /// Sum of the running totals of all buckets of this asset.
    pub open spec fn map_total(self) -> int {
        Self::seq_total(self.entries@)
    }

    /// All bucket timestamps lie in the past of `now`.
    pub open spec fn times_le(self, now: UnixTimestamp) -> bool {
        forall|i: int| 0 <= i < self.entries@.len() ==> (#[trigger] self.entries@[i]).0 <= now
    }

    /// With unique keys, the entry at position `j` is the one `spec_bucket`
    /// selects for its key.
    pub proof fn lemma_entry(self, j: int)
        requires
            self.keys_unique(),
            0 <= j < self.entries@.len(),
        ensures
            self.spec_has(self.entries@[j].0),
            self.spec_index_of(self.entries@[j].0) == j,
            self.spec_bucket(self.entries@[j].0) == self.entries@[j].1,
    {
        let t = self.entries@[j].0;
        assert(self.spec_has(t));
        let i = self.spec_index_of(t);
        assert(0 <= i < self.entries@.len() && self.entries@[i].0 == t);
        if i < j {
            assert(self.entries@[i].0 != self.entries@[j].0);
        } else if j < i {
            assert(self.entries@[j].0 != self.entries@[i].0);
        }
    }

    proof fn lemma_seq_total_nonneg(s: Seq<(UnixTimestamp, Bucket)>)
        ensures
            Self::seq_total(s) >= 0,
        decreases s.len(),
    {
        if s.len() > 0 {
            Self::lemma_seq_total_nonneg(s.drop_last());
        }
    }

    /// The total over the whole map is never negative.
    pub proof fn lemma_map_total_nonneg(self)
        ensures
            self.map_total() >= 0,
    {
        Self::lemma_seq_total_nonneg(self.entries@);
    }

    /// Every bucket's total is bounded by the total over the whole map.
    pub proof fn lemma_total_bounds_entry(s: Seq<(UnixTimestamp, Bucket)>, j: int)
        requires
            0 <= j < s.len(),
        ensures
            s[j].1.total <= Self::seq_total(s),
        decreases s.len(),
    {
        if j == s.len() - 1 {
            Self::lemma_seq_total_nonneg(s.drop_last());
        } else {
            Self::lemma_total_bounds_entry(s.drop_last(), j);
        }
    }

    /// Updating the bucket at `j` shifts the map total by the difference of
    /// the totals.
    pub proof fn lemma_seq_total_update(s: Seq<(UnixTimestamp, Bucket)>, j: int, e: (UnixTimestamp, Bucket))
        requires
            0 <= j < s.len(),
        ensures
            Self::seq_total(s.update(j, e)) == Self::seq_total(s) - s[j].1.total + e.1.total,
        decreases s.len(),
    {
        let t = s.update(j, e);
        if j == s.len() - 1 {
            assert(t.drop_last() =~= s.drop_last());
        } else {
            assert(t.drop_last() =~= s.drop_last().update(j, e));
            Self::lemma_seq_total_update(s.drop_last(), j, e);
            assert(t.last() == s.last());
        }
    }

    /// Removing the entry at `j` subtracts its total from the map total.
    pub proof fn lemma_seq_total_remove(s: Seq<(UnixTimestamp, Bucket)>, j: int)
        requires
            0 <= j < s.len(),
        ensures
            Self::seq_total(s.remove(j)) == Self::seq_total(s) - s[j].1.total,
        decreases s.len(),
    {
        let t = s.remove(j);
        if j == s.len() - 1 {
            assert(t =~= s.drop_last());
        } else {
            assert(t.drop_last() =~= s.drop_last().remove(j));
            Self::lemma_seq_total_remove(s.drop_last(), j);
            assert(t.last() == s.last());
        }
    }

    /// Position of the entry with key `t`, if one exists.
    pub fn find(&self, t: UnixTimestamp) -> (r: Option<usize>)
        ensures
            match r {
                Some(j) => j < self.entries@.len() && self.entries@[j as int].0 == t,
                None => !self.spec_has(t),
            },
    {
        let n = self.entries.len();
        let mut k: usize = 0;
        while k < n
            invariant
                n == self.entries@.len(),
                k <= n,
                forall|i: int| 0 <= i < k ==> (#[trigger] self.entries@[i]).0 != t,
            decreases n - k,
        {
            if self.entries[k].0 == t {
                return Some(k);
            }
            k = k + 1;
        }
        None
    }

    /// Read-only lookup of the amount a reference points at.
    pub fn amount_of(&self, t: UnixTimestamp, i: AccrualIndex) -> (r: Option<TokensAmount>)
        requires
            self.wf(),
        ensures
            r == self.spec_amount(t, i),
    {
        match self.find(t) {
            Some(j) => {
                proof {
                    self.lemma_entry(j as int);
                }
                let bucket = &self.entries[j].1;
                if (i as usize) < bucket.amounts.len() {
                    Some(bucket.amounts[i as usize])
                } else {
                    None
                }
            },
            None => None,
        }
    }

    /// Appends `amount` to the bucket at `t`, creating the bucket if absent,
    /// and returns the position the amount was stored at.
    pub fn push_amount(&mut self, t: UnixTimestamp, amount: TokensAmount) -> (idx: AccrualIndex)
        requires
            old(self).wf(),
            old(self).spec_has(t) ==> old(self).spec_bucket(t).total + amount <= u128::MAX,
            old(self).spec_has(t) ==> old(self).spec_bucket(t).amounts@.len() < u32::MAX,
        ensures
            final(self).wf(),
            forall|u: UnixTimestamp|
                #[trigger] final(self).spec_has(u) == (old(self).spec_has(u) || u == t),
            forall|u: UnixTimestamp|
                u != t && old(self).spec_has(u) ==> #[trigger] final(self).spec_bucket(u) == old(
                self).spec_bucket(u),
            final(self).spec_bucket(t).amounts@ == (if old(self).spec_has(t) {
                old(self).spec_bucket(t).amounts@
            } else {
                Seq::<TokensAmount>::empty()
            }).push(amount),
            final(self).spec_bucket(t).total == (if old(self).spec_has(t) {
                old(self).spec_bucket(t).total as int
            } else {
                0int
            }) + amount,
            idx == (if old(self).spec_has(t) {
                old(self).spec_bucket(t).amounts@.len() as int
            } else {
                0int
            }),
            final(self).spec_amount(t, idx) == Some(amount),
            forall|u: UnixTimestamp, i: AccrualIndex|
                !(u == t && i == idx) ==> #[trigger] final(self).spec_amount(u, i) == old(
                self).spec_amount(u, i),
            final(self).map_total() == old(self).map_total() + amount,
            forall|n: UnixTimestamp|
                old(self).times_le(n) && t <= n ==> #[trigger] final(self).times_le(n),
    {
        match self.find(t) {
            Some(j) => {
                proof {
                    old(self).lemma_entry(j as int);
                    lemma_sum_nonneg(old(self).entries@[j as int].1.amounts@.drop_last());
                }
                let ghost old_bucket = self.entries@[j as int].1;
                let bucket = &mut self.entries[j].1;
                let idx32: AccrualIndex = bucket.amounts.len() as AccrualIndex;
                proof {
                    lemma_sum_push(old_bucket.amounts@, amount);
                }
                bucket.amounts.push(amount);
                bucket.total = bucket.total + amount;
                proof {
                    let s_old = old(self).entries@;
                    let s_new = self.entries@;
                    assert(s_new =~= s_old.update(j as int, (t, self.entries@[j as int].1)));
                    Self::lemma_seq_total_update(s_old, j as int, s_new[j as int]);
                    assert forall|i: int| 0 <= i < s_new.len() implies (#[trigger] s_new[i]).1.wf() by {
                        if i != j {
                            assert(s_new[i] == s_old[i]);
                        }
                    }
                    self.lemma_entry(j as int);
                    assert forall|u: UnixTimestamp| u != t && old(self).spec_has(u) implies #[trigger] self
                        .spec_bucket(u) == old(self).spec_bucket(u) by {
                        let i = old(self).spec_index_of(u);
                        assert(s_old[i].0 == u);
                        assert(s_new[i] == s_old[i]);
                        self.lemma_entry(i);
                    };
                    assert forall|u: UnixTimestamp| #[trigger] self.spec_has(u) == (old(self).spec_has(u)
                        || u == t) by {
                        if self.spec_has(u) {
                            let i = self.spec_index_of(u);
                            if i != j {
                                assert(s_old[i].0 == u);
                            }
                        }
                        if old(self).spec_has(u) {
                            let i = old(self).spec_index_of(u);
                            assert(s_new[i].0 == u);
                        }
                    };
                }
                idx32
            },
            None => {
                let mut amounts: Vec<TokensAmount> = Vec::new();
                amounts.push(amount);
                let bucket = Bucket { amounts, total: amount };
                proof {
                    assert(bucket.amounts@ =~= Seq::<TokensAmount>::empty().push(amount));
                    assert(sum_amounts(bucket.amounts@.drop_last()) == 0);
                }
                self.entries.push((t, bucket));
                proof {
                    let s_old = old(self).entries@;
                    let s_new = self.entries@;
                    let j = s_new.len() - 1;
                    assert(s_new.drop_last() =~= s_old);
                    assert forall|i: int, k: int| 0 <= i < k < s_new.len() implies (
                    #[trigger] s_new[i]).0 != (#[trigger] s_new[k]).0 by {
                        if k < j {
                            assert(s_new[i] == s_old[i] && s_new[k] == s_old[k]);
                        } else {
                            assert(s_new[i] == s_old[i]);
                            assert(!old(self).spec_has(t));
                        }
                    };
                    assert forall|i: int| 0 <= i < s_new.len() implies (#[trigger] s_new[i]).1.wf() by {
                        if i < j {
                            assert(s_new[i] == s_old[i]);
                        }
                    }
                    self.lemma_entry(j);
                    assert forall|u: UnixTimestamp| u != t && old(self).spec_has(u) implies #[trigger] self
                        .spec_bucket(u) == old(self).spec_bucket(u) by {
                        let i = old(self).spec_index_of(u);
                        assert(s_old[i].0 == u);
                        assert(s_new[i] == s_old[i]);
                        self.lemma_entry(i);
                    };
                    assert forall|u: UnixTimestamp| #[trigger] self.spec_has(u) == (old(self).spec_has(u)
                        || u == t) by {
                        if self.spec_has(u) {
                            let i = self.spec_index_of(u);
                            if i != j {
                                assert(s_old[i].0 == u);
                            }
                        }
                        if old(self).spec_has(u) {
                            let i = old(self).spec_index_of(u);
                            assert(s_new[i].0 == u);
                        }
                    };
                }
                0
            },
        }
    }

    /// Sets the amount a live reference points at to zero, decrements the
    /// bucket total by the previous value, and returns the previous value.
    /// A reference into a missing bucket or past the end of its amount list
    /// leaves the map untouched.
    pub fn zero_amount(&mut self, t: UnixTimestamp, i: AccrualIndex) -> (r: Option<TokensAmount>)
        requires
            old(self).wf(),
        ensures
            final(self).wf(),
            r == old(self).spec_amount(t, i),
            forall|u: UnixTimestamp| #[trigger] final(self).spec_has(u) == old(self).spec_has(u),
            forall|n: UnixTimestamp| old(self).times_le(n) ==> #[trigger] final(self).times_le(n),
            match r {
                Some(a) => {
                    &&& final(self).spec_bucket(t).amounts@ == old(self).spec_bucket(
                        t,
                    ).amounts@.update(i as int, 0u128)
                    &&& final(self).spec_bucket(t).total == old(self).spec_bucket(t).total - a
                    &&& forall|u: UnixTimestamp|
                        u != t && old(self).spec_has(u) ==> #[trigger] final(self).spec_bucket(u)
                            == old(self).spec_bucket(u)
                    &&& final(self).map_total() == old(self).map_total() - a
                },
                None => *final(self) == *old(self),
            },
    {
        match self.find(t) {
            Some(j) => {
                proof {
                    old(self).lemma_entry(j as int);
                }
                let ghost old_bucket = self.entries@[j as int].1;
                if (i as usize) < self.entries[j].1.amounts.len() {
                    let bucket = &mut self.entries[j].1;
                    let a = bucket.amounts[i as usize];
                    proof {
                        lemma_sum_update_zero(old_bucket.amounts@, i as int);
                        lemma_sum_bounds_element(old_bucket.amounts@, i as int);
                    }
                    bucket.amounts.set(i as usize, 0);
                    bucket.total = bucket.total - a;
                    proof {
                        let s_old = old(self).entries@;
                        let s_new = self.entries@;
                        assert(s_new =~= s_old.update(j as int, (t, self.entries@[j as int].1)));
                        Self::lemma_seq_total_update(s_old, j as int, s_new[j as int]);
                        assert forall|k: int| 0 <= k < s_new.len() implies (#[trigger] s_new[k]).1.wf() by {
                            if k != j {
                                assert(s_new[k] == s_old[k]);
                            }
                        }
                        self.lemma_entry(j as int);
                        assert forall|u: UnixTimestamp| u != t && old(self).spec_has(u) implies #[trigger] self
                            .spec_bucket(u) == old(self).spec_bucket(u) by {
                            let k = old(self).spec_index_of(u);
                            assert(s_old[k].0 == u);
                            assert(s_new[k] == s_old[k]);
                            self.lemma_entry(k);
                        };
                        assert forall|u: UnixTimestamp| #[trigger] self.spec_has(u) == old(self).spec_has(
                            u) by {
                            if self.spec_has(u) {
                                let k = self.spec_index_of(u);
                                if k != j {
                                    assert(s_old[k].0 == u);
                                }
                            }
                            if old(self).spec_has(u) {
                                let k = old(self).spec_index_of(u);
                                assert(s_new[k].0 == u);
                            }
                        };
                        assert forall|n: UnixTimestamp| old(self).times_le(n) implies #[trigger] final(self)
                            .times_le(n) by {
                            assert forall|k: int| 0 <= k < s_new.len() implies (
                            #[trigger] s_new[k]).0 <= n by {
                                if k != j {
                                    assert(s_new[k] == s_old[k]);
                                } else {
                                    assert(s_old[k].0 <= n);
                                }
                            };
                        };
                    }
                    Some(a)
                } else {
                    None
                }
            },
            None => None,
        }
    }

    /// Deletes the whole bucket stored under `t`, if any.
    pub fn remove_key(&mut self, t: UnixTimestamp)
        requires
            old(self).wf(),
        ensures
            final(self).wf(),
            !final(self).spec_has(t),
            forall|u: UnixTimestamp|
                u != t ==> #[trigger] final(self).spec_has(u) == old(self).spec_has(u),
            forall|u: UnixTimestamp|
                u != t && old(self).spec_has(u) ==> #[trigger] final(self).spec_bucket(u) == old(
                self).spec_bucket(u),
            final(self).map_total() == old(self).map_total() - (if old(self).spec_has(t) {
                old(self).spec_bucket(t).total as int
            } else {
                0int
            }),
            forall|n: UnixTimestamp| old(self).times_le(n) ==> #[trigger] final(self).times_le(n),
    {
        match self.find(t) {
            Some(j) => {
                proof {
                    old(self).lemma_entry(j as int);
                    Self::lemma_seq_total_remove(old(self).entries@, j as int);
                }
                self.entries.remove(j);
                proof {
                    let s_old = old(self).entries@;
                    let s_new = self.entries@;
                    assert(s_new =~= s_old.remove(j as int));
                    assert forall|i: int, k: int| 0 <= i < k < s_new.len() implies (
                    #[trigger] s_new[i]).0 != (#[trigger] s_new[k]).0 by {
                        let i0 = if i < j { i } else { i + 1 };
                        let k0 = if k < j { k } else { k + 1 };
                        assert(s_new[i] == s_old[i0] && s_new[k] == s_old[k0]);
                    };
                    assert forall|i: int| 0 <= i < s_new.len() implies (#[trigger] s_new[i]).1.wf() by {
                        let i0 = if i < j { i } else { i + 1 };
                        assert(s_new[i] == s_old[i0]);
                    };
                    assert(!self.spec_has(t)) by {
                        if self.spec_has(t) {
                            let k = self.spec_index_of(t);
                            let k0 = if k < j { k } else { k + 1 };
                            assert(s_new[k] == s_old[k0]);
                            old(self).lemma_entry(k0);
                        }
                    };
                    assert forall|u: UnixTimestamp| u != t implies #[trigger] self.spec_has(u) == old(
                        self).spec_has(u) by {
                        if self.spec_has(u) {
                            let k = self.spec_index_of(u);
                            let k0 = if k < j { k } else { k + 1 };
                            assert(s_new[k] == s_old[k0]);
                        }
                        if old(self).spec_has(u) {
                            let k0 = old(self).spec_index_of(u);
                            assert(s_old[k0].0 == u);
                            let k = if k0 < j { k0 } else { k0 - 1 };
                            assert(s_new[k] == s_old[k0]);
                        }
                    };
                    assert forall|u: UnixTimestamp| u != t && old(self).spec_has(u) implies #[trigger] self
                        .spec_bucket(u) == old(self).spec_bucket(u) by {
                        let k0 = old(self).spec_index_of(u);
                        assert(s_old[k0].0 == u);
                        let k = if k0 < j { k0 } else { k0 - 1 };
                        assert(s_new[k] == s_old[k0]);
                        self.lemma_entry(k);
                    };
                    assert forall|n: UnixTimestamp| old(self).times_le(n) implies #[trigger] self.times_le(
                        n) by {
                        assert forall|i: int| 0 <= i < s_new.len() implies (#[trigger] s_new[i]).0 <= n by {
                            let i0 = if i < j { i } else { i + 1 };
                            assert(s_new[i] == s_old[i0]);
                        };
                    };
                }
            },
            None => {},
        }
    }
}

/// The amount one accrual reference contributes to a claim at `now`: the
/// referenced amount while the entry is within the burn period, and nothing
/// once the entry is too old or the reference no longer resolves.
pub open spec fn ref_amount(
    m: BucketMap,
    r: (UnixTimestamp, AccrualIndex),
    now: UnixTimestamp,
    period: Duration,
) -> int {
    if spec_is_within_period(r.0, now, period) {
        match m.spec_amount(r.0, r.1) {
            Some(a) => a as int,
            None => 0,
        }
    } else {
        0
    }
}

/// Total amount a list of accrual references can claim from `m` at `now`.
pub open spec fn claimable_from(
    refs: Seq<(UnixTimestamp, AccrualIndex)>,
    m: BucketMap,
    now: UnixTimestamp,
    period: Duration,
) -> int
    decreases refs.len(),
{
    if refs.len() == 0 {
        0
    } else {
        claimable_from(refs.drop_last(), m, now, period) + ref_amount(m, refs.last(), now, period)
    }
}

/// A claimable total is never negative.
pub proof fn lemma_claimable_nonneg(
    refs: Seq<(UnixTimestamp, AccrualIndex)>,
    m: BucketMap,
    now: UnixTimestamp,
    period: Duration,
)
    ensures
        claimable_from(refs, m, now, period) >= 0,
    decreases refs.len(),
{
    if refs.len() > 0 {
        lemma_claimable_nonneg(refs.drop_last(), m, now, period);
    }
}

} // verus!
