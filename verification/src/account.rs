use vstd::prelude::*;

use crate::types::{
    AccrualIndex, Asset, UnixTimestamp, asset_eq, default_asset, spec_default_asset,
};

verus! {

/// The per-participant record: one list of accrual references for every asset
/// the participant has accruals in, the timestamp of the last event that reset
/// the claim period, and the re-entrancy flag guarding an in-flight
/// settlement.
pub struct AccountRecord {
    /// Accrual references per asset. Each reference `(timestamp, index)`
    /// points at one entry of the bucket recorded at `timestamp`.
    pub accruals: Vec<(Asset, Vec<(UnixTimestamp, AccrualIndex)>)>,
    /// Reserved for disabling an account; not consulted by the engine yet.
    pub is_enabled: bool,
    /// When the record was created, or when the account last claimed
    /// successfully.
    pub claim_period_refreshed_at: UnixTimestamp,
    /// Set while an external settlement for this account is in flight.
    pub is_locked: bool,
}

impl AccountRecord {
    /// Asset keys of the reference lists are unique.
    pub open spec fn wf(self) -> bool {
        forall|i: int, j: int|
            0 <= i < j < self.accruals@.len() ==> (#[trigger] self.accruals@[i]).0@ != (
            #[trigger] self.accruals@[j]).0@
    }

    pub open spec fn spec_has_asset(self, a: Seq<char>) -> bool {
        exists|i: int| 0 <= i < self.accruals@.len() && (#[trigger] self.accruals@[i]).0@ == a
    }

    pub open spec fn spec_index_of_asset(self, a: Seq<char>) -> int {
        choose|i: int| 0 <= i < self.accruals@.len() && (#[trigger] self.accruals@[i]).0@ == a
    }

    /// The reference list for asset `a`; the empty sequence when the record
    /// has no list for it.
    pub open spec fn spec_refs(self, a: Seq<char>) -> Seq<(UnixTimestamp, AccrualIndex)> {
        if self.spec_has_asset(a) {
            self.accruals@[self.spec_index_of_asset(a)].1@
        } else {
            Seq::empty()
        }
    }

    /// Every timestamp the record mentions lies in the past of `now`.
    pub open spec fn times_le(self, now: UnixTimestamp) -> bool {
        &&& self.claim_period_refreshed_at <= now
        &&& forall|k: int, j: int|
            0 <= k < self.accruals@.len() && 0 <= j < (#[trigger] self.accruals@[k]).1@.len() ==> (
            #[trigger] self.accruals@[k].1@[j]).0 <= now
    }

    /// With unique asset keys, the entry at position `j` is the one
    /// `spec_refs` selects for its asset.
    pub proof fn lemma_entry(self, j: int)
        requires
            self.wf(),
            0 <= j < self.accruals@.len(),
        ensures
            self.spec_has_asset(self.accruals@[j].0@),
            self.spec_index_of_asset(self.accruals@[j].0@) == j,
            self.spec_refs(self.accruals@[j].0@) == self.accruals@[j].1@,
    {
        let a = self.accruals@[j].0@;
        assert(self.spec_has_asset(a));
        let i = self.spec_index_of_asset(a);
        assert(0 <= i < self.accruals@.len() && self.accruals@[i].0@ == a);
        if i < j {
            assert(self.accruals@[i].0@ != self.accruals@[j].0@);
        } else if j < i {
            assert(self.accruals@[j].0@ != self.accruals@[i].0@);
        }
    }

    /// Two records with the same reference lists resolve assets identically.
    pub proof fn lemma_refs_transport(r0: AccountRecord, r1: AccountRecord)
        requires
            r0.wf(),
            r1.accruals == r0.accruals,
        ensures
            forall|a: Seq<char>| #[trigger] r1.spec_has_asset(a) == r0.spec_has_asset(a),
            forall|a: Seq<char>| #[trigger] r1.spec_refs(a) == r0.spec_refs(a),
    {
        assert forall|a: Seq<char>| #[trigger] r1.spec_has_asset(a) == r0.spec_has_asset(a) by {
            if r1.spec_has_asset(a) {
                let i = r1.spec_index_of_asset(a);
                assert(r0.accruals@[i].0@ == a);
            }
            if r0.spec_has_asset(a) {
                let i = r0.spec_index_of_asset(a);
                assert(r1.accruals@[i].0@ == a);
            }
        };
        assert forall|a: Seq<char>| #[trigger] r1.spec_refs(a) == r0.spec_refs(a) by {
            if r0.spec_has_asset(a) {
                let i = r0.spec_index_of_asset(a);
                let j = r1.spec_index_of_asset(a);
                assert(r0.accruals@[i].0@ == a);
                assert(r1.accruals@[j].0@ == a);
                assert(r0.accruals@[j].0@ == a);
                if i < j {
                    assert(r0.accruals@[i].0@ != r0.accruals@[j].0@);
                } else if j < i {
                    assert(r0.accruals@[j].0@ != r0.accruals@[i].0@);
                }
            }
        };
    }

    /// A fresh record: an empty reference list for the given asset (the
    /// default asset when none is named) and the claim period starting at
    /// `now`.
    pub fn new(now: UnixTimestamp, asset: Option<Asset>) -> (r: Self)
        ensures
            r.wf(),
            r.claim_period_refreshed_at == now,
            r.is_enabled,
            !r.is_locked,
            r.accruals@.len() == 1,
            r.accruals@[0].0@ == match asset {
                Some(a) => a@,
                None => spec_default_asset(),
            },
            r.accruals@[0].1@ =~= Seq::<(UnixTimestamp, AccrualIndex)>::empty(),
            forall|a: Seq<char>| #[trigger] r.spec_refs(a) =~= Seq::<(
                UnixTimestamp,
                AccrualIndex,
            )>::empty(),
            forall|n: UnixTimestamp| now <= n ==> #[trigger] r.times_le(n),
    {
        let key = match asset {
            Some(a) => a,
            None => default_asset(),
        };
        let mut accruals: Vec<(Asset, Vec<(UnixTimestamp, AccrualIndex)>)> = Vec::new();
        accruals.push((key, Vec::new()));
        let r = AccountRecord { accruals, is_enabled: true, claim_period_refreshed_at: now, is_locked: false };
        proof {
            assert forall|a: Seq<char>| #[trigger] r.spec_refs(a) =~= Seq::<(
                UnixTimestamp,
                AccrualIndex,
            )>::empty() by {
                if r.spec_has_asset(a) {
                    let i = r.spec_index_of_asset(a);
                    assert(r.accruals@[i].1@ =~= Seq::<(UnixTimestamp, AccrualIndex)>::empty());
                }
            };
        }
        r
    }

    /// Position of the reference list for `asset`, if the record has one.
    pub fn find_asset(&self, asset: &Asset) -> (r: Option<usize>)
        ensures
            match r {
                Some(j) => j < self.accruals@.len() && self.accruals@[j as int].0@ == asset@,
                None => !self.spec_has_asset(asset@),
            },
    {
        let n = self.accruals.len();
        let mut k: usize = 0;
        while k < n
            invariant
                n == self.accruals@.len(),
                k <= n,
                forall|i: int| 0 <= i < k ==> (#[trigger] self.accruals@[i]).0@ != asset@,
            decreases n - k,
        {
            if asset_eq(&self.accruals[k].0, asset) {
                return Some(k);
            }
            k = k + 1;
        }
        None
    }

    /// The reference list of the default asset, if the record has one.
    pub fn get_sweat_accruals(&self) -> (r: Option<&Vec<(UnixTimestamp, AccrualIndex)>>)
        requires
            self.wf(),
        ensures
            match r {
                Some(v) => self.spec_has_asset(spec_default_asset()) && v@ == self.spec_refs(
                    spec_default_asset(),
                ),
                None => !self.spec_has_asset(spec_default_asset()),
            },
    {
        let key = default_asset();
        match self.find_asset(&key) {
            Some(j) => {
                proof {
                    self.lemma_entry(j as int);
                }
                Some(&self.accruals[j].1)
            },
            None => None,
        }
    }

    /// The reference list of the default asset, for records known to have one.
    pub fn get_sweat_accruals_unsafe(&self) -> (r: &Vec<(UnixTimestamp, AccrualIndex)>)
        requires
            self.wf(),
            self.spec_has_asset(spec_default_asset()),
        ensures
            r@ == self.spec_refs(spec_default_asset()),
    {
        match self.get_sweat_accruals() {
            Some(v) => v,
            None => vstd::pervasive::unreached(),
        }
    }

    /// Mutable access to the default-asset reference list, for records known
    /// to have one. The record keeps every other field and every other asset
    /// list unchanged.
    pub fn get_sweat_accruals_unsafe_mut(&mut self) -> (r: &mut Vec<(UnixTimestamp, AccrualIndex)>)
        requires
            old(self).wf(),
            old(self).spec_has_asset(spec_default_asset()),
        ensures
            ({
                let j = old(self).spec_index_of_asset(spec_default_asset());
                &&& (*r)@ == old(self).spec_refs(spec_default_asset())
                &&& final(self).accruals@ == old(self).accruals@.update(
                    j,
                    (old(self).accruals@[j].0, *final(r)),
                )
                &&& final(self).is_enabled == old(self).is_enabled
                &&& final(self).claim_period_refreshed_at == old(self).claim_period_refreshed_at
                &&& final(self).is_locked == old(self).is_locked
            }),
    {
        let key = default_asset();
        match self.find_asset(&key) {
            Some(j) => {
                proof {
                    old(self).lemma_entry(j as int);
                }
                &mut self.accruals[j].1
            },
            None => vstd::pervasive::unreached(),
        }
    }

    /// Removes and returns the whole reference list for `asset`, leaving an
    /// empty list in its place. A record without a list for `asset` is left
    /// unchanged.
    pub fn take_refs(&mut self, asset: &Asset) -> (r: Vec<(UnixTimestamp, AccrualIndex)>)
        requires
            old(self).wf(),
        ensures
            final(self).wf(),
            r@ == old(self).spec_refs(asset@),
            forall|a: Seq<char>|
                #[trigger] final(self).spec_has_asset(a) == old(self).spec_has_asset(a),
            forall|a: Seq<char>|
                a != asset@ ==> #[trigger] final(self).spec_refs(a) == old(self).spec_refs(a),
            final(self).spec_refs(asset@) =~= Seq::<(UnixTimestamp, AccrualIndex)>::empty(),
            final(self).is_enabled == old(self).is_enabled,
            final(self).claim_period_refreshed_at == old(self).claim_period_refreshed_at,
            final(self).is_locked == old(self).is_locked,
            forall|n: UnixTimestamp| old(self).times_le(n) ==> #[trigger] final(self).times_le(n),
    {
        match self.find_asset(asset) {
            Some(j) => {
                proof {
                    old(self).lemma_entry(j as int);
                }
                let mut taken: Vec<(UnixTimestamp, AccrualIndex)> = Vec::new();
                core::mem::swap(&mut taken, &mut self.accruals[j].1);
                proof {
                    let s_old = old(self).accruals@;
                    let s_new = self.accruals@;
                    assert(s_new =~= s_old.update(j as int, (s_old[j as int].0, self.accruals@[j as int].1)));
                    assert forall|i: int, k: int| 0 <= i < k < s_new.len() implies (
                    #[trigger] s_new[i]).0@ != (#[trigger] s_new[k]).0@ by {
                        assert(s_new[i].0 == s_old[i].0 && s_new[k].0 == s_old[k].0);
                    };
                    self.lemma_entry(j as int);
                    assert forall|a: Seq<char>| #[trigger] final(self).spec_has_asset(a) == old(
                        self).spec_has_asset(a) by {
                        if self.spec_has_asset(a) {
                            let i = self.spec_index_of_asset(a);
                            assert(s_old[i].0@ == a);
                        }
                        if old(self).spec_has_asset(a) {
                            let i = old(self).spec_index_of_asset(a);
                            assert(s_new[i].0@ == a);
                        }
                    };
                    assert forall|a: Seq<char>| a != asset@ implies #[trigger] final(self).spec_refs(a)
                        == old(self).spec_refs(a) by {
                        if old(self).spec_has_asset(a) {
                            let i = old(self).spec_index_of_asset(a);
                            assert(s_old[i].0@ == a);
                            assert(s_new[i] == s_old[i]);
                            self.lemma_entry(i);
                        }
                    };
                }
                taken
            },
            None => {
                proof {
                    assert(old(self).spec_refs(asset@) =~= Seq::<(
                        UnixTimestamp,
                        AccrualIndex,
                    )>::empty());
                }
                Vec::new()
            },
        }
    }

    /// Appends one accrual reference to the list for `asset`, creating the
    /// list when the record has none yet.
    pub fn push_ref(&mut self, asset: &Asset, accrual: (UnixTimestamp, AccrualIndex))
        requires
            old(self).wf(),
        ensures
            final(self).wf(),
            forall|a: Seq<char>|
                a != asset@ ==> #[trigger] final(self).spec_has_asset(a) == old(
                self).spec_has_asset(a),
            final(self).spec_has_asset(asset@),
            forall|a: Seq<char>|
                a != asset@ ==> #[trigger] final(self).spec_refs(a) == old(self).spec_refs(a),
            final(self).spec_refs(asset@) == old(self).spec_refs(asset@).push(accrual),
            final(self).is_enabled == old(self).is_enabled,
            final(self).claim_period_refreshed_at == old(self).claim_period_refreshed_at,
            final(self).is_locked == old(self).is_locked,
            forall|n: UnixTimestamp|
                old(self).times_le(n) && accrual.0 <= n ==> #[trigger] final(self).times_le(n),
    {
        match self.find_asset(asset) {
            Some(j) => {
                proof {
                    old(self).lemma_entry(j as int);
                }
                self.accruals[j].1.push(accrual);
                proof {
                    let s_old = old(self).accruals@;
                    let s_new = self.accruals@;
                    assert(s_new =~= s_old.update(j as int, (s_old[j as int].0, self.accruals@[j as int].1)));
                    assert forall|i: int, k: int| 0 <= i < k < s_new.len() implies (
                    #[trigger] s_new[i]).0@ != (#[trigger] s_new[k]).0@ by {
                        assert(s_new[i].0 == s_old[i].0 && s_new[k].0 == s_old[k].0);
                    };
                    self.lemma_entry(j as int);
                    assert forall|a: Seq<char>| a != asset@ implies #[trigger] final(self).spec_has_asset(
                        a,
                    ) == old(self).spec_has_asset(a) by {
                        if self.spec_has_asset(a) {
                            let i = self.spec_index_of_asset(a);
                            assert(s_old[i].0@ == a);
                        }
                        if old(self).spec_has_asset(a) {
                            let i = old(self).spec_index_of_asset(a);
                            assert(s_new[i].0@ == a);
                        }
                    };
                    assert forall|a: Seq<char>| a != asset@ implies #[trigger] final(self).spec_refs(a)
                        == old(self).spec_refs(a) by {
                        if old(self).spec_has_asset(a) {
                            let i = old(self).spec_index_of_asset(a);
                            assert(s_old[i].0@ == a);
                            assert(s_new[i] == s_old[i]);
                            self.lemma_entry(i);
                        }
                    };
                }
            },
            None => {
                let ghost s_old = self.accruals@;
                let mut refs: Vec<(UnixTimestamp, AccrualIndex)> = Vec::new();
                refs.push(accrual);
                self.accruals.push((asset.clone(), refs));
                proof {
                    let s_new = self.accruals@;
                    let j = s_new.len() - 1;
                    assert(s_new.drop_last() =~= s_old);
                    assert forall|i: int, k: int| 0 <= i < k < s_new.len() implies (
                    #[trigger] s_new[i]).0@ != (#[trigger] s_new[k]).0@ by {
                        if k < j {
                            assert(s_new[i] == s_old[i] && s_new[k] == s_old[k]);
                        } else {
                            assert(s_new[i] == s_old[i]);
                            assert(!old(self).spec_has_asset(asset@));
                        }
                    };
                    self.lemma_entry(j);
                    assert(final(self).spec_refs(asset@) =~= old(self).spec_refs(asset@).push(
                        accrual,
                    ));
                    assert forall|a: Seq<char>| a != asset@ implies #[trigger] final(self).spec_has_asset(
                        a,
                    ) == old(self).spec_has_asset(a) by {
                        if self.spec_has_asset(a) {
                            let i = self.spec_index_of_asset(a);
                            if i != j {
                                assert(s_old[i].0@ == a);
                            }
                        }
                        if old(self).spec_has_asset(a) {
                            let i = old(self).spec_index_of_asset(a);
                            assert(s_new[i].0@ == a);
                        }
                    };
                    assert forall|a: Seq<char>| a != asset@ implies #[trigger] final(self).spec_refs(a)
                        == old(self).spec_refs(a) by {
                        if old(self).spec_has_asset(a) {
                            let i = old(self).spec_index_of_asset(a);
                            assert(s_old[i].0@ == a);
                            assert(s_new[i] == s_old[i]);
                            self.lemma_entry(i);
                        }
                    };
                }
            },
        }
    }

    /// Empties every reference list of the record, keeping the asset keys.
    pub fn clear_all_refs(&mut self)
        requires
            old(self).wf(),
        ensures
            final(self).wf(),
            forall|a: Seq<char>|
                #[trigger] final(self).spec_has_asset(a) == old(self).spec_has_asset(a),
            forall|a: Seq<char>|
                #[trigger] final(self).spec_refs(a) =~= Seq::<(
                    UnixTimestamp,
                    AccrualIndex,
                )>::empty(),
            final(self).is_enabled == old(self).is_enabled,
            final(self).claim_period_refreshed_at == old(self).claim_period_refreshed_at,
            final(self).is_locked == old(self).is_locked,
            forall|n: UnixTimestamp| old(self).times_le(n) ==> #[trigger] final(self).times_le(n),
    {
        let n = self.accruals.len();
        let mut k: usize = 0;
        while k < n
            invariant
                n == self.accruals@.len(),
                k <= n,
                forall|i: int|
                    0 <= i < n ==> (#[trigger] self.accruals@[i]).0 == old(self).accruals@[i].0,
                forall|i: int|
                    k <= i < n ==> (#[trigger] self.accruals@[i]).1 == old(self).accruals@[i].1,
                forall|i: int|
                    0 <= i < k ==> (#[trigger] self.accruals@[i]).1@ =~= Seq::<(
                        UnixTimestamp,
                        AccrualIndex,
                    )>::empty(),
                self.is_enabled == old(self).is_enabled,
                self.claim_period_refreshed_at == old(self).claim_period_refreshed_at,
                self.is_locked == old(self).is_locked,
            decreases n - k,
        {
            self.accruals[k].1.clear();
            k = k + 1;
        }
        proof {
            assert forall|i: int, j: int| 0 <= i < j < self.accruals@.len() implies (
            #[trigger] self.accruals@[i]).0@ != (#[trigger] self.accruals@[j]).0@ by {
                assert(old(self).accruals@[i].0@ != old(self).accruals@[j].0@);
            };
            assert forall|a: Seq<char>| #[trigger] final(self).spec_has_asset(a) == old(
                self).spec_has_asset(a) by {
                if self.spec_has_asset(a) {
                    let i = self.spec_index_of_asset(a);
                    assert(old(self).accruals@[i].0@ == a);
                }
                if old(self).spec_has_asset(a) {
                    let i = old(self).spec_index_of_asset(a);
                    assert(self.accruals@[i].0@ == a);
                }
            };
            assert forall|a: Seq<char>| #[trigger] final(self).spec_refs(a) =~= Seq::<(
                UnixTimestamp,
                AccrualIndex,
            )>::empty() by {
                if self.spec_has_asset(a) {
                    let i = self.spec_index_of_asset(a);
                }
            };
        }
    }
}

/// The legacy shape of a participant record: a single reference list, which
/// could only belong to the default asset.
pub struct AccountRecordLegacy {
    pub accruals: Vec<(UnixTimestamp, AccrualIndex)>,
    pub is_enabled: bool,
    pub claim_period_refreshed_at: UnixTimestamp,
    pub is_locked: bool,
}

impl AccountRecordLegacy {
    /// Every timestamp the legacy record mentions lies in the past of `now`.
    pub open spec fn times_le(self, now: UnixTimestamp) -> bool {
        &&& self.claim_period_refreshed_at <= now
        &&& forall|j: int| 0 <= j < self.accruals@.len() ==> (#[trigger] self.accruals@[j]).0 <= now
    }

    pub fn new(now: UnixTimestamp) -> (r: Self)
        ensures
            r.accruals@ =~= Seq::<(UnixTimestamp, AccrualIndex)>::empty(),
            r.is_enabled,
            r.claim_period_refreshed_at == now,
            !r.is_locked,
    {
        Self { accruals: Vec::new(), is_enabled: true, claim_period_refreshed_at: now, is_locked: false }
    }

    /// Upgrades the legacy shape: the single list becomes the default asset's
    /// list.
    pub fn into_record(self) -> (r: AccountRecord)
        ensures
            r.wf(),
            r.spec_has_asset(spec_default_asset()),
            r.spec_refs(spec_default_asset()) == self.accruals@,
            forall|a: Seq<char>|
                a != spec_default_asset() ==> !r.spec_has_asset(a) && #[trigger] r.spec_refs(a)
                    =~= Seq::<(UnixTimestamp, AccrualIndex)>::empty(),
            r.is_enabled == self.is_enabled,
            r.claim_period_refreshed_at == self.claim_period_refreshed_at,
            r.is_locked == self.is_locked,
            forall|n: UnixTimestamp| self.times_le(n) ==> #[trigger] r.times_le(n),
    {
        let mut accruals: Vec<(Asset, Vec<(UnixTimestamp, AccrualIndex)>)> = Vec::new();
        accruals.push((default_asset(), self.accruals));
        let r = AccountRecord {
            accruals,
            is_enabled: self.is_enabled,
            claim_period_refreshed_at: self.claim_period_refreshed_at,
            is_locked: self.is_locked,
        };
        proof {
            r.lemma_entry(0);
            assert forall|a: Seq<char>| a != spec_default_asset() implies !r.spec_has_asset(a) && #[trigger] r
                .spec_refs(a) =~= Seq::<(UnixTimestamp, AccrualIndex)>::empty() by {
                if r.spec_has_asset(a) {
                    let i = r.spec_index_of_asset(a);
                    assert(r.accruals@[i].0@ == a);
                }
            };
        }
        r
    }
}

/// The versioned persisted shape of a participant record; records are
/// upgraded to the newest variant one at a time, on first touch.
pub enum AccountRecordVersioned {
    V1(AccountRecord),
}

impl AccountRecordVersioned {
    /// The current-shape record held by this versioned value.
    pub open spec fn spec_record(self) -> AccountRecord {
        match self {
            AccountRecordVersioned::V1(r) => r,
        }
    }

    /// Appends one accrual reference for `asset`.
    pub fn push(&mut self, accrual: (UnixTimestamp, AccrualIndex), asset: &Asset)
        requires
            old(self).spec_record().wf(),
        ensures
            final(self).spec_record().wf(),
            forall|a: Seq<char>|
                a != asset@ ==> #[trigger] final(self).spec_record().spec_has_asset(a) == old(
                self).spec_record().spec_has_asset(a),
            final(self).spec_record().spec_has_asset(asset@),
            forall|a: Seq<char>|
                a != asset@ ==> #[trigger] final(self).spec_record().spec_refs(a) == old(
                self).spec_record().spec_refs(a),
            final(self).spec_record().spec_refs(asset@) == old(self).spec_record().spec_refs(
                asset@,
            ).push(accrual),
            final(self).spec_record().is_enabled == old(self).spec_record().is_enabled,
            final(self).spec_record().claim_period_refreshed_at == old(
                self,
            ).spec_record().claim_period_refreshed_at,
            final(self).spec_record().is_locked == old(self).spec_record().is_locked,
            forall|n: UnixTimestamp|
                old(self).spec_record().times_le(n) && accrual.0 <= n ==> #[trigger] final(
                self).spec_record().times_le(n),
    {
        match self {
            AccountRecordVersioned::V1(record) => record.push_ref(asset, accrual),
        }
    }
}

impl AccountRecord {
    /// Wraps the record in the newest persisted variant.
    pub fn into_versioned(self) -> (r: AccountRecordVersioned)
        ensures
            r == AccountRecordVersioned::V1(self),
    {
        AccountRecordVersioned::V1(self)
    }
}

} // verus!
