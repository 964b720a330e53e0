use vstd::prelude::*;

use crate::Contract;
use crate::buckets::{Bucket, BucketMap, claimable_from, ref_amount};
use crate::claim::{
    base_len, count_ts, details_amounts_for, lemma_count_ts_bounds, lemma_count_ts_take_step,
    lemma_details_amounts_len, lemma_rollback_refs_take_step,
    rollback_refs,
};
use crate::burn::{burnable_total, due_keys, keys_contain, lemma_due_keys_complete};
use crate::record::{appended_refs, batch_contains, pre_refs};
use crate::sum::{lemma_sum_details_take_step, sum_details};
use crate::types::{
    AccountId, AccrualIndex, Duration, TokensAmount, U128, UnixTimestamp, spec_is_within_period,
};

verus! {

/// The amount the rollback of detail `j` re-appends stands at the position
/// its fresh reference points at: position `count` of the amounts appended to
/// its bucket, holding exactly the detail's amount.
pub proof fn lemma_details_amounts_index(
    details: Seq<(UnixTimestamp, TokensAmount)>,
    u: UnixTimestamp,
    j: int,
)
    requires
        0 <= j < details.len(),
        details[j].0 == u,
    ensures
        0 <= count_ts(details.take(j), u) < details_amounts_for(details, u).len(),
        details_amounts_for(details, u)[count_ts(details.take(j), u)] == details[j].1,
    decreases details.len(),
{
    lemma_count_ts_bounds(details.take(j), u);
    lemma_details_amounts_len(details, u);
    if j == details.len() - 1 {
        assert(details.take(j) =~= details.drop_last());
        lemma_details_amounts_len(details.drop_last(), u);
    } else {
        assert(details.drop_last().take(j) =~= details.take(j));
        lemma_details_amounts_index(details.drop_last(), u, j);
        lemma_details_amounts_len(details.drop_last(), u);
        let i = count_ts(details.take(j), u);
        if details.last().0 == u {
            assert(details_amounts_for(details, u)[i] == details_amounts_for(
                details.drop_last(),
                u,
            )[i]);
        }
    }
}

/// CLAIM CONSERVATION, failed transfer: re-appending the drained details
/// makes exactly their sum claimable again. The fresh references a rollback
/// creates resolve to the re-appended amounts, so a participant whose
/// references were fully drained can claim the rolled-back total anew.
pub proof fn lemma_rollback_restores_claimable(
    details: Seq<(UnixTimestamp, TokensAmount)>,
    m0: BucketMap,
    m1: BucketMap,
    now: UnixTimestamp,
    period: Duration,
    k: int,
)
    requires
        0 <= k <= details.len(),
        forall|j: int|
            0 <= j < details.len() ==> spec_is_within_period(
                (#[trigger] details[j]).0,
                now,
                period,
            ),
        forall|u: UnixTimestamp|
            #[trigger] m1.spec_has(u) == (m0.spec_has(u) || count_ts(details, u) > 0),
        forall|u: UnixTimestamp|
            m0.spec_has(u) || count_ts(details, u) > 0 ==> #[trigger] m1.spec_bucket(u).amounts@
                =~= (if m0.spec_has(u) {
                m0.spec_bucket(u).amounts@
            } else {
                Seq::<TokensAmount>::empty()
            }) + details_amounts_for(details, u),
        forall|u: UnixTimestamp| #[trigger] base_len(m0, u) + count_ts(details, u) <= u32::MAX,
    ensures
        claimable_from(rollback_refs(details.take(k), m0), m1, now, period) == sum_details(
            details.take(k),
        ),
    decreases k,
{
    if k == 0 {
        assert(details.take(0) =~= Seq::<(UnixTimestamp, TokensAmount)>::empty());
    } else {
        lemma_rollback_restores_claimable(details, m0, m1, now, period, k - 1);
        lemma_rollback_refs_take_step(details, m0, k - 1);
        lemma_sum_details_take_step(details, k - 1);
        let u = details[k - 1].0;
        let idx = (base_len(m0, u) + count_ts(details.take(k - 1), u)) as AccrualIndex;
        let rr0 = rollback_refs(details.take(k - 1), m0);
        let rr1 = rollback_refs(details.take(k), m0);
        assert(rr1 =~= rr0.push((u, idx)));
        assert(rr1.drop_last() =~= rr0);
        assert(rr1.last() == (u, idx));
        // the fresh reference resolves to the re-appended amount
        lemma_count_ts_bounds(details.take(k - 1), u);
        lemma_details_amounts_index(details, u, k - 1);
        lemma_details_amounts_len(details, u);
        assert(count_ts(details, u) > 0) by {
            lemma_count_ts_take_step(details, u, k - 1);
            lemma_count_ts_bounds(details.take(k - 1), u);
            assert(count_ts(details.take(k), u) > 0);
            assert(details.take(details.len() as int) =~= details);
            lemma_count_ts_prefix_le(details, u, k);
        };
        lemma_count_ts_prefix_le(details, u, k - 1);
        assert(base_len(m0, u) + count_ts(details.take(k - 1), u) <= u32::MAX);
        assert(idx == base_len(m0, u) + count_ts(details.take(k - 1), u));
        let amounts = m1.spec_bucket(u).amounts@;
        assert(m1.spec_has(u));
        assert(amounts[base_len(m0, u) + count_ts(details.take(k - 1), u)] == details[k - 1].1);
        assert(amounts.len() == base_len(m0, u) + details_amounts_for(details, u).len());
        assert(m1.spec_amount(u, idx) == Some(details[k - 1].1));
        assert(ref_amount(m1, (u, idx), now, period) == details[k - 1].1 as int);
    }
}

/// A prefix never counts more occurrences than the whole sequence.
pub proof fn lemma_count_ts_prefix_le(
    s: Seq<(UnixTimestamp, TokensAmount)>,
    u: UnixTimestamp,
    k: int,
)
    requires
        0 <= k <= s.len(),
    ensures
        count_ts(s.take(k), u) <= count_ts(s, u),
    decreases s.len() - k,
{
    if k == s.len() {
        assert(s.take(k) =~= s);
    } else {
        lemma_count_ts_take_step(s, u, k);
        lemma_count_ts_prefix_le(s, u, k + 1);
    }
}

/// DEAD ZONE, claim side: a reference whose entry is older than the burn
/// period contributes nothing to the claimable balance — dropping it leaves
/// the balance unchanged.
pub proof fn lemma_dead_zone_excluded_from_claim(
    refs: Seq<(UnixTimestamp, AccrualIndex)>,
    m: BucketMap,
    now: UnixTimestamp,
    period: Duration,
    j: int,
)
    requires
        0 <= j < refs.len(),
        !spec_is_within_period(refs[j].0, now, period),
    ensures
        ref_amount(m, refs[j], now, period) == 0,
        claimable_from(refs.remove(j), m, now, period) == claimable_from(refs, m, now, period),
    decreases refs.len(),
{
    if j == refs.len() - 1 {
        assert(refs.remove(j) =~= refs.drop_last());
    } else {
        assert(refs.remove(j).drop_last() =~= refs.drop_last().remove(j));
        assert(refs.drop_last()[j] == refs[j]);
        lemma_dead_zone_excluded_from_claim(refs.drop_last(), m, now, period, j);
        assert(refs.remove(j).last() == refs.last());
    }
}

/// Buckets with non-negative totals only ever add to the burnable sum.
proof fn lemma_burnable_includes_entry(
    s: Seq<(UnixTimestamp, Bucket)>,
    now: UnixTimestamp,
    period: Duration,
    k: int,
)
    requires
        0 <= k < s.len(),
        !spec_is_within_period(s[k].0, now, period),
    ensures
        s[k].1.total <= burnable_total(s, now, period),
    decreases s.len(),
{
    crate::burn::lemma_burnable_nonneg(s.drop_last(), now, period);
    if k < s.len() - 1 {
        assert(s.drop_last()[k] == s[k]);
        lemma_burnable_includes_entry(s.drop_last(), now, period, k);
    }
}

/// DEAD ZONE, burn side: a bucket whose age has reached the burn period is
/// wholly part of the next sweep's total — everything in the dead zone is
/// excluded from claims but included in the burn.
pub proof fn lemma_dead_zone_swept_by_burn(c: Contract, ts: UnixTimestamp, now: UnixTimestamp)
    requires
        c.wf(),
        c.accruals.spec_has(ts),
        !spec_is_within_period(ts, now, c.burn_period),
    ensures
        c.accruals.spec_bucket(ts).total <= burnable_total(
            c.accruals.entries@,
            now,
            c.burn_period,
        ),
        keys_contain(due_keys(c.accruals.entries@, now, c.burn_period), ts),
{
    let i = c.accruals.spec_index_of(ts);
    assert(c.accruals.entries@[i].0 == ts);
    lemma_burnable_includes_entry(c.accruals.entries@, now, c.burn_period, i);
    lemma_due_keys_complete(c.accruals.entries@, now, c.burn_period);
}

/// A ledger whose every bucket is still within the burn period has nothing
/// to burn.
proof fn lemma_burnable_zero_when_all_young(
    s: Seq<(UnixTimestamp, Bucket)>,
    now: UnixTimestamp,
    period: Duration,
)
    requires
        forall|i: int|
            0 <= i < s.len() ==> spec_is_within_period((#[trigger] s[i]).0, now, period),
    ensures
        burnable_total(s, now, period) == 0,
    decreases s.len(),
{
    if s.len() > 0 {
        assert forall|i: int|
            0 <= i < s.drop_last().len() implies spec_is_within_period(
            (#[trigger] s.drop_last()[i]).0,
            now,
            period,
        ) by {
            assert(s.drop_last()[i] == s[i]);
        };
        lemma_burnable_zero_when_all_young(s.drop_last(), now, period);
        assert(s[s.len() - 1] == s.last());
    }
}

/// IDEMPOTENT BURN: once a burn sweep is confirmed — every bucket named by
/// the sweep removed, nothing else touched — a second sweep at the same time
/// with no new recordings finds nothing due: its grand total is zero.
pub proof fn lemma_burn_idempotent(pre: Contract, post: Contract, now: UnixTimestamp)
    requires
        pre.wf(),
        post.wf(),
        pre.times_le(now),
        post.burn_period == pre.burn_period,
        forall|u: UnixTimestamp|
            #[trigger] post.accruals.spec_has(u) == (pre.accruals.spec_has(u) && !keys_contain(
                due_keys(pre.accruals.entries@, now, pre.burn_period),
                u,
            )),
    ensures
        burnable_total(post.accruals.entries@, now, post.burn_period) == 0,
{
    lemma_due_keys_complete(pre.accruals.entries@, now, pre.burn_period);
    assert forall|i: int|
        0 <= i < post.accruals.entries@.len() implies spec_is_within_period(
        (#[trigger] post.accruals.entries@[i]).0,
        now,
        post.burn_period,
    ) by {
        let u = post.accruals.entries@[i].0;
        assert(post.accruals.spec_has(u));
        assert(pre.accruals.spec_has(u));
        if !spec_is_within_period(u, now, pre.burn_period) {
            let j = pre.accruals.spec_index_of(u);
            assert(pre.accruals.entries@[j].0 == u);
            assert(keys_contain(due_keys(pre.accruals.entries@, now, pre.burn_period), u));
        }
    };
    lemma_burnable_zero_when_all_young(post.accruals.entries@, now, post.burn_period);
}

/// CLAIM CONSERVATION, successful transfer: committing a claim touches no
/// bucket and no reference, so the claimable balance of every account and
/// asset is exactly what it was when the transfer was issued — for the
/// claiming account, zero.
pub proof fn lemma_commit_preserves_claimable(
    mid: Contract,
    post: Contract,
    account: Seq<char>,
    asset: Seq<char>,
    now: UnixTimestamp,
)
    requires
        mid.wf(),
        post.accruals == mid.accruals,
        post.extra_accruals == mid.extra_accruals,
        post.burn_period == mid.burn_period,
        post.spec_has_account(account) == mid.spec_has_account(account),
        mid.spec_has_account(account) ==> post.spec_account(account).accruals == mid.spec_account(
            account,
        ).accruals,
    ensures
        post.claimable(account, asset, now) == mid.claimable(account, asset, now),
{
    Contract::lemma_buckets_transport(mid, post);
    if mid.spec_has_account(account) {
        crate::account::AccountRecord::lemma_refs_transport(
            mid.spec_account(account),
            post.spec_account(account),
        );
        if mid.spec_registered(asset) {
            assert(post.spec_buckets(asset) == mid.spec_buckets(asset));
            assert(post.spec_account(account).spec_refs(asset) == mid.spec_account(
                account,
            ).spec_refs(asset));
        }
    }
}


/// CLAIM CONSERVATION, failed transfer, at the ledger level: when the
/// callback rolls a claim back — the account's references for the asset were
/// fully drained, and the rollback re-appended every drained detail — the
/// account's claimable balance returns to exactly the drained total.
pub proof fn lemma_claim_conservation_failure(
    mid: Contract,
    post: Contract,
    account: Seq<char>,
    asset: Seq<char>,
    details: Seq<(UnixTimestamp, TokensAmount)>,
    total: TokensAmount,
    now: UnixTimestamp,
)
    requires
        post.spec_has_account(account),
        post.spec_registered(asset),
        mid.spec_registered(asset),
        mid.spec_has_account(account),
        mid.spec_account(account).spec_refs(asset).len() == 0,
        post.burn_period == mid.burn_period,
        sum_details(details) == total,
        forall|j: int|
            0 <= j < details.len() ==> spec_is_within_period((#[trigger] details[j]).0, now, mid.burn_period),
        post.spec_account(account).spec_refs(asset) == mid.spec_account(account).spec_refs(asset)
            + rollback_refs(details, mid.spec_buckets(asset)),
        forall|u: UnixTimestamp|
            #[trigger] post.spec_buckets(asset).spec_has(u) == (mid.spec_buckets(asset).spec_has(u)
                || count_ts(details, u) > 0),
        forall|u: UnixTimestamp|
            mid.spec_buckets(asset).spec_has(u) || count_ts(details, u) > 0 ==> #[trigger] post
                .spec_buckets(asset).spec_bucket(u).amounts@ =~= (if mid.spec_buckets(
                asset,
            ).spec_has(u) {
                mid.spec_buckets(asset).spec_bucket(u).amounts@
            } else {
                Seq::<TokensAmount>::empty()
            }) + details_amounts_for(details, u),
        forall|u: UnixTimestamp|
            #[trigger] base_len(mid.spec_buckets(asset), u) + count_ts(details, u) <= u32::MAX,
    ensures
        post.claimable(account, asset, now) == total,
{
    let m0 = mid.spec_buckets(asset);
    let m1 = post.spec_buckets(asset);
    lemma_rollback_restores_claimable(details, m0, m1, now, mid.burn_period, details.len() as int);
    assert(details.take(details.len() as int) =~= details);
    assert(post.spec_account(account).spec_refs(asset) =~= rollback_refs(details, m0));
}


/// Whether account `id` holds a reference at position `j` of its list for
/// asset `a`.
pub open spec fn holds_ref(c: Contract, id: Seq<char>, a: Seq<char>, j: int) -> bool {
    c.spec_has_account(id) && 0 <= j < c.spec_account(id).spec_refs(a).len()
}

/// The reference account `id` holds at position `j` of its list for `a`.
pub open spec fn ref_of(c: Contract, id: Seq<char>, a: Seq<char>, j: int) -> (
    UnixTimestamp,
    AccrualIndex,
) {
    c.spec_account(id).spec_refs(a)[j]
}

/// REFERENCE UNIQUENESS: within one asset, every accrual reference
/// `(timestamp, index)` is held by at most one participant record, at one
/// position. Together with `refs_valid` this is the ledger's reference
/// integrity.
pub open spec fn refs_unique(c: Contract) -> bool {
    forall|id1: Seq<char>, id2: Seq<char>, a: Seq<char>, j1: int, j2: int|
        holds_ref(c, id1, a, j1) && holds_ref(c, id2, a, j2) && #[trigger] ref_of(c, id1, a, j1)
            == #[trigger] ref_of(c, id2, a, j2) ==> id1 == id2 && j1 == j2
}

/// Every held reference resolves: its asset is registered, its bucket exists,
/// and its index lies inside the bucket's amount list. A burn sweep breaks
/// this deliberately — the references into swept buckets are left dangling.
pub open spec fn refs_valid(c: Contract) -> bool {
    forall|id: Seq<char>, a: Seq<char>, j: int|
        #[trigger] holds_ref(c, id, a, j) ==> {
            &&& c.spec_registered(a)
            &&& c.spec_buckets(a).spec_has(ref_of(c, id, a, j).0)
            &&& ref_of(c, id, a, j).1 < c.spec_buckets(a).spec_bucket(
                ref_of(c, id, a, j).0,
            ).amounts@.len()
        }
}

/// The reference integrity the ledger maintains between burn sweeps.
pub open spec fn reference_integrity(c: Contract) -> bool {
    refs_unique(c) && refs_valid(c)
}

/// Draining an asset for one account — its reference list emptied, every
/// other list and every bucket length untouched — preserves reference
/// integrity.
pub proof fn lemma_drain_preserves_reference_integrity(
    pre: Contract,
    post: Contract,
    account: Seq<char>,
    asset: Seq<char>,
)
    requires
        reference_integrity(pre),
        pre.spec_has_account(account),
        forall|id: Seq<char>| #[trigger] post.spec_has_account(id) == pre.spec_has_account(id),
        forall|id: Seq<char>|
            id != account && pre.spec_has_account(id) ==> #[trigger] post.spec_account(id)
                == pre.spec_account(id),
        post.spec_account(account).spec_refs(asset).len() == 0,
        forall|a: Seq<char>|
            a != asset ==> #[trigger] post.spec_account(account).spec_refs(a) == pre.spec_account(
                account,
            ).spec_refs(a),
        forall|a: Seq<char>| #[trigger] post.spec_registered(a) == pre.spec_registered(a),
        forall|a: Seq<char>, u: UnixTimestamp|
            pre.spec_registered(a) ==> #[trigger] post.spec_buckets(a).spec_has(u)
                == pre.spec_buckets(a).spec_has(u),
        forall|a: Seq<char>, u: UnixTimestamp|
            pre.spec_registered(a) && pre.spec_buckets(a).spec_has(u) ==> #[trigger] post
                .spec_buckets(a).spec_bucket(u).amounts@.len() == pre.spec_buckets(
                a,
            ).spec_bucket(u).amounts@.len(),
    ensures
        reference_integrity(post),
{
    assert forall|id1: Seq<char>, id2: Seq<char>, a: Seq<char>, j1: int, j2: int|
        holds_ref(post, id1, a, j1) && holds_ref(post, id2, a, j2) && #[trigger] ref_of(
        post,
        id1,
        a,
        j1,
    ) == #[trigger] ref_of(post, id2, a, j2) implies id1 == id2 && j1 == j2 by {
        assert(post.spec_account(id1).spec_refs(a) == pre.spec_account(id1).spec_refs(a));
        assert(post.spec_account(id2).spec_refs(a) == pre.spec_account(id2).spec_refs(a));
        assert(holds_ref(pre, id1, a, j1) && holds_ref(pre, id2, a, j2));
        assert(ref_of(pre, id1, a, j1) == ref_of(pre, id2, a, j2));
    };
    assert forall|id: Seq<char>, a: Seq<char>, j: int| #[trigger] holds_ref(post, id, a, j) implies {
        &&& post.spec_registered(a)
        &&& post.spec_buckets(a).spec_has(ref_of(post, id, a, j).0)
        &&& ref_of(post, id, a, j).1 < post.spec_buckets(a).spec_bucket(
            ref_of(post, id, a, j).0,
        ).amounts@.len()
    } by {
        assert(post.spec_account(id).spec_refs(a) == pre.spec_account(id).spec_refs(a));
        assert(holds_ref(pre, id, a, j));
        assert(ref_of(pre, id, a, j) == ref_of(post, id, a, j));
    };
}


/// Every reference a recording batch appends is dated `now` and points past
/// the bucket's previous end, at the position of the batch entry it belongs
/// to.
pub proof fn lemma_appended_refs_shape(
    batch: Seq<(AccountId, U128)>,
    id: Seq<char>,
    now: UnixTimestamp,
    base: int,
    j: int,
)
    requires
        0 <= base,
        base + batch.len() <= u32::MAX,
        0 <= j < appended_refs(batch, id, now, base).len(),
    ensures
        appended_refs(batch, id, now, base)[j].0 == now,
        base <= appended_refs(batch, id, now, base)[j].1 < base + batch.len(),
        batch[appended_refs(batch, id, now, base)[j].1 - base].0@ == id,
    decreases batch.len(),
{
    let ap = appended_refs(batch, id, now, base);
    let dl = appended_refs(batch.drop_last(), id, now, base);
    if j < dl.len() {
        lemma_appended_refs_shape(batch.drop_last(), id, now, base, j);
        assert(ap[j] == dl[j]);
        assert(batch.drop_last()[dl[j].1 - base] == batch[dl[j].1 - base]);
    } else {
        assert(batch.last().0@ == id);
        assert(ap[j] == (now, (base + batch.len() - 1) as AccrualIndex));
    }
}

/// Within one account, the references a batch appends carry strictly
/// increasing positions.
pub proof fn lemma_appended_refs_increasing(
    batch: Seq<(AccountId, U128)>,
    id: Seq<char>,
    now: UnixTimestamp,
    base: int,
    j1: int,
    j2: int,
)
    requires
        0 <= base,
        base + batch.len() <= u32::MAX,
        0 <= j1 < j2 < appended_refs(batch, id, now, base).len(),
    ensures
        appended_refs(batch, id, now, base)[j1].1 < appended_refs(batch, id, now, base)[j2].1,
    decreases batch.len(),
{
    let ap = appended_refs(batch, id, now, base);
    let dl = appended_refs(batch.drop_last(), id, now, base);
    if j2 < dl.len() {
        lemma_appended_refs_increasing(batch.drop_last(), id, now, base, j1, j2);
        assert(ap[j1] == dl[j1] && ap[j2] == dl[j2]);
    } else {
        assert(ap[j2] == (now, (base + batch.len() - 1) as AccrualIndex));
        lemma_appended_refs_shape(batch.drop_last(), id, now, base, j1);
        assert(ap[j1] == dl[j1]);
    }
}

/// REFERENCE UNIQUENESS is preserved by recording: the appended references
/// point past every position a valid reference could already hold, one fresh
/// position per batch entry, so distinct holders stay distinct. Validity is
/// preserved because buckets only grow. Stated for a ledger whose legacy
/// records have all been upgraded.
#[verifier::rlimit(100)]
pub proof fn lemma_record_preserves_reference_integrity(
    pre: Contract,
    post: Contract,
    amounts: Seq<(AccountId, U128)>,
    t: Seq<char>,
    now: UnixTimestamp,
    base: int,
)
    requires
        reference_integrity(pre),
        pre.accounts_legacy@.len() == 0,
        pre.spec_registered(t),
        base == (if pre.spec_buckets(t).spec_has(now) {
            pre.spec_buckets(t).spec_bucket(now).amounts@.len() as int
        } else {
            0
        }),
        base + amounts.len() <= u32::MAX,
        forall|a: Seq<char>| #[trigger] post.spec_registered(a) == pre.spec_registered(a),
        forall|u: UnixTimestamp|
            #[trigger] post.spec_buckets(t).spec_has(u) == (pre.spec_buckets(t).spec_has(u) || (u
                == now && amounts.len() > 0)),
        forall|u: UnixTimestamp|
            u != now && pre.spec_buckets(t).spec_has(u) ==> #[trigger] post.spec_buckets(
                t,
            ).spec_bucket(u) == pre.spec_buckets(t).spec_bucket(u),
        (pre.spec_buckets(t).spec_has(now) || amounts.len() > 0) ==> post.spec_buckets(
            t,
        ).spec_bucket(now).amounts@.len() == base + amounts.len(),
        forall|a: Seq<char>|
            a != t && pre.spec_registered(a) ==> #[trigger] post.spec_buckets(a)
                == pre.spec_buckets(a),
        forall|id: Seq<char>|
            #[trigger] post.spec_has_account(id) == (pre.spec_has_account(id) || batch_contains(
                amounts,
                id,
            )),
        forall|id: Seq<char>|
            !batch_contains(amounts, id) && pre.spec_has_account(id) ==> #[trigger] post
                .spec_account(id) == pre.spec_account(id),
        forall|id: Seq<char>|
            batch_contains(amounts, id) ==> #[trigger] post.spec_account(id).spec_refs(t)
                == pre_refs(pre, id, t) + appended_refs(amounts, id, now, base),
        forall|id: Seq<char>, a: Seq<char>|
            batch_contains(amounts, id) && a != t ==> #[trigger] post.spec_account(id).spec_refs(a)
                == pre_refs(pre, id, a),
    ensures
        reference_integrity(post),
{
    assert forall|id1: Seq<char>, id2: Seq<char>, a: Seq<char>, j1: int, j2: int|
        holds_ref(post, id1, a, j1) && holds_ref(post, id2, a, j2) && #[trigger] ref_of(
        post,
        id1,
        a,
        j1,
    ) == #[trigger] ref_of(post, id2, a, j2) implies id1 == id2 && j1 == j2 by {
        let r = ref_of(post, id1, a, j1);
        // where each of the two positions draws its reference from
        let in1 = batch_contains(amounts, id1);
        let in2 = batch_contains(amounts, id2);
        let pre1 = pre_refs(pre, id1, a).len();
        let pre2 = pre_refs(pre, id2, a).len();
        let app1 = in1 && a == t && j1 >= pre1;
        let app2 = in2 && a == t && j2 >= pre2;
        if !pre.spec_has_account(id1) && !in1 {
            assert(false);
        }
        if !pre.spec_has_account(id2) && !in2 {
            assert(false);
        }
        // an old reference never reaches the freshly appended positions
        if app1 && !app2 {
            lemma_appended_refs_shape(amounts, id1, now, base, j1 - pre1);
            assert(pre.spec_has_account(id2));
            assert(holds_ref(pre, id2, a, j2));
            assert(ref_of(pre, id2, a, j2) == r);
            assert(r.0 == now && r.1 >= base);
            assert(pre.spec_buckets(a).spec_has(now));
            assert(r.1 < pre.spec_buckets(a).spec_bucket(now).amounts@.len());
            assert(false);
        } else if app2 && !app1 {
            lemma_appended_refs_shape(amounts, id2, now, base, j2 - pre2);
            assert(pre.spec_has_account(id1));
            assert(holds_ref(pre, id1, a, j1));
            assert(ref_of(pre, id1, a, j1) == r);
            assert(r.0 == now && r.1 >= base);
            assert(pre.spec_buckets(a).spec_has(now));
            assert(r.1 < pre.spec_buckets(a).spec_bucket(now).amounts@.len());
            assert(false);
        } else if app1 && app2 {
            lemma_appended_refs_shape(amounts, id1, now, base, j1 - pre1);
            lemma_appended_refs_shape(amounts, id2, now, base, j2 - pre2);
            assert(amounts[r.1 - base].0@ == id1);
            assert(amounts[r.1 - base].0@ == id2);
            assert(id1 == id2);
            if j1 - pre1 < j2 - pre2 {
                lemma_appended_refs_increasing(amounts, id1, now, base, j1 - pre1, j2 - pre2);
            } else if j2 - pre2 < j1 - pre1 {
                lemma_appended_refs_increasing(amounts, id1, now, base, j2 - pre2, j1 - pre1);
            }
        } else {
            assert(pre.spec_has_account(id1) && pre.spec_has_account(id2));
            assert(holds_ref(pre, id1, a, j1) && holds_ref(pre, id2, a, j2));
            assert(ref_of(pre, id1, a, j1) == ref_of(pre, id2, a, j2));
        }
    };
    assert forall|id: Seq<char>, a: Seq<char>, j: int| #[trigger] holds_ref(post, id, a, j) implies {
        &&& post.spec_registered(a)
        &&& post.spec_buckets(a).spec_has(ref_of(post, id, a, j).0)
        &&& ref_of(post, id, a, j).1 < post.spec_buckets(a).spec_bucket(
            ref_of(post, id, a, j).0,
        ).amounts@.len()
    } by {
        let r = ref_of(post, id, a, j);
        let inb = batch_contains(amounts, id);
        let prelen = pre_refs(pre, id, a).len();
        if !pre.spec_has_account(id) && !inb {
            assert(false);
        }
        if inb && a == t && j >= prelen {
            lemma_appended_refs_shape(amounts, id, now, base, j - prelen);
            assert(r.0 == now);
            assert(0 <= r.1 - base < amounts.len());
            assert(post.spec_buckets(t).spec_has(now));
            assert(post.spec_buckets(t).spec_bucket(now).amounts@.len() == base + amounts.len());
        } else {
            assert(pre.spec_has_account(id));
            assert(holds_ref(pre, id, a, j));
            assert(ref_of(pre, id, a, j) == r);
            assert(pre.spec_registered(a));
            if a == t {
                if r.0 == now {
                    assert(pre.spec_buckets(t).spec_has(now));
                    assert(r.1 < base);
                    assert(post.spec_buckets(t).spec_bucket(now).amounts@.len() == base
                        + amounts.len());
                } else {
                    assert(post.spec_buckets(t).spec_bucket(r.0) == pre.spec_buckets(
                        t,
                    ).spec_bucket(r.0));
                }
            } else {
                assert(post.spec_buckets(a) == pre.spec_buckets(a));
            }
        }
    };
}


/// A burn sweep never touches a participant record, so reference uniqueness
/// survives it unconditionally. Validity does not: the references into the
/// swept buckets are left dangling, which is the accepted trade-off of the
/// optimistic sweep.
pub proof fn lemma_burn_preserves_uniqueness(pre: Contract, post: Contract)
    requires
        refs_unique(pre),
        pre.wf(),
        post.accounts@ == pre.accounts@,
    ensures
        refs_unique(post),
{
    Contract::lemma_accounts_transport(pre, post);
    assert forall|id1: Seq<char>, id2: Seq<char>, a: Seq<char>, j1: int, j2: int|
        holds_ref(post, id1, a, j1) && holds_ref(post, id2, a, j2) && #[trigger] ref_of(
        post,
        id1,
        a,
        j1,
    ) == #[trigger] ref_of(post, id2, a, j2) implies id1 == id2 && j1 == j2 by {
        assert(post.spec_account(id1) == pre.spec_account(id1));
        assert(post.spec_account(id2) == pre.spec_account(id2));
        assert(holds_ref(pre, id1, a, j1) && holds_ref(pre, id2, a, j2));
        assert(ref_of(pre, id1, a, j1) == ref_of(pre, id2, a, j2));
    };
}

/// The reference the rollback of detail `j` appends: dated like the detail,
/// pointing past the bucket's previous end, at the slot matching how many
/// earlier details share its timestamp.
pub proof fn lemma_rollback_refs_at(
    details: Seq<(UnixTimestamp, TokensAmount)>,
    m0: BucketMap,
    j: int,
)
    requires
        0 <= j < details.len(),
        forall|u: UnixTimestamp| #[trigger] base_len(m0, u) + count_ts(details, u) <= u32::MAX,
    ensures
        rollback_refs(details, m0).len() == details.len(),
        rollback_refs(details, m0)[j] == (
            details[j].0,
            (base_len(m0, details[j].0) + count_ts(details.take(j), details[j].0)) as AccrualIndex,
        ),
        base_len(m0, details[j].0) + count_ts(details.take(j), details[j].0) <= u32::MAX,
    decreases details.len(),
{
    lemma_rollback_refs_len(details, m0);
    lemma_count_ts_bounds(details.take(j), details[j].0);
    lemma_count_ts_prefix_le(details, details[j].0, j);
    if j == details.len() - 1 {
        assert(details.take(j) =~= details.drop_last());
    } else {
        assert forall|u: UnixTimestamp|
            #[trigger] base_len(m0, u) + count_ts(details.drop_last(), u) <= u32::MAX by {
            lemma_count_ts_drop_last_le(details, u);
        };
        lemma_rollback_refs_at(details.drop_last(), m0, j);
        lemma_rollback_refs_len(details.drop_last(), m0);
        assert(rollback_refs(details, m0)[j] == rollback_refs(details.drop_last(), m0)[j]);
        assert(details.drop_last()[j] == details[j]);
        assert(details.drop_last().take(j) =~= details.take(j));
    }
}

proof fn lemma_rollback_refs_len(details: Seq<(UnixTimestamp, TokensAmount)>, m0: BucketMap)
    ensures
        rollback_refs(details, m0).len() == details.len(),
    decreases details.len(),
{
    if details.len() > 0 {
        lemma_rollback_refs_len(details.drop_last(), m0);
    }
}

proof fn lemma_count_ts_drop_last_le(details: Seq<(UnixTimestamp, TokensAmount)>, u: UnixTimestamp)
    requires
        details.len() > 0,
    ensures
        count_ts(details.drop_last(), u) <= count_ts(details, u),
{
    lemma_count_ts_bounds(details.drop_last(), u);
}

/// REFERENCE UNIQUENESS is preserved by a rollback: the references it
/// appends for the rolled-back account point past every position a valid
/// reference could already hold, one fresh slot per detail. Validity is
/// preserved because the rollback only grows or recreates buckets.
#[verifier::rlimit(100)]
pub proof fn lemma_rollback_preserves_reference_integrity(
    pre: Contract,
    post: Contract,
    account: Seq<char>,
    t: Seq<char>,
    details: Seq<(UnixTimestamp, TokensAmount)>,
)
    requires
        reference_integrity(pre),
        pre.spec_registered(t),
        pre.spec_has_account(account),
        forall|u: UnixTimestamp|
            #[trigger] base_len(pre.spec_buckets(t), u) + count_ts(details, u) <= u32::MAX,
        forall|a: Seq<char>| #[trigger] post.spec_registered(a) == pre.spec_registered(a),
        forall|u: UnixTimestamp|
            #[trigger] post.spec_buckets(t).spec_has(u) == (pre.spec_buckets(t).spec_has(u)
                || count_ts(details, u) > 0),
        forall|u: UnixTimestamp|
            pre.spec_buckets(t).spec_has(u) || count_ts(details, u) > 0 ==> #[trigger] post
                .spec_buckets(t).spec_bucket(u).amounts@.len() == base_len(pre.spec_buckets(t), u)
                + count_ts(details, u),
        forall|a: Seq<char>|
            a != t && pre.spec_registered(a) ==> #[trigger] post.spec_buckets(a)
                == pre.spec_buckets(a),
        forall|id: Seq<char>| #[trigger] post.spec_has_account(id) == pre.spec_has_account(id),
        forall|id: Seq<char>|
            id != account && pre.spec_has_account(id) ==> #[trigger] post.spec_account(id)
                == pre.spec_account(id),
        post.spec_account(account).spec_refs(t) == pre.spec_account(account).spec_refs(t)
            + rollback_refs(details, pre.spec_buckets(t)),
        forall|a: Seq<char>|
            a != t ==> #[trigger] post.spec_account(account).spec_refs(a) == pre.spec_account(
                account,
            ).spec_refs(a),
    ensures
        reference_integrity(post),
{
    let m0 = pre.spec_buckets(t);
    lemma_rollback_refs_len(details, m0);
    assert forall|id1: Seq<char>, id2: Seq<char>, a: Seq<char>, j1: int, j2: int|
        holds_ref(post, id1, a, j1) && holds_ref(post, id2, a, j2) && #[trigger] ref_of(
        post,
        id1,
        a,
        j1,
    ) == #[trigger] ref_of(post, id2, a, j2) implies id1 == id2 && j1 == j2 by {
        let r = ref_of(post, id1, a, j1);
        let pre1 = pre.spec_account(id1).spec_refs(a).len();
        let pre2 = pre.spec_account(id2).spec_refs(a).len();
        let app1 = id1 == account && a == t && j1 >= pre1;
        let app2 = id2 == account && a == t && j2 >= pre2;
        if app1 && !app2 {
            lemma_rollback_refs_at(details, m0, j1 - pre1);
            assert(holds_ref(pre, id2, a, j2));
            assert(ref_of(pre, id2, a, j2) == r);
            assert(m0.spec_has(r.0));
            assert(r.1 < base_len(m0, r.0));
            lemma_count_ts_bounds(details.take(j1 - pre1), r.0);
            assert(false);
        } else if app2 && !app1 {
            lemma_rollback_refs_at(details, m0, j2 - pre2);
            assert(holds_ref(pre, id1, a, j1));
            assert(ref_of(pre, id1, a, j1) == r);
            assert(m0.spec_has(r.0));
            assert(r.1 < base_len(m0, r.0));
            lemma_count_ts_bounds(details.take(j2 - pre2), r.0);
            assert(false);
        } else if app1 && app2 {
            lemma_rollback_refs_at(details, m0, j1 - pre1);
            lemma_rollback_refs_at(details, m0, j2 - pre2);
            assert(r == rollback_refs(details, m0)[j1 - pre1]);
            assert(ref_of(post, id2, a, j2) == rollback_refs(details, m0)[j2 - pre2]);
            assert(r.0 == details[j1 - pre1].0);
            assert(r.0 == details[j2 - pre2].0);
            lemma_count_ts_bounds(details.take(j1 - pre1), r.0);
            lemma_count_ts_bounds(details.take(j2 - pre2), r.0);
            assert(r.1 == base_len(m0, r.0) + count_ts(details.take(j1 - pre1), r.0));
            assert(r.1 == base_len(m0, r.0) + count_ts(details.take(j2 - pre2), r.0));
            if j1 - pre1 < j2 - pre2 {
                lemma_count_ts_monotone(details, r.0, j1 - pre1, j2 - pre2);
                assert(false);
            } else if j2 - pre2 < j1 - pre1 {
                lemma_count_ts_monotone(details, r.0, j2 - pre2, j1 - pre1);
                assert(false);
            }
        } else {
            assert(holds_ref(pre, id1, a, j1) && holds_ref(pre, id2, a, j2));
            assert(ref_of(pre, id1, a, j1) == ref_of(pre, id2, a, j2));
        }
    };
    assert forall|id: Seq<char>, a: Seq<char>, j: int| #[trigger] holds_ref(post, id, a, j) implies {
        &&& post.spec_registered(a)
        &&& post.spec_buckets(a).spec_has(ref_of(post, id, a, j).0)
        &&& ref_of(post, id, a, j).1 < post.spec_buckets(a).spec_bucket(
            ref_of(post, id, a, j).0,
        ).amounts@.len()
    } by {
        let r = ref_of(post, id, a, j);
        let prelen = pre.spec_account(id).spec_refs(a).len();
        if id == account && a == t && j >= prelen {
            lemma_rollback_refs_at(details, m0, j - prelen);
            lemma_count_ts_bounds(details.take(j - prelen), r.0);
            assert(count_ts(details, r.0) > 0) by {
                lemma_count_ts_take_step(details, r.0, j - prelen);
                lemma_count_ts_prefix_le(details, r.0, j - prelen + 1);
            };
            lemma_count_ts_prefix_le(details, r.0, j - prelen);
            assert(count_ts(details.take(j - prelen), r.0) < count_ts(details, r.0)) by {
                lemma_count_ts_take_step(details, r.0, j - prelen);
                lemma_count_ts_prefix_le(details, r.0, j - prelen + 1);
            };
        } else {
            assert(holds_ref(pre, id, a, j));
            assert(ref_of(pre, id, a, j) == r);
            if a == t {
                assert(m0.spec_has(r.0));
                assert(r.1 < base_len(m0, r.0));
                lemma_count_ts_bounds(details, r.0);
            } else {
                assert(post.spec_buckets(a) == pre.spec_buckets(a));
            }
        }
    };
}

/// With the detail at position `b` sharing timestamp `u`, the count of `u`
/// strictly grows from prefix `b` to any longer prefix.
proof fn lemma_count_ts_monotone(
    details: Seq<(UnixTimestamp, TokensAmount)>,
    u: UnixTimestamp,
    b1: int,
    b2: int,
)
    requires
        0 <= b1 < b2 <= details.len(),
        details[b1].0 == u,
    ensures
        count_ts(details.take(b1), u) < count_ts(details.take(b2), u),
    decreases b2 - b1,
{
    lemma_count_ts_take_step(details, u, b1);
    if b1 + 1 < b2 {
        lemma_count_ts_prefix_within(details, u, b1 + 1, b2);
    }
}

/// Counts over prefixes are monotone in the prefix length.
proof fn lemma_count_ts_prefix_within(
    details: Seq<(UnixTimestamp, TokensAmount)>,
    u: UnixTimestamp,
    k1: int,
    k2: int,
)
    requires
        0 <= k1 <= k2 <= details.len(),
    ensures
        count_ts(details.take(k1), u) <= count_ts(details.take(k2), u),
    decreases k2 - k1,
{
    if k1 < k2 {
        lemma_count_ts_take_step(details, u, k1);
        lemma_count_ts_prefix_within(details, u, k1 + 1, k2);
    }
}

} // verus!
