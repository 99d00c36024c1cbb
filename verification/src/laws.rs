//! Properties of the library that span several operations.

use crate::events::EventView;
use crate::model::{
    added, contains_id, id_position, ids_increasing, is_eligible, is_top_tier, lemma_added,
    lemma_id_position, lemma_id_position_at, lemma_remove_keeps_order, pool_wf, upsert,
    with_one_more, with_updated, without_id, CandidateView,
};
use crate::service::{
    counts_recorded, cycles_or_zero, events_after_eligibility, is_saved_form, knows,
    pool_after_eligibility, recorded_candidate, sponsored_or_zero, tier_or_default,
};
use crate::storage::{
    cycles_of_records, lemma_records_absent, lemma_records_last, member_candidate,
    members_top_tier, restored_members, tiers_of_records, AccountRecord, MemberRecord,
};
use crate::strategy::{
    round_robin_next, saved_index, stored_name, stored_resume, stored_strategy_of,
    AllocationStrategy, PerformanceBasedStrategy, RoundRobinStrategy, StoredStrategy,
};
use vstd::arithmetic::div_mod::{lemma_add_mod_noop, lemma_mod_add_multiples_vanish, lemma_small_mod};
use vstd::prelude::*;

verus! {

/// A candidate added to the pool is found under its id with exactly the
/// values it was added with, and removing that id leaves no member with it.
pub proof fn law_add_then_remove(s: Seq<CandidateView>, max: nat, c: CandidateView)
    requires
        pool_wf(s),
        is_top_tier(c.tier),
        max > 0,
    ensures
        contains_id(added(s, max, c), c.account_id),
        added(s, max, c)[id_position(added(s, max, c), c.account_id)] == c,
        !contains_id(without_id(added(s, max, c), c.account_id), c.account_id),
{
    lemma_added(s, max, c);
    let a = added(s, max, c);
    lemma_id_position(a, c.account_id);
    let k = choose|k: int| 0 <= k < a.len() && a[k] == c;
    assert(a[k].account_id == c.account_id);
    let p = id_position(a, c.account_id);
    if p != k {
        if p < k {
            assert(a[p].account_id < a[k].account_id);
        } else {
            assert(a[k].account_id < a[p].account_id);
        }
    }
    lemma_remove_keeps_order(a, p);
    let r = without_id(a, c.account_id);
    if contains_id(r, c.account_id) {
        let j = choose|j: int| 0 <= j < r.len() && #[trigger] r[j].account_id == c.account_id;
        if j < p {
            assert(r[j] == a[j]);
            assert(a[j].account_id < a[p].account_id);
        } else {
            assert(r[j] == a[j + 1]);
            assert(a[p].account_id < a[j + 1].account_id);
        }
    }
}

/// Recording a sponsorship for a member keeps it with one more sponsored
/// account while it stays under ten; a member that reaches ten sponsored
/// accounts leaves the pool.
pub proof fn law_full_sponsor_leaves_pool(s: Seq<CandidateView>, id: u128)
    requires
        pool_wf(s),
        contains_id(s, id),
        s[id_position(s, id)].sponsored_count < u32::MAX,
    ensures
        ({
            let p = id_position(s, id);
            let after = with_updated(s, p, with_one_more(s[p]));
            &&& s[p].sponsored_count + 1 >= 10 ==> !contains_id(after, id)
            &&& s[p].sponsored_count + 1 < 10 ==> after[p] == with_one_more(s[p])
                && after.len() == s.len()
        }),
{
    lemma_id_position(s, id);
    let p = id_position(s, id);
    if s[p].sponsored_count + 1 >= 10 {
        lemma_remove_keeps_order(s, p);
        let after = s.remove(p);
        if contains_id(after, id) {
            let j = choose|j: int| 0 <= j < after.len() && #[trigger] after[j].account_id == id;
            if j < p {
                assert(after[j] == s[j]);
                assert(s[j].account_id < s[p].account_id);
            } else {
                assert(after[j] == s[j + 1]);
                assert(s[p].account_id < s[j + 1].account_id);
            }
        }
    }
}

/// The round-robin position after `k` allocations among `len` eligible
/// sponsors, starting from position `start`.
pub open spec fn round_robin_after(start: nat, len: nat, k: nat) -> nat
    decreases k,
{
    if k == 0 {
        start
    } else {
        round_robin_next(round_robin_after(start, len, (k - 1) as nat), len)
    }
}

/// On an unchanged pool, round-robin hands out the eligible sponsors in pool
/// order: the `k`-th allocation from position `start` picks the sponsor at
/// `(start + k) % len`, so from a fresh strategy any `len` consecutive
/// allocations pick every eligible sponsor once.
pub proof fn law_round_robin_visits_in_order(start: nat, len: nat, k: nat)
    requires
        len > 0,
    ensures
        round_robin_after(start, len, k) % len == (start + k) % len,
        start == 0 && k < len ==> round_robin_after(start, len, k) % len == k,
    decreases k,
{
    if k > 0 {
        law_round_robin_visits_in_order(start, len, (k - 1) as nat);
        let a = round_robin_after(start, len, (k - 1) as nat);
        lemma_add_mod_noop(a as int, 1, len as int);
        lemma_add_mod_noop((start + k - 1) as int, 1, len as int);
        if len > 1 {
            lemma_small_mod(1, len);
        }
        let n = round_robin_after(start, len, k);
        assert(n == ((a % len + 1) % len) as nat);
        assert(n < len);
        lemma_small_mod(n, len);
    }
    if start == 0 && k < len {
        lemma_small_mod(k, len);
    }
}

/// A flushline graduation never adds a sponsor: the account is recorded in
/// the Ace tier, which does not qualify, so it only leaves the pool if it was
/// in it, and only then is an event reported.
pub proof fn law_graduation_never_adds(
    pool: Seq<CandidateView>,
    max: nat,
    tiers: Map<u128, Seq<char>>,
    cycles: Map<u128, u32>,
    counts: Map<u128, u32>,
    id: u128,
)
    ensures
        pool_after_eligibility(pool, max, tiers.insert(id, "Ace"@), cycles, counts, id)
            == without_id(pool, id),
        events_after_eligibility(pool, max, tiers.insert(id, "Ace"@), cycles, counts, id)
            == if contains_id(pool, id) {
            seq![EventView::SponsorRemoved { sponsor_id: id, reason: "No longer eligible"@ }]
        } else {
            Seq::<EventView>::empty()
        },
{
    reveal_strlit("Ace");
    reveal_strlit("King");
    assert("Ace"@.len() != "King"@.len());
}

/// Restoring members that stand for the entries of well-formed contents, in
/// order, gives back those contents.
proof fn lemma_restored_prefix(
    pool: Seq<CandidateView>,
    tiers: Map<u128, Seq<char>>,
    cycles: Map<u128, u32>,
    members: Seq<MemberRecord>,
    j: int,
)
    requires
        pool_wf(pool),
        members.len() == pool.len(),
        forall|i: int|
            0 <= i < pool.len() ==> #[trigger] member_candidate(tiers, cycles, members[i])
                == pool[i],
        0 <= j <= pool.len(),
    ensures
        restored_members(tiers, cycles, members.take(j)) == pool.take(j),
    decreases j,
{
    if j == 0 {
        assert(members.take(0) =~= Seq::<MemberRecord>::empty());
        assert(pool.take(0) =~= Seq::<CandidateView>::empty());
    } else {
        lemma_restored_prefix(pool, tiers, cycles, members, j - 1);
        let prior = pool.take(j - 1);
        let c = pool[j - 1];
        assert(members.take(j).drop_last() =~= members.take(j - 1));
        assert(members.take(j).last() == members[j - 1]);
        assert(member_candidate(tiers, cycles, members[j - 1]) == c);
        assert(pool_wf(prior)) by {
            assert forall|a: int, b: int| 0 <= a < b < prior.len() implies #[trigger] prior[a].account_id
                < #[trigger] prior[b].account_id by {
                assert(pool[a].account_id < pool[b].account_id);
            }
            assert forall|a: int| 0 <= a < prior.len() implies is_top_tier(#[trigger] prior[a].tier) by {
                assert(prior[a] == pool[a]);
            }
        }
        assert forall|q: int| 0 <= q < j - 1 implies #[trigger] prior[q].account_id < c.account_id by {
            assert(pool[q].account_id < pool[j - 1].account_id);
        }
        lemma_id_position_at(prior, c.account_id, j - 1);
        assert(upsert(prior, c) == prior.insert(j - 1, c));
        assert(prior.insert(j - 1, c) =~= pool.take(j));
    }
}

/// Restoring what saving a service writes gives back its pool exactly; the
/// restored tier and cycles of an account outside the pool are those
/// recorded before ("Ten" and zero where nothing was), and a pool member's
/// account is recorded with the member's own tier and cycles.
pub proof fn law_save_then_restore(
    pool: Seq<CandidateView>,
    tiers: Map<u128, Seq<char>>,
    cycles: Map<u128, u32>,
    accounts: Seq<AccountRecord>,
    members: Seq<MemberRecord>,
)
    requires
        pool_wf(pool),
        is_saved_form(pool, tiers, cycles, accounts, members),
    ensures
        members_top_tier(tiers_of_records(accounts), cycles_of_records(accounts), members),
        restored_members(tiers_of_records(accounts), cycles_of_records(accounts), members) == pool,
        forall|id: u128|
            !contains_id(pool, id) ==> tier_or_default(tiers_of_records(accounts), id)
                == #[trigger] tier_or_default(tiers, id) && cycles_or_zero(
                cycles_of_records(accounts),
                id,
            ) == cycles_or_zero(cycles, id),
        forall|i: int|
            #![trigger pool[i]]
            0 <= i < pool.len() ==> tiers_of_records(accounts)[pool[i].account_id] == pool[i].tier
                && cycles_of_records(accounts)[pool[i].account_id] == pool[i].cycle_count,
{
    let t = tiers_of_records(accounts);
    let c = cycles_of_records(accounts);
    let k = accounts.len() - pool.len();
    assert forall|i: int|
        #![trigger pool[i]]
        0 <= i < pool.len() implies t.contains_key(pool[i].account_id) && t[pool[i].account_id]
        == pool[i].tier && c.contains_key(pool[i].account_id) && c[pool[i].account_id]
        == pool[i].cycle_count by {
        assert forall|j: int| k + i < j < accounts.len() implies #[trigger] accounts[j].account_id
            != accounts[k + i].account_id by {
            let q = j - k;
            assert(pool[q].account_id > pool[i].account_id);
        }
        lemma_records_last(accounts, k + i);
    }
    assert forall|id: u128| !contains_id(pool, id) implies tier_or_default(t, id)
        == #[trigger] tier_or_default(tiers, id) && cycles_or_zero(c, id) == cycles_or_zero(
        cycles,
        id,
    ) by {
        assert forall|j: int| k <= j < accounts.len() implies #[trigger] accounts[j].account_id
            != id by {
            let q = j - k;
            assert(pool[q].account_id == accounts[j].account_id);
        }
        if knows(tiers, cycles, id) {
            let i = choose|i: int| 0 <= i < k && #[trigger] accounts[i].account_id == id;
            assert forall|j: int| i < j < accounts.len() implies #[trigger] accounts[j].account_id
                != accounts[i].account_id by {
                if j < k {
                    assert(accounts[i].account_id != accounts[j].account_id);
                }
            }
            lemma_records_last(accounts, i);
        } else {
            assert forall|j: int| 0 <= j < accounts.len() implies #[trigger] accounts[j].account_id
                != id by {
                if j < k {
                    assert(knows(tiers, cycles, accounts[j].account_id));
                }
            }
            lemma_records_absent(accounts, id);
        }
    }
    assert forall|i: int|
        0 <= i < pool.len() implies #[trigger] member_candidate(t, c, members[i]) == pool[i] by {
        assert(members[i].account_id == pool[i].account_id);
    }
    assert forall|i: int|
        0 <= i < members.len() implies is_top_tier(
        #[trigger] member_candidate(t, c, members[i]).tier,
    ) by {
        assert(member_candidate(t, c, members[i]) == pool[i]);
    }
    lemma_restored_prefix(pool, t, c, members, pool.len() as int);
    assert(members.take(pool.len() as int) =~= members);
    assert(pool.take(pool.len() as int) =~= pool);
}


/// Removing the member at `p` leaves no member with its id.
proof fn lemma_removed_id_absent(s: Seq<CandidateView>, p: int)
    requires
        pool_wf(s),
        0 <= p < s.len(),
    ensures
        !contains_id(s.remove(p), s[p].account_id),
{
    lemma_remove_keeps_order(s, p);
    let r = s.remove(p);
    if contains_id(r, s[p].account_id) {
        let j = choose|j: int| 0 <= j < r.len() && #[trigger] r[j].account_id == s[p].account_id;
        if j < p {
            assert(r[j] == s[j]);
            assert(s[j].account_id < s[p].account_id);
        } else {
            assert(r[j] == s[j + 1]);
            assert(s[p].account_id < s[j + 1].account_id);
        }
    }
}

/// Replacing a member by a candidate under the same id keeps the contents
/// well formed: every member a King, each under its own id, in id order.
/// The replacement stays, in the member's place, only while it is
/// eligible; every other member stays.
pub proof fn law_update_keeps_pool_valid(s: Seq<CandidateView>, p: int, c: CandidateView)
    requires
        pool_wf(s),
        0 <= p < s.len(),
        c.account_id == s[p].account_id,
    ensures
        pool_wf(with_updated(s, p, c)),
        is_eligible(c) ==> contains_id(with_updated(s, p, c), c.account_id) && id_position(
            with_updated(s, p, c),
            c.account_id,
        ) == p && with_updated(s, p, c)[p] == c,
        !is_eligible(c) ==> !contains_id(with_updated(s, p, c), c.account_id),
        forall|k: int| 0 <= k < s.len() && k != p ==> with_updated(s, p, c).contains(#[trigger] s[k]),
{
    let a = with_updated(s, p, c);
    if is_eligible(c) {
        assert forall|i: int| 0 <= i < a.len() implies #[trigger] a[i].account_id == s[i].account_id by {}
        assert forall|i: int, j: int| 0 <= i < j < a.len() implies #[trigger] a[i].account_id
            < #[trigger] a[j].account_id by {
            assert(s[i].account_id < s[j].account_id);
        }
        assert forall|i: int| 0 <= i < a.len() implies is_top_tier(#[trigger] a[i].tier) by {
            if i != p {
                assert(a[i] == s[i]);
            }
        }
        assert forall|j: int| 0 <= j < p implies #[trigger] a[j].account_id < c.account_id by {
            assert(s[j].account_id < s[p].account_id);
        }
        lemma_id_position_at(a, c.account_id, p);
        assert(a[p].account_id == c.account_id);
        assert forall|k: int| 0 <= k < s.len() && k != p implies a.contains(#[trigger] s[k]) by {
            assert(a[k] == s[k]);
        }
    } else {
        lemma_remove_keeps_order(s, p);
        lemma_removed_id_absent(s, p);
        assert forall|k: int| 0 <= k < s.len() && k != p implies a.contains(#[trigger] s[k]) by {
            if k < p {
                assert(a[k] == s[k]);
            } else {
                assert(a[k - 1] == s[k]);
            }
        }
    }
}

/// An account whose recorded sponsored accounts have reached ten is never
/// offered for allocation after its eligibility is brought up to date,
/// whatever its tier and cycles: it may come back to the pool, but with its
/// recorded count, never with a fresh one.
pub proof fn law_capped_account_never_eligible(
    pool: Seq<CandidateView>,
    max: nat,
    tiers: Map<u128, Seq<char>>,
    cycles: Map<u128, u32>,
    counts: Map<u128, u32>,
    id: u128,
)
    requires
        pool_wf(pool),
        counts_recorded(pool, counts),
        sponsored_or_zero(counts, id) >= 10,
    ensures
        forall|i: int|
            0 <= i < pool_after_eligibility(pool, max, tiers, cycles, counts, id).len()
                && #[trigger] pool_after_eligibility(pool, max, tiers, cycles, counts, id)[i].account_id
                == id ==> !is_eligible(pool_after_eligibility(pool, max, tiers, cycles, counts, id)[i]),
{
    let c = recorded_candidate(tiers, cycles, counts, id);
    let a = pool_after_eligibility(pool, max, tiers, cycles, counts, id);
    if is_top_tier(c.tier) {
        lemma_added(pool, max, c);
        assert forall|i: int| 0 <= i < a.len() && #[trigger] a[i].account_id == id implies !is_eligible(a[i]) by {
            if a[i] != c {
                let j = choose|j: int| 0 <= j < pool.len() && pool[j] == a[i];
                assert(sponsored_or_zero(counts, pool[j].account_id) == pool[j].sponsored_count);
            }
        }
    } else {
        lemma_id_position(pool, id);
        if contains_id(pool, id) {
            lemma_removed_id_absent(pool, id_position(pool, id));
        }
    }
}

/// How many of `oks` hold.
pub open spec fn count_true(oks: Seq<bool>) -> nat
    decreases oks.len(),
{
    if oks.len() == 0 {
        0
    } else {
        count_true(oks.drop_last()) + if oks.last() {
            1nat
        } else {
            0nat
        }
    }
}

/// Over any run of calls that each either allocate account `a` as sponsor
/// (`oks[k]`), which needs its recorded count below ten and raises it by
/// one, or leave its recorded count alone, as the event handlers, tier
/// updates and other allocations do, `a` is allocated at most ten times
/// in all, starting from a service that recorded nothing for it.
pub proof fn law_at_most_ten_allocations(oks: Seq<bool>, counts: Seq<int>)
    requires
        counts.len() == oks.len() + 1,
        counts[0] == 0,
        forall|k: int|
            0 <= k < oks.len() ==> if #[trigger] oks[k] {
                counts[k] < 10 && counts[k + 1] == counts[k] + 1
            } else {
                counts[k + 1] == counts[k]
            },
    ensures
        count_true(oks) <= 10,
        count_true(oks) == counts[oks.len() as int],
    decreases oks.len(),
{
    if oks.len() > 0 {
        let n = oks.len() - 1;
        let o = oks.drop_last();
        let c = counts.drop_last();
        assert forall|k: int| 0 <= k < o.len() implies if #[trigger] o[k] {
            c[k] < 10 && c[k + 1] == c[k] + 1
        } else {
            c[k + 1] == c[k]
        } by {
            assert(o[k] == oks[k]);
        }
        law_at_most_ten_allocations(o, c);
        assert(oks[n] == oks.last());
        if oks[n] {
            assert(counts[n] < 10);
        }
    }
}

/// The account id that the `k`-th of a run of round-robin allocations from
/// position `start` picks among the eligible sponsors `e`.
pub open spec fn round_robin_pick(start: nat, e: Seq<CandidateView>, k: nat) -> u128 {
    e[(round_robin_after(start, e.len(), k) % e.len()) as int].account_id
}

/// Which of a run of round-robin allocations among `len` eligible sponsors,
/// from position `start`, reaches the sponsor at position `j`.
pub open spec fn round_robin_turn(start: nat, len: nat, j: int) -> nat {
    let s0 = start % len;
    if j >= s0 {
        (j - s0) as nat
    } else {
        (j + len - s0) as nat
    }
}

/// A number below twice `len`, taken modulo `len`.
proof fn lemma_mod_below_twice(x: nat, len: nat)
    requires
        0 < len,
        x < 2 * len,
    ensures
        x % len == if x < len {
            x
        } else {
            (x - len) as nat
        },
{
    if x < len {
        lemma_small_mod(x, len);
    } else {
        lemma_mod_add_multiples_vanish(x - len, len as int);
        lemma_small_mod((x - len) as nat, len);
    }
}

/// On an unchanged pool whose eligible sponsors are `e`, `e.len()`
/// consecutive round-robin allocations from any position pick every
/// eligible sponsor exactly once, and the allocation after them picks the
/// same sponsor as the first.
pub proof fn law_round_robin_covers_all(start: nat, e: Seq<CandidateView>)
    requires
        e.len() > 0,
        ids_increasing(e),
    ensures
        forall|j: int|
            0 <= j < e.len() ==> round_robin_turn(start, e.len(), j) < e.len() && #[trigger] round_robin_pick(
                start,
                e,
                round_robin_turn(start, e.len(), j),
            ) == e[j].account_id,
        forall|k1: nat, k2: nat|
            k1 < k2 < e.len() ==> #[trigger] round_robin_pick(start, e, k1)
                != #[trigger] round_robin_pick(start, e, k2),
        round_robin_pick(start, e, e.len()) == round_robin_pick(start, e, 0),
{
    let len = e.len();
    let s0 = start % len;
    assert(s0 < len) by {
        vstd::arithmetic::div_mod::lemma_mod_bound(start as int, len as int);
    }
    assert forall|k: nat| k < len implies (round_robin_after(start, len, k) % len) as int
        == ((s0 + k) % len) as int by {
        law_round_robin_visits_in_order(start, len, k);
        lemma_add_mod_noop(start as int, k as int, len as int);
        lemma_small_mod(k, len);
    }
    assert forall|j: int| 0 <= j < e.len() implies round_robin_turn(start, e.len(), j) < e.len()
        && #[trigger] round_robin_pick(start, e, round_robin_turn(start, e.len(), j))
        == e[j].account_id by {
        let k = round_robin_turn(start, len, j);
        lemma_mod_below_twice((s0 + k) as nat, len);
        assert(round_robin_pick(start, e, k) == e[j].account_id);
        assert(k < len);
    }
    assert forall|k1: nat, k2: nat| k1 < k2 < e.len() implies #[trigger] round_robin_pick(start, e, k1)
        != #[trigger] round_robin_pick(start, e, k2) by {
        lemma_mod_below_twice((s0 + k1) as nat, len);
        lemma_mod_below_twice((s0 + k2) as nat, len);
        let q1 = ((s0 + k1) % len) as int;
        let q2 = ((s0 + k2) % len) as int;
        assert(q1 != q2);
        if q1 < q2 {
            assert(e[q1].account_id < e[q2].account_id);
        } else {
            assert(e[q2].account_id < e[q1].account_id);
        }
    }
    law_round_robin_visits_in_order(start, len, len);
    law_round_robin_visits_in_order(start, len, 0);
    lemma_mod_add_multiples_vanish(start as int, len as int);
}

/// A saved strategy reads back as the same strategy: round-robin under its
/// name, continuing from the same position; performance-based under its
/// name.
pub proof fn law_strategy_round_trip(rr: RoundRobinStrategy, pb: PerformanceBasedStrategy)
    ensures
        stored_strategy_of(rr.name_view(), saved_index(rr.resume_index()))
            == (StoredStrategy::RoundRobin { last_allocated_index: rr.next_index() as usize }),
        stored_resume(stored_strategy_of(rr.name_view(), saved_index(rr.resume_index())))
            == rr.resume_index(),
        stored_name(stored_strategy_of(rr.name_view(), saved_index(rr.resume_index())))
            == rr.name_view(),
        stored_strategy_of(pb.name_view(), saved_index(pb.resume_index()))
            == StoredStrategy::PerformanceBased,
        stored_resume(stored_strategy_of(pb.name_view(), saved_index(pb.resume_index())))
            == pb.resume_index(),
        stored_name(stored_strategy_of(pb.name_view(), saved_index(pb.resume_index())))
            == pb.name_view(),
{
    reveal_strlit("round_robin");
    reveal_strlit("performance_based");
    assert("round_robin"@.len() != "performance_based"@.len());
}

/// Saving a service and loading it back gives the same service: restoring
/// the saved records succeeds, within the pool's size, with exactly the
/// saved pool (so the same statistics and eligible sponsors), and a saved
/// strategy of either kind reads back under the same name at the same
/// position.
pub proof fn law_service_round_trip(
    pool: Seq<CandidateView>,
    max: nat,
    tiers: Map<u128, Seq<char>>,
    cycles: Map<u128, u32>,
    accounts: Seq<AccountRecord>,
    members: Seq<MemberRecord>,
    name: Seq<char>,
    resume: Option<usize>,
)
    requires
        pool_wf(pool),
        pool.len() <= max,
        is_saved_form(pool, tiers, cycles, accounts, members),
        (name == "round_robin"@ && resume is Some) || (name == "performance_based"@ && resume is None),
    ensures
        members_top_tier(tiers_of_records(accounts), cycles_of_records(accounts), members),
        restored_members(tiers_of_records(accounts), cycles_of_records(accounts), members) == pool,
        restored_members(tiers_of_records(accounts), cycles_of_records(accounts), members).len() <= max,
        stored_name(stored_strategy_of(name, saved_index(resume))) == name,
        stored_resume(stored_strategy_of(name, saved_index(resume))) == resume,
{
    law_save_then_restore(pool, tiers, cycles, accounts, members);
    reveal_strlit("round_robin");
    reveal_strlit("performance_based");
    assert("round_robin"@.len() != "performance_based"@.len());
}


/// Bringing an account's eligibility up to date follows its recorded tier.
/// An account recorded in any tier other than King (or in none) is no
/// member afterwards, every other member stays, and `SponsorRemoved` is
/// reported exactly when it was a member. A King account is reported added
/// and, when the pool has room at all, is a member with its recorded tier,
/// cycles and sponsored count.
pub proof fn law_eligibility_follows_tier(
    pool: Seq<CandidateView>,
    max: nat,
    tiers: Map<u128, Seq<char>>,
    cycles: Map<u128, u32>,
    counts: Map<u128, u32>,
    id: u128,
)
    requires
        pool_wf(pool),
    ensures
        !is_top_tier(tier_or_default(tiers, id)) ==> {
            &&& !contains_id(pool_after_eligibility(pool, max, tiers, cycles, counts, id), id)
            &&& forall|k: int|
                0 <= k < pool.len() && pool[k].account_id != id ==> pool_after_eligibility(
                    pool,
                    max,
                    tiers,
                    cycles,
                    counts,
                    id,
                ).contains(#[trigger] pool[k])
            &&& events_after_eligibility(pool, max, tiers, cycles, counts, id) == if contains_id(
                pool,
                id,
            ) {
                seq![EventView::SponsorRemoved { sponsor_id: id, reason: "No longer eligible"@ }]
            } else {
                Seq::<EventView>::empty()
            }
        },
        is_top_tier(tier_or_default(tiers, id)) ==> events_after_eligibility(
            pool,
            max,
            tiers,
            cycles,
            counts,
            id,
        ) == seq![
            EventView::SponsorAdded {
                sponsor_id: id,
                tier: tier_or_default(tiers, id),
                cycle_count: cycles_or_zero(cycles, id),
            },
        ],
        is_top_tier(tier_or_default(tiers, id)) && max > 0 ==> {
            let after = pool_after_eligibility(pool, max, tiers, cycles, counts, id);
            &&& contains_id(after, id)
            &&& after[id_position(after, id)] == CandidateView {
                account_id: id,
                tier: tier_or_default(tiers, id),
                cycle_count: cycles_or_zero(cycles, id),
                sponsored_count: sponsored_or_zero(counts, id),
            }
        },
{
    let c = recorded_candidate(tiers, cycles, counts, id);
    let after = pool_after_eligibility(pool, max, tiers, cycles, counts, id);
    lemma_id_position(pool, id);
    if !is_top_tier(c.tier) {
        if contains_id(pool, id) {
            let p = id_position(pool, id);
            lemma_removed_id_absent(pool, p);
            lemma_remove_keeps_order(pool, p);
            assert forall|k: int| 0 <= k < pool.len() && pool[k].account_id != id implies after.contains(
                #[trigger] pool[k],
            ) by {
                if k < p {
                    assert(after[k] == pool[k]);
                } else {
                    assert(k != p);
                    assert(after[k - 1] == pool[k]);
                }
            }
        } else {
            assert forall|k: int| 0 <= k < pool.len() && pool[k].account_id != id implies after.contains(
                #[trigger] pool[k],
            ) by {}
        }
    } else if max > 0 {
        law_add_then_remove(pool, max, c);
    }
}

} // verus!
