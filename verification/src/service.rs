use crate::error::SponsorAllocationError;
use crate::events::{event_views, EventView, FlushlineGraduated, MatrixCycled, SponsorEvent};
use crate::model::{
    add_scores_fit, added, all_scores_fit, collected, contains_id, eligible_entries, id_position,
    ids_increasing, is_eligible, is_top_selection, is_top_tier, lemma_added, lemma_id_position,
    lemma_other_ids, pool_wf,
    lemma_remove_keeps_order, lemma_upsert, upsert, refreshed, with_one_more, with_updated,
    without_id, CandidateView,
};
use crate::pool::{views_of, PoolStats, SponsorCandidate, SponsorPool};
use crate::storage::{
    cycles_of_records, member_candidate, members_top_tier, restored_members, tiers_of_records,
    AccountRecord, MemberRecord, ServiceState,
};
use crate::strategy::{lemma_eligible_member, offers_eligible, saved_index, AllocationStrategy};
use std::collections::HashMap;
use vstd::prelude::*;

verus! {

/// The tier recorded for `id`, "Ten" when none is.
pub open spec fn tier_or_default(tiers: Map<u128, Seq<char>>, id: u128) -> Seq<char> {
    if tiers.contains_key(id) {
        tiers[id]
    } else {
        "Ten"@
    }
}

/// The matrix cycles recorded for `id`, zero when none are.
pub open spec fn cycles_or_zero(cycles: Map<u128, u32>, id: u128) -> u32 {
    if cycles.contains_key(id) {
        cycles[id]
    } else {
        0
    }
}

/// The sponsored accounts recorded for `id`, zero when none are.
pub open spec fn sponsored_or_zero(counts: Map<u128, u32>, id: u128) -> u32 {
    if counts.contains_key(id) {
        counts[id]
    } else {
        0
    }
}

/// Every pool member's sponsored count is the one recorded for it.
pub open spec fn counts_recorded(pool: Seq<CandidateView>, counts: Map<u128, u32>) -> bool {
    forall|i: int|
        0 <= i < pool.len() ==> sponsored_or_zero(counts, #[trigger] pool[i].account_id)
            == pool[i].sponsored_count
}

/// The candidate the recorded tier, cycles and sponsored accounts make of
/// `id`.
pub open spec fn recorded_candidate(
    tiers: Map<u128, Seq<char>>,
    cycles: Map<u128, u32>,
    counts: Map<u128, u32>,
    id: u128,
) -> CandidateView {
    CandidateView {
        account_id: id,
        tier: tier_or_default(tiers, id),
        cycle_count: cycles_or_zero(cycles, id),
        sponsored_count: sponsored_or_zero(counts, id),
    }
}

/// Pool contents after the eligibility of `id` was brought up to date with
/// its recorded tier, cycles and sponsored accounts: an account in the top
/// tier is added to the pool, as by the pool's `add_sponsor` (on a full pool
/// the lowest scorer is evicted first), keeping its recorded sponsored
/// count; any other account leaves the pool.
pub open spec fn pool_after_eligibility(
    pool: Seq<CandidateView>,
    max: nat,
    tiers: Map<u128, Seq<char>>,
    cycles: Map<u128, u32>,
    counts: Map<u128, u32>,
    id: u128,
) -> Seq<CandidateView> {
    let c = recorded_candidate(tiers, cycles, counts, id);
    if is_top_tier(c.tier) {
        added(pool, max, c)
    } else {
        without_id(pool, id)
    }
}

/// Events reported by that update: the addition of an account in the top
/// tier, or the removal of a member that no longer qualifies.
pub open spec fn events_after_eligibility(
    pool: Seq<CandidateView>,
    max: nat,
    tiers: Map<u128, Seq<char>>,
    cycles: Map<u128, u32>,
    counts: Map<u128, u32>,
    id: u128,
) -> Seq<EventView> {
    let c = recorded_candidate(tiers, cycles, counts, id);
    if is_top_tier(c.tier) {
        seq![EventView::SponsorAdded { sponsor_id: id, tier: c.tier, cycle_count: c.cycle_count }]
    } else if contains_id(pool, id) {
        seq![EventView::SponsorRemoved { sponsor_id: id, reason: "No longer eligible"@ }]
    } else {
        Seq::empty()
    }
}

/// That update can compute the scores it needs.
pub open spec fn eligibility_scores_fit(
    pool: Seq<CandidateView>,
    max: nat,
    tiers: Map<u128, Seq<char>>,
    cycles: Map<u128, u32>,
    counts: Map<u128, u32>,
    id: u128,
) -> bool {
    add_scores_fit(pool, max, recorded_candidate(tiers, cycles, counts, id))
}

/// Contents made only of entries of contents whose counts are recorded have
/// their counts recorded too.
pub proof fn lemma_counts_recorded_subset(
    s: Seq<CandidateView>,
    t: Seq<CandidateView>,
    counts: Map<u128, u32>,
)
    requires
        counts_recorded(s, counts),
        forall|k: int| 0 <= k < t.len() ==> s.contains(#[trigger] t[k]),
    ensures
        counts_recorded(t, counts),
{
    assert forall|k: int| 0 <= k < t.len() implies sponsored_or_zero(
        counts,
        #[trigger] t[k].account_id,
    ) == t[k].sponsored_count by {
        assert(s.contains(t[k]));
        let j = choose|j: int| 0 <= j < s.len() && s[j] == t[k];
    }
}

/// `counts` with the sponsored count of each entry of `s` recorded under
/// its id, a later entry replacing an earlier one.
pub open spec fn counts_with(counts: Map<u128, u32>, s: Seq<CandidateView>) -> Map<u128, u32>
    decreases s.len(),
{
    if s.len() == 0 {
        counts
    } else {
        counts_with(counts, s.drop_last()).insert(s.last().account_id, s.last().sponsored_count)
    }
}

/// The sponsored counts that stored members record, a later member of an
/// account replacing an earlier one.
pub open spec fn counts_of_members(members: Seq<MemberRecord>) -> Map<u128, u32>
    decreases members.len(),
{
    if members.len() == 0 {
        Map::empty()
    } else {
        counts_of_members(members.drop_last()).insert(
            members.last().account_id,
            members.last().sponsored_count,
        )
    }
}

/// Recording the counts of contents ordered by id records each entry's own
/// count.
pub proof fn lemma_counts_with(counts: Map<u128, u32>, s: Seq<CandidateView>)
    requires
        ids_increasing(s),
    ensures
        counts_recorded(s, counts_with(counts, s)),
    decreases s.len(),
{
    if s.len() > 0 {
        let t = s.drop_last();
        assert(ids_increasing(t)) by {
            assert forall|i: int, j: int| 0 <= i < j < t.len() implies #[trigger] t[i].account_id
                < #[trigger] t[j].account_id by {
                assert(s[i].account_id < s[j].account_id);
            }
        }
        lemma_counts_with(counts, t);
        let m = counts_with(counts, s);
        assert forall|i: int| 0 <= i < s.len() implies sponsored_or_zero(
            m,
            #[trigger] s[i].account_id,
        ) == s[i].sponsored_count by {
            if i < s.len() - 1 {
                assert(s[i].account_id < s[s.len() - 1].account_id);
                assert(t[i] == s[i]);
            }
        }
    }
}

/// Storing `c` and recording its count keeps every member's count recorded.
pub proof fn lemma_counts_after_store(
    s: Seq<CandidateView>,
    c: CandidateView,
    counts: Map<u128, u32>,
)
    requires
        pool_wf(s),
        is_top_tier(c.tier),
        counts_recorded(s, counts),
    ensures
        counts_recorded(upsert(s, c), counts.insert(c.account_id, c.sponsored_count)),
{
    lemma_upsert(s, c);
    let u = upsert(s, c);
    lemma_other_ids(u, c);
    let m = counts.insert(c.account_id, c.sponsored_count);
    assert forall|i: int| 0 <= i < u.len() implies sponsored_or_zero(
        m,
        #[trigger] u[i].account_id,
    ) == u[i].sponsored_count by {
        if u[i] != c {
            let j = choose|j: int| 0 <= j < s.len() && s[j] == u[i];
            assert(u[i].account_id != c.account_id);
        }
    }
}

/// Replacing the member at `p` by `c`, under the same id, and recording the
/// count of `c` keeps every member's count recorded.
pub proof fn lemma_counts_after_update(
    s: Seq<CandidateView>,
    p: int,
    c: CandidateView,
    counts: Map<u128, u32>,
)
    requires
        ids_increasing(s),
        0 <= p < s.len(),
        c.account_id == s[p].account_id,
        counts_recorded(s, counts),
    ensures
        counts_recorded(with_updated(s, p, c), counts.insert(c.account_id, c.sponsored_count)),
{
    let a = with_updated(s, p, c);
    let m = counts.insert(c.account_id, c.sponsored_count);
    assert forall|i: int| 0 <= i < a.len() implies sponsored_or_zero(
        m,
        #[trigger] a[i].account_id,
    ) == a[i].sponsored_count by {
        if is_eligible(c) {
            if i < p {
                assert(a[i] == s[i]);
                assert(s[i].account_id < s[p].account_id);
            } else if i > p {
                assert(a[i] == s[i]);
                assert(s[p].account_id < s[i].account_id);
            }
        } else {
            if i < p {
                assert(a[i] == s[i]);
                assert(s[i].account_id < s[p].account_id);
            } else {
                assert(a[i] == s[i + 1]);
                assert(s[p].account_id < s[i + 1].account_id);
            }
        }
    }
}

/// Sponsor allocation, pool maintenance and event processing. Every method
/// that changes state reports the change as outbox events.
pub struct SponsorService<S: AllocationStrategy + ?Sized = dyn AllocationStrategy> {
    sponsor_pool: SponsorPool,
    allocation_strategy: Box<S>,
    account_tiers: HashMap<u128, String>,
    account_cycles: HashMap<u128, u32>,
    account_sponsorships: HashMap<u128, u32>,
}

impl<S: AllocationStrategy + ?Sized> SponsorService<S> {
    pub closed spec fn pool(&self) -> SponsorPool {
        self.sponsor_pool
    }

    pub closed spec fn strategy(&self) -> Box<S> {
        self.allocation_strategy
    }

    /// The tier recorded for each account.
    pub closed spec fn tiers(&self) -> Map<u128, Seq<char>> {
        self.account_tiers@.map_values(|t: String| t@)
    }

    /// The matrix cycles recorded for each account.
    pub closed spec fn cycles(&self) -> Map<u128, u32> {
        self.account_cycles@
    }

    /// The number of accounts each account sponsors, kept also for accounts
    /// that left the pool.
    pub closed spec fn sponsorships(&self) -> Map<u128, u32> {
        self.account_sponsorships@
    }

    pub open spec fn wf(&self) -> bool {
        &&& self.pool().wf()
        &&& counts_recorded(self.pool()@, self.sponsorships())
    }

    /// A service with an empty pool of size `max_pool_size` that allocates
    /// with `allocation_strategy`.
    pub fn new(allocation_strategy: Box<S>, max_pool_size: usize) -> (s: Self)
        ensures
            s.wf(),
            s.pool()@ == Seq::<CandidateView>::empty(),
            s.pool().max_size() == max_pool_size,
            s.strategy() == allocation_strategy,
            s.tiers() == Map::<u128, Seq<char>>::empty(),
            s.cycles() == Map::<u128, u32>::empty(),
            s.sponsorships() == Map::<u128, u32>::empty(),
    {
        let s = SponsorService {
            sponsor_pool: SponsorPool::new(max_pool_size),
            allocation_strategy,
            account_tiers: HashMap::new(),
            account_cycles: HashMap::new(),
            account_sponsorships: HashMap::new(),
        };
        assert(s.tiers() =~= Map::<u128, Seq<char>>::empty());
        s
    }

    /// Bring the pool membership of `account_id` up to date with its
    /// recorded tier, cycles and sponsored accounts.
    fn update_sponsor_eligibility(&mut self, account_id: u128) -> (events: Vec<SponsorEvent>)
        requires
            old(self).wf(),
            eligibility_scores_fit(
                old(self).pool()@,
                old(self).pool().max_size(),
                old(self).tiers(),
                old(self).cycles(),
                old(self).sponsorships(),
                account_id,
            ),
        ensures
            final(self).wf(),
            final(self).pool().max_size() == old(self).pool().max_size(),
            final(self).strategy() == old(self).strategy(),
            final(self).tiers() == old(self).tiers(),
            final(self).cycles() == old(self).cycles(),
            final(self).sponsorships() == old(self).sponsorships(),
            final(self).pool()@ == pool_after_eligibility(
                old(self).pool()@,
                old(self).pool().max_size(),
                old(self).tiers(),
                old(self).cycles(),
                old(self).sponsorships(),
                account_id,
            ),
            event_views(events@) == events_after_eligibility(
                old(self).pool()@,
                old(self).pool().max_size(),
                old(self).tiers(),
                old(self).cycles(),
                old(self).sponsorships(),
                account_id,
            ),
    {
        proof {
            reveal_strlit("Ten");
        }
        let tier = match self.account_tiers.get(&account_id) {
            Some(t) => t.clone(),
            None => "Ten".to_string(),
        };
        let cycle_count = match self.account_cycles.get(&account_id) {
            Some(c) => *c,
            None => 0,
        };
        let sponsored_count = match self.account_sponsorships.get(&account_id) {
            Some(c) => *c,
            None => 0,
        };
        let candidate = SponsorCandidate {
            account_id,
            tier: tier.clone(),
            cycle_count,
            sponsored_count,
        };
        let ghost c = candidate@;
        assert(c == recorded_candidate(
            self.tiers(),
            self.cycles(),
            self.sponsorships(),
            account_id,
        ));
        let ghost before = self.sponsor_pool@;
        proof {
            lemma_id_position(before, account_id);
        }
        let mut events: Vec<SponsorEvent> = Vec::new();
        if candidate.is_top_performer() {
            proof {
                lemma_added(before, self.sponsor_pool.max_size(), c);
            }
            match self.sponsor_pool.add_sponsor(candidate) {
                Ok(()) => {
                    events.push(SponsorEvent::SponsorAdded { sponsor_id: account_id, tier, cycle_count });
                },
                Err(_) => {},
            }
            proof {
                let after = self.sponsor_pool@;
                assert forall|i: int| 0 <= i < after.len() implies sponsored_or_zero(
                    self.sponsorships(),
                    #[trigger] after[i].account_id,
                ) == after[i].sponsored_count by {
                    if after[i] != c {
                        let j = choose|j: int| 0 <= j < before.len() && before[j] == after[i];
                    }
                }
            }
        } else {
            proof {
                lemma_id_position(self.sponsor_pool@, account_id);
            }
            if self.sponsor_pool.remove_sponsor(account_id).is_ok() {
                events.push(
                    SponsorEvent::SponsorRemoved {
                        sponsor_id: account_id,
                        reason: "No longer eligible".to_string(),
                    },
                );
            }
            proof {
                let after = self.sponsor_pool@;
                if contains_id(before, account_id) {
                    let p = id_position(before, account_id);
                    lemma_remove_keeps_order(before, p);
                    assert forall|i: int| 0 <= i < after.len() implies sponsored_or_zero(
                        self.sponsorships(),
                        #[trigger] after[i].account_id,
                    ) == after[i].sponsored_count by {
                        if i < p {
                            assert(after[i] == before[i]);
                        } else {
                            assert(after[i] == before[i + 1]);
                        }
                    }
                }
            }
        }
        assert(event_views(events@) =~= events_after_eligibility(
            old(self).pool()@,
            old(self).pool().max_size(),
            old(self).tiers(),
            old(self).cycles(),
            old(self).sponsorships(),
            account_id,
        ));
        events
    }

    /// Process a flushline graduation: the account is recorded in the Ace
    /// tier, and its pool membership brought up to date.
    pub fn handle_flushline_graduated(&mut self, event: &FlushlineGraduated) -> (events: Vec<
        SponsorEvent,
    >)
        requires
            old(self).wf(),
        ensures
            final(self).wf(),
            final(self).pool().max_size() == old(self).pool().max_size(),
            final(self).strategy() == old(self).strategy(),
            final(self).tiers() == old(self).tiers().insert(event.account_id, "Ace"@),
            final(self).cycles() == old(self).cycles(),
            final(self).sponsorships() == old(self).sponsorships(),
            final(self).pool()@ == pool_after_eligibility(
                old(self).pool()@,
                old(self).pool().max_size(),
                final(self).tiers(),
                old(self).cycles(),
                old(self).sponsorships(),
                event.account_id,
            ),
            event_views(events@) == events_after_eligibility(
                old(self).pool()@,
                old(self).pool().max_size(),
                final(self).tiers(),
                old(self).cycles(),
                old(self).sponsorships(),
                event.account_id,
            ),
    {
        let account_id = event.account_id;
        self.account_tiers.insert(account_id, "Ace".to_string());
        proof {
            reveal_strlit("Ace");
            reveal_strlit("King");
            assert(self.tiers() =~= old(self).tiers().insert(account_id, "Ace"@));
            assert("Ace"@.len() != "King"@.len());
            assert(!is_top_tier("Ace"@));
        }
        self.update_sponsor_eligibility(account_id)
    }

    /// Process a matrix cycle: the account's cycle count goes up by one,
    /// and its pool membership is brought up to date.
    pub fn handle_matrix_cycled(&mut self, event: &MatrixCycled) -> (events: Vec<SponsorEvent>)
        requires
            old(self).wf(),
            cycles_or_zero(old(self).cycles(), event.account_id) < u32::MAX,
            eligibility_scores_fit(
                old(self).pool()@,
                old(self).pool().max_size(),
                old(self).tiers(),
                old(self).cycles().insert(
                    event.account_id,
                    (cycles_or_zero(old(self).cycles(), event.account_id) + 1) as u32,
                ),
                old(self).sponsorships(),
                event.account_id,
            ),
        ensures
            final(self).wf(),
            final(self).pool().max_size() == old(self).pool().max_size(),
            final(self).strategy() == old(self).strategy(),
            final(self).tiers() == old(self).tiers(),
            final(self).cycles() == old(self).cycles().insert(
                event.account_id,
                (cycles_or_zero(old(self).cycles(), event.account_id) + 1) as u32,
            ),
            final(self).sponsorships() == old(self).sponsorships(),
            final(self).pool()@ == pool_after_eligibility(
                old(self).pool()@,
                old(self).pool().max_size(),
                old(self).tiers(),
                final(self).cycles(),
                old(self).sponsorships(),
                event.account_id,
            ),
            event_views(events@) == events_after_eligibility(
                old(self).pool()@,
                old(self).pool().max_size(),
                old(self).tiers(),
                final(self).cycles(),
                old(self).sponsorships(),
                event.account_id,
            ),
    {
        let account_id = event.account_id;
        let cycle_count = match self.account_cycles.get(&account_id) {
            Some(c) => *c,
            None => 0,
        } + 1;
        self.account_cycles.insert(account_id, cycle_count);
        self.update_sponsor_eligibility(account_id)
    }

    /// Record the tier of an account, and bring its pool membership up to
    /// date.
    pub fn update_account_tier(&mut self, account_id: u128, tier: String) -> (events: Vec<
        SponsorEvent,
    >)
        requires
            old(self).wf(),
            eligibility_scores_fit(
                old(self).pool()@,
                old(self).pool().max_size(),
                old(self).tiers().insert(account_id, tier@),
                old(self).cycles(),
                old(self).sponsorships(),
                account_id,
            ),
        ensures
            final(self).wf(),
            final(self).pool().max_size() == old(self).pool().max_size(),
            final(self).strategy() == old(self).strategy(),
            final(self).tiers() == old(self).tiers().insert(account_id, tier@),
            final(self).cycles() == old(self).cycles(),
            final(self).sponsorships() == old(self).sponsorships(),
            final(self).pool()@ == pool_after_eligibility(
                old(self).pool()@,
                old(self).pool().max_size(),
                final(self).tiers(),
                old(self).cycles(),
                old(self).sponsorships(),
                account_id,
            ),
            event_views(events@) == events_after_eligibility(
                old(self).pool()@,
                old(self).pool().max_size(),
                final(self).tiers(),
                old(self).cycles(),
                old(self).sponsorships(),
                account_id,
            ),
    {
        let ghost t = tier@;
        self.account_tiers.insert(account_id, tier);
        assert(self.tiers() =~= old(self).tiers().insert(account_id, t));
        self.update_sponsor_eligibility(account_id)
    }

    /// Add a sponsor candidate to the pool by hand; its tier and cycles are
    /// recorded whether or not the pool takes it.
    pub fn add_sponsor(&mut self, candidate: SponsorCandidate) -> (r: Result<
        Vec<SponsorEvent>,
        SponsorAllocationError,
    >)
        requires
            old(self).wf(),
            add_scores_fit(old(self).pool()@, old(self).pool().max_size(), candidate@),
        ensures
            final(self).wf(),
            final(self).pool().max_size() == old(self).pool().max_size(),
            final(self).strategy() == old(self).strategy(),
            final(self).tiers() == old(self).tiers().insert(candidate.account_id, candidate.tier@),
            final(self).cycles() == old(self).cycles().insert(
                candidate.account_id,
                candidate.cycle_count,
            ),
            final(self).pool()@ == added(
                old(self).pool()@,
                old(self).pool().max_size(),
                candidate@,
            ),
            match r {
                Ok(events) => {
                    &&& is_top_tier(candidate.tier@)
                    &&& event_views(events@) == seq![
                        EventView::SponsorAdded {
                            sponsor_id: candidate.account_id,
                            tier: candidate.tier@,
                            cycle_count: candidate.cycle_count,
                        },
                    ]
                    &&& final(self).sponsorships() == old(self).sponsorships().insert(
                        candidate.account_id,
                        candidate.sponsored_count,
                    )
                },
                Err(e) => {
                    &&& !is_top_tier(candidate.tier@)
                    &&& e == SponsorAllocationError::AccountNotEligible {
                        account_id: candidate.account_id,
                    }
                    &&& final(self).sponsorships() == old(self).sponsorships()
                },
            },
    {
        proof {
            lemma_added(old(self).pool()@, old(self).pool().max_size(), candidate@);
        }
        self.account_tiers.insert(candidate.account_id, candidate.tier.clone());
        self.account_cycles.insert(candidate.account_id, candidate.cycle_count);
        assert(self.tiers() =~= old(self).tiers().insert(candidate.account_id, candidate.tier@));
        let account_id = candidate.account_id;
        let tier = candidate.tier.clone();
        let cycle_count = candidate.cycle_count;
        let sponsored_count = candidate.sponsored_count;
        let ghost c = candidate@;
        match self.sponsor_pool.add_sponsor(candidate) {
            Ok(()) => {},
            Err(e) => {
                return Err(e);
            },
        }
        self.account_sponsorships.insert(account_id, sponsored_count);
        proof {
            if old(self).pool().max_size() > 0 {
                lemma_other_ids(self.sponsor_pool@, c);
            }
            let after = self.sponsor_pool@;
            let before = old(self).pool()@;
            assert forall|i: int| 0 <= i < after.len() implies sponsored_or_zero(
                self.sponsorships(),
                #[trigger] after[i].account_id,
            ) == after[i].sponsored_count by {
                if after[i] != c {
                    let j = choose|j: int| 0 <= j < before.len() && before[j] == after[i];
                    assert(after[i].account_id != c.account_id);
                }
            }
        }
        let mut events: Vec<SponsorEvent> = Vec::new();
        events.push(SponsorEvent::SponsorAdded { sponsor_id: account_id, tier, cycle_count });
        assert(event_views(events@) =~= seq![
            EventView::SponsorAdded { sponsor_id: account_id, tier: candidate.tier@, cycle_count },
        ]);
        Ok(events)
    }

    /// Remove a sponsor from the pool by hand, for the given reason.
    pub fn remove_sponsor(&mut self, account_id: u128, reason: String) -> (r: Result<
        Vec<SponsorEvent>,
        SponsorAllocationError,
    >)
        requires
            old(self).wf(),
        ensures
            final(self).wf(),
            final(self).pool().max_size() == old(self).pool().max_size(),
            final(self).strategy() == old(self).strategy(),
            final(self).tiers() == old(self).tiers(),
            final(self).cycles() == old(self).cycles(),
            final(self).pool()@ == without_id(old(self).pool()@, account_id),
            match r {
                Ok(events) => contains_id(old(self).pool()@, account_id) && event_views(events@)
                    == seq![EventView::SponsorRemoved { sponsor_id: account_id, reason: reason@ }],
                Err(e) => !contains_id(old(self).pool()@, account_id) && e
                    == SponsorAllocationError::SponsorNotFound { sponsor_id: account_id },
            },
    {
        proof {
            lemma_id_position(old(self).pool()@, account_id);
            if contains_id(old(self).pool()@, account_id) {
                lemma_remove_keeps_order(old(self).pool()@, id_position(old(self).pool()@, account_id));
            }
        }
        match self.sponsor_pool.remove_sponsor(account_id) {
            Ok(_) => {},
            Err(e) => {
                return Err(e);
            },
        }
        proof {
            let before = old(self).pool()@;
            let after = self.sponsor_pool@;
            let p = id_position(before, account_id);
            assert forall|k: int| 0 <= k < after.len() implies before.contains(#[trigger] after[k]) by {
                if k < p {
                    assert(after[k] == before[k]);
                } else {
                    assert(after[k] == before[k + 1]);
                }
            }
            lemma_counts_recorded_subset(before, after, self.sponsorships());
        }
        let ghost rv = reason@;
        let mut events: Vec<SponsorEvent> = Vec::new();
        events.push(SponsorEvent::SponsorRemoved { sponsor_id: account_id, reason });
        assert(event_views(events@) =~= seq![
            EventView::SponsorRemoved { sponsor_id: account_id, reason: rv },
        ]);
        Ok(events)
    }

    /// Refresh the pool from the current top performers, reporting the new
    /// member count and how many fewer members there are than before.
    pub fn refresh_sponsor_pool(&mut self, top_performers: Vec<SponsorCandidate>) -> (events: Vec<
        SponsorEvent,
    >)
        requires
            old(self).wf(),
            collected(views_of(top_performers@)).len() > old(self).pool().max_size()
                ==> all_scores_fit(collected(views_of(top_performers@))),
        ensures
            final(self).wf(),
            final(self).pool().max_size() == old(self).pool().max_size(),
            final(self).strategy() == old(self).strategy(),
            final(self).tiers() == old(self).tiers(),
            final(self).cycles() == old(self).cycles(),
            final(self).pool()@ == refreshed(
                views_of(top_performers@),
                old(self).pool().max_size(),
            ),
            final(self).sponsorships() == counts_with(old(self).sponsorships(), final(self).pool()@),
            event_views(events@) == seq![
                EventView::SponsorPoolRefreshed {
                    new_sponsor_count: final(self).pool()@.len() as usize,
                    removed_sponsor_count: (if old(self).pool()@.len() > final(self).pool()@.len() {
                        old(self).pool()@.len() - final(self).pool()@.len()
                    } else {
                        0
                    }) as usize,
                },
            ],
    {
        let old_count = self.sponsor_pool.pool_stats().total_sponsors;
        self.sponsor_pool.refresh_pool(top_performers);
        let new_count = self.sponsor_pool.pool_stats().total_sponsors;
        let sponsors = self.sponsor_pool.all_sponsors();
        let ghost members = self.sponsor_pool@;
        let ghost base = self.sponsorships();
        let n = sponsors.len();
        let mut i: usize = 0;
        assert(members.take(0) =~= Seq::<CandidateView>::empty());
        while i < n
            invariant
                n == sponsors.len(),
                views_of(sponsors@) == members,
                i <= n,
                self.sponsor_pool@ == members,
                self.pool().wf(),
                self.pool().max_size() == old(self).pool().max_size(),
                self.strategy() == old(self).strategy(),
                self.tiers() == old(self).tiers(),
                self.cycles() == old(self).cycles(),
                self.sponsorships() == counts_with(base, members.take(i as int)),
            decreases n - i,
        {
            proof {
                assert(members.take(i + 1).drop_last() =~= members.take(i as int));
                assert(sponsors@[i as int]@ == members[i as int]);
            }
            self.account_sponsorships.insert(sponsors[i].account_id, sponsors[i].sponsored_count);
            i = i + 1;
        }
        proof {
            assert(members.take(n as int) =~= members);
            lemma_counts_with(base, members);
        }
        let mut events: Vec<SponsorEvent> = Vec::new();
        events.push(
            SponsorEvent::SponsorPoolRefreshed {
                new_sponsor_count: new_count,
                removed_sponsor_count: old_count.saturating_sub(new_count),
            },
        );
        assert(event_views(events@) =~= seq![
            EventView::SponsorPoolRefreshed {
                new_sponsor_count: new_count,
                removed_sponsor_count: old_count.saturating_sub(new_count),
            },
        ]);
        events
    }

    /// Current pool statistics.
    pub fn get_pool_stats(&self) -> (st: PoolStats)
        requires
            self.wf(),
        ensures
            st.total_sponsors == self.pool()@.len(),
            st.eligible_sponsors == eligible_entries(self.pool()@).len(),
            st.ace_sponsors == 0,
            st.king_sponsors == st.total_sponsors,
            st.max_pool_size == self.pool().max_size(),
    {
        self.sponsor_pool.pool_stats()
    }

    /// The eligible sponsors, in pool order.
    pub fn get_eligible_sponsors(&self) -> (r: Vec<SponsorCandidate>)
        ensures
            views_of(r@) == eligible_entries(self.pool()@),
    {
        self.sponsor_pool.get_eligible_sponsors()
    }

    /// The `count` best eligible sponsors, best first.
    pub fn get_top_sponsors(&self, count: usize) -> (r: Vec<SponsorCandidate>)
        requires
            self.wf(),
            eligible_entries(self.pool()@).len() >= 2 ==> all_scores_fit(
                eligible_entries(self.pool()@),
            ),
        ensures
            is_top_selection(eligible_entries(self.pool()@), count as nat, views_of(r@)),
    {
        self.sponsor_pool.get_top_sponsors(count)
    }

    /// Record a sponsorship by hand.
    pub fn record_sponsorship(&mut self, sponsor_id: u128) -> (r: Result<(), SponsorAllocationError>)
        requires
            old(self).wf(),
            contains_id(old(self).pool()@, sponsor_id) ==> old(self).pool()@[id_position(
                old(self).pool()@,
                sponsor_id,
            )].sponsored_count < u32::MAX,
        ensures
            final(self).wf(),
            final(self).pool().max_size() == old(self).pool().max_size(),
            final(self).strategy() == old(self).strategy(),
            final(self).tiers() == old(self).tiers(),
            final(self).cycles() == old(self).cycles(),
            contains_id(old(self).pool()@, sponsor_id) ==> {
                let p = id_position(old(self).pool()@, sponsor_id);
                &&& r is Ok
                &&& final(self).pool()@ == with_updated(
                    old(self).pool()@,
                    p,
                    with_one_more(old(self).pool()@[p]),
                )
            },
            !contains_id(old(self).pool()@, sponsor_id) ==> {
                &&& r == Err::<(), SponsorAllocationError>(
                    SponsorAllocationError::SponsorNotFound { sponsor_id },
                )
                &&& final(self).pool()@ == old(self).pool()@
            },
            final(self).sponsorships() == if contains_id(old(self).pool()@, sponsor_id) {
                old(self).sponsorships().insert(
                    sponsor_id,
                    (sponsored_or_zero(old(self).sponsorships(), sponsor_id) + 1) as u32,
                )
            } else {
                old(self).sponsorships()
            },
    {
        let count = match self.account_sponsorships.get(&sponsor_id) {
            Some(c) => *c,
            None => 0,
        };
        let ghost before = self.sponsor_pool@;
        let ghost counts = self.sponsorships();
        proof {
            lemma_id_position(before, sponsor_id);
            if contains_id(before, sponsor_id) {
                let p = id_position(before, sponsor_id);
                assert(sponsored_or_zero(counts, before[p].account_id) == before[p].sponsored_count);
            }
        }
        match self.sponsor_pool.record_sponsorship(sponsor_id) {
            Ok(()) => {},
            Err(e) => {
                return Err(e);
            },
        }
        self.account_sponsorships.insert(sponsor_id, count + 1);
        proof {
            let p = id_position(before, sponsor_id);
            lemma_counts_after_update(before, p, with_one_more(before[p]), counts);
        }
        Ok(())
    }

    /// Complete an allocation for `new_account_id` once the strategy has
    /// chosen: a refusal is handed on; a chosen sponsor gets the
    /// sponsorship recorded, and the allocation is reported.
    pub fn apply_allocation(
        &mut self,
        new_account_id: u128,
        choice: Result<u128, SponsorAllocationError>,
    ) -> (r: Result<(u128, Vec<SponsorEvent>), SponsorAllocationError>)
        requires
            old(self).wf(),
            choice matches Ok(id) ==> (contains_id(old(self).pool()@, id) ==> old(
                self,
            ).pool()@[id_position(old(self).pool()@, id)].sponsored_count < u32::MAX),
        ensures
            final(self).wf(),
            final(self).pool().max_size() == old(self).pool().max_size(),
            final(self).strategy() == old(self).strategy(),
            final(self).tiers() == old(self).tiers(),
            final(self).cycles() == old(self).cycles(),
            match choice {
                Err(e) => r == Err::<(u128, Vec<SponsorEvent>), SponsorAllocationError>(e)
                    && final(self).pool()@ == old(self).pool()@,
                Ok(id) => if contains_id(old(self).pool()@, id) {
                    let p = id_position(old(self).pool()@, id);
                    &&& r matches Ok((sid, events)) && sid == id && event_views(events@) == seq![
                        EventView::SponsorAllocated {
                            sponsor_id: id,
                            sponsored_account_id: new_account_id,
                            allocation_strategy: old(self).strategy().name_view(),
                        },
                    ]
                    &&& final(self).pool()@ == with_updated(
                        old(self).pool()@,
                        p,
                        with_one_more(old(self).pool()@[p]),
                    )
                    &&& final(self).sponsorships() == old(self).sponsorships().insert(
                        id,
                        (sponsored_or_zero(old(self).sponsorships(), id) + 1) as u32,
                    )
                } else {
                    &&& r == Err::<(u128, Vec<SponsorEvent>), SponsorAllocationError>(
                        SponsorAllocationError::SponsorNotFound { sponsor_id: id },
                    )
                    &&& final(self).pool()@ == old(self).pool()@
                    &&& final(self).sponsorships() == old(self).sponsorships()
                },
            },
            choice is Err ==> final(self).sponsorships() == old(self).sponsorships(),
    {
        let sponsor_id = match choice {
            Ok(id) => id,
            Err(e) => {
                return Err(e);
            },
        };
        match self.record_sponsorship(sponsor_id) {
            Ok(()) => {},
            Err(e) => {
                return Err(e);
            },
        }
        let name = self.allocation_strategy.strategy_name();
        let mut events: Vec<SponsorEvent> = Vec::new();
        events.push(
            SponsorEvent::SponsorAllocated {
                sponsor_id,
                sponsored_account_id: new_account_id,
                allocation_strategy: name.to_string(),
            },
        );
        assert(event_views(events@) =~= seq![
            EventView::SponsorAllocated {
                sponsor_id,
                sponsored_account_id: new_account_id,
                allocation_strategy: name@,
            },
        ]);
        Ok((sponsor_id, events))
    }

    /// Allocate a sponsor for a new account: the strategy chooses an
    /// eligible member, whose sponsorship is recorded, and the allocation is
    /// reported.
    pub fn allocate_sponsor(&mut self, new_account_id: u128) -> (r: Result<
        (u128, Vec<SponsorEvent>),
        SponsorAllocationError,
    >)
        requires
            old(self).wf(),
            old(self).strategy().can_allocate(old(self).pool()@),
        ensures
            final(self).wf(),
            final(self).pool().max_size() == old(self).pool().max_size(),
            final(self).tiers() == old(self).tiers(),
            final(self).cycles() == old(self).cycles(),
            match r {
                Ok((id, events)) => {
                    let p = id_position(old(self).pool()@, id);
                    &&& old(self).strategy().may_choose(
                        old(self).pool()@,
                        Ok::<u128, SponsorAllocationError>(id),
                    )
                    &&& offers_eligible(old(self).pool()@, id)
                    &&& final(self).pool()@ == with_updated(
                        old(self).pool()@,
                        p,
                        with_one_more(old(self).pool()@[p]),
                    )
                    &&& event_views(events@) == seq![
                        EventView::SponsorAllocated {
                            sponsor_id: id,
                            sponsored_account_id: new_account_id,
                            allocation_strategy: final(self).strategy().name_view(),
                        },
                    ]
                    &&& sponsored_or_zero(old(self).sponsorships(), id) < 10
                    &&& final(self).sponsorships() == old(self).sponsorships().insert(
                        id,
                        (sponsored_or_zero(old(self).sponsorships(), id) + 1) as u32,
                    )
                },
                Err(e) => {
                    &&& old(self).strategy().may_choose(
                        old(self).pool()@,
                        Err::<u128, SponsorAllocationError>(e),
                    )
                    &&& final(self).pool()@ == old(self).pool()@
                    &&& final(self).sponsorships() == old(self).sponsorships()
                },
            },
            final(self).strategy().name_view() == old(self).strategy().name_view(),
            final(self).strategy().resume_index() == old(self).strategy().resume_after(
                old(self).pool()@,
            ),
    {
        let choice = self.allocation_strategy.allocate_sponsor(&self.sponsor_pool, new_account_id);
        proof {
            assert(counts_recorded(self.sponsor_pool@, self.sponsorships()));
            if let Ok(id) = choice {
                lemma_eligible_member(self.sponsor_pool@, id);
                lemma_id_position(self.sponsor_pool@, id);
                let p = id_position(self.sponsor_pool@, id);
                assert(sponsored_or_zero(self.sponsorships(), self.sponsor_pool@[p].account_id)
                    == self.sponsor_pool@[p].sponsored_count);
            }
        }
        self.apply_allocation(new_account_id, choice)
    }
}

impl<S: AllocationStrategy + ?Sized> SponsorService<S> {
    /// The record of account `id`: the tier "Ten" and zero cycles where
    /// nothing is recorded.
    pub open spec fn record_matches(&self, r: AccountRecord) -> bool {
        record_agrees(self.tiers(), self.cycles(), r)
    }

    /// Whether a tier or matrix cycles are recorded for `id`.
    pub open spec fn knows_account(&self, id: u128) -> bool {
        knows(self.tiers(), self.cycles(), id)
    }

    fn record_of(&self, account_id: u128) -> (r: AccountRecord)
        ensures
            r.account_id == account_id,
            self.record_matches(r),
    {
        proof {
            reveal_strlit("Ten");
        }
        let tier = match self.account_tiers.get(&account_id) {
            Some(t) => t.clone(),
            None => "Ten".to_string(),
        };
        let cycle_count = match self.account_cycles.get(&account_id) {
            Some(c) => *c,
            None => 0,
        };
        AccountRecord { account_id, tier, cycle_count }
    }

    /// One record for each account whose tier or cycles are known, each
    /// account once, in no particular order.
    #[verifier::spinoff_prover]
    pub fn account_records(&self) -> (rows: Vec<AccountRecord>)
        ensures
            forall|i: int|
                0 <= i < rows.len() ==> self.knows_account(#[trigger] rows@[i].account_id)
                    && self.record_matches(rows@[i]),
            forall|id: u128|
                #![trigger self.knows_account(id)]
                self.knows_account(id) ==> exists|i: int|
                    0 <= i < rows.len() && #[trigger] rows@[i].account_id == id,
            forall|i: int, j: int|
                0 <= i < j < rows.len() ==> #[trigger] rows@[i].account_id
                    != #[trigger] rows@[j].account_id,
    {
        let mut rows: Vec<AccountRecord> = Vec::new();
        for id in it: self.account_tiers.keys()
            invariant
                rows.len() == it.index(),
                it.seq().unref().to_set() == self.account_tiers@.dom(),
                it.seq().no_duplicates(),
                forall|i: int|
                    0 <= i < rows.len() ==> #[trigger] rows@[i].account_id == *it.seq()[i]
                        && self.record_matches(rows@[i]),
                forall|i: int|
                    0 <= i < rows.len() ==> self.account_tiers@.contains_key(
                        #[trigger] rows@[i].account_id,
                    ),
                forall|i: int, j: int|
                    0 <= i < j < rows.len() ==> #[trigger] rows@[i].account_id
                        != #[trigger] rows@[j].account_id,
                forall|k: u128|
                    #![trigger self.account_tiers@.contains_key(k)]
                    self.account_tiers@.contains_key(k) ==> (exists|i: int|
                        0 <= i < rows.len() && #[trigger] rows@[i].account_id == k) || (exists|
                        j: int,
                    |
                        it.index() <= j < it.seq().len() && *#[trigger] it.seq()[j] == k),
        {
            let ghost before = rows@;
            let ghost idx = it.index();
            assert(*id == *it.seq()[idx]);
            let r = self.record_of(*id);
            rows.push(r);
            proof {
                assert forall|k: u128| #[trigger]
                    self.account_tiers@.contains_key(k) implies (exists|i: int|
                    0 <= i < rows.len() && #[trigger] rows@[i].account_id == k) || (exists|j: int|
                    idx + 1 <= j < it.seq().len() && *#[trigger] it.seq()[j] == k) by {
                    if exists|i: int| 0 <= i < before.len() && #[trigger] before[i].account_id == k {
                        let i = choose|i: int| 0 <= i < before.len() && #[trigger] before[i].account_id == k;
                        assert(rows@[i] == before[i]);
                    } else {
                        let j = choose|j: int| idx <= j < it.seq().len() && *#[trigger] it.seq()[j] == k;
                        if j == idx {
                            assert(rows@[idx].account_id == k);
                        }
                    }
                }
            }
        }
        let ghost n1 = rows.len() as int;
        assert(forall|k: u128|
            #![trigger self.account_tiers@.contains_key(k)]
            self.account_tiers@.contains_key(k) ==> exists|i: int|
                0 <= i < rows.len() && #[trigger] rows@[i].account_id == k);
        for id in it: self.account_cycles.keys()
            invariant
                0 <= n1 <= rows.len(),
                it.seq().unref().to_set() == self.account_cycles@.dom(),
                it.seq().no_duplicates(),
                forall|i: int|
                    0 <= i < rows.len() ==> self.knows_account(#[trigger] rows@[i].account_id)
                        && self.record_matches(rows@[i]),
                forall|i: int|
                    0 <= i < n1 ==> self.account_tiers@.contains_key(#[trigger] rows@[i].account_id),
                forall|i: int|
                    n1 <= i < rows.len() ==> !self.account_tiers@.contains_key(
                        #[trigger] rows@[i].account_id,
                    ) && exists|j: int| 0 <= j < it.index() && *it.seq()[j] == rows@[i].account_id,
                forall|i: int, j: int|
                    0 <= i < j < rows.len() ==> #[trigger] rows@[i].account_id
                        != #[trigger] rows@[j].account_id,
                forall|k: u128|
                    #![trigger self.account_tiers@.contains_key(k)]
                    self.account_tiers@.contains_key(k) ==> exists|i: int|
                        0 <= i < rows.len() && #[trigger] rows@[i].account_id == k,
                forall|k: u128|
                    #![trigger self.account_cycles@.contains_key(k)]
                    self.account_cycles@.contains_key(k) ==> (exists|i: int|
                        0 <= i < rows.len() && #[trigger] rows@[i].account_id == k) || (exists|
                        j: int,
                    |
                        it.index() <= j < it.seq().len() && *#[trigger] it.seq()[j] == k),
        {
            let ghost before = rows@;
            let ghost idx = it.index();
            assert(*id == *it.seq()[idx]);
            assert(self.account_cycles@.contains_key(*id));
            if !self.account_tiers.contains_key(id) {
                let r = self.record_of(*id);
                let ghost rg = r;
                rows.push(r);
                proof {
                    assert forall|i: int, j: int| 0 <= i < j < rows.len() implies #[trigger] rows@[i].account_id
                        != #[trigger] rows@[j].account_id by {
                        if j == rows.len() - 1 && i >= n1 {
                            let q = choose|q: int| 0 <= q < idx && *it.seq()[q] == before[i].account_id;
                            assert(it.seq()[q] != it.seq()[idx]);
                        }
                    }
                    assert forall|i: int| n1 <= i < rows.len() implies !self.account_tiers@.contains_key(
                        #[trigger] rows@[i].account_id,
                    ) && exists|j: int| 0 <= j < idx + 1 && *it.seq()[j] == rows@[i].account_id by {
                        if i < rows.len() - 1 {
                            assert(rows@[i] == before[i]);
                            let q = choose|q: int| 0 <= q < idx && *it.seq()[q] == before[i].account_id;
                            assert(*it.seq()[q] == rows@[i].account_id);
                        } else {
                            assert(*it.seq()[idx] == rows@[i].account_id);
                        }
                    }
                }
            }
            proof {
                assert forall|k: u128| #[trigger]
                    self.account_tiers@.contains_key(k) implies exists|i: int|
                    0 <= i < rows.len() && #[trigger] rows@[i].account_id == k by {
                    let i = choose|i: int| 0 <= i < before.len() && #[trigger] before[i].account_id == k;
                    assert(rows@[i] == before[i]);
                }
                assert forall|k: u128| #[trigger]
                    self.account_cycles@.contains_key(k) implies (exists|i: int|
                    0 <= i < rows.len() && #[trigger] rows@[i].account_id == k) || (exists|j: int|
                    idx + 1 <= j < it.seq().len() && *#[trigger] it.seq()[j] == k) by {
                    if exists|i: int| 0 <= i < before.len() && #[trigger] before[i].account_id == k {
                        let i = choose|i: int| 0 <= i < before.len() && #[trigger] before[i].account_id == k;
                        assert(rows@[i] == before[i]);
                    } else {
                        let j = choose|j: int| idx <= j < it.seq().len() && *#[trigger] it.seq()[j] == k;
                        if j == idx {
                            if self.account_tiers@.contains_key(k) {
                                let i = choose|i: int| 0 <= i < before.len() && #[trigger] before[i].account_id == k;
                            } else {
                                assert(rows@[before.len() as int].account_id == k);
                            }
                        }
                    }
                }
                assert forall|i: int| n1 <= i < rows.len() implies exists|j: int|
                    0 <= j < idx + 1 && *it.seq()[j] == #[trigger] rows@[i].account_id by {
                    if i < before.len() {
                        assert(rows@[i] == before[i]);
                        let q = choose|q: int| 0 <= q < idx && *it.seq()[q] == before[i].account_id;
                        assert(*it.seq()[q] == rows@[i].account_id);
                    }
                }
            }
        }
        rows
    }
}


impl<S: AllocationStrategy + ?Sized> SponsorService<S> {
    /// The pool of the service.
    pub fn sponsor_pool(&self) -> (p: &SponsorPool)
        ensures
            *p == self.pool(),
    {
        &self.sponsor_pool
    }

    /// The name of the service's strategy.
    pub fn strategy_name(&self) -> (name: &'static str)
        ensures
            name@ == self.strategy().name_view(),
    {
        self.allocation_strategy.strategy_name()
    }

    /// Where the service's strategy continues, if it is round-robin.
    pub fn last_allocated_index(&self) -> (r: Option<usize>)
        ensures
            r == self.strategy().resume_index(),
    {
        self.allocation_strategy.last_allocated_index()
    }

    /// The settings saved with the service: its strategy's name, where the
    /// strategy continues (zero for one that keeps no position), and the
    /// pool's size.
    pub fn saved_state(&self) -> (st: ServiceState)
        ensures
            st.active_strategy@ == self.strategy().name_view(),
            st.last_allocated_index == saved_index(self.strategy().resume_index()),
            st.max_pool_size == self.pool().max_size(),
    {
        let last_allocated_index = match self.allocation_strategy.last_allocated_index() {
            Some(i) => i,
            None => 0,
        };
        ServiceState {
            active_strategy: self.allocation_strategy.strategy_name().to_string(),
            last_allocated_index,
            max_pool_size: self.sponsor_pool.capacity(),
        }
    }

    /// Rebuild a service from what was saved: `accounts` give the recorded
    /// tiers and cycles, `members` the pool's members with their sponsored
    /// counts. A store whose members do not all stand for King tier
    /// accounts is refused with the first member that does not; a store
    /// with more members than the pool's size is refused as over capacity.
    pub fn restore(
        allocation_strategy: Box<S>,
        max_pool_size: usize,
        accounts: Vec<AccountRecord>,
        members: Vec<MemberRecord>,
    ) -> (r: Result<Self, SponsorAllocationError>)
        ensures
            match r {
                Ok(s) => {
                    &&& members_top_tier(
                        tiers_of_records(accounts@),
                        cycles_of_records(accounts@),
                        members@,
                    )
                    &&& restored_members(
                        tiers_of_records(accounts@),
                        cycles_of_records(accounts@),
                        members@,
                    ).len() <= max_pool_size
                    &&& s.wf()
                    &&& s.strategy() == allocation_strategy
                    &&& s.pool().max_size() == max_pool_size
                    &&& s.tiers() == tiers_of_records(accounts@)
                    &&& s.cycles() == cycles_of_records(accounts@)
                    &&& s.sponsorships() == counts_of_members(members@)
                    &&& s.pool()@ == restored_members(
                        tiers_of_records(accounts@),
                        cycles_of_records(accounts@),
                        members@,
                    )
                },
                Err(e) => if !members_top_tier(
                    tiers_of_records(accounts@),
                    cycles_of_records(accounts@),
                    members@,
                ) {
                    exists|i: int|
                        0 <= i < members.len() && members_top_tier(
                            tiers_of_records(accounts@),
                            cycles_of_records(accounts@),
                            members@.take(i),
                        ) && !is_top_tier(
                            #[trigger] member_candidate(
                                tiers_of_records(accounts@),
                                cycles_of_records(accounts@),
                                members@[i],
                            ).tier,
                        ) && e == SponsorAllocationError::AccountNotEligible {
                            account_id: members@[i].account_id,
                        }
                } else {
                    &&& restored_members(
                        tiers_of_records(accounts@),
                        cycles_of_records(accounts@),
                        members@,
                    ).len() > max_pool_size
                    &&& e == SponsorAllocationError::PoolCapacityExceeded
                },
            },
    {
        let mut service = SponsorService::new(allocation_strategy, max_pool_size);
        let n = accounts.len();
        let mut i: usize = 0;
        assert(accounts@.take(0) =~= Seq::<AccountRecord>::empty());
        while i < n
            invariant
                n == accounts.len(),
                i <= n,
                service.wf(),
                service.pool()@ == Seq::<CandidateView>::empty(),
                service.pool().max_size() == max_pool_size,
                service.strategy() == allocation_strategy,
                service.tiers() == tiers_of_records(accounts@.take(i as int)),
                service.cycles() == cycles_of_records(accounts@.take(i as int)),
                service.sponsorships() == Map::<u128, u32>::empty(),
            decreases n - i,
        {
            proof {
                assert(accounts@.take(i + 1).drop_last() =~= accounts@.take(i as int));
            }
            let ghost before = service.tiers();
            let record = &accounts[i];
            service.account_tiers.insert(record.account_id, record.tier.clone());
            service.account_cycles.insert(record.account_id, record.cycle_count);
            assert(service.tiers() =~= before.insert(record.account_id, record.tier@));
            i = i + 1;
        }
        assert(accounts@.take(n as int) =~= accounts@);
        let ghost tiers = service.tiers();
        let ghost cycles = service.cycles();
        let m = members.len();
        let mut j: usize = 0;
        assert(members@.take(0) =~= Seq::<MemberRecord>::empty());
        while j < m
            invariant
                m == members.len(),
                j <= m,
                pool_wf(service.pool()@),
                counts_recorded(service.pool()@, service.sponsorships()),
                service.sponsorships() == counts_of_members(members@.take(j as int)),
                service.pool().max_size() == max_pool_size,
                service.strategy() == allocation_strategy,
                service.tiers() == tiers,
                service.cycles() == cycles,
                tiers == tiers_of_records(accounts@),
                cycles == cycles_of_records(accounts@),
                members_top_tier(tiers, cycles, members@.take(j as int)),
                service.pool()@ == restored_members(tiers, cycles, members@.take(j as int)),
            decreases m - j,
        {
            proof {
                reveal_strlit("King");
                assert(members@.take(j + 1).drop_last() =~= members@.take(j as int));
            }
            let member = members[j];
            let tier = match service.account_tiers.get(&member.account_id) {
                Some(t) => t.clone(),
                None => "King".to_string(),
            };
            let cycle_count = match service.account_cycles.get(&member.account_id) {
                Some(c) => *c,
                None => 0,
            };
            let candidate = SponsorCandidate {
                account_id: member.account_id,
                tier,
                cycle_count,
                sponsored_count: member.sponsored_count,
            };
            assert(candidate@ == member_candidate(tiers, cycles, members@[j as int]));
            if !candidate.is_top_performer() {
                assert(!is_top_tier(member_candidate(tiers, cycles, members@[j as int]).tier));
                return Err(SponsorAllocationError::AccountNotEligible { account_id: member.account_id });
            }
            let ghost before = service.pool()@;
            let ghost counts = service.sponsorships();
            proof {
                lemma_counts_after_store(before, candidate@, counts);
            }
            service.sponsor_pool.store(candidate);
            service.account_sponsorships.insert(member.account_id, member.sponsored_count);
            proof {
                assert forall|q: int| 0 <= q < j + 1 implies is_top_tier(
                    #[trigger] member_candidate(tiers, cycles, members@.take(j + 1)[q]).tier,
                ) by {
                    if q < j {
                        assert(members@.take(j + 1)[q] == members@.take(j as int)[q]);
                    }
                }
            }
            j = j + 1;
        }
        assert(members@.take(m as int) =~= members@);
        if service.sponsor_pool.member_count() > max_pool_size {
            return Err(SponsorAllocationError::PoolCapacityExceeded);
        }
        Ok(service)
    }
}

/// A tier or matrix cycles are recorded for `id`.
pub open spec fn knows(tiers: Map<u128, Seq<char>>, cycles: Map<u128, u32>, id: u128) -> bool {
    tiers.contains_key(id) || cycles.contains_key(id)
}

/// `r` holds the recorded tier and cycles of its account ("Ten" and zero
/// where nothing is recorded).
pub open spec fn record_agrees(
    tiers: Map<u128, Seq<char>>,
    cycles: Map<u128, u32>,
    r: AccountRecord,
) -> bool {
    &&& r.tier@ == tier_or_default(tiers, r.account_id)
    &&& r.cycle_count == cycles_or_zero(cycles, r.account_id)
}

/// `accounts` and `members` are what saving a service with these pool
/// contents, tiers and cycles writes: one record per known account, then
/// one record per pool member with the member's own tier and cycles; and
/// one member record per pool member, in pool order.
pub open spec fn is_saved_form(
    pool: Seq<CandidateView>,
    tiers: Map<u128, Seq<char>>,
    cycles: Map<u128, u32>,
    accounts: Seq<AccountRecord>,
    members: Seq<MemberRecord>,
) -> bool {
    let k = accounts.len() - pool.len();
    &&& accounts.len() >= pool.len()
    &&& forall|i: int|
        0 <= i < k ==> knows(tiers, cycles, #[trigger] accounts[i].account_id) && record_agrees(
            tiers,
            cycles,
            accounts[i],
        )
    &&& forall|id: u128|
        #![trigger knows(tiers, cycles, id)]
        knows(tiers, cycles, id) ==> exists|i: int|
            0 <= i < k && #[trigger] accounts[i].account_id == id
    &&& forall|i: int, j: int|
        0 <= i < j < k ==> #[trigger] accounts[i].account_id != #[trigger] accounts[j].account_id
    &&& forall|i: int|
        #![trigger pool[i]]
        0 <= i < pool.len() ==> member_account_record_matches(accounts[k + i], pool[i])
    &&& members.len() == pool.len()
    &&& forall|i: int|
        #![trigger pool[i]]
        0 <= i < pool.len() ==> members[i].account_id == pool[i].account_id
            && members[i].sponsored_count == pool[i].sponsored_count
}

/// The records saved for pool members: each member's account statistics,
/// and the member itself.
pub open spec fn member_account_record_matches(r: AccountRecord, c: CandidateView) -> bool {
    r.account_id == c.account_id && r.tier@ == c.tier && r.cycle_count == c.cycle_count
}

impl<S: AllocationStrategy + ?Sized> SponsorService<S> {
    /// What saving the service writes: the records of all known accounts,
    /// followed by one record per pool member with the member's own tier
    /// and cycles (a later record of an account replaces an earlier one),
    /// and the pool's members.
    pub fn saved_records(&self) -> (r: (Vec<AccountRecord>, Vec<MemberRecord>))
        ensures
            is_saved_form(self.pool()@, self.tiers(), self.cycles(), r.0@, r.1@),
    {
        let mut accounts = self.account_records();
        let sponsors = self.sponsor_pool.all_sponsors();
        let ghost k = accounts.len() as int;
        let ghost first = accounts@;
        let mut members: Vec<MemberRecord> = Vec::new();
        let n = sponsors.len();
        let mut i: usize = 0;
        while i < n
            invariant
                n == sponsors.len(),
                views_of(sponsors@) == self.pool()@,
                i <= n,
                0 <= k,
                first.len() == k,
                accounts.len() == k + i,
                members.len() == i,
                forall|q: int| 0 <= q < k ==> #[trigger] accounts@[q] == first[q],
                forall|q: int|
                    #![trigger self.pool()@[q]]
                    0 <= q < i ==> member_account_record_matches(accounts@[k + q], self.pool()@[q]),
                forall|q: int|
                    0 <= q < i ==> #[trigger] members@[q].account_id == self.pool()@[q].account_id
                        && members@[q].sponsored_count == self.pool()@[q].sponsored_count,
            decreases n - i,
        {
            let c = &sponsors[i];
            assert(c@ == self.pool()@[i as int]);
            accounts.push(
                AccountRecord {
                    account_id: c.account_id,
                    tier: c.tier.clone(),
                    cycle_count: c.cycle_count,
                },
            );
            let ghost before = members@;
            members.push(MemberRecord { account_id: c.account_id, sponsored_count: c.sponsored_count });
            proof {
                assert forall|q: int| 0 <= q < i + 1 implies #[trigger] members@[q].account_id
                    == self.pool()@[q].account_id && members@[q].sponsored_count
                    == self.pool()@[q].sponsored_count by {
                    if q < i {
                        assert(members@[q] == before[q]);
                    }
                }
            }
            i = i + 1;
        }
        proof {
            assert(accounts.len() - self.pool()@.len() == k);
            assert forall|q: int| 0 <= q < k implies self.knows_account(#[trigger] accounts@[q].account_id)
                && self.record_matches(accounts@[q]) by {
                assert(accounts@[q] == first[q]);
            }
            assert forall|id: u128| #[trigger] self.knows_account(id) implies exists|q: int|
                0 <= q < k && #[trigger] accounts@[q].account_id == id by {
                let q = choose|q: int| 0 <= q < first.len() && #[trigger] first[q].account_id == id;
                assert(accounts@[q] == first[q]);
            }
            assert forall|q: int, j: int| 0 <= q < j < k implies #[trigger] accounts@[q].account_id
                != #[trigger] accounts@[j].account_id by {
                assert(accounts@[q] == first[q]);
                assert(accounts@[j] == first[j]);
            }
        }
        let result = (accounts, members);
        proof {
            assert forall|id: u128| #[trigger] knows(self.tiers(), self.cycles(), id) implies exists|q: int|
                0 <= q < result.0.len() - self.pool()@.len() && #[trigger] result.0@[q].account_id
                    == id by {
                assert(self.knows_account(id));
                let q = choose|q: int| 0 <= q < k && #[trigger] result.0@[q].account_id == id;
            }
            assert forall|q: int| 0 <= q < self.pool()@.len() implies result.1@[q].account_id
                == #[trigger] self.pool()@[q].account_id && result.1@[q].sponsored_count
                == self.pool()@[q].sponsored_count by {
                assert(result.1@[q] == members@[q]);
                assert(members@[q].account_id == self.pool()@[q].account_id);
            }
        }
        result
    }
}
} // verus!
