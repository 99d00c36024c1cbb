use crate::error::SponsorAllocationError;
use crate::model::{
    all_scores_fit, best_performer_index, contains_id, eligible_entries, id_position, is_eligible,
    lemma_best_performer_index, lemma_eligible_entries, lemma_id_position, performs_better,
    pool_wf, score_fits, score_of, tier_order_of, CandidateView,
};
use crate::pool::{views_of, SponsorPool};
use crate::text::text_equals;
use vstd::prelude::*;

verus! {

/// The eligible members of `pool` include one with id `id`.
pub open spec fn offers_eligible(pool: Seq<CandidateView>, id: u128) -> bool {
    exists|i: int|
        0 <= i < eligible_entries(pool).len() && #[trigger] eligible_entries(pool)[i].account_id
            == id
}

/// An eligible member offered by a well-formed pool is a member with fewer
/// than ten sponsored accounts.
pub proof fn lemma_eligible_member(pool: Seq<CandidateView>, id: u128)
    requires
        pool_wf(pool),
        offers_eligible(pool, id),
    ensures
        contains_id(pool, id),
        id_position(pool, id) < pool.len(),
        pool[id_position(pool, id)].account_id == id,
        is_eligible(pool[id_position(pool, id)]),
{
    lemma_eligible_entries(pool);
    lemma_id_position(pool, id);
    let i = choose|i: int|
        0 <= i < eligible_entries(pool).len() && #[trigger] eligible_entries(pool)[i].account_id
            == id;
    let c = eligible_entries(pool)[i];
    let j = choose|j: int| 0 <= j < pool.len() && pool[j] == c;
    assert(pool[j].account_id == id);
}

/// A way of choosing the sponsor for a new account.
pub trait AllocationStrategy: Send + Sync {
    /// The name the strategy reports.
    spec fn name_view(&self) -> Seq<char>;

    /// What the strategy needs of the pool to make its choice.
    spec fn can_allocate(&self, pool: Seq<CandidateView>) -> bool;

    /// The strategy, in its present state, may answer `choice` for a pool
    /// with these contents.
    spec fn may_choose(
        &self,
        pool: Seq<CandidateView>,
        choice: Result<u128, SponsorAllocationError>,
    ) -> bool;

    /// Allocate a sponsor for a new account: the id of an eligible member of
    /// `sponsor_pool`, or the reason why there is none.
    fn allocate_sponsor(&mut self, sponsor_pool: &SponsorPool, new_account_id: u128) -> (r: Result<
        u128,
        SponsorAllocationError,
    >)
        requires
            sponsor_pool.wf(),
            old(self).can_allocate(sponsor_pool@),
        ensures
            old(self).may_choose(sponsor_pool@, r),
            r matches Ok(id) ==> offers_eligible(sponsor_pool@, id),
            final(self).name_view() == old(self).name_view(),
            final(self).resume_index() == old(self).resume_after(sponsor_pool@),
    ;

    /// The strategy's name for logging and events.
    fn strategy_name(&self) -> (name: &'static str)
        ensures
            name@ == self.name_view(),
    ;

    /// The position the strategy continues from, if it keeps one.
    spec fn resume_index(&self) -> Option<usize>;

    /// The position the strategy continues from after it allocated from a
    /// pool with these contents.
    spec fn resume_after(&self, pool: Seq<CandidateView>) -> Option<usize>;

    /// The position a round-robin strategy continues from; none for other
    /// strategies.
    fn last_allocated_index(&self) -> (r: Option<usize>)
        ensures
            r == self.resume_index(),
    ;
}

/// The round-robin position after one allocation among `len` eligible
/// sponsors, from position `index`.
pub open spec fn round_robin_next(index: nat, len: nat) -> nat {
    ((index % len + 1) % len) as nat
}

/// Round-robin allocation: hands out the eligible sponsors in pool order,
/// one after another, starting again at the first after the last.
#[derive(Debug, Clone)]
pub struct RoundRobinStrategy {
    last_allocated_index: usize,
}

impl RoundRobinStrategy {
    /// Where the next allocation starts, before it is reduced modulo the
    /// number of eligible sponsors.
    pub closed spec fn next_index(&self) -> nat {
        self.last_allocated_index as nat
    }

    pub fn new() -> (s: Self)
        ensures
            s.next_index() == 0,
    {
        RoundRobinStrategy { last_allocated_index: 0 }
    }

    /// Continue from position `index`, as when the strategy is restored.
    pub fn set_last_allocated_index(&mut self, index: usize)
        ensures
            final(self).next_index() == index,
    {
        self.last_allocated_index = index;
    }
}

impl Default for RoundRobinStrategy {
    fn default() -> (s: Self)
        ensures
            s.next_index() == 0,
    {
        RoundRobinStrategy::new()
    }
}

impl AllocationStrategy for RoundRobinStrategy {
    open spec fn name_view(&self) -> Seq<char> {
        "round_robin"@
    }

    open spec fn can_allocate(&self, pool: Seq<CandidateView>) -> bool {
        true
    }

    open spec fn resume_index(&self) -> Option<usize> {
        Some(self.next_index() as usize)
    }

    /// One position on among the eligible sponsors; unchanged when there
    /// are none.
    open spec fn resume_after(&self, pool: Seq<CandidateView>) -> Option<usize> {
        let e = eligible_entries(pool);
        if e.len() == 0 {
            Some(self.next_index() as usize)
        } else {
            Some(round_robin_next(self.next_index(), e.len()) as usize)
        }
    }

    /// The eligible sponsor at the present position, modulo their number.
    open spec fn may_choose(
        &self,
        pool: Seq<CandidateView>,
        choice: Result<u128, SponsorAllocationError>,
    ) -> bool {
        let e = eligible_entries(pool);
        choice == if e.len() == 0 {
            Err::<u128, SponsorAllocationError>(SponsorAllocationError::NoSponsorsAvailable)
        } else {
            Ok::<u128, SponsorAllocationError>(e[(self.next_index() % e.len()) as int].account_id)
        }
    }

    fn allocate_sponsor(&mut self, sponsor_pool: &SponsorPool, new_account_id: u128) -> (r: Result<
        u128,
        SponsorAllocationError,
    >)
        ensures
            ({
                let e = eligible_entries(sponsor_pool@);
                if e.len() == 0 {
                    &&& r == Err::<u128, SponsorAllocationError>(
                        SponsorAllocationError::NoSponsorsAvailable,
                    )
                    &&& final(self).next_index() == old(self).next_index()
                } else {
                    let k = old(self).next_index() % e.len();
                    &&& r == Ok::<u128, SponsorAllocationError>(e[k as int].account_id)
                    &&& final(self).next_index() == round_robin_next(old(self).next_index(), e.len())
                }
            }),
    {
        let eligible_sponsors = sponsor_pool.get_eligible_sponsors();
        let ghost e = eligible_entries(sponsor_pool@);
        assert(views_of(eligible_sponsors@) == e);
        if eligible_sponsors.len() == 0 {
            return Err(SponsorAllocationError::NoSponsorsAvailable);
        }
        let sponsor_index = self.last_allocated_index % eligible_sponsors.len();
        let selected = eligible_sponsors[sponsor_index].account_id;
        assert(eligible_sponsors@[sponsor_index as int]@ == e[sponsor_index as int]);
        assert(eligible_entries(sponsor_pool@)[sponsor_index as int].account_id == selected);
        self.last_allocated_index = (sponsor_index + 1) % eligible_sponsors.len();
        Ok(selected)
    }

    fn strategy_name(&self) -> (name: &'static str) {
        "round_robin"
    }

    fn last_allocated_index(&self) -> (r: Option<usize>) {
        Some(self.last_allocated_index)
    }
}

/// Performance-based allocation: picks the eligible sponsor with the highest
/// sponsor score; on equal scores the higher tier, then the one with more
/// matrix cycles, then the first in pool order.
#[derive(Debug, Clone, Default)]
pub struct PerformanceBasedStrategy;

impl PerformanceBasedStrategy {
    pub fn new() -> (s: Self) {
        PerformanceBasedStrategy
    }
}

impl AllocationStrategy for PerformanceBasedStrategy {
    open spec fn name_view(&self) -> Seq<char> {
        "performance_based"@
    }

    open spec fn can_allocate(&self, pool: Seq<CandidateView>) -> bool {
        eligible_entries(pool).len() >= 2 ==> all_scores_fit(eligible_entries(pool))
    }

    open spec fn resume_index(&self) -> Option<usize> {
        None
    }

    open spec fn resume_after(&self, pool: Seq<CandidateView>) -> Option<usize> {
        None
    }

    /// The first eligible sponsor that none performs better than.
    open spec fn may_choose(
        &self,
        pool: Seq<CandidateView>,
        choice: Result<u128, SponsorAllocationError>,
    ) -> bool {
        let e = eligible_entries(pool);
        choice == if e.len() == 0 {
            Err::<u128, SponsorAllocationError>(SponsorAllocationError::NoSponsorsAvailable)
        } else {
            Ok::<u128, SponsorAllocationError>(e[best_performer_index(e)].account_id)
        }
    }

    fn allocate_sponsor(&mut self, sponsor_pool: &SponsorPool, new_account_id: u128) -> (r: Result<
        u128,
        SponsorAllocationError,
    >)
        ensures
            ({
                let e = eligible_entries(sponsor_pool@);
                if e.len() == 0 {
                    r == Err::<u128, SponsorAllocationError>(
                        SponsorAllocationError::NoSponsorsAvailable,
                    )
                } else {
                    &&& r == Ok::<u128, SponsorAllocationError>(
                        e[best_performer_index(e)].account_id,
                    )
                    &&& forall|j: int|
                        0 <= j < e.len() ==> score_of(#[trigger] e[j]) <= score_of(
                            e[best_performer_index(e)],
                        )
                }
            }),
    {
        let eligible_sponsors = sponsor_pool.get_eligible_sponsors();
        let ghost e = eligible_entries(sponsor_pool@);
        assert(views_of(eligible_sponsors@) == e);
        let n = eligible_sponsors.len();
        if n == 0 {
            return Err(SponsorAllocationError::NoSponsorsAvailable);
        }
        proof {
            lemma_eligible_entries(sponsor_pool@);
        }
        let mut best: usize = 0;
        let mut i: usize = 1;
        assert(e.take(1).len() == 1);
        while i < n
            invariant
                n == e.len(),
                views_of(eligible_sponsors@) == e,
                n >= 2 ==> all_scores_fit(e),
                1 <= i <= n,
                best < i,
                best == best_performer_index(e.take(i as int)),
            decreases n - i,
        {
            proof {
                let t = e.take(i + 1);
                assert(t.drop_last() =~= e.take(i as int));
                assert(t.last() == e[i as int]);
                assert(t[best as int] == e[best as int]);
                assert(score_fits(e[i as int]));
                assert(score_fits(e[best as int]));
            }
            if outperforms(&eligible_sponsors[i], &eligible_sponsors[best]) {
                best = i;
            }
            i = i + 1;
        }
        assert(e.take(n as int) =~= e);
        proof {
            lemma_best_performer_index(e);
        }
        let selected = eligible_sponsors[best].account_id;
        assert(eligible_sponsors@[best as int]@ == e[best as int]);
        assert(eligible_entries(sponsor_pool@)[best as int].account_id == selected);
        Ok(selected)
    }

    fn strategy_name(&self) -> (name: &'static str) {
        "performance_based"
    }

    fn last_allocated_index(&self) -> (r: Option<usize>) {
        None
    }
}

/// Whether `a` performs better than `b`.
fn outperforms(a: &crate::pool::SponsorCandidate, b: &crate::pool::SponsorCandidate) -> (r: bool)
    requires
        score_fits(a@),
        score_fits(b@),
    ensures
        r == performs_better(a@, b@),
{
    let sa = a.sponsor_score();
    let sb = b.sponsor_score();
    if sa != sb {
        return sa > sb;
    }
    let ta = tier_to_order(a.tier.as_str());
    let tb = tier_to_order(b.tier.as_str());
    if ta != tb {
        return ta > tb;
    }
    a.cycle_count > b.cycle_count
}

/// Convert a tier name to its rank for comparison: Ace 4, King 3, Queen 2,
/// Jack 1, Ten and anything else 0.
pub fn tier_to_order(tier: &str) -> (r: u8)
    ensures
        r == tier_order_of(tier@),
{
    if text_equals(tier, "Ace") {
        proof {
            reveal_strlit("Ace");
        }
        4
    } else if text_equals(tier, "King") {
        3
    } else if text_equals(tier, "Queen") {
        2
    } else if text_equals(tier, "Jack") {
        1
    } else {
        0
    }
}

/// A stored strategy: its kind, and for round-robin where it continues.
#[derive(Debug, Clone, Copy, PartialEq, Eq, Structural)]
pub enum StoredStrategy {
    PerformanceBased,
    RoundRobin { last_allocated_index: usize },
}

/// The strategy stored under `name`: "performance_based" is the
/// performance-based strategy, any other name round-robin continuing from
/// `last_allocated_index`.
pub open spec fn stored_strategy_of(name: Seq<char>, last_allocated_index: usize) -> StoredStrategy {
    if name == "performance_based"@ {
        StoredStrategy::PerformanceBased
    } else {
        StoredStrategy::RoundRobin { last_allocated_index }
    }
}

/// The name of the strategy a stored strategy stands for.
pub open spec fn stored_name(s: StoredStrategy) -> Seq<char> {
    match s {
        StoredStrategy::PerformanceBased => "performance_based"@,
        StoredStrategy::RoundRobin { .. } => "round_robin"@,
    }
}

/// Where the strategy a stored strategy stands for continues.
pub open spec fn stored_resume(s: StoredStrategy) -> Option<usize> {
    match s {
        StoredStrategy::PerformanceBased => None,
        StoredStrategy::RoundRobin { last_allocated_index } => Some(last_allocated_index),
    }
}

/// The position saved for a strategy: where it continues, zero for one
/// that keeps no position.
pub open spec fn saved_index(resume: Option<usize>) -> usize {
    match resume {
        Some(i) => i,
        None => 0,
    }
}

/// Read back the strategy stored under `name`.
pub fn stored_strategy(name: &str, last_allocated_index: usize) -> (s: StoredStrategy)
    ensures
        s == stored_strategy_of(name@, last_allocated_index),
{
    if text_equals(name, "performance_based") {
        StoredStrategy::PerformanceBased
    } else {
        StoredStrategy::RoundRobin { last_allocated_index }
    }
}

} // verus!
