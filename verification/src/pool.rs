use crate::error::SponsorAllocationError;
use crate::model::{
    add_scores_fit, added, added_all, added_all_scores_fit, all_scores_fit, collected, contains_id,
    eligible_entries, eligible_pred, id_position, is_eligible, is_top_selection, is_top_tier,
    lemma_added, lemma_added_all_scores_fit_prefix, lemma_eligible_entries, lemma_id_position,
    lemma_id_position_at, lemma_rank_insert, lemma_remove_keeps_order, lemma_top_prefix,
    lemma_upsert, lemma_without_lowest, lowest_score_index, min_nat, pool_wf, rank_sorted,
    ranks_before, refreshed, score_fits, score_of, tier_pred, trimmed, upsert, with_one_fewer,
    stored_under, with_one_more, with_updated, without_id, without_lowest, without_lowest_times, CandidateView,
};
use crate::text::text_equals;
use vstd::prelude::*;

verus! {

broadcast use vstd::seq_lib::group_seq_properties;

/// A potential sponsor account. `account_id` holds the 128 bits of the
/// account's UUID; `tier` is one of "Ace", "King", "Queen", "Jack", "Ten".
#[derive(Debug, Clone, PartialEq, Eq)]
pub struct SponsorCandidate {
    pub account_id: u128,
    pub tier: String,
    pub cycle_count: u32,
    /// Number of accounts currently sponsored by this sponsor.
    pub sponsored_count: u32,
}

/// The views of a sequence of candidates.
pub open spec fn views_of(v: Seq<SponsorCandidate>) -> Seq<CandidateView> {
    v.map_values(|c: SponsorCandidate| c@)
}

impl View for SponsorCandidate {
    type V = CandidateView;

    open spec fn view(&self) -> CandidateView {
        CandidateView {
            account_id: self.account_id,
            tier: self.tier@,
            cycle_count: self.cycle_count,
            sponsored_count: self.sponsored_count,
        }
    }
}

impl SponsorCandidate {
    /// A candidate that sponsors nobody yet.
    pub fn new(account_id: u128, tier: String, cycle_count: u32) -> (c: Self)
        ensures
            c@ == (CandidateView { account_id, tier: tier@, cycle_count, sponsored_count: 0 }),
    {
        SponsorCandidate { account_id, tier, cycle_count, sponsored_count: 0 }
    }

    /// Whether this candidate may sponsor another account: it is a top
    /// performer and sponsors fewer than ten accounts.
    pub fn is_eligible_for_sponsorship(&self) -> (r: bool)
        ensures
            r == is_eligible(self@),
    {
        self.sponsored_count < 10 && self.is_top_performer()
    }

    /// Whether this candidate is a top performer: only King tier accounts are.
    pub fn is_top_performer(&self) -> (r: bool)
        ensures
            r == is_top_tier(self.tier@),
    {
        proof {
            reveal_strlit("King");
        }
        text_equals(self.tier.as_str(), "King")
    }

    /// Sponsor score for ranking, higher is better: 1000 for the King tier
    /// (0 otherwise), plus matrix cycles, minus two per sponsored account.
    pub fn sponsor_score(&self) -> (s: u32)
        requires
            score_fits(self@),
        ensures
            s == score_of(self@),
    {
        let tier_score: u32 = if self.is_top_performer() {
            1000
        } else {
            0
        };
        tier_score + self.cycle_count - (self.sponsored_count * 2)
    }

    /// A copy of this candidate.
    pub fn duplicate(&self) -> (c: Self)
        ensures
            c == *self,
    {
        SponsorCandidate {
            account_id: self.account_id,
            tier: self.tier.clone(),
            cycle_count: self.cycle_count,
            sponsored_count: self.sponsored_count,
        }
    }
}


/// The pool of available sponsors, kept in ascending order of account id
/// and limited in size.
#[derive(Debug, Clone)]
pub struct SponsorPool {
    sponsors: Vec<SponsorCandidate>,
    max_pool_size: usize,
}

impl View for SponsorPool {
    type V = Seq<CandidateView>;

    /// The members, in ascending order of account id.
    closed spec fn view(&self) -> Seq<CandidateView> {
        self.sponsors@.map_values(|c: SponsorCandidate| c@)
    }
}

impl Default for SponsorPool {
    /// An empty pool of size zero.
    fn default() -> (p: Self)
        ensures
            p.wf(),
            p@ == Seq::<CandidateView>::empty(),
            p.max_size() == 0,
    {
        SponsorPool::new(0)
    }
}

impl SponsorPool {
    /// The most members the pool is meant to hold.
    pub closed spec fn max_size(&self) -> nat {
        self.max_pool_size as nat
    }

    /// The members themselves, in the order of the view.
    pub closed spec fn members(&self) -> Seq<SponsorCandidate> {
        self.sponsors@
    }

    /// Well-formed contents, and no more members than the pool's size.
    pub open spec fn wf(&self) -> bool {
        pool_wf(self@) && self@.len() <= self.max_size()
    }

    /// An empty pool for at most `max_pool_size` members.
    pub fn new(max_pool_size: usize) -> (p: Self)
        ensures
            p.wf(),
            p@ == Seq::<CandidateView>::empty(),
            p.max_size() == max_pool_size,
    {
        let p = SponsorPool { sponsors: Vec::new(), max_pool_size };
        assert(p@ =~= Seq::<CandidateView>::empty());
        p
    }

    /// Index of the member with id `id`, or of where it would go.
    fn position_of(&self, id: u128) -> (p: usize)
        requires
            pool_wf(self@),
        ensures
            p == id_position(self@, id),
    {
        let n = self.sponsors.len();
        let mut i: usize = 0;
        while i < n && self.sponsors[i].account_id < id
            invariant
                n == self@.len(),
                pool_wf(self@),
                i <= n,
                forall|j: int| 0 <= j < i ==> #[trigger] self@[j].account_id < id,
            decreases n - i,
        {
            i = i + 1;
        }
        proof {
            lemma_id_position_at(self@, id, i as int);
        }
        i
    }

    /// Remove the first of the lowest-scoring members, if there is any.
    fn remove_lowest_performing_sponsor(&mut self)
        requires
            pool_wf(old(self)@),
            all_scores_fit(old(self)@),
        ensures
            pool_wf(final(self)@),
            final(self)@ == without_lowest(old(self)@),
            final(self).max_size() == old(self).max_size(),
    {
        let n = self.sponsors.len();
        if n == 0 {
            return;
        }
        let ghost s = self@;
        let mut best: usize = 0;
        assert(score_fits(s[0]));
        let mut best_score: u32 = self.sponsors[0].sponsor_score();
        let mut i: usize = 1;
        assert(s.take(1).len() == 1);
        while i < n
            invariant
                n == s.len(),
                s == self@,
                1 <= i <= n,
                best < i,
                best == lowest_score_index(s.take(i as int)),
                best_score == score_of(s[best as int]),
                all_scores_fit(s),
            decreases n - i,
        {
            assert(score_fits(s[i as int]));
            let score = self.sponsors[i].sponsor_score();
            proof {
                let t = s.take(i + 1);
                assert(t.drop_last() =~= s.take(i as int));
                assert(t.last() == s[i as int]);
                assert(t[best as int] == s[best as int]);
            }
            if score < best_score {
                best = i;
                best_score = score;
            }
            i = i + 1;
        }
        assert(s.take(n as int) =~= s);
        proof {
            lemma_without_lowest(s);
        }
        self.sponsors.remove(best);
        assert(self@ =~= without_lowest(s));
    }

    /// The pool's size.
    pub(crate) fn capacity(&self) -> (n: usize)
        ensures
            n == self.max_size(),
    {
        self.max_pool_size
    }

    /// The number of members.
    pub(crate) fn member_count(&self) -> (n: usize)
        ensures
            n == self@.len(),
    {
        self.sponsors.len()
    }

    /// Whether the pool has a member with id `account_id`.
    pub(crate) fn has_member(&self, account_id: u128) -> (r: bool)
        requires
            self.wf(),
        ensures
            r == contains_id(self@, account_id),
    {
        let p = self.position_of(account_id);
        proof {
            lemma_id_position(self@, account_id);
        }
        p < self.sponsors.len() && self.sponsors[p].account_id == account_id
    }

    /// Store `candidate` under its id, replacing a member with that id.
    pub(crate) fn store(&mut self, candidate: SponsorCandidate)
        requires
            pool_wf(old(self)@),
            is_top_tier(candidate@.tier),
        ensures
            pool_wf(final(self)@),
            final(self).max_size() == old(self).max_size(),
            final(self)@ == upsert(old(self)@, candidate@),
    {
        let ghost before = self@;
        let p = self.position_of(candidate.account_id);
        proof {
            lemma_id_position(before, candidate.account_id);
            lemma_upsert(before, candidate@);
        }
        let ghost c = candidate@;
        if p < self.sponsors.len() && self.sponsors[p].account_id == candidate.account_id {
            self.sponsors.set(p, candidate);
            assert(self@ =~= before.update(p as int, c));
        } else {
            self.sponsors.insert(p, candidate);
            assert(self@ =~= before.insert(p as int, c));
        }
    }

    /// Add a candidate to the pool. Only top performers are taken; when the
    /// pool is full, its lowest-scoring member is removed first. A member
    /// with the same id is replaced. A pool of size zero has no room, so a
    /// top performer is accepted and nothing is stored.
    pub fn add_sponsor(&mut self, candidate: SponsorCandidate) -> (r: Result<(), SponsorAllocationError>)
        requires
            old(self).wf(),
            add_scores_fit(old(self)@, old(self).max_size(), candidate@),
        ensures
            final(self).wf(),
            final(self).max_size() == old(self).max_size(),
            final(self)@ == added(old(self)@, old(self).max_size(), candidate@),
            r == if !is_top_tier(candidate@.tier) {
                Err(SponsorAllocationError::AccountNotEligible { account_id: candidate.account_id })
            } else {
                Ok::<(), SponsorAllocationError>(())
            },
            r is Ok && old(self).max_size() > 0 ==> final(self)@.contains(candidate@),
            final(self)@.len() <= final(self).max_size(),
    {
        proof {
            lemma_added(old(self)@, old(self).max_size(), candidate@);
            lemma_without_lowest(old(self)@);
        }
        if !candidate.is_top_performer() {
            return Err(SponsorAllocationError::AccountNotEligible { account_id: candidate.account_id });
        }
        if self.max_pool_size == 0 {
            return Ok(());
        }
        if self.sponsors.len() >= self.max_pool_size {
            self.remove_lowest_performing_sponsor();
        }
        self.store(candidate);
        Ok(())
    }

    /// Remove the member with id `account_id` and hand it back.
    pub fn remove_sponsor(&mut self, account_id: u128) -> (r: Result<SponsorCandidate, SponsorAllocationError>)
        requires
            old(self).wf(),
        ensures
            final(self).wf(),
            final(self).max_size() == old(self).max_size(),
            final(self)@ == without_id(old(self)@, account_id),
            match r {
                Ok(c) => contains_id(old(self)@, account_id) && c@ == old(self)@[id_position(
                    old(self)@,
                    account_id,
                )],
                Err(e) => !contains_id(old(self)@, account_id) && e
                    == SponsorAllocationError::SponsorNotFound { sponsor_id: account_id },
            },
    {
        let p = self.position_of(account_id);
        proof {
            lemma_id_position(self@, account_id);
        }
        if p < self.sponsors.len() && self.sponsors[p].account_id == account_id {
            proof {
                lemma_remove_keeps_order(self@, p as int);
            }
            let ghost before = self@;
            let c = self.sponsors.remove(p);
            assert(self@ =~= before.remove(p as int));
            Ok(c)
        } else {
            Err(SponsorAllocationError::SponsorNotFound { sponsor_id: account_id })
        }
    }

    /// Replace the member with id `account_id` by `update_fn` applied to it.
    /// The result stays stored under `account_id`, whatever account id
    /// `update_fn` gives it. A member that is no longer eligible afterwards
    /// leaves the pool.
    pub fn update_sponsor(
        &mut self,
        account_id: u128,
        update_fn: impl FnOnce(SponsorCandidate) -> SponsorCandidate,
    ) -> (r: Result<(), SponsorAllocationError>)
        requires
            old(self).wf(),
            contains_id(old(self)@, account_id) ==> call_requires(
                update_fn,
                (old(self).members()[id_position(old(self)@, account_id)],),
            ),
        ensures
            final(self).wf(),
            final(self).max_size() == old(self).max_size(),
            contains_id(old(self)@, account_id) ==> {
                let p = id_position(old(self)@, account_id);
                &&& r is Ok
                &&& exists|u: SponsorCandidate|
                    #[trigger] call_ensures(update_fn, (old(self).members()[p],), u) && final(self)@
                        == with_updated(old(self)@, p, stored_under(u@, account_id))
            },
            !contains_id(old(self)@, account_id) ==> {
                &&& r == Err::<(), SponsorAllocationError>(
                    SponsorAllocationError::SponsorNotFound { sponsor_id: account_id },
                )
                &&& final(self)@ == old(self)@
            },
    {
        let p = self.position_of(account_id);
        proof {
            lemma_id_position(self@, account_id);
        }
        if !(p < self.sponsors.len() && self.sponsors[p].account_id == account_id) {
            return Err(SponsorAllocationError::SponsorNotFound { sponsor_id: account_id });
        }
        let ghost before = self@;
        let current = self.sponsors[p].duplicate();
        assert(current == self.members()[p as int]);
        let mut updated = update_fn(current);
        let ghost given = updated@;
        updated.account_id = account_id;
        assert(updated@ == stored_under(given, account_id));
        if updated.is_eligible_for_sponsorship() {
            self.sponsors.set(p, updated);
            proof {
                assert forall|i: int, j: int| 0 <= i < j < self@.len() implies #[trigger] self@[i].account_id
                    < #[trigger] self@[j].account_id by {
                    assert(before[i].account_id < before[j].account_id);
                }
                assert(self@ =~= with_updated(before, p as int, updated@));
            }
        } else {
            proof {
                lemma_remove_keeps_order(before, p as int);
            }
            self.sponsors.remove(p);
            assert(self@ =~= with_updated(before, p as int, updated@));
        }
        Ok(())
    }

    /// Record that the sponsor `sponsor_id` took one more account. A sponsor
    /// that reaches ten sponsored accounts leaves the pool.
    pub fn record_sponsorship(&mut self, sponsor_id: u128) -> (r: Result<(), SponsorAllocationError>)
        requires
            old(self).wf(),
            contains_id(old(self)@, sponsor_id) ==> old(self)@[id_position(
                old(self)@,
                sponsor_id,
            )].sponsored_count < u32::MAX,
        ensures
            final(self).wf(),
            final(self).max_size() == old(self).max_size(),
            contains_id(old(self)@, sponsor_id) ==> {
                let p = id_position(old(self)@, sponsor_id);
                &&& r is Ok
                &&& final(self)@ == with_updated(old(self)@, p, with_one_more(old(self)@[p]))
            },
            !contains_id(old(self)@, sponsor_id) ==> {
                &&& r == Err::<(), SponsorAllocationError>(
                    SponsorAllocationError::SponsorNotFound { sponsor_id },
                )
                &&& final(self)@ == old(self)@
            },
    {
        proof {
            lemma_id_position(self@, sponsor_id);
        }
        let bump = |c: SponsorCandidate| -> (u: SponsorCandidate)
            requires
                c.sponsored_count < u32::MAX,
            ensures
                u@ == with_one_more(c@),
                u.account_id == c.account_id,
            {
                let mut u = c;
                u.sponsored_count = u.sponsored_count + 1;
                u
            };
        self.update_sponsor(sponsor_id, bump)
    }

    /// Record that an account sponsored by `sponsor_id` is no longer
    /// active: its count goes down by one, not below zero. A member that is
    /// still not eligible afterwards leaves the pool.
    pub fn record_sponsorship_ended(&mut self, sponsor_id: u128) -> (r: Result<(), SponsorAllocationError>)
        requires
            old(self).wf(),
        ensures
            final(self).wf(),
            final(self).max_size() == old(self).max_size(),
            contains_id(old(self)@, sponsor_id) ==> {
                let p = id_position(old(self)@, sponsor_id);
                &&& r is Ok
                &&& final(self)@ == with_updated(old(self)@, p, with_one_fewer(old(self)@[p]))
            },
            !contains_id(old(self)@, sponsor_id) ==> {
                &&& r == Err::<(), SponsorAllocationError>(
                    SponsorAllocationError::SponsorNotFound { sponsor_id },
                )
                &&& final(self)@ == old(self)@
            },
    {
        proof {
            lemma_id_position(self@, sponsor_id);
        }
        let ease = |c: SponsorCandidate| -> (u: SponsorCandidate)
            ensures
                u@ == with_one_fewer(c@),
                u.account_id == c.account_id,
            {
                let mut u = c;
                if u.sponsored_count > 0 {
                    u.sponsored_count = u.sponsored_count - 1;
                }
                u
            };
        self.update_sponsor(sponsor_id, ease)
    }

    /// The eligible members, in pool order (ascending account id).
    pub fn get_eligible_sponsors(&self) -> (r: Vec<SponsorCandidate>)
        ensures
            r@.map_values(|c: SponsorCandidate| c@) == eligible_entries(self@),
    {
        let mut out: Vec<SponsorCandidate> = Vec::new();
        let n = self.sponsors.len();
        let ghost s = self@;
        let mut i: usize = 0;
        while i < n
            invariant
                n == s.len(),
                s == self@,
                i <= n,
                out@.map_values(|c: SponsorCandidate| c@) == s.take(i as int).filter(eligible_pred()),
            decreases n - i,
        {
            proof {
                assert(s.take(i + 1) =~= s.take(i as int).push(s[i as int]));
                s.take(i as int).lemma_filter_push(s[i as int], eligible_pred());
            }
            if self.sponsors[i].is_eligible_for_sponsorship() {
                let ghost before = out@;
                out.push(self.sponsors[i].duplicate());
                assert(out@.map_values(|c: SponsorCandidate| c@) =~= before.map_values(
                    |c: SponsorCandidate| c@,
                ).push(s[i as int]));
            }
            i = i + 1;
        }
        assert(s.take(n as int) =~= s);
        out
    }

    /// Pool statistics.
    pub fn pool_stats(&self) -> (st: PoolStats)
        requires
            self.wf(),
        ensures
            st.total_sponsors == self@.len(),
            st.eligible_sponsors == eligible_entries(self@).len(),
            st.ace_sponsors == self@.filter(tier_pred("Ace"@)).len(),
            st.king_sponsors == self@.filter(tier_pred("King"@)).len(),
            st.max_pool_size == self.max_size(),
            st.ace_sponsors == 0,
            st.king_sponsors == st.total_sponsors,
    {
        let total_sponsors = self.sponsors.len();
        let eligible_sponsors = self.get_eligible_sponsors().len();
        let ghost s = self@;
        let ghost ace = tier_pred("Ace"@);
        let ghost king = tier_pred("King"@);
        proof {
            reveal_strlit("Ace");
            reveal_strlit("King");
            assert("Ace"@.len() != "King"@.len());
        }
        let mut ace_sponsors: usize = 0;
        let mut king_sponsors: usize = 0;
        let mut i: usize = 0;
        while i < total_sponsors
            invariant
                total_sponsors == s.len(),
                s == self@,
                self.wf(),
                i <= total_sponsors,
                ace_sponsors == s.take(i as int).filter(ace).len(),
                king_sponsors == s.take(i as int).filter(king).len(),
                ace_sponsors == 0,
                king_sponsors == i,
                "Ace"@ != "King"@,
                ace == tier_pred("Ace"@),
                king == tier_pred("King"@),
            decreases total_sponsors - i,
        {
            proof {
                assert(s.take(i + 1) =~= s.take(i as int).push(s[i as int]));
                s.take(i as int).lemma_filter_push(s[i as int], ace);
                s.take(i as int).lemma_filter_push(s[i as int], king);
                assert(is_top_tier(s[i as int].tier));
            }
            if text_equals(self.sponsors[i].tier.as_str(), "Ace") {
                ace_sponsors = ace_sponsors + 1;
            }
            if text_equals(self.sponsors[i].tier.as_str(), "King") {
                king_sponsors = king_sponsors + 1;
            }
            i = i + 1;
        }
        assert(s.take(total_sponsors as int) =~= s);
        PoolStats {
            total_sponsors,
            eligible_sponsors,
            ace_sponsors,
            king_sponsors,
            max_pool_size: self.max_pool_size,
        }
    }

    /// Rebuild the pool from `updated_candidates`: the top performers among
    /// them, a later one replacing an earlier one with the same id, cut down
    /// to the pool's size by removing the lowest-scoring members one by one.
    pub fn refresh_pool(&mut self, updated_candidates: Vec<SponsorCandidate>)
        requires
            old(self).wf(),
            collected(views_of(updated_candidates@)).len() > old(self).max_size() ==> all_scores_fit(
                collected(views_of(updated_candidates@)),
            ),
        ensures
            final(self).wf(),
            final(self).max_size() == old(self).max_size(),
            final(self)@ == refreshed(views_of(updated_candidates@), old(self).max_size()),
            final(self)@.len() <= old(self).max_size(),
    {
        let ghost cands = views_of(updated_candidates@);
        self.sponsors.clear();
        assert(self@ =~= collected(cands.take(0)));
        let n = updated_candidates.len();
        let mut i: usize = 0;
        while i < n
            invariant
                n == cands.len(),
                cands == views_of(updated_candidates@),
                i <= n,
                pool_wf(self@),
                self.max_size() == old(self).max_size(),
                self@ == collected(cands.take(i as int)),
            decreases n - i,
        {
            proof {
                assert(cands.take(i + 1).drop_last() =~= cands.take(i as int));
                assert(cands.take(i + 1).last() == cands[i as int]);
            }
            if updated_candidates[i].is_top_performer() {
                self.store(updated_candidates[i].duplicate());
            }
            i = i + 1;
        }
        assert(cands.take(n as int) =~= cands);
        let ghost full = self@;
        let ghost mut k: nat = 0;
        while self.sponsors.len() > self.max_pool_size
            invariant
                pool_wf(self@),
                self.max_size() == old(self).max_size(),
                self@ == without_lowest_times(full, k),
                self@.len() + k == full.len(),
                full.len() > self.max_size() ==> self@.len() >= self.max_size(),
                full.len() <= self.max_size() ==> k == 0,
                full.len() > self.max_size() ==> all_scores_fit(full),
                forall|j: int| 0 <= j < self@.len() ==> full.contains(#[trigger] self@[j]),
            decreases self@.len(),
        {
            proof {
                assert forall|j: int| 0 <= j < self@.len() implies score_fits(#[trigger] self@[j]) by {
                    let q = choose|q: int| 0 <= q < full.len() && full[q] == self@[j];
                    assert(score_fits(full[q]));
                }
                lemma_without_lowest(self@);
            }
            let ghost before = self@;
            self.remove_lowest_performing_sponsor();
            proof {
                assert forall|j: int| 0 <= j < self@.len() implies full.contains(#[trigger] self@[j]) by {
                    let q = choose|q: int| 0 <= q < before.len() && before[q] == self@[j];
                    assert(full.contains(before[q]));
                }
            }
            proof {
                k = k + 1;
            }
        }
        assert(self@ == trimmed(full, self.max_size()));
    }

    /// A pool of size `max_pool_size` filled with the top performers among
    /// `candidates`, added one after another.
    pub fn from_candidates(candidates: Vec<SponsorCandidate>, max_pool_size: usize) -> (p: Self)
        requires
            added_all_scores_fit(views_of(candidates@), max_pool_size as nat),
        ensures
            p.wf(),
            p.max_size() == max_pool_size,
            p@ == added_all(views_of(candidates@), max_pool_size as nat),
    {
        let ghost cands = views_of(candidates@);
        let mut pool = SponsorPool::new(max_pool_size);
        assert(pool@ =~= added_all(cands.take(0), max_pool_size as nat));
        let n = candidates.len();
        let mut i: usize = 0;
        while i < n
            invariant
                n == cands.len(),
                cands == views_of(candidates@),
                i <= n,
                pool.wf(),
                pool.max_size() == max_pool_size,
                pool@ == added_all(cands.take(i as int), max_pool_size as nat),
                added_all_scores_fit(cands, max_pool_size as nat),
            decreases n - i,
        {
            proof {
                lemma_added_all_scores_fit_prefix(cands, max_pool_size as nat, i + 1);
                assert(cands.take(i + 1).drop_last() =~= cands.take(i as int));
                assert(cands.take(i + 1).last() == cands[i as int]);
            }
            if candidates[i].is_top_performer() {
                let _ = pool.add_sponsor(candidates[i].duplicate());
            }
            i = i + 1;
        }
        assert(cands.take(n as int) =~= cands);
        pool
    }

    /// The `count` best eligible members, best first: by score, highest
    /// first, equal scores in pool order.
    pub fn get_top_sponsors(&self, count: usize) -> (r: Vec<SponsorCandidate>)
        requires
            self.wf(),
            eligible_entries(self@).len() >= 2 ==> all_scores_fit(eligible_entries(self@)),
        ensures
            is_top_selection(eligible_entries(self@), count as nat, views_of(r@)),
    {
        let eligible = self.get_eligible_sponsors();
        let ghost e = eligible_entries(self@);
        proof {
            lemma_eligible_entries(self@);
        }
        let n = eligible.len();
        let mut ranked: Vec<SponsorCandidate> = Vec::new();
        // `origin[q]` is the index in `e` of the entry at `ranked[q]`.
        let ghost mut origin: Seq<int> = Seq::empty();
        let mut i: usize = 0;
        while i < n
            invariant
                n == e.len(),
                views_of(eligible@) == e,
                pool_wf(e),
                n >= 2 ==> all_scores_fit(e),
                i <= n,
                ranked.len() == i,
                origin.len() == i,
                rank_sorted(views_of(ranked@)),
                forall|q: int|
                    0 <= q < i ==> 0 <= #[trigger] origin[q] < i && views_of(ranked@)[q]
                        == e[origin[q]],
                forall|j: int| 0 <= j < i ==> views_of(ranked@).contains(#[trigger] e[j]),
            decreases n - i,
        {
            let ghost rv = views_of(ranked@);
            let c = eligible[i].duplicate();
            let ghost cv = c@;
            assert(cv == e[i as int]);
            let mut k: usize = 0;
            if ranked.len() > 0 {
                assert(score_fits(e[i as int]));
                let cs = c.sponsor_score();
                let mut placed = false;
                while !placed && k < ranked.len()
                    invariant
                        rv == views_of(ranked@),
                        k <= ranked.len(),
                        ranked.len() == i,
                        origin.len() == i,
                        i < n,
                        n == e.len(),
                        pool_wf(e),
                        all_scores_fit(e),
                        cv == e[i as int],
                        cv == c@,
                        cs == score_of(cv),
                        forall|q: int|
                            0 <= q < i ==> 0 <= #[trigger] origin[q] < i && rv[q] == e[origin[q]],
                        forall|q: int| 0 <= q < k ==> ranks_before(#[trigger] rv[q], cv),
                        placed ==> k < ranked.len() && ranks_before(cv, rv[k as int]),
                    decreases ranked.len() - k + (if placed {
                        0int
                    } else {
                        1int
                    }),
                {
                    let ghost j = origin[k as int];
                    assert(rv[k as int] == e[j]);
                    assert(score_fits(e[j]));
                    assert(e[j].account_id < e[i as int].account_id);
                    assert(ranked[k as int]@ == rv[k as int]);
                    let other = ranked[k].sponsor_score();
                    if cs > other || (cs == other && c.account_id < ranked[k].account_id) {
                        placed = true;
                    } else {
                        k = k + 1;
                    }
                }
            }
            proof {
                lemma_rank_insert(rv, cv, k as int);
            }
            ranked.insert(k, c);
            proof {
                let nv = views_of(ranked@);
                assert(nv =~= rv.insert(k as int, cv));
                rv.insert_ensures(k as int, cv);
                let old_origin = origin;
                origin = origin.insert(k as int, i as int);
                old_origin.insert_ensures(k as int, i as int);
                assert forall|q: int| 0 <= q < i + 1 implies 0 <= #[trigger] origin[q] < i + 1
                    && nv[q] == e[origin[q]] by {
                    if q < k {
                        assert(nv[q] == rv[q]);
                        assert(origin[q] == old_origin[q]);
                    } else if q > k {
                        assert(nv[q] == rv[q - 1]);
                        assert(origin[q] == old_origin[q - 1]);
                    }
                }
                assert forall|j: int| 0 <= j < i + 1 implies nv.contains(#[trigger] e[j]) by {
                    if j < i {
                        assert(rv.contains(e[j]));
                        let q = choose|q: int| 0 <= q < rv.len() && rv[q] == e[j];
                        if q < k {
                            assert(nv[q] == e[j]);
                        } else {
                            assert(nv[q + 1] == e[j]);
                        }
                    } else {
                        assert(nv[k as int] == e[j]);
                    }
                }
            }
            i = i + 1;
        }
        proof {
            let rv = views_of(ranked@);
            assert forall|k: int| 0 <= k < rv.len() implies e.contains(#[trigger] rv[k]) by {
                assert(rv[k] == e[origin[k]]);
            }
            lemma_top_prefix(e, rv, count as nat);
        }
        let ghost before = views_of(ranked@);
        ranked.truncate(count);
        assert(views_of(ranked@) =~= before.take(min_nat(count as nat, n as nat) as int));
        ranked
    }

    /// All members, in pool order.
    pub fn all_sponsors(&self) -> (r: Vec<SponsorCandidate>)
        ensures
            views_of(r@) == self@,
    {
        let mut out: Vec<SponsorCandidate> = Vec::new();
        let n = self.sponsors.len();
        let mut i: usize = 0;
        while i < n
            invariant
                n == self@.len(),
                i <= n,
                views_of(out@) == self@.take(i as int),
            decreases n - i,
        {
            let ghost before = out@;
            let c = self.sponsors[i].duplicate();
            assert(c@ == self@[i as int]);
            out.push(c);
            assert(out@ == before.push(c));
            assert(views_of(out@) =~= views_of(before).push(c@));
            assert(self@.take(i + 1) =~= self@.take(i as int).push(self@[i as int]));
            i = i + 1;
        }
        assert(self@.take(n as int) =~= self@);
        out
    }
}

/// Statistics about the sponsor pool.
#[derive(Debug, Clone, PartialEq, Eq, Structural)]
pub struct PoolStats {
    pub total_sponsors: usize,
    pub eligible_sponsors: usize,
    pub ace_sponsors: usize,
    pub king_sponsors: usize,
    pub max_pool_size: usize,
}

} // verus!
