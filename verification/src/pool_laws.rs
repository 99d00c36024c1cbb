//! What the pool's operations do, stated in terms of scores, counts and
//! membership.

use crate::model::{
    added, added_all, collected, contains_id, id_position, is_top_tier, lemma_id_position,
    lemma_lowest_score_index, lemma_remove_keeps_order, lemma_upsert, lemma_without_lowest,
    lowest_score_index, min_nat, pool_wf, refreshed, score_of, upsert, with_one_fewer,
    with_one_more, with_updated, without_lowest, without_lowest_times, CandidateView,
};
use crate::laws::law_update_keeps_pool_valid;
use vstd::prelude::*;

verus! {

/// Evicting the lowest scorer `k` times keeps only entries of `s`, one
/// fewer each time, and every evicted entry scores no higher than any entry
/// that is left.
proof fn lemma_evictions(s: Seq<CandidateView>, k: nat)
    requires
        k <= s.len(),
    ensures
        without_lowest_times(s, k).len() == s.len() - k,
        forall|j: int|
            0 <= j < without_lowest_times(s, k).len() ==> s.contains(
                #[trigger] without_lowest_times(s, k)[j],
            ),
        forall|i: int, j: int|
            0 <= i < s.len() && 0 <= j < without_lowest_times(s, k).len()
                && !without_lowest_times(s, k).contains(s[i]) ==> score_of(#[trigger] s[i])
                <= score_of(#[trigger] without_lowest_times(s, k)[j]),
    decreases k,
{
    if k > 0 {
        lemma_evictions(s, (k - 1) as nat);
        let t = without_lowest_times(s, (k - 1) as nat);
        let u = without_lowest_times(s, k);
        assert(u == without_lowest(t));
        lemma_lowest_score_index(t);
        let p = lowest_score_index(t);
        assert(u == t.remove(p));
        assert forall|j: int| 0 <= j < u.len() implies s.contains(#[trigger] u[j]) by {
            if j < p {
                assert(u[j] == t[j]);
            } else {
                assert(u[j] == t[j + 1]);
            }
        }
        assert forall|i: int, j: int|
            0 <= i < s.len() && 0 <= j < u.len() && !u.contains(s[i]) implies score_of(
            #[trigger] s[i],
        ) <= score_of(#[trigger] u[j]) by {
            let jj = if j < p {
                j
            } else {
                j + 1
            };
            assert(u[j] == t[jj]);
            if t.contains(s[i]) {
                let q = choose|q: int| 0 <= q < t.len() && t[q] == s[i];
                if q != p {
                    let qq = if q < p {
                        q
                    } else {
                        q - 1
                    };
                    assert(u[qq] == t[q]);
                }
                assert(q == p);
            }
        }
    }
}

/// A refresh keeps `min(n, size)` of the `n` collected top performers, and
/// when it must cut the pool down, every collected candidate it leaves out
/// scores no higher than every member it keeps.
pub proof fn law_refresh_keeps_highest_scorers(cands: Seq<CandidateView>, max: nat)
    ensures
        refreshed(cands, max).len() == min_nat(collected(cands).len(), max),
        forall|j: int|
            0 <= j < refreshed(cands, max).len() ==> collected(cands).contains(
                #[trigger] refreshed(cands, max)[j],
            ),
        forall|i: int, j: int|
            0 <= i < collected(cands).len() && 0 <= j < refreshed(cands, max).len()
                && !refreshed(cands, max).contains(collected(cands)[i]) ==> score_of(
                #[trigger] collected(cands)[i],
            ) <= score_of(#[trigger] refreshed(cands, max)[j]),
{
    let c = collected(cands);
    if c.len() > max {
        lemma_evictions(c, (c.len() - max) as nat);
    } else {
        assert forall|i: int| 0 <= i < c.len() implies c.contains(#[trigger] c[i]) by {}
    }
}

/// The top performers a refresh collects: only King-tier candidates, each
/// one of the given candidates, in id order; and every King-tier candidate
/// is kept under its id, itself when no later candidate has its id.
pub proof fn law_refresh_takes_top_performers(cands: Seq<CandidateView>)
    ensures
        pool_wf(collected(cands)),
        collected(cands).len() <= cands.len(),
        forall|j: int|
            0 <= j < collected(cands).len() ==> cands.contains(#[trigger] collected(cands)[j]),
        forall|i: int|
            0 <= i < cands.len() && is_top_tier(cands[i].tier) ==> contains_id(
                collected(cands),
                #[trigger] cands[i].account_id,
            ),
        forall|i: int|
            #![trigger cands[i]]
            0 <= i < cands.len() && is_top_tier(cands[i].tier) && (forall|j: int|
                i < j < cands.len() ==> cands[j].account_id != cands[i].account_id)
                ==> collected(cands).contains(cands[i]),
    decreases cands.len(),
{
    if cands.len() > 0 {
        let d = cands.drop_last();
        let last = cands.last();
        let n = cands.len() - 1;
        law_refresh_takes_top_performers(d);
        let prev = collected(d);
        if is_top_tier(last.tier) {
            lemma_upsert(prev, last);
        }
        lemma_kept_by_step(cands, prev, collected(cands));
    }
}

/// One step of adding the last candidate without eviction: what `prev`
/// held for the earlier candidates, `next` holds for all of them.
proof fn lemma_kept_by_step(
    cands: Seq<CandidateView>,
    prev: Seq<CandidateView>,
    next: Seq<CandidateView>,
)
    requires
        cands.len() > 0,
        pool_wf(prev),
        prev.len() <= cands.len() - 1,
        forall|j: int| 0 <= j < prev.len() ==> cands.drop_last().contains(#[trigger] prev[j]),
        forall|i: int|
            0 <= i < cands.drop_last().len() && is_top_tier(cands.drop_last()[i].tier)
                ==> contains_id(prev, #[trigger] cands.drop_last()[i].account_id),
        forall|i: int|
            #![trigger cands.drop_last()[i]]
            0 <= i < cands.drop_last().len() && is_top_tier(cands.drop_last()[i].tier) && (forall|
                j: int,
            |
                i < j < cands.drop_last().len() ==> cands.drop_last()[j].account_id
                    != cands.drop_last()[i].account_id) ==> prev.contains(cands.drop_last()[i]),
        next == if is_top_tier(cands.last().tier) {
            upsert(prev, cands.last())
        } else {
            prev
        },
    ensures
        pool_wf(next),
        next.len() <= cands.len(),
        forall|j: int| 0 <= j < next.len() ==> cands.contains(#[trigger] next[j]),
        forall|i: int|
            0 <= i < cands.len() && is_top_tier(cands[i].tier) ==> contains_id(
                next,
                #[trigger] cands[i].account_id,
            ),
        forall|i: int|
            #![trigger cands[i]]
            0 <= i < cands.len() && is_top_tier(cands[i].tier) && (forall|j: int|
                i < j < cands.len() ==> cands[j].account_id != cands[i].account_id)
                ==> next.contains(cands[i]),
{
    let d = cands.drop_last();
    let last = cands.last();
    let n = cands.len() - 1;
    assert forall|j: int| 0 <= j < prev.len() implies cands.contains(#[trigger] prev[j]) by {
        let q = choose|q: int| 0 <= q < d.len() && d[q] == prev[j];
        assert(cands[q] == d[q]);
    }
    if is_top_tier(last.tier) {
        lemma_upsert(prev, last);
        assert(cands[n] == last);
        assert forall|j: int| 0 <= j < next.len() implies cands.contains(#[trigger] next[j]) by {
            if next[j] != last {
                let q = choose|q: int| 0 <= q < prev.len() && prev[q] == next[j];
            }
        }
        assert forall|i: int| 0 <= i < cands.len() && is_top_tier(cands[i].tier) implies contains_id(
            next,
            #[trigger] cands[i].account_id,
        ) by {
            let q = choose|q: int| 0 <= q < next.len() && next[q] == last;
            if i < n && cands[i].account_id != last.account_id {
                assert(d[i] == cands[i]);
                let k = choose|k: int| 0 <= k < prev.len() && #[trigger] prev[k].account_id
                    == d[i].account_id;
                assert(next.contains(prev[k]));
                let r = choose|r: int| 0 <= r < next.len() && next[r] == prev[k];
            } else {
                assert(next[q].account_id == cands[i].account_id);
            }
        }
        assert forall|i: int|
            #![trigger cands[i]]
            0 <= i < cands.len() && is_top_tier(cands[i].tier) && (forall|j: int|
                i < j < cands.len() ==> cands[j].account_id != cands[i].account_id) implies next.contains(
            cands[i],
        ) by {
            if i < n {
                assert(cands[n].account_id != cands[i].account_id);
                assert(d[i] == cands[i]);
                assert forall|j: int| i < j < d.len() implies d[j].account_id
                    != d[i].account_id by {
                    assert(d[j] == cands[j]);
                }
                assert(prev.contains(d[i]));
                let k = choose|k: int| 0 <= k < prev.len() && prev[k] == d[i];
                assert(next.contains(prev[k]));
            }
        }
    } else {
        assert forall|i: int| 0 <= i < cands.len() && is_top_tier(cands[i].tier) implies contains_id(
            next,
            #[trigger] cands[i].account_id,
        ) by {
            assert(i < n);
            assert(d[i] == cands[i]);
        }
        assert forall|i: int|
            #![trigger cands[i]]
            0 <= i < cands.len() && is_top_tier(cands[i].tier) && (forall|j: int|
                i < j < cands.len() ==> cands[j].account_id != cands[i].account_id) implies next.contains(
            cands[i],
        ) by {
            assert(i < n);
            assert(d[i] == cands[i]);
            assert forall|j: int| i < j < d.len() implies d[j].account_id != d[i].account_id by {
                assert(d[j] == cands[j]);
            }
        }
    }
}

/// Building a pool from candidates with room for all of them makes every
/// King-tier candidate a member under its id, whatever its sponsored count,
/// and keeps the last candidate given for each id exactly as given; nothing
/// else becomes a member.
pub proof fn law_from_candidates_keeps_every_king(cands: Seq<CandidateView>, max: nat)
    requires
        cands.len() <= max,
    ensures
        pool_wf(added_all(cands, max)),
        added_all(cands, max).len() <= cands.len(),
        forall|j: int|
            0 <= j < added_all(cands, max).len() ==> cands.contains(
                #[trigger] added_all(cands, max)[j],
            ),
        forall|i: int|
            0 <= i < cands.len() && is_top_tier(cands[i].tier) ==> contains_id(
                added_all(cands, max),
                #[trigger] cands[i].account_id,
            ),
        forall|i: int|
            #![trigger cands[i]]
            0 <= i < cands.len() && is_top_tier(cands[i].tier) && (forall|j: int|
                i < j < cands.len() ==> cands[j].account_id != cands[i].account_id)
                ==> added_all(cands, max).contains(cands[i]),
    decreases cands.len(),
{
    if cands.len() > 0 {
        let d = cands.drop_last();
        let last = cands.last();
        law_from_candidates_keeps_every_king(d, max);
        let prev = added_all(d, max);
        assert(prev.len() < max);
        lemma_kept_by_step(cands, prev, added_all(cands, max));
    }
}

/// Adding a King-tier candidate to a pool with room stores it; no member
/// with another id is lost unless the pool was full, and then only one:
/// a member scoring no higher than any member of the pool.
pub proof fn law_add_evicts_lowest_scorer(s: Seq<CandidateView>, max: nat, c: CandidateView)
    requires
        pool_wf(s),
        s.len() <= max,
        max > 0,
        is_top_tier(c.tier),
    ensures
        added(s, max, c).contains(c),
        added(s, max, c).len() <= max,
        forall|k: int|
            0 <= k < s.len() && s.len() < max && s[k].account_id != c.account_id ==> added(
                s,
                max,
                c,
            ).contains(#[trigger] s[k]),
        forall|i: int, j: int|
            0 <= i < s.len() && 0 <= j < s.len() && !added(s, max, c).contains(s[i])
                && s[i].account_id != c.account_id ==> score_of(#[trigger] s[i]) <= score_of(
                #[trigger] s[j],
            ),
        forall|i: int, j: int|
            0 <= i < j < s.len() && !added(s, max, c).contains(#[trigger] s[i]) && !added(
                s,
                max,
                c,
            ).contains(#[trigger] s[j]) ==> s[i].account_id == c.account_id || s[j].account_id
                == c.account_id,
{
    let a = added(s, max, c);
    if s.len() < max {
        lemma_upsert(s, c);
    } else {
        lemma_lowest_score_index(s);
        lemma_without_lowest(s);
        let p = lowest_score_index(s);
        let t = without_lowest(s);
        assert(t == s.remove(p));
        lemma_upsert(t, c);
        assert(a == upsert(t, c));
        assert forall|i: int|
            0 <= i < s.len() && i != p && s[i].account_id != c.account_id implies a.contains(
            #[trigger] s[i],
        ) by {
            let ii = if i < p {
                i
            } else {
                i - 1
            };
            assert(t[ii] == s[i]);
        }
    }
}

/// Recording a sponsorship for a member adds exactly one to its count,
/// changing nothing else, while the count stays under ten; at ten the
/// member leaves. Ending a sponsorship takes exactly one from a positive
/// count and leaves zero at zero; a member still at ten or more afterwards
/// leaves.
pub proof fn law_sponsorship_counts(s: Seq<CandidateView>, id: u128)
    requires
        pool_wf(s),
        contains_id(s, id),
    ensures
        ({
            let m = s[id_position(s, id)];
            let more = with_updated(s, id_position(s, id), with_one_more(m));
            let fewer = with_updated(s, id_position(s, id), with_one_fewer(m));
            &&& m.sponsored_count + 1 < 10 ==> contains_id(more, id) && more[id_position(more, id)]
                == CandidateView { sponsored_count: (m.sponsored_count + 1) as u32, ..m }
            &&& 10 <= m.sponsored_count + 1 <= u32::MAX ==> !contains_id(more, id)
            &&& m.sponsored_count == 0 ==> contains_id(fewer, id) && fewer[id_position(fewer, id)]
                == m
            &&& 0 < m.sponsored_count <= 10 ==> contains_id(fewer, id) && fewer[id_position(
                fewer,
                id,
            )] == CandidateView { sponsored_count: (m.sponsored_count - 1) as u32, ..m }
            &&& m.sponsored_count > 10 ==> !contains_id(fewer, id)
        }),
{
    lemma_id_position(s, id);
    let p = id_position(s, id);
    let m = s[p];
    assert(is_top_tier(m.tier));
    law_update_keeps_pool_valid(s, p, with_one_more(m));
    law_update_keeps_pool_valid(s, p, with_one_fewer(m));
}

} // verus!
