//! The mathematical model of sponsor candidates and of the pool's contents.
//!
//! The pool is modelled as a sequence of candidate views whose account ids
//! strictly increase; every operation on the pool is stated as a function on
//! such sequences.

use vstd::prelude::*;

verus! {

broadcast use vstd::seq_lib::group_seq_properties;

/// A sponsor candidate as plain mathematical values.
pub struct CandidateView {
    pub account_id: u128,
    pub tier: Seq<char>,
    pub cycle_count: u32,
    pub sponsored_count: u32,
}

/// The tier whose accounts may sponsor.
pub open spec fn top_tier() -> Seq<char> {
    "King"@
}

pub open spec fn is_top_tier(tier: Seq<char>) -> bool {
    tier == top_tier()
}

/// A candidate may take another sponsored account: it is in the top tier and
/// sponsors fewer than ten accounts.
pub open spec fn is_eligible(c: CandidateView) -> bool {
    c.sponsored_count < 10 && is_top_tier(c.tier)
}

pub open spec fn tier_weight(tier: Seq<char>) -> int {
    if is_top_tier(tier) {
        1000
    } else {
        0
    }
}

/// Sponsor score: tier weight plus matrix cycles minus two per sponsored account.
pub open spec fn score_of(c: CandidateView) -> int {
    tier_weight(c.tier) + c.cycle_count - 2 * c.sponsored_count
}

/// The score can be computed in 32-bit unsigned arithmetic without overflow
/// or underflow.
pub open spec fn score_fits(c: CandidateView) -> bool {
    &&& tier_weight(c.tier) + c.cycle_count <= u32::MAX
    &&& 2 * c.sponsored_count <= tier_weight(c.tier) + c.cycle_count
}

pub open spec fn all_scores_fit(s: Seq<CandidateView>) -> bool {
    forall|i: int| 0 <= i < s.len() ==> score_fits(#[trigger] s[i])
}

pub open spec fn ids_increasing(s: Seq<CandidateView>) -> bool {
    forall|i: int, j: int|
        0 <= i < j < s.len() ==> #[trigger] s[i].account_id < #[trigger] s[j].account_id
}

pub open spec fn all_top_tier(s: Seq<CandidateView>) -> bool {
    forall|i: int| 0 <= i < s.len() ==> is_top_tier(#[trigger] s[i].tier)
}

/// Well-formed pool contents: ordered by account id without repetition, and
/// only top-tier members.
pub open spec fn pool_wf(s: Seq<CandidateView>) -> bool {
    ids_increasing(s) && all_top_tier(s)
}

pub open spec fn contains_id(s: Seq<CandidateView>, id: u128) -> bool {
    exists|i: int| 0 <= i < s.len() && #[trigger] s[i].account_id == id
}

/// Number of leading entries whose id is below `id`: where `id` is, or would go.
pub open spec fn id_position(s: Seq<CandidateView>, id: u128) -> int
    decreases s.len(),
{
    if s.len() == 0 {
        0
    } else if s[0].account_id >= id {
        0
    } else {
        1 + id_position(s.drop_first(), id)
    }
}

/// The contents with `c` stored under its account id, replacing any entry
/// with that id.
pub open spec fn upsert(s: Seq<CandidateView>, c: CandidateView) -> Seq<CandidateView> {
    let p = id_position(s, c.account_id);
    if p < s.len() && s[p].account_id == c.account_id {
        s.update(p, c)
    } else {
        s.insert(p, c)
    }
}

/// The contents without the entry for `id`, if there is one.
pub open spec fn without_id(s: Seq<CandidateView>, id: u128) -> Seq<CandidateView> {
    let p = id_position(s, id);
    if p < s.len() && s[p].account_id == id {
        s.remove(p)
    } else {
        s
    }
}

/// Index of the first entry with the lowest score.
pub open spec fn lowest_score_index(s: Seq<CandidateView>) -> int
    decreases s.len(),
{
    if s.len() <= 1 {
        0
    } else {
        let k = lowest_score_index(s.drop_last());
        if score_of(s.last()) < score_of(s[k]) {
            s.len() - 1
        } else {
            k
        }
    }
}

/// The contents without their first lowest-scoring entry.
pub open spec fn without_lowest(s: Seq<CandidateView>) -> Seq<CandidateView> {
    if s.len() == 0 {
        s
    } else {
        s.remove(lowest_score_index(s))
    }
}

/// The contents after `n` evictions of the lowest-scoring entry.
pub open spec fn without_lowest_times(s: Seq<CandidateView>, n: nat) -> Seq<CandidateView>
    decreases n,
{
    if n == 0 {
        s
    } else {
        without_lowest(without_lowest_times(s, (n - 1) as nat))
    }
}

/// The contents cut down to at most `max` entries by evicting the
/// lowest-scoring entries one at a time.
pub open spec fn trimmed(s: Seq<CandidateView>, max: nat) -> Seq<CandidateView> {
    if s.len() > max {
        without_lowest_times(s, (s.len() - max) as nat)
    } else {
        s
    }
}

/// Adding `c` to a pool of capacity `max`: a candidate outside the top tier
/// is refused; a pool of capacity zero has no room and stays empty;
/// otherwise, when the pool is full, the lowest-scoring member is evicted
/// first, and then `c` is stored under its id.
pub open spec fn added(s: Seq<CandidateView>, max: nat, c: CandidateView) -> Seq<CandidateView> {
    if !is_top_tier(c.tier) || max == 0 {
        s
    } else if s.len() >= max {
        upsert(without_lowest(s), c)
    } else {
        upsert(s, c)
    }
}

/// Adding `c` needs scores only when a member must be evicted first.
pub open spec fn add_scores_fit(s: Seq<CandidateView>, max: nat, c: CandidateView) -> bool {
    is_top_tier(c.tier) && max > 0 && s.len() >= max ==> all_scores_fit(s)
}

/// Adding all of `cands`, in order, to an empty pool of capacity `max`.
pub open spec fn added_all(cands: Seq<CandidateView>, max: nat) -> Seq<CandidateView>
    decreases cands.len(),
{
    if cands.len() == 0 {
        Seq::empty()
    } else {
        added(added_all(cands.drop_last(), max), max, cands.last())
    }
}

/// Every step of `added_all` can compute the scores it needs.
pub open spec fn added_all_scores_fit(cands: Seq<CandidateView>, max: nat) -> bool
    decreases cands.len(),
{
    if cands.len() == 0 {
        true
    } else {
        added_all_scores_fit(cands.drop_last(), max) && add_scores_fit(
            added_all(cands.drop_last(), max),
            max,
            cands.last(),
        )
    }
}

/// The top-tier candidates of `cands`, each stored under its id, a later
/// candidate replacing an earlier one with the same id.
pub open spec fn collected(cands: Seq<CandidateView>) -> Seq<CandidateView>
    decreases cands.len(),
{
    if cands.len() == 0 {
        Seq::empty()
    } else if is_top_tier(cands.last().tier) {
        upsert(collected(cands.drop_last()), cands.last())
    } else {
        collected(cands.drop_last())
    }
}

/// Pool contents after a refresh from `cands` with capacity `max`.
pub open spec fn refreshed(cands: Seq<CandidateView>, max: nat) -> Seq<CandidateView> {
    trimmed(collected(cands), max)
}

pub open spec fn eligible_pred() -> spec_fn(CandidateView) -> bool {
    |c: CandidateView| is_eligible(c)
}

/// Holds of the entries of tier `tier`.
pub open spec fn tier_pred(tier: Seq<char>) -> spec_fn(CandidateView) -> bool {
    |c: CandidateView| c.tier == tier
}

/// The eligible members, in pool order.
pub open spec fn eligible_entries(s: Seq<CandidateView>) -> Seq<CandidateView> {
    s.filter(eligible_pred())
}

/// Contents after the entry at `p` was replaced by `c`: it stays only while
/// it is eligible.
pub open spec fn with_updated(s: Seq<CandidateView>, p: int, c: CandidateView) -> Seq<
    CandidateView,
> {
    if is_eligible(c) {
        s.update(p, c)
    } else {
        s.remove(p)
    }
}

/// The candidate with its account id set to `id`.
pub open spec fn stored_under(c: CandidateView, id: u128) -> CandidateView {
    CandidateView { account_id: id, ..c }
}

/// The candidate with one more sponsored account.
pub open spec fn with_one_more(c: CandidateView) -> CandidateView {
    CandidateView { sponsored_count: (c.sponsored_count + 1) as u32, ..c }
}

/// The candidate with one sponsored account fewer, not going below zero.
pub open spec fn with_one_fewer(c: CandidateView) -> CandidateView {
    if c.sponsored_count > 0 {
        CandidateView { sponsored_count: (c.sponsored_count - 1) as u32, ..c }
    } else {
        c
    }
}

/// `a` ranks before `b`: a higher score, or an equal score and a smaller id.
pub open spec fn ranks_before(a: CandidateView, b: CandidateView) -> bool {
    score_of(a) > score_of(b) || (score_of(a) == score_of(b) && a.account_id < b.account_id)
}

pub open spec fn rank_sorted(s: Seq<CandidateView>) -> bool {
    forall|i: int, j: int| 0 <= i < j < s.len() ==> ranks_before(#[trigger] s[i], #[trigger] s[j])
}

pub open spec fn min_nat(a: nat, b: nat) -> nat {
    if a <= b {
        a
    } else {
        b
    }
}

/// `r` holds the `count` best-ranked entries of `src` (all of them when
/// there are fewer), best first.
pub open spec fn is_top_selection(src: Seq<CandidateView>, count: nat, r: Seq<CandidateView>) -> bool {
    &&& rank_sorted(r)
    &&& r.len() == min_nat(count, src.len())
    &&& forall|i: int| 0 <= i < r.len() ==> src.contains(#[trigger] r[i])
    &&& forall|i: int, j: int|
        0 <= i < r.len() && 0 <= j < src.len() && !r.contains(src[j]) ==> ranks_before(
            #[trigger] r[i],
            #[trigger] src[j],
        )
}


pub proof fn lemma_id_position(s: Seq<CandidateView>, id: u128)
    requires
        ids_increasing(s),
    ensures
        0 <= id_position(s, id) <= s.len(),
        forall|j: int| 0 <= j < id_position(s, id) ==> #[trigger] s[j].account_id < id,
        id_position(s, id) < s.len() ==> s[id_position(s, id)].account_id >= id,
        contains_id(s, id) <==> (id_position(s, id) < s.len() && s[id_position(
            s,
            id,
        )].account_id == id),
    decreases s.len(),
{
    if s.len() > 0 && s[0].account_id < id {
        let t = s.drop_first();
        assert(ids_increasing(t)) by {
            assert forall|i: int, j: int| 0 <= i < j < t.len() implies #[trigger] t[i].account_id
                < #[trigger] t[j].account_id by {
                assert(s[i + 1].account_id < s[j + 1].account_id);
            }
        }
        lemma_id_position(t, id);
        let p = id_position(s, id);
        assert(p == 1 + id_position(t, id));
        assert forall|j: int| 0 <= j < p implies #[trigger] s[j].account_id < id by {
            if j > 0 {
                assert(s[j] == t[j - 1]);
            }
        }
        if contains_id(s, id) {
            let k = choose|k: int| 0 <= k < s.len() && #[trigger] s[k].account_id == id;
            assert(k > 0);
            assert(t[k - 1].account_id == id);
            assert(contains_id(t, id));
        }
        if contains_id(t, id) {
            let k = choose|k: int| 0 <= k < t.len() && #[trigger] t[k].account_id == id;
            assert(s[k + 1].account_id == id);
        }
    } else if s.len() > 0 {
        if contains_id(s, id) {
            let k = choose|k: int| 0 <= k < s.len() && #[trigger] s[k].account_id == id;
            if k > 0 {
                assert(s[0].account_id < s[k].account_id);
            }
        }
    }
}

/// A position found by scanning is the one `id_position` describes.
pub proof fn lemma_id_position_at(s: Seq<CandidateView>, id: u128, p: int)
    requires
        ids_increasing(s),
        0 <= p <= s.len(),
        forall|j: int| 0 <= j < p ==> #[trigger] s[j].account_id < id,
        p < s.len() ==> s[p].account_id >= id,
    ensures
        id_position(s, id) == p,
{
    lemma_id_position(s, id);
    let q = id_position(s, id);
    if q < p {
        assert(s[q].account_id < id);
    } else if p < q {
        assert(s[p].account_id < id);
    }
}

pub proof fn lemma_remove_keeps_order(s: Seq<CandidateView>, p: int)
    requires
        pool_wf(s),
        0 <= p < s.len(),
    ensures
        pool_wf(s.remove(p)),
        s.remove(p).len() == s.len() - 1,
        forall|k: int| 0 <= k < s.len() - 1 ==> #[trigger] s.remove(p)[k] == (if k < p {
            s[k]
        } else {
            s[k + 1]
        }),
{
    let r = s.remove(p);
    assert forall|k: int| 0 <= k < s.len() - 1 implies #[trigger] r[k] == (if k < p {
        s[k]
    } else {
        s[k + 1]
    }) by {}
    assert forall|i: int, j: int| 0 <= i < j < r.len() implies #[trigger] r[i].account_id
        < #[trigger] r[j].account_id by {
        let i0 = if i < p {
            i
        } else {
            i + 1
        };
        let j0 = if j < p {
            j
        } else {
            j + 1
        };
        assert(r[i] == s[i0]);
        assert(r[j] == s[j0]);
        assert(s[i0].account_id < s[j0].account_id);
    }
    assert forall|i: int| 0 <= i < r.len() implies is_top_tier(#[trigger] r[i].tier) by {
        let i0 = if i < p {
            i
        } else {
            i + 1
        };
        assert(r[i] == s[i0]);
    }
}

pub proof fn lemma_upsert(s: Seq<CandidateView>, c: CandidateView)
    requires
        pool_wf(s),
        is_top_tier(c.tier),
    ensures
        pool_wf(upsert(s, c)),
        upsert(s, c).len() == if contains_id(s, c.account_id) {
            s.len()
        } else {
            s.len() + 1
        },
        upsert(s, c)[id_position(s, c.account_id)] == c,
        0 <= id_position(s, c.account_id) < upsert(s, c).len(),
        upsert(s, c).contains(c),
        forall|k: int|
            0 <= k < upsert(s, c).len() ==> #[trigger] upsert(s, c)[k] == c || s.contains(
                upsert(s, c)[k],
            ),
        forall|k: int|
            0 <= k < s.len() && s[k].account_id != c.account_id ==> upsert(s, c).contains(
                #[trigger] s[k],
            ),
{
    lemma_id_position(s, c.account_id);
    let p = id_position(s, c.account_id);
    let u = upsert(s, c);
    if p < s.len() && s[p].account_id == c.account_id {
        assert(u == s.update(p, c));
        assert forall|i: int, j: int| 0 <= i < j < u.len() implies #[trigger] u[i].account_id
            < #[trigger] u[j].account_id by {
            assert(s[i].account_id < s[j].account_id);
        }
        assert forall|k: int| 0 <= k < u.len() implies #[trigger] u[k] == c || s.contains(
            u[k],
        ) by {
            if k != p {
                assert(u[k] == s[k]);
            }
        }
        assert forall|k: int| 0 <= k < s.len() && s[k].account_id != c.account_id implies u.contains(
            #[trigger] s[k],
        ) by {
            assert(u[k] == s[k]);
        }
    } else {
        assert(u == s.insert(p, c));
        s.insert_ensures(p, c);
        assert forall|i: int, j: int| 0 <= i < j < u.len() implies #[trigger] u[i].account_id
            < #[trigger] u[j].account_id by {
            if j < p {
                assert(s[i].account_id < s[j].account_id);
            } else if j == p {
                assert(s[i].account_id < c.account_id);
            } else if i < p {
                assert(u[j] == s[j - 1]);
                assert(s[i].account_id < c.account_id);
                assert(s[j - 1].account_id >= c.account_id);
                assert(s[j - 1].account_id != c.account_id || j - 1 == p);
                if j - 1 > p {
                    assert(s[p].account_id < s[j - 1].account_id);
                }
            } else if i == p {
                assert(u[j] == s[j - 1]);
                if j - 1 > p {
                    assert(s[p].account_id < s[j - 1].account_id);
                }
            } else {
                assert(u[i] == s[i - 1]);
                assert(u[j] == s[j - 1]);
                assert(s[i - 1].account_id < s[j - 1].account_id);
            }
        }
        assert forall|k: int| 0 <= k < u.len() implies #[trigger] u[k] == c || s.contains(
            u[k],
        ) by {
            if k < p {
                assert(u[k] == s[k]);
            } else if k > p {
                assert(u[k] == s[k - 1]);
            }
        }
        assert forall|k: int| 0 <= k < s.len() && s[k].account_id != c.account_id implies u.contains(
            #[trigger] s[k],
        ) by {
            if k < p {
                assert(u[k] == s[k]);
            } else {
                assert(u[k + 1] == s[k]);
            }
        }
    }
    assert(u[p] == c);
    assert forall|i: int| 0 <= i < u.len() implies is_top_tier(#[trigger] u[i].tier) by {
        if u[i] != c {
            let k = choose|k: int| 0 <= k < s.len() && s[k] == u[i];
            assert(is_top_tier(s[k].tier));
        }
    }
}

/// The first lowest-scoring entry scores no more than any entry, and less
/// than every entry before it.
pub proof fn lemma_lowest_score_index(s: Seq<CandidateView>)
    requires
        s.len() > 0,
    ensures
        0 <= lowest_score_index(s) < s.len(),
        forall|j: int| 0 <= j < s.len() ==> score_of(s[lowest_score_index(s)]) <= score_of(#[trigger] s[j]),
        forall|j: int| 0 <= j < lowest_score_index(s) ==> score_of(s[lowest_score_index(s)]) < score_of(#[trigger] s[j]),
    decreases s.len(),
{
    if s.len() > 1 {
        let t = s.drop_last();
        lemma_lowest_score_index(t);
        let k = lowest_score_index(t);
        assert(t[k] == s[k]);
        assert forall|j: int| 0 <= j < s.len() - 1 implies #[trigger] s[j] == t[j] by {}
    }
}

pub proof fn lemma_without_lowest(s: Seq<CandidateView>)
    requires
        pool_wf(s),
    ensures
        pool_wf(without_lowest(s)),
        without_lowest(s).len() == if s.len() == 0 {
            0
        } else {
            s.len() - 1
        },
        forall|k: int|
            0 <= k < without_lowest(s).len() ==> s.contains(#[trigger] without_lowest(s)[k]),
{
    if s.len() > 0 {
        lemma_lowest_score_index(s);
        let p = lowest_score_index(s);
        lemma_remove_keeps_order(s, p);
        let r = without_lowest(s);
        assert forall|k: int| 0 <= k < r.len() implies s.contains(#[trigger] r[k]) by {
            if k < p {
                assert(r[k] == s[k]);
            } else {
                assert(r[k] == s[k + 1]);
            }
        }
    }
}


pub proof fn lemma_added(s: Seq<CandidateView>, max: nat, c: CandidateView)
    requires
        pool_wf(s),
    ensures
        pool_wf(added(s, max, c)),
        is_top_tier(c.tier) && max > 0 ==> added(s, max, c).contains(c),
        s.len() <= max ==> added(s, max, c).len() <= max,
        forall|k: int|
            0 <= k < added(s, max, c).len() ==> #[trigger] added(s, max, c)[k] == c || s.contains(
                added(s, max, c)[k],
            ),
{
    if is_top_tier(c.tier) && max > 0 {
        let t = if s.len() >= max {
            without_lowest(s)
        } else {
            s
        };
        lemma_without_lowest(s);
        lemma_upsert(t, c);
        let a = added(s, max, c);
        assert(a == upsert(t, c));
        assert forall|k: int| 0 <= k < a.len() implies #[trigger] a[k] == c || s.contains(a[k]) by {
            if a[k] != c {
                assert(t.contains(a[k]));
                let j = choose|j: int| 0 <= j < t.len() && t[j] == a[k];
                if s.len() >= max {
                    assert(s.contains(t[j]));
                }
            }
        }
    }
}


/// In contents ordered by id, an entry other than `c` has another id than `c`.
pub proof fn lemma_other_ids(s: Seq<CandidateView>, c: CandidateView)
    requires
        ids_increasing(s),
        s.contains(c),
    ensures
        forall|k: int| 0 <= k < s.len() && s[k] != c ==> #[trigger] s[k].account_id != c.account_id,
{
    let q = choose|q: int| 0 <= q < s.len() && s[q] == c;
    assert forall|k: int| 0 <= k < s.len() && s[k] != c implies #[trigger] s[k].account_id != c.account_id by {
        if k < q {
            assert(s[k].account_id < s[q].account_id);
        } else if k > q {
            assert(s[q].account_id < s[k].account_id);
        }
    }
}

/// The eligible entries of well-formed contents are well-formed, come from
/// the contents, and include every eligible entry.
pub proof fn lemma_eligible_entries(s: Seq<CandidateView>)
    requires
        pool_wf(s),
    ensures
        pool_wf(eligible_entries(s)),
        eligible_entries(s).len() <= s.len(),
        forall|k: int|
            0 <= k < eligible_entries(s).len() ==> is_eligible(#[trigger] eligible_entries(s)[k])
                && s.contains(eligible_entries(s)[k]),
        forall|k: int| 0 <= k < s.len() && is_eligible(#[trigger] s[k]) ==> eligible_entries(s).contains(s[k]),
    decreases s.len(),
{
    reveal(Seq::filter);
    if s.len() > 0 {
        let t = s.drop_last();
        assert(pool_wf(t)) by {
            assert forall|i: int, j: int| 0 <= i < j < t.len() implies #[trigger] t[i].account_id
                < #[trigger] t[j].account_id by {
                assert(s[i].account_id < s[j].account_id);
            }
            assert forall|i: int| 0 <= i < t.len() implies is_top_tier(#[trigger] t[i].tier) by {
                assert(s[i] == t[i]);
            }
        }
        lemma_eligible_entries(t);
        let et = eligible_entries(t);
        let e = eligible_entries(s);
        assert forall|k: int| 0 <= k < et.len() implies #[trigger] et[k].account_id < s.last().account_id by {
            let j = choose|j: int| 0 <= j < t.len() && t[j] == et[k];
            assert(s[j] == t[j]);
            assert(s[j].account_id < s[s.len() - 1].account_id);
        }
        if is_eligible(s.last()) {
            assert(e == et.push(s.last()));
        } else {
            assert(e == et);
        }
        assert forall|k: int| 0 <= k < e.len() implies is_eligible(#[trigger] e[k]) && s.contains(e[k]) by {
            if k < et.len() {
                assert(e[k] == et[k]);
                let j = choose|j: int| 0 <= j < t.len() && t[j] == et[k];
                assert(s[j] == t[j]);
            } else {
                assert(e[k] == s[s.len() - 1]);
            }
        }
        assert forall|k: int| 0 <= k < s.len() && is_eligible(#[trigger] s[k]) implies e.contains(s[k]) by {
            if k < s.len() - 1 {
                assert(s[k] == t[k]);
                assert(et.contains(t[k]));
                let j = choose|j: int| 0 <= j < et.len() && et[j] == t[k];
                assert(e[j] == et[j]);
            } else {
                assert(e[e.len() - 1] == s[k]);
            }
        }
        assert forall|i: int, j: int| 0 <= i < j < e.len() implies #[trigger] e[i].account_id
            < #[trigger] e[j].account_id by {
            if j < et.len() {
                assert(e[i] == et[i]);
                assert(e[j] == et[j]);
            } else {
                assert(e[i] == et[i]);
            }
        }
    }
}

/// Every prefix of a sequence of candidates that can be added without
/// overflow can be added without overflow.
pub proof fn lemma_added_all_scores_fit_prefix(cands: Seq<CandidateView>, max: nat, k: int)
    requires
        added_all_scores_fit(cands, max),
        0 <= k <= cands.len(),
    ensures
        added_all_scores_fit(cands.take(k), max),
    decreases cands.len(),
{
    if k == cands.len() {
        assert(cands.take(k) =~= cands);
    } else {
        assert(cands.drop_last().take(k) =~= cands.take(k));
        lemma_added_all_scores_fit_prefix(cands.drop_last(), max, k);
    }
}


/// Inserting an entry where it ranks keeps a rank-sorted sequence sorted.
pub proof fn lemma_rank_insert(rv: Seq<CandidateView>, c: CandidateView, k: int)
    requires
        rank_sorted(rv),
        0 <= k <= rv.len(),
        forall|q: int| 0 <= q < k ==> ranks_before(#[trigger] rv[q], c),
        k < rv.len() ==> ranks_before(c, rv[k]),
    ensures
        rank_sorted(rv.insert(k, c)),
{
    let r = rv.insert(k, c);
    rv.insert_ensures(k, c);
    assert forall|i: int, j: int| 0 <= i < j < r.len() implies ranks_before(#[trigger] r[i], #[trigger] r[j]) by {
        if j < k {
            assert(ranks_before(rv[i], rv[j]));
        } else if j == k {
            assert(ranks_before(rv[i], c));
        } else if i < k {
            assert(r[j] == rv[j - 1]);
            assert(ranks_before(rv[i], c));
            assert(ranks_before(c, rv[k]));
            if j - 1 > k {
                assert(ranks_before(rv[k], rv[j - 1]));
            }
        } else if i == k {
            assert(r[j] == rv[j - 1]);
            if j - 1 > k {
                assert(ranks_before(rv[k], rv[j - 1]));
            }
        } else {
            assert(r[i] == rv[i - 1]);
            assert(r[j] == rv[j - 1]);
            assert(ranks_before(rv[i - 1], rv[j - 1]));
        }
    }
}

/// The first `count` entries of a rank-sorted arrangement of all of `e` are
/// the top selection of `e`.
pub proof fn lemma_top_prefix(e: Seq<CandidateView>, rv: Seq<CandidateView>, count: nat)
    requires
        rank_sorted(rv),
        rv.len() == e.len(),
        forall|k: int| 0 <= k < rv.len() ==> e.contains(#[trigger] rv[k]),
        forall|j: int| 0 <= j < e.len() ==> rv.contains(#[trigger] e[j]),
    ensures
        is_top_selection(e, count, rv.take(min_nat(count, e.len()) as int)),
{
    let m = min_nat(count, e.len()) as int;
    let r = rv.take(m);
    assert forall|i: int, j: int| 0 <= i < r.len() && 0 <= j < e.len() && !r.contains(e[j]) implies ranks_before(
        #[trigger] r[i],
        #[trigger] e[j],
    ) by {
        assert(rv.contains(e[j]));
        let q = choose|q: int| 0 <= q < rv.len() && rv[q] == e[j];
        if q < m {
            assert(r[q] == rv[q]);
        }
        assert(r[i] == rv[i]);
    }
    assert forall|i: int, j: int| 0 <= i < j < r.len() implies ranks_before(#[trigger] r[i], #[trigger] r[j]) by {
        assert(r[i] == rv[i]);
        assert(r[j] == rv[j]);
    }
    assert forall|i: int| 0 <= i < r.len() implies e.contains(#[trigger] r[i]) by {
        assert(r[i] == rv[i]);
    }
}


/// Rank of a tier name: Ace 4, King 3, Queen 2, Jack 1, anything else 0.
pub open spec fn tier_order_of(tier: Seq<char>) -> int {
    if tier == "Ace"@ {
        4
    } else if tier == "King"@ {
        3
    } else if tier == "Queen"@ {
        2
    } else if tier == "Jack"@ {
        1
    } else {
        0
    }
}

/// `a` performs better than `b`: a higher score; on equal scores a higher
/// tier; on equal tiers more matrix cycles.
pub open spec fn performs_better(a: CandidateView, b: CandidateView) -> bool {
    ||| score_of(a) > score_of(b)
    ||| score_of(a) == score_of(b) && tier_order_of(a.tier) > tier_order_of(b.tier)
    ||| score_of(a) == score_of(b) && tier_order_of(a.tier) == tier_order_of(b.tier)
        && a.cycle_count > b.cycle_count
}

/// Index of the first entry that no entry performs better than.
pub open spec fn best_performer_index(s: Seq<CandidateView>) -> int
    decreases s.len(),
{
    if s.len() <= 1 {
        0
    } else {
        let k = best_performer_index(s.drop_last());
        if performs_better(s.last(), s[k]) {
            s.len() - 1
        } else {
            k
        }
    }
}

/// No entry performs better than the best performer, and it performs
/// better than every entry before it.
pub proof fn lemma_best_performer_index(s: Seq<CandidateView>)
    requires
        s.len() > 0,
    ensures
        0 <= best_performer_index(s) < s.len(),
        forall|j: int|
            0 <= j < s.len() ==> !performs_better(#[trigger] s[j], s[best_performer_index(s)]),
        forall|j: int|
            0 <= j < best_performer_index(s) ==> performs_better(
                s[best_performer_index(s)],
                #[trigger] s[j],
            ),
    decreases s.len(),
{
    if s.len() > 1 {
        let t = s.drop_last();
        lemma_best_performer_index(t);
        let k = best_performer_index(t);
        assert(t[k] == s[k]);
        assert forall|j: int| 0 <= j < s.len() - 1 implies #[trigger] s[j] == t[j] by {}
    }
}

} // verus!
