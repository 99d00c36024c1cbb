//! What a saved service consists of: the service's settings, the statistics
//! of every known account, and the pool's members.

use crate::model::{is_top_tier, upsert, CandidateView};
use vstd::prelude::*;

verus! {

/// The service's settings: the active strategy's name, where a round-robin
/// strategy continues, and the pool's size.
#[derive(Debug, Clone, PartialEq, Eq)]
pub struct ServiceState {
    pub active_strategy: String,
    pub last_allocated_index: usize,
    pub max_pool_size: usize,
}

impl Default for ServiceState {
    /// Round-robin from the start, with a pool of ten: the settings of a
    /// service that was never saved.
    fn default() -> (s: Self)
        ensures
            s.active_strategy@ == "round_robin"@,
            s.last_allocated_index == 0,
            s.max_pool_size == 10,
    {
        ServiceState {
            active_strategy: "round_robin".to_string(),
            last_allocated_index: 0,
            max_pool_size: 10,
        }
    }
}

/// The stored statistics of one account.
#[derive(Debug, Clone, PartialEq, Eq)]
pub struct AccountRecord {
    pub account_id: u128,
    pub tier: String,
    pub cycle_count: u32,
}

/// A stored pool member; its tier and cycles are those of its account.
#[derive(Debug, Clone, Copy, PartialEq, Eq, Structural)]
pub struct MemberRecord {
    pub account_id: u128,
    pub sponsored_count: u32,
}

/// Tiers recorded by `records`, a later record of an account replacing an
/// earlier one.
pub open spec fn tiers_of_records(records: Seq<AccountRecord>) -> Map<u128, Seq<char>>
    decreases records.len(),
{
    if records.len() == 0 {
        Map::empty()
    } else {
        tiers_of_records(records.drop_last()).insert(
            records.last().account_id,
            records.last().tier@,
        )
    }
}

/// Matrix cycles recorded by `records`, a later record of an account
/// replacing an earlier one.
pub open spec fn cycles_of_records(records: Seq<AccountRecord>) -> Map<u128, u32>
    decreases records.len(),
{
    if records.len() == 0 {
        Map::empty()
    } else {
        cycles_of_records(records.drop_last()).insert(
            records.last().account_id,
            records.last().cycle_count,
        )
    }
}

/// The candidate a stored member stands for: the tier recorded for its
/// account ("King" when none is) and its cycles (zero when none are).
pub open spec fn member_candidate(
    tiers: Map<u128, Seq<char>>,
    cycles: Map<u128, u32>,
    m: MemberRecord,
) -> CandidateView {
    CandidateView {
        account_id: m.account_id,
        tier: if tiers.contains_key(m.account_id) {
            tiers[m.account_id]
        } else {
            "King"@
        },
        cycle_count: if cycles.contains_key(m.account_id) {
            cycles[m.account_id]
        } else {
            0
        },
        sponsored_count: m.sponsored_count,
    }
}

/// Pool contents restored from `members`, each stored under its id, a
/// later member replacing an earlier one.
pub open spec fn restored_members(
    tiers: Map<u128, Seq<char>>,
    cycles: Map<u128, u32>,
    members: Seq<MemberRecord>,
) -> Seq<CandidateView>
    decreases members.len(),
{
    if members.len() == 0 {
        Seq::empty()
    } else {
        upsert(
            restored_members(tiers, cycles, members.drop_last()),
            member_candidate(tiers, cycles, members.last()),
        )
    }
}

/// Every stored member stands for a top-tier candidate.
pub open spec fn members_top_tier(
    tiers: Map<u128, Seq<char>>,
    cycles: Map<u128, u32>,
    members: Seq<MemberRecord>,
) -> bool {
    forall|i: int|
        0 <= i < members.len() ==> is_top_tier(
            #[trigger] member_candidate(tiers, cycles, members[i]).tier,
        )
}


/// The maps built from records hold the values of an account's last record.
pub proof fn lemma_records_last(records: Seq<AccountRecord>, i: int)
    requires
        0 <= i < records.len(),
        forall|j: int| i < j < records.len() ==> #[trigger] records[j].account_id != records[i].account_id,
    ensures
        tiers_of_records(records).contains_key(records[i].account_id),
        tiers_of_records(records)[records[i].account_id] == records[i].tier@,
        cycles_of_records(records).contains_key(records[i].account_id),
        cycles_of_records(records)[records[i].account_id] == records[i].cycle_count,
    decreases records.len(),
{
    let n = records.len() - 1;
    if i < n {
        let t = records.drop_last();
        assert(records[n].account_id != records[i].account_id);
        assert forall|j: int| i < j < t.len() implies #[trigger] t[j].account_id != t[i].account_id by {
            assert(records[j].account_id != records[i].account_id);
        }
        lemma_records_last(t, i);
    }
}

/// The maps built from records hold no account without a record.
pub proof fn lemma_records_absent(records: Seq<AccountRecord>, id: u128)
    requires
        forall|j: int| 0 <= j < records.len() ==> #[trigger] records[j].account_id != id,
    ensures
        !tiers_of_records(records).contains_key(id),
        !cycles_of_records(records).contains_key(id),
    decreases records.len(),
{
    if records.len() > 0 {
        let t = records.drop_last();
        assert forall|j: int| 0 <= j < t.len() implies #[trigger] t[j].account_id != id by {
            assert(records[j].account_id != id);
        }
        lemma_records_absent(t, id);
    }
}

} // verus!
