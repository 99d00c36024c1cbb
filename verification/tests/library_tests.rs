use sponsor_allocator::events::{FlushlineGraduated, MatrixCycled};
use sponsor_allocator::storage::{AccountRecord, MemberRecord, ServiceState};
use sponsor_allocator::strategy::{stored_strategy, tier_to_order, StoredStrategy};
use sponsor_allocator::{
    AllocationStrategy, PerformanceBasedStrategy, RoundRobinStrategy, SponsorAllocationError,
    SponsorCandidate, SponsorEvent, SponsorPool, SponsorService,
};

fn king(id: u128, cycles: u32) -> SponsorCandidate {
    SponsorCandidate::new(id, "King".to_string(), cycles)
}

fn ids(candidates: &[SponsorCandidate]) -> Vec<u128> {
    candidates.iter().map(|c| c.account_id).collect()
}

#[test]
fn score_formula_exact_values() {
    let mut c = king(1, 7);
    c.sponsored_count = 3;
    assert_eq!(c.sponsor_score(), 1001);
    let ace = SponsorCandidate::new(2, "Ace".to_string(), 40);
    assert_eq!(ace.sponsor_score(), 40);
    let mut busy = king(3, 0);
    busy.sponsored_count = 500;
    assert_eq!(busy.sponsor_score(), 0);
}

#[test]
fn only_the_exact_king_tier_is_a_top_performer() {
    assert!(king(1, 0).is_top_performer());
    assert!(!SponsorCandidate::new(1, "king".to_string(), 0).is_top_performer());
    assert!(!SponsorCandidate::new(1, "King ".to_string(), 0).is_top_performer());
    assert!(!SponsorCandidate::new(1, "Ace".to_string(), 0).is_top_performer());
    assert!(!SponsorCandidate::new(1, String::new(), 0).is_top_performer());
    let mut nine = king(1, 0);
    nine.sponsored_count = 9;
    assert!(nine.is_eligible_for_sponsorship());
}

#[test]
fn tier_order_values() {
    assert_eq!(tier_to_order("Ace"), 4);
    assert_eq!(tier_to_order("King"), 3);
    assert_eq!(tier_to_order("Queen"), 2);
    assert_eq!(tier_to_order("Jack"), 1);
    assert_eq!(tier_to_order("Ten"), 0);
    assert_eq!(tier_to_order("Joker"), 0);
}

#[test]
fn adding_outside_the_top_tier_is_refused() {
    let mut pool = SponsorPool::new(3);
    let r = pool.add_sponsor(SponsorCandidate::new(7, "Ace".to_string(), 9));
    assert_eq!(r, Err(SponsorAllocationError::AccountNotEligible { account_id: 7 }));
    assert_eq!(pool.pool_stats().total_sponsors, 0);
}

#[test]
fn added_candidate_is_removed_unchanged() {
    let mut pool = SponsorPool::new(4);
    pool.add_sponsor(king(10, 3)).unwrap();
    let mut c = king(20, 5);
    c.sponsored_count = 2;
    pool.add_sponsor(c.clone()).unwrap();
    let removed = pool.remove_sponsor(20).unwrap();
    assert_eq!(removed, c);
    assert_eq!(
        pool.remove_sponsor(20),
        Err(SponsorAllocationError::SponsorNotFound { sponsor_id: 20 })
    );
    assert_eq!(ids(&pool.all_sponsors()), vec![10]);
}

#[test]
fn members_are_kept_in_ascending_id_order_and_replaced_by_id() {
    let mut pool = SponsorPool::new(5);
    pool.add_sponsor(king(30, 1)).unwrap();
    pool.add_sponsor(king(10, 2)).unwrap();
    pool.add_sponsor(king(20, 3)).unwrap();
    pool.add_sponsor(king(10, 9)).unwrap();
    let all = pool.all_sponsors();
    assert_eq!(ids(&all), vec![10, 20, 30]);
    assert_eq!(all[0].cycle_count, 9);
}

#[test]
fn full_pool_evicts_first_lowest_score_even_for_a_present_id() {
    let mut pool = SponsorPool::new(2);
    pool.add_sponsor(king(1, 5)).unwrap();
    pool.add_sponsor(king(2, 5)).unwrap();
    // Both score 1005; the first in pool order (id 1) is evicted.
    pool.add_sponsor(king(3, 0)).unwrap();
    assert_eq!(ids(&pool.all_sponsors()), vec![2, 3]);
    // Re-adding a member of a full pool still evicts the lowest first (id 3).
    pool.add_sponsor(king(2, 6)).unwrap();
    assert_eq!(ids(&pool.all_sponsors()), vec![2]);
}

#[test]
fn pool_of_size_zero_accepts_kings_but_stores_none() {
    let mut pool = SponsorPool::new(0);
    assert_eq!(pool.add_sponsor(king(1, 0)), Ok(()));
    assert_eq!(
        pool.add_sponsor(SponsorCandidate::new(2, "Ace".to_string(), 0)),
        Err(SponsorAllocationError::AccountNotEligible { account_id: 2 })
    );
    assert!(pool.all_sponsors().is_empty());
    assert_eq!(pool.pool_stats().total_sponsors, 0);
    assert!(SponsorPool::from_candidates(vec![king(3, 0)], 0)
        .all_sponsors()
        .is_empty());
}

#[test]
fn update_sponsor_keeps_the_result_under_its_key() {
    let mut pool = SponsorPool::new(3);
    pool.add_sponsor(king(1, 0)).unwrap();
    pool.add_sponsor(king(5, 0)).unwrap();
    pool.update_sponsor(1, |mut c| {
        c.account_id = 9;
        c.cycle_count = 4;
        c
    })
    .unwrap();
    let all = pool.all_sponsors();
    assert_eq!(ids(&all), vec![1, 5]);
    assert_eq!(all[0].cycle_count, 4);
}

#[test]
fn sponsor_reaching_ten_leaves_the_pool() {
    let mut pool = SponsorPool::new(3);
    let mut c = king(1, 0);
    c.sponsored_count = 8;
    pool.add_sponsor(c).unwrap();
    pool.record_sponsorship(1).unwrap();
    assert_eq!(pool.all_sponsors()[0].sponsored_count, 9);
    pool.record_sponsorship(1).unwrap();
    assert_eq!(pool.pool_stats().total_sponsors, 0);
    assert_eq!(
        pool.record_sponsorship(1),
        Err(SponsorAllocationError::SponsorNotFound { sponsor_id: 1 })
    );
}

#[test]
fn ended_sponsorship_decrements_without_going_below_zero() {
    let mut pool = SponsorPool::new(3);
    let mut c = king(1, 0);
    c.sponsored_count = 2;
    pool.add_sponsor(c).unwrap();
    pool.add_sponsor(king(2, 0)).unwrap();
    pool.record_sponsorship_ended(1).unwrap();
    pool.record_sponsorship_ended(2).unwrap();
    let all = pool.all_sponsors();
    assert_eq!(all[0].sponsored_count, 1);
    assert_eq!(all[1].sponsored_count, 0);
    // A member added at or above the limit stays ineligible and leaves.
    let mut busy = king(3, 0);
    busy.sponsored_count = 12;
    pool.add_sponsor(busy).unwrap();
    pool.record_sponsorship_ended(3).unwrap();
    assert_eq!(ids(&pool.all_sponsors()), vec![1, 2]);
    assert_eq!(
        pool.record_sponsorship_ended(9),
        Err(SponsorAllocationError::SponsorNotFound { sponsor_id: 9 })
    );
}

#[test]
fn update_sponsor_applies_the_function_and_drops_ineligible() {
    let mut pool = SponsorPool::new(3);
    pool.add_sponsor(king(1, 0)).unwrap();
    pool.add_sponsor(king(2, 0)).unwrap();
    pool.update_sponsor(1, |mut c| {
        c.cycle_count = 42;
        c
    })
    .unwrap();
    pool.update_sponsor(2, |mut c| {
        c.tier = "Ace".to_string();
        c
    })
    .unwrap();
    let all = pool.all_sponsors();
    assert_eq!(ids(&all), vec![1]);
    assert_eq!(all[0].cycle_count, 42);
    assert_eq!(
        pool.update_sponsor(5, |c| c),
        Err(SponsorAllocationError::SponsorNotFound { sponsor_id: 5 })
    );
}

#[test]
fn eligible_sponsors_skip_members_at_capacity() {
    let mut pool = SponsorPool::new(5);
    let mut full = king(1, 0);
    full.sponsored_count = 10;
    pool.add_sponsor(full).unwrap();
    pool.add_sponsor(king(2, 0)).unwrap();
    assert_eq!(ids(&pool.get_eligible_sponsors()), vec![2]);
    let stats = pool.pool_stats();
    assert_eq!(stats.total_sponsors, 2);
    assert_eq!(stats.eligible_sponsors, 1);
    assert_eq!(stats.ace_sponsors, 0);
    assert_eq!(stats.king_sponsors, 2);
    assert_eq!(stats.max_pool_size, 5);
}

#[test]
fn top_sponsors_ranked_by_score_then_pool_order() {
    let mut pool = SponsorPool::new(10);
    pool.add_sponsor(king(1, 5)).unwrap();
    pool.add_sponsor(king(2, 20)).unwrap();
    pool.add_sponsor(king(3, 5)).unwrap();
    let mut busy = king(4, 30);
    busy.sponsored_count = 9; // 1012
    pool.add_sponsor(busy).unwrap();
    assert_eq!(ids(&pool.get_top_sponsors(2)), vec![2, 4]);
    assert_eq!(ids(&pool.get_top_sponsors(10)), vec![2, 4, 1, 3]);
    assert!(pool.get_top_sponsors(0).is_empty());
}

#[test]
fn refresh_keeps_best_top_performers_up_to_size() {
    let mut pool = SponsorPool::new(2);
    pool.add_sponsor(king(99, 0)).unwrap();
    pool.refresh_pool(vec![
        king(1, 10),
        SponsorCandidate::new(2, "Queen".to_string(), 50),
        king(3, 30),
        king(4, 20),
        king(1, 40),
    ]);
    let all = pool.all_sponsors();
    assert_eq!(ids(&all), vec![1, 3]);
    assert_eq!(all[0].cycle_count, 40);
}

#[test]
fn from_candidates_adds_top_performers_in_turn() {
    let pool = SponsorPool::from_candidates(
        vec![
            king(5, 1),
            SponsorCandidate::new(6, "Ten".to_string(), 3),
            king(7, 9),
            king(8, 4),
        ],
        2,
    );
    // Adding 8 to the full pool {5, 7} evicts 5, the lowest score.
    assert_eq!(ids(&pool.all_sponsors()), vec![7, 8]);
}

#[test]
fn round_robin_cycles_through_pool_order() {
    let mut pool = SponsorPool::new(5);
    for id in [30, 10, 20] {
        pool.add_sponsor(king(id, 0)).unwrap();
    }
    let mut rr = RoundRobinStrategy::new();
    let picks: Vec<u128> = (0..6)
        .map(|_| rr.allocate_sponsor(&pool, 0).unwrap())
        .collect();
    assert_eq!(picks, vec![10, 20, 30, 10, 20, 30]);
    assert_eq!(rr.last_allocated_index(), Some(0));
    rr.set_last_allocated_index(4);
    assert_eq!(rr.allocate_sponsor(&pool, 0), Ok(20));
    assert_eq!(rr.last_allocated_index(), Some(2));
    assert_eq!(rr.strategy_name(), "round_robin");
}

#[test]
fn strategies_report_no_sponsors_on_an_empty_pool() {
    let pool = SponsorPool::new(3);
    let mut rr = RoundRobinStrategy::new();
    let mut perf = PerformanceBasedStrategy::new();
    assert_eq!(
        rr.allocate_sponsor(&pool, 1),
        Err(SponsorAllocationError::NoSponsorsAvailable)
    );
    assert_eq!(
        perf.allocate_sponsor(&pool, 1),
        Err(SponsorAllocationError::NoSponsorsAvailable)
    );
    assert_eq!(perf.last_allocated_index(), None);
    assert_eq!(perf.strategy_name(), "performance_based");
}

#[test]
fn performance_strategy_prefers_score_then_cycles() {
    let mut pool = SponsorPool::new(5);
    let mut tired = king(1, 10);
    tired.sponsored_count = 9; // 992
    pool.add_sponsor(tired).unwrap();
    pool.add_sponsor(king(2, 5)).unwrap(); // 1005
    let mut perf = PerformanceBasedStrategy::new();
    assert_eq!(perf.allocate_sponsor(&pool, 0), Ok(2));

    let mut tie = SponsorPool::new(5);
    tie.add_sponsor(king(1, 10)).unwrap(); // 1010
    let mut more = king(2, 12);
    more.sponsored_count = 1; // 1010, more cycles
    tie.add_sponsor(more).unwrap();
    tie.add_sponsor(king(3, 10)).unwrap(); // 1010
    assert_eq!(perf.allocate_sponsor(&tie, 0), Ok(2));
}

#[test]
fn service_allocation_records_the_sponsorship_until_capacity() {
    let mut service = SponsorService::new(Box::new(PerformanceBasedStrategy::new()), 2);
    let mut c = king(4, 5);
    c.sponsored_count = 9;
    let events = service.add_sponsor(c).unwrap();
    assert_eq!(
        events,
        vec![SponsorEvent::SponsorAdded {
            sponsor_id: 4,
            tier: "King".to_string(),
            cycle_count: 5
        }]
    );
    let (id, events) = service.allocate_sponsor(77).unwrap();
    assert_eq!(id, 4);
    assert_eq!(
        events,
        vec![SponsorEvent::SponsorAllocated {
            sponsor_id: 4,
            sponsored_account_id: 77,
            allocation_strategy: "performance_based".to_string()
        }]
    );
    assert_eq!(service.get_pool_stats().total_sponsors, 0);
    assert_eq!(
        service.allocate_sponsor(78),
        Err(SponsorAllocationError::NoSponsorsAvailable)
    );
}

#[test]
fn service_apply_allocation_hands_on_refusals() {
    let mut service = SponsorService::new(Box::new(RoundRobinStrategy::new()), 2);
    assert_eq!(
        service.apply_allocation(1, Err(SponsorAllocationError::InvalidStrategyConfiguration)),
        Err(SponsorAllocationError::InvalidStrategyConfiguration)
    );
    assert_eq!(
        service.apply_allocation(1, Ok(5)),
        Err(SponsorAllocationError::SponsorNotFound { sponsor_id: 5 })
    );
    service.add_sponsor(king(5, 0)).unwrap();
    let (id, events) = service.apply_allocation(1, Ok(5)).unwrap();
    assert_eq!(id, 5);
    assert_eq!(events.len(), 1);
    assert_eq!(service.get_top_sponsors(1)[0].sponsored_count, 1);
}

#[test]
fn graduation_removes_a_member_and_never_adds() {
    let mut service = SponsorService::new(Box::new(RoundRobinStrategy::new()), 3);
    service.update_account_tier(8, "King".to_string());
    assert_eq!(service.get_pool_stats().total_sponsors, 1);
    let events = service.handle_flushline_graduated(&FlushlineGraduated { account_id: 8 });
    assert_eq!(
        events,
        vec![SponsorEvent::SponsorRemoved {
            sponsor_id: 8,
            reason: "No longer eligible".to_string()
        }]
    );
    assert_eq!(service.get_pool_stats().total_sponsors, 0);
    let events = service.handle_flushline_graduated(&FlushlineGraduated { account_id: 8 });
    assert!(events.is_empty());
}

#[test]
fn matrix_cycles_of_an_unknown_account_add_nothing() {
    let mut service = SponsorService::new(Box::new(RoundRobinStrategy::new()), 3);
    let events = service.handle_matrix_cycled(&MatrixCycled {
        account_id: 3,
        matrix_id: 11,
    });
    assert!(events.is_empty());
    service.handle_matrix_cycled(&MatrixCycled {
        account_id: 3,
        matrix_id: 12,
    });
    let events = service.update_account_tier(3, "King".to_string());
    assert_eq!(
        events,
        vec![SponsorEvent::SponsorAdded {
            sponsor_id: 3,
            tier: "King".to_string(),
            cycle_count: 2
        }]
    );
}

#[test]
fn service_add_and_remove_report_events_and_errors() {
    let mut service = SponsorService::new(Box::new(RoundRobinStrategy::new()), 3);
    assert_eq!(
        service.add_sponsor(SponsorCandidate::new(1, "Jack".to_string(), 2)),
        Err(SponsorAllocationError::AccountNotEligible { account_id: 1 })
    );
    assert_eq!(
        service.remove_sponsor(1, "gone".to_string()),
        Err(SponsorAllocationError::SponsorNotFound { sponsor_id: 1 })
    );
    service.add_sponsor(king(1, 2)).unwrap();
    assert_eq!(
        service.remove_sponsor(1, "gone".to_string()).unwrap(),
        vec![SponsorEvent::SponsorRemoved {
            sponsor_id: 1,
            reason: "gone".to_string()
        }]
    );
    assert!(service.record_sponsorship(1).is_err());
}

#[test]
fn refresh_reports_new_and_removed_counts() {
    let mut service = SponsorService::new(Box::new(RoundRobinStrategy::new()), 2);
    for id in 1..=2 {
        service.add_sponsor(king(id, 0)).unwrap();
    }
    let events = service.refresh_sponsor_pool(vec![king(9, 1)]);
    assert_eq!(
        events,
        vec![SponsorEvent::SponsorPoolRefreshed {
            new_sponsor_count: 1,
            removed_sponsor_count: 1
        }]
    );
    let events = service.refresh_sponsor_pool(vec![king(9, 1), king(8, 2), king(7, 3)]);
    assert_eq!(
        events,
        vec![SponsorEvent::SponsorPoolRefreshed {
            new_sponsor_count: 2,
            removed_sponsor_count: 0
        }]
    );
    assert_eq!(ids(&service.get_eligible_sponsors()), vec![7, 8]);
}

#[test]
fn saved_service_restores_to_the_same_pool() {
    let mut service = SponsorService::new(Box::new(RoundRobinStrategy::new()), 3);
    service.handle_flushline_graduated(&FlushlineGraduated { account_id: 50 });
    service.handle_matrix_cycled(&MatrixCycled {
        account_id: 60,
        matrix_id: 1,
    });
    service.add_sponsor(king(1, 4)).unwrap();
    service.add_sponsor(king(2, 0)).unwrap();
    service.refresh_sponsor_pool(vec![king(1, 4), king(2, 0), king(3, 7)]);
    let (first, _) = service.allocate_sponsor(100).unwrap();

    let (accounts, members) = service.saved_records();
    let mut known: Vec<u128> = accounts.iter().map(|a| a.account_id).collect();
    known.sort();
    assert_eq!(known, vec![1, 1, 2, 2, 3, 50, 60]);
    let ace = accounts.iter().find(|a| a.account_id == 50).unwrap();
    assert_eq!((ace.tier.as_str(), ace.cycle_count), ("Ace", 0));
    let cycled = accounts.iter().find(|a| a.account_id == 60).unwrap();
    assert_eq!((cycled.tier.as_str(), cycled.cycle_count), ("Ten", 1));

    let state = service.saved_state();
    assert_eq!(state.active_strategy, "round_robin");
    assert_eq!(state.last_allocated_index, 1);
    assert_eq!(state.max_pool_size, 3);
    let strategy: Box<dyn AllocationStrategy> =
        match stored_strategy(&state.active_strategy, state.last_allocated_index) {
            StoredStrategy::PerformanceBased => Box::new(PerformanceBasedStrategy::new()),
            StoredStrategy::RoundRobin {
                last_allocated_index,
            } => {
                let mut rr = RoundRobinStrategy::new();
                rr.set_last_allocated_index(last_allocated_index);
                Box::new(rr)
            }
        };
    let mut restored =
        SponsorService::restore(strategy, state.max_pool_size, accounts, members).unwrap();
    assert_eq!(restored.get_pool_stats(), service.get_pool_stats());
    assert_eq!(
        restored.sponsor_pool().all_sponsors(),
        service.sponsor_pool().all_sponsors()
    );
    let (second, _) = restored.allocate_sponsor(101).unwrap();
    assert_ne!(first, second);
}

#[test]
fn restore_refuses_a_member_outside_the_top_tier() {
    let accounts = vec![AccountRecord {
        account_id: 5,
        tier: "Queen".to_string(),
        cycle_count: 1,
    }];
    let members = vec![
        MemberRecord {
            account_id: 6,
            sponsored_count: 0,
        },
        MemberRecord {
            account_id: 5,
            sponsored_count: 0,
        },
    ];
    let r = SponsorService::restore(Box::new(RoundRobinStrategy::new()), 4, accounts, members);
    assert_eq!(
        r.err(),
        Some(SponsorAllocationError::AccountNotEligible { account_id: 5 })
    );
}

#[test]
fn restore_defaults_member_statistics() {
    let members = vec![MemberRecord {
        account_id: 6,
        sponsored_count: 3,
    }];
    let restored =
        SponsorService::restore(Box::new(RoundRobinStrategy::new()), 4, Vec::new(), members)
            .unwrap();
    let all = restored.sponsor_pool().all_sponsors();
    assert_eq!(all.len(), 1);
    assert_eq!(all[0].tier, "King");
    assert_eq!(all[0].cycle_count, 0);
    assert_eq!(all[0].sponsored_count, 3);
}

#[test]
fn stored_strategy_names() {
    assert_eq!(
        stored_strategy("performance_based", 3),
        StoredStrategy::PerformanceBased
    );
    assert_eq!(
        stored_strategy("round_robin", 3),
        StoredStrategy::RoundRobin {
            last_allocated_index: 3
        }
    );
    assert_eq!(
        stored_strategy("anything", 1),
        StoredStrategy::RoundRobin {
            last_allocated_index: 1
        }
    );
    let state = ServiceState::default();
    assert_eq!(state.active_strategy, "round_robin");
    assert_eq!(state.last_allocated_index, 0);
    assert_eq!(state.max_pool_size, 10);
}

#[test]
fn matrix_cycle_keeps_the_sponsored_count() {
    let mut service = SponsorService::new(Box::new(RoundRobinStrategy::new()), 5);
    service.update_account_tier(1, "King".to_string());
    let (id, _) = service.allocate_sponsor(2).unwrap();
    assert_eq!(id, 1);
    service.handle_matrix_cycled(&MatrixCycled {
        account_id: 1,
        matrix_id: 3,
    });
    assert_eq!(
        service.get_eligible_sponsors(),
        vec![SponsorCandidate {
            account_id: 1,
            tier: "King".to_string(),
            cycle_count: 1,
            sponsored_count: 1
        }]
    );
}

#[test]
fn sponsor_at_capacity_does_not_come_back_with_a_fresh_count() {
    let mut service = SponsorService::new(Box::new(RoundRobinStrategy::new()), 5);
    service.update_account_tier(1, "King".to_string());
    for account in 100..110 {
        let (id, _) = service.allocate_sponsor(account).unwrap();
        assert_eq!(id, 1);
    }
    assert_eq!(service.get_pool_stats().total_sponsors, 0);
    assert_eq!(
        service.update_account_tier(1, "King".to_string()),
        vec![SponsorEvent::SponsorAdded {
            sponsor_id: 1,
            tier: "King".to_string(),
            cycle_count: 0
        }]
    );
    service.handle_matrix_cycled(&MatrixCycled {
        account_id: 1,
        matrix_id: 7,
    });
    let all = service.sponsor_pool().all_sponsors();
    assert_eq!(ids(&all), vec![1]);
    assert_eq!(all[0].sponsored_count, 10);
    assert_eq!(all[0].cycle_count, 1);
    assert_eq!(service.get_pool_stats().eligible_sponsors, 0);
    assert_eq!(
        service.allocate_sponsor(110),
        Err(SponsorAllocationError::NoSponsorsAvailable)
    );
}

#[test]
fn service_pool_of_size_zero_reports_kings_but_stores_none() {
    let mut service = SponsorService::new(Box::new(RoundRobinStrategy::new()), 0);
    assert_eq!(
        service.add_sponsor(king(1, 4)),
        Ok(vec![SponsorEvent::SponsorAdded {
            sponsor_id: 1,
            tier: "King".to_string(),
            cycle_count: 4
        }])
    );
    assert_eq!(
        service.update_account_tier(2, "King".to_string()),
        vec![SponsorEvent::SponsorAdded {
            sponsor_id: 2,
            tier: "King".to_string(),
            cycle_count: 0
        }]
    );
    assert_eq!(service.get_pool_stats().total_sponsors, 0);
}

#[test]
fn re_evaluating_a_member_of_a_full_pool_evicts_the_lowest_scorer() {
    let mut service = SponsorService::new(Box::new(RoundRobinStrategy::new()), 2);
    service.add_sponsor(king(1, 10)).unwrap();
    service.add_sponsor(king(2, 0)).unwrap();
    let events = service.handle_matrix_cycled(&MatrixCycled {
        account_id: 1,
        matrix_id: 5,
    });
    assert_eq!(
        events,
        vec![SponsorEvent::SponsorAdded {
            sponsor_id: 1,
            tier: "King".to_string(),
            cycle_count: 11
        }]
    );
    assert_eq!(ids(&service.sponsor_pool().all_sponsors()), vec![1]);
}

#[test]
fn restore_refuses_more_members_than_the_pool_size() {
    let members = vec![
        MemberRecord {
            account_id: 1,
            sponsored_count: 0,
        },
        MemberRecord {
            account_id: 2,
            sponsored_count: 0,
        },
    ];
    let r = SponsorService::restore(Box::new(RoundRobinStrategy::new()), 1, Vec::new(), members);
    assert_eq!(r.err(), Some(SponsorAllocationError::PoolCapacityExceeded));
}

#[test]
fn restored_counts_keep_a_sponsor_at_its_limit() {
    let members = vec![MemberRecord {
        account_id: 6,
        sponsored_count: 9,
    }];
    let mut restored =
        SponsorService::restore(Box::new(RoundRobinStrategy::new()), 4, Vec::new(), members)
            .unwrap();
    assert_eq!(restored.allocate_sponsor(1).unwrap().0, 6);
    assert_eq!(restored.get_pool_stats().total_sponsors, 0);
    restored.update_account_tier(6, "King".to_string());
    assert_eq!(restored.get_pool_stats().eligible_sponsors, 0);
    assert_eq!(
        restored.allocate_sponsor(2),
        Err(SponsorAllocationError::NoSponsorsAvailable)
    );
}

#[test]
fn round_robin_run_picks_each_sponsor_once_then_repeats() {
    let mut pool = SponsorPool::new(5);
    for id in [4, 8, 2] {
        pool.add_sponsor(king(id, 0)).unwrap();
    }
    let mut rr = RoundRobinStrategy::new();
    rr.set_last_allocated_index(4);
    let picks: Vec<u128> = (0..4).map(|n| rr.allocate_sponsor(&pool, n).unwrap()).collect();
    assert_eq!(picks, vec![4, 8, 2, 4]);
    assert_eq!(rr.last_allocated_index(), Some(2));
}

#[test]
fn service_rotation_state_follows_each_allocation() {
    let mut service = SponsorService::new(Box::new(RoundRobinStrategy::new()), 4);
    for id in [3, 1, 2] {
        service.add_sponsor(king(id, 0)).unwrap();
    }
    assert_eq!(service.allocate_sponsor(10).unwrap().0, 1);
    assert_eq!(service.last_allocated_index(), Some(1));
    assert_eq!(service.allocate_sponsor(11).unwrap().0, 2);
    assert_eq!(service.saved_state().last_allocated_index, 2);
    let mut perf = SponsorService::new(Box::new(PerformanceBasedStrategy::new()), 4);
    perf.add_sponsor(king(3, 0)).unwrap();
    perf.allocate_sponsor(12).unwrap();
    let state = perf.saved_state();
    assert_eq!(state.active_strategy, "performance_based");
    assert_eq!(state.last_allocated_index, 0);
    assert_eq!(state.max_pool_size, 4);
}

#[test]
fn refreshed_members_carry_their_given_counts() {
    let mut service = SponsorService::new(Box::new(RoundRobinStrategy::new()), 3);
    let mut c = king(5, 0);
    c.sponsored_count = 9;
    service.refresh_sponsor_pool(vec![c]);
    assert_eq!(service.allocate_sponsor(1).unwrap().0, 5);
    assert_eq!(service.get_pool_stats().total_sponsors, 0);
    service.update_account_tier(5, "King".to_string());
    assert_eq!(service.sponsor_pool().all_sponsors()[0].sponsored_count, 10);
    assert_eq!(
        service.allocate_sponsor(2),
        Err(SponsorAllocationError::NoSponsorsAvailable)
    );
}
