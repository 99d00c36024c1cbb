use vstd::prelude::*;

verus! {

/// An outbox event: a change of state that the service reports.
#[derive(Debug, Clone, PartialEq, Eq)]
pub enum SponsorEvent {
    /// A new sponsor has been added to the pool.
    SponsorAdded { sponsor_id: u128, tier: String, cycle_count: u32 },
    /// A sponsor has been removed from the pool.
    SponsorRemoved { sponsor_id: u128, reason: String },
    /// A sponsor has been allocated to a new account.
    SponsorAllocated { sponsor_id: u128, sponsored_account_id: u128, allocation_strategy: String },
    /// The sponsor pool has been refreshed from the current top performers.
    SponsorPoolRefreshed { new_sponsor_count: usize, removed_sponsor_count: usize },
}

/// An outbox event as plain mathematical values.
pub enum EventView {
    SponsorAdded { sponsor_id: u128, tier: Seq<char>, cycle_count: u32 },
    SponsorRemoved { sponsor_id: u128, reason: Seq<char> },
    SponsorAllocated { sponsor_id: u128, sponsored_account_id: u128, allocation_strategy: Seq<char> },
    SponsorPoolRefreshed { new_sponsor_count: usize, removed_sponsor_count: usize },
}

impl View for SponsorEvent {
    type V = EventView;

    open spec fn view(&self) -> EventView {
        match self {
            SponsorEvent::SponsorAdded { sponsor_id, tier, cycle_count } => EventView::SponsorAdded {
                sponsor_id: *sponsor_id,
                tier: tier@,
                cycle_count: *cycle_count,
            },
            SponsorEvent::SponsorRemoved { sponsor_id, reason } => EventView::SponsorRemoved {
                sponsor_id: *sponsor_id,
                reason: reason@,
            },
            SponsorEvent::SponsorAllocated {
                sponsor_id,
                sponsored_account_id,
                allocation_strategy,
            } => EventView::SponsorAllocated {
                sponsor_id: *sponsor_id,
                sponsored_account_id: *sponsored_account_id,
                allocation_strategy: allocation_strategy@,
            },
            SponsorEvent::SponsorPoolRefreshed { new_sponsor_count, removed_sponsor_count } =>
                EventView::SponsorPoolRefreshed {
                new_sponsor_count: *new_sponsor_count,
                removed_sponsor_count: *removed_sponsor_count,
            },
        }
    }
}

/// The views of a sequence of events.
pub open spec fn event_views(v: Seq<SponsorEvent>) -> Seq<EventView> {
    v.map_values(|e: SponsorEvent| e@)
}

/// Ingestion event: an account graduated from flushline.
#[derive(Debug, Clone, Copy, PartialEq, Eq, Hash, Structural)]
pub struct FlushlineGraduated {
    pub account_id: u128,
}

/// Ingestion event: a matrix of the account cycled.
#[derive(Debug, Clone, Copy, PartialEq, Eq, Hash, Structural)]
pub struct MatrixCycled {
    pub account_id: u128,
    pub matrix_id: u128,
}

} // verus!
