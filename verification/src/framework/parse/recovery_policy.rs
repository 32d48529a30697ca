//! The limits of recovery, and what recovery makes.

use vstd::prelude::*;

use crate::framework::parse::delta::TokenAnchor;

verus! {

/// What repairs cost, and how far a search for one goes.
#[derive(Debug)]
pub struct ParserRecoveryPolicy {
    pub enabled: bool,
    pub insert_costs: Vec<u16>,
    pub delete_cost: u16,
    pub error_shift_cost: u16,
    pub validation_shifts: u8,
    pub ranking_horizon: usize,
    pub max_cost: u32,
    pub max_expanded: usize,
    pub max_live: usize,
    pub max_candidates: usize,
    pub max_transition_steps: usize,
    pub max_stack_nodes: usize,
    pub max_repair_nodes: usize,
}

impl Default for ParserRecoveryPolicy {
    fn default() -> (r: Self)
        ensures
            r.enabled,
            r.insert_costs@ == seq![1u16],
            r.delete_cost == 1,
            r.error_shift_cost == 1,
            r.validation_shifts == 3,
            r.ranking_horizon == 250,
            r.max_cost == 8,
            r.max_expanded == 65_536,
            r.max_live == 32_768,
            r.max_candidates == 4_096,
            r.max_transition_steps == 1_048_576,
            r.max_stack_nodes == 262_144,
            r.max_repair_nodes == 262_144,
    {
        let mut insert_costs: Vec<u16> = Vec::new();
        insert_costs.push(1);
        assert(insert_costs@ =~= seq![1u16]);
        ParserRecoveryPolicy {
            enabled: true,
            insert_costs,
            delete_cost: 1,
            error_shift_cost: 1,
            validation_shifts: 3,
            ranking_horizon: 250,
            max_cost: 8,
            max_expanded: 65_536,
            max_live: 32_768,
            max_candidates: 4_096,
            max_transition_steps: 1_048_576,
            max_stack_nodes: 262_144,
            max_repair_nodes: 262_144,
        }
    }
}

/// The limits of the search for a region that is given up.
#[derive(Clone, Copy, Debug, PartialEq, Eq, Structural)]
pub struct RegionalFallbackPolicy {
    pub pop_cost: u16,
    pub skip_cost: u16,
    pub max_expanded: usize,
    pub max_transition_steps: usize,
    pub max_pop: usize,
    pub max_skip: usize,
}

impl Default for RegionalFallbackPolicy {
    fn default() -> (r: Self)
        ensures
            r == (RegionalFallbackPolicy {
                pop_cost: 1,
                skip_cost: 1,
                max_expanded: 16_384,
                max_transition_steps: 262_144,
                max_pop: 32,
                max_skip: 250,
            }),
    {
        RegionalFallbackPolicy {
            pop_cost: 1,
            skip_cost: 1,
            max_expanded: 16_384,
            max_transition_steps: 262_144,
            max_pop: 32,
            max_skip: 250,
        }
    }
}

/// A token that a repair put in.
#[derive(Clone, Copy, Debug, PartialEq, Eq, Structural)]
pub struct MissingToken {
    pub terminal_id: usize,
    pub anchor: TokenAnchor,
    pub repair_ordinal: u32,
}

/// A token that a repair left out.
#[derive(Clone, Copy, Debug, PartialEq, Eq, Structural)]
pub struct SkippedToken {
    pub occurrence: u64,
    pub repair_ordinal: u32,
}

/// A region that was repaired.
#[derive(Debug)]
pub struct ErrorRegion {
    pub segment_id: u64,
    pub start: TokenAnchor,
    pub end: TokenAnchor,
    pub missing: Vec<MissingToken>,
    pub skipped: Vec<SkippedToken>,
}

/// What a repair hands on to the nearest rule that takes errors.
#[derive(Debug)]
pub enum RecoveryProduct {
    Missing(MissingToken),
    Skipped(SkippedToken),
    Error(ErrorRegion),
}

} // verus!
