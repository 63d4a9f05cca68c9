//! The configuration of the query planner, and the outcome of resolving the conditions of a
//! query graph edge.
use vstd::prelude::*;

verus! {

/// How the query planner plans.
#[derive(Debug)]
pub struct QueryPlannerConfig {
    /// Whether to reuse the named fragments of the planned query in subgraph fetches.
    /// Defaults to true.
    pub reuse_query_fragments: bool,
    /// Whether to run GraphQL validation against the extracted subgraph schemas.
    /// Defaults to false.
    pub subgraph_graphql_validation: bool,
    pub incremental_delivery: QueryPlanIncrementalDeliveryConfig,
    /// Settings meant for debugging or testing, without guarantee of stability.
    pub debug: QueryPlannerDebugConfig,
}

impl Default for QueryPlannerConfig {
    fn default() -> (res: Self)
        ensures
            res.reuse_query_fragments,
            !res.subgraph_graphql_validation,
            !res.incremental_delivery.enable_defer,
            !res.debug.bypass_planner_for_single_subgraph,
            res.debug.max_evaluated_plans == 10000,
            res.debug.paths_limit is None,
    {
        QueryPlannerConfig {
            reuse_query_fragments: true,
            subgraph_graphql_validation: false,
            incremental_delivery: QueryPlanIncrementalDeliveryConfig::default(),
            debug: QueryPlannerDebugConfig::default(),
        }
    }
}

/// Settings of incremental delivery.
#[derive(Debug)]
pub struct QueryPlanIncrementalDeliveryConfig {
    /// Enables `@defer` support by the query planner. Defaults to false (`@defer` is then
    /// ignored).
    pub enable_defer: bool,
}

impl Default for QueryPlanIncrementalDeliveryConfig {
    fn default() -> (res: Self)
        ensures
            !res.enable_defer,
    {
        QueryPlanIncrementalDeliveryConfig { enable_defer: false }
    }
}

/// Settings meant for debugging or testing.
#[derive(Debug)]
pub struct QueryPlannerDebugConfig {
    /// Where the supergraph is built from a single subgraph, fetch from it directly without
    /// planning.
    pub bypass_planner_for_single_subgraph: bool,
    /// The cap on the number of plans evaluated. Defaults to 10000.
    pub max_evaluated_plans: u32,
    /// A limit on the number of options considered per path of fields; `None` (the
    /// default) for no limit.
    pub paths_limit: Option<u32>,
}

impl Default for QueryPlannerDebugConfig {
    fn default() -> (res: Self)
        ensures
            !res.bypass_planner_for_single_subgraph,
            res.max_evaluated_plans == 10000,
            res.paths_limit is None,
    {
        QueryPlannerDebugConfig {
            bypass_planner_for_single_subgraph: false,
            max_evaluated_plans: 10000,
            paths_limit: None,
        }
    }
}

/// The cost of a query plan.
pub type QueryPlanCost = i64;

/// Why the conditions of an edge are not satisfied.
#[derive(Debug, Clone, Copy, PartialEq, Eq, Structural)]
pub enum UnsatisfiedConditionReason {
    NoPostRequireKey,
}

/// The outcome of resolving the conditions of an edge: whether they are satisfied, and at
/// what cost (-1 where they are not).
#[derive(Debug, Clone, Copy)]
pub struct ConditionResolution {
    pub satisfied: bool,
    pub cost: QueryPlanCost,
    pub unsatisfied_condition_reason: Option<UnsatisfiedConditionReason>,
}

impl ConditionResolution {
    /// The resolution of an edge without conditions: satisfied at no cost.
    pub fn no_conditions() -> (res: Self)
        ensures
            res.satisfied,
            res.cost == 0,
            res.unsatisfied_condition_reason is None,
    {
        ConditionResolution { satisfied: true, cost: 0, unsatisfied_condition_reason: None }
    }

    /// The resolution of conditions that cannot be satisfied.
    pub fn unsatisfied_conditions() -> (res: Self)
        ensures
            !res.satisfied,
            res.cost == -1,
            res.unsatisfied_condition_reason is None,
    {
        ConditionResolution { satisfied: false, cost: -1, unsatisfied_condition_reason: None }
    }
}

} // verus!
