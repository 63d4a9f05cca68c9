pub mod argument;
pub mod ast;
pub mod conditions;
pub mod error;
pub mod executable;
pub mod schema;
pub mod operation;
pub mod link;
pub mod federation_spec;
pub mod subgraph;
pub mod api_schema;
pub mod query_planner;
pub mod output;
pub mod satisfiability;
pub mod inaccessible;
pub mod print_order;
pub mod federation_schema;
pub mod position;
pub mod spec_definition;
pub mod core_features;
pub mod inaccessible_elements;
pub mod insertion;
pub mod federation_operations;
pub mod subgraph_extraction;
pub mod insertion_laws;
pub mod removal_laws;
pub mod inaccessible_laws;
pub mod operation_laws;
pub mod entity_laws;
pub mod default_laws;
pub mod join_arguments;
