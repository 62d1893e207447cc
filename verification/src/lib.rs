pub mod analyzer;
pub mod bytecode;
pub mod engine;
pub mod graph;
pub mod ledger;
pub mod registry;
pub mod solver;
pub mod telemetry;
pub mod topology;
pub mod types;
pub mod units;
