//! Verified core of an execution framework and its connector helpers:
//! task identifiers, graph validation and dispatch bookkeeping, channel
//! registries, and the programmable test doubles used by connectors.

pub mod task_id;
pub mod error;
pub mod graph;
pub mod graph_run;
pub mod context;
pub mod executor;
pub mod run_loop;
pub mod pool;
pub mod connector_error;
pub mod ethercat;
pub mod zenoh_registry;
pub mod zenoh_session;
pub mod zenoh_mock;
pub mod health;
pub mod trigger;
