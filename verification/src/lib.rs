//! An event-sourcing runtime: the decisions an engine takes around an
//! append-only log, stated as contracts and proved.

pub mod aggregate;
pub mod aggregate_v3;
pub mod aggregator;
pub mod any_materializer;
pub mod checkpoint_store;
pub mod clock;
pub mod codec;
pub mod consumer_lease;
pub mod contexts;
pub mod decider;
pub mod decision_store;
pub mod effect_store;
pub mod emit;
pub mod engine;
pub mod engine_v3;
pub mod event;
pub mod event_id_registry;
pub mod event_log;
pub mod event_type;
pub mod fact;
pub mod failure;
pub mod fold;
pub mod fold_laws;
pub mod fold_on_read;
pub mod fold_on_read_laws;
pub mod fold_session;
pub mod folding_runner;
pub mod ids;
pub mod instants;
pub mod job_executor;
pub mod json;
pub mod keyed;
pub mod materializer;
pub mod output_envelope;
pub mod registry;
pub mod registry_laws;
pub mod restore_laws;
pub mod rollback;
pub mod settle;
pub mod snapshots;
pub mod state_table;
pub mod supervise;
pub mod text;
pub mod transitions;
pub mod types;
