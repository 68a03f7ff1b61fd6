//! The store: log, manifests, parts, and the rules that tie them together.

pub mod admission;
pub mod admission_laws;
pub mod arrival;
pub mod artifact;
pub mod audit;
pub mod audit_laws;
pub mod authority_laws;
pub mod backup;
pub mod backup_laws;
pub mod batch_apply;
pub mod beside_laws;
pub mod carry_laws;
pub mod carve;
pub mod chain;
pub mod chain_laws;
pub mod charge_laws;
pub mod checksum;
pub mod checksum_laws;
pub mod commit;
pub mod commit_laws;
pub mod compact;
pub mod container_laws;
pub mod container_store;
pub mod copy_laws;
pub mod count_laws;
pub mod crash_laws;
pub mod debris;
pub mod engine;
pub mod engine_laws;
pub mod engine_read;
pub mod erase;
pub mod erasure_laws;
pub mod extent_laws;
pub mod footprint;
pub mod footprint_laws;
pub mod frame_laws;
pub mod fresh_laws;
pub mod history_laws;
pub mod lifecycle;
pub mod listing_laws;
pub mod liveness;
pub mod log_laws;
pub mod logged_laws;
pub mod manifest;
pub mod members;
pub mod messages;
pub mod names;
pub mod namespace;
pub mod open;
pub mod operation_laws;
pub mod page_laws;
pub mod project;
pub mod promote;
pub mod promote_laws;
pub mod publish;
pub mod publish_laws;
pub mod punch;
pub mod punch_laws;
pub mod purge_laws;
pub mod read;
pub mod read_store;
pub mod record_laws;
pub mod recover;
pub mod recover_laws;
pub mod refold;
pub mod refold_laws;
pub mod refusal_laws;
pub mod replay_laws;
pub mod replayed_laws;
pub mod report_laws;
pub mod retention_laws;
pub mod roundtrip_laws;
pub mod scan;
pub mod scan_laws;
pub mod selection_laws;
pub mod settlement_laws;
pub mod sound_laws;
pub mod source;
pub mod source_counts;
pub mod source_laws;
pub mod source_plan;
pub mod source_run;
pub mod space;
pub mod staged_laws;
pub mod sum_laws;
pub mod travel_laws;
pub mod unit_laws;
pub mod verify;
pub mod wal;
pub mod whole_laws;
pub mod wire;
pub mod writer;
