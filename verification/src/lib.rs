//! The verified core of a sharded matcher's control plane.
//!
//! A cluster keeps one small document of its membership, its shard-to-node map and the physical
//! moves under way. This library holds the rules of that document and the decisions that the
//! coordinator takes on it; threads, clocks, transports and encodings are its callers'.
//!
//! - [`document`], [`control`], [`move_intent`]: the document, its transitions, and the move
//!   commands; [`wire`] is the persisted form. [`control_laws`] states what holds across them,
//!   [`document_laws`] what they do to the tables, [`move_laws`] when a command is applied.
//! - [`intent`], [`reassign`], [`rebalance`]: planning a move and taking it to its end.
//!   [`intent_laws`] states what a move records, [`plan_laws`] what is planned and decided,
//!   [`reassign_laws`] what a run asks for and in which order, [`rebalance_laws`] what a sweep
//!   reports.
//! - [`recovery`], [`recovery_laws`]: resolving the moves that a crash left behind.
//! - [`logical_id_scan`], [`logical_id_wire`], [`logical_id_stream`], [`logical_id_directory`]:
//!   enumerating the ids of a remote shard, whole or not at all; [`logical_id_laws`] states which
//!   requests, frames and rows are taken.
//! - [`write_locks`]: who may mutate which id.
//! - [`tag_summary`], [`tagbench`]: skipping segments by their tags, and measuring it.
//! - [`error`], [`error_laws`]: what can go wrong, and what its messages tell.

pub mod cancel;
pub mod control;
pub mod control_laws;
pub mod document;
pub mod document_laws;
pub mod error;
pub mod error_laws;
pub mod fnv;
pub mod intent;
pub mod intent_laws;
pub mod keyed;
pub mod logical_id_directory;
pub mod logical_id_laws;
pub mod logical_id_scan;
pub mod logical_id_stream;
pub mod logical_id_wire;
pub mod move_intent;
pub mod move_laws;
pub mod plan_laws;
pub mod reassign;
pub mod reassign_laws;
pub mod rebalance;
pub mod rebalance_laws;
pub mod recovery;
pub mod recovery_laws;
pub mod tag_summary;
pub mod tagbench;
pub mod text;
pub mod wire;
pub mod write_locks;
