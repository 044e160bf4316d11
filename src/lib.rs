//! Core of a content-addressed workflow runtime: the value model and its
//! canonical codec, content identifiers, instruction results, receipts and
//! workflow progress, the batch planner, and the decisions of the worker and
//! of the peer-to-peer event handler.

pub mod cid;
pub mod value;
pub mod codec;
pub mod instruction_result;
pub mod unit;
pub mod receipt;
pub mod workflow_info;
pub mod capsule;
pub mod store;
pub mod scheduler;
pub mod workflow;
pub mod worker;
pub mod event;
pub mod swarm_event;
pub mod show;
pub mod runner;
