//! A billing-mediation pipeline emulator: a declarative playbook describes a
//! directed flow of processing stages; records pass through an execution tree
//! built from the playbook, fanning out along named output routes.

pub mod dispatch;
pub mod execution;
pub mod ingestion;
pub mod json;
pub mod opts;
pub mod playbook;
pub mod text;
pub mod tree;
