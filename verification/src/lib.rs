//! Schema diff and resolution engine.
//!
//! The engine reconciles structural descriptions of data sources that evolve
//! independently. Each source is converted (by ingestion collaborators outside
//! this crate) into a canonical intermediate representation ([`ir::SchemaIR`]).
//! The engine then:
//!
//! - compares two snapshots into a structured diff with a similarity score
//!   ([`compare::compare`]),
//! - proposes a plan of reconciliation actions ([`resolve::propose`]),
//! - applies a plan against a mutable store under safety controls
//!   ([`apply::apply`]), and
//! - validates a snapshot ([`validate::validate`]).
//!
//! Comparison, resolution and validation are pure; only `apply` mutates state.

pub mod apply;
pub mod compare;
pub mod errors;
pub mod ir;
pub mod resolve;
pub mod validate;

pub use errors::AuddNativeError;
