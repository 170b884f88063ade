//! Core pipeline for turning a chaptered story — ordered chapter metadata plus
//! a zip archive of per-chapter HTML fragments — into an ordered, package-ready
//! set of cleaned chapter documents with resolved image assets.
//!
//! The pipeline is: archive extraction into an id → raw-HTML map, a join of the
//! ordered chapter stubs against that map, per-chapter image resolution and a
//! two-pass markup transform (tolerant streaming rewrite, then strict
//! re-encoding), and a final reassembly in the original metadata order.

pub mod archive;
pub mod chapters;
pub mod error;
pub mod imagemap;
pub mod lang;
pub mod package;
pub mod reencode;
pub mod rewrite;
pub mod scan;
pub mod sniff;

pub use error::AppError;
