//! Verified core of a tick database built around the DTF file format:
//! the update model, the DTF codec, the folder scanner and the merge engine.
//!
//! Everything here works on plain values. Reading and writing files is left
//! to the caller, who hands file contents in as bytes and gets bytes back.

pub mod dtf;
pub mod endian;
pub mod error;
pub mod files;
pub mod merge;
pub mod merge_facts;
pub mod order;
pub mod plugins;
pub mod scan;
pub mod scan_facts;
pub mod split;
pub mod text;
pub mod update;
