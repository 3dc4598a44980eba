//! The decisions behind `closured`, an exec auditor for NixOS closures.
use vstd::prelude::*;

pub mod allowlist;
pub mod btf;
pub mod bytes;
pub mod control;
pub mod daemon;
pub mod elf;
pub mod event;
pub mod hook;
pub mod path;
pub mod policy;
pub mod report;
pub mod store;
pub mod text;

verus! {

} // verus!
