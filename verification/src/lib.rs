//! Group store for a personal profile manager.
//!
//! A group bundles package names, configuration files and scripts.  Its
//! declaration lives in a single text record partitioned into three labelled
//! sections.  This crate holds the record codec, the entry validators and the
//! planning side of install / remove / sync, all as pure functions over the
//! record text; reading and writing the actual files is left to the caller.

use vstd::prelude::*;

pub mod mutate;
pub mod query;
pub mod record;
pub mod sync;
pub mod template;
pub mod text;
pub mod validate;

verus! {

/// A record groups its entries under one of three labelled sections.
#[derive(Clone, Copy, PartialEq, Eq, Structural, Debug)]
pub enum Section {
    Packages,
    Configs,
    Scripts,
}

} // verus!
