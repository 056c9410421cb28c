//! A package-manager core: version requirements, dependency resolution,
//! cache and integrity validation, layout planning and the lockfile codec,
//! all with verified contracts. I/O lives outside this crate.
pub mod bytes;
pub mod version;
pub mod range;
pub mod hash;
pub mod cache;
pub mod integrity;
pub mod package;
pub mod resolver;
pub mod json;
pub mod lockfile;
pub mod platform;
pub mod layout;
pub mod manifest;
pub mod metadata;
pub mod laws;

use vstd::prelude::*;

verus! {

} // verus!
