//! Core of a bridge that stores a changeset-based, hash-addressed revision
//! history losslessly inside a git object store, and converts it back into
//! byte-identical artifacts of the original system.

use vstd::prelude::*;

pub mod authorship;
pub mod bytes;
pub mod changeset;
pub mod dag;
pub mod extra;
pub mod heads;
pub mod import;
pub mod merge;
pub mod metadata;
pub mod oid;
pub mod patch;
pub mod percent;
pub mod store;
pub mod tags;

verus! {

/// Prefix of every ref this library's metadata lives under.
pub const REFS_PREFIX: &'static str = "refs/cinnabar/";

/// Prefix of the refs recording commit replacements.
pub const REPLACE_REFS_PREFIX: &'static str = "refs/cinnabar/replace/";

/// Ref holding the current metadata commit.
pub const METADATA_REF: &'static str = "refs/cinnabar/metadata";

/// Ref marking the last metadata state that passed a full check.
pub const CHECKED_REF: &'static str = "refs/cinnabar/checked";

/// Ref recorded when the post-import consistency check failed.
pub const BROKEN_REF: &'static str = "refs/cinnabar/broken";

/// Ref of the auxiliary note mapping between the two id spaces.
pub const NOTES_REF: &'static str = "refs/notes/cinnabar";

} // verus!
