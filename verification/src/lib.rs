//! Directory-scoped rc-file auto-loading.
//!
//! As an interactive shell moves through a filesystem tree, this library
//! decides on every prompt whether to load the nearest rc file, stay put,
//! warn, or unwind one shell layer.  It consists of:
//!
//! - a permission store with sliding expiration ([`store`]),
//! - the line-oriented codec for the persisted store file ([`codec`]),
//! - the directory-scope containment test and rc-file locator ([`scope`]),
//! - the ambient session record and one-shot hand-off channel ([`session`]),
//! - the reconciler state machine producing one hook action per prompt
//!   ([`reconcile`]).
//!
//! All decisions are pure functions of plain values; reading the clock, the
//! environment and the disk is left to the surrounding program.

use vstd::prelude::*;

pub mod codec;
pub mod reconcile;
pub mod scope;
pub mod session;
pub mod store;

verus! {

/// Default sliding-expiry window for a grant, in seconds (24 hours).
pub const DEFAULT_ALLOW_DURATION: u64 = 60 * 60 * 24;

} // verus!
