//! The ambient session record and the one-shot hand-off channel.
//!
//! A session exists only while a nested shell layer is alive; its markers
//! travel in the process environment.  The hand-off channel carries a short
//! fragment from an unwinding child layer to its parent: written at most
//! once, consumed at most once.

use std::time::SystemTime;
use std::time::UNIX_EPOCH;
use vstd::prelude::*;

verus! {

use crate::store::Verdict;

/// The standing warning marker: which rc file the user was last warned
/// about, and with which verdict; an identical repeat warning is suppressed.
pub struct Warned {
    pub rc_path: Vec<u8>,
    pub verdict: Verdict,
}

impl View for Warned {
    type V = (Seq<u8>, Verdict);

    open spec fn view(&self) -> (Seq<u8>, Verdict) {
        (self.rc_path@, self.verdict)
    }
}

/// The ambient state of one shell layer.
pub struct Session {
    /// The rc file the current layer runs under, if any.
    pub loaded_rc: Option<Vec<u8>>,
    /// The standing warning marker, if any.
    pub warned: Option<Warned>,
}

/// The view of an optional owned path.
pub open spec fn opt_bytes_view(o: Option<Vec<u8>>) -> Option<Seq<u8>> {
    match o {
        Some(v) => Some(v@),
        None => None,
    }
}

/// The view of an optional warning marker.
pub open spec fn opt_warned_view(o: Option<Warned>) -> Option<(Seq<u8>, Verdict)> {
    match o {
        Some(w) => Some(w@),
        None => None,
    }
}

/// Whether the executing shell is the one that spawned this layer: true
/// when no parent marker is set, or when the marker names the live parent.
pub fn is_same_shell_generation(ambient_parent_pid: Option<u64>, current_parent_pid: u64) -> (r:
    bool)
    ensures
        r == (ambient_parent_pid is None || ambient_parent_pid == Some(current_parent_pid)),
{
    match ambient_parent_pid {
        None => true,
        Some(p) => p == current_parent_pid,
    }
}

/// Defensive restart: stale markers inherited from a dead shell generation
/// are cleared wholesale, so the hook starts over from an idle state.
pub fn sanitized(s: Session, same_generation: bool) -> (r: Session)
    ensures
        same_generation ==> opt_bytes_view(r.loaded_rc) == opt_bytes_view(s.loaded_rc)
            && opt_warned_view(r.warned) == opt_warned_view(s.warned),
        !same_generation ==> r.loaded_rc is None && r.warned is None,
{
    if same_generation {
        s
    } else {
        Session { loaded_rc: None, warned: None }
    }
}

/// The one-shot hand-off channel: a single-writer, single-reader mailbox.
pub enum Handoff {
    Empty,
    Written(Vec<u8>),
    Consumed,
}

impl Handoff {
    /// A fresh, unwritten channel.
    pub fn new() -> (h: Handoff)
        ensures
            h is Empty,
    {
        Handoff::Empty
    }

    /// Scoped, single-use write: only an unwritten channel takes a fragment.
    pub fn write_handoff(&mut self, fragment: Vec<u8>)
        requires
            *old(self) is Empty,
        ensures
            *final(self) matches Handoff::Written(f) && f@ == fragment@,
    {
        *self = Handoff::Written(fragment);
    }

    /// The one consuming read: yields the fragment when one was written,
    /// and discards the channel either way.
    pub fn take(self) -> (r: (Handoff, Option<Vec<u8>>))
        requires
            !(self is Consumed),
        ensures
            r.0 is Consumed,
            self is Empty ==> r.1 is None,
            self matches Handoff::Written(f) ==> r.1 matches Some(g) && g@ == f@,
    {
        match self {
            Handoff::Empty => (Handoff::Consumed, None),
            Handoff::Written(f) => (Handoff::Consumed, Some(f)),
            Handoff::Consumed => (Handoff::Consumed, None),
        }
    }
}

/// Seconds since the Unix epoch, read from the system clock.
///
/// Relies on std::time::SystemTime::now and duration_since: nothing is
/// assumed of the result, which depends on the clock; a clock before the
/// epoch reads as 0.
#[verifier::external_body]
pub fn timestamp() -> u64 {
    match SystemTime::now().duration_since(UNIX_EPOCH) {
        Ok(d) => d.as_secs(),
        Err(_) => 0,
    }
}

} // verus!
