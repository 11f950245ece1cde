//! The reconciler: the per-prompt state machine.
//!
//! Given the session (which rc file the current layer runs under), the rc
//! file located at the working directory, and the permission store, one hook
//! step decides exactly one action, checked in this order:
//!
//! 1. the loaded rc's scope no longer contains the directory: unwind one
//!    layer, renewing the grant on the way out (sliding expiry on exit);
//! 2. the located rc is the loaded one: keep it loaded, once, and clear any
//!    standing warning (with nothing loaded and nothing found this is idle);
//! 3. the located rc is denied or expired: warn, suppressing a repeat of the
//!    identical warning;
//! 4. something else is loaded: unwind one layer and let the parent look
//!    again from its own directory;
//! 5. nothing is loaded and the located rc is allowed: enter its scope;
//! 6. otherwise: idle.
//!
//! The step is a pure function of its inputs; spawning shells, reading the
//! clock and probing the disk belong to the caller.

use vstd::prelude::*;

verus! {

use crate::scope::canon_dir;
use crate::scope::copy_bytes;
use crate::scope::bytes_eq;
use crate::scope::in_scope;
use crate::scope::lemma_located_in_scope;
use crate::scope::spec_find_envrc;
use crate::scope::spec_in_scope;
use crate::session::Session;
use crate::session::Warned;
use crate::session::opt_bytes_view;
use crate::session::opt_warned_view;
use crate::store::GrantEntry;
use crate::store::Verdict;
use crate::store::lookup;
use crate::store::renew_if_present;
use crate::store::spec_lookup;
use crate::store::spec_renew;
use crate::store::store_view;
use crate::store::store_wf;

/// What the host shell is asked to do after one hook step.
pub enum HookAction {
    /// Source the loaded rc file, exactly once per layer.
    EnsureLoadedOnce,
    /// Tell the user the located rc file may not be loaded, and why.
    WarnNotAllowed { rc_path: Vec<u8>, verdict: Verdict },
    /// Exit the current layer and hand control back to the parent shell.
    UnwindToParent,
    /// Spawn a nested shell layer running under this rc file.
    EnterScope { rc_path: Vec<u8> },
    /// Nothing to do.
    Idle,
}

/// The mathematical shape of a hook action.
pub enum ActionView {
    EnsureLoadedOnce,
    WarnNotAllowed { rc_path: Seq<u8>, verdict: Verdict },
    UnwindToParent,
    EnterScope { rc_path: Seq<u8> },
    Idle,
}

impl View for HookAction {
    type V = ActionView;

    open spec fn view(&self) -> ActionView {
        match self {
            HookAction::EnsureLoadedOnce => ActionView::EnsureLoadedOnce,
            HookAction::WarnNotAllowed { rc_path, verdict } => ActionView::WarnNotAllowed {
                rc_path: rc_path@,
                verdict: *verdict,
            },
            HookAction::UnwindToParent => ActionView::UnwindToParent,
            HookAction::EnterScope { rc_path } => ActionView::EnterScope { rc_path: rc_path@ },
            HookAction::Idle => ActionView::Idle,
        }
    }
}

/// The verdict the step judges the located rc by: with none located there
/// is nothing to forbid.
pub open spec fn spec_verdict_of(
    s: Seq<(Seq<u8>, u64)>,
    found: Option<Seq<u8>>,
    now: u64,
    duration: u64,
) -> Verdict {
    match found {
        None => Verdict::Allowed,
        Some(p) => spec_lookup(s, p, now, duration),
    }
}

/// The decision table, checked top to bottom.
pub open spec fn spec_decide(
    loaded: Option<Seq<u8>>,
    found: Option<Seq<u8>>,
    verdict: Verdict,
    cwd: Seq<u8>,
) -> ActionView {
    if loaded is Some && !spec_in_scope(loaded.unwrap(), cwd) {
        ActionView::UnwindToParent
    } else if loaded == found {
        if loaded is Some {
            ActionView::EnsureLoadedOnce
        } else {
            ActionView::Idle
        }
    } else if found is Some && verdict != Verdict::Allowed {
        ActionView::WarnNotAllowed { rc_path: found.unwrap(), verdict }
    } else if loaded is Some {
        ActionView::UnwindToParent
    } else if found is Some {
        ActionView::EnterScope { rc_path: found.unwrap() }
    } else {
        ActionView::Idle
    }
}

/// The store after one step: renewed on an out-of-scope unwind (sliding
/// expiry on exit), untouched otherwise.
pub open spec fn spec_hook_store(
    s: Seq<(Seq<u8>, u64)>,
    loaded: Option<Seq<u8>>,
    cwd: Seq<u8>,
    now: u64,
) -> Seq<(Seq<u8>, u64)> {
    if loaded is Some && !spec_in_scope(loaded.unwrap(), cwd) {
        spec_renew(s, loaded.unwrap(), now)
    } else {
        s
    }
}

/// The warning marker after one step: set by a warning, cleared once the
/// layer settles (loaded or idle), kept through an unwind or an entry.
pub open spec fn spec_hook_warned(
    prev: Option<(Seq<u8>, Verdict)>,
    action: ActionView,
) -> Option<(Seq<u8>, Verdict)> {
    match action {
        ActionView::EnsureLoadedOnce => None,
        ActionView::Idle => None,
        ActionView::WarnNotAllowed { rc_path, verdict } => Some((rc_path, verdict)),
        ActionView::UnwindToParent => prev,
        ActionView::EnterScope { rc_path } => prev,
    }
}

/// Whether the warning is actually shown: only a warning that differs from
/// the standing marker is.
pub open spec fn spec_emit_warning(prev: Option<(Seq<u8>, Verdict)>, action: ActionView) -> bool {
    match action {
        ActionView::WarnNotAllowed { rc_path, verdict } => prev != Some((rc_path, verdict)),
        _ => false,
    }
}

/// Everything one hook step decides.
pub struct HookOutcome {
    /// The one action for the host shell.
    pub action: HookAction,
    /// Whether a warning text is actually printed.
    pub emit_warning: bool,
    /// The warning marker to carry forward.
    pub warned: Option<Warned>,
    /// The store content to persist.
    pub store: Vec<GrantEntry>,
}

/// The unwind decision: the current layer hands control back to its parent.
pub fn shell_to_parent() -> (a: HookAction)
    ensures
        a@ == ActionView::UnwindToParent,
{
    HookAction::UnwindToParent
}

/// A fresh copy of the warning marker.
fn clone_warned(w: &Option<Warned>) -> (r: Option<Warned>)
    ensures
        opt_warned_view(r) == opt_warned_view(*w),
{
    match w {
        Some(x) => Some(Warned { rc_path: copy_bytes(&x.rc_path), verdict: x.verdict }),
        None => None,
    }
}

/// One hook step: the decision table applied to the session, the located rc
/// file and the store, together with its effect on the store and on the
/// warning marker.
pub fn hook(
    session: &Session,
    cwd: &Vec<u8>,
    found_rc: &Option<Vec<u8>>,
    store: Vec<GrantEntry>,
    now: u64,
    duration: u64,
) -> (out: HookOutcome)
    ensures
        out.action@ == spec_decide(
            opt_bytes_view(session.loaded_rc),
            opt_bytes_view(*found_rc),
            spec_verdict_of(store_view(store@), opt_bytes_view(*found_rc), now, duration),
            cwd@,
        ),
        store_view(out.store@) == spec_hook_store(
            store_view(store@),
            opt_bytes_view(session.loaded_rc),
            cwd@,
            now,
        ),
        opt_warned_view(out.warned) == spec_hook_warned(
            opt_warned_view(session.warned),
            out.action@,
        ),
        out.emit_warning == spec_emit_warning(opt_warned_view(session.warned), out.action@),
        store_wf(store_view(store@)) ==> store_wf(store_view(out.store@)),
{
    match &session.loaded_rc {
        Some(r) => {
            if !in_scope(r, cwd) {
                let new_store = renew_if_present(&store, r, now);
                return HookOutcome {
                    action: shell_to_parent(),
                    emit_warning: false,
                    warned: clone_warned(&session.warned),
                    store: new_store,
                };
            }
        },
        None => {},
    }
    let verdict = match found_rc {
        Some(p) => lookup(&store, p, now, duration),
        None => Verdict::Allowed,
    };
    let same = match (&session.loaded_rc, found_rc) {
        (Some(a), Some(b)) => bytes_eq(a, b),
        (None, None) => true,
        _ => false,
    };
    if same {
        let action = match &session.loaded_rc {
            Some(_) => HookAction::EnsureLoadedOnce,
            None => HookAction::Idle,
        };
        return HookOutcome { action, emit_warning: false, warned: None, store };
    }
    match found_rc {
        Some(p) => {
            if verdict != Verdict::Allowed {
                let emit = match &session.warned {
                    Some(w) => !(bytes_eq(&w.rc_path, p) && w.verdict == verdict),
                    None => true,
                };
                return HookOutcome {
                    action: HookAction::WarnNotAllowed { rc_path: copy_bytes(p), verdict },
                    emit_warning: emit,
                    warned: Some(Warned { rc_path: copy_bytes(p), verdict }),
                    store,
                };
            }
        },
        None => {},
    }
    match &session.loaded_rc {
        Some(_) => {
            return HookOutcome {
                action: shell_to_parent(),
                emit_warning: false,
                warned: clone_warned(&session.warned),
                store,
            };
        },
        None => {},
    }
    match found_rc {
        Some(p) => HookOutcome {
            action: HookAction::EnterScope { rc_path: copy_bytes(p) },
            emit_warning: false,
            warned: clone_warned(&session.warned),
            store,
        },
        None => HookOutcome {
            action: HookAction::Idle,
            emit_warning: false,
            warned: None,
            store,
        },
    }
}

/// Idle and settled layers are fixpoints: when a step decides
/// EnsureLoadedOnce or Idle, the store is untouched, and a later step with
/// the same directory and store — at any later clock — decides the same
/// action again; repeated prompts never re-enter a scope.
pub proof fn lemma_idempotent_reentry(
    loaded: Option<Seq<u8>>,
    found: Option<Seq<u8>>,
    cwd: Seq<u8>,
    s: Seq<(Seq<u8>, u64)>,
    now: u64,
    now2: u64,
    duration: u64,
)
    ensures
        ({
            let a = spec_decide(loaded, found, spec_verdict_of(s, found, now, duration), cwd);
            (a == ActionView::EnsureLoadedOnce || a == ActionView::Idle) ==> {
                &&& spec_hook_store(s, loaded, cwd, now) == s
                &&& spec_decide(loaded, found, spec_verdict_of(s, found, now2, duration), cwd)
                    == a
            }
        }),
{
}

/// A scope is entered once: when a step decides EnterScope for the rc file
/// located from the working directory, the spawned layer — which runs under
/// that rc in the same directory — settles to EnsureLoadedOnce, whatever
/// verdict a later step computes.
pub proof fn lemma_enter_once(
    loaded: Option<Seq<u8>>,
    cwd: Seq<u8>,
    s: Seq<(Seq<u8>, u64)>,
    now: u64,
    duration: u64,
    existing: Seq<Seq<u8>>,
    later_verdict: Verdict,
)
    requires
        canon_dir(cwd),
        spec_decide(
            loaded,
            spec_find_envrc(cwd, existing),
            spec_verdict_of(s, spec_find_envrc(cwd, existing), now, duration),
            cwd,
        ) matches ActionView::EnterScope { rc_path: _ },
    ensures
        spec_decide(
            spec_find_envrc(cwd, existing),
            spec_find_envrc(cwd, existing),
            later_verdict,
            cwd,
        ) == ActionView::EnsureLoadedOnce,
{
    lemma_located_in_scope(cwd, existing);
}

} // verus!
