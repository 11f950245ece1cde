use envrc::reconcile::hook;
use envrc::reconcile::shell_to_parent;
use envrc::reconcile::HookAction;
use envrc::session::Session;
use envrc::store::grant;
use envrc::store::lookup;
use envrc::store::GrantEntry;
use envrc::store::Verdict;

fn p(s: &str) -> Vec<u8> {
    s.as_bytes().to_vec()
}

fn empty_store() -> Vec<GrantEntry> {
    Vec::new()
}

fn idle_session() -> Session {
    Session { loaded_rc: None, warned: None }
}

#[test]
fn nothing_loaded_nothing_found_is_idle() {
    let out = hook(&idle_session(), &p("/w"), &None, empty_store(), 0, 10);
    assert!(matches!(out.action, HookAction::Idle));
    assert!(!out.emit_warning);
    assert!(out.store.is_empty());
}

#[test]
fn allowed_rc_is_entered() {
    // grant /w/.envrc at t=0, duration 10; hook at t=5 from /w/x
    let store = grant(&empty_store(), &p("/w/.envrc"), 0);
    let found = Some(p("/w/.envrc"));
    let out = hook(&idle_session(), &p("/w/x"), &found, store, 5, 10);
    match out.action {
        HookAction::EnterScope { rc_path } => assert_eq!(rc_path, p("/w/.envrc")),
        _ => panic!("expected EnterScope"),
    }
}

#[test]
fn loaded_layer_stays_loaded_without_rechecking_expiry() {
    // same layer at t=15: the grant from t=0 has run out, but the located
    // rc equals the loaded one, so the layer continues
    let store = grant(&empty_store(), &p("/w/.envrc"), 0);
    let session = Session { loaded_rc: Some(p("/w/.envrc")), warned: None };
    let found = Some(p("/w/.envrc"));
    let out = hook(&session, &p("/w/x"), &found, store, 15, 10);
    assert!(matches!(out.action, HookAction::EnsureLoadedOnce));
    assert!(!out.emit_warning);
}

#[test]
fn leaving_the_scope_unwinds_and_renews() {
    // t=16 from /other: out of scope; unwind, renewing the grant to t=16
    let store = grant(&empty_store(), &p("/w/.envrc"), 0);
    let session = Session { loaded_rc: Some(p("/w/.envrc")), warned: None };
    let out = hook(&session, &p("/other"), &None, store, 16, 10);
    assert!(matches!(out.action, HookAction::UnwindToParent));
    assert_eq!(lookup(&out.store, &p("/w/.envrc"), 25, 10), Verdict::Allowed);
    assert_eq!(lookup(&out.store, &p("/w/.envrc"), 26, 10), Verdict::Expired);
}

#[test]
fn unwind_renewal_skips_an_ungranted_rc() {
    let session = Session { loaded_rc: Some(p("/w/.envrc")), warned: None };
    let out = hook(&session, &p("/other"), &None, empty_store(), 16, 10);
    assert!(matches!(out.action, HookAction::UnwindToParent));
    assert!(out.store.is_empty());
}

#[test]
fn ungranted_rc_warns_denied_once_then_suppresses() {
    let found = Some(p("/w/.envrc"));
    let out = hook(&idle_session(), &p("/w"), &found, empty_store(), 0, 10);
    match &out.action {
        HookAction::WarnNotAllowed { rc_path, verdict } => {
            assert_eq!(*rc_path, p("/w/.envrc"));
            assert_eq!(*verdict, Verdict::Denied);
        }
        _ => panic!("expected WarnNotAllowed"),
    }
    assert!(out.emit_warning);
    // identical repeat: still a warning action, but not shown again
    let session = Session { loaded_rc: None, warned: out.warned };
    let out2 = hook(&session, &p("/w"), &found, out.store, 1, 10);
    assert!(matches!(out2.action, HookAction::WarnNotAllowed { .. }));
    assert!(!out2.emit_warning);
}

#[test]
fn a_changed_verdict_warns_again() {
    // first warned of Denied; after a stale grant the verdict turns
    // Expired, which is shown again
    let found = Some(p("/w/.envrc"));
    let out = hook(&idle_session(), &p("/w"), &found, empty_store(), 20, 10);
    assert!(out.emit_warning);
    let store = grant(&empty_store(), &p("/w/.envrc"), 0);
    let session = Session { loaded_rc: None, warned: out.warned };
    let out2 = hook(&session, &p("/w"), &found, store, 20, 10);
    match &out2.action {
        HookAction::WarnNotAllowed { verdict, .. } => assert_eq!(*verdict, Verdict::Expired),
        _ => panic!("expected WarnNotAllowed"),
    }
    assert!(out2.emit_warning);
}

#[test]
fn another_loaded_scope_unwinds_first() {
    // /w/.envrc is loaded, but /w/x has its own allowed rc: unwind one
    // layer rather than jumping sideways
    let store = grant(&empty_store(), &p("/w/x/.envrc"), 0);
    let session = Session { loaded_rc: Some(p("/w/.envrc")), warned: None };
    let found = Some(p("/w/x/.envrc"));
    let out = hook(&session, &p("/w/x"), &found, store, 5, 10);
    assert!(matches!(out.action, HookAction::UnwindToParent));
}

#[test]
fn repeated_hooks_are_stable() {
    // an idle state stays idle; a settled layer stays settled
    let out = hook(&idle_session(), &p("/w"), &None, empty_store(), 0, 10);
    assert!(matches!(out.action, HookAction::Idle));
    let session = Session { loaded_rc: None, warned: out.warned };
    let out2 = hook(&session, &p("/w"), &None, out.store, 1, 10);
    assert!(matches!(out2.action, HookAction::Idle));

    let store = grant(&empty_store(), &p("/w/.envrc"), 0);
    let session = Session { loaded_rc: Some(p("/w/.envrc")), warned: None };
    let found = Some(p("/w/.envrc"));
    let out3 = hook(&session, &p("/w"), &found, store, 1, 10);
    assert!(matches!(out3.action, HookAction::EnsureLoadedOnce));
    let session = Session { loaded_rc: Some(p("/w/.envrc")), warned: out3.warned };
    let out4 = hook(&session, &p("/w"), &found, out3.store, 2, 10);
    assert!(matches!(out4.action, HookAction::EnsureLoadedOnce));
}

#[test]
fn entering_then_rechecking_settles() {
    // after EnterScope the spawned layer sees the same directory and rc,
    // and settles to EnsureLoadedOnce instead of entering again
    let store = grant(&empty_store(), &p("/w/.envrc"), 0);
    let found = Some(p("/w/.envrc"));
    let out = hook(&idle_session(), &p("/w/x"), &found, store, 5, 10);
    let rc = match out.action {
        HookAction::EnterScope { rc_path } => rc_path,
        _ => panic!("expected EnterScope"),
    };
    let child = Session { loaded_rc: Some(rc), warned: None };
    let out2 = hook(&child, &p("/w/x"), &found, out.store, 5, 10);
    assert!(matches!(out2.action, HookAction::EnsureLoadedOnce));
}

#[test]
fn settling_clears_the_warning_marker() {
    let found = Some(p("/w/.envrc"));
    let warned = hook(&idle_session(), &p("/w"), &found, empty_store(), 0, 10).warned;
    assert!(warned.is_some());
    let store = grant(&empty_store(), &p("/w/.envrc"), 30);
    let session = Session { loaded_rc: Some(p("/w/.envrc")), warned };
    let out = hook(&session, &p("/w"), &found, store, 30, 10);
    assert!(matches!(out.action, HookAction::EnsureLoadedOnce));
    assert!(out.warned.is_none());
}

#[test]
fn vanished_directory_counts_as_out_of_scope() {
    // the working directory could not be determined (deleted underneath
    // the session): the hook fails safe by unwinding, never by aborting
    let store = grant(&empty_store(), &p("/w/.envrc"), 0);
    let session = Session { loaded_rc: Some(p("/w/.envrc")), warned: None };
    let out = hook(&session, &Vec::new(), &None, store, 5, 10);
    assert!(matches!(out.action, HookAction::UnwindToParent));
}

#[test]
fn default_duration_is_a_day() {
    assert_eq!(envrc::DEFAULT_ALLOW_DURATION, 86400);
}

#[test]
fn shell_to_parent_is_the_unwind_action() {
    assert!(matches!(shell_to_parent(), HookAction::UnwindToParent));
}
