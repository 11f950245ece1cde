use envrc::store::check_allow;
use envrc::store::grant;
use envrc::store::lookup;
use envrc::store::prune;
use envrc::store::renew_if_present;
use envrc::store::revoke;
use envrc::store::AllowError;
use envrc::store::GrantEntry;
use envrc::store::PruneReason;
use envrc::store::Verdict;

fn p(s: &str) -> Vec<u8> {
    s.as_bytes().to_vec()
}

fn empty() -> Vec<GrantEntry> {
    Vec::new()
}

#[test]
fn lookup_on_empty_store_is_denied() {
    assert_eq!(lookup(&empty(), &p("/w/.envrc"), 0, 10), Verdict::Denied);
}

#[test]
fn grant_then_lookup_is_allowed_before_expiry() {
    let s = grant(&empty(), &p("/w/.envrc"), 100);
    assert_eq!(lookup(&s, &p("/w/.envrc"), 100, 10), Verdict::Allowed);
    assert_eq!(lookup(&s, &p("/w/.envrc"), 109, 10), Verdict::Allowed);
}

#[test]
fn grant_then_lookup_is_expired_from_the_deadline_on() {
    let s = grant(&empty(), &p("/w/.envrc"), 100);
    assert_eq!(lookup(&s, &p("/w/.envrc"), 110, 10), Verdict::Expired);
    assert_eq!(lookup(&s, &p("/w/.envrc"), 500, 10), Verdict::Expired);
}

#[test]
fn grant_is_an_upsert() {
    let s = grant(&empty(), &p("/w/.envrc"), 0);
    let s = grant(&s, &p("/w/.envrc"), 50);
    assert_eq!(s.len(), 1);
    assert_eq!(s[0].granted_at, 50);
    assert_eq!(lookup(&s, &p("/w/.envrc"), 55, 10), Verdict::Allowed);
}

#[test]
fn revoke_removes_the_entry() {
    let s = grant(&empty(), &p("/w/.envrc"), 0);
    let s = revoke(&s, &p("/w/.envrc"));
    assert!(s.is_empty());
    assert_eq!(lookup(&s, &p("/w/.envrc"), 1, 10), Verdict::Denied);
}

#[test]
fn revoke_of_absent_entry_changes_nothing() {
    let s = grant(&empty(), &p("/a/.envrc"), 7);
    let s2 = revoke(&s, &p("/b/.envrc"));
    assert_eq!(s2.len(), 1);
    assert_eq!(s2[0].rc_path, p("/a/.envrc"));
    assert_eq!(s2[0].granted_at, 7);
}

#[test]
fn renew_extends_an_existing_grant() {
    let s = grant(&empty(), &p("/w/.envrc"), 0);
    let s = renew_if_present(&s, &p("/w/.envrc"), 16);
    assert_eq!(lookup(&s, &p("/w/.envrc"), 25, 10), Verdict::Allowed);
    assert_eq!(lookup(&s, &p("/w/.envrc"), 26, 10), Verdict::Expired);
}

#[test]
fn renew_never_creates_an_entry() {
    let s = renew_if_present(&empty(), &p("/w/.envrc"), 5);
    assert!(s.is_empty());
}

#[test]
fn renew_leaves_other_entries_alone() {
    let s = grant(&empty(), &p("/a/.envrc"), 3);
    let s = renew_if_present(&s, &p("/b/.envrc"), 9);
    assert_eq!(s.len(), 1);
    assert_eq!(s[0].rc_path, p("/a/.envrc"));
    assert_eq!(s[0].granted_at, 3);
}

#[test]
fn check_allow_without_rc_is_fine() {
    assert_eq!(check_allow(&empty(), None, 0, 10), None);
}

#[test]
fn check_allow_names_denied() {
    let rc = p("/w/.envrc");
    assert_eq!(check_allow(&empty(), Some(&rc), 0, 10), Some(AllowError::AllowDenied));
}

#[test]
fn check_allow_names_expired() {
    let rc = p("/w/.envrc");
    let s = grant(&empty(), &rc, 0);
    assert_eq!(check_allow(&s, Some(&rc), 10, 10), Some(AllowError::AllowExpired));
    assert_eq!(check_allow(&s, Some(&rc), 9, 10), None);
}

#[test]
fn prune_drops_expired_and_missing_and_keeps_the_valid() {
    let s = grant(&empty(), &p("/a/.envrc"), 0);
    let s = grant(&s, &p("/b/.envrc"), 95);
    let s = grant(&s, &p("/c/.envrc"), 95);
    // at t=100 with duration 10: a is expired; b's file is gone; c is valid
    let existing = vec![p("/a/.envrc"), p("/c/.envrc")];
    let (kept, removed) = prune(&s, 100, 10, &existing);
    assert_eq!(kept.len(), 1);
    assert_eq!(kept[0].rc_path, p("/c/.envrc"));
    assert_eq!(kept[0].granted_at, 95);
    assert_eq!(removed.len(), 2);
    assert_eq!(removed[0].rc_path, p("/a/.envrc"));
    assert_eq!(removed[0].reason, PruneReason::Expired);
    assert_eq!(removed[1].rc_path, p("/b/.envrc"));
    assert_eq!(removed[1].reason, PruneReason::Missing);
}

#[test]
fn prune_prefers_the_expired_reason() {
    // an entry both expired and missing reports as expired
    let s = grant(&empty(), &p("/a/.envrc"), 0);
    let existing: Vec<Vec<u8>> = Vec::new();
    let (kept, removed) = prune(&s, 100, 10, &existing);
    assert!(kept.is_empty());
    assert_eq!(removed.len(), 1);
    assert_eq!(removed[0].reason, PruneReason::Expired);
}

#[test]
fn prune_twice_removes_nothing_more() {
    let s = grant(&empty(), &p("/a/.envrc"), 0);
    let s = grant(&s, &p("/c/.envrc"), 95);
    let existing = vec![p("/a/.envrc"), p("/c/.envrc")];
    let (kept, removed) = prune(&s, 100, 10, &existing);
    assert_eq!(removed.len(), 1);
    let (kept2, removed2) = prune(&kept, 100, 10, &existing);
    assert!(removed2.is_empty());
    assert_eq!(kept2.len(), kept.len());
    assert_eq!(kept2[0].rc_path, kept[0].rc_path);
    assert_eq!(kept2[0].granted_at, kept[0].granted_at);
}

#[test]
fn prune_of_empty_store_reports_nothing() {
    let existing: Vec<Vec<u8>> = Vec::new();
    let (kept, removed) = prune(&empty(), 100, 10, &existing);
    assert!(kept.is_empty());
    assert!(removed.is_empty());
}
