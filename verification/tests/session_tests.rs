use envrc::session::is_same_shell_generation;
use envrc::session::sanitized;
use envrc::session::timestamp;
use envrc::session::Handoff;
use envrc::session::Session;
use envrc::session::Warned;
use envrc::store::Verdict;

fn p(s: &str) -> Vec<u8> {
    s.as_bytes().to_vec()
}

#[test]
fn no_parent_marker_counts_as_same_generation() {
    assert!(is_same_shell_generation(None, 42));
}

#[test]
fn matching_parent_marker_is_same_generation() {
    assert!(is_same_shell_generation(Some(42), 42));
}

#[test]
fn stale_parent_marker_is_another_generation() {
    assert!(!is_same_shell_generation(Some(41), 42));
}

#[test]
fn sanitize_keeps_a_live_session() {
    let s = Session {
        loaded_rc: Some(p("/w/.envrc")),
        warned: Some(Warned { rc_path: p("/x/.envrc"), verdict: Verdict::Denied }),
    };
    let r = sanitized(s, true);
    assert_eq!(r.loaded_rc, Some(p("/w/.envrc")));
    assert!(r.warned.is_some());
}

#[test]
fn sanitize_clears_a_stale_session() {
    let s = Session {
        loaded_rc: Some(p("/w/.envrc")),
        warned: Some(Warned { rc_path: p("/x/.envrc"), verdict: Verdict::Expired }),
    };
    let r = sanitized(s, false);
    assert!(r.loaded_rc.is_none());
    assert!(r.warned.is_none());
}

#[test]
fn handoff_carries_one_fragment_once() {
    let mut h = Handoff::new();
    h.write_handoff(p("cd '/w'"));
    let (h, got) = h.take();
    assert_eq!(got, Some(p("cd '/w'")));
    assert!(matches!(h, Handoff::Consumed));
}

#[test]
fn handoff_read_without_write_is_empty() {
    let h = Handoff::new();
    let (h, got) = h.take();
    assert_eq!(got, None);
    assert!(matches!(h, Handoff::Consumed));
}

#[test]
fn clock_reads_after_the_epoch() {
    assert!(timestamp() > 1_600_000_000);
}
