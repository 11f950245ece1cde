use envrc::codec::parse_line;
use envrc::codec::parse_store;
use envrc::codec::parse_u64;
use envrc::codec::render_line;
use envrc::codec::render_store;
use envrc::codec::render_u64;
use envrc::store::GrantEntry;

fn b(s: &str) -> Vec<u8> {
    s.as_bytes().to_vec()
}

#[test]
fn render_u64_writes_decimal() {
    assert_eq!(render_u64(0), b("0"));
    assert_eq!(render_u64(7), b("7"));
    assert_eq!(render_u64(1234567890), b("1234567890"));
    assert_eq!(render_u64(u64::MAX), b("18446744073709551615"));
}

#[test]
fn parse_u64_reads_decimal() {
    assert_eq!(parse_u64(&b("0")), 0);
    assert_eq!(parse_u64(&b("42")), 42);
    assert_eq!(parse_u64(&b("18446744073709551615")), u64::MAX);
}

#[test]
fn parse_u64_tolerates_junk_as_zero() {
    assert_eq!(parse_u64(&b("")), 0);
    assert_eq!(parse_u64(&b("12x")), 0);
    assert_eq!(parse_u64(&b("-3")), 0);
    assert_eq!(parse_u64(&b("18446744073709551616")), 0);
    assert_eq!(parse_u64(&b("99999999999999999999999")), 0);
}

#[test]
fn parse_line_reads_path_and_timestamp() {
    let e = parse_line(&b("/w/.envrc 1700000000"));
    assert_eq!(e.rc_path, b("/w/.envrc"));
    assert_eq!(e.granted_at, 1700000000);
}

#[test]
fn parse_line_defaults_a_missing_timestamp_to_zero() {
    let e = parse_line(&b("/w/.envrc"));
    assert_eq!(e.rc_path, b("/w/.envrc"));
    assert_eq!(e.granted_at, 0);
}

#[test]
fn parse_line_defaults_a_malformed_timestamp_to_zero() {
    let e = parse_line(&b("/w/.envrc soon"));
    assert_eq!(e.rc_path, b("/w/.envrc"));
    assert_eq!(e.granted_at, 0);
}

#[test]
fn parse_line_takes_the_first_token_as_the_path() {
    let e = parse_line(&b("/w/.envrc 5 trailing words"));
    assert_eq!(e.rc_path, b("/w/.envrc"));
    assert_eq!(e.granted_at, 5);
}

#[test]
fn parse_line_of_empty_line_is_an_empty_entry() {
    let e = parse_line(&b(""));
    assert_eq!(e.rc_path, b(""));
    assert_eq!(e.granted_at, 0);
}

#[test]
fn render_line_is_path_space_seconds_newline() {
    let e = GrantEntry { rc_path: b("/w/.envrc"), granted_at: 42 };
    assert_eq!(render_line(&e), b("/w/.envrc 42\n"));
}

#[test]
fn parse_store_reads_lines_in_order() {
    let s = parse_store(&b("/a/.envrc 1\n/b/.envrc 2\n"));
    assert_eq!(s.len(), 2);
    assert_eq!(s[0].rc_path, b("/a/.envrc"));
    assert_eq!(s[0].granted_at, 1);
    assert_eq!(s[1].rc_path, b("/b/.envrc"));
    assert_eq!(s[1].granted_at, 2);
}

#[test]
fn parse_store_accepts_a_missing_final_newline() {
    let s = parse_store(&b("/a/.envrc 1\n/b/.envrc 2"));
    assert_eq!(s.len(), 2);
    assert_eq!(s[1].rc_path, b("/b/.envrc"));
    assert_eq!(s[1].granted_at, 2);
}

#[test]
fn parse_store_of_empty_input_is_empty() {
    assert!(parse_store(&b("")).is_empty());
}

#[test]
fn parse_store_keeps_a_blank_middle_line_as_an_empty_entry() {
    let s = parse_store(&b("/a/.envrc 1\n\n/b/.envrc 2\n"));
    assert_eq!(s.len(), 3);
    assert_eq!(s[1].rc_path, b(""));
    assert_eq!(s[1].granted_at, 0);
}

#[test]
fn store_roundtrip_recovers_every_entry() {
    let entries = vec![
        GrantEntry { rc_path: b("/a/.envrc"), granted_at: 0 },
        GrantEntry { rc_path: b("/a/b/.envrc"), granted_at: u64::MAX },
        GrantEntry { rc_path: b("/c/.envrc"), granted_at: 1700000000 },
    ];
    let bytes = render_store(&entries);
    let back = parse_store(&bytes);
    assert_eq!(back.len(), entries.len());
    for (x, y) in entries.iter().zip(back.iter()) {
        assert_eq!(x.rc_path, y.rc_path);
        assert_eq!(x.granted_at, y.granted_at);
    }
}

#[test]
fn render_store_of_empty_store_is_empty() {
    let entries: Vec<GrantEntry> = Vec::new();
    assert!(render_store(&entries).is_empty());
}
