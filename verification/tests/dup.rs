use hh::dup::is_dup_cmd;

fn cmd(tokens: &[&str]) -> Vec<Vec<u8>> {
    tokens.iter().map(|t| t.as_bytes().to_vec()).collect()
}

#[test]
fn matches_exact_line() {
    assert!(is_dup_cmd(b"ls", &cmd(&["ls"])));
}

#[test]
fn tolerates_trailing_annotation() {
    assert!(is_dup_cmd(b"ls -la  # 2024-01-01 10:00:00\n", &cmd(&["ls", "-la"])));
}

#[test]
fn prefix_without_annotation_is_no_match() {
    assert!(!is_dup_cmd(b"ls -la", &cmd(&["ls"])));
}

#[test]
fn mismatch_fails() {
    assert!(!is_dup_cmd(b"ls -la # x", &cmd(&["ls", "-lh"])));
}

#[test]
fn transparent_tokens_are_skipped() {
    assert!(is_dup_cmd(b"ls -la # x", &cmd(&["nohup", "ls", "-la"])));
    assert!(is_dup_cmd(b"ls -la # x", &cmd(&["ls", "-la", "&"])));
}

#[test]
fn longer_candidate_fails() {
    assert!(!is_dup_cmd(b"ls # x", &cmd(&["ls", "-la"])));
}
