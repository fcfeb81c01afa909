use hh::ignore::ignore;
use hh::ignore::parse_hist_ignore;

fn cmd(tokens: &[&str]) -> Vec<Vec<u8>> {
    tokens.iter().map(|t| t.as_bytes().to_vec()).collect()
}

#[test]
fn ignore_set_merges_both_lists() {
    let set = parse_hist_ignore(Some(b"ls:cd"), Some(b"top"));
    assert!(ignore(&cmd(&["ls"]), &set));
    assert!(ignore(&cmd(&["cd"]), &set));
    assert!(ignore(&cmd(&["top"]), &set));
    assert!(!ignore(&cmd(&["vim"]), &set));
}

#[test]
fn ignore_set_duplicates_collapse() {
    let set = parse_hist_ignore(Some(b"ls:ls"), Some(b"ls"));
    assert!(ignore(&cmd(&["ls"]), &set));
    assert!(!ignore(&cmd(&["lsblk"]), &set));
}

#[test]
fn ignore_set_no_normalization() {
    let set = parse_hist_ignore(Some(b"ls "), None);
    // exact match only: "ls " with a trailing space is not "ls"
    assert!(!ignore(&cmd(&["ls"]), &set));
}

#[test]
fn empty_sources_contribute_nothing() {
    let set = parse_hist_ignore(None, None);
    assert!(!ignore(&cmd(&["ls"]), &set));
}

#[test]
fn comment_always_suppressed() {
    let set = parse_hist_ignore(None, None);
    assert!(ignore(&cmd(&["#note"]), &set));
    // rule 1 wins even over a force-record redirect token
    assert!(ignore(&cmd(&["#note", "a>b"]), &set));
}

#[test]
fn own_name_always_suppressed() {
    let set = parse_hist_ignore(None, None);
    assert!(ignore(&cmd(&["hh"]), &set));
    assert!(ignore(&cmd(&["hh", "-r"]), &set));
}

#[test]
fn nohup_never_suppressed() {
    let set = parse_hist_ignore(Some(b"nohup"), None);
    assert!(!ignore(&cmd(&["nohup", "ls"]), &set));
}

#[test]
fn redirect_forces_record() {
    let set = parse_hist_ignore(Some(b"ls"), None);
    assert!(!ignore(&cmd(&["ls", ">out"]), &set));
    assert!(!ignore(&cmd(&["ls", "grep|wc"]), &set));
}

#[test]
fn plain_member_suppressed() {
    let set = parse_hist_ignore(Some(b"ls"), None);
    assert!(ignore(&cmd(&["ls", "-la"]), &set));
}
