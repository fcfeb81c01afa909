use hh::scan::get_last_cmdindex;
use hh::scan::scan_last_cmds;

#[test]
fn empty_buffer_has_no_boundary() {
    assert_eq!(get_last_cmdindex(b""), 0);
}

#[test]
fn sentinel_at_start_is_not_a_boundary() {
    // a sentinel at offset 0 leaves nothing before it to keep
    assert_eq!(get_last_cmdindex(b"#> alice\nls\n"), 0);
}

#[test]
fn finds_last_sentinel() {
    let buf = b"#!x\n#> alice\nls\n#> bob\ncd\n";
    assert_eq!(get_last_cmdindex(buf), 16);
    assert_eq!(&buf[16..18], b"#>");
}

#[test]
fn reset_truncates_before_last_header() {
    // reset on a log whose last bytes are "...#> alice\nls\n"
    let buf = b"#!x\n#> alice\nls\n";
    let cut = get_last_cmdindex(buf);
    assert_eq!(cut, 4);
    assert_eq!(&buf[..cut], b"#!x\n");
}

#[test]
fn truncation_is_idempotent() {
    let buf = b"#!x\n#> alice\nls\n".to_vec();
    let cut = get_last_cmdindex(&buf);
    assert!(cut > 0);
    let once = buf[..cut].to_vec();
    // the truncated log has no boundary left: a second reset is a no-op
    assert_eq!(get_last_cmdindex(&once), 0);
}

#[test]
fn truncating_empty_log_is_noop() {
    assert_eq!(get_last_cmdindex(b""), 0);
    assert_eq!(get_last_cmdindex(b"plain text, no marker\n"), 0);
}

#[test]
fn scan_collects_line_starts_of_last_segment() {
    let buf = b"#> u\nls\ncd\n";
    let offs = scan_last_cmds(buf);
    assert_eq!(offs, vec![8, 5]);
    assert_eq!(&buf[5..8], b"ls\n");
    assert_eq!(&buf[8..], b"cd\n");
}

#[test]
fn scan_stops_at_last_sentinel() {
    let buf = b"#> u\nls\n#> v\ncd\n";
    let offs = scan_last_cmds(buf);
    assert_eq!(offs, vec![13]);
    assert_eq!(&buf[13..], b"cd\n");
}

#[test]
fn scan_of_empty_buffer_is_empty() {
    assert_eq!(scan_last_cmds(b""), Vec::<usize>::new());
}

#[test]
fn scan_without_sentinel_is_empty() {
    // no sentinel: no prior segment to compare against
    assert_eq!(scan_last_cmds(b"ab\ncd\n"), Vec::<usize>::new());
}

#[test]
fn scan_finds_segment_starting_at_offset_zero() {
    let buf = b"#> u\nls\n";
    assert_eq!(scan_last_cmds(buf), vec![5]);
    assert_eq!(&buf[5..], b"ls\n");
}
