use hh::ignore::parse_hist_ignore;
use hh::record::preamble;
use hh::record::record;
use hh::scan::get_last_cmdindex;
use hh::scan::scan_last_cmds;
use hh::dup::is_dup_cmd;

#[test]
fn fresh_log_records_command_and_skips_comment() {
    // format "%F %T " gives two format tokens, so the command starts at
    // token 3 of each history line
    let cmd_index = 2 + 1;
    let skip = parse_hist_ignore(None, None);
    let input = b"1 2024-01-01 10:00:00 ls -la\n2 2024-01-01 10:00:05 #comment\n";
    let out = record(input, b"", b"u", &skip, cmd_index, false, 1, 0);
    assert_eq!(out.append, b"#> u\nls -la # 2024-01-01 10:00:00\n".to_vec());
    assert_eq!(out.echo, b"ls -la \n".to_vec());
    // the file did not exist: the caller writes the preamble first
    let pre = preamble();
    assert!(pre.starts_with(b"#!/bin/bash\n"));
    let mut file = pre.clone();
    file.extend_from_slice(&out.append);
    assert_eq!(get_last_cmdindex(&file), pre.len());
}

#[test]
fn smart_mode_suppresses_ignored_command() {
    let skip = parse_hist_ignore(Some(b"ls"), None);
    let input = b"1 2024-01-01 10:00:00 ls -la\n";
    let out = record(input, b"", b"u", &skip, 3, false, 1, 0);
    assert_eq!(out.append, Vec::<u8>::new());
    assert_eq!(out.echo, Vec::<u8>::new());
}

#[test]
fn disable_filtering_records_ignored_command() {
    let skip = parse_hist_ignore(Some(b"ls"), None);
    let input = b"1 2024-01-01 10:00:00 ls -la\n";
    let out = record(input, b"", b"u", &skip, 3, true, 1, 0);
    assert_eq!(out.append, b"#> u\nls -la # 2024-01-01 10:00:00\n".to_vec());
}

#[test]
fn round_trip_reads_back_every_written_line() {
    let skip = parse_hist_ignore(None, None);
    let input = b"1 2024-01-01 10:00:00 ls -la\n\
                  2 2024-01-01 10:00:01 cd /tmp\n\
                  3 2024-01-01 10:00:02 pwd\n";
    let out = record(input, b"", b"u", &skip, 3, false, 3, 0);
    let mut file = preamble();
    let header_at = file.len();
    file.extend_from_slice(&out.append);
    // one segment header, at the point where the append began
    assert_eq!(get_last_cmdindex(&file), header_at);
    // exactly three command lines under the final segment marker
    let offs = scan_last_cmds(&file);
    assert_eq!(offs.len(), 3);
    // newest command first in the file; the scan walks backward, so its
    // offsets pair with the commands oldest-written last
    assert!(is_dup_cmd(&file[offs[2]..], &vec![b"pwd".to_vec()]));
    assert!(is_dup_cmd(&file[offs[1]..], &vec![b"cd".to_vec(), b"/tmp".to_vec()]));
    assert!(is_dup_cmd(&file[offs[0]..], &vec![b"ls".to_vec(), b"-la".to_vec()]));
}

#[test]
fn recording_twice_writes_nothing_new() {
    let skip = parse_hist_ignore(None, None);
    let input = b"1 2024-01-01 10:00:00 ls -la\n2 2024-01-01 10:00:01 cd /tmp\n";
    let first = record(input, b"", b"u", &skip, 3, false, 2, 0);
    assert!(!first.append.is_empty());
    let mut file = preamble();
    file.extend_from_slice(&first.append);
    let second = record(input, &file, b"u", &skip, 3, false, 2, 0);
    assert_eq!(second.append, Vec::<u8>::new());
    assert_eq!(second.echo, Vec::<u8>::new());
}

#[test]
fn transparent_tokens_are_stripped_from_output() {
    let skip = parse_hist_ignore(None, None);
    let input = b"1 2024-01-01 10:00:00 nohup sleep 5 &\n";
    let out = record(input, b"", b"u", &skip, 3, false, 1, 0);
    assert_eq!(out.append, b"#> u\nsleep 5 # 2024-01-01 10:00:00\n".to_vec());
    assert_eq!(out.echo, b"sleep 5 \n".to_vec());
}

#[test]
fn short_lines_are_skipped_without_counting() {
    let skip = parse_hist_ignore(None, None);
    // the newest line is too short to hold a command: skipped silently
    let input = b"1 2024-01-01 10:00:00 pwd\n2 2024-01-01 10:00:01\n";
    let out = record(input, b"", b"u", &skip, 3, false, 1, 0);
    assert_eq!(out.append, b"#> u\npwd # 2024-01-01 10:00:00\n".to_vec());
}

#[test]
fn index_mode_records_only_the_nth_from_last() {
    let skip = parse_hist_ignore(None, None);
    let input = b"1 2024-01-01 10:00:00 ls -la\n\
                  2 2024-01-01 10:00:01 cd /tmp\n\
                  3 2024-01-01 10:00:02 pwd\n";
    let out = record(input, b"", b"u", &skip, 3, true, 1, 2);
    assert_eq!(out.append, b"#> u\ncd /tmp # 2024-01-01 10:00:01\n".to_vec());
}

#[test]
fn zero_count_records_nothing() {
    let skip = parse_hist_ignore(None, None);
    let input = b"1 2024-01-01 10:00:00 ls -la\n";
    let out = record(input, b"", b"u", &skip, 3, false, 0, 0);
    assert_eq!(out.append, Vec::<u8>::new());
}

#[test]
fn sentinel_free_log_suppresses_nothing() {
    let skip = parse_hist_ignore(None, None);
    // after a reset the log is the preamble alone: no segment, so
    // nothing can count as a duplicate — not even a command whose
    // transparent tokens would trivially match a comment line
    let log = preamble();
    let input = b"1 2024-01-01 10:00:00 nohup ls &\n";
    let out = record(input, &log, b"u", &skip, 3, false, 1, 0);
    assert_eq!(out.append, b"#> u\nls # 2024-01-01 10:00:00\n".to_vec());
}

#[test]
fn empty_existing_file_round_trip() {
    let skip = parse_hist_ignore(None, None);
    // the file existed but was empty: no preamble, so the segment
    // header lands at offset zero; the second pass still finds it
    let input = b"1 2024-01-01 10:00:00 ls -la\n";
    let first = record(input, b"", b"u", &skip, 3, false, 1, 0);
    assert_eq!(first.append, b"#> u\nls -la # 2024-01-01 10:00:00\n".to_vec());
    let second = record(input, &first.append, b"u", &skip, 3, false, 1, 0);
    assert_eq!(second.append, Vec::<u8>::new());
}

#[test]
fn existing_segment_suppresses_duplicates_only() {
    let skip = parse_hist_ignore(None, None);
    // the existing line carries two spaces before its annotation;
    // duplicate detection skips whitespace runs, so it still matches
    let log = b"#> u\nls -la  # 2024-01-01 09:00:00\n";
    let input = b"1 2024-01-01 10:00:00 ls -la\n2 2024-01-01 10:00:01 pwd\n";
    let out = record(input, log, b"u", &skip, 3, false, 2, 0);
    assert_eq!(out.append, b"#> u\npwd # 2024-01-01 10:00:01\n".to_vec());
}
