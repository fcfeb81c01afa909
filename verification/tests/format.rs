use hh::format::parse_hist_format;

#[test]
fn accepts_full_date_time() {
    assert_eq!(parse_hist_format(b"%F %T "), Some(2));
}

#[test]
fn accepts_day_placeholder() {
    assert_eq!(parse_hist_format(b"%Y-%m-%d %T "), Some(2));
}

#[test]
fn accepts_extra_tokens() {
    assert_eq!(parse_hist_format(b"%F %T %z "), Some(3));
}

#[test]
fn rejects_missing_trailing_whitespace() {
    assert_eq!(parse_hist_format(b"%F %T"), None);
}

#[test]
fn rejects_swapped_codes() {
    assert_eq!(parse_hist_format(b"%T %F "), None);
}

#[test]
fn rejects_single_token() {
    assert_eq!(parse_hist_format(b"%F "), None);
}

#[test]
fn rejects_empty() {
    assert_eq!(parse_hist_format(b""), None);
}

#[test]
fn rejects_first_token_without_day_code() {
    assert_eq!(parse_hist_format(b"%Y-%m %T "), None);
}

#[test]
fn accepts_trailing_unicode_whitespace() {
    // a line-separator character after the time code: the descriptor's
    // final character is whitespace
    assert_eq!(parse_hist_format("%F %T \u{2028}".as_bytes()), Some(3));
    assert_eq!(parse_hist_format("%F %T \u{3000}".as_bytes()), Some(3));
}

#[test]
fn rejects_non_whitespace_final_character() {
    // the final character is not whitespace, though its last UTF-8
    // byte equals the no-break space's trailing byte
    assert_eq!(parse_hist_format("%F %T \u{6fa0}".as_bytes()), None);
}
