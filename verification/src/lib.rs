//! Per-directory shell-history recorder: the verified core.
//!
//! The library validates the history timestamp format, builds the ignore
//! set, scans an existing log buffer backward for segment boundaries,
//! detects duplicate commands against the last logged segment, and builds
//! the bytes to append for a new record operation.

use vstd::prelude::*;

pub mod bytes;
pub mod dup;
pub mod format;
pub mod ignore;
pub mod record;
pub mod scan;

verus! {

/// The sentinel's first byte, `'#'`.
pub const B_HASH: u8 = 35;
/// The sentinel's second byte, `'>'`.
pub const B_GT: u8 = 62;
/// A line break, `'\n'`.
pub const B_NL: u8 = 10;

/// A byte is ASCII whitespace: space, tab, line feed, form feed,
/// carriage return.  This is the token separator for history lines.
pub open spec fn is_ascii_ws(b: u8) -> bool {
    b == 32 || b == 9 || b == 10 || b == 12 || b == 13
}

/// Exec mirror of `is_ascii_ws`.
pub fn byte_is_ascii_ws(b: u8) -> (r: bool)
    ensures
        r == is_ascii_ws(b),
{
    b == 32 || b == 9 || b == 10 || b == 12 || b == 13
}

/// A byte whose one-byte character is whitespace: the ASCII whitespace
/// bytes, vertical tab, and the two Latin-1 whitespace bytes (next line,
/// no-break space).  Duplicate detection skips runs of these.
pub open spec fn is_ws(b: u8) -> bool {
    b == 32 || (9 <= b && b <= 13) || b == 0x85 || b == 0xa0
}

/// Exec mirror of `is_ws`.
pub fn byte_is_ws(b: u8) -> (r: bool)
    ensures
        r == is_ws(b),
{
    b == 32 || (9 <= b && b <= 13) || b == 0x85 || b == 0xa0
}

/// The backgrounding marker `&`, transparent for identity and output.
pub open spec fn amp_name() -> Seq<u8> {
    seq![38u8]
}

/// The wrapper name `nohup`, transparent for identity and output and a
/// force-record marker for the ignore filter.
pub open spec fn nohup_name() -> Seq<u8> {
    seq![110u8, 111u8, 104u8, 117u8, 112u8]
}

/// This tool's own program name, `hh`: commands naming it are never
/// recorded.
pub open spec fn prog_name() -> Seq<u8> {
    seq![104u8, 104u8]
}

/// The segment header: the sentinel, a space, the user name, a line
/// break.
pub open spec fn segment_header(user: Seq<u8>) -> Seq<u8> {
    seq![35u8, 62u8, 32u8] + user + seq![10u8]
}

/// A token is transparent: the backgrounding marker or the wrapper name.
pub open spec fn is_transparent(t: Seq<u8>) -> bool {
    t == amp_name() || t == nohup_name()
}

/// Exec mirror of `is_transparent`.
pub fn transparent_token(t: &[u8]) -> (r: bool)
    ensures
        r == is_transparent(t@),
{
    if t.len() == 1 && t[0] == 38 {
        assert(t@ =~= amp_name());
        true
    } else if t.len() == 5 && t[0] == 110 && t[1] == 111 && t[2] == 104 && t[3] == 117
        && t[4] == 112 {
        assert(t@ =~= nohup_name());
        true
    } else {
        false
    }
}

} // verus!
