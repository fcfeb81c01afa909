//! Validation of the history timestamp-format descriptor, and the token
//! offset derived from it.

use vstd::prelude::*;
use crate::bytes::spec_tokens;
use crate::bytes::tokenize;
use crate::bytes::views_of;

verus! {

/// The year-month-day format code, `%F`.
pub open spec fn full_date_code() -> Seq<u8> {
    seq![37u8, 70u8]
}

/// The time format code, `%T`.
pub open spec fn time_code() -> Seq<u8> {
    seq![37u8, 84u8]
}

/// The token holds the day-digit placeholder `%d` somewhere.
pub open spec fn has_day_code(t: Seq<u8>) -> bool {
    exists|j: int| 0 <= j && j + 1 < t.len() && #[trigger] t[j] == 37 && t[j + 1] == 100
}

/// The descriptor's final character is whitespace, judged on its UTF-8
/// bytes: a one-byte whitespace character (tab through carriage
/// return, space), or the trailing bytes of one of the multi-byte
/// Unicode whitespace characters — next line, no-break space, ogham
/// space mark, the en-quad through hair-space range, the line and
/// paragraph separators, narrow no-break space, medium mathematical
/// space, ideographic space.  On well-formed UTF-8 no other character
/// ends in these byte patterns, so this is exactly a whitespace test
/// on the final character.
pub open spec fn ends_with_ws_char(s: Seq<u8>) -> bool {
    let n = s.len() as int;
    ||| (n >= 1 && (s[n - 1] == 32 || (9 <= s[n - 1] && s[n - 1] <= 13)))
    ||| (n >= 2 && s[n - 2] == 0xc2 && (s[n - 1] == 0x85 || s[n - 1] == 0xa0))
    ||| (n >= 3 && s[n - 3] == 0xe1 && s[n - 2] == 0x9a && s[n - 1] == 0x80)
    ||| (n >= 3 && s[n - 3] == 0xe2 && s[n - 2] == 0x80 && ((0x80 <= s[n - 1] && s[n - 1]
        <= 0x8a) || s[n - 1] == 0xa8 || s[n - 1] == 0xa9 || s[n - 1] == 0xaf))
    ||| (n >= 3 && s[n - 3] == 0xe2 && s[n - 2] == 0x81 && s[n - 1] == 0x9f)
    ||| (n >= 3 && s[n - 3] == 0xe3 && s[n - 2] == 0x80 && s[n - 1] == 0x80)
}

/// Exec mirror of `ends_with_ws_char`.
fn ends_ws_char(s: &[u8]) -> (r: bool)
    ensures
        r == ends_with_ws_char(s@),
{
    let n = s.len();
    if n >= 1 {
        let b = s[n - 1];
        if b == 32 || (9 <= b && b <= 13) {
            return true;
        }
    }
    if n >= 2 {
        let a = s[n - 2];
        let b = s[n - 1];
        if a == 0xc2 && (b == 0x85 || b == 0xa0) {
            return true;
        }
    }
    if n >= 3 {
        let a = s[n - 3];
        let b = s[n - 2];
        let c = s[n - 1];
        if a == 0xe1 && b == 0x9a && c == 0x80 {
            return true;
        }
        if a == 0xe2 && b == 0x80 && ((0x80 <= c && c <= 0x8a) || c == 0xa8 || c == 0xa9
            || c == 0xaf) {
            return true;
        }
        if a == 0xe2 && b == 0x81 && c == 0x9f {
            return true;
        }
        if a == 0xe3 && b == 0x80 && c == 0x80 {
            return true;
        }
    }
    false
}

/// A valid format descriptor: its first token is a date code (`%F`, or
/// any token holding `%d`), its second token is the time code `%T`, and
/// the descriptor's final character is whitespace.
pub open spec fn spec_valid_format(s: Seq<u8>) -> bool {
    let toks = spec_tokens(s);
    &&& toks.len() >= 2
    &&& (toks[0] == full_date_code() || has_day_code(toks[0]))
    &&& toks[1] == time_code()
    &&& ends_with_ws_char(s)
}

/// Does the token hold `%d` somewhere?
fn token_has_day_code(t: &[u8]) -> (r: bool)
    ensures
        r == has_day_code(t@),
{
    if t.len() < 2 {
        return false;
    }
    let mut j: usize = 0;
    while j < t.len() - 1
        invariant
            t@.len() >= 2,
            j <= t@.len() - 1,
            forall|m: int| 0 <= m < j ==> !(#[trigger] t@[m] == 37 && t@[m + 1] == 100),
        decreases t@.len() - j,
    {
        if t[j] == 37 && t[j + 1] == 100 {
            assert(has_day_code(t@));
            return true;
        }
        j = j + 1;
    }
    false
}

/// Validate the timestamp-format descriptor.  On success the number of
/// format tokens is returned; the caller uses it to skip the sequence
/// index and the date/time fields of each history line.  `None` means
/// the descriptor violates the contract, a fatal configuration error.
pub fn parse_hist_format(var: &[u8]) -> (r: Option<usize>)
    ensures
        match r {
            Some(n) => spec_valid_format(var@) && n == spec_tokens(var@).len(),
            None => !spec_valid_format(var@),
        },
{
    let toks = tokenize(var);
    let ghost vs = views_of(toks@);
    if toks.len() < 2 {
        return None;
    }
    let first = &toks[0];
    proof {
        assert(vs[0] == toks@[0]@);
        assert(vs[1] == toks@[1]@);
    }
    let date_ok = if first.len() == 2 && first[0] == 37 && first[1] == 70 {
        assert(first@ =~= full_date_code());
        true
    } else {
        assert(first@ != full_date_code());
        token_has_day_code(first.as_slice())
    };
    if !date_ok {
        return None;
    }
    let second = &toks[1];
    if !(second.len() == 2 && second[0] == 37 && second[1] == 84) {
        assert(second@ != time_code());
        return None;
    }
    assert(second@ =~= time_code());
    if !ends_ws_char(var) {
        return None;
    }
    Some(toks.len())
}

} // verus!
