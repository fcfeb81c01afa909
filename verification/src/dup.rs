//! Duplicate detection: does a candidate command's token sequence match
//! a command line already written to the log's last segment?

use vstd::prelude::*;
use crate::B_HASH;
use crate::is_ws;
use crate::byte_is_ws;
use crate::is_transparent;
use crate::transparent_token;
use crate::bytes::views_of;

verus! {

/// The token's bytes stand in `buf` starting at `i`.
pub open spec fn token_matches_at(buf: Seq<u8>, i: int, tok: Seq<u8>) -> bool {
    0 <= i && i + tok.len() <= buf.len() && buf.subrange(i, i + tok.len()) == tok
}

/// The cursor after skipping the run of whitespace bytes at `i`.
pub open spec fn skip_ws_from(buf: Seq<u8>, i: int) -> int
    decreases buf.len() - i,
{
    if 0 <= i < buf.len() && is_ws(buf[i]) {
        skip_ws_from(buf, i + 1)
    } else {
        i
    }
}

/// The candidate tokens match the logged bytes from cursor `i` on:
/// transparent tokens are skipped, each other token must stand
/// byte-for-byte at the cursor, which then moves past it and the
/// following whitespace run; at the end the cursor must have reached
/// the buffer's end or the comment marker that begins the trailing
/// timestamp annotation.
pub open spec fn spec_is_dup(buf: Seq<u8>, toks: Seq<Seq<u8>>, i: int) -> bool
    decreases toks.len(),
{
    if toks.len() == 0 {
        i >= buf.len() || buf[i] == B_HASH
    } else if is_transparent(toks.first()) {
        spec_is_dup(buf, toks.drop_first(), i)
    } else if token_matches_at(buf, i, toks.first()) {
        spec_is_dup(buf, toks.drop_first(), skip_ws_from(buf, i + toks.first().len()))
    } else {
        false
    }
}

/// Walk the candidate tokens against the buffer from cursor `start`.
#[verifier::loop_isolation(false)]
fn is_dup_from(cmd1: &[u8], start: usize, cmd2: &Vec<Vec<u8>>) -> (r: bool)
    requires
        start <= cmd1@.len(),
    ensures
        r == spec_is_dup(cmd1@, views_of(cmd2@), start as int),
{
    let ghost vs = views_of(cmd2@);
    proof {
        assert(vs.skip(0) =~= vs);
    }
    let mut i: usize = start;
    let mut t: usize = 0;
    while t < cmd2.len()
        invariant
            t <= cmd2@.len(),
            i <= cmd1@.len(),
            vs == views_of(cmd2@),
            spec_is_dup(cmd1@, vs, start as int) == spec_is_dup(
                cmd1@,
                vs.skip(t as int),
                i as int,
            ),
        decreases cmd2@.len() - t,
    {
        proof {
            assert(vs.skip(t as int).first() == cmd2@[t as int]@);
            assert(vs.skip(t as int).drop_first() =~= vs.skip(t + 1));
        }
        let tok = &cmd2[t];
        if !transparent_token(tok.as_slice()) {
            let ghost i0 = i as int;
            proof {
                assert(cmd1@.subrange(i0, i0) =~= tok@.take(0));
            }
            let mut j: usize = 0;
            while j < tok.len()
                invariant
                    j <= tok@.len(),
                    i as int == i0 + j,
                    i <= cmd1@.len(),
                    cmd1@.subrange(i0, i as int) == tok@.take(j as int),
                decreases tok@.len() - j,
            {
                if i < cmd1.len() && tok[j] == cmd1[i] {
                    proof {
                        assert(cmd1@.subrange(i0, i + 1)
                            =~= cmd1@.subrange(i0, i as int).push(cmd1@[i as int]));
                        assert(tok@.take(j + 1) =~= tok@.take(j as int).push(tok@[j as int]));
                    }
                    i = i + 1;
                    j = j + 1;
                } else {
                    proof {
                        if token_matches_at(cmd1@, i0, tok@) {
                            assert(cmd1@.subrange(i0, i0 + tok@.len())[j as int]
                                == tok@[j as int]);
                        }
                    }
                    return false;
                }
            }
            proof {
                assert(tok@.take(tok@.len() as int) =~= tok@);
                assert(token_matches_at(cmd1@, i0, tok@));
            }
            let ghost w0 = i as int;
            while i < cmd1.len() && byte_is_ws(cmd1[i])
                invariant
                    w0 <= i <= cmd1@.len(),
                    skip_ws_from(cmd1@, w0) == skip_ws_from(cmd1@, i as int),
                decreases cmd1@.len() - i,
            {
                i = i + 1;
            }
            assert(skip_ws_from(cmd1@, i as int) == i as int);
        }
        t = t + 1;
    }
    proof {
        assert(vs.skip(vs.len() as int) =~= Seq::<Seq<u8>>::empty());
    }
    i >= cmd1.len() || cmd1[i] == B_HASH
}

/// Does the candidate command match the logged command line that starts
/// at the beginning of `cmd1`?  Transparent tokens of the candidate are
/// skipped; the match tolerates a trailing `# date time` annotation in
/// the logged line.
pub fn is_dup_cmd(cmd1: &[u8], cmd2: &Vec<Vec<u8>>) -> (r: bool)
    ensures
        r == spec_is_dup(cmd1@, views_of(cmd2@), 0),
{
    is_dup_from(cmd1, 0, cmd2)
}

/// The candidate matches some command line of the last segment.
pub open spec fn spec_any_dup(buf: Seq<u8>, offs: Seq<int>, toks: Seq<Seq<u8>>) -> bool {
    exists|k: int| 0 <= k < offs.len() && spec_is_dup(buf, toks, offs[k])
}

/// Test the candidate against every recorded command-line offset,
/// stopping at the first match.
pub fn any_dup(buf: &[u8], offs: &Vec<usize>, cmd2: &Vec<Vec<u8>>) -> (r: bool)
    requires
        forall|k: int| 0 <= k < offs@.len() ==> #[trigger] offs@[k] <= buf@.len(),
    ensures
        r == spec_any_dup(buf@, offs@.map_values(|x: usize| x as int), views_of(cmd2@)),
{
    let ghost offsi = offs@.map_values(|x: usize| x as int);
    let mut k: usize = 0;
    while k < offs.len()
        invariant
            k <= offs@.len(),
            offsi == offs@.map_values(|x: usize| x as int),
            forall|k2: int| 0 <= k2 < offs@.len() ==> #[trigger] offs@[k2] <= buf@.len(),
            forall|m: int| 0 <= m < k ==> !spec_is_dup(buf@, views_of(cmd2@), offsi[m]),
        decreases offs@.len() - k,
    {
        if is_dup_from(buf, offs[k], cmd2) {
            assert(spec_is_dup(buf@, views_of(cmd2@), offsi[k as int]));
            return true;
        }
        k = k + 1;
    }
    false
}

} // verus!
