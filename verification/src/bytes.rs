//! Byte-sequence utilities shared by the recorder's components:
//! splitting on a separator byte, whitespace tokenization, and small
//! building blocks for constructing output buffers.

use vstd::prelude::*;
use crate::is_ascii_ws;
use crate::byte_is_ascii_ws;

verus! {

/// The views of a sequence of byte vectors.
pub open spec fn views_of(s: Seq<Vec<u8>>) -> Seq<Seq<u8>> {
    Seq::new(s.len(), |i: int| s[i]@)
}

/// Splitting a byte sequence at every occurrence of `sep`, keeping empty
/// pieces, as `str::split` does: the result always has at least one piece.
pub open spec fn spec_split(s: Seq<u8>, sep: u8) -> Seq<Seq<u8>>
    decreases s.len(),
{
    if s.len() == 0 {
        seq![Seq::<u8>::empty()]
    } else if s[0] == sep {
        seq![Seq::<u8>::empty()] + spec_split(s.drop_first(), sep)
    } else {
        let rest = spec_split(s.drop_first(), sep);
        seq![seq![s[0]] + rest.first()] + rest.drop_first()
    }
}

pub proof fn lemma_split_nonempty(s: Seq<u8>, sep: u8)
    ensures
        spec_split(s, sep).len() >= 1,
    decreases s.len(),
{
    if s.len() == 0 {
    } else {
        lemma_split_nonempty(s.drop_first(), sep);
    }
}

/// Splitting at every ASCII-whitespace byte, keeping empty pieces.
pub open spec fn spec_split_ws(s: Seq<u8>) -> Seq<Seq<u8>>
    decreases s.len(),
{
    if s.len() == 0 {
        seq![Seq::<u8>::empty()]
    } else if is_ascii_ws(s[0]) {
        seq![Seq::<u8>::empty()] + spec_split_ws(s.drop_first())
    } else {
        let rest = spec_split_ws(s.drop_first());
        seq![seq![s[0]] + rest.first()] + rest.drop_first()
    }
}

pub proof fn lemma_split_ws_nonempty(s: Seq<u8>)
    ensures
        spec_split_ws(s).len() >= 1,
    decreases s.len(),
{
    if s.len() == 0 {
    } else {
        lemma_split_ws_nonempty(s.drop_first());
    }
}

/// The subsequence of the non-empty pieces.
pub open spec fn spec_nonempty(ts: Seq<Seq<u8>>) -> Seq<Seq<u8>>
    decreases ts.len(),
{
    if ts.len() == 0 {
        Seq::empty()
    } else if ts.first().len() > 0 {
        seq![ts.first()] + spec_nonempty(ts.drop_first())
    } else {
        spec_nonempty(ts.drop_first())
    }
}

/// The whitespace-separated tokens of a byte sequence: what
/// `str::split_ascii_whitespace` yields, as byte sequences.
pub open spec fn spec_tokens(s: Seq<u8>) -> Seq<Seq<u8>> {
    spec_nonempty(spec_split_ws(s))
}

/// Every byte of the token is non-whitespace.
pub open spec fn token_ws_free(t: Seq<u8>) -> bool {
    forall|j: int| 0 <= j < t.len() ==> !is_ascii_ws(#[trigger] t[j])
}

/// The pieces of the whitespace split hold no whitespace byte.
proof fn lemma_split_ws_pieces_ws_free(s: Seq<u8>)
    ensures
        forall|k: int| 0 <= k < spec_split_ws(s).len() ==> token_ws_free(
            #[trigger] spec_split_ws(s)[k],
        ),
    decreases s.len(),
{
    if s.len() == 0 {
        assert(spec_split_ws(s)[0] =~= Seq::<u8>::empty());
    } else if is_ascii_ws(s[0]) {
        lemma_split_ws_pieces_ws_free(s.drop_first());
        let rest = spec_split_ws(s.drop_first());
        assert forall|k: int| 0 <= k < spec_split_ws(s).len() implies token_ws_free(
            #[trigger] spec_split_ws(s)[k],
        ) by {
            if k == 0 {
                assert(spec_split_ws(s)[0] =~= Seq::<u8>::empty());
            } else {
                assert(spec_split_ws(s)[k] == rest[k - 1]);
            }
        }
    } else {
        lemma_split_ws_pieces_ws_free(s.drop_first());
        lemma_split_ws_nonempty(s.drop_first());
        let rest = spec_split_ws(s.drop_first());
        assert forall|k: int| 0 <= k < spec_split_ws(s).len() implies token_ws_free(
            #[trigger] spec_split_ws(s)[k],
        ) by {
            if k == 0 {
                let first = seq![s[0]] + rest.first();
                assert(token_ws_free(rest[0]));
                assert forall|j: int| 0 <= j < first.len() implies !is_ascii_ws(
                    #[trigger] first[j],
                ) by {
                    if j == 0 {
                        assert(first[0] == s[0]);
                    } else {
                        assert(first[j] == rest[0][j - 1]);
                    }
                }
            } else {
                assert(spec_split_ws(s)[k] == rest.drop_first()[k - 1]);
                assert(rest.drop_first()[k - 1] == rest[k]);
            }
        }
    }
}

/// Keeping only the non-empty pieces keeps the property.
proof fn lemma_nonempty_ws_free(ts: Seq<Seq<u8>>)
    requires
        forall|k: int| 0 <= k < ts.len() ==> token_ws_free(#[trigger] ts[k]),
    ensures
        forall|k: int| 0 <= k < spec_nonempty(ts).len() ==> token_ws_free(
            #[trigger] spec_nonempty(ts)[k],
        ),
    decreases ts.len(),
{
    if ts.len() == 0 {
    } else {
        assert(forall|k: int| 0 <= k < ts.drop_first().len() ==> #[trigger] ts.drop_first()[k]
            == ts[k + 1]);
        lemma_nonempty_ws_free(ts.drop_first());
        if ts.first().len() > 0 {
            let out = seq![ts.first()] + spec_nonempty(ts.drop_first());
            assert forall|k: int| 0 <= k < out.len() implies token_ws_free(
                #[trigger] out[k],
            ) by {
                if k == 0 {
                    assert(out[0] == ts[0]);
                } else {
                    assert(out[k] == spec_nonempty(ts.drop_first())[k - 1]);
                }
            }
        }
    }
}

/// No token holds a whitespace byte: tokens are maximal runs of
/// non-whitespace bytes.
pub proof fn lemma_tokens_ws_free(s: Seq<u8>)
    ensures
        forall|k: int| 0 <= k < spec_tokens(s).len() ==> token_ws_free(
            #[trigger] spec_tokens(s)[k],
        ),
{
    lemma_split_ws_pieces_ws_free(s);
    lemma_nonempty_ws_free(spec_split_ws(s));
}

/// Only non-empty pieces survive the filter.
proof fn lemma_nonempty_pieces(ts: Seq<Seq<u8>>)
    ensures
        forall|k: int| 0 <= k < spec_nonempty(ts).len() ==> #[trigger] spec_nonempty(
            ts,
        )[k].len() > 0,
    decreases ts.len(),
{
    if ts.len() == 0 {
    } else {
        lemma_nonempty_pieces(ts.drop_first());
        if ts.first().len() > 0 {
            let out = seq![ts.first()] + spec_nonempty(ts.drop_first());
            assert(spec_nonempty(ts) == out);
            assert forall|k: int| 0 <= k < out.len() implies #[trigger] out[k].len() > 0 by {
                if k > 0 {
                    assert(out[k] == spec_nonempty(ts.drop_first())[k - 1]);
                }
            }
        } else {
            assert(spec_nonempty(ts) == spec_nonempty(ts.drop_first()));
            assert forall|k: int| 0 <= k < spec_nonempty(ts).len()
                implies #[trigger] spec_nonempty(ts)[k].len() > 0 by {
                assert(spec_nonempty(ts)[k] == spec_nonempty(ts.drop_first())[k]);
            }
        }
    }
}

/// Every token is non-empty.
pub proof fn lemma_tokens_nonempty(s: Seq<u8>)
    ensures
        forall|k: int| 0 <= k < spec_tokens(s).len() ==> #[trigger] spec_tokens(
            s,
        )[k].len() > 0,
{
    lemma_nonempty_pieces(spec_split_ws(s));
}

/// A sequence of at least one piece equals its first piece re-attached
/// to the rest.
proof fn lemma_reassemble(r: Seq<Seq<u8>>)
    requires
        r.len() >= 1,
    ensures
        seq![r.first()] + r.drop_first() == r,
{
    assert(seq![r.first()] + r.drop_first() =~= r);
}

/// Copy a byte slice into a fresh vector.
pub fn copy_bytes(src: &[u8]) -> (r: Vec<u8>)
    ensures
        r@ == src@,
{
    let mut r: Vec<u8> = Vec::new();
    let mut i: usize = 0;
    while i < src.len()
        invariant
            i <= src.len(),
            r@ == src@.take(i as int),
        decreases src.len() - i,
    {
        r.push(src[i]);
        assert(src@.take(i as int).push(src@[i as int]) =~= src@.take(i + 1));
        i = i + 1;
    }
    assert(src@.take(src@.len() as int) =~= src@);
    r
}

/// Append a byte slice to the end of a vector.
pub fn append_slice(dst: &mut Vec<u8>, src: &[u8])
    ensures
        final(dst)@ == old(dst)@ + src@,
{
    let mut i: usize = 0;
    while i < src.len()
        invariant
            i <= src.len(),
            dst@ == old(dst)@ + src@.take(i as int),
        decreases src.len() - i,
    {
        dst.push(src[i]);
        assert(old(dst)@ + src@.take(i as int) + seq![src@[i as int]]
            =~= old(dst)@ + src@.take(i + 1));
        i = i + 1;
    }
    assert(old(dst)@ + src@.take(src@.len() as int) =~= old(dst)@ + src@);
}

/// Split a byte slice at every occurrence of `sep`, keeping empty pieces.
pub fn split_bytes(s: &[u8], sep: u8) -> (r: Vec<Vec<u8>>)
    ensures
        views_of(r@) == spec_split(s@, sep),
{
    let mut out: Vec<Vec<u8>> = Vec::new();
    let mut cur: Vec<u8> = Vec::new();
    let mut j: usize = 0;
    proof {
        assert(s@.skip(0) =~= s@);
        lemma_split_nonempty(s@, sep);
        let r = spec_split(s@, sep);
        lemma_reassemble(r);
        assert(views_of(Seq::<Vec<u8>>::empty())
            + seq![Seq::<u8>::empty() + r.first()] + r.drop_first() =~~= r);
    }
    while j < s.len()
        invariant
            j <= s.len(),
            spec_split(s@.skip(j as int), sep).len() >= 1,
            spec_split(s@, sep) == views_of(out@)
                + seq![cur@ + spec_split(s@.skip(j as int), sep).first()]
                + spec_split(s@.skip(j as int), sep).drop_first(),
        decreases s.len() - j,
    {
        let ghost out0 = out@;
        let ghost cur0 = cur@;
        let ghost pre = spec_split(s@.skip(j as int), sep);
        let ghost post = spec_split(s@.skip(j + 1), sep);
        proof {
            lemma_split_nonempty(s@.skip(j + 1), sep);
            assert(s@.skip(j as int).drop_first() =~= s@.skip(j + 1));
            assert(s@.skip(j as int).first() == s@[j as int]);
        }
        if s[j] == sep {
            let finished = cur;
            cur = Vec::new();
            out.push(finished);
            proof {
                // pre unfolds to an empty first piece followed by post
                assert(pre == seq![Seq::<u8>::empty()] + post);
                lemma_reassemble(post);
                assert(views_of(out@)
                    + seq![cur@ + post.first()] + post.drop_first()
                    =~~= views_of(out0) + seq![cur0 + pre.first()] + pre.drop_first());
            }
        } else {
            cur.push(s[j]);
            proof {
                // pre's first piece starts with s[j], continuing into post
                assert(pre == seq![seq![s@[j as int]] + post.first()] + post.drop_first());
                assert(views_of(out@)
                    + seq![cur@ + post.first()] + post.drop_first()
                    =~~= views_of(out0) + seq![cur0 + pre.first()] + pre.drop_first());
            }
        }
        j = j + 1;
    }
    let ghost out0 = out@;
    let ghost cur0 = cur@;
    out.push(cur);
    proof {
        assert(s@.skip(s@.len() as int) =~= Seq::<u8>::empty());
        let q = spec_split(Seq::<u8>::empty(), sep);
        assert(views_of(out@) =~~= views_of(out0)
            + seq![cur0 + q.first()] + q.drop_first());
    }
    out
}

/// Split a byte slice at every ASCII-whitespace byte, keeping empty pieces.
fn split_ws_bytes(s: &[u8]) -> (r: Vec<Vec<u8>>)
    ensures
        views_of(r@) == spec_split_ws(s@),
{
    let mut out: Vec<Vec<u8>> = Vec::new();
    let mut cur: Vec<u8> = Vec::new();
    let mut j: usize = 0;
    proof {
        assert(s@.skip(0) =~= s@);
        lemma_split_ws_nonempty(s@);
        let r = spec_split_ws(s@);
        lemma_reassemble(r);
        assert(views_of(Seq::<Vec<u8>>::empty())
            + seq![Seq::<u8>::empty() + r.first()] + r.drop_first() =~~= r);
    }
    while j < s.len()
        invariant
            j <= s.len(),
            spec_split_ws(s@.skip(j as int)).len() >= 1,
            spec_split_ws(s@) == views_of(out@)
                + seq![cur@ + spec_split_ws(s@.skip(j as int)).first()]
                + spec_split_ws(s@.skip(j as int)).drop_first(),
        decreases s.len() - j,
    {
        let ghost out0 = out@;
        let ghost cur0 = cur@;
        let ghost pre = spec_split_ws(s@.skip(j as int));
        let ghost post = spec_split_ws(s@.skip(j + 1));
        proof {
            lemma_split_ws_nonempty(s@.skip(j + 1));
            assert(s@.skip(j as int).drop_first() =~= s@.skip(j + 1));
            assert(s@.skip(j as int).first() == s@[j as int]);
        }
        if byte_is_ascii_ws(s[j]) {
            let finished = cur;
            cur = Vec::new();
            out.push(finished);
            proof {
                assert(pre == seq![Seq::<u8>::empty()] + post);
                lemma_reassemble(post);
                assert(views_of(out@)
                    + seq![cur@ + post.first()] + post.drop_first()
                    =~~= views_of(out0) + seq![cur0 + pre.first()] + pre.drop_first());
            }
        } else {
            cur.push(s[j]);
            proof {
                assert(pre == seq![seq![s@[j as int]] + post.first()] + post.drop_first());
                assert(views_of(out@)
                    + seq![cur@ + post.first()] + post.drop_first()
                    =~~= views_of(out0) + seq![cur0 + pre.first()] + pre.drop_first());
            }
        }
        j = j + 1;
    }
    let ghost out0 = out@;
    let ghost cur0 = cur@;
    out.push(cur);
    proof {
        assert(s@.skip(s@.len() as int) =~= Seq::<u8>::empty());
        let q = spec_split_ws(Seq::<u8>::empty());
        assert(views_of(out@) =~~= views_of(out0)
            + seq![cur0 + q.first()] + q.drop_first());
    }
    out
}

/// The whitespace-separated tokens of a byte slice: non-empty maximal
/// runs of non-whitespace bytes, in order.
pub fn tokenize(s: &[u8]) -> (r: Vec<Vec<u8>>)
    ensures
        views_of(r@) == spec_tokens(s@),
{
    let pieces = split_ws_bytes(s);
    let mut out: Vec<Vec<u8>> = Vec::new();
    let mut i: usize = 0;
    let ghost ps = views_of(pieces@);
    proof {
        assert(ps.skip(0) =~= ps);
    }
    while i < pieces.len()
        invariant
            i <= pieces.len(),
            ps == views_of(pieces@),
            spec_nonempty(ps) == views_of(out@) + spec_nonempty(ps.skip(i as int)),
        decreases pieces.len() - i,
    {
        let ghost out0 = out@;
        proof {
            assert(ps.skip(i as int).drop_first() =~= ps.skip(i + 1));
            assert(ps.skip(i as int).first() == pieces@[i as int]@);
        }
        if pieces[i].len() > 0 {
            let piece = copy_bytes(pieces[i].as_slice());
            out.push(piece);
            proof {
                assert(views_of(out@) + spec_nonempty(ps.skip(i + 1))
                    =~~= views_of(out0) + spec_nonempty(ps.skip(i as int)));
            }
        } else {
            proof {
                assert(views_of(out@) + spec_nonempty(ps.skip(i + 1))
                    =~~= views_of(out0) + spec_nonempty(ps.skip(i as int)));
            }
        }
        i = i + 1;
    }
    proof {
        assert(ps.skip(ps.len() as int) =~= Seq::<Seq<u8>>::empty());
        assert(views_of(out@) + spec_nonempty(Seq::<Seq<u8>>::empty()) =~~= views_of(out@));
    }
    out
}

/// Copy the tokens from `start` on into a fresh vector.
pub fn tail_tokens(toks: &Vec<Vec<u8>>, start: usize) -> (r: Vec<Vec<u8>>)
    requires
        start <= toks@.len(),
    ensures
        views_of(r@) == views_of(toks@).skip(start as int),
{
    let mut out: Vec<Vec<u8>> = Vec::new();
    let mut i: usize = start;
    while i < toks.len()
        invariant
            start <= i <= toks@.len(),
            views_of(out@) == views_of(toks@).subrange(start as int, i as int),
        decreases toks@.len() - i,
    {
        let ghost out0 = out@;
        let piece = copy_bytes(toks[i].as_slice());
        out.push(piece);
        proof {
            assert(views_of(out@) =~~= views_of(out0).push(toks@[i as int]@));
            assert(views_of(toks@).subrange(start as int, i + 1)
                =~= views_of(toks@).subrange(start as int, i as int)
                    .push(views_of(toks@)[i as int]));
        }
        i = i + 1;
    }
    proof {
        assert(views_of(toks@).subrange(start as int, toks@.len() as int)
            =~= views_of(toks@).skip(start as int));
    }
    out
}

} // verus!
