//! Backward scans over the log buffer: finding the most recent segment
//! boundary (for truncation) and the command-line start offsets inside
//! the last segment (for duplicate detection).

use vstd::prelude::*;
use crate::B_HASH;
use crate::B_GT;
use crate::B_NL;

verus! {

/// The two-byte segment sentinel `#>` stands at position `p` of `buf`.
pub open spec fn sentinel_at(buf: Seq<u8>, p: int) -> bool {
    0 <= p && p + 1 < buf.len() && buf[p] == B_HASH && buf[p + 1] == B_GT
}

/// The boundary the backward scan finds when started with the cursor at
/// `index`: the largest `p <= index - 1` with `p >= 1` where the
/// sentinel stands, or 0 if there is none.
pub open spec fn boundary_from(buf: Seq<u8>, index: int) -> int
    decreases index,
{
    if index <= 1 {
        0
    } else if buf[index - 1] == B_HASH && buf[index] == B_GT {
        index - 1
    } else {
        boundary_from(buf, index - 1)
    }
}

/// The byte offset of the most recent segment boundary of the whole
/// buffer, or 0 if the buffer holds no sentinel past its first byte.
pub open spec fn spec_boundary(buf: Seq<u8>) -> int {
    if buf.len() == 0 {
        0
    } else {
        boundary_from(buf, buf.len() - 1)
    }
}

/// The buffer after a reset: everything before the most recent segment
/// boundary, or the buffer unchanged when there is nothing to reset.
pub open spec fn spec_truncated(buf: Seq<u8>) -> Seq<u8> {
    if spec_boundary(buf) > 0 {
        buf.take(spec_boundary(buf))
    } else {
        buf
    }
}

/// Find the start offset of the most recent segment sentinel: the
/// largest `p >= 1` with `#>` at `p`, or 0 when no such position exists
/// (nothing to truncate).
pub fn get_last_cmdindex(buf: &[u8]) -> (r: usize)
    ensures
        r as int == spec_boundary(buf@),
        r == 0 ==> forall|p: int| 1 <= p ==> !sentinel_at(buf@, p),
        r > 0 ==> sentinel_at(buf@, r as int)
            && forall|p: int| r < p ==> !sentinel_at(buf@, p),
{
    if buf.len() <= 1 {
        return 0;
    }
    let mut index: usize = buf.len() - 1;
    while index > 1
        invariant
            1 <= index <= buf@.len() - 1,
            spec_boundary(buf@) == boundary_from(buf@, index as int),
            forall|p: int| index <= p ==> !sentinel_at(buf@, p),
        decreases index,
    {
        if buf[index - 1] == B_HASH && buf[index] == B_GT {
            assert(sentinel_at(buf@, index - 1));
            return index - 1;
        }
        assert(!sentinel_at(buf@, index - 1));
        index = index - 1;
    }
    0
}

/// The buffer holds the sentinel pair somewhere.
pub open spec fn has_sentinel(buf: Seq<u8>) -> bool {
    exists|p: int| sentinel_at(buf, p)
}

/// The command-line start offsets the backward scan collects, newest
/// first, when started with the cursor at `index`: every offset whose
/// previous byte is a line break, down to (and excluding) the cursor
/// position where the sentinel is found.
pub open spec fn scan_from(buf: Seq<u8>, index: int) -> Seq<int>
    decreases index,
{
    if index <= 0 {
        Seq::empty()
    } else if buf[index - 1] == B_HASH && buf[index] == B_GT {
        Seq::empty()
    } else if buf[index - 1] == B_NL {
        seq![index] + scan_from(buf, index - 1)
    } else {
        scan_from(buf, index - 1)
    }
}

/// The command-line start offsets of the buffer's last segment, newest
/// first: the backward scan stops at the most recent sentinel.  A
/// buffer that is empty or holds no sentinel has no prior segment to
/// compare against and yields no offsets.
pub open spec fn spec_scan(buf: Seq<u8>) -> Seq<int> {
    if has_sentinel(buf) {
        scan_from(buf, buf.len() - 1)
    } else {
        Seq::empty()
    }
}

/// Collect the command-line start offsets of the buffer's last segment,
/// newest first; none when the buffer holds no segment.
pub fn scan_last_cmds(buf: &[u8]) -> (r: Vec<usize>)
    ensures
        r@.map_values(|x: usize| x as int) == spec_scan(buf@),
        forall|k: int| 0 <= k < r@.len() ==> 1 <= #[trigger] r@[k] && r@[k] < buf@.len(),
{
    let mut indexs: Vec<usize> = Vec::new();
    if buf.len() <= 1 {
        assert(forall|p: int| !sentinel_at(buf@, p));
        assert(indexs@.map_values(|x: usize| x as int) =~= Seq::<int>::empty());
        return indexs;
    }
    let mut index: usize = buf.len() - 1;
    while index >= 1
        invariant
            index <= buf@.len() - 1,
            scan_from(buf@, buf@.len() - 1) == indexs@.map_values(|x: usize| x as int)
                + scan_from(buf@, index as int),
            forall|p: int| index <= p ==> !sentinel_at(buf@, p),
            forall|k: int| 0 <= k < indexs@.len()
                ==> 1 <= #[trigger] indexs@[k] && indexs@[k] < buf@.len(),
        decreases index,
    {
        let ghost done0 = indexs@.map_values(|x: usize| x as int);
        if buf[index - 1] == B_HASH && buf[index] == B_GT {
            assert(sentinel_at(buf@, index - 1));
            assert(has_sentinel(buf@));
            assert(scan_from(buf@, index as int) =~= Seq::<int>::empty());
            assert(spec_scan(buf@) =~= done0);
            return indexs;
        } else if buf[index - 1] == B_NL {
            indexs.push(index);
            proof {
                assert(indexs@.map_values(|x: usize| x as int)
                    =~= done0.push(index as int));
                assert(done0 + (seq![index as int] + scan_from(buf@, index - 1))
                    =~= done0.push(index as int) + scan_from(buf@, index - 1));
            }
        }
        assert(!sentinel_at(buf@, index - 1));
        index = index - 1;
    }
    // every pair was examined and none was the sentinel: no segment
    assert(forall|p: int| !sentinel_at(buf@, p));
    assert(!has_sentinel(buf@));
    let empty: Vec<usize> = Vec::new();
    assert(empty@.map_values(|x: usize| x as int) =~= Seq::<int>::empty());
    empty
}

/// A positive boundary marks a sentinel.
proof fn lemma_boundary_from_sound(buf: Seq<u8>, index: int)
    requires
        index <= buf.len() - 1,
    ensures
        boundary_from(buf, index) == 0 || sentinel_at(buf, boundary_from(buf, index)),
        boundary_from(buf, index) >= 0,
    decreases index,
{
    if index <= 1 {
    } else if buf[index - 1] == B_HASH && buf[index] == B_GT {
    } else {
        lemma_boundary_from_sound(buf, index - 1);
    }
}

/// A buffer with no sentinel past its first byte has boundary 0.
proof fn lemma_boundary_from_zero(buf: Seq<u8>, index: int)
    requires
        index <= buf.len() - 1,
        forall|p: int| 1 <= p ==> !sentinel_at(buf, p),
    ensures
        boundary_from(buf, index) == 0,
    decreases index,
{
    if index <= 1 {
    } else {
        assert(!sentinel_at(buf, index - 1));
        lemma_boundary_from_zero(buf, index - 1);
    }
}

/// The sentinel pair stands nowhere in the bytes.
pub open spec fn pair_free(t: Seq<u8>) -> bool {
    forall|j: int| 0 <= j && j + 1 < t.len() ==> !(#[trigger] t[j] == B_HASH && t[j + 1]
        == B_GT)
}

/// A well-formed written command line: newline-terminated, no internal
/// line break, and nowhere the sentinel pair.
pub open spec fn line_ok(l: Seq<u8>) -> bool {
    &&& l.len() > 0
    &&& l.last() == B_NL
    &&& forall|j: int| 0 <= j < l.len() - 1 ==> #[trigger] l[j] != B_NL
    &&& pair_free(l)
}

/// The written lines, concatenated.
pub open spec fn cat_lines(ls: Seq<Seq<u8>>) -> Seq<u8>
    decreases ls.len(),
{
    if ls.len() == 0 {
        Seq::empty()
    } else {
        cat_lines(ls.drop_last()) + ls.last()
    }
}

/// The lines' start offsets, newest first, when the first line starts
/// at `base`.
pub open spec fn line_starts_rev(base: int, ls: Seq<Seq<u8>>) -> Seq<int>
    decreases ls.len(),
{
    if ls.len() == 0 {
        Seq::empty()
    } else {
        seq![base + cat_lines(ls.drop_last()).len()] + line_starts_rev(base, ls.drop_last())
    }
}

/// The concatenation can also be peeled from the front.
pub proof fn lemma_cat_lines_cons(ms: Seq<Seq<u8>>)
    requires
        ms.len() > 0,
    ensures
        cat_lines(ms) == ms.first() + cat_lines(ms.drop_first()),
    decreases ms.len(),
{
    if ms.len() == 1 {
        assert(ms.drop_last() =~= Seq::<Seq<u8>>::empty());
        assert(ms.drop_first() =~= Seq::<Seq<u8>>::empty());
        assert(cat_lines(ms) =~= ms.first() + cat_lines(ms.drop_first()));
    } else {
        lemma_cat_lines_cons(ms.drop_last());
        assert(ms.drop_last().first() == ms.first());
        assert(ms.drop_last().drop_first() =~= ms.drop_first().drop_last());
        assert(ms.drop_first().last() == ms.last());
        assert(cat_lines(ms) =~= ms.first() + cat_lines(ms.drop_first()));
    }
}

/// Each line occupies its own span of the concatenation: the bytes
/// from the end of the lines before it, for its length.
pub proof fn lemma_cat_lines_piece(ms: Seq<Seq<u8>>, i: int)
    requires
        0 <= i < ms.len(),
    ensures
        cat_lines(ms.take(i)).len() + ms[i].len() <= cat_lines(ms).len(),
        cat_lines(ms).subrange(
            cat_lines(ms.take(i)).len() as int,
            cat_lines(ms.take(i)).len() + ms[i].len() as int,
        ) == ms[i],
    decreases ms.len(),
{
    if i == ms.len() - 1 {
        assert(ms.take(i) =~= ms.drop_last());
        assert(cat_lines(ms).subrange(
            cat_lines(ms.drop_last()).len() as int,
            cat_lines(ms.drop_last()).len() + ms[i].len() as int,
        ) =~= ms[i]);
    } else {
        let md = ms.drop_last();
        lemma_cat_lines_piece(md, i);
        assert(ms.take(i) =~= md.take(i));
        let a = cat_lines(md.take(i)).len() as int;
        let b = a + ms[i].len() as int;
        assert(cat_lines(ms).subrange(a, b) =~= cat_lines(md).subrange(a, b));
    }
}

/// The offset list pairs each line with its span's start: entry `k`
/// is the start of line `len - 1 - k` (the scan walks backward).
pub proof fn lemma_line_starts_at(base: int, ls: Seq<Seq<u8>>, k: int)
    requires
        0 <= k < ls.len(),
    ensures
        line_starts_rev(base, ls)[k] == base + cat_lines(ls.take(ls.len() - 1 - k)).len(),
    decreases ls.len(),
{
    if k == 0 {
        assert(ls.take(ls.len() - 1) =~= ls.drop_last());
    } else {
        lemma_line_starts_len(base, ls.drop_last());
        lemma_line_starts_at(base, ls.drop_last(), k - 1);
        assert(line_starts_rev(base, ls)[k] == line_starts_rev(base, ls.drop_last())[k - 1]);
        assert(ls.drop_last().take(ls.len() - 1 - k) =~= ls.take(ls.len() - 1 - k));
    }
}

/// There is one start offset per line.
pub proof fn lemma_line_starts_len(base: int, ls: Seq<Seq<u8>>)
    ensures
        line_starts_rev(base, ls).len() == ls.len(),
    decreases ls.len(),
{
    if ls.len() > 0 {
        lemma_line_starts_len(base, ls.drop_last());
    }
}

/// Scanning backward through a region holding no sentinel and no line
/// break collects nothing and finds no boundary.
proof fn lemma_scan_quiet(buf: Seq<u8>, hi: int, lo: int)
    requires
        1 <= lo <= hi <= buf.len() - 1,
        forall|j: int| lo <= j < hi ==> #[trigger] buf[j] != B_NL,
        forall|j: int| lo <= j < hi ==> !(#[trigger] buf[j] == B_HASH && buf[j + 1] == B_GT),
    ensures
        scan_from(buf, hi) == scan_from(buf, lo),
        boundary_from(buf, hi) == boundary_from(buf, lo),
    decreases hi - lo,
{
    if hi > lo {
        assert(buf[hi - 1] != B_NL);
        assert(!(buf[hi - 1] == B_HASH && buf[hi] == B_GT));
        lemma_scan_quiet(buf, hi - 1, lo);
    }
}

/// The backward scans read only the bytes up to the cursor: they agree
/// on a common prefix.
proof fn lemma_scan_prefix(buf: Seq<u8>, buf2: Seq<u8>, i: int)
    requires
        i < buf.len(),
        i < buf2.len(),
        forall|j: int| 0 <= j <= i ==> buf[j] == buf2[j],
    ensures
        scan_from(buf, i) == scan_from(buf2, i),
        boundary_from(buf, i) == boundary_from(buf2, i),
    decreases i,
{
    if i > 0 {
        lemma_scan_prefix(buf, buf2, i - 1);
    }
}

/// A non-empty concatenation of well-formed lines ends in a line break.
proof fn lemma_cat_lines_last(ls: Seq<Seq<u8>>)
    requires
        ls.len() > 0,
        forall|i: int| 0 <= i < ls.len() ==> line_ok(#[trigger] ls[i]),
    ensures
        cat_lines(ls).len() > 0,
        cat_lines(ls).last() == B_NL,
{
    assert(line_ok(ls.last()));
    assert(cat_lines(ls).last() == ls.last().last());
}

/// Reading a written segment back: in a buffer made of a sentinel-free
/// (possibly empty) prefix, a segment header, and well-formed command
/// lines, the backward scan stops at the header's sentinel — the
/// boundary stands exactly where the segment began — and collects
/// exactly the lines' start offsets, newest first.
pub proof fn lemma_scan_of_segment(pre: Seq<u8>, user: Seq<u8>, ls: Seq<Seq<u8>>)
    requires
        pair_free(pre),
        forall|j: int| 0 <= j < user.len() ==> #[trigger] user[j] != B_NL,
        pair_free(user),
        forall|i: int| 0 <= i < ls.len() ==> line_ok(#[trigger] ls[i]),
    ensures
        ({
            let buf = pre + crate::segment_header(user) + cat_lines(ls);
            let base = pre.len() as int + crate::segment_header(user).len() as int;
            &&& spec_boundary(buf) == pre.len()
            &&& spec_scan(buf) == line_starts_rev(base, ls)
        }),
    decreases ls.len(),
{
    let hdr = crate::segment_header(user);
    let base = pre.len() as int + hdr.len() as int;
    let buf = pre + hdr + cat_lines(ls);
    assert(buf[pre.len() as int] == hdr[0]);
    assert(buf[pre.len() as int + 1] == hdr[1]);
    assert(sentinel_at(buf, pre.len() as int));
    assert(has_sentinel(buf));
    if ls.len() == 0 {
        assert(buf =~= pre + hdr);
        assert(buf.len() == base);
        let lo = pre.len() as int + 1;
        let hi = base - 1;
        assert forall|j: int| lo <= j < hi implies #[trigger] buf[j] != B_NL by {
            assert(buf[j] == hdr[j - pre.len()]);
        }
        assert forall|j: int| lo <= j < hi implies !(#[trigger] buf[j] == B_HASH && buf[j + 1]
            == B_GT) by {
            assert(buf[j] == hdr[j - pre.len()]);
            assert(buf[j + 1] == hdr[j + 1 - pre.len()]);
        }
        lemma_scan_quiet(buf, hi, lo);
        assert(buf[lo - 1] == hdr[0]);
        assert(buf[lo] == hdr[1]);
        assert(scan_from(buf, lo) =~= Seq::<int>::empty());
        assert(boundary_from(buf, lo) == pre.len());
    } else {
        let ls0 = ls.drop_last();
        let l = ls.last();
        assert(line_ok(l));
        let buf0 = pre + hdr + cat_lines(ls0);
        lemma_scan_of_segment(pre, user, ls0);
        assert(cat_lines(ls) == cat_lines(ls0) + l);
        assert(buf =~= buf0 + l);
        let s_l = buf0.len() as int;
        assert(s_l == base + cat_lines(ls0).len());
        let hi = buf.len() as int - 1;
        assert forall|j: int| s_l <= j < hi implies #[trigger] buf[j] != B_NL by {
            assert(buf[j] == l[j - s_l]);
        }
        assert forall|j: int| s_l <= j < hi implies !(#[trigger] buf[j] == B_HASH && buf[j + 1]
            == B_GT) by {
            assert(buf[j] == l[j - s_l]);
            assert(buf[j + 1] == l[j + 1 - s_l]);
        }
        lemma_scan_quiet(buf, hi, s_l);
        // the byte before the last line is the previous line break
        if ls0.len() == 0 {
            assert(buf[s_l - 1] == hdr.last());
        } else {
            lemma_cat_lines_last(ls0);
            assert(buf[s_l - 1] == cat_lines(ls0).last());
        }
        assert(buf[s_l - 1] == B_NL);
        assert(scan_from(buf, s_l) == seq![s_l] + scan_from(buf, s_l - 1));
        assert(boundary_from(buf, s_l) == boundary_from(buf, s_l - 1));
        assert forall|j: int| 0 <= j <= s_l - 1 implies buf[j] == buf0[j] by {}
        lemma_scan_prefix(buf, buf0, s_l - 1);
        assert(buf0[pre.len() as int] == hdr[0]);
        assert(buf0[pre.len() as int + 1] == hdr[1]);
        assert(sentinel_at(buf0, pre.len() as int));
        assert(has_sentinel(buf0));
        assert(scan_from(buf0, s_l - 1) == spec_scan(buf0));
        assert(spec_scan(buf) =~= line_starts_rev(base, ls));
    }
}

/// Truncation is idempotent on a log that holds at most one sentinel:
/// resetting an already-reset (or empty, or sentinel-free) log is a
/// no-op.  A log holding several segment headers is out of scope here:
/// each reset removes one more segment.
pub proof fn lemma_truncate_idempotent(buf: Seq<u8>)
    requires
        forall|p: int, q: int| sentinel_at(buf, p) && sentinel_at(buf, q) ==> p == q,
    ensures
        spec_truncated(spec_truncated(buf)) == spec_truncated(buf),
{
    let b = spec_boundary(buf);
    if buf.len() == 0 {
    } else {
        lemma_boundary_from_sound(buf, buf.len() - 1);
        if b > 0 {
            let t = buf.take(b);
            assert forall|p: int| 1 <= p implies !sentinel_at(t, p) by {
                if sentinel_at(t, p) {
                    assert(t[p] == buf[p]);
                    assert(t[p + 1] == buf[p + 1]);
                    assert(sentinel_at(buf, p));
                    assert(sentinel_at(buf, b));
                    assert(p == b);
                }
            }
            if t.len() > 0 {
                lemma_boundary_from_zero(t, t.len() - 1);
            }
        }
    }
}

} // verus!
