//! The ignore set (command names to suppress, from two colon-separated
//! environment lists) and the ignore filter's decision rules.

use vstd::prelude::*;
use crate::B_HASH;
use crate::prog_name;
use crate::nohup_name;
use crate::bytes::spec_split;
use crate::bytes::split_bytes;
use crate::bytes::views_of;
use crate::bytes::copy_bytes;

verus! {

/// The set of command names to suppress.  Backed by a hash set of an
/// outside crate, so the struct is opaque; `ignore_set_model` names
/// what it holds.
#[verifier::external_body]
pub struct IgnoreSet {
    set: hashbrown::HashSet<Vec<u8>>,
}

/// What the ignore set holds, as a set of byte sequences.
pub uninterp spec fn ignore_set_model(s: IgnoreSet) -> Set<Seq<u8>>;

/// Relies on hashbrown::HashSet::new: the new set is empty.
#[verifier::external_body]
pub fn ignore_set_new() -> (r: IgnoreSet)
    ensures
        ignore_set_model(r) == Set::<Seq<u8>>::empty(),
{
    IgnoreSet { set: hashbrown::HashSet::new() }
}

/// Relies on hashbrown::HashSet::insert: afterward the set holds the
/// value, and nothing else changed.
#[verifier::external_body]
pub fn ignore_set_insert(s: &mut IgnoreSet, v: Vec<u8>)
    ensures
        ignore_set_model(*final(s)) == ignore_set_model(*old(s)).insert(v@),
{
    s.set.insert(v);
}

/// Relies on hashbrown::HashSet::contains, with the vector element
/// borrowed as a byte slice: a membership test.
#[verifier::external_body]
pub fn ignore_set_contains(s: &IgnoreSet, v: &[u8]) -> (r: bool)
    ensures
        r == ignore_set_model(*s).contains(v@),
{
    s.set.contains(v)
}

/// The set of the names in a list of pieces.
pub open spec fn list_set(ts: Seq<Seq<u8>>) -> Set<Seq<u8>>
    decreases ts.len(),
{
    if ts.len() == 0 {
        Set::empty()
    } else {
        list_set(ts.drop_last()).insert(ts.last())
    }
}

/// The view of an optional environment value.
pub open spec fn opt_view(o: Option<&[u8]>) -> Option<Seq<u8>> {
    match o {
        Some(s) => Some(s@),
        None => None,
    }
}

/// The names an optional colon-separated list contributes.
pub open spec fn opt_names(o: Option<Seq<u8>>) -> Set<Seq<u8>> {
    match o {
        Some(s) => list_set(spec_split(s, 58)),
        None => Set::empty(),
    }
}

/// The ignore set two optional colon-separated lists yield: their
/// union, duplicates collapsed, names matched exactly.
pub open spec fn spec_ignore_names(h1: Option<Seq<u8>>, h2: Option<Seq<u8>>) -> Set<Seq<u8>> {
    opt_names(h1).union(opt_names(h2))
}

/// Insert every colon-separated piece of `s` into the set.
fn insert_list(set: &mut IgnoreSet, s: &[u8])
    ensures
        ignore_set_model(*final(set)) == ignore_set_model(*old(set)).union(
            list_set(spec_split(s@, 58)),
        ),
{
    let pieces = split_bytes(s, 58);
    let ghost ps = views_of(pieces@);
    let mut i: usize = 0;
    proof {
        assert(ps.take(0) =~= Seq::<Seq<u8>>::empty());
        assert(ignore_set_model(*set)
            =~= ignore_set_model(*old(set)).union(list_set(ps.take(0))));
    }
    while i < pieces.len()
        invariant
            i <= pieces@.len(),
            ps == views_of(pieces@),
            ignore_set_model(*set) == ignore_set_model(*old(set)).union(
                list_set(ps.take(i as int)),
            ),
        decreases pieces@.len() - i,
    {
        let ghost m0 = ignore_set_model(*set);
        let piece = copy_bytes(pieces[i].as_slice());
        ignore_set_insert(set, piece);
        proof {
            assert(ps.take(i + 1).drop_last() =~= ps.take(i as int));
            assert(ps.take(i + 1).last() == ps[i as int]);
            assert(ignore_set_model(*set)
                =~= ignore_set_model(*old(set)).union(list_set(ps.take(i + 1))));
        }
        i = i + 1;
    }
    proof {
        assert(ps.take(ps.len() as int) =~= ps);
    }
}

/// Build the ignore set from the two optional environment lists.
pub fn parse_hist_ignore(histignore: Option<&[u8]>, hhignore: Option<&[u8]>) -> (r: IgnoreSet)
    ensures
        ignore_set_model(r) == spec_ignore_names(opt_view(histignore), opt_view(hhignore)),
{
    let mut set = ignore_set_new();
    match histignore {
        Some(s) => {
            insert_list(&mut set, s);
            proof {
                assert(ignore_set_model(set)
                    =~= opt_names(opt_view(histignore)));
            }
        },
        None => {
            proof {
                assert(ignore_set_model(set)
                    =~= opt_names(opt_view(histignore)));
            }
        },
    }
    let ghost m1 = ignore_set_model(set);
    match hhignore {
        Some(s) => {
            insert_list(&mut set, s);
        },
        None => {},
    }
    proof {
        assert(ignore_set_model(set)
            =~= spec_ignore_names(opt_view(histignore), opt_view(hhignore)));
    }
    set
}

/// Some token of the command holds a redirection or pipe character.
pub open spec fn token_has_redirect(t: Seq<u8>) -> bool {
    exists|j: int| 0 <= j < t.len() && (t[j] == 62 || t[j] == 124)
}

/// Some token of the command holds a redirection or pipe character.
pub open spec fn has_redirect(cmds: Seq<Seq<u8>>) -> bool {
    exists|k: int| 0 <= k < cmds.len() && token_has_redirect(cmds[k])
}

/// The ignore filter's decision, in priority order: a comment or the
/// tool's own name is always suppressed; a backgrounded command or one
/// with a redirection or pipe is never suppressed; otherwise the first
/// token's membership in the ignore set decides.
pub open spec fn spec_ignore(cmds: Seq<Seq<u8>>, skip: Set<Seq<u8>>) -> bool
    recommends
        cmds.len() > 0,
{
    if (cmds[0].len() > 0 && cmds[0][0] == B_HASH) || cmds[0] == prog_name() {
        true
    } else if cmds[0] == nohup_name() || has_redirect(cmds) {
        false
    } else {
        skip.contains(cmds[0])
    }
}

/// Does the token hold `>` or `|`?
fn exec_token_has_redirect(t: &[u8]) -> (r: bool)
    ensures
        r == token_has_redirect(t@),
{
    let mut j: usize = 0;
    while j < t.len()
        invariant
            j <= t@.len(),
            forall|m: int| 0 <= m < j ==> !(t@[m] == 62 || t@[m] == 124),
        decreases t@.len() - j,
    {
        if t[j] == 62 || t[j] == 124 {
            assert(token_has_redirect(t@));
            return true;
        }
        j = j + 1;
    }
    false
}

/// Decide whether the command is suppressed, per `spec_ignore`.
#[verifier::loop_isolation(false)]
pub fn ignore(cmd: &Vec<Vec<u8>>, skip: &IgnoreSet) -> (r: bool)
    requires
        cmd@.len() > 0,
    ensures
        r == spec_ignore(views_of(cmd@), ignore_set_model(*skip)),
{
    let ghost vs = views_of(cmd@);
    proof {
        assert(vs[0] == cmd@[0]@);
    }
    let first = &cmd[0];
    if first.len() > 0 && first[0] == B_HASH {
        return true;
    }
    if first.len() == 2 && first[0] == 104 && first[1] == 104 {
        assert(first@ =~= prog_name());
        return true;
    }
    assert(first@ != prog_name());
    if first.len() == 5 && first[0] == 110 && first[1] == 111 && first[2] == 104
        && first[3] == 117 && first[4] == 112 {
        assert(first@ =~= nohup_name());
        return false;
    }
    assert(first@ != nohup_name());
    let mut k: usize = 0;
    while k < cmd.len()
        invariant
            k <= cmd@.len(),
            vs == views_of(cmd@),
            forall|m: int| 0 <= m < k ==> !token_has_redirect(vs[m]),
        decreases cmd@.len() - k,
    {
        if exec_token_has_redirect(cmd[k].as_slice()) {
            assert(token_has_redirect(vs[k as int]));
            assert(has_redirect(vs));
            return false;
        }
        k = k + 1;
    }
    assert(!has_redirect(vs));
    ignore_set_contains(skip, first.as_slice())
}

/// Rule 1 wins: a command whose first token starts with the comment
/// marker, or names this tool itself, is suppressed whatever the ignore
/// set holds — even when a force-record token is also present.
pub proof fn lemma_always_suppressed(cmds: Seq<Seq<u8>>, skip: Set<Seq<u8>>)
    requires
        cmds.len() > 0,
        (cmds[0].len() > 0 && cmds[0][0] == B_HASH) || cmds[0] == prog_name(),
    ensures
        spec_ignore(cmds, skip),
{
}

/// Force record: a command holding a redirection or pipe character is
/// never suppressed, whatever the ignore set holds, unless rule 1
/// already suppressed it.
pub proof fn lemma_force_record(cmds: Seq<Seq<u8>>, skip: Set<Seq<u8>>)
    requires
        cmds.len() > 0,
        has_redirect(cmds),
        !(cmds[0].len() > 0 && cmds[0][0] == B_HASH),
        cmds[0] != prog_name(),
    ensures
        !spec_ignore(cmds, skip),
{
}

} // verus!
