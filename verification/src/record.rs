//! The record pass: walk the history lines newest first, parse and
//! filter each, test it against the log's last segment, and build the
//! bytes to append to the log together with the plain-text echo of what
//! was written.

use vstd::prelude::*;
use crate::B_NL;
use crate::segment_header;
use crate::is_transparent;
use crate::transparent_token;
use crate::B_HASH;
use crate::B_GT;
use crate::is_ascii_ws;
use crate::bytes::spec_split;
use crate::bytes::split_bytes;
use crate::bytes::spec_tokens;
use crate::bytes::tokenize;
use crate::bytes::views_of;
use crate::bytes::append_slice;
use crate::bytes::tail_tokens;
use crate::bytes::token_ws_free;
use crate::bytes::lemma_tokens_ws_free;
use crate::scan::spec_scan;
use crate::scan::scan_last_cmds;
use crate::scan::pair_free;
use crate::scan::line_ok;
use crate::scan::cat_lines;
use crate::scan::line_starts_rev;
use crate::scan::lemma_cat_lines_cons;
use crate::scan::lemma_cat_lines_piece;
use crate::scan::lemma_line_starts_at;
use crate::scan::lemma_line_starts_len;
use crate::scan::lemma_scan_of_segment;
use crate::scan::spec_boundary;
use crate::is_ws;
use crate::dup::spec_any_dup;
use crate::dup::any_dup;
use crate::dup::spec_is_dup;
use crate::dup::token_matches_at;
use crate::dup::skip_ws_from;
use crate::bytes::lemma_tokens_nonempty;
use crate::ignore::IgnoreSet;
use crate::ignore::ignore_set_model;
use crate::ignore::spec_ignore;
use crate::ignore::ignore;

verus! {

/// The per-invocation configuration of a record pass.
pub ghost struct RecCfg {
    /// The ignore set's names.
    pub skip: Set<Seq<u8>>,
    /// Tokens 1..cmd_index of a history line are its index and
    /// date/time fields; the command starts at cmd_index.
    pub cmd_index: int,
    /// Smart filtering disabled: every command is considered.
    pub no_smart: bool,
    /// Number of valid commands to record (count mode).
    pub valid_n: int,
    /// When positive: record only this ordinal, counted from the end
    /// over the parseable lines (index mode).
    pub valid_i: int,
    /// The user name written in the segment header.
    pub user: Seq<u8>,
    /// The existing log's bytes.
    pub log: Seq<u8>,
    /// The command-line start offsets of the log's last segment.
    pub offsets: Seq<int>,
}

/// The running state of a record pass.
pub ghost struct RecState {
    /// Lines counted so far.
    pub n: int,
    /// The segment header has been written.
    pub sep_done: bool,
    /// Bytes to append to the log.
    pub append: Seq<u8>,
    /// The echo of the commands written.
    pub echo: Seq<u8>,
}

/// The pass's starting state.
pub open spec fn rec_init() -> RecState {
    RecState { n: 0, sep_done: false, append: Seq::empty(), echo: Seq::empty() }
}

/// How many lines the pass counts before it stops.
pub open spec fn rec_limit(cfg: RecCfg) -> int {
    if cfg.valid_i > 0 {
        cfg.valid_i
    } else {
        cfg.valid_n
    }
}

/// The non-transparent tokens, each followed by one space.
pub open spec fn joined_cmds(toks: Seq<Seq<u8>>) -> Seq<u8>
    decreases toks.len(),
{
    if toks.len() == 0 {
        Seq::empty()
    } else if is_transparent(toks.first()) {
        joined_cmds(toks.drop_first())
    } else {
        toks.first() + seq![32u8] + joined_cmds(toks.drop_first())
    }
}

/// The trailing annotation of a written command line: `# date time`
/// and a line break.  The command's tokens each carry one trailing
/// space, so one space separates the command from the comment marker.
pub open spec fn annotation(date: Seq<u8>, time: Seq<u8>) -> Seq<u8> {
    seq![35u8, 32u8] + date + seq![32u8] + time + seq![10u8]
}

/// One history line's effect on the pass's state.
///
/// A line with too few tokens is skipped (in index mode it still
/// counts).  A considered command passes the ignore filter (unless
/// bypassed) and duplicate detection; if it survives both it is
/// emitted: the segment header first if none was written yet, then the
/// command's non-transparent tokens, then the annotation built from
/// the line's date and time fields.
pub open spec fn rec_step(cfg: RecCfg, st: RecState, line: Seq<u8>) -> RecState {
    let toks = spec_tokens(line);
    if toks.len() <= cfg.cmd_index {
        st
    } else {
        let cmds = toks.skip(cfg.cmd_index);
        let wanted = cfg.no_smart || !spec_ignore(cmds, cfg.skip);
        let considered = if cfg.valid_i > 0 {
            st.n == cfg.valid_i - 1
        } else {
            true
        };
        if considered && wanted && !spec_any_dup(cfg.log, cfg.offsets, cmds) {
            let head = if st.sep_done {
                Seq::<u8>::empty()
            } else {
                segment_header(cfg.user)
            };
            RecState {
                n: st.n + 1,
                sep_done: true,
                append: st.append + head + joined_cmds(cmds) + annotation(toks[1], toks[2]),
                echo: st.echo + joined_cmds(cmds) + seq![10u8],
            }
        } else if considered && wanted {
            RecState { n: st.n + 1, ..st }
        } else if cfg.valid_i > 0 {
            RecState { n: st.n + 1, ..st }
        } else {
            st
        }
    }
}

/// The record pass over the lines, newest first, stopping once the
/// count reaches the limit.
pub open spec fn spec_record(cfg: RecCfg, lines: Seq<Seq<u8>>, st: RecState) -> RecState
    decreases lines.len(),
{
    if lines.len() == 0 || st.n >= rec_limit(cfg) {
        st
    } else {
        spec_record(cfg, lines.drop_first(), rec_step(cfg, st, lines.first()))
    }
}

/// The history lines in processing order: the input split at line
/// breaks, the piece after the last break dropped, newest first.
pub open spec fn proc_lines(input: Seq<u8>) -> Seq<Seq<u8>> {
    spec_split(input, B_NL).drop_last().reverse()
}

/// The configuration a `record` call runs under.
pub open spec fn cfg_of(
    skip: Set<Seq<u8>>,
    cmd_index: int,
    no_smart: bool,
    valid_n: int,
    valid_i: int,
    user: Seq<u8>,
    log: Seq<u8>,
) -> RecCfg {
    RecCfg {
        skip,
        cmd_index,
        no_smart,
        valid_n,
        valid_i,
        user,
        log,
        offsets: spec_scan(log),
    }
}

/// The fixed first lines of a newly created log file: a shebang line
/// and an explanatory comment naming this tool.
pub open spec fn spec_preamble() -> Seq<u8> {
    seq![
        35u8, 33u8, 47u8, 98u8, 105u8, 110u8, 47u8, 98u8, 97u8, 115u8, 104u8, 10u8, 35u8,
        32u8, 84u8, 104u8, 105u8, 115u8, 32u8, 102u8, 105u8, 108u8, 101u8, 32u8, 105u8,
        115u8, 32u8, 103u8, 101u8, 110u8, 101u8, 114u8, 97u8, 116u8, 101u8, 100u8, 32u8,
        98u8, 121u8, 32u8, 104u8, 104u8, 44u8, 32u8, 115u8, 101u8, 101u8, 32u8, 119u8,
        119u8, 119u8, 46u8, 32u8, 102u8, 111u8, 114u8, 32u8, 100u8, 101u8, 116u8, 97u8,
        105u8, 108u8, 115u8, 46u8, 10u8,
    ]
}

/// Build the preamble written once when the log file is first created.
pub fn preamble() -> (r: Vec<u8>)
    ensures
        r@ == spec_preamble(),
{
    let r: Vec<u8> = vec![
        35u8, 33u8, 47u8, 98u8, 105u8, 110u8, 47u8, 98u8, 97u8, 115u8, 104u8, 10u8, 35u8,
        32u8, 84u8, 104u8, 105u8, 115u8, 32u8, 102u8, 105u8, 108u8, 101u8, 32u8, 105u8,
        115u8, 32u8, 103u8, 101u8, 110u8, 101u8, 114u8, 97u8, 116u8, 101u8, 100u8, 32u8,
        98u8, 121u8, 32u8, 104u8, 104u8, 44u8, 32u8, 115u8, 101u8, 101u8, 32u8, 119u8,
        119u8, 119u8, 46u8, 32u8, 102u8, 111u8, 114u8, 32u8, 100u8, 101u8, 116u8, 97u8,
        105u8, 108u8, 115u8, 46u8, 10u8,
    ];
    assert(r@ =~= spec_preamble());
    r
}

/// What a record pass produced: the bytes to append to the log, and
/// the echo of the commands written (empty when nothing was written).
pub struct RecordOut {
    /// Bytes to append to the log file.
    pub append: Vec<u8>,
    /// Plain-text echo of the commands written.
    pub echo: Vec<u8>,
}

/// Append the segment header for `user`.
fn push_header(dst: &mut Vec<u8>, user: &[u8])
    ensures
        final(dst)@ == old(dst)@ + segment_header(user@),
{
    dst.push(35);
    dst.push(62);
    dst.push(32);
    append_slice(dst, user);
    dst.push(10);
    assert(dst@ =~= old(dst)@ + segment_header(user@));
}

/// Append the non-transparent tokens, each followed by one space.
fn push_joined(dst: &mut Vec<u8>, cmds: &Vec<Vec<u8>>)
    ensures
        final(dst)@ == old(dst)@ + joined_cmds(views_of(cmds@)),
{
    let ghost vs = views_of(cmds@);
    proof {
        assert(vs.skip(0) =~= vs);
    }
    let mut c: usize = 0;
    while c < cmds.len()
        invariant
            c <= cmds@.len(),
            vs == views_of(cmds@),
            old(dst)@ + joined_cmds(vs) == dst@ + joined_cmds(vs.skip(c as int)),
        decreases cmds@.len() - c,
    {
        let ghost d0 = dst@;
        proof {
            assert(vs.skip(c as int).first() == cmds@[c as int]@);
            assert(vs.skip(c as int).drop_first() =~= vs.skip(c + 1));
        }
        let tok = &cmds[c];
        if !transparent_token(tok.as_slice()) {
            append_slice(dst, tok.as_slice());
            dst.push(32);
            proof {
                assert(dst@ =~= d0 + (cmds@[c as int]@ + seq![32u8]));
                assert(d0 + (cmds@[c as int]@ + seq![32u8]) + joined_cmds(vs.skip(c + 1))
                    =~= d0 + (vs.skip(c as int).first() + seq![32u8] + joined_cmds(
                    vs.skip(c + 1),
                )));
            }
        }
        c = c + 1;
    }
    proof {
        assert(vs.skip(vs.len() as int) =~= Seq::<Seq<u8>>::empty());
    }
}

/// Append the trailing annotation for the line's date and time fields.
fn push_annotation(dst: &mut Vec<u8>, date: &[u8], time: &[u8])
    ensures
        final(dst)@ == old(dst)@ + annotation(date@, time@),
{
    dst.push(35);
    dst.push(32);
    append_slice(dst, date);
    dst.push(32);
    append_slice(dst, time);
    dst.push(10);
    assert(dst@ =~= old(dst)@ + annotation(date@, time@));
}

/// Run a record pass: split the raw history into lines, walk them
/// newest first, and build the bytes to append and the echo, as
/// `spec_record` states.
#[verifier::loop_isolation(false)]
pub fn record(
    input: &[u8],
    log_buf: &[u8],
    user: &[u8],
    skip: &IgnoreSet,
    cmd_index: usize,
    no_smart: bool,
    valid_n: usize,
    valid_i: usize,
) -> (r: RecordOut)
    requires
        cmd_index >= 2,
    ensures
        ({
            let cfg = cfg_of(
                ignore_set_model(*skip),
                cmd_index as int,
                no_smart,
                valid_n as int,
                valid_i as int,
                user@,
                log_buf@,
            );
            let fin = spec_record(cfg, proc_lines(input@), rec_init());
            r.append@ == fin.append && r.echo@ == fin.echo
        }),
{
    let ghost cfg = cfg_of(
        ignore_set_model(*skip),
        cmd_index as int,
        no_smart,
        valid_n as int,
        valid_i as int,
        user@,
        log_buf@,
    );
    let offsets = scan_last_cmds(log_buf);
    let lines = split_bytes(input, B_NL);
    let ghost pl = proc_lines(input@);
    proof {
        assert(views_of(lines@).len() == spec_split(input@, B_NL).len());
        assert(pl.len() == lines@.len() - 1);
    }
    let mut n: usize = 0;
    let mut sep_done: bool = false;
    let mut append: Vec<u8> = Vec::new();
    let mut echo: Vec<u8> = Vec::new();
    let limit: usize = if valid_i > 0 {
        valid_i
    } else {
        valid_n
    };
    assert(limit as int == rec_limit(cfg));
    let mut j: usize = 0;
    proof {
        assert(pl.skip(0) =~= pl);
    }
    while j < lines.len() - 1 && n < limit
        invariant
            j <= pl.len(),
            n <= limit,
            spec_record(cfg, pl, rec_init()) == spec_record(
                cfg,
                pl.skip(j as int),
                (RecState { n: n as int, sep_done: sep_done, append: append@, echo: echo@ }),
            ),
        decreases pl.len() - j,
    {
        let ghost st0 = RecState { n: n as int, sep_done: sep_done, append: append@, echo: echo@ };
        let idx = lines.len() - 2 - j;
        proof {
            assert(pl.skip(j as int).first() == pl[j as int]);
            assert(pl.skip(j as int).drop_first() =~= pl.skip(j + 1));
            assert(pl[j as int] == spec_split(input@, B_NL).drop_last()[pl.len() - 1 - j]);
            assert(pl[j as int] == views_of(lines@)[idx as int]);
            assert(pl[j as int] == lines@[idx as int]@);
        }
        let ghost lv = pl[j as int];
        let line = &lines[idx];
        let toks = tokenize(line.as_slice());
        proof {
            assert(views_of(toks@) == spec_tokens(lv));
        }
        if toks.len() <= cmd_index {
            proof {
                assert(rec_step(cfg, st0, lv) == st0);
            }
        } else {
            let cmds = tail_tokens(&toks, cmd_index);
            let ghost cvs = views_of(cmds@);
            proof {
                assert(cvs == spec_tokens(lv).skip(cmd_index as int));
                assert(cvs.len() > 0);
            }
            let considered = if valid_i > 0 {
                n == valid_i - 1
            } else {
                true
            };
            let wanted = no_smart || !ignore(&cmds, skip);
            if considered && wanted {
                let dup = any_dup(log_buf, &offsets, &cmds);
                proof {
                    assert(offsets@.map_values(|x: usize| x as int) == cfg.offsets);
                }
                if !dup {
                    let ghost head = if sep_done {
                        Seq::<u8>::empty()
                    } else {
                        segment_header(user@)
                    };
                    if !sep_done {
                        push_header(&mut append, user);
                        sep_done = true;
                    } else {
                        proof {
                            assert(append@ =~= st0.append + head);
                        }
                    }
                    push_joined(&mut append, &cmds);
                    push_joined(&mut echo, &cmds);
                    let date = &toks[1];
                    let time = &toks[2];
                    proof {
                        assert(date@ == spec_tokens(lv)[1]);
                        assert(time@ == spec_tokens(lv)[2]);
                    }
                    push_annotation(&mut append, date.as_slice(), time.as_slice());
                    echo.push(10);
                    proof {
                        assert(echo@ =~= st0.echo + joined_cmds(cvs) + seq![10u8]);
                        assert(append@ =~= st0.append + head + joined_cmds(cvs) + annotation(
                            spec_tokens(lv)[1],
                            spec_tokens(lv)[2],
                        ));
                    }
                    n = n + 1;
                    proof {
                        assert(rec_step(cfg, st0, lv) == (RecState {
                            n: n as int,
                            sep_done: sep_done,
                            append: append@,
                            echo: echo@,
                        }));
                    }
                } else {
                    n = n + 1;
                    proof {
                        assert(rec_step(cfg, st0, lv) == (RecState {
                            n: n as int,
                            sep_done: sep_done,
                            append: append@,
                            echo: echo@,
                        }));
                    }
                }
            } else if valid_i > 0 {
                n = n + 1;
                proof {
                    assert(rec_step(cfg, st0, lv) == (RecState {
                        n: n as int,
                        sep_done: sep_done,
                        append: append@,
                        echo: echo@,
                    }));
                }
            } else {
                proof {
                    assert(rec_step(cfg, st0, lv) == st0);
                }
            }
        }
        j = j + 1;
    }
    proof {
        if j == pl.len() {
            assert(pl.skip(j as int) =~= Seq::<Seq<u8>>::empty());
        }
    }
    RecordOut { append, echo }
}

/// A helper premise: the line is unparseable, or its command already
/// stands in the log's last segment.
pub open spec fn line_short_or_dup(cfg: RecCfg, line: Seq<u8>) -> bool {
    ||| spec_tokens(line).len() <= cfg.cmd_index
    ||| spec_any_dup(cfg.log, cfg.offsets, spec_tokens(line).skip(cfg.cmd_index))
}

/// Idempotence of duplicate detection: when every parseable line of
/// the input already matches a command line of the log's last segment
/// — as after recording the same input once — a record pass writes
/// nothing: no command lines and no segment header.
pub proof fn lemma_record_all_duplicates(cfg: RecCfg, lines: Seq<Seq<u8>>, st: RecState)
    requires
        forall|idx: int| 0 <= idx < lines.len() ==> #[trigger] line_short_or_dup(
            cfg,
            lines[idx],
        ),
    ensures
        spec_record(cfg, lines, st).append == st.append,
        spec_record(cfg, lines, st).echo == st.echo,
    decreases lines.len(),
{
    if lines.len() == 0 || st.n >= rec_limit(cfg) {
    } else {
        let st1 = rec_step(cfg, st, lines.first());
        assert(line_short_or_dup(cfg, lines[0]));
        assert(st1.append == st.append && st1.echo == st.echo);
        assert(forall|idx: int|
            0 <= idx < lines.drop_first().len() ==> #[trigger] line_short_or_dup(
                cfg,
                lines.drop_first()[idx],
            ));
        lemma_record_all_duplicates(cfg, lines.drop_first(), st1);
    }
}

/// The line parses and survives the ignore filter (or the filter is
/// bypassed).
pub open spec fn line_qualifies(cfg: RecCfg, line: Seq<u8>) -> bool {
    &&& spec_tokens(line).len() > cfg.cmd_index
    &&& (cfg.no_smart || !spec_ignore(spec_tokens(line).skip(cfg.cmd_index), cfg.skip))
}

/// The command line a qualifying history line contributes to the log.
pub open spec fn line_out(cfg: RecCfg, line: Seq<u8>) -> Seq<u8> {
    joined_cmds(spec_tokens(line).skip(cfg.cmd_index)) + annotation(
        spec_tokens(line)[1],
        spec_tokens(line)[2],
    )
}

/// The command lines of the given history lines, concatenated in order.
pub open spec fn cat_outputs(cfg: RecCfg, ls: Seq<Seq<u8>>) -> Seq<u8>
    decreases ls.len(),
{
    if ls.len() == 0 {
        Seq::empty()
    } else {
        line_out(cfg, ls.first()) + cat_outputs(cfg, ls.drop_first())
    }
}

/// Round trip, write side: recording into a log with no prior segment
/// (no duplicate offsets), in count mode, with every line parseable and
/// unfiltered, writes exactly `min(limit - n, lines)` command lines —
/// one segment header first, then one newline-terminated command line
/// per history line, newest first.
pub proof fn lemma_round_trip_write(cfg: RecCfg, lines: Seq<Seq<u8>>, st: RecState)
    requires
        cfg.valid_i <= 0,
        cfg.offsets.len() == 0,
        st.n <= rec_limit(cfg),
        forall|i: int| 0 <= i < lines.len() ==> #[trigger] line_qualifies(cfg, lines[i]),
    ensures
        ({
            let m = if rec_limit(cfg) - st.n <= lines.len() {
                rec_limit(cfg) - st.n
            } else {
                lines.len() as int
            };
            let head = if !st.sep_done && m > 0 {
                segment_header(cfg.user)
            } else {
                Seq::<u8>::empty()
            };
            &&& spec_record(cfg, lines, st).n == st.n + m
            &&& spec_record(cfg, lines, st).append == st.append + head + cat_outputs(
                cfg,
                lines.take(m),
            )
        }),
    decreases lines.len(),
{
    let limit = rec_limit(cfg);
    let m = if limit - st.n <= lines.len() {
        limit - st.n
    } else {
        lines.len() as int
    };
    if lines.len() == 0 || st.n >= limit {
        assert(m == 0);
        assert(cat_outputs(cfg, lines.take(0)) =~= Seq::<u8>::empty());
        assert(st.append + Seq::<u8>::empty() + Seq::<u8>::empty() =~= st.append);
    } else {
        let first = lines.first();
        assert(line_qualifies(cfg, lines[0]));
        let cmds = spec_tokens(first).skip(cfg.cmd_index);
        assert(!spec_any_dup(cfg.log, cfg.offsets, cmds));
        let st1 = rec_step(cfg, st, first);
        let head = if st.sep_done {
            Seq::<u8>::empty()
        } else {
            segment_header(cfg.user)
        };
        assert(st1.n == st.n + 1 && st1.sep_done);
        assert(st1.append == st.append + head + joined_cmds(cmds) + annotation(
            spec_tokens(first)[1],
            spec_tokens(first)[2],
        ));
        let rest = lines.drop_first();
        assert(forall|i: int|
            0 <= i < rest.len() ==> #[trigger] line_qualifies(cfg, rest[i]));
        lemma_round_trip_write(cfg, rest, st1);
        let m1 = if limit - st1.n <= rest.len() {
            limit - st1.n
        } else {
            rest.len() as int
        };
        assert(m1 == m - 1);
        let fin = spec_record(cfg, lines, st);
        assert(fin == spec_record(cfg, rest, st1));
        assert(fin.n == st.n + m);
        assert(lines.take(m).first() == first);
        assert(lines.take(m).drop_first() =~= rest.take(m1));
        assert(cat_outputs(cfg, lines.take(m)) == line_out(cfg, first) + cat_outputs(
            cfg,
            rest.take(m1),
        ));
        assert(fin.append == st1.append + Seq::<u8>::empty() + cat_outputs(cfg, rest.take(m1)));
        assert(st.append + head + cat_outputs(cfg, lines.take(m))
            =~= st1.append + Seq::<u8>::empty() + cat_outputs(cfg, rest.take(m1)));
    }
}

/// What a command contributes to a written line: no line break, no
/// sentinel pair, and a space after every token.
proof fn lemma_joined_cmds_ok(toks: Seq<Seq<u8>>)
    requires
        forall|k: int| 0 <= k < toks.len() ==> token_ws_free(#[trigger] toks[k]),
        forall|k: int| 0 <= k < toks.len() ==> pair_free(#[trigger] toks[k]),
    ensures
        forall|j: int| 0 <= j < joined_cmds(toks).len() ==> #[trigger] joined_cmds(toks)[j]
            != B_NL,
        pair_free(joined_cmds(toks)),
        joined_cmds(toks).len() > 0 ==> joined_cmds(toks).last() == 32,
    decreases toks.len(),
{
    if toks.len() == 0 {
    } else {
        assert(forall|k: int| 0 <= k < toks.drop_first().len()
            ==> #[trigger] toks.drop_first()[k] == toks[k + 1]);
        lemma_joined_cmds_ok(toks.drop_first());
        if !is_transparent(toks.first()) {
            let t = toks.first();
            let rest = joined_cmds(toks.drop_first());
            let out = t + seq![32u8] + rest;
            assert(token_ws_free(t) && pair_free(t));
            assert forall|j: int| 0 <= j < out.len() implies #[trigger] out[j] != B_NL by {
                if j < t.len() {
                    assert(out[j] == t[j]);
                    assert(!is_ascii_ws(t[j]));
                } else if j == t.len() {
                    assert(out[j] == 32);
                } else {
                    assert(out[j] == rest[j - t.len() - 1]);
                }
            }
            assert forall|j: int| 0 <= j && j + 1 < out.len() implies !(#[trigger] out[j]
                == B_HASH && out[j + 1] == B_GT) by {
                if j + 1 < t.len() {
                    assert(out[j] == t[j] && out[j + 1] == t[j + 1]);
                } else if j + 1 == t.len() {
                    assert(out[j + 1] == 32);
                } else if j == t.len() {
                    assert(out[j] == 32);
                } else {
                    assert(out[j] == rest[j - t.len() - 1]);
                    assert(out[j + 1] == rest[j - t.len()]);
                }
            }
            if rest.len() == 0 {
                assert(out.last() == 32);
            } else {
                assert(out.last() == rest.last());
            }
        }
    }
}

/// The annotation is itself a well-formed line tail: it ends the
/// command line and holds no sentinel pair.
proof fn lemma_annotation_ok(date: Seq<u8>, time: Seq<u8>)
    requires
        token_ws_free(date),
        pair_free(date),
        token_ws_free(time),
        pair_free(time),
    ensures
        line_ok(annotation(date, time)),
        annotation(date, time)[0] == 35,
{
    let ann = annotation(date, time);
    let dl = date.len() as int;
    let tl = time.len() as int;
    assert(ann.len() == 4 + dl + tl);
    assert(ann.last() == 10);
    assert forall|j: int| 0 <= j < ann.len() - 1 implies #[trigger] ann[j] != B_NL by {
        if j < 2 {
        } else if j < 2 + dl {
            assert(ann[j] == date[j - 2]);
            assert(!is_ascii_ws(date[j - 2]));
        } else if j == 2 + dl {
            assert(ann[j] == 32);
        } else {
            assert(ann[j] == time[j - 3 - dl]);
            assert(!is_ascii_ws(time[j - 3 - dl]));
        }
    }
    assert forall|j: int| 0 <= j && j + 1 < ann.len() implies !(#[trigger] ann[j] == B_HASH
        && ann[j + 1] == B_GT) by {
        if j == 0 {
            assert(ann[1] == 32);
        } else if j == 1 {
            assert(ann[j] == 32);
        } else if j + 1 < 2 + dl {
            assert(ann[j] == date[j - 2] && ann[j + 1] == date[j - 1]);
        } else if j + 1 == 2 + dl {
            assert(ann[j + 1] == 32);
        } else if j == 2 + dl {
            assert(ann[j] == 32);
        } else if j + 1 < 3 + dl + tl {
            assert(ann[j] == time[j - 3 - dl] && ann[j + 1] == time[j - 2 - dl]);
        } else {
            assert(ann[j + 1] == 10);
        }
    }
}

/// A prefix without line breaks or sentinel pairs, followed by a
/// well-formed line that does not start with the sentinel's second
/// byte, is a well-formed line.
proof fn lemma_prefix_line_ok(p: Seq<u8>, l: Seq<u8>)
    requires
        forall|j: int| 0 <= j < p.len() ==> #[trigger] p[j] != B_NL,
        pair_free(p),
        line_ok(l),
        l[0] != B_GT,
    ensures
        line_ok(p + l),
{
    let out = p + l;
    assert(out.last() == l.last());
    assert forall|j: int| 0 <= j < out.len() - 1 implies #[trigger] out[j] != B_NL by {
        if j < p.len() {
            assert(out[j] == p[j]);
        } else {
            assert(out[j] == l[j - p.len()]);
        }
    }
    assert forall|j: int| 0 <= j && j + 1 < out.len() implies !(#[trigger] out[j] == B_HASH
        && out[j + 1] == B_GT) by {
        if j + 1 < p.len() {
            assert(out[j] == p[j] && out[j + 1] == p[j + 1]);
        } else if j + 1 == p.len() {
            assert(out[j + 1] == l[0]);
        } else {
            assert(out[j] == l[j - p.len()] && out[j + 1] == l[j + 1 - p.len()]);
        }
    }
}

/// No token of the line holds the sentinel pair.  Commands echoing the
/// sentinel into the log would break the backward scan; the round-trip
/// law assumes them absent.
pub open spec fn line_tokens_pair_free(line: Seq<u8>) -> bool {
    forall|k: int| 0 <= k < spec_tokens(line).len() ==> pair_free(
        #[trigger] spec_tokens(line)[k],
    )
}

/// A qualifying, sentinel-free history line contributes a well-formed
/// command line to the log.
proof fn lemma_line_out_ok(cfg: RecCfg, line: Seq<u8>)
    requires
        cfg.cmd_index >= 2,
        spec_tokens(line).len() > cfg.cmd_index,
        line_tokens_pair_free(line),
    ensures
        line_ok(line_out(cfg, line)),
{
    lemma_tokens_ws_free(line);
    let toks = spec_tokens(line);
    let cmds = toks.skip(cfg.cmd_index);
    assert forall|k: int| 0 <= k < cmds.len() implies token_ws_free(#[trigger] cmds[k])
        && pair_free(cmds[k]) by {
        assert(cmds[k] == toks[k + cfg.cmd_index]);
    }
    lemma_joined_cmds_ok(cmds);
    lemma_annotation_ok(toks[1], toks[2]);
    lemma_prefix_line_ok(joined_cmds(cmds), annotation(toks[1], toks[2]));
}

/// Concatenating each line's output, front first or back first, is the
/// same bytes.
proof fn lemma_cat_outputs_eq(cfg: RecCfg, ls: Seq<Seq<u8>>)
    ensures
        cat_lines(ls.map_values(|l: Seq<u8>| line_out(cfg, l))) == cat_outputs(cfg, ls),
    decreases ls.len(),
{
    let ms = ls.map_values(|l: Seq<u8>| line_out(cfg, l));
    if ls.len() == 0 {
        assert(ms =~= Seq::<Seq<u8>>::empty());
    } else {
        lemma_cat_outputs_eq(cfg, ls.drop_first());
        lemma_cat_lines_cons(ms);
        assert(ms.first() == line_out(cfg, ls.first()));
        assert(ms.drop_first() =~= ls.drop_first().map_values(|l: Seq<u8>| line_out(cfg, l)));
    }
}

/// Round trip, read side: record `N = min(valid_n, lines)` commands
/// into a log made of a sentinel-free prefix (the preamble, or nothing
/// when the file existed empty) and no prior segment; the backward
/// scan of prefix-plus-append then finds the new segment's header
/// exactly where the append began, and yields one start offset per
/// written command line, newest first.
pub proof fn lemma_round_trip_read(pre: Seq<u8>, cfg: RecCfg, lines: Seq<Seq<u8>>)
    requires
        cfg.valid_i <= 0,
        cfg.valid_n >= 1,
        cfg.cmd_index >= 2,
        cfg.offsets.len() == 0,
        lines.len() >= 1,
        pair_free(pre),
        forall|j: int| 0 <= j < cfg.user.len() ==> #[trigger] cfg.user[j] != B_NL,
        pair_free(cfg.user),
        forall|i: int| 0 <= i < lines.len() ==> #[trigger] line_qualifies(cfg, lines[i]),
        forall|i: int| 0 <= i < lines.len() ==> #[trigger] line_tokens_pair_free(lines[i]),
    ensures
        ({
            let fin = spec_record(cfg, lines, rec_init());
            let m = if cfg.valid_n <= lines.len() {
                cfg.valid_n
            } else {
                lines.len() as int
            };
            let buf = pre + fin.append;
            let base = pre.len() as int + segment_header(cfg.user).len() as int;
            &&& spec_boundary(buf) == pre.len()
            &&& spec_scan(buf) == line_starts_rev(
                base,
                lines.take(m).map_values(|l: Seq<u8>| line_out(cfg, l)),
            )
            &&& spec_scan(buf).len() == m
        }),
{
    lemma_round_trip_write(cfg, lines, rec_init());
    let fin = spec_record(cfg, lines, rec_init());
    let m = if cfg.valid_n <= lines.len() {
        cfg.valid_n
    } else {
        lines.len() as int
    };
    assert(m >= 1);
    assert(fin.append == Seq::<u8>::empty() + segment_header(cfg.user) + cat_outputs(
        cfg,
        lines.take(m),
    ));
    let ms = lines.take(m).map_values(|l: Seq<u8>| line_out(cfg, l));
    lemma_cat_outputs_eq(cfg, lines.take(m));
    assert forall|k: int| 0 <= k < ms.len() implies line_ok(#[trigger] ms[k]) by {
        assert(ms[k] == line_out(cfg, lines.take(m)[k]));
        assert(lines.take(m)[k] == lines[k]);
        assert(line_qualifies(cfg, lines[k]));
        lemma_line_out_ok(cfg, lines[k]);
    }
    lemma_scan_of_segment(pre, cfg.user, ms);
    let base = pre.len() as int + segment_header(cfg.user).len() as int;
    lemma_line_starts_len(base, ms);
    assert(pre + fin.append =~= pre + segment_header(cfg.user) + cat_lines(ms));
}

/// The first byte a command contributes is its first kept token's
/// first byte: never whitespace.
proof fn lemma_joined_first(ts: Seq<Seq<u8>>)
    requires
        forall|k: int| 0 <= k < ts.len() ==> #[trigger] ts[k].len() > 0,
        forall|k: int| 0 <= k < ts.len() ==> !is_ws(#[trigger] ts[k][0]),
    ensures
        joined_cmds(ts).len() > 0 ==> !is_ws(joined_cmds(ts)[0]),
    decreases ts.len(),
{
    if ts.len() > 0 {
        assert(forall|k: int| 0 <= k < ts.drop_first().len()
            ==> #[trigger] ts.drop_first()[k] == ts[k + 1]);
        lemma_joined_first(ts.drop_first());
        if !is_transparent(ts.first()) {
            let out = ts.first() + seq![32u8] + joined_cmds(ts.drop_first());
            assert(out[0] == ts[0][0]);
        }
    }
}

/// Walking a command's tokens over the bytes the writer lays down for
/// them — each kept token followed by one space, then the comment
/// marker — succeeds.
proof fn lemma_match_joined(buf: Seq<u8>, i: int, ts: Seq<Seq<u8>>)
    requires
        0 <= i,
        i + joined_cmds(ts).len() < buf.len(),
        buf.subrange(i, i + joined_cmds(ts).len() as int) == joined_cmds(ts),
        buf[i + joined_cmds(ts).len()] == B_HASH,
        forall|k: int| 0 <= k < ts.len() ==> token_ws_free(#[trigger] ts[k]),
        forall|k: int| 0 <= k < ts.len() ==> #[trigger] ts[k].len() > 0,
        forall|k: int| 0 <= k < ts.len() ==> !is_ws(#[trigger] ts[k][0]),
    ensures
        spec_is_dup(buf, ts, i),
    decreases ts.len(),
{
    let jn = joined_cmds(ts);
    if ts.len() == 0 {
        assert(buf[i] == B_HASH);
    } else {
        assert(forall|k: int| 0 <= k < ts.drop_first().len()
            ==> #[trigger] ts.drop_first()[k] == ts[k + 1]);
        if is_transparent(ts.first()) {
            lemma_match_joined(buf, i, ts.drop_first());
        } else {
            let t = ts.first();
            let rest = joined_cmds(ts.drop_first());
            assert forall|m: int| 0 <= m < t.len() implies buf[i + m] == t[m] by {
                assert(buf[i + m] == buf.subrange(i, i + jn.len() as int)[m]);
                assert(jn[m] == t[m]);
            }
            assert(buf.subrange(i, i + t.len() as int) =~= t);
            assert(token_matches_at(buf, i, t));
            let e = i + t.len() as int;
            assert(buf[e] == buf.subrange(i, i + jn.len() as int)[t.len() as int]);
            assert(buf[e] == 32);
            if rest.len() == 0 {
                assert(e + 1 == i + jn.len());
                assert(buf[e + 1] == B_HASH);
            } else {
                assert(buf[e + 1] == buf.subrange(i, i + jn.len() as int)[t.len() as int + 1]);
                assert(buf[e + 1] == rest[0]);
                lemma_joined_first(ts.drop_first());
            }
            assert(!is_ws(buf[e + 1]));
            assert(skip_ws_from(buf, e + 1) == e + 1);
            assert(skip_ws_from(buf, e) == e + 1);
            let i2 = e + 1;
            assert forall|m: int| 0 <= m < rest.len() implies buf[i2 + m] == rest[m] by {
                assert(buf[i2 + m] == buf.subrange(i, i + jn.len() as int)[t.len() as int + 1 + m]);
                assert(jn[t.len() as int + 1 + m] == rest[m]);
            }
            assert(buf.subrange(i2, i2 + rest.len() as int) =~= rest);
            assert(buf[i2 + rest.len()] == B_HASH);
            lemma_match_joined(buf, i2, ts.drop_first());
            assert(spec_is_dup(buf, ts, i));
        }
    }
}

/// Idempotence bridge: a command line the writer just produced matches
/// its own command tokens — duplicate detection at the line's start
/// offset succeeds, so re-recording the same command there finds a
/// duplicate.  (The detector's cursor also skips two non-ASCII
/// whitespace bytes; a token beginning with one of those would be
/// skipped over, so such tokens are assumed absent.)
pub proof fn lemma_written_line_matches_itself(
    buf: Seq<u8>,
    x: int,
    cfg: RecCfg,
    line: Seq<u8>,
)
    requires
        cfg.cmd_index >= 2,
        spec_tokens(line).len() > cfg.cmd_index,
        0 <= x,
        x + line_out(cfg, line).len() <= buf.len(),
        buf.subrange(x, x + line_out(cfg, line).len() as int) == line_out(cfg, line),
        forall|k: int| 0 <= k < spec_tokens(line).len() ==> !is_ws(
            #[trigger] spec_tokens(line)[k][0],
        ),
    ensures
        spec_is_dup(buf, spec_tokens(line).skip(cfg.cmd_index), x),
{
    lemma_tokens_ws_free(line);
    lemma_tokens_nonempty(line);
    let toks = spec_tokens(line);
    let cmds = toks.skip(cfg.cmd_index);
    let jn = joined_cmds(cmds);
    let lo = line_out(cfg, line);
    assert forall|k: int| 0 <= k < cmds.len() implies token_ws_free(#[trigger] cmds[k])
        && cmds[k].len() > 0 && !is_ws(cmds[k][0]) by {
        assert(cmds[k] == toks[k + cfg.cmd_index]);
    }
    assert forall|m: int| 0 <= m < jn.len() implies buf[x + m] == jn[m] by {
        assert(buf[x + m] == buf.subrange(x, x + lo.len() as int)[m]);
        assert(lo[m] == jn[m]);
    }
    assert(buf.subrange(x, x + jn.len() as int) =~= jn);
    assert(buf[x + jn.len()] == buf.subrange(x, x + lo.len() as int)[jn.len() as int]);
    assert(annotation(toks[1], toks[2])[0] == 35);
    assert(buf[x + jn.len()] == B_HASH);
    assert(x + jn.len() < buf.len());
    lemma_match_joined(buf, x, cmds);
}

/// Idempotence of duplicate detection, end to end: one pass writes
/// every line of the input into a log with no prior segment; a second
/// pass over the same input, against the grown log, writes nothing —
/// every command now matches the line the first pass laid down for it.
pub proof fn lemma_record_idempotent(
    pre: Seq<u8>,
    cfg: RecCfg,
    cfg2: RecCfg,
    lines: Seq<Seq<u8>>,
)
    requires
        cfg.valid_i <= 0,
        cfg.valid_n >= lines.len(),
        cfg.cmd_index >= 2,
        cfg.offsets.len() == 0,
        lines.len() >= 1,
        pair_free(pre),
        forall|j: int| 0 <= j < cfg.user.len() ==> #[trigger] cfg.user[j] != B_NL,
        pair_free(cfg.user),
        forall|i: int| 0 <= i < lines.len() ==> #[trigger] line_qualifies(cfg, lines[i]),
        forall|i: int| 0 <= i < lines.len() ==> #[trigger] line_tokens_pair_free(lines[i]),
        forall|i: int, k: int|
            0 <= i < lines.len() && 0 <= k < spec_tokens(lines[i]).len() ==> !is_ws(
                #[trigger] spec_tokens(lines[i])[k][0],
            ),
        cfg2.cmd_index == cfg.cmd_index,
        cfg2.log == pre + spec_record(cfg, lines, rec_init()).append,
        cfg2.offsets == spec_scan(cfg2.log),
    ensures
        spec_record(cfg2, lines, rec_init()).append == Seq::<u8>::empty(),
        spec_record(cfg2, lines, rec_init()).echo == Seq::<u8>::empty(),
{
    lemma_round_trip_read(pre, cfg, lines);
    lemma_round_trip_write(cfg, lines, rec_init());
    let fin = spec_record(cfg, lines, rec_init());
    let m = lines.len() as int;
    assert(lines.take(m) =~= lines);
    let ms = lines.map_values(|l: Seq<u8>| line_out(cfg, l));
    lemma_cat_outputs_eq(cfg, lines);
    assert(fin.append == Seq::<u8>::empty() + segment_header(cfg.user) + cat_outputs(
        cfg,
        lines.take(m),
    ));
    let base = pre.len() as int + segment_header(cfg.user).len() as int;
    assert(cfg2.log =~= pre + segment_header(cfg.user) + cat_lines(ms));
    assert(cfg2.offsets == line_starts_rev(base, ms));
    lemma_line_starts_len(base, ms);
    assert forall|idx: int| 0 <= idx < lines.len() implies #[trigger] line_short_or_dup(
        cfg2,
        lines[idx],
    ) by {
        assert(line_qualifies(cfg, lines[idx]));
        assert(ms[idx] == line_out(cfg, lines[idx]));
        lemma_cat_lines_piece(ms, idx);
        let x = base + cat_lines(ms.take(idx)).len() as int;
        assert(cfg2.log.len() == base + cat_lines(ms).len());
        assert(x + ms[idx].len() <= cfg2.log.len());
        assert forall|w: int| 0 <= w < ms[idx].len() implies cfg2.log[x + w] == ms[idx][w] by {
            assert(cfg2.log[x + w] == cat_lines(ms)[x + w - base]);
            assert(cat_lines(ms)[x + w - base] == cat_lines(ms).subrange(
                cat_lines(ms.take(idx)).len() as int,
                cat_lines(ms.take(idx)).len() + ms[idx].len() as int,
            )[w]);
        }
        assert(cfg2.log.subrange(x, x + ms[idx].len() as int) =~= ms[idx]);
        assert(line_out(cfg2, lines[idx]) == line_out(cfg, lines[idx]));
        lemma_written_line_matches_itself(cfg2.log, x, cfg2, lines[idx]);
        let k = lines.len() - 1 - idx;
        lemma_line_starts_at(base, ms, k);
        assert(ms.take(ms.len() - 1 - k) =~= ms.take(idx));
        assert(cfg2.offsets[k] == x);
        assert(spec_is_dup(cfg2.log, spec_tokens(lines[idx]).skip(cfg2.cmd_index), cfg2.offsets[k]));
        assert(spec_any_dup(cfg2.log, cfg2.offsets, spec_tokens(lines[idx]).skip(cfg2.cmd_index)));
    }
    lemma_record_all_duplicates(cfg2, lines, rec_init());
}

/// On an empty log nothing counts as a duplicate: the scan yields no
/// offsets, so no candidate can match one.
pub proof fn lemma_empty_log_no_dup(cfg: RecCfg, cmds: Seq<Seq<u8>>)
    requires
        cfg.log.len() == 0,
        cfg.offsets == spec_scan(cfg.log),
    ensures
        !spec_any_dup(cfg.log, cfg.offsets, cmds),
{
    assert(spec_scan(cfg.log).len() == 0);
}

} // verus!
