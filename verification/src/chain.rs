//! Chain emission: turning one alignment record and its edit scripts into
//! chain-format output units, with a strictly sequential chain-id counter
//! threaded through the whole stream.
//!
//! A chain carries a fixed score, the two sequence names and sizes, the
//! trimmed (strand-adjusted) alignment interval on each axis, and an
//! ordered list of `(ungapped_size, target_gap, query_gap)` block lines
//! terminated by a bare final ungapped size: a chain always begins and
//! ends with an ungapped-size line, never with a bare gap.

use vstd::prelude::*;

use crate::cigar::{
    axis_totals, blocks_query_gap_sum, blocks_size_sum, blocks_target_gap_sum, first_match,
    has_match, last_match_end, lemma_axis_dominations, lemma_axis_split,
    lemma_first_match_bounds, lemma_last_match_end_bounds, lemma_match_span,
    lemma_sum_measure_subrange, lemma_trimmed_sums, lemma_walk_accounting, lemma_walk_last_match,
    make_trimmed, matches_positive, query_from_delta, query_to_delta, scan_runs, sum_query,
    sum_target, target_from_delta, target_to_delta, trim_runs, trimmed, walk_blocks,
    walk_blocks_of, walk_final, BlockV, ChainBlock, CigarOp, CigarRun, RunMeasure,
};
use crate::paf::{line_well_formed, rec_of_line, rec_valid, PafRecord, RecV};
use crate::PafError;

verus! {

/// The fixed score written in every chain header.
pub const CHAIN_SCORE: usize = 255;

/// One output unit: a chain header plus its block lines.
#[derive(Debug, Clone, PartialEq)]
pub struct Chain {
    pub score: usize,
    pub target_name: String,
    pub target_size: usize,
    pub target_start: usize,
    pub target_end: usize,
    pub query_name: String,
    pub query_size: usize,
    pub query_rev: bool,
    pub query_start: usize,
    pub query_end: usize,
    pub id: usize,
    /// The `(ungapped_size, target_gap, query_gap)` lines.
    pub blocks: Vec<ChainBlock>,
    /// The mandatory bare ungapped size that closes the block list.
    pub final_size: usize,
}

/// The mathematical content of one chain.
pub struct ChainV {
    pub score: nat,
    pub target_name: Seq<char>,
    pub target_size: nat,
    pub target_start: nat,
    pub target_end: nat,
    pub query_name: Seq<char>,
    pub query_size: nat,
    pub query_rev: bool,
    pub query_start: nat,
    pub query_end: nat,
    pub id: nat,
    pub blocks: Seq<BlockV>,
    pub final_size: nat,
}

impl View for Chain {
    type V = ChainV;

    open spec fn view(&self) -> ChainV {
        ChainV {
            score: self.score as nat,
            target_name: self.target_name@,
            target_size: self.target_size as nat,
            target_start: self.target_start as nat,
            target_end: self.target_end as nat,
            query_name: self.query_name@,
            query_size: self.query_size as nat,
            query_rev: self.query_rev,
            query_start: self.query_start as nat,
            query_end: self.query_end as nat,
            id: self.id as nat,
            blocks: self.blocks@.map_values(|b: ChainBlock| b@),
            final_size: self.final_size as nat,
        }
    }
}

/// Whether the strand-dependent coordinate adjustment of a record by a
/// script's terminal deltas stays within machine bounds. These are exactly
/// the conditions under which every adjusted coordinate below is a valid
/// machine word.
pub open spec fn adj_coords_ok(rv: RecV, runs: Seq<CigarRun>) -> bool {
    &&& rv.target_begin + target_from_delta(runs) <= usize::MAX
    &&& target_to_delta(runs) <= rv.target_end
    &&& if rv.query_rev {
        &&& query_from_delta(runs) <= rv.query_end
        &&& rv.query_end - query_from_delta(runs) <= rv.query_length
        &&& rv.query_begin + query_to_delta(runs) <= rv.query_length
    } else {
        &&& rv.query_begin + query_from_delta(runs) <= usize::MAX
        &&& query_to_delta(runs) <= rv.query_end
    }
}

/// Adjusted target begin: the record's begin pushed past the trimmed
/// leading deletions.
pub open spec fn adj_target_start(rv: RecV, runs: Seq<CigarRun>) -> int {
    rv.target_begin + target_from_delta(runs) as int
}

/// Adjusted target end: the record's end pulled back over the trimmed
/// trailing deletions.
pub open spec fn adj_target_end(rv: RecV, runs: Seq<CigarRun>) -> int {
    rv.target_end - target_to_delta(runs)
}

/// Adjusted query begin. On the reverse strand, chain coordinates are
/// counted from the forward-strand tail of the query.
pub open spec fn adj_query_start(rv: RecV, runs: Seq<CigarRun>) -> int {
    if rv.query_rev {
        rv.query_length - (rv.query_end - query_from_delta(runs))
    } else {
        rv.query_begin + query_from_delta(runs) as int
    }
}

/// Adjusted query end, with the same strand convention.
pub open spec fn adj_query_end(rv: RecV, runs: Seq<CigarRun>) -> int {
    if rv.query_rev {
        rv.query_length - (rv.query_begin + query_to_delta(runs))
    } else {
        rv.query_end - query_to_delta(runs)
    }
}

/// The chain a record and one trimmable script denote, under chain id
/// `id`. Meaningful when `has_match(runs)` and `adj_coords_ok(rv, runs)`.
pub open spec fn chain_of_script(rv: RecV, runs: Seq<CigarRun>, id: nat) -> ChainV {
    ChainV {
        score: CHAIN_SCORE as nat,
        target_name: rv.target_name,
        target_size: rv.target_length,
        target_start: adj_target_start(rv, runs) as nat,
        target_end: adj_target_end(rv, runs) as nat,
        query_name: rv.query_name,
        query_size: rv.query_length,
        query_rev: rv.query_rev,
        query_start: adj_query_start(rv, runs) as nat,
        query_end: adj_query_end(rv, runs) as nat,
        id,
        blocks: walk_blocks_of(trimmed(runs)),
        final_size: walk_final(trimmed(runs)),
    }
}

/// A script the emitter can process without leaving machine bounds: its
/// per-axis totals fit a machine word and, when it yields a chain at all,
/// the coordinate adjustment stays in range.
pub open spec fn script_emittable(rv: RecV, runs: Seq<CigarRun>) -> bool {
    &&& sum_query(runs) <= usize::MAX
    &&& sum_target(runs) <= usize::MAX
    &&& (has_match(runs) ==> adj_coords_ok(rv, runs))
}

/// The script synthesized for a record with no edit-script tag: the
/// overlapping span as one aligned run, then the excess length of the
/// longer axis as a single gap run. With a zero-length axis the aligned
/// run has length zero and the trim keeps it, so a degenerate chain is
/// still emitted: a deliberate compatibility choice, not an accident.
pub open spec fn synth_runs(qlen: nat, tlen: nat) -> Seq<CigarRun> {
    let m = if qlen <= tlen {
        qlen
    } else {
        tlen
    };
    let head = seq![CigarRun { count: m as usize, op: CigarOp::Aligned }];
    if qlen < tlen {
        head + seq![CigarRun { count: (tlen - qlen) as usize, op: CigarOp::Del }]
    } else if tlen < qlen {
        head + seq![CigarRun { count: (qlen - tlen) as usize, op: CigarOp::Ins }]
    } else {
        head
    }
}

/// Synthesize the edit script of a record that carries none.
pub fn synthesize(rec: &PafRecord) -> (v: Vec<CigarRun>)
    requires
        rec_valid(rec@),
    ensures
        v@ == synth_runs(
            (rec@.query_end - rec@.query_begin) as nat,
            (rec@.target_end - rec@.target_begin) as nat,
        ),
{
    let qlen = rec.query_end - rec.query_begin;
    let tlen = rec.target_end - rec.target_begin;
    let mut v: Vec<CigarRun> = Vec::new();
    let m = if qlen <= tlen {
        qlen
    } else {
        tlen
    };
    v.push(CigarRun { count: m, op: CigarOp::Aligned });
    if qlen < tlen {
        v.push(CigarRun { count: tlen - qlen, op: CigarOp::Del });
    } else if tlen < qlen {
        v.push(CigarRun { count: qlen - tlen, op: CigarOp::Ins });
    }
    proof {
        assert(v@ =~= synth_runs((rec@.query_end - rec@.query_begin) as nat, (rec@.target_end
            - rec@.target_begin) as nat));
    }
    v
}

/// Emit the chain of one script of a record, or nothing if the script has
/// no aligned run. Fails, fatally for the run, exactly when a total or an
/// adjusted coordinate leaves machine bounds.
pub fn emit_script(rec: &PafRecord, runs: &Vec<CigarRun>, id: usize) -> (r: Result<
    Option<Chain>,
    PafError,
>)
    requires
        rec_valid(rec@),
    ensures
        match r {
            Ok(Some(c)) => script_emittable(rec@, runs@) && has_match(runs@) && c@
                == chain_of_script(rec@, runs@, id as nat),
            Ok(None) => script_emittable(rec@, runs@) && !has_match(runs@),
            Err(e) => e == PafError::OutOfRange && !script_emittable(rec@, runs@),
        },
{
    let totals = match axis_totals(runs) {
        Some(t) => t,
        None => {
            return Err(PafError::OutOfRange);
        },
    };
    proof {
        lemma_axis_dominations(runs@);
    }
    let t = trim_runs(runs);
    proof {
        lemma_match_span(runs@);
        lemma_first_match_bounds(runs@);
        lemma_last_match_end_bounds(runs@);
    }
    if t.from >= t.to {
        return Ok(None);
    }
    let target_start = match rec.target_begin.checked_add(t.target_from) {
        Some(v) => v,
        None => {
            return Err(PafError::OutOfRange);
        },
    };
    if t.target_to > rec.target_end {
        return Err(PafError::OutOfRange);
    }
    let target_end = rec.target_end - t.target_to;
    let query_start: usize;
    let query_end: usize;
    if rec.query_rev {
        if t.query_from > rec.query_end {
            return Err(PafError::OutOfRange);
        }
        let kept = rec.query_end - t.query_from;
        if kept > rec.query_length {
            return Err(PafError::OutOfRange);
        }
        query_start = rec.query_length - kept;
        let tail = match rec.query_begin.checked_add(t.query_to) {
            Some(v) => v,
            None => {
                proof {
                    assert(rec@.query_begin + query_to_delta(runs@) > usize::MAX
                        >= rec@.query_length);
                }
                return Err(PafError::OutOfRange);
            },
        };
        if tail > rec.query_length {
            return Err(PafError::OutOfRange);
        }
        query_end = rec.query_length - tail;
    } else {
        query_start = match rec.query_begin.checked_add(t.query_from) {
            Some(v) => v,
            None => {
                return Err(PafError::OutOfRange);
            },
        };
        if t.query_to > rec.query_end {
            return Err(PafError::OutOfRange);
        }
        query_end = rec.query_end - t.query_to;
    }
    let kept_runs = make_trimmed(runs, t.from, t.to);
    proof {
        assert(kept_runs@ == trimmed(runs@));
        lemma_sum_measure_subrange(runs@, t.from as int, t.to as int, RunMeasure::Matched);
        lemma_sum_measure_subrange(runs@, t.from as int, t.to as int, RunMeasure::Insertion);
        lemma_sum_measure_subrange(runs@, t.from as int, t.to as int, RunMeasure::Deletion);
    }
    let (blocks, final_size) = walk_blocks(&kept_runs);
    let c = Chain {
        score: CHAIN_SCORE,
        target_name: rec.target_name.clone(),
        target_size: rec.target_length,
        target_start,
        target_end,
        query_name: rec.query_name.clone(),
        query_size: rec.query_length,
        query_rev: rec.query_rev,
        query_start,
        query_end,
        id,
        blocks,
        final_size,
    };
    Ok(Some(c))
}

/// The parsed runs of each edit script of a record, or `None` if any
/// script is malformed.
pub open spec fn parse_scripts(cs: Seq<Seq<char>>) -> Option<Seq<Seq<CigarRun>>>
    decreases cs.len(),
{
    if cs.len() == 0 {
        Some(Seq::empty())
    } else {
        match (parse_scripts(cs.drop_last()), scan_runs(cs.last())) {
            (Some(a), Some(r)) => Some(a.push(r)),
            _ => None,
        }
    }
}

pub proof fn lemma_parse_scripts_none(cs: Seq<Seq<char>>, i: int)
    requires
        0 <= i < cs.len(),
        scan_runs(cs[i]) is None,
    ensures
        parse_scripts(cs) is None,
    decreases cs.len(),
{
    if i < cs.len() - 1 {
        assert(cs.drop_last()[i] == cs[i]);
        lemma_parse_scripts_none(cs.drop_last(), i);
    }
}

pub proof fn lemma_parse_scripts_all_some(cs: Seq<Seq<char>>)
    requires
        forall|j: int| 0 <= j < cs.len() ==> scan_runs(#[trigger] cs[j]) is Some,
    ensures
        parse_scripts(cs) is Some,
        parse_scripts(cs)->0.len() == cs.len(),
        forall|j: int|
            0 <= j < cs.len() ==> #[trigger] parse_scripts(cs)->0[j] == scan_runs(cs[j])->0,
    decreases cs.len(),
{
    if cs.len() > 0 {
        assert(forall|j: int| 0 <= j < cs.len() - 1 ==> cs.drop_last()[j] == cs[j]);
        lemma_parse_scripts_all_some(cs.drop_last());
        assert(cs.last() == cs[cs.len() - 1]);
    }
}

/// The scripts a record is processed with: the parsed runs of its tags,
/// or, when it carries no tag, the single synthesized script.
pub open spec fn scripts_of_rec(rv: RecV) -> Option<Seq<Seq<CigarRun>>> {
    if rv.cigars.len() == 0 {
        Some(
            seq![
                synth_runs(
                    (rv.query_end - rv.query_begin) as nat,
                    (rv.target_end - rv.target_begin) as nat,
                )
            ],
        )
    } else {
        parse_scripts(rv.cigars)
    }
}

/// How many of a record's scripts yield a chain: those with an aligned
/// run. Each consumes one chain id; trimmed-to-empty scripts consume none.
pub open spec fn emit_count(ss: Seq<Seq<CigarRun>>) -> nat
    decreases ss.len(),
{
    if ss.len() == 0 {
        0
    } else {
        emit_count(ss.drop_last()) + if has_match(ss.last()) {
            1nat
        } else {
            0nat
        }
    }
}

pub proof fn lemma_emit_count_take_le(ss: Seq<Seq<CigarRun>>, k: int)
    requires
        0 <= k <= ss.len(),
    ensures
        emit_count(ss.take(k)) <= emit_count(ss),
    decreases ss.len() - k,
{
    if k < ss.len() {
        assert(ss.take(k + 1).drop_last() =~= ss.take(k));
        lemma_emit_count_take_le(ss, k + 1);
        assert(ss.take(ss.len() as int) =~= ss);
    } else {
        assert(ss.take(k) =~= ss);
    }
}

/// The chains of one record: one per script with an aligned run, ids
/// assigned sequentially from `id0` in script order.
pub open spec fn emit_scripts(rv: RecV, ss: Seq<Seq<CigarRun>>, id0: nat) -> Seq<ChainV>
    decreases ss.len(),
{
    if ss.len() == 0 {
        Seq::empty()
    } else {
        let prev = emit_scripts(rv, ss.drop_last(), id0);
        if has_match(ss.last()) {
            prev.push(chain_of_script(rv, ss.last(), (id0 + prev.len()) as nat))
        } else {
            prev
        }
    }
}

pub proof fn lemma_emit_scripts_len(rv: RecV, ss: Seq<Seq<CigarRun>>, id0: nat)
    ensures
        emit_scripts(rv, ss, id0).len() == emit_count(ss),
    decreases ss.len(),
{
    if ss.len() > 0 {
        lemma_emit_scripts_len(rv, ss.drop_last(), id0);
    }
}

/// A record all of whose scripts parse and can be emitted within machine
/// bounds, with enough id space left from `id0`.
pub open spec fn rec_emittable(rv: RecV, id0: nat) -> bool {
    &&& scripts_of_rec(rv) is Some
    &&& (forall|j: int|
        0 <= j < scripts_of_rec(rv)->0.len() ==> script_emittable(
            rv,
            #[trigger] scripts_of_rec(rv)->0[j],
        ))
    &&& id0 + emit_count(scripts_of_rec(rv)->0) <= usize::MAX
}

/// Convert one record into its chains, threading the chain-id counter:
/// the returned counter is the input counter plus the number of chains
/// emitted. Fails, fatally for the run, exactly when a script is
/// malformed, or a total, coordinate or chain id would leave machine
/// bounds.
pub fn chains_of_record(rec: &PafRecord, next_id: usize) -> (r: Result<
    (Vec<Chain>, usize),
    PafError,
>)
    requires
        rec_valid(rec@),
    ensures
        match r {
            Ok(p) => {
                &&& rec_emittable(rec@, next_id as nat)
                &&& p.0@.map_values(|c: Chain| c@) == emit_scripts(
                    rec@,
                    scripts_of_rec(rec@)->0,
                    next_id as nat,
                )
                &&& p.1 == next_id + emit_count(scripts_of_rec(rec@)->0)
            },
            Err(e) => {
                ||| (e == PafError::MalformedScript && scripts_of_rec(rec@) is None)
                ||| (e == PafError::OutOfRange && scripts_of_rec(rec@) is Some && !rec_emittable(
                    rec@,
                    next_id as nat,
                ))
            },
        },
{
    let mut scripts: Vec<Vec<CigarRun>> = Vec::new();
    if rec.cigars.len() == 0 {
        let s = synthesize(rec);
        proof {
            assert(scripts@.push(s).map_values(|v: Vec<CigarRun>| v@) =~= scripts_of_rec(
                rec@,
            )->0);
        }
        scripts.push(s);
    } else {
        let n = rec.cigars.len();
        let mut i: usize = 0;
        while i < n
            invariant
                0 <= i <= n == rec.cigars@.len(),
                rec@.cigars.len() == n,
                forall|j: int| 0 <= j < n ==> rec@.cigars[j] == #[trigger] rec.cigars@[j]@,
                parse_scripts(rec@.cigars.take(i as int)) == Some(
                    scripts@.map_values(|v: Vec<CigarRun>| v@),
                ),
            decreases n - i,
        {
            proof {
                assert(rec@.cigars.take(i + 1).drop_last() =~= rec@.cigars.take(i as int));
                assert(rec@.cigars.take(i + 1).last() == rec@.cigars[i as int]);
            }
            match crate::cigar::parse_cigar(rec.cigars[i].as_str()) {
                Ok(v) => {
                    proof {
                        assert(scripts@.push(v).map_values(|w: Vec<CigarRun>| w@)
                            =~= scripts@.map_values(|w: Vec<CigarRun>| w@).push(v@));
                    }
                    scripts.push(v);
                },
                Err(_) => {
                    proof {
                        lemma_parse_scripts_none(rec@.cigars, i as int);
                    }
                    return Err(PafError::MalformedScript);
                },
            }
            i = i + 1;
        }
        proof {
            assert(rec@.cigars.take(n as int) =~= rec@.cigars);
        }
    }
    let ghost ss = scripts_of_rec(rec@)->0;
    proof {
        assert(scripts_of_rec(rec@) == Some(scripts@.map_values(|v: Vec<CigarRun>| v@)));
        assert(ss == scripts@.map_values(|v: Vec<CigarRun>| v@));
        assert(ss.len() == scripts@.len());
        assert(forall|j: int| 0 <= j < ss.len() ==> #[trigger] ss[j] == scripts@[j]@);
    }
    let mut out: Vec<Chain> = Vec::new();
    let mut id = next_id;
    let m = scripts.len();
    let mut i: usize = 0;
    while i < m
        invariant
            0 <= i <= m == scripts@.len(),
            rec_valid(rec@),
            scripts_of_rec(rec@) == Some(ss),
            ss.len() == scripts@.len(),
            forall|j: int| 0 <= j < ss.len() ==> #[trigger] ss[j] == scripts@[j]@,
            forall|j: int| 0 <= j < i ==> script_emittable(rec@, #[trigger] ss[j]),
            out@.map_values(|c: Chain| c@) == emit_scripts(rec@, ss.take(i as int), next_id as nat),
            out@.len() == emit_count(ss.take(i as int)),
            id == next_id + emit_count(ss.take(i as int)),
        decreases m - i,
    {
        proof {
            assert(ss.take(i + 1).drop_last() =~= ss.take(i as int));
            assert(ss.take(i + 1).last() == ss[i as int]);
        }
        match emit_script(rec, &scripts[i], id) {
            Err(_) => {
                return Err(PafError::OutOfRange);
            },
            Ok(None) => {},
            Ok(Some(c)) => {
                proof {
                    assert(out@.push(c).map_values(|x: Chain| x@) =~= out@.map_values(
                        |x: Chain| x@,
                    ).push(c@));
                }
                out.push(c);
                id = match id.checked_add(1) {
                    Some(v) => v,
                    None => {
                        proof {
                            lemma_emit_count_take_le(ss, i + 1);
                        }
                        return Err(PafError::OutOfRange);
                    },
                };
            },
        }
        i = i + 1;
    }
    proof {
        assert(ss.take(m as int) =~= ss);
    }
    Ok((out, id))
}

/// The record views of a parsed stream.
pub open spec fn rec_views(rs: Seq<PafRecord>) -> Seq<RecV> {
    rs.map_values(|r: PafRecord| r@)
}

/// Chains one record contributes to the stream.
pub open spec fn count_of_rec(rv: RecV) -> nat {
    match scripts_of_rec(rv) {
        Some(ss) => emit_count(ss),
        None => 0,
    }
}

/// Chains a whole record stream contributes.
pub open spec fn count_all(rvs: Seq<RecV>) -> nat
    decreases rvs.len(),
{
    if rvs.len() == 0 {
        0
    } else {
        count_all(rvs.drop_last()) + count_of_rec(rvs.last())
    }
}

pub proof fn lemma_count_all_take_le(rvs: Seq<RecV>, k: int)
    requires
        0 <= k <= rvs.len(),
    ensures
        count_all(rvs.take(k)) <= count_all(rvs),
    decreases rvs.len() - k,
{
    if k < rvs.len() {
        assert(rvs.take(k + 1).drop_last() =~= rvs.take(k));
        lemma_count_all_take_le(rvs, k + 1);
        assert(rvs.take(rvs.len() as int) =~= rvs);
    } else {
        assert(rvs.take(k) =~= rvs);
    }
}

/// Every record's scripts parse.
pub open spec fn recs_scripts_ok(rvs: Seq<RecV>) -> bool {
    forall|i: int| 0 <= i < rvs.len() ==> scripts_of_rec(#[trigger] rvs[i]) is Some
}

/// A whole stream the emitter completes within machine bounds.
pub open spec fn recs_emittable(rvs: Seq<RecV>, id0: nat) -> bool {
    &&& recs_scripts_ok(rvs)
    &&& (forall|i: int, j: int|
        0 <= i < rvs.len() && 0 <= j < scripts_of_rec(#[trigger] rvs[i])->0.len()
            ==> script_emittable(rvs[i], #[trigger] scripts_of_rec(rvs[i])->0[j]))
    &&& id0 + count_all(rvs) <= usize::MAX
}

/// The chain stream of a record stream: each record's chains in input
/// order, ids strictly sequential from `id0` across the whole stream.
/// Records whose scripts all trim to empty contribute nothing and consume
/// no id.
pub open spec fn emit_all(rvs: Seq<RecV>, id0: nat) -> Seq<ChainV>
    decreases rvs.len(),
{
    if rvs.len() == 0 {
        Seq::empty()
    } else {
        let prev = emit_all(rvs.drop_last(), id0);
        prev + (match scripts_of_rec(rvs.last()) {
            Some(ss) => emit_scripts(rvs.last(), ss, (id0 + prev.len()) as nat),
            None => Seq::empty(),
        })
    }
}

pub proof fn lemma_emit_all_len(rvs: Seq<RecV>, id0: nat)
    ensures
        emit_all(rvs, id0).len() == count_all(rvs),
    decreases rvs.len(),
{
    if rvs.len() > 0 {
        lemma_emit_all_len(rvs.drop_last(), id0);
        match scripts_of_rec(rvs.last()) {
            Some(ss) => {
                lemma_emit_scripts_len(
                    rvs.last(),
                    ss,
                    (id0 + emit_all(rvs.drop_last(), id0).len()) as nat,
                );
            },
            None => {},
        }
    }
}

/// Convert a stream of records into the chain stream, threading the id
/// counter from `start_id`. Fails, fatally and with nothing emitted,
/// exactly when some record's script is malformed (first), or when a
/// total, coordinate or chain id would leave machine bounds.
pub fn process_records(recs: &Vec<PafRecord>, start_id: usize) -> (r: Result<
    (Vec<Chain>, usize),
    PafError,
>)
    requires
        forall|i: int| 0 <= i < recs@.len() ==> rec_valid(#[trigger] recs@[i]@),
    ensures
        match r {
            Ok(p) => {
                &&& recs_emittable(rec_views(recs@), start_id as nat)
                &&& p.0@.map_values(|c: Chain| c@) == emit_all(rec_views(recs@), start_id as nat)
                &&& p.1 == start_id + count_all(rec_views(recs@))
            },
            Err(e) => {
                ||| (e == PafError::MalformedScript && !recs_scripts_ok(rec_views(recs@)))
                ||| (e == PafError::OutOfRange && recs_scripts_ok(rec_views(recs@))
                    && !recs_emittable(rec_views(recs@), start_id as nat))
            },
        },
{
    let ghost rvs = rec_views(recs@);
    proof {
        assert(rvs.len() == recs@.len());
        assert(forall|i: int| 0 <= i < rvs.len() ==> #[trigger] rvs[i] == recs@[i]@);
    }
    let n = recs.len();
    let mut i: usize = 0;
    while i < n
        invariant
            0 <= i <= n == recs@.len(),
            rvs == rec_views(recs@),
            rvs.len() == n,
            forall|k: int| 0 <= k < rvs.len() ==> #[trigger] rvs[k] == recs@[k]@,
            forall|k: int| 0 <= k < i ==> scripts_of_rec(#[trigger] rvs[k]) is Some,
        decreases n - i,
    {
        let rec = &recs[i];
        if rec.cigars.len() == 0 {
            proof {
                assert(scripts_of_rec(rvs[i as int]) is Some);
            }
        } else {
            let m = rec.cigars.len();
            let mut j: usize = 0;
            while j < m
                invariant
                    0 <= j <= m == rec.cigars@.len(),
                    rec == recs@[i as int],
                    i < recs@.len(),
                    rvs == rec_views(recs@),
                    forall|k: int| 0 <= k < rvs.len() ==> #[trigger] rvs[k] == recs@[k]@,
                    forall|k: int|
                        0 <= k < j ==> scan_runs(#[trigger] rec@.cigars[k]) is Some,
                decreases m - j,
            {
                proof {
                    assert(rec@.cigars[j as int] == rec.cigars@[j as int]@);
                }
                match crate::cigar::parse_cigar(rec.cigars[j].as_str()) {
                    Ok(_) => {},
                    Err(_) => {
                        proof {
                            lemma_parse_scripts_none(rec@.cigars, j as int);
                            assert(scripts_of_rec(rvs[i as int]) is None);
                            assert(!recs_scripts_ok(rvs));
                        }
                        return Err(PafError::MalformedScript);
                    },
                }
                j = j + 1;
            }
            proof {
                lemma_parse_scripts_all_some(rec@.cigars);
                assert(scripts_of_rec(rvs[i as int]) is Some);
            }
        }
        i = i + 1;
    }
    proof {
        assert(recs_scripts_ok(rvs));
    }
    let mut out: Vec<Chain> = Vec::new();
    let mut id = start_id;
    let mut i2: usize = 0;
    while i2 < n
        invariant
            0 <= i2 <= n == recs@.len(),
            rvs == rec_views(recs@),
            rvs.len() == n,
            forall|k: int| 0 <= k < rvs.len() ==> #[trigger] rvs[k] == recs@[k]@,
            forall|k: int| 0 <= k < rvs.len() ==> rec_valid(#[trigger] rvs[k]),
            recs_scripts_ok(rvs),
            forall|k: int, j: int|
                0 <= k < i2 && 0 <= j < scripts_of_rec(#[trigger] rvs[k])->0.len()
                    ==> script_emittable(rvs[k], #[trigger] scripts_of_rec(rvs[k])->0[j]),
            out@.map_values(|c: Chain| c@) == emit_all(rvs.take(i2 as int), start_id as nat),
            out@.len() == count_all(rvs.take(i2 as int)),
            id == start_id + count_all(rvs.take(i2 as int)),
        decreases n - i2,
    {
        proof {
            assert(rvs.take(i2 + 1).drop_last() =~= rvs.take(i2 as int));
            assert(rvs.take(i2 + 1).last() == rvs[i2 as int]);
        }
        match chains_of_record(&recs[i2], id) {
            Ok((mut cs, id2)) => {
                proof {
                    let a = out@.map_values(|c: Chain| c@);
                    let b = cs@.map_values(|c: Chain| c@);
                    assert((out@ + cs@).map_values(|c: Chain| c@) =~= a + b);
                    lemma_emit_scripts_len(
                        rvs[i2 as int],
                        scripts_of_rec(rvs[i2 as int])->0,
                        id as nat,
                    );
                }
                out.append(&mut cs);
                id = id2;
            },
            Err(e) => {
                proof {
                    assert(scripts_of_rec(rvs[i2 as int]) is Some);
                    assert(e == PafError::OutOfRange);
                    assert(!rec_emittable(rvs[i2 as int], id as nat));
                    if recs_emittable(rvs, start_id as nat) {
                        assert(rvs.take(i2 + 1).drop_last() =~= rvs.take(i2 as int));
                        lemma_count_all_take_le(rvs, i2 + 1);
                        assert(count_all(rvs.take(i2 + 1)) == count_all(rvs.take(i2 as int))
                            + count_of_rec(rvs[i2 as int]));
                        assert(id + emit_count(scripts_of_rec(rvs[i2 as int])->0)
                            <= usize::MAX);
                        assert(rec_emittable(rvs[i2 as int], id as nat));
                    }
                }
                return Err(PafError::OutOfRange);
            },
        }
        i2 = i2 + 1;
    }
    proof {
        assert(rvs.take(n as int) =~= rvs);
    }
    Ok((out, id))
}

/// Every line of the stream is a well-formed record.
pub open spec fn all_lines_well_formed(ls: Seq<String>) -> bool {
    forall|i: int| 0 <= i < ls.len() ==> line_well_formed((#[trigger] ls[i])@)
}

/// The records a stream of well-formed lines denotes.
pub open spec fn recs_of_lines(ls: Seq<String>) -> Seq<RecV> {
    ls.map_values(|l: String| rec_of_line(l@))
}

/// Parse every line of a stream. Fails, fatally and before anything is
/// emitted, exactly when some line is not a well-formed record.
pub fn parse_records(lines: &Vec<String>) -> (r: Result<Vec<PafRecord>, PafError>)
    ensures
        match r {
            Ok(v) => {
                &&& all_lines_well_formed(lines@)
                &&& v@.len() == lines@.len()
                &&& forall|i: int|
                    0 <= i < v@.len() ==> (#[trigger] v@[i])@ == rec_of_line(lines@[i]@)
                &&& forall|i: int| 0 <= i < v@.len() ==> rec_valid((#[trigger] v@[i])@)
            },
            Err(e) => e == PafError::MalformedRecord && !all_lines_well_formed(lines@),
        },
{
    let n = lines.len();
    let mut out: Vec<PafRecord> = Vec::new();
    let mut i: usize = 0;
    while i < n
        invariant
            0 <= i <= n == lines@.len(),
            out@.len() == i,
            forall|k: int| 0 <= k < i ==> line_well_formed((#[trigger] lines@[k])@),
            forall|k: int| 0 <= k < i ==> (#[trigger] out@[k])@ == rec_of_line(lines@[k]@),
            forall|k: int| 0 <= k < i ==> rec_valid((#[trigger] out@[k])@),
        decreases n - i,
    {
        match crate::paf::parse_record(lines[i].as_str()) {
            Ok(rec) => {
                out.push(rec);
            },
            Err(_) => {
                return Err(PafError::MalformedRecord);
            },
        }
        i = i + 1;
    }
    Ok(out)
}

/// The whole conversion, short of reading and writing: parse every line,
/// then emit the chain stream with ids threaded from `start_id`. Fails,
/// fatally, on the first malformed record, else on the first malformed
/// script, else on the first value out of machine bounds.
pub fn process_lines(lines: &Vec<String>, start_id: usize) -> (r: Result<
    (Vec<Chain>, usize),
    PafError,
>)
    ensures
        match r {
            Ok(p) => {
                &&& all_lines_well_formed(lines@)
                &&& recs_emittable(recs_of_lines(lines@), start_id as nat)
                &&& p.0@.map_values(|c: Chain| c@) == emit_all(
                    recs_of_lines(lines@),
                    start_id as nat,
                )
                &&& p.1 == start_id + count_all(recs_of_lines(lines@))
            },
            Err(e) => match e {
                PafError::MalformedRecord => !all_lines_well_formed(lines@),
                PafError::MalformedScript => all_lines_well_formed(lines@) && !recs_scripts_ok(
                    recs_of_lines(lines@),
                ),
                PafError::OutOfRange => all_lines_well_formed(lines@) && recs_scripts_ok(
                    recs_of_lines(lines@),
                ) && !recs_emittable(recs_of_lines(lines@), start_id as nat),
            },
        },
{
    let recs = match parse_records(lines) {
        Ok(v) => v,
        Err(e) => {
            return Err(e);
        },
    };
    proof {
        assert(rec_views(recs@) =~= recs_of_lines(lines@));
    }
    process_records(&recs, start_id)
}

/// The ids inside one record's chains are sequential from `id0`.
pub proof fn lemma_emit_scripts_ids(rv: RecV, ss: Seq<Seq<CigarRun>>, id0: nat)
    ensures
        emit_scripts(rv, ss, id0).len() == emit_count(ss),
        forall|k: int|
            0 <= k < emit_scripts(rv, ss, id0).len() ==> (#[trigger] emit_scripts(
                rv,
                ss,
                id0,
            )[k]).id == id0 + k,
    decreases ss.len(),
{
    if ss.len() > 0 {
        lemma_emit_scripts_ids(rv, ss.drop_last(), id0);
        let prev = emit_scripts(rv, ss.drop_last(), id0);
        if has_match(ss.last()) {
            let c = chain_of_script(rv, ss.last(), (id0 + prev.len()) as nat);
            assert(forall|k: int| 0 <= k < prev.len() ==> prev.push(c)[k] == prev[k]);
            assert(prev.push(c)[prev.len() as int] == c);
        }
    }
}

/// Law: chain ids are unique, strictly increasing, and gapless across the
/// whole output stream, regardless of how many records were skipped for
/// having no aligned run: the `k`-th chain of the stream carries id
/// `id0 + k`.
pub proof fn lemma_chain_ids_sequential(rvs: Seq<RecV>, id0: nat)
    ensures
        emit_all(rvs, id0).len() == count_all(rvs),
        forall|k: int|
            0 <= k < emit_all(rvs, id0).len() ==> (#[trigger] emit_all(rvs, id0)[k]).id == id0
                + k,
    decreases rvs.len(),
{
    lemma_emit_all_len(rvs, id0);
    if rvs.len() > 0 {
        lemma_chain_ids_sequential(rvs.drop_last(), id0);
        let prev = emit_all(rvs.drop_last(), id0);
        match scripts_of_rec(rvs.last()) {
            Some(ss) => {
                let rest = emit_scripts(rvs.last(), ss, (id0 + prev.len()) as nat);
                lemma_emit_scripts_ids(rvs.last(), ss, (id0 + prev.len()) as nat);
                assert(forall|k: int| 0 <= k < prev.len() ==> (prev + rest)[k] == prev[k]);
                assert(forall|k: int|
                    prev.len() <= k < prev.len() + rest.len() ==> (prev + rest)[k] == rest[k
                        - prev.len()]);
            },
            None => {
                assert(prev + Seq::<ChainV>::empty() =~= prev);
            },
        }
    }
}

/// Law: every chain's block list begins and ends with an ungapped-size
/// line: the list is triples followed by a mandatory bare size, every
/// triple's size is positive, and so is the final size.
pub proof fn lemma_chain_blocks_positive(rv: RecV, runs: Seq<CigarRun>, id: nat)
    requires
        has_match(runs),
        matches_positive(runs),
    ensures
        chain_of_script(rv, runs, id).final_size >= 1,
        forall|k: int|
            0 <= k < chain_of_script(rv, runs, id).blocks.len() ==> (#[trigger] chain_of_script(
                rv,
                runs,
                id,
            ).blocks[k]).size >= 1,
{
    let tr = trimmed(runs);
    lemma_match_span(runs);
    lemma_first_match_bounds(runs);
    lemma_last_match_end_bounds(runs);
    assert(tr.len() > 0);
    assert(tr[0] == runs[first_match(runs)]);
    assert(matches_positive(tr)) by {
        assert(forall|k: int|
            0 <= k < tr.len() ==> #[trigger] tr[k] == runs[first_match(runs) + k]);
    }
    lemma_walk_accounting(tr);
}

/// Law: for every record whose script trims non-empty, and whose script
/// is consistent with the record's alignment spans, the emitted ungapped
/// sizes plus the gap sizes along one axis cover exactly the adjusted
/// span on that axis.
pub proof fn lemma_chain_spans(rv: RecV, runs: Seq<CigarRun>, id: nat)
    requires
        has_match(runs),
        matches_positive(runs),
        adj_coords_ok(rv, runs),
        rv.query_begin <= rv.query_end,
        rv.target_begin <= rv.target_end,
        sum_query(runs) == rv.query_end - rv.query_begin,
        sum_target(runs) == rv.target_end - rv.target_begin,
    ensures
        ({
            let c = chain_of_script(rv, runs, id);
            blocks_size_sum(c.blocks) + c.final_size + blocks_target_gap_sum(c.blocks)
                == c.target_end - c.target_start
        }),
        ({
            let c = chain_of_script(rv, runs, id);
            blocks_size_sum(c.blocks) + c.final_size + blocks_query_gap_sum(c.blocks)
                == c.query_end - c.query_start
        }),
{
    let tr = trimmed(runs);
    lemma_match_span(runs);
    lemma_first_match_bounds(runs);
    lemma_last_match_end_bounds(runs);
    assert(tr.len() > 0);
    assert(tr[0] == runs[first_match(runs)]);
    assert(tr[tr.len() - 1] == runs[last_match_end(runs) - 1]);
    assert(matches_positive(tr)) by {
        assert(forall|k: int|
            0 <= k < tr.len() ==> #[trigger] tr[k] == runs[first_match(runs) + k]);
    }
    lemma_walk_accounting(tr);
    lemma_walk_last_match(tr);
    lemma_trimmed_sums(runs);
    lemma_axis_split(tr);
}

/// Law: emission is a pure function of the record stream: running the
/// conversion twice over identical records from the same starting id
/// yields identical chain streams and identical final counters.
pub proof fn lemma_emission_deterministic(a: Seq<RecV>, b: Seq<RecV>, id0: nat)
    requires
        a == b,
    ensures
        emit_all(a, id0) == emit_all(b, id0),
        count_all(a) == count_all(b),
{
}

} // verus!
