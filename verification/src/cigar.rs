//! Edit scripts (CIGAR strings): tokenizing, terminal-indel trimming, and
//! the walk that decomposes a script into alternating ungapped/gapped
//! blocks.
//!
//! A script is a sequence of runs, each a positive decimal run length
//! followed by one operation character. Aligned columns are written `M`,
//! `=` or `X` (interchangeable here), query-only columns `I`, target-only
//! columns `D`. A run whose operation character is outside that set is
//! dropped from every pass without affecting run-length accounting; a
//! missing or oversized run length is a fatal parse error.

use vstd::prelude::*;

use crate::numbers::{all_digits, dec_value, is_digit, parse_usize};
use crate::PafError;

verus! {

/// One edit-script operation.
#[derive(Clone, Copy, PartialEq, Eq, Structural, Debug)]
pub enum CigarOp {
    /// An aligned (match or mismatch) column: consumes both axes.
    Aligned,
    /// An insertion: consumes the query axis only.
    Ins,
    /// A deletion: consumes the target axis only.
    Del,
}

/// One run of an edit script: `count` consecutive columns of the same
/// operation.
#[derive(Clone, Copy, PartialEq, Eq, Structural, Debug)]
pub struct CigarRun {
    pub count: usize,
    pub op: CigarOp,
}

/// The operation a recognized character denotes, if any.
pub open spec fn op_of(c: char) -> Option<CigarOp> {
    if c == 'M' || c == '=' || c == 'X' {
        Some(CigarOp::Aligned)
    } else if c == 'I' {
        Some(CigarOp::Ins)
    } else if c == 'D' {
        Some(CigarOp::Del)
    } else {
        None
    }
}

/// Index of the first non-digit of `s`, or `s.len()` if all of `s` is
/// digits.
pub open spec fn digits_end(s: Seq<char>) -> int
    decreases s.len(),
{
    if s.len() == 0 {
        0
    } else if !is_digit(s[0]) {
        0
    } else {
        1 + digits_end(s.drop_first())
    }
}

pub proof fn lemma_digits_end_bounds(s: Seq<char>)
    ensures
        0 <= digits_end(s) <= s.len(),
        forall|k: int| 0 <= k < digits_end(s) ==> is_digit(#[trigger] s[k]),
        digits_end(s) < s.len() ==> !is_digit(s[digits_end(s)]),
    decreases s.len(),
{
    if s.len() > 0 && is_digit(s[0]) {
        lemma_digits_end_bounds(s.drop_first());
        assert forall|k: int| 0 <= k < digits_end(s) implies is_digit(#[trigger] s[k]) by {
            if k > 0 {
                assert(s.drop_first()[k - 1] == s[k]);
            }
        }
        if digits_end(s) < s.len() {
            assert(s.drop_first()[digits_end(s.drop_first())] == s[digits_end(s)]);
        }
    }
}

/// A scan that saw only digits in `[0, i)` and stopped at the end or at a
/// non-digit has found `digits_end`.
pub proof fn lemma_digits_end_pin(s: Seq<char>, i: int)
    requires
        0 <= i <= s.len(),
        forall|k: int| 0 <= k < i ==> is_digit(#[trigger] s[k]),
        i == s.len() || !is_digit(s[i]),
    ensures
        digits_end(s) == i,
{
    lemma_digits_end_bounds(s);
    if digits_end(s) < i {
        assert(is_digit(s[digits_end(s)]));
    }
    if digits_end(s) > i {
        assert(!is_digit(s[i]));
    }
}

/// The runs of a script, or `None` if some operation character has no run
/// length before it, or a run length does not fit a machine word. Runs with
/// an unrecognized operation character are validated, then dropped.
/// Trailing digits with no operation character are ignored.
pub open spec fn scan_runs(s: Seq<char>) -> Option<Seq<CigarRun>>
    decreases s.len(),
    via scan_runs_decreases
{
    let d = digits_end(s);
    if d == s.len() {
        Some(Seq::empty())
    } else if d == 0 {
        None
    } else if dec_value(s.take(d)) > usize::MAX {
        None
    } else {
        match scan_runs(s.skip(d + 1)) {
            None => None,
            Some(rest) => match op_of(s[d]) {
                Some(op) => Some(
                    seq![CigarRun { count: dec_value(s.take(d)) as usize, op }] + rest,
                ),
                None => Some(rest),
            },
        }
    }
}

#[via_fn]
proof fn scan_runs_decreases(s: Seq<char>) {
    lemma_digits_end_bounds(s);
}

/// Tokenize an edit script. Fails, fatally for the record, exactly on
/// scripts `scan_runs` rejects.
pub fn parse_cigar(s: &str) -> (r: Result<Vec<CigarRun>, PafError>)
    ensures
        match r {
            Ok(v) => scan_runs(s@) == Some(v@),
            Err(e) => e == PafError::MalformedScript && scan_runs(s@) is None,
        },
{
    let len = s.unicode_len();
    let mut out: Vec<CigarRun> = Vec::new();
    let mut pos: usize = 0;
    proof {
        assert(s@.skip(0) =~= s@);
    }
    loop
        invariant_except_break
            pos <= len,
            len == s@.len(),
            forall|rest: Seq<CigarRun>|
                scan_runs(s@.skip(pos as int)) == Some(rest) ==> scan_runs(s@) == Some(
                    out@ + rest,
                ),
            scan_runs(s@.skip(pos as int)) is None ==> scan_runs(s@) is None,
        ensures
            scan_runs(s@) == Some(out@),
        decreases len - pos,
    {
        let ghost tail = s@.skip(pos as int);
        let mut j: usize = pos;
        while j < len && s.get_char(j) >= '0' && s.get_char(j) <= '9'
            invariant
                pos <= j <= len,
                len == s@.len(),
                forall|k: int| pos <= k < j ==> is_digit(#[trigger] s@[k]),
            decreases len - j,
        {
            j = j + 1;
        }
        proof {
            assert forall|k: int| 0 <= k < j - pos implies is_digit(#[trigger] tail[k]) by {
                assert(tail[k] == s@[pos + k]);
            }
            if j < len {
                assert(tail[j - pos] == s@[j as int]);
            }
            lemma_digits_end_pin(tail, j - pos);
        }
        if j == len {
            proof {
                assert(out@ + Seq::<CigarRun>::empty() =~= out@);
            }
            break;
        }
        if j == pos {
            return Err(PafError::MalformedScript);
        }
        let ghost digits = tail.take(j - pos);
        proof {
            assert(digits =~= s@.subrange(pos as int, j as int));
            assert(all_digits(digits)) by {
                assert(forall|k: int| 0 <= k < digits.len() ==> is_digit(#[trigger] digits[k]));
            }
        }
        let count = match parse_usize(s, pos, j) {
            Some(v) => v,
            None => {
                proof {
                    assert(dec_value(digits) > usize::MAX);
                }
                return Err(PafError::MalformedScript);
            },
        };
        let c = s.get_char(j);
        let ghost old_out = out@;
        let ghost tail2 = s@.skip(j + 1 as int);
        proof {
            assert(tail.skip(j - pos + 1) =~= tail2);
        }
        if c == 'M' || c == '=' || c == 'X' {
            out.push(CigarRun { count, op: CigarOp::Aligned });
        } else if c == 'I' {
            out.push(CigarRun { count, op: CigarOp::Ins });
        } else if c == 'D' {
            out.push(CigarRun { count, op: CigarOp::Del });
        }
        proof {
            assert(tail[j - pos] == s@[j as int]);
            match op_of(s@[j as int]) {
                Some(op) => {
                    assert(out@ == old_out.push(CigarRun { count, op }));
                    assert forall|rest: Seq<CigarRun>|
                        scan_runs(tail2) == Some(rest) implies scan_runs(s@) == Some(
                        out@ + rest,
                    ) by {
                        assert(scan_runs(tail) == Some(
                            seq![CigarRun { count, op }] + rest,
                        ));
                        assert(old_out + (seq![CigarRun { count, op }] + rest) =~= out@ + rest);
                    }
                },
                None => {
                    assert(out@ == old_out);
                    assert forall|rest: Seq<CigarRun>|
                        scan_runs(tail2) == Some(rest) implies scan_runs(s@) == Some(
                        out@ + rest,
                    ) by {
                        assert(scan_runs(tail) == Some(rest));
                    }
                },
            }
            if scan_runs(tail2) is None {
                assert(scan_runs(tail) is None);
            }
        }
        pos = j + 1;
    }
    Ok(out)
}

/// What one run contributes to a per-axis total.
pub enum RunMeasure {
    /// Columns consumed on the query axis: aligned and insertion runs.
    Query,
    /// Columns consumed on the target axis: aligned and deletion runs.
    Target,
    /// Insertion columns alone.
    Insertion,
    /// Deletion columns alone.
    Deletion,
    /// Aligned columns alone.
    Matched,
}

/// The contribution of one run under a measure.
pub open spec fn run_measure(r: CigarRun, w: RunMeasure) -> nat {
    match w {
        RunMeasure::Query => if r.op is Del {
            0
        } else {
            r.count as nat
        },
        RunMeasure::Target => if r.op is Ins {
            0
        } else {
            r.count as nat
        },
        RunMeasure::Insertion => if r.op is Ins {
            r.count as nat
        } else {
            0
        },
        RunMeasure::Deletion => if r.op is Del {
            r.count as nat
        } else {
            0
        },
        RunMeasure::Matched => if r.op is Aligned {
            r.count as nat
        } else {
            0
        },
    }
}

/// The total of a measure over a sequence of runs.
pub open spec fn sum_measure(runs: Seq<CigarRun>, w: RunMeasure) -> nat
    decreases runs.len(),
{
    if runs.len() == 0 {
        0
    } else {
        sum_measure(runs.drop_last(), w) + run_measure(runs.last(), w)
    }
}

/// Columns a script consumes on the query axis.
pub open spec fn sum_query(runs: Seq<CigarRun>) -> nat {
    sum_measure(runs, RunMeasure::Query)
}

/// Columns a script consumes on the target axis.
pub open spec fn sum_target(runs: Seq<CigarRun>) -> nat {
    sum_measure(runs, RunMeasure::Target)
}

/// Insertion columns of a script.
pub open spec fn sum_ins(runs: Seq<CigarRun>) -> nat {
    sum_measure(runs, RunMeasure::Insertion)
}

/// Deletion columns of a script.
pub open spec fn sum_del(runs: Seq<CigarRun>) -> nat {
    sum_measure(runs, RunMeasure::Deletion)
}

/// Aligned columns of a script.
pub open spec fn sum_matched(runs: Seq<CigarRun>) -> nat {
    sum_measure(runs, RunMeasure::Matched)
}

pub proof fn lemma_sum_measure_concat(a: Seq<CigarRun>, b: Seq<CigarRun>, w: RunMeasure)
    ensures
        sum_measure(a + b, w) == sum_measure(a, w) + sum_measure(b, w),
    decreases b.len(),
{
    if b.len() == 0 {
        assert(a + b =~= a);
    } else {
        lemma_sum_measure_concat(a, b.drop_last(), w);
        assert((a + b).drop_last() =~= a + b.drop_last());
        assert((a + b).last() == b.last());
    }
}

pub proof fn lemma_sum_measure_cons(runs: Seq<CigarRun>, w: RunMeasure)
    requires
        runs.len() > 0,
    ensures
        sum_measure(runs, w) == run_measure(runs[0], w) + sum_measure(runs.drop_first(), w),
    decreases runs.len(),
{
    if runs.len() == 1 {
        assert(runs.drop_last() =~= Seq::<CigarRun>::empty());
        assert(runs.drop_first() =~= Seq::<CigarRun>::empty());
        assert(runs.last() == runs[0]);
    } else {
        lemma_sum_measure_cons(runs.drop_last(), w);
        assert(runs.drop_last()[0] == runs[0]);
        assert(runs.drop_first().drop_last() =~= runs.drop_last().drop_first());
        assert(runs.drop_first().last() == runs.last());
    }
}

/// A measure of a slice is at most the measure of the whole.
pub proof fn lemma_sum_measure_subrange(runs: Seq<CigarRun>, i: int, j: int, w: RunMeasure)
    requires
        0 <= i <= j <= runs.len(),
    ensures
        sum_measure(runs.subrange(i, j), w) <= sum_measure(runs, w),
{
    assert(runs =~= runs.take(i) + runs.subrange(i, j) + runs.skip(j));
    lemma_sum_measure_concat(runs.take(i) + runs.subrange(i, j), runs.skip(j), w);
    lemma_sum_measure_concat(runs.take(i), runs.subrange(i, j), w);
}

/// Pointwise-dominated measures give dominated totals.
pub proof fn lemma_sum_measure_le(runs: Seq<CigarRun>, w1: RunMeasure, w2: RunMeasure)
    requires
        forall|k: int| 0 <= k < runs.len() ==> run_measure(#[trigger] runs[k], w1) <= run_measure(
            runs[k],
            w2,
        ),
    ensures
        sum_measure(runs, w1) <= sum_measure(runs, w2),
    decreases runs.len(),
{
    if runs.len() > 0 {
        lemma_sum_measure_le(runs.drop_last(), w1, w2);
        assert(run_measure(runs.last(), w1) <= run_measure(runs.last(), w2)) by {
            assert(runs[runs.len() - 1] == runs.last());
        }
    }
}

/// Insertions are query columns, deletions target columns, aligned columns
/// both.
pub proof fn lemma_axis_dominations(runs: Seq<CigarRun>)
    ensures
        sum_ins(runs) <= sum_query(runs),
        sum_matched(runs) <= sum_query(runs),
        sum_del(runs) <= sum_target(runs),
        sum_matched(runs) <= sum_target(runs),
{
    lemma_sum_measure_le(runs, RunMeasure::Insertion, RunMeasure::Query);
    lemma_sum_measure_le(runs, RunMeasure::Matched, RunMeasure::Query);
    lemma_sum_measure_le(runs, RunMeasure::Deletion, RunMeasure::Target);
    lemma_sum_measure_le(runs, RunMeasure::Matched, RunMeasure::Target);
}

/// Each axis total splits into aligned columns plus that axis's gap
/// columns.
pub proof fn lemma_axis_split(runs: Seq<CigarRun>)
    ensures
        sum_query(runs) == sum_matched(runs) + sum_ins(runs),
        sum_target(runs) == sum_matched(runs) + sum_del(runs),
    decreases runs.len(),
{
    if runs.len() > 0 {
        lemma_axis_split(runs.drop_last());
    }
}

/// An aligned (matched) run.
pub open spec fn is_match_run(r: CigarRun) -> bool {
    r.op is Aligned
}

/// Index of the first aligned run, or `runs.len()` if there is none.
pub open spec fn first_match(runs: Seq<CigarRun>) -> int
    decreases runs.len(),
{
    if runs.len() == 0 {
        0
    } else if is_match_run(runs[0]) {
        0
    } else {
        1 + first_match(runs.drop_first())
    }
}

/// One past the last aligned run, or `0` if there is none.
pub open spec fn last_match_end(runs: Seq<CigarRun>) -> int
    decreases runs.len(),
{
    if runs.len() == 0 {
        0
    } else if is_match_run(runs.last()) {
        runs.len() as int
    } else {
        last_match_end(runs.drop_last())
    }
}

/// A script with at least one aligned run; only such scripts yield a chain.
pub open spec fn has_match(runs: Seq<CigarRun>) -> bool {
    first_match(runs) < runs.len()
}

pub proof fn lemma_first_match_bounds(runs: Seq<CigarRun>)
    ensures
        0 <= first_match(runs) <= runs.len(),
        forall|k: int| 0 <= k < first_match(runs) ==> !is_match_run(#[trigger] runs[k]),
        first_match(runs) < runs.len() ==> is_match_run(runs[first_match(runs)]),
    decreases runs.len(),
{
    if runs.len() > 0 && !is_match_run(runs[0]) {
        lemma_first_match_bounds(runs.drop_first());
        assert forall|k: int| 0 <= k < first_match(runs) implies !is_match_run(
            #[trigger] runs[k],
        ) by {
            if k > 0 {
                assert(runs.drop_first()[k - 1] == runs[k]);
            }
        }
        if first_match(runs) < runs.len() {
            assert(runs.drop_first()[first_match(runs.drop_first())] == runs[first_match(runs)]);
        }
    }
}

pub proof fn lemma_first_match_pin(runs: Seq<CigarRun>, i: int)
    requires
        0 <= i <= runs.len(),
        forall|k: int| 0 <= k < i ==> !is_match_run(#[trigger] runs[k]),
        i == runs.len() || is_match_run(runs[i]),
    ensures
        first_match(runs) == i,
{
    lemma_first_match_bounds(runs);
    if first_match(runs) < i {
        assert(is_match_run(runs[first_match(runs)]));
    }
    if first_match(runs) > i {
        assert(!is_match_run(runs[i]));
    }
}

pub proof fn lemma_last_match_end_bounds(runs: Seq<CigarRun>)
    ensures
        0 <= last_match_end(runs) <= runs.len(),
        forall|k: int| last_match_end(runs) <= k < runs.len() ==> !is_match_run(
            #[trigger] runs[k],
        ),
        last_match_end(runs) > 0 ==> is_match_run(runs[last_match_end(runs) - 1]),
    decreases runs.len(),
{
    if runs.len() > 0 && !is_match_run(runs.last()) {
        lemma_last_match_end_bounds(runs.drop_last());
        assert forall|k: int| last_match_end(runs) <= k < runs.len() implies !is_match_run(
            #[trigger] runs[k],
        ) by {
            if k < runs.len() - 1 {
                assert(runs.drop_last()[k] == runs[k]);
            }
        }
        if last_match_end(runs) > 0 {
            assert(runs.drop_last()[last_match_end(runs) - 1] == runs[last_match_end(runs) - 1]);
        }
    }
}

pub proof fn lemma_last_match_end_pin(runs: Seq<CigarRun>, j: int)
    requires
        0 <= j <= runs.len(),
        forall|k: int| j <= k < runs.len() ==> !is_match_run(#[trigger] runs[k]),
        j == 0 || is_match_run(runs[j - 1]),
    ensures
        last_match_end(runs) == j,
{
    lemma_last_match_end_bounds(runs);
    if last_match_end(runs) > j {
        assert(!is_match_run(runs[last_match_end(runs) - 1]));
    }
    if last_match_end(runs) < j {
        assert(!is_match_run(runs[j - 1]));
    }
}

/// A script with an aligned run has its first one before its last one.
pub proof fn lemma_match_span(runs: Seq<CigarRun>)
    ensures
        has_match(runs) <==> first_match(runs) < last_match_end(runs),
        has_match(runs) ==> is_match_run(runs[first_match(runs)]) && is_match_run(
            runs[last_match_end(runs) - 1],
        ),
        !has_match(runs) ==> last_match_end(runs) == 0,
{
    lemma_first_match_bounds(runs);
    lemma_last_match_end_bounds(runs);
    if has_match(runs) {
        assert(is_match_run(runs[first_match(runs)]));
        if last_match_end(runs) <= first_match(runs) {
            assert(!is_match_run(runs[first_match(runs)]));
        }
    } else {
        if last_match_end(runs) > 0 {
            assert(is_match_run(runs[last_match_end(runs) - 1]));
        }
    }
}

/// The trimmed script: the runs from the first aligned run through the
/// last one. Empty when no aligned run exists.
pub open spec fn trimmed(runs: Seq<CigarRun>) -> Seq<CigarRun> {
    if has_match(runs) {
        runs.subrange(first_match(runs), last_match_end(runs))
    } else {
        Seq::empty()
    }
}

/// Insertion columns before the first aligned run.
pub open spec fn query_from_delta(runs: Seq<CigarRun>) -> nat {
    sum_ins(runs.take(first_match(runs)))
}

/// Deletion columns before the first aligned run.
pub open spec fn target_from_delta(runs: Seq<CigarRun>) -> nat {
    sum_del(runs.take(first_match(runs)))
}

/// Insertion columns after the last aligned run.
pub open spec fn query_to_delta(runs: Seq<CigarRun>) -> nat {
    sum_ins(runs.skip(last_match_end(runs)))
}

/// Deletion columns after the last aligned run.
pub open spec fn target_to_delta(runs: Seq<CigarRun>) -> nat {
    sum_del(runs.skip(last_match_end(runs)))
}

/// The outcome of terminal-indel trimming: the trimmed range of the run
/// sequence and the gap columns cut off each end.
pub struct TrimInfo {
    pub from: usize,
    pub to: usize,
    pub query_from: usize,
    pub target_from: usize,
    pub query_to: usize,
    pub target_to: usize,
}

/// Trim terminal indels: locate the first and last aligned runs and count
/// the insertion/deletion columns outside them.
pub fn trim_runs(runs: &Vec<CigarRun>) -> (t: TrimInfo)
    requires
        sum_ins(runs@) <= usize::MAX,
        sum_del(runs@) <= usize::MAX,
    ensures
        t.from == first_match(runs@),
        t.to == last_match_end(runs@),
        t.query_from == query_from_delta(runs@),
        t.target_from == target_from_delta(runs@),
        t.query_to == query_to_delta(runs@),
        t.target_to == target_to_delta(runs@),
{
    let n = runs.len();
    let mut i: usize = 0;
    let mut query_from: usize = 0;
    let mut target_from: usize = 0;
    while i < n && !matches!(runs[i].op, CigarOp::Aligned)
        invariant
            0 <= i <= n == runs@.len(),
            sum_ins(runs@) <= usize::MAX,
            sum_del(runs@) <= usize::MAX,
            forall|k: int| 0 <= k < i ==> !is_match_run(#[trigger] runs@[k]),
            query_from == sum_ins(runs@.take(i as int)),
            target_from == sum_del(runs@.take(i as int)),
        decreases n - i,
    {
        proof {
            assert(runs@.take(i + 1).drop_last() =~= runs@.take(i as int));
            assert(runs@.take(i + 1).last() == runs@[i as int]);
            lemma_sum_measure_subrange(runs@, 0, i + 1, RunMeasure::Insertion);
            lemma_sum_measure_subrange(runs@, 0, i + 1, RunMeasure::Deletion);
            assert(runs@.subrange(0, i + 1) =~= runs@.take(i + 1));
        }
        match runs[i].op {
            CigarOp::Ins => {
                query_from = query_from + runs[i].count;
            },
            CigarOp::Del => {
                target_from = target_from + runs[i].count;
            },
            CigarOp::Aligned => {},
        }
        i = i + 1;
    }
    proof {
        lemma_first_match_pin(runs@, i as int);
    }
    let mut j: usize = n;
    let mut query_to: usize = 0;
    let mut target_to: usize = 0;
    while j > 0 && !matches!(runs[j - 1].op, CigarOp::Aligned)
        invariant
            0 <= j <= n == runs@.len(),
            sum_ins(runs@) <= usize::MAX,
            sum_del(runs@) <= usize::MAX,
            forall|k: int| j <= k < n ==> !is_match_run(#[trigger] runs@[k]),
            query_to == sum_ins(runs@.skip(j as int)),
            target_to == sum_del(runs@.skip(j as int)),
        decreases j,
    {
        proof {
            assert(runs@.skip(j - 1).drop_first() =~= runs@.skip(j as int));
            assert(runs@.skip(j - 1)[0] == runs@[j - 1]);
            lemma_sum_measure_cons(runs@.skip(j - 1), RunMeasure::Insertion);
            lemma_sum_measure_cons(runs@.skip(j - 1), RunMeasure::Deletion);
            lemma_sum_measure_subrange(runs@, j - 1, n as int, RunMeasure::Insertion);
            lemma_sum_measure_subrange(runs@, j - 1, n as int, RunMeasure::Deletion);
            assert(runs@.subrange(j - 1, n as int) =~= runs@.skip(j - 1));
        }
        match runs[j - 1].op {
            CigarOp::Ins => {
                query_to = query_to + runs[j - 1].count;
            },
            CigarOp::Del => {
                target_to = target_to + runs[j - 1].count;
            },
            CigarOp::Aligned => {},
        }
        j = j - 1;
    }
    proof {
        lemma_last_match_end_pin(runs@, j as int);
    }
    TrimInfo { from: i, to: j, query_from, target_from, query_to, target_to }
}

/// One emitted block line: an ungapped size and the gap that follows it on
/// each axis.
#[derive(Clone, Copy, PartialEq, Eq, Structural, Debug)]
pub struct ChainBlock {
    pub size: usize,
    pub target_gap: usize,
    pub query_gap: usize,
}

/// The mathematical content of one block line.
pub struct BlockV {
    pub size: nat,
    pub target_gap: nat,
    pub query_gap: nat,
}

impl View for ChainBlock {
    type V = BlockV;

    open spec fn view(&self) -> BlockV {
        BlockV {
            size: self.size as nat,
            target_gap: self.target_gap as nat,
            query_gap: self.query_gap as nat,
        }
    }
}

/// The accumulator of the block walk: the blocks emitted so far, the
/// ungapped length being gathered, and the pending gap on each axis.
pub struct WalkState {
    pub blocks: Seq<BlockV>,
    pub ungapped: nat,
    pub target_gap: nat,
    pub query_gap: nat,
}

/// One step of the block walk. An aligned run first flushes the gathered
/// ungapped length together with a pending gap, if both exist, then starts
/// or extends an ungapped block; back-to-back aligned runs merge.
pub open spec fn walk_step(st: WalkState, r: CigarRun) -> WalkState {
    match r.op {
        CigarOp::Aligned => {
            if st.ungapped > 0 && (st.target_gap > 0 || st.query_gap > 0) {
                WalkState {
                    blocks: st.blocks.push(
                        BlockV {
                            size: st.ungapped,
                            target_gap: st.target_gap,
                            query_gap: st.query_gap,
                        },
                    ),
                    ungapped: r.count as nat,
                    target_gap: 0,
                    query_gap: 0,
                }
            } else {
                WalkState {
                    blocks: st.blocks,
                    ungapped: (st.ungapped + r.count) as nat,
                    target_gap: 0,
                    query_gap: 0,
                }
            }
        },
        CigarOp::Ins => WalkState { query_gap: (st.query_gap + r.count) as nat, ..st },
        CigarOp::Del => WalkState { target_gap: (st.target_gap + r.count) as nat, ..st },
    }
}

/// The walk over a whole (trimmed) script, from an empty accumulator.
pub open spec fn walk_runs(runs: Seq<CigarRun>) -> WalkState
    decreases runs.len(),
{
    if runs.len() == 0 {
        WalkState { blocks: Seq::empty(), ungapped: 0, target_gap: 0, query_gap: 0 }
    } else {
        walk_step(walk_runs(runs.drop_last()), runs.last())
    }
}

/// The gap-annotated blocks of a trimmed script.
pub open spec fn walk_blocks_of(runs: Seq<CigarRun>) -> Seq<BlockV> {
    walk_runs(runs).blocks
}

/// The final bare ungapped size of a trimmed script.
pub open spec fn walk_final(runs: Seq<CigarRun>) -> nat {
    walk_runs(runs).ungapped
}

/// Sum of the ungapped sizes of a block list.
pub open spec fn blocks_size_sum(bs: Seq<BlockV>) -> nat
    decreases bs.len(),
{
    if bs.len() == 0 {
        0
    } else {
        blocks_size_sum(bs.drop_last()) + bs.last().size
    }
}

/// Sum of the target gaps of a block list.
pub open spec fn blocks_target_gap_sum(bs: Seq<BlockV>) -> nat
    decreases bs.len(),
{
    if bs.len() == 0 {
        0
    } else {
        blocks_target_gap_sum(bs.drop_last()) + bs.last().target_gap
    }
}

/// Sum of the query gaps of a block list.
pub open spec fn blocks_query_gap_sum(bs: Seq<BlockV>) -> nat
    decreases bs.len(),
{
    if bs.len() == 0 {
        0
    } else {
        blocks_query_gap_sum(bs.drop_last()) + bs.last().query_gap
    }
}

/// Every aligned run of the script has a positive run length.
pub open spec fn matches_positive(runs: Seq<CigarRun>) -> bool {
    forall|k: int| 0 <= k < runs.len() && is_match_run(#[trigger] runs[k]) ==> runs[k].count >= 1
}

/// The bookkeeping of the walk over a script that starts with a positive
/// aligned run: the gathered ungapped length stays positive, emitted
/// blocks are positive, no pending gap is ever dropped, and the three
/// accumulators partition the script's aligned, deletion, and insertion
/// columns.
/// The bookkeeping invariant of the walk: the gathered ungapped length is
/// positive, emitted blocks are positive, and the accumulators partition
/// the script's aligned, deletion, and insertion columns.
pub open spec fn walk_accounted(runs: Seq<CigarRun>) -> bool {
    let st = walk_runs(runs);
    &&& st.ungapped >= 1
    &&& (forall|k: int| 0 <= k < st.blocks.len() ==> (#[trigger] st.blocks[k]).size >= 1)
    &&& blocks_size_sum(st.blocks) + st.ungapped == sum_matched(runs)
    &&& blocks_target_gap_sum(st.blocks) + st.target_gap == sum_del(runs)
    &&& blocks_query_gap_sum(st.blocks) + st.query_gap == sum_ins(runs)
}

#[verifier::rlimit(50)]
pub proof fn lemma_walk_accounting(runs: Seq<CigarRun>)
    requires
        runs.len() > 0,
        is_match_run(runs[0]),
        matches_positive(runs),
    ensures
        walk_accounted(runs),
    decreases runs.len(),
{
    if runs.len() == 1 {
        reveal_with_fuel(sum_measure, 2);
        reveal_with_fuel(walk_runs, 2);
        assert(runs.drop_last() =~= Seq::<CigarRun>::empty());
        assert(runs.last() == runs[0]);
        assert(walk_runs(runs.drop_last()).blocks == Seq::<BlockV>::empty());
        assert(walk_runs(runs).blocks == Seq::<BlockV>::empty());
        assert(blocks_size_sum(walk_runs(runs).blocks) == 0);
        assert(walk_runs(runs).ungapped >= 1);
        assert(forall|k: int|
            0 <= k < walk_runs(runs).blocks.len() ==> (#[trigger] walk_runs(
                runs,
            ).blocks[k]).size >= 1);
        assert(blocks_size_sum(walk_runs(runs).blocks) + walk_runs(runs).ungapped == sum_matched(
            runs,
        ));
        assert(blocks_target_gap_sum(walk_runs(runs).blocks) + walk_runs(runs).target_gap
            == sum_del(runs));
        assert(blocks_query_gap_sum(walk_runs(runs).blocks) + walk_runs(runs).query_gap == sum_ins(
            runs,
        ));
        assert(walk_accounted(runs));
    } else {
        let prev = runs.drop_last();
        assert(prev[0] == runs[0]);
        assert(matches_positive(prev)) by {
            assert(forall|k: int| 0 <= k < prev.len() ==> prev[k] == runs[k]);
        }
        lemma_walk_accounting(prev);
        let st = walk_runs(prev);
        let r = runs.last();
        assert(r == runs[runs.len() - 1]);
        assert(walk_runs(runs) == walk_step(st, r));
        assert(sum_matched(runs) == sum_matched(prev) + run_measure(r, RunMeasure::Matched));
        assert(sum_del(runs) == sum_del(prev) + run_measure(r, RunMeasure::Deletion));
        assert(sum_ins(runs) == sum_ins(prev) + run_measure(r, RunMeasure::Insertion));
        match r.op {
            CigarOp::Aligned => {
                assert(r.count >= 1);
                if st.ungapped > 0 && (st.target_gap > 0 || st.query_gap > 0) {
                    let b = BlockV {
                        size: st.ungapped,
                        target_gap: st.target_gap,
                        query_gap: st.query_gap,
                    };
                    assert(walk_runs(runs).blocks == st.blocks.push(b));
                    assert(st.blocks.push(b).drop_last() =~= st.blocks);
                    assert(st.blocks.push(b).last() == b);
                    assert(blocks_size_sum(st.blocks.push(b)) == blocks_size_sum(st.blocks)
                        + b.size);
                    assert(blocks_target_gap_sum(st.blocks.push(b)) == blocks_target_gap_sum(
                        st.blocks,
                    ) + b.target_gap);
                    assert(blocks_query_gap_sum(st.blocks.push(b)) == blocks_query_gap_sum(
                        st.blocks,
                    ) + b.query_gap);
                    assert(forall|k: int|
                        0 <= k < st.blocks.len() ==> st.blocks.push(b)[k] == st.blocks[k]);
                    assert(walk_accounted(runs));
                } else {
                    assert(st.target_gap == 0 && st.query_gap == 0);
                    assert(walk_runs(runs).blocks == st.blocks);
                    assert(walk_accounted(runs));
                }
            },
            CigarOp::Ins => {
                assert(walk_runs(runs).blocks == st.blocks);
                assert(walk_accounted(runs));
            },
            CigarOp::Del => {
                assert(walk_runs(runs).blocks == st.blocks);
                assert(walk_accounted(runs));
            },
        }
    }
}

/// A trimmed script ends with an aligned run, so the walk ends with no
/// pending gap: the final ungapped size is genuinely last.
pub proof fn lemma_walk_last_match(runs: Seq<CigarRun>)
    requires
        runs.len() > 0,
        is_match_run(runs[runs.len() - 1]),
    ensures
        walk_runs(runs).target_gap == 0,
        walk_runs(runs).query_gap == 0,
{
}

/// The columns each axis keeps after trimming: what the script consumes
/// minus what the trim cut off each end.
pub proof fn lemma_trimmed_sums(runs: Seq<CigarRun>)
    requires
        has_match(runs),
    ensures
        sum_matched(trimmed(runs)) == sum_matched(runs),
        sum_ins(trimmed(runs)) + query_from_delta(runs) + query_to_delta(runs) == sum_ins(runs),
        sum_del(trimmed(runs)) + target_from_delta(runs) + target_to_delta(runs) == sum_del(runs),
        sum_query(trimmed(runs)) + query_from_delta(runs) + query_to_delta(runs) == sum_query(runs),
        sum_target(trimmed(runs)) + target_from_delta(runs) + target_to_delta(runs) == sum_target(
            runs,
        ),
{
    lemma_match_span(runs);
    let i = first_match(runs);
    let j = last_match_end(runs);
    lemma_first_match_bounds(runs);
    lemma_last_match_end_bounds(runs);
    assert(runs =~= runs.take(i) + runs.subrange(i, j) + runs.skip(j));
    let pre = runs.take(i);
    let mid = runs.subrange(i, j);
    let post = runs.skip(j);
    lemma_prefix_suffix_no_match_sums(pre);
    assert forall|k: int| 0 <= k < post.len() implies !is_match_run(#[trigger] post[k]) by {
        assert(post[k] == runs[j + k]);
    }
    lemma_prefix_suffix_no_match_sums(post);
    lemma_measure_splits(pre, mid, post, RunMeasure::Matched);
    lemma_measure_splits(pre, mid, post, RunMeasure::Insertion);
    lemma_measure_splits(pre, mid, post, RunMeasure::Deletion);
    lemma_measure_splits(pre, mid, post, RunMeasure::Query);
    lemma_measure_splits(pre, mid, post, RunMeasure::Target);
    lemma_no_match_measures(pre);
    lemma_no_match_measures(post);
}

proof fn lemma_measure_splits(a: Seq<CigarRun>, b: Seq<CigarRun>, c: Seq<CigarRun>, w: RunMeasure)
    ensures
        sum_measure(a + b + c, w) == sum_measure(a, w) + sum_measure(b, w) + sum_measure(c, w),
{
    lemma_sum_measure_concat(a + b, c, w);
    lemma_sum_measure_concat(a, b, w);
}

proof fn lemma_prefix_suffix_no_match_sums(s: Seq<CigarRun>)
    requires
        forall|k: int| 0 <= k < s.len() ==> !is_match_run(#[trigger] s[k]),
    ensures
        sum_matched(s) == 0,
    decreases s.len(),
{
    if s.len() > 0 {
        assert(s.drop_last()[s.len() - 2] == s[s.len() - 2] || s.len() == 1);
        assert(forall|k: int| 0 <= k < s.len() - 1 ==> s.drop_last()[k] == s[k]);
        lemma_prefix_suffix_no_match_sums(s.drop_last());
        assert(s.last() == s[s.len() - 1]);
    }
}

/// On a gap-only script segment, the query columns are exactly the
/// insertions and the target columns exactly the deletions.
proof fn lemma_no_match_measures(s: Seq<CigarRun>)
    requires
        forall|k: int| 0 <= k < s.len() ==> !is_match_run(#[trigger] s[k]),
    ensures
        sum_query(s) == sum_ins(s),
        sum_target(s) == sum_del(s),
    decreases s.len(),
{
    if s.len() > 0 {
        assert(forall|k: int| 0 <= k < s.len() - 1 ==> s.drop_last()[k] == s[k]);
        lemma_no_match_measures(s.drop_last());
        assert(s.last() == s[s.len() - 1]);
    }
}

/// Walk a trimmed script into its block list and final ungapped size.
pub fn walk_blocks(runs: &Vec<CigarRun>) -> (r: (Vec<ChainBlock>, usize))
    requires
        sum_matched(runs@) <= usize::MAX,
        sum_ins(runs@) <= usize::MAX,
        sum_del(runs@) <= usize::MAX,
    ensures
        r.0@.map_values(|b: ChainBlock| b@) == walk_blocks_of(runs@),
        r.1 == walk_final(runs@),
{
    let n = runs.len();
    let mut blocks: Vec<ChainBlock> = Vec::new();
    let mut ungapped: usize = 0;
    let mut target_gap: usize = 0;
    let mut query_gap: usize = 0;
    let mut i: usize = 0;
    while i < n
        invariant
            0 <= i <= n == runs@.len(),
            sum_matched(runs@) <= usize::MAX,
            sum_ins(runs@) <= usize::MAX,
            sum_del(runs@) <= usize::MAX,
            blocks@.map_values(|b: ChainBlock| b@) == walk_runs(runs@.take(i as int)).blocks,
            ungapped == walk_runs(runs@.take(i as int)).ungapped,
            target_gap == walk_runs(runs@.take(i as int)).target_gap,
            query_gap == walk_runs(runs@.take(i as int)).query_gap,
            ungapped <= sum_matched(runs@.take(i as int)),
            target_gap <= sum_del(runs@.take(i as int)),
            query_gap <= sum_ins(runs@.take(i as int)),
        decreases n - i,
    {
        proof {
            assert(runs@.take(i + 1).drop_last() =~= runs@.take(i as int));
            assert(runs@.take(i + 1).last() == runs@[i as int]);
            lemma_sum_measure_subrange(runs@, 0, i + 1, RunMeasure::Matched);
            lemma_sum_measure_subrange(runs@, 0, i + 1, RunMeasure::Insertion);
            lemma_sum_measure_subrange(runs@, 0, i + 1, RunMeasure::Deletion);
            assert(runs@.subrange(0, i + 1) =~= runs@.take(i + 1));
        }
        let r = runs[i];
        match r.op {
            CigarOp::Aligned => {
                if ungapped > 0 && (target_gap > 0 || query_gap > 0) {
                    let b = ChainBlock { size: ungapped, target_gap, query_gap };
                    proof {
                        let bs = blocks@.map_values(|x: ChainBlock| x@);
                        assert(blocks@.push(b).map_values(|x: ChainBlock| x@) =~= bs.push(b@));
                    }
                    blocks.push(b);
                    ungapped = 0;
                }
                target_gap = 0;
                query_gap = 0;
                ungapped = ungapped + r.count;
            },
            CigarOp::Ins => {
                query_gap = query_gap + r.count;
            },
            CigarOp::Del => {
                target_gap = target_gap + r.count;
            },
        }
        i = i + 1;
    }
    proof {
        assert(runs@.take(n as int) =~= runs@);
    }
    (blocks, ungapped)
}

/// The query- and target-axis totals of a script, or `None` exactly when a
/// total does not fit in a machine word.
pub fn axis_totals(runs: &Vec<CigarRun>) -> (r: Option<(usize, usize)>)
    ensures
        match r {
            Some(t) => sum_query(runs@) == t.0 && sum_target(runs@) == t.1,
            None => sum_query(runs@) > usize::MAX || sum_target(runs@) > usize::MAX,
        },
{
    let n = runs.len();
    let mut q: usize = 0;
    let mut t: usize = 0;
    let mut i: usize = 0;
    while i < n
        invariant
            0 <= i <= n == runs@.len(),
            q == sum_query(runs@.take(i as int)),
            t == sum_target(runs@.take(i as int)),
        decreases n - i,
    {
        proof {
            assert(runs@.take(i + 1).drop_last() =~= runs@.take(i as int));
            assert(runs@.take(i + 1).last() == runs@[i as int]);
        }
        let r = runs[i];
        let dq: usize = if matches!(r.op, CigarOp::Del) {
            0
        } else {
            r.count
        };
        let dt: usize = if matches!(r.op, CigarOp::Ins) {
            0
        } else {
            r.count
        };
        q = match q.checked_add(dq) {
            Some(v) => v,
            None => {
                proof {
                    lemma_sum_measure_take_grows(runs@, i + 1, RunMeasure::Query);
                }
                return None;
            },
        };
        t = match t.checked_add(dt) {
            Some(v) => v,
            None => {
                proof {
                    lemma_sum_measure_take_grows(runs@, i + 1, RunMeasure::Target);
                }
                return None;
            },
        };
        i = i + 1;
    }
    proof {
        assert(runs@.take(n as int) =~= runs@);
    }
    Some((q, t))
}

/// A measure over a prefix is at most the measure over the whole.
pub proof fn lemma_sum_measure_take_grows(runs: Seq<CigarRun>, k: int, w: RunMeasure)
    requires
        0 <= k <= runs.len(),
    ensures
        sum_measure(runs.take(k), w) <= sum_measure(runs, w),
{
    lemma_sum_measure_subrange(runs, 0, k, w);
    assert(runs.subrange(0, k) =~= runs.take(k));
}

/// Copy the trimmed range of a script.
pub fn make_trimmed(runs: &Vec<CigarRun>, from: usize, to: usize) -> (r: Vec<CigarRun>)
    requires
        from <= to <= runs@.len(),
    ensures
        r@ == runs@.subrange(from as int, to as int),
{
    let mut out: Vec<CigarRun> = Vec::new();
    let mut i: usize = from;
    while i < to
        invariant
            from <= i <= to <= runs@.len(),
            out@ == runs@.subrange(from as int, i as int),
        decreases to - i,
    {
        out.push(runs[i]);
        proof {
            assert(runs@.subrange(from as int, i + 1) =~= runs@.subrange(from as int, i as int).push(
                runs@[i as int],
            ));
        }
        i = i + 1;
    }
    out
}

} // verus!
