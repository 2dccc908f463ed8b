//! One alignment record (PAF line): a view over nine required tab-separated
//! fields plus optional tagged fields, of which the `cg:Z:` tag carries the
//! edit script.
//!
//! The spec-level meaning of a line is `split_tabs`, the sequence of its
//! tab-separated fields; every accessor and the record parser are proved
//! against it.

use vstd::prelude::*;

use crate::numbers::{dec_value, is_usize_number, parse_usize};
use crate::PafError;

verus! {

/// Index of the first tab of `s`, or `s.len()` if there is none.
pub open spec fn first_sep(s: Seq<char>) -> int
    decreases s.len(),
{
    if s.len() == 0 {
        0
    } else if s[0] == '\t' {
        0
    } else {
        1 + first_sep(s.drop_first())
    }
}

pub proof fn lemma_first_sep_bounds(s: Seq<char>)
    ensures
        0 <= first_sep(s) <= s.len(),
        forall|k: int| 0 <= k < first_sep(s) ==> s[k] != '\t',
        first_sep(s) < s.len() ==> s[first_sep(s)] == '\t',
    decreases s.len(),
{
    if s.len() > 0 && s[0] != '\t' {
        lemma_first_sep_bounds(s.drop_first());
        assert forall|k: int| 0 <= k < first_sep(s) implies s[k] != '\t' by {
            if k > 0 {
                assert(s.drop_first()[k - 1] == s[k]);
            }
        }
        if first_sep(s) < s.len() {
            assert(s.drop_first()[first_sep(s.drop_first())] == s[first_sep(s)]);
        }
    }
}

/// A scan that saw no tab in `[0, i)` and stopped at the end or at a tab
/// has found `first_sep`.
pub proof fn lemma_first_sep_pin(s: Seq<char>, i: int)
    requires
        0 <= i <= s.len(),
        forall|k: int| 0 <= k < i ==> s[k] != '\t',
        i == s.len() || s[i] == '\t',
    ensures
        first_sep(s) == i,
{
    lemma_first_sep_bounds(s);
    if first_sep(s) < i {
        assert(s[first_sep(s)] == '\t');
    }
    if first_sep(s) > i {
        assert(s[i] != '\t');
    }
}

/// The tab-separated fields of `s`. Splitting never fails: a line without a
/// tab is one field, and an empty line is one empty field.
pub open spec fn split_tabs(s: Seq<char>) -> Seq<Seq<char>>
    decreases s.len(),
    via split_tabs_decreases
{
    let i = first_sep(s);
    if i == s.len() {
        seq![s]
    } else {
        seq![s.take(i)] + split_tabs(s.skip(i + 1))
    }
}

#[via_fn]
proof fn split_tabs_decreases(s: Seq<char>) {
    lemma_first_sep_bounds(s);
}

/// The number of tab-separated fields of `s`; always at least one.
pub open spec fn num_fields(s: Seq<char>) -> nat {
    split_tabs(s).len()
}

/// Field `n` of `s`.
pub open spec fn paf_field(s: Seq<char>, n: int) -> Seq<char> {
    split_tabs(s)[n]
}

pub proof fn lemma_split_tabs_nonempty(s: Seq<char>)
    ensures
        num_fields(s) >= 1,
{
    lemma_first_sep_bounds(s);
}

/// Character range `[r.0, r.1)` of field `n` of the suffix of `line`
/// starting at `from`, or `None` if that suffix has at most `n` fields.
fn field_range_from(line: &str, from: usize, n: usize) -> (r: Option<(usize, usize)>)
    requires
        from <= line@.len(),
    ensures
        match r {
            Some(p) => {
                &&& n < num_fields(line@.skip(from as int))
                &&& from <= p.0 <= p.1 <= line@.len()
                &&& line@.subrange(p.0 as int, p.1 as int) == split_tabs(line@.skip(from as int))[n as int]
            },
            None => num_fields(line@.skip(from as int)) <= n,
        },
    decreases line@.len() - from,
{
    let ghost tail = line@.skip(from as int);
    let len = line.unicode_len();
    let mut j: usize = from;
    while j < len && line.get_char(j) != '\t'
        invariant
            from <= j <= len,
            len == line@.len(),
            forall|k: int| from <= k < j ==> line@[k] != '\t',
        decreases len - j,
    {
        j = j + 1;
    }
    proof {
        assert forall|k: int| 0 <= k < j - from implies tail[k] != '\t' by {
            assert(tail[k] == line@[from + k]);
        }
        if j < len {
            assert(tail[j - from] == line@[j as int]);
        }
        lemma_first_sep_pin(tail, j - from);
    }
    if n == 0 {
        proof {
            if j == len {
                assert(tail =~= line@.subrange(from as int, j as int));
                assert(split_tabs(tail)[0] == tail);
            } else {
                assert(split_tabs(tail)[0] == tail.take(j - from));
                assert(tail.take(j - from) =~= line@.subrange(from as int, j as int));
            }
        }
        Some((from, j))
    } else if j == len {
        proof {
            assert(split_tabs(tail).len() == 1);
        }
        None
    } else {
        let ghost tail2 = line@.skip(j + 1 as int);
        proof {
            assert(tail.skip(j - from + 1) =~= tail2);
            assert(split_tabs(tail) == seq![tail.take(j - from)] + split_tabs(tail2));
        }
        field_range_from(line, j + 1, n - 1)
    }
}

/// Character range of field `n` of `line`, or `None` if the line has at
/// most `n` fields.
pub fn field_range(line: &str, n: usize) -> (r: Option<(usize, usize)>)
    ensures
        match r {
            Some(p) => {
                &&& n < num_fields(line@)
                &&& p.0 <= p.1 <= line@.len()
                &&& line@.subrange(p.0 as int, p.1 as int) == paf_field(line@, n as int)
            },
            None => num_fields(line@) <= n,
        },
{
    proof {
        assert(line@.skip(0) =~= line@);
    }
    field_range_from(line, 0, n)
}

/// Field `n` of `line` as a fresh string. The caller must know the line has
/// more than `n` fields.
fn field_string(line: &str, n: usize) -> (r: String)
    requires
        n < num_fields(line@),
    ensures
        r@ == paf_field(line@, n as int),
{
    match field_range(line, n) {
        Some((a, b)) => line.substring_char(a, b).to_owned(),
        None => vstd::pervasive::unreached(),
    }
}

/// Numeric field `n` of `line`. The caller must know the field exists and
/// is an unsigned decimal number.
fn field_number(line: &str, n: usize) -> (r: usize)
    requires
        n < num_fields(line@),
        is_usize_number(paf_field(line@, n as int)),
    ensures
        r == dec_value(paf_field(line@, n as int)),
{
    match field_range(line, n) {
        Some((a, b)) => match parse_usize(line, a, b) {
            Some(v) => v,
            None => vstd::pervasive::unreached(),
        },
        None => vstd::pervasive::unreached(),
    }
}

/// The query sequence name: field 0.
pub fn paf_query(line: &str) -> (r: String)
    ensures
        r@ == paf_field(line@, 0),
{
    proof {
        lemma_split_tabs_nonempty(line@);
    }
    field_string(line, 0)
}

/// The query sequence length: field 1.
pub fn paf_query_length(line: &str) -> (r: usize)
    requires
        num_fields(line@) > 1,
        is_usize_number(paf_field(line@, 1)),
    ensures
        r == dec_value(paf_field(line@, 1)),
{
    field_number(line, 1)
}

/// The query alignment begin (forward-strand coordinates): field 2.
pub fn paf_query_begin(line: &str) -> (r: usize)
    requires
        num_fields(line@) > 2,
        is_usize_number(paf_field(line@, 2)),
    ensures
        r == dec_value(paf_field(line@, 2)),
{
    field_number(line, 2)
}

/// The query alignment end (forward-strand coordinates): field 3.
pub fn paf_query_end(line: &str) -> (r: usize)
    requires
        num_fields(line@) > 3,
        is_usize_number(paf_field(line@, 3)),
    ensures
        r == dec_value(paf_field(line@, 3)),
{
    field_number(line, 3)
}

/// Whether the strand field (field 4) is the reverse symbol. Any other
/// content of field 4 counts as forward.
pub fn paf_query_is_rev(line: &str) -> (r: bool)
    requires
        num_fields(line@) > 4,
    ensures
        r <==> paf_field(line@, 4) == seq!['-'],
{
    match field_range(line, 4) {
        Some((a, b)) => {
            if b - a == 1 && line.get_char(a) == '-' {
                proof {
                    assert(paf_field(line@, 4) =~= seq!['-']);
                }
                true
            } else {
                proof {
                    if paf_field(line@, 4) == seq!['-'] {
                        assert(line@.subrange(a as int, b as int).len() == 1);
                        assert(line@.subrange(a as int, b as int)[0] == line@[a as int]);
                    }
                }
                false
            }
        },
        None => vstd::pervasive::unreached(),
    }
}

/// The target sequence name: field 5.
pub fn paf_target(line: &str) -> (r: String)
    requires
        num_fields(line@) > 5,
    ensures
        r@ == paf_field(line@, 5),
{
    field_string(line, 5)
}

/// The target sequence length: field 6.
pub fn paf_target_length(line: &str) -> (r: usize)
    requires
        num_fields(line@) > 6,
        is_usize_number(paf_field(line@, 6)),
    ensures
        r == dec_value(paf_field(line@, 6)),
{
    field_number(line, 6)
}

/// The target alignment begin: field 7.
pub fn paf_target_begin(line: &str) -> (r: usize)
    requires
        num_fields(line@) > 7,
        is_usize_number(paf_field(line@, 7)),
    ensures
        r == dec_value(paf_field(line@, 7)),
{
    field_number(line, 7)
}

/// The target alignment end: field 8.
pub fn paf_target_end(line: &str) -> (r: usize)
    requires
        num_fields(line@) > 8,
        is_usize_number(paf_field(line@, 8)),
    ensures
        r == dec_value(paf_field(line@, 8)),
{
    field_number(line, 8)
}

/// A field carrying an edit script: its content starts with the tag key
/// `cg:Z:`.
pub open spec fn is_cigar_tag(f: Seq<char>) -> bool {
    f.len() >= 5 && f[0] == 'c' && f[1] == 'g' && f[2] == ':' && f[3] == 'Z' && f[4] == ':'
}

/// The edit-script values among a sequence of fields: for every field that
/// carries the tag, its content past the key, in field order.
pub open spec fn cigar_values(fs: Seq<Seq<char>>) -> Seq<Seq<char>>
    decreases fs.len(),
{
    if fs.len() == 0 {
        Seq::empty()
    } else {
        let rest = cigar_values(fs.drop_last());
        if is_cigar_tag(fs.last()) {
            rest.push(fs.last().skip(5))
        } else {
            rest
        }
    }
}

/// The edit scripts of a line: the value of every `cg:Z:` tag, in field
/// order. Normally there is exactly one.
pub open spec fn cigars_of_line(s: Seq<char>) -> Seq<Seq<char>> {
    cigar_values(split_tabs(s))
}

proof fn lemma_num_fields_bound(s: Seq<char>)
    ensures
        num_fields(s) <= s.len() + 1,
    decreases s.len(),
{
    lemma_first_sep_bounds(s);
    if first_sep(s) != s.len() {
        lemma_num_fields_bound(s.skip(first_sep(s) + 1));
    }
}

/// Collect the values of every `cg:Z:` tag of `line`, in field order.
pub fn collect_cigars(line: &str) -> (r: Vec<String>)
    ensures
        r@.map_values(|c: String| c@) == cigars_of_line(line@),
{
    let ghost fs = split_tabs(line@);
    let len = line.unicode_len();
    proof {
        lemma_num_fields_bound(line@);
    }
    let mut out: Vec<String> = Vec::new();
    let mut n: usize = 0;
    loop
        invariant_except_break
            out@.map_values(|c: String| c@) == cigar_values(fs.take(n as int)),
        invariant
            n <= fs.len() <= len + 1,
            len == line@.len(),
            fs == split_tabs(line@),
        ensures
            out@.map_values(|c: String| c@) == cigar_values(fs),
        decreases fs.len() - n,
    {
        match field_range(line, n) {
            None => {
                proof {
                    assert(fs.take(n as int) =~= fs);
                }
                break;
            },
            Some((a, b)) => {
                let ghost f = fs[n as int];
                proof {
                    assert(fs.take(n + 1).drop_last() =~= fs.take(n as int));
                    assert(fs.take(n + 1).last() == f);
                }
                if b - a >= 5 && line.get_char(a) == 'c' && line.get_char(a + 1) == 'g'
                    && line.get_char(a + 2) == ':' && line.get_char(a + 3) == 'Z' && line.get_char(
                    a + 4,
                ) == ':' {
                    proof {
                        assert(f[0] == line@[a as int] && f[1] == line@[a + 1] && f[2] == line@[a
                            + 2] && f[3] == line@[a + 3] && f[4] == line@[a + 4]);
                        assert(is_cigar_tag(f));
                    }
                    let v = line.substring_char(a + 5, b).to_owned();
                    proof {
                        assert(v@ =~= f.skip(5));
                        assert(cigar_values(fs.take(n + 1)) == cigar_values(fs.take(n as int)).push(
                            f.skip(5),
                        ));
                        assert(out@.push(v).map_values(|c: String| c@) =~= out@.map_values(
                            |c: String| c@,
                        ).push(v@));
                    }
                    out.push(v);
                } else {
                    proof {
                        if is_cigar_tag(f) {
                            assert(f.len() == b - a);
                            assert(f[0] == line@[a as int] && f[1] == line@[a + 1] && f[2] == line@[
                                a + 2] && f[3] == line@[a + 3] && f[4] == line@[a + 4]);
                        }
                        assert(cigar_values(fs.take(n + 1)) == cigar_values(fs.take(n as int)));
                    }
                }
                if n >= len {
                    proof {
                        assert(n + 1 == fs.len());
                        assert(fs.take(n + 1) =~= fs);
                        assert(out@.map_values(|c: String| c@) == cigar_values(fs.take(n + 1)));
                    }
                    break;
                }
                n = n + 1;
            },
        }
    }
    out
}

/// One alignment record, decoded from a line: the nine required fields and
/// the edit scripts carried by its `cg:Z:` tags.
#[derive(Debug, Clone, PartialEq)]
pub struct PafRecord {
    pub query_name: String,
    pub query_length: usize,
    pub query_begin: usize,
    pub query_end: usize,
    pub query_rev: bool,
    pub target_name: String,
    pub target_length: usize,
    pub target_begin: usize,
    pub target_end: usize,
    pub cigars: Vec<String>,
}

/// The mathematical content of one record.
pub struct RecV {
    pub query_name: Seq<char>,
    pub query_length: nat,
    pub query_begin: nat,
    pub query_end: nat,
    pub query_rev: bool,
    pub target_name: Seq<char>,
    pub target_length: nat,
    pub target_begin: nat,
    pub target_end: nat,
    pub cigars: Seq<Seq<char>>,
}

impl View for PafRecord {
    type V = RecV;

    open spec fn view(&self) -> RecV {
        RecV {
            query_name: self.query_name@,
            query_length: self.query_length as nat,
            query_begin: self.query_begin as nat,
            query_end: self.query_end as nat,
            query_rev: self.query_rev,
            target_name: self.target_name@,
            target_length: self.target_length as nat,
            target_begin: self.target_begin as nat,
            target_end: self.target_end as nat,
            cigars: self.cigars@.map_values(|c: String| c@),
        }
    }
}

/// The alignment intervals of a record are ordered: each end is at or past
/// its begin. Every record the parser returns satisfies this.
pub open spec fn rec_valid(rv: RecV) -> bool {
    rv.query_begin <= rv.query_end && rv.target_begin <= rv.target_end
}

/// A line the parser accepts: at least nine tab-separated fields, unsigned
/// decimal numbers in the numeric fields, a strand symbol that is `+` or
/// `-`, and ordered alignment intervals.
pub open spec fn line_well_formed(s: Seq<char>) -> bool {
    &&& num_fields(s) >= 9
    &&& is_usize_number(paf_field(s, 1))
    &&& is_usize_number(paf_field(s, 2))
    &&& is_usize_number(paf_field(s, 3))
    &&& is_usize_number(paf_field(s, 6))
    &&& is_usize_number(paf_field(s, 7))
    &&& is_usize_number(paf_field(s, 8))
    &&& (paf_field(s, 4) == seq!['+'] || paf_field(s, 4) == seq!['-'])
    &&& dec_value(paf_field(s, 2)) <= dec_value(paf_field(s, 3))
    &&& dec_value(paf_field(s, 7)) <= dec_value(paf_field(s, 8))
}

/// The record a well-formed line denotes.
pub open spec fn rec_of_line(s: Seq<char>) -> RecV {
    RecV {
        query_name: paf_field(s, 0),
        query_length: dec_value(paf_field(s, 1)),
        query_begin: dec_value(paf_field(s, 2)),
        query_end: dec_value(paf_field(s, 3)),
        query_rev: paf_field(s, 4) == seq!['-'],
        target_name: paf_field(s, 5),
        target_length: dec_value(paf_field(s, 6)),
        target_begin: dec_value(paf_field(s, 7)),
        target_end: dec_value(paf_field(s, 8)),
        cigars: cigars_of_line(s),
    }
}

/// Parse one line into a record. Fails, fatally for the run, exactly on
/// lines that are not well formed.
pub fn parse_record(line: &str) -> (r: Result<PafRecord, PafError>)
    ensures
        match r {
            Ok(rec) => line_well_formed(line@) && rec@ == rec_of_line(line@) && rec_valid(rec@),
            Err(e) => e == PafError::MalformedRecord && !line_well_formed(line@),
        },
{
    if field_range(line, 8).is_none() {
        return Err(PafError::MalformedRecord);
    }
    let query_length = match parse_field_number(line, 1) {
        Ok(v) => v,
        Err(e) => {
            return Err(e);
        },
    };
    let query_begin = match parse_field_number(line, 2) {
        Ok(v) => v,
        Err(e) => {
            return Err(e);
        },
    };
    let query_end = match parse_field_number(line, 3) {
        Ok(v) => v,
        Err(e) => {
            return Err(e);
        },
    };
    let target_length = match parse_field_number(line, 6) {
        Ok(v) => v,
        Err(e) => {
            return Err(e);
        },
    };
    let target_begin = match parse_field_number(line, 7) {
        Ok(v) => v,
        Err(e) => {
            return Err(e);
        },
    };
    let target_end = match parse_field_number(line, 8) {
        Ok(v) => v,
        Err(e) => {
            return Err(e);
        },
    };
    if query_end < query_begin || target_end < target_begin {
        return Err(PafError::MalformedRecord);
    }
    let query_rev = match field_range(line, 4) {
        Some((a, b)) => {
            if b - a != 1 {
                proof {
                    if paf_field(line@, 4) == seq!['+'] || paf_field(line@, 4) == seq!['-'] {
                        assert(line@.subrange(a as int, b as int).len() == 1);
                    }
                }
                return Err(PafError::MalformedRecord);
            }
            let c = line.get_char(a);
            proof {
                assert(line@.subrange(a as int, b as int)[0] == line@[a as int]);
                assert(paf_field(line@, 4) =~= seq![line@[a as int]]);
            }
            if c == '-' {
                true
            } else if c == '+' {
                false
            } else {
                proof {
                    assert(paf_field(line@, 4) != seq!['+'] && paf_field(line@, 4) != seq!['-'])
                        by {
                        assert(seq!['+'][0] == '+' && seq!['-'][0] == '-');
                    }
                }
                return Err(PafError::MalformedRecord);
            }
        },
        None => vstd::pervasive::unreached(),
    };
    let rec = PafRecord {
        query_name: paf_query(line),
        query_length,
        query_begin,
        query_end,
        query_rev,
        target_name: paf_target(line),
        target_length,
        target_begin,
        target_end,
        cigars: collect_cigars(line),
    };
    Ok(rec)
}

/// Parse numeric field `n`, failing exactly when it is not an unsigned
/// decimal number fitting a machine word.
fn parse_field_number(line: &str, n: usize) -> (r: Result<usize, PafError>)
    requires
        n < num_fields(line@),
    ensures
        match r {
            Ok(v) => is_usize_number(paf_field(line@, n as int)) && v == dec_value(
                paf_field(line@, n as int),
            ),
            Err(e) => e == PafError::MalformedRecord && !is_usize_number(
                paf_field(line@, n as int),
            ),
        },
{
    match field_range(line, n) {
        Some((a, b)) => match parse_usize(line, a, b) {
            Some(v) => Ok(v),
            None => Err(PafError::MalformedRecord),
        },
        None => vstd::pervasive::unreached(),
    }
}

} // verus!
