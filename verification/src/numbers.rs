//! Decimal run-length and coordinate parsing.
//!
//! Every numeric field of an alignment record, and every run length of an
//! edit script, is an unsigned base-10 integer. The spec-level meaning of a
//! digit string is given by `dec_value`; the executable parser is proved to
//! return exactly that value, and to reject exactly the strings that are not
//! unsigned decimal numbers fitting a machine word.

use vstd::prelude::*;

verus! {

/// A decimal digit.
pub open spec fn is_digit(c: char) -> bool {
    '0' <= c && c <= '9'
}

/// The numeric value of one digit.
pub open spec fn digit_val(c: char) -> nat {
    (c as nat - '0' as nat) as nat
}

/// Every character of `s` is a decimal digit.
pub open spec fn all_digits(s: Seq<char>) -> bool {
    forall|i: int| 0 <= i < s.len() ==> is_digit(#[trigger] s[i])
}

/// The value of a digit string, most significant digit first.
pub open spec fn dec_value(s: Seq<char>) -> nat
    decreases s.len(),
{
    if s.len() == 0 {
        0
    } else {
        dec_value(s.drop_last()) * 10 + digit_val(s.last())
    }
}

/// A non-empty digit string whose value fits in a machine word.
pub open spec fn is_usize_number(s: Seq<char>) -> bool {
    s.len() > 0 && all_digits(s) && dec_value(s) <= usize::MAX
}

/// Extending a digit string on the right can only grow its value.
pub proof fn lemma_dec_value_take_grows(s: Seq<char>, k: int)
    requires
        0 <= k <= s.len(),
    ensures
        dec_value(s.take(k)) <= dec_value(s),
    decreases s.len() - k,
{
    if k < s.len() {
        assert(s.take(k + 1).drop_last() =~= s.take(k));
        assert(dec_value(s.take(k + 1)) == dec_value(s.take(k)) * 10 + digit_val(s.take(k + 1).last()));
        assert(dec_value(s.take(k)) <= dec_value(s.take(k)) * 10) by (nonlinear_arith);
        lemma_dec_value_take_grows(s, k + 1);
        assert(s.take(s.len() as int) =~= s);
    } else {
        assert(s.take(k) =~= s);
    }
}

/// Parse the character range `[from, to)` of `s` as an unsigned decimal
/// number. Returns `None` exactly when the range is empty, holds a
/// non-digit, or does not fit in a machine word.
pub fn parse_usize(s: &str, from: usize, to: usize) -> (r: Option<usize>)
    requires
        from <= to <= s@.len(),
    ensures
        match r {
            Some(v) => is_usize_number(s@.subrange(from as int, to as int)) && v == dec_value(
                s@.subrange(from as int, to as int),
            ),
            None => !is_usize_number(s@.subrange(from as int, to as int)),
        },
{
    let ghost sub = s@.subrange(from as int, to as int);
    if from == to {
        return None;
    }
    let mut acc: usize = 0;
    let mut i: usize = from;
    while i < to
        invariant
            from <= i <= to <= s@.len(),
            sub == s@.subrange(from as int, to as int),
            all_digits(sub.take(i - from)),
            acc == dec_value(sub.take(i - from)),
        decreases to - i,
    {
        let c = s.get_char(i);
        assert(c == sub[i - from]);
        if c < '0' || c > '9' {
            assert(!all_digits(sub)) by {
                assert(sub[i - from] == c && !is_digit(c));
            }
            return None;
        }
        let d: usize = (c as u32 as usize) - ('0' as u32 as usize);
        assert(d == digit_val(c) && d <= 9);
        if acc > (usize::MAX - d) / 10 {
            assert(acc * 10 + d > usize::MAX) by (nonlinear_arith)
                requires
                    acc > (usize::MAX - d) / 10,
                    d <= 9,
            ;
            proof {
                assert(sub.take(i - from + 1).drop_last() =~= sub.take(i - from));
                assert(dec_value(sub.take(i - from + 1)) == acc * 10 + d);
                lemma_dec_value_take_grows(sub, i - from + 1);
            }
            return None;
        }
        assert(acc * 10 + d <= usize::MAX) by (nonlinear_arith)
            requires
                acc <= (usize::MAX - d) / 10,
                d <= 9,
        ;
        proof {
            assert(sub.take(i - from + 1).drop_last() =~= sub.take(i - from));
            assert(sub.take(i - from + 1).last() == c);
        }
        acc = acc * 10 + d;
        i = i + 1;
    }
    assert(sub.take(to - from) =~= sub);
    Some(acc)
}

} // verus!
