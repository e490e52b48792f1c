//! The log-tail computation: which suffix of a log file a logs request
//! receives as its first message.
//!
//! The file is split at inclusive newlines — each line carries its
//! terminating newline, and a trailing piece without one counts as a
//! line. A tail count of zero, or one at least the number of lines,
//! selects the whole file; otherwise the last `tail` lines are selected.

use vstd::prelude::*;
use vstd::slice::slice_subrange;
use vstd::slice::slice_to_vec;

verus! {

/// The newline byte.
pub open spec fn is_newline(b: u8) -> bool {
    b == 10
}

/// How many newline bytes the sequence holds.
pub open spec fn spec_newline_count(b: Seq<u8>) -> nat
    decreases b.len(),
{
    if b.len() == 0 {
        0
    } else {
        spec_newline_count(b.drop_last()) + (if is_newline(b.last()) {
            1nat
        } else {
            0nat
        })
    }
}

/// How many lines the sequence holds when split at inclusive newlines:
/// one per newline, plus one for a trailing piece without one.
pub open spec fn spec_line_count(b: Seq<u8>) -> nat {
    if b.len() == 0 {
        0
    } else {
        spec_newline_count(b.take(b.len() - 1)) + 1
    }
}

/// The suffix that begins after the `k`-th newline.
pub open spec fn spec_after_newlines(b: Seq<u8>, k: nat) -> Seq<u8>
    decreases b.len(),
{
    if k == 0 || b.len() == 0 {
        b
    } else if is_newline(b[0]) {
        spec_after_newlines(b.drop_first(), (k - 1) as nat)
    } else {
        spec_after_newlines(b.drop_first(), k)
    }
}

/// The suffix a logs request receives first: the whole file for a zero
/// or over-large tail count, the last `tail` lines otherwise.
pub open spec fn spec_tail(b: Seq<u8>, tail: u32) -> Seq<u8> {
    if tail == 0 || tail >= spec_line_count(b) {
        b
    } else {
        spec_after_newlines(b, (spec_line_count(b) - tail) as nat)
    }
}

/// A sequence holds no more newlines than bytes.
proof fn lemma_newline_count_le_len(b: Seq<u8>)
    ensures
        spec_newline_count(b) <= b.len(),
    decreases b.len(),
{
    if b.len() > 0 {
        lemma_newline_count_le_len(b.drop_last());
    }
}

/// Newlines in a prefix never outnumber those in the whole.
proof fn lemma_newline_count_take_le(b: Seq<u8>, p: int)
    requires
        0 <= p <= b.len(),
    ensures
        spec_newline_count(b.take(p)) <= spec_newline_count(b),
    decreases b.len() - p,
{
    if p < b.len() {
        lemma_newline_count_take_le(b, p + 1);
        assert(b.take(p + 1).drop_last() =~= b.take(p));
    } else {
        assert(b.take(p) =~= b);
    }
}

/// Selects the tail of the current log contents.
#[verifier::loop_isolation(false)]
pub fn tail_slice(content: &Vec<u8>, tail: u32) -> (r: Vec<u8>)
    ensures
        r@ == spec_tail(content@, tail),
        tail == 0 ==> r@ == content@,
        tail >= spec_line_count(content@) ==> r@ == content@,
{
    let n = content.len();
    proof {
        assert(content@.take(n as int) =~= content@);
    }
    // Count the newlines, to know the line count.
    let mut newlines: usize = 0;
    let mut i: usize = 0;
    while i < n
        invariant
            i <= n,
            newlines as nat == spec_newline_count(content@.take(i as int)),
            newlines <= i,
        decreases n - i,
    {
        proof {
            assert(content@.take(i + 1).drop_last() =~= content@.take(i as int));
        }
        if content[i] == 10 {
            newlines = newlines + 1;
        }
        i = i + 1;
    }
    let lines: usize = if n == 0 {
        0
    } else if content[n - 1] == 10 {
        proof {
            assert(content@.take(n as int).drop_last() =~= content@.take(n - 1));
        }
        newlines
    } else {
        proof {
            assert(content@.take(n as int).drop_last() =~= content@.take(n - 1));
            lemma_newline_count_le_len(content@.take(n - 1));
        }
        newlines + 1
    };
    proof {
        assert(lines as nat == spec_line_count(content@));
    }
    if tail == 0 || tail as usize >= lines {
        return slice_to_vec(content.as_slice());
    }
    // Skip the lines before the tail: advance past their newlines.
    let skip: usize = lines - tail as usize;
    let mut seen: usize = 0;
    let mut p: usize = 0;
    while seen < skip
        invariant
            0 <= p <= n,
            seen <= skip,
            seen as nat == spec_newline_count(content@.take(p as int)),
            skip <= newlines,
            spec_after_newlines(content@, skip as nat) == spec_after_newlines(
                content@.skip(p as int),
                (skip - seen) as nat,
            ),
        decreases n - p, skip - seen,
    {
        proof {
            if p >= n {
                assert(content@.take(p as int) =~= content@);
                assert(false);
            }
            lemma_newline_count_take_le(content@, p as int);
            assert(content@.take(p + 1).drop_last() =~= content@.take(p as int));
            assert(content@.skip(p as int).drop_first() =~= content@.skip(p + 1));
            assert(content@.skip(p as int)[0] == content@[p as int]);
        }
        if content[p] == 10 {
            seen = seen + 1;
        }
        p = p + 1;
    }
    proof {
        assert(spec_after_newlines(content@.skip(p as int), 0) == content@.skip(p as int));
    }
    slice_to_vec(slice_subrange(content.as_slice(), p, n))
}

} // verus!
