//! Ordering: what it means for a sequence to be sorted, outright or by a
//! remainder key, and why one stable counting-sort pass extends the sorted
//! range of digits by one.

use vstd::prelude::*;
use vstd::arithmetic::div_mod::{lemma_mod_bound, lemma_small_mod};
use crate::digits::{digit_at, lemma_digit_mod_split};
use crate::buckets::{
    bucket_of, bucket_start, lemma_bucket_membership, lemma_bucket_push, lemma_bucket_start_total,
    lemma_position_digit,
};

verus! {

broadcast use vstd::seq_lib::group_filter_ensures;

/// `s` is sorted ascending.
pub open spec fn sorted_le(s: Seq<u64>) -> bool {
    forall|i: int, j: int| #![trigger s[i], s[j]] 0 <= i < j < s.len() ==> s[i] <= s[j]
}

/// `s` is sorted ascending by the key `value % m`.
pub open spec fn sorted_by_mod(s: Seq<u64>, m: int) -> bool {
    forall|i: int, j: int|
        #![trigger s[i], s[j]]
        0 <= i < j < s.len() ==> (s[i] as int) % m <= (s[j] as int) % m
}

/// `s` is sorted ascending by the digit at `digit_mask`.
pub open spec fn sorted_by_digit(s: Seq<u64>, digit_mask: u64, radix: u64) -> bool {
    forall|i: int, j: int|
        0 <= i < j < s.len() ==> #[trigger] digit_at(s[i], digit_mask, radix) <= #[trigger] digit_at(
            s[j],
            digit_mask,
            radix,
        )
}

/// Everything is sorted by the key `value % 1`: that key is always zero.
pub proof fn lemma_sorted_by_mod_one(s: Seq<u64>)
    ensures
        sorted_by_mod(s, 1),
{
    assert forall|i: int, j: int|
        #![trigger s[i], s[j]]
        0 <= i < j < s.len() implies (s[i] as int) % 1 <= (s[j] as int) % 1 by {
        lemma_mod_bound(s[i] as int, 1);
        lemma_mod_bound(s[j] as int, 1);
    }
}

/// Once the modulus exceeds every value, sorting by `value % m` is sorting
/// by the value itself.
pub proof fn lemma_sorted_when_mod_covers(s: Seq<u64>, m: int, bound: u64)
    requires
        (bound as int) < m,
        forall|k: int| 0 <= k < s.len() ==> #[trigger] s[k] <= bound,
        sorted_by_mod(s, m),
    ensures
        sorted_le(s),
{
    assert forall|i: int, j: int|
        #![trigger s[i], s[j]]
        0 <= i < j < s.len() implies s[i] <= s[j] by {
        lemma_small_mod(s[i] as nat, m as nat);
        lemma_small_mod(s[j] as nat, m as nat);
    }
}

/// Filtering by one digit keeps a sequence sorted by `value % m`: a bucket
/// of a sorted-by-remainder input is itself sorted by that remainder.
pub proof fn lemma_bucket_sorted_by_mod(s: Seq<u64>, digit_mask: u64, radix: u64, d: int, m: int)
    requires
        sorted_by_mod(s, m),
    ensures
        sorted_by_mod(bucket_of(s, digit_mask, radix, d), m),
    decreases s.len(),
{
    if s.len() == 0 {
        assert(bucket_of(s, digit_mask, radix, d).len() <= 0);
    } else {
        let dl = s.drop_last();
        assert forall|i: int, j: int|
            #![trigger dl[i], dl[j]]
            0 <= i < j < dl.len() implies (dl[i] as int) % m <= (dl[j] as int) % m by {
            assert(dl[i] == s[i]);
            assert(dl[j] == s[j]);
        }
        lemma_bucket_sorted_by_mod(dl, digit_mask, radix, d, m);
        lemma_bucket_membership(dl, digit_mask, radix, d);
        assert(dl.push(s.last()) =~= s);
        lemma_bucket_push(dl, s.last(), digit_mask, radix, d);
        let b = bucket_of(s, digit_mask, radix, d);
        let bdl = bucket_of(dl, digit_mask, radix, d);
        if digit_at(s.last(), digit_mask, radix) == d {
            assert forall|i: int, j: int|
                #![trigger b[i], b[j]]
                0 <= i < j < b.len() implies (b[i] as int) % m <= (b[j] as int) % m by {
                if j < bdl.len() {
                    assert(b[i] == bdl[i]);
                    assert(b[j] == bdl[j]);
                } else {
                    assert(b[j] == s.last());
                    assert(b[i] == bdl[i]);
                    assert(dl.contains(bdl[i]));
                    let k = choose|k: int| 0 <= k < dl.len() && dl[k] == bdl[i];
                    assert(s[k] == bdl[i]);
                    assert(s[s.len() - 1] == s.last());
                }
            }
        }
    }
}

/// The step a counting-sort pass makes: if the input is sorted by
/// `value % digit_mask` and the output lays the input's buckets for the
/// digit at `digit_mask` out in digit order, each kept in input order, then
/// the output is sorted by `value % (digit_mask * radix)`.
#[verifier::rlimit(30)]
pub proof fn lemma_pass_refines(inp: Seq<u64>, out: Seq<u64>, digit_mask: u64, radix: u64)
    requires
        digit_mask >= 1,
        radix >= 1,
        sorted_by_mod(inp, digit_mask as int),
        out.len() == inp.len(),
        forall|e: int|
            0 <= e < radix ==> out.subrange(
                bucket_start(inp, digit_mask, radix, e),
                bucket_start(inp, digit_mask, radix, e + 1),
            ) == #[trigger] bucket_of(inp, digit_mask, radix, e),
    ensures
        sorted_by_mod(out, (digit_mask as int) * (radix as int)),
{
    let m = digit_mask as int;
    let r = radix as int;
    lemma_bucket_start_total(inp, digit_mask, radix);
    assert forall|i: int, j: int|
        #![trigger out[i], out[j]]
        0 <= i < j < out.len() implies (out[i] as int) % (m * r) <= (out[j] as int) % (m * r) by {
        let di = lemma_position_digit(inp, out, digit_mask, radix, i);
        let dj = lemma_position_digit(inp, out, digit_mask, radix, j);
        lemma_digit_mod_split(out[i], digit_mask, radix);
        lemma_digit_mod_split(out[j], digit_mask, radix);
        lemma_mod_bound(out[i] as int, m);
        lemma_mod_bound(out[j] as int, m);
        if dj < di {
            crate::buckets::lemma_bucket_start_monotone(inp, digit_mask, radix, dj + 1, di);
            assert(false);
        } else if di < dj {
            assert((out[i] as int) % (m * r) <= (out[j] as int) % (m * r)) by (nonlinear_arith)
                requires
                    (out[i] as int) % (m * r) == m * di + (out[i] as int) % m,
                    (out[j] as int) % (m * r) == m * dj + (out[j] as int) % m,
                    0 <= (out[i] as int) % m < m,
                    0 <= (out[j] as int) % m,
                    di + 1 <= dj,
                    m >= 1,
            ;
        } else {
            let a = bucket_start(inp, digit_mask, radix, di);
            let b = bucket_start(inp, digit_mask, radix, di + 1);
            crate::buckets::lemma_bucket_start_monotone(inp, digit_mask, radix, 0, di);
            crate::buckets::lemma_bucket_start_monotone(inp, digit_mask, radix, di + 1, radix as int);
            assert(0 <= a && b <= out.len());
            let sub = out.subrange(a, b);
            assert(sub == bucket_of(inp, digit_mask, radix, di));
            lemma_bucket_sorted_by_mod(inp, digit_mask, radix, di, m);
            assert(out[i] == sub[i - a]);
            assert(out[j] == sub[j - a]);
            assert((sub[i - a] as int) % m <= (sub[j - a] as int) % m);
        }
    }
}

} // verus!
