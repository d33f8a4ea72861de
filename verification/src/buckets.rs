//! Buckets: the elements of a sequence that share one digit value, in their
//! original order, and where each digit's bucket begins in the output of a
//! counting-sort pass.

use vstd::prelude::*;
use crate::digits::{digit_at, lemma_digit_at_bound};

verus! {

broadcast use vstd::seq_lib::group_filter_ensures;

/// The elements of `s` whose digit at `digit_mask` is `d`, in order.
pub open spec fn bucket_of(s: Seq<u64>, digit_mask: u64, radix: u64, d: int) -> Seq<u64> {
    s.filter(|x: u64| digit_at(x, digit_mask, radix) == d)
}

/// Where the bucket for digit `d` begins when the buckets for digits
/// `0 .. d` are laid out one after another: the number of elements of `s`
/// whose digit is below `d`.
pub open spec fn bucket_start(s: Seq<u64>, digit_mask: u64, radix: u64, d: int) -> int
    decreases d,
{
    if d <= 0 {
        0
    } else {
        bucket_start(s, digit_mask, radix, d - 1) + bucket_of(s, digit_mask, radix, d - 1).len()
    }
}

/// The buckets for digits `0 .. d`, laid out one after another.
pub open spec fn buckets_concat(s: Seq<u64>, digit_mask: u64, radix: u64, d: int) -> Seq<u64>
    decreases d,
{
    if d <= 0 {
        Seq::empty()
    } else {
        buckets_concat(s, digit_mask, radix, d - 1) + bucket_of(s, digit_mask, radix, d - 1)
    }
}

/// Appending one element extends its own bucket and leaves every other
/// bucket unchanged.
pub proof fn lemma_bucket_push(s: Seq<u64>, x: u64, digit_mask: u64, radix: u64, d: int)
    ensures
        bucket_of(s.push(x), digit_mask, radix, d) == (if digit_at(x, digit_mask, radix) == d {
            bucket_of(s, digit_mask, radix, d).push(x)
        } else {
            bucket_of(s, digit_mask, radix, d)
        }),
{
    reveal(Seq::filter);
    assert(s.push(x).drop_last() =~= s);
    assert(s.push(x).last() == x);
}

/// A one-element sequence is its own bucket for its digit, and empty for
/// every other digit.
pub proof fn lemma_bucket_singleton(x: u64, digit_mask: u64, radix: u64, d: int)
    ensures
        bucket_of(seq![x], digit_mask, radix, d) == (if digit_at(x, digit_mask, radix) == d {
            seq![x]
        } else {
            Seq::<u64>::empty()
        }),
{
    assert(Seq::<u64>::empty().push(x) =~= seq![x]);
    lemma_bucket_push(Seq::<u64>::empty(), x, digit_mask, radix, d);
    assert(bucket_of(Seq::<u64>::empty(), digit_mask, radix, d).len() <= 0);
    assert(bucket_of(Seq::<u64>::empty(), digit_mask, radix, d) =~= Seq::<u64>::empty());
    if digit_at(x, digit_mask, radix) == d {
        assert(Seq::<u64>::empty().push(x) =~= seq![x]);
    }
}

/// Every element of a bucket occurs in the sequence it was taken from.
pub proof fn lemma_bucket_membership(s: Seq<u64>, digit_mask: u64, radix: u64, d: int)
    ensures
        forall|k: int|
            0 <= k < bucket_of(s, digit_mask, radix, d).len() ==> s.contains(
                #[trigger] bucket_of(s, digit_mask, radix, d)[k],
            ),
    decreases s.len(),
{
    if s.len() == 0 {
        assert(bucket_of(s, digit_mask, radix, d).len() <= 0);
    } else {
        let dl = s.drop_last();
        lemma_bucket_membership(dl, digit_mask, radix, d);
        assert(dl.push(s.last()) =~= s);
        lemma_bucket_push(dl, s.last(), digit_mask, radix, d);
        let b = bucket_of(s, digit_mask, radix, d);
        let bdl = bucket_of(dl, digit_mask, radix, d);
        assert forall|k: int| 0 <= k < b.len() implies s.contains(#[trigger] b[k]) by {
            if k < bdl.len() {
                assert(b[k] == bdl[k]);
                assert(dl.contains(bdl[k]));
                let i = choose|i: int| 0 <= i < dl.len() && dl[i] == bdl[k];
                assert(s[i] == bdl[k]);
            } else {
                assert(b[k] == s.last());
                assert(s[s.len() - 1] == s.last());
            }
        }
    }
}

/// A sequence whose elements all carry digit `d` is its own bucket for `d`.
pub proof fn lemma_bucket_all(t: Seq<u64>, digit_mask: u64, radix: u64, d: int)
    requires
        forall|k: int| 0 <= k < t.len() ==> digit_at(#[trigger] t[k], digit_mask, radix) == d,
    ensures
        bucket_of(t, digit_mask, radix, d) == t,
    decreases t.len(),
{
    if t.len() == 0 {
        assert(bucket_of(t, digit_mask, radix, d).len() <= 0);
        assert(bucket_of(t, digit_mask, radix, d) =~= t);
    } else {
        let dl = t.drop_last();
        lemma_bucket_all(dl, digit_mask, radix, d);
        assert(dl.push(t.last()) =~= t);
        lemma_bucket_push(dl, t.last(), digit_mask, radix, d);
        assert(digit_at(t[t.len() - 1], digit_mask, radix) == d);
        assert(bucket_of(t, digit_mask, radix, d) =~= t);
    }
}

/// A sequence none of whose elements carries digit `d` has an empty bucket
/// for `d`.
pub proof fn lemma_bucket_none(t: Seq<u64>, digit_mask: u64, radix: u64, d: int)
    requires
        forall|k: int| 0 <= k < t.len() ==> digit_at(#[trigger] t[k], digit_mask, radix) != d,
    ensures
        bucket_of(t, digit_mask, radix, d) == Seq::<u64>::empty(),
    decreases t.len(),
{
    if t.len() == 0 {
        assert(bucket_of(t, digit_mask, radix, d).len() <= 0);
        assert(bucket_of(t, digit_mask, radix, d) =~= Seq::<u64>::empty());
    } else {
        let dl = t.drop_last();
        lemma_bucket_none(dl, digit_mask, radix, d);
        assert(dl.push(t.last()) =~= t);
        lemma_bucket_push(dl, t.last(), digit_mask, radix, d);
        assert(digit_at(t[t.len() - 1], digit_mask, radix) != d);
    }
}

/// Appending one element moves every later bucket start up by one and
/// leaves the earlier ones in place.
pub proof fn lemma_bucket_start_push(s: Seq<u64>, x: u64, digit_mask: u64, radix: u64, d: int)
    ensures
        bucket_start(s.push(x), digit_mask, radix, d) == bucket_start(s, digit_mask, radix, d) + (
        if 0 <= digit_at(x, digit_mask, radix) < d {
            1int
        } else {
            0int
        }),
    decreases d,
{
    if d <= 0 {
    } else {
        lemma_bucket_start_push(s, x, digit_mask, radix, d - 1);
        lemma_bucket_push(s, x, digit_mask, radix, d - 1);
    }
}

/// Bucket starts never move backwards as the digit grows.
pub proof fn lemma_bucket_start_monotone(
    s: Seq<u64>,
    digit_mask: u64,
    radix: u64,
    d1: int,
    d2: int,
)
    requires
        d1 <= d2,
    ensures
        bucket_start(s, digit_mask, radix, d1) <= bucket_start(s, digit_mask, radix, d2),
    decreases d2 - d1,
{
    if d1 < d2 {
        lemma_bucket_start_monotone(s, digit_mask, radix, d1, d2 - 1);
    }
}

/// The buckets for all digits `0 .. radix` together hold every element:
/// the start one past the last digit is the length of the sequence.
pub proof fn lemma_bucket_start_total(s: Seq<u64>, digit_mask: u64, radix: u64)
    requires
        digit_mask >= 1,
        radix >= 1,
    ensures
        bucket_start(s, digit_mask, radix, radix as int) == s.len(),
    decreases s.len(),
{
    if s.len() == 0 {
        lemma_bucket_start_empty(s, digit_mask, radix, radix as int);
    } else {
        let dl = s.drop_last();
        lemma_bucket_start_total(dl, digit_mask, radix);
        assert(dl.push(s.last()) =~= s);
        lemma_bucket_start_push(dl, s.last(), digit_mask, radix, radix as int);
        lemma_digit_at_bound(s.last(), digit_mask, radix);
    }
}

/// Every bucket of the empty sequence is empty, so every start is zero.
pub proof fn lemma_bucket_start_empty(s: Seq<u64>, digit_mask: u64, radix: u64, d: int)
    requires
        s.len() == 0,
    ensures
        bucket_start(s, digit_mask, radix, d) == 0,
    decreases d,
{
    if d > 0 {
        lemma_bucket_start_empty(s, digit_mask, radix, d - 1);
        assert(bucket_of(s, digit_mask, radix, d - 1).len() <= 0);
    }
}

/// The concatenation of no buckets is empty.
pub proof fn lemma_buckets_concat_empty(s: Seq<u64>, digit_mask: u64, radix: u64, d: int)
    requires
        s.len() == 0,
    ensures
        buckets_concat(s, digit_mask, radix, d) == Seq::<u64>::empty(),
    decreases d,
{
    if d > 0 {
        lemma_buckets_concat_empty(s, digit_mask, radix, d - 1);
        assert(bucket_of(s, digit_mask, radix, d - 1).len() <= 0);
        assert(buckets_concat(s, digit_mask, radix, d) =~= Seq::<u64>::empty());
    }
}

/// Appending one element to the input adds it once to the concatenated
/// buckets, as long as its digit lies below the cut-off `d`.
pub proof fn lemma_buckets_concat_push(s: Seq<u64>, x: u64, digit_mask: u64, radix: u64, d: int)
    ensures
        buckets_concat(s.push(x), digit_mask, radix, d).to_multiset() == (if 0 <= digit_at(
            x,
            digit_mask,
            radix,
        ) < d {
            buckets_concat(s, digit_mask, radix, d).to_multiset().insert(x)
        } else {
            buckets_concat(s, digit_mask, radix, d).to_multiset()
        }),
    decreases d,
{
    broadcast use vstd::seq_lib::group_to_multiset_ensures;
    broadcast use vstd::multiset::group_multiset_axioms;

    if d <= 0 {
    } else {
        lemma_buckets_concat_push(s, x, digit_mask, radix, d - 1);
        lemma_bucket_push(s, x, digit_mask, radix, d - 1);
        let ca = buckets_concat(s, digit_mask, radix, d - 1);
        let cb = buckets_concat(s.push(x), digit_mask, radix, d - 1);
        let ba = bucket_of(s, digit_mask, radix, d - 1);
        let bb = bucket_of(s.push(x), digit_mask, radix, d - 1);
        vstd::seq_lib::lemma_multiset_commutative(cb, bb);
        vstd::seq_lib::lemma_multiset_commutative(ca, ba);
        let dx = digit_at(x, digit_mask, radix);
        if dx == d - 1 {
            assert(bb.to_multiset() == ba.to_multiset().insert(x));
            assert(cb.to_multiset().add(ba.to_multiset().insert(x)) =~= ca.to_multiset().add(
                ba.to_multiset(),
            ).insert(x));
        } else if 0 <= dx < d - 1 {
            assert(ca.to_multiset().insert(x).add(ba.to_multiset()) =~= ca.to_multiset().add(
                ba.to_multiset(),
            ).insert(x));
        }
    }
}

/// The buckets for all digits `0 .. radix`, laid out one after another,
/// hold exactly the elements of the input.
pub proof fn lemma_buckets_concat_multiset(s: Seq<u64>, digit_mask: u64, radix: u64)
    requires
        digit_mask >= 1,
        radix >= 1,
    ensures
        buckets_concat(s, digit_mask, radix, radix as int).to_multiset() == s.to_multiset(),
    decreases s.len(),
{
    broadcast use vstd::seq_lib::group_to_multiset_ensures;

    if s.len() == 0 {
        lemma_buckets_concat_empty(s, digit_mask, radix, radix as int);
        assert(s =~= Seq::<u64>::empty());
    } else {
        let dl = s.drop_last();
        lemma_buckets_concat_multiset(dl, digit_mask, radix);
        assert(dl.push(s.last()) =~= s);
        lemma_digit_at_bound(s.last(), digit_mask, radix);
        lemma_buckets_concat_push(dl, s.last(), digit_mask, radix, radix as int);
    }
}

/// Filtering the concatenated buckets by one digit gives back that digit's
/// bucket of the input.
pub proof fn lemma_buckets_concat_filter(
    s: Seq<u64>,
    digit_mask: u64,
    radix: u64,
    d: int,
    dd: int,
)
    requires
        0 <= d,
    ensures
        bucket_of(buckets_concat(s, digit_mask, radix, dd), digit_mask, radix, d) == (if d < dd {
            bucket_of(s, digit_mask, radix, d)
        } else {
            Seq::<u64>::empty()
        }),
    decreases dd,
{
    broadcast use vstd::prelude::Seq::filter_distributes_over_add;

    if dd <= 0 {
        assert(bucket_of(Seq::<u64>::empty(), digit_mask, radix, d).len() <= 0);
        assert(bucket_of(Seq::<u64>::empty(), digit_mask, radix, d) =~= Seq::<u64>::empty());
    } else {
        lemma_buckets_concat_filter(s, digit_mask, radix, d, dd - 1);
        let ca = buckets_concat(s, digit_mask, radix, dd - 1);
        let ba = bucket_of(s, digit_mask, radix, dd - 1);
        assert(bucket_of(ca + ba, digit_mask, radix, d) == bucket_of(ca, digit_mask, radix, d)
            + bucket_of(ba, digit_mask, radix, d));
        if d == dd - 1 {
            lemma_bucket_all(ba, digit_mask, radix, d);
            assert(Seq::<u64>::empty() + ba =~= ba);
        } else {
            lemma_bucket_none(ba, digit_mask, radix, d);
            if d < dd - 1 {
                assert(bucket_of(s, digit_mask, radix, d) + Seq::<u64>::empty() =~= bucket_of(
                    s,
                    digit_mask,
                    radix,
                    d,
                ));
            } else {
                assert(Seq::<u64>::empty() + Seq::<u64>::empty() =~= Seq::<u64>::empty());
            }
        }
    }
}

/// Every position below the total of all buckets falls inside the span of
/// exactly one digit's bucket.
pub proof fn lemma_index_block(s: Seq<u64>, digit_mask: u64, radix: u64, dd: int, i: int)
    requires
        0 <= i < bucket_start(s, digit_mask, radix, dd),
    ensures
        exists|d: int|
            0 <= d < dd && #[trigger] bucket_start(s, digit_mask, radix, d) <= i < bucket_start(
                s,
                digit_mask,
                radix,
                d + 1,
            ),
    decreases dd,
{
    if dd <= 0 {
    } else {
        if i >= bucket_start(s, digit_mask, radix, dd - 1) {
            assert(bucket_start(s, digit_mask, radix, dd - 1) <= i < bucket_start(
                s,
                digit_mask,
                radix,
                dd,
            ));
        } else {
            lemma_index_block(s, digit_mask, radix, dd - 1, i);
        }
    }
}

/// A sequence whose spans `[bucket_start(d), bucket_start(d+1))` each hold
/// digit `d`'s bucket is, up to any cut-off, the concatenation of those
/// buckets.
pub proof fn lemma_out_is_concat(s: Seq<u64>, out: Seq<u64>, digit_mask: u64, radix: u64, d: int)
    requires
        digit_mask >= 1,
        radix >= 1,
        0 <= d <= radix,
        out.len() == s.len(),
        forall|e: int|
            0 <= e < radix ==> out.subrange(
                bucket_start(s, digit_mask, radix, e),
                bucket_start(s, digit_mask, radix, e + 1),
            ) == #[trigger] bucket_of(s, digit_mask, radix, e),
    ensures
        out.subrange(0, bucket_start(s, digit_mask, radix, d)) == buckets_concat(
            s,
            digit_mask,
            radix,
            d,
        ),
    decreases d,
{
    if d <= 0 {
        assert(out.subrange(0, 0) =~= Seq::<u64>::empty());
    } else {
        lemma_out_is_concat(s, out, digit_mask, radix, d - 1);
        let a = bucket_start(s, digit_mask, radix, d - 1);
        let b = bucket_start(s, digit_mask, radix, d);
        lemma_bucket_start_monotone(s, digit_mask, radix, 0, d - 1);
        lemma_bucket_start_monotone(s, digit_mask, radix, d, radix as int);
        lemma_bucket_start_total(s, digit_mask, radix);
        assert(out.subrange(0, b) =~= out.subrange(0, a) + out.subrange(a, b));
        assert(out.subrange(a, b) == bucket_of(s, digit_mask, radix, d - 1));
    }
}

/// What the span layout of a counting-sort pass yields: the output is a
/// permutation of the input, it is ordered by digit, and each digit's
/// bucket of the output equals that digit's bucket of the input (the pass
/// is stable).
pub proof fn lemma_blocks_properties(s: Seq<u64>, out: Seq<u64>, digit_mask: u64, radix: u64)
    requires
        digit_mask >= 1,
        radix >= 1,
        out.len() == s.len(),
        forall|e: int|
            0 <= e < radix ==> out.subrange(
                bucket_start(s, digit_mask, radix, e),
                bucket_start(s, digit_mask, radix, e + 1),
            ) == #[trigger] bucket_of(s, digit_mask, radix, e),
    ensures
        out.to_multiset() == s.to_multiset(),
        forall|i: int, j: int|
            0 <= i < j < out.len() ==> #[trigger] digit_at(out[i], digit_mask, radix)
                <= #[trigger] digit_at(out[j], digit_mask, radix),
        forall|d: int|
            0 <= d < radix ==> #[trigger] bucket_of(out, digit_mask, radix, d) == bucket_of(
                s,
                digit_mask,
                radix,
                d,
            ),
{
    lemma_bucket_start_total(s, digit_mask, radix);
    lemma_out_is_concat(s, out, digit_mask, radix, radix as int);
    assert(out.subrange(0, out.len() as int) =~= out);
    assert(out == buckets_concat(s, digit_mask, radix, radix as int));
    lemma_buckets_concat_multiset(s, digit_mask, radix);
    assert forall|d: int| 0 <= d < radix implies #[trigger] bucket_of(out, digit_mask, radix, d)
        == bucket_of(s, digit_mask, radix, d) by {
        lemma_buckets_concat_filter(s, digit_mask, radix, d, radix as int);
    }
    assert forall|i: int, j: int| 0 <= i < j < out.len() implies #[trigger] digit_at(
        out[i],
        digit_mask,
        radix,
    ) <= #[trigger] digit_at(out[j], digit_mask, radix) by {
        let di = lemma_position_digit(s, out, digit_mask, radix, i);
        let dj = lemma_position_digit(s, out, digit_mask, radix, j);
        if dj < di {
            lemma_bucket_start_monotone(s, digit_mask, radix, dj + 1, di);
        }
    }
}

/// The digit of the element at position `i` of a span-laid-out sequence is
/// the digit whose span covers `i`.
pub proof fn lemma_position_digit(s: Seq<u64>, out: Seq<u64>, digit_mask: u64, radix: u64, i: int) -> (
    d: int)
    requires
        digit_mask >= 1,
        radix >= 1,
        out.len() == s.len(),
        0 <= i < out.len(),
        forall|e: int|
            0 <= e < radix ==> out.subrange(
                bucket_start(s, digit_mask, radix, e),
                bucket_start(s, digit_mask, radix, e + 1),
            ) == #[trigger] bucket_of(s, digit_mask, radix, e),
    ensures
        0 <= d < radix,
        bucket_start(s, digit_mask, radix, d) <= i < bucket_start(s, digit_mask, radix, d + 1),
        digit_at(out[i], digit_mask, radix) == d,
{
    lemma_bucket_start_total(s, digit_mask, radix);
    lemma_index_block(s, digit_mask, radix, radix as int, i);
    let d = choose|d: int|
        0 <= d < radix && #[trigger] bucket_start(s, digit_mask, radix, d) <= i < bucket_start(
            s,
            digit_mask,
            radix,
            d + 1,
        );
    lemma_bucket_start_monotone(s, digit_mask, radix, 0, d);
    lemma_bucket_start_monotone(s, digit_mask, radix, d + 1, radix as int);
    let a = bucket_start(s, digit_mask, radix, d);
    let b = bucket_start(s, digit_mask, radix, d + 1);
    assert(0 <= a && a <= i && i < b && b <= out.len());
    let sub = out.subrange(a, b);
    assert(sub == bucket_of(s, digit_mask, radix, d));
    let bi = i - a;
    assert(sub[bi] == out[a + bi]);
    assert(out[i] == bucket_of(s, digit_mask, radix, d)[bi]);
    d
}

} // verus!
