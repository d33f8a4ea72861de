//! The sorting engine: one stable counting-sort pass over a single digit
//! position, and the radix-sort driver that repeats it from the least
//! significant digit upward.

use vstd::prelude::*;
use vstd::arithmetic::div_mod::{
    lemma_div_by_self, lemma_div_decreases, lemma_div_denominator, lemma_div_is_ordered,
    lemma_fundamental_div_mod, lemma_mod_bound,
};
use vstd::arithmetic::mul::lemma_mul_inequality;
use crate::digits::{digit_at, lemma_digit_at_bound};
use crate::buckets::{
    bucket_of, bucket_start, lemma_blocks_properties, lemma_bucket_push, lemma_bucket_singleton,
    lemma_bucket_start_monotone, lemma_bucket_start_total,
};
use crate::order::{
    lemma_pass_refines, lemma_sorted_by_mod_one, lemma_sorted_when_mod_covers, sorted_by_digit,
    sorted_by_mod, sorted_le,
};

verus! {

broadcast use
    vstd::seq_lib::group_filter_ensures,
    vstd::prelude::Seq::filter_distributes_over_add,
    vstd::prelude::Seq::add_empty_left,
    vstd::seq_lib::group_to_multiset_ensures,
;

/// One stable counting-sort pass: the result holds the same elements as
/// `arr`, ordered by the digit that `digit_mask` selects in base `radix`,
/// and elements with equal digits keep their relative order. Precisely,
/// the result lays the input's buckets out one after another: the span
/// `[bucket_start(d), bucket_start(d+1))` of the result is exactly
/// `bucket_of(arr, d)` for every digit `d`.
pub fn count_sort(arr: &[u64], radix: u64, digit_mask: u64) -> (sorted_arr: Vec<u64>)
    requires
        radix >= 1,
        digit_mask >= 1,
        radix as int <= usize::MAX as int,
    ensures
        sorted_arr@.len() == arr@.len(),
        sorted_arr@.to_multiset() == arr@.to_multiset(),
        sorted_by_digit(sorted_arr@, digit_mask, radix),
        forall|d: int|
            0 <= d < radix ==> sorted_arr@.subrange(
                bucket_start(arr@, digit_mask, radix, d),
                bucket_start(arr@, digit_mask, radix, d + 1),
            ) == #[trigger] bucket_of(arr@, digit_mask, radix, d),
        forall|d: int|
            0 <= d < radix ==> #[trigger] bucket_of(sorted_arr@, digit_mask, radix, d) == bucket_of(
                arr@,
                digit_mask,
                radix,
                d,
            ),
{
    let n = arr.len();
    let radix_us: usize = radix as usize;
    proof {
        assert(radix_us as int == radix as int);
    }

    let mut counts: Vec<usize> = Vec::new();
    while counts.len() < radix_us
        invariant
            counts.len() <= radix_us,
            forall|k: int| 0 <= k < counts.len() ==> counts@[k] == 0,
        decreases radix_us - counts.len(),
    {
        counts.push(0);
    }

    // Count how many elements carry each digit.
    let mut idx: usize = 0;
    proof {
        assert(arr@.take(0) =~= Seq::<u64>::empty());
        assert forall|d: int| 0 <= d < radix implies counts@[d] as int == #[trigger] bucket_of(
            arr@.take(0),
            digit_mask,
            radix,
            d,
        ).len() by {
            assert(bucket_of(arr@.take(0), digit_mask, radix, d).len() <= 0);
        }
    }
    while idx < n
        invariant
            n == arr@.len(),
            idx <= n,
            digit_mask >= 1,
            radix >= 1,
            counts.len() == radix_us,
            radix_us as int == radix as int,
            forall|d: int|
                0 <= d < radix ==> counts@[d] as int == #[trigger] bucket_of(
                    arr@.take(idx as int),
                    digit_mask,
                    radix,
                    d,
                ).len(),
        decreases n - idx,
    {
        let v = arr[idx];
        let dg_wide = (v / digit_mask) % radix;
        proof {
            lemma_digit_at_bound(v, digit_mask, radix);
        }
        let dg = dg_wide as usize;
        proof {
            assert(dg as int == digit_at(v, digit_mask, radix));
            assert(counts@[dg as int] as int == bucket_of(
                arr@.take(idx as int),
                digit_mask,
                radix,
                dg as int,
            ).len());
            assert(arr@.take(idx as int).len() == idx as int);
            assert(counts@[dg as int] as int <= idx as int);
        }
        let c = counts[dg];
        counts.set(dg, c + 1);
        proof {
            assert(arr@.take(idx as int + 1) =~= arr@.take(idx as int).push(v));
            assert forall|d: int| 0 <= d < radix implies counts@[d] as int == #[trigger] bucket_of(
                arr@.take(idx as int + 1),
                digit_mask,
                radix,
                d,
            ).len() by {
                lemma_bucket_push(arr@.take(idx as int), v, digit_mask, radix, d);
            }
        }
        idx += 1;
    }
    proof {
        assert(arr@.take(n as int) =~= arr@);
        assert forall|dd: int| 0 <= dd < radix implies counts@[dd] as int == #[trigger] bucket_of(
            arr@,
            digit_mask,
            radix,
            dd,
        ).len() by {
            assert(counts@[dd] as int == bucket_of(
                arr@.take(n as int),
                digit_mask,
                radix,
                dd,
            ).len());
        }
        reveal_with_fuel(bucket_start, 2);
        assert(bucket_start(arr@, digit_mask, radix, 1) == bucket_of(
            arr@,
            digit_mask,
            radix,
            0,
        ).len());
    }

    // Turn the counts into a running prefix sum: entry `d` then holds the
    // number of elements whose digit is at most `d`, the one-past-last
    // write position for digit `d`.
    let mut d: usize = 1;
    while d < radix_us
        invariant
            n == arr@.len(),
            digit_mask >= 1,
            radix >= 1,
            counts.len() == radix_us,
            radix_us as int == radix as int,
            1 <= d as int <= radix as int,
            forall|k: int|
                #![trigger counts@[k]]
                0 <= k < d ==> counts@[k] as int == bucket_start(arr@, digit_mask, radix, k + 1),
            forall|k: int|
                #![trigger counts@[k]]
                d <= k < radix as int ==> counts@[k] as int == bucket_of(
                    arr@,
                    digit_mask,
                    radix,
                    k,
                ).len(),
        decreases radix_us - d,
    {
        let prev = counts[d - 1];
        let cur = counts[d];
        proof {
            assert(prev as int == bucket_start(arr@, digit_mask, radix, d as int));
            assert(cur as int == bucket_of(arr@, digit_mask, radix, d as int).len());
            lemma_bucket_start_monotone(arr@, digit_mask, radix, d as int + 1, radix as int);
            lemma_bucket_start_total(arr@, digit_mask, radix);
            assert(prev as int + cur as int == bucket_start(
                arr@,
                digit_mask,
                radix,
                d as int + 1,
            ));
            assert(prev as int + cur as int <= n as int);
        }
        counts.set(d, prev + cur);
        d += 1;
    }

    let mut sorted_arr: Vec<u64> = Vec::new();
    while sorted_arr.len() < n
        invariant
            sorted_arr.len() <= n,
        decreases n - sorted_arr.len(),
    {
        sorted_arr.push(0);
    }

    // Scatter, walking the input backwards: each element goes one slot
    // below its digit's cursor, so the elements of one digit end up in
    // input order, filling that digit's span from the back.
    proof {
        assert(arr@.take(n as int) =~= arr@);
        assert(arr@.skip(n as int) =~= Seq::<u64>::empty());
        assert forall|dd: int| 0 <= dd < radix implies counts@[dd] as int == bucket_start(
            arr@,
            digit_mask,
            radix,
            dd,
        ) + #[trigger] bucket_of(arr@.take(n as int), digit_mask, radix, dd).len() by {
            assert(counts@[dd] as int == bucket_start(arr@, digit_mask, radix, dd + 1));
            assert(bucket_of(arr@.take(n as int), digit_mask, radix, dd) == bucket_of(
                arr@,
                digit_mask,
                radix,
                dd,
            ));
        }
        assert forall|dd: int| 0 <= dd < radix implies sorted_arr@.subrange(
            counts@[dd] as int,
            bucket_start(arr@, digit_mask, radix, dd + 1),
        ) == #[trigger] bucket_of(arr@.skip(n as int), digit_mask, radix, dd) by {
            assert(counts@[dd] as int == bucket_start(arr@, digit_mask, radix, dd + 1));
            lemma_bucket_start_monotone(arr@, digit_mask, radix, 0, dd + 1);
            lemma_bucket_start_monotone(arr@, digit_mask, radix, dd + 1, radix as int);
            lemma_bucket_start_total(arr@, digit_mask, radix);
            assert(bucket_of(arr@.skip(n as int), digit_mask, radix, dd).len() <= 0);
            assert(sorted_arr@.subrange(
                counts@[dd] as int,
                bucket_start(arr@, digit_mask, radix, dd + 1),
            ) =~= bucket_of(arr@.skip(n as int), digit_mask, radix, dd));
        }
    }
    let mut i: usize = n;
    while i > 0
        invariant
            i <= n,
            n == arr@.len(),
            digit_mask >= 1,
            radix >= 1,
            counts.len() == radix_us,
            radix_us as int == radix as int,
            sorted_arr@.len() == n,
            forall|dd: int|
                0 <= dd < radix ==> counts@[dd] as int == bucket_start(arr@, digit_mask, radix, dd)
                    + #[trigger] bucket_of(arr@.take(i as int), digit_mask, radix, dd).len(),
            forall|dd: int|
                0 <= dd < radix ==> sorted_arr@.subrange(
                    counts@[dd] as int,
                    bucket_start(arr@, digit_mask, radix, dd + 1),
                ) == #[trigger] bucket_of(arr@.skip(i as int), digit_mask, radix, dd),
        decreases i,
    {
        let i1 = i - 1;
        let v = arr[i1];
        let dg_wide = (v / digit_mask) % radix;
        proof {
            lemma_digit_at_bound(v, digit_mask, radix);
        }
        let dg = dg_wide as usize;
        let ghost dgi = dg as int;
        let ghost prev_out = sorted_arr@;
        let ghost prev_counts = counts@;
        proof {
            assert(dgi == digit_at(v, digit_mask, radix));
            assert(counts@[dgi] as int == bucket_start(arr@, digit_mask, radix, dgi) + bucket_of(
                arr@.take(i as int),
                digit_mask,
                radix,
                dgi,
            ).len());
            assert(arr@.take(i as int) =~= arr@.take(i1 as int).push(v));
            lemma_bucket_push(arr@.take(i1 as int), v, digit_mask, radix, dgi);
            // the cursor sits strictly above this digit's span start
            assert(counts@[dgi] as int == bucket_start(arr@, digit_mask, radix, dgi) + bucket_of(
                arr@.take(i1 as int),
                digit_mask,
                radix,
                dgi,
            ).len() + 1);
            lemma_bucket_start_monotone(arr@, digit_mask, radix, 0, dgi);
            // and at most at the span's end
            assert(arr@ =~= arr@.take(i as int) + arr@.skip(i as int));
            assert(bucket_of(arr@, digit_mask, radix, dgi) == bucket_of(
                arr@.take(i as int),
                digit_mask,
                radix,
                dgi,
            ) + bucket_of(arr@.skip(i as int), digit_mask, radix, dgi));
            assert(counts@[dgi] as int <= bucket_start(arr@, digit_mask, radix, dgi + 1));
            lemma_bucket_start_monotone(arr@, digit_mask, radix, dgi + 1, radix as int);
            lemma_bucket_start_total(arr@, digit_mask, radix);
            assert(1 <= counts@[dgi] as int <= n as int);
        }
        let c = counts[dg];
        let p = c - 1;
        sorted_arr.set(p, v);
        counts.set(dg, p);
        proof {
            assert(sorted_arr@ =~= prev_out.update(p as int, v));
            assert(arr@.skip(i1 as int) =~= seq![v] + arr@.skip(i as int));
            assert forall|dd: int| 0 <= dd < radix implies counts@[dd] as int == bucket_start(
                arr@,
                digit_mask,
                radix,
                dd,
            ) + #[trigger] bucket_of(arr@.take(i1 as int), digit_mask, radix, dd).len() by {
                assert(prev_counts[dd] as int == bucket_start(arr@, digit_mask, radix, dd)
                    + bucket_of(arr@.take(i as int), digit_mask, radix, dd).len());
                lemma_bucket_push(arr@.take(i1 as int), v, digit_mask, radix, dd);
            }
            assert forall|dd: int| 0 <= dd < radix implies sorted_arr@.subrange(
                counts@[dd] as int,
                bucket_start(arr@, digit_mask, radix, dd + 1),
            ) == #[trigger] bucket_of(arr@.skip(i1 as int), digit_mask, radix, dd) by {
                assert(prev_out.subrange(
                    prev_counts[dd] as int,
                    bucket_start(arr@, digit_mask, radix, dd + 1),
                ) == bucket_of(arr@.skip(i as int), digit_mask, radix, dd));
                assert(prev_counts[dd] as int == bucket_start(arr@, digit_mask, radix, dd)
                    + bucket_of(arr@.take(i as int), digit_mask, radix, dd).len());
                lemma_bucket_singleton(v, digit_mask, radix, dd);
                assert(bucket_of(arr@.skip(i1 as int), digit_mask, radix, dd) == bucket_of(
                    seq![v],
                    digit_mask,
                    radix,
                    dd,
                ) + bucket_of(arr@.skip(i as int), digit_mask, radix, dd));
                let b = bucket_start(arr@, digit_mask, radix, dd + 1);
                lemma_bucket_start_monotone(arr@, digit_mask, radix, 0, dd);
                lemma_bucket_start_monotone(arr@, digit_mask, radix, dd + 1, radix as int);
                lemma_bucket_start_total(arr@, digit_mask, radix);
                if dd == dgi {
                    assert(sorted_arr@.subrange(p as int, b) =~= seq![v] + prev_out.subrange(
                        c as int,
                        b,
                    ));
                    assert(prev_out.subrange(c as int, b) == bucket_of(
                        arr@.skip(i as int),
                        digit_mask,
                        radix,
                        dgi,
                    ));
                } else {
                    // this digit's span is untouched: the write landed
                    // strictly inside another digit's span
                    assert(arr@ =~= arr@.take(i1 as int) + arr@.skip(i1 as int));
                    assert(bucket_of(arr@, digit_mask, radix, dd) == bucket_of(
                        arr@.take(i1 as int),
                        digit_mask,
                        radix,
                        dd,
                    ) + bucket_of(arr@.skip(i1 as int), digit_mask, radix, dd));
                    assert(counts@[dd] as int <= b);
                    if dd > dgi {
                        lemma_bucket_start_monotone(arr@, digit_mask, radix, dgi + 1, dd);
                        assert((p as int) < counts@[dd] as int);
                    } else {
                        lemma_bucket_start_monotone(arr@, digit_mask, radix, dd + 1, dgi);
                        assert(b <= p as int);
                    }
                    assert(sorted_arr@.subrange(counts@[dd] as int, b) =~= prev_out.subrange(
                        prev_counts[dd] as int,
                        b,
                    ));
                }
            }
        }
        i = i1;
    }
    proof {
        assert(arr@.skip(0) =~= arr@);
        assert forall|dd: int| 0 <= dd < radix implies sorted_arr@.subrange(
            bucket_start(arr@, digit_mask, radix, dd),
            bucket_start(arr@, digit_mask, radix, dd + 1),
        ) == #[trigger] bucket_of(arr@, digit_mask, radix, dd) by {
            assert(bucket_of(arr@.take(0), digit_mask, radix, dd).len() <= 0);
            assert(counts@[dd] as int == bucket_start(arr@, digit_mask, radix, dd) + bucket_of(
                arr@.take(0),
                digit_mask,
                radix,
                dd,
            ).len());
            assert(sorted_arr@.subrange(
                counts@[dd] as int,
                bucket_start(arr@, digit_mask, radix, dd + 1),
            ) == bucket_of(arr@.skip(0), digit_mask, radix, dd));
            assert(bucket_of(arr@.skip(0), digit_mask, radix, dd) == bucket_of(
                arr@,
                digit_mask,
                radix,
                dd,
            ));
        }
        lemma_blocks_properties(arr@, sorted_arr@, digit_mask, radix);
    }
    sorted_arr
}

/// The largest element of a non-empty vector.
fn max_value(arr: &Vec<u64>) -> (mx: u64)
    requires
        arr.len() > 0,
    ensures
        arr@.contains(mx),
        forall|k: int| 0 <= k < arr@.len() ==> #[trigger] arr@[k] <= mx,
{
    let mut mx = arr[0];
    proof {
        assert(arr@[0] == mx);
    }
    let mut k: usize = 1;
    while k < arr.len()
        invariant
            1 <= k <= arr@.len(),
            arr@.contains(mx),
            forall|t: int| 0 <= t < k ==> #[trigger] arr@[t] <= mx,
        decreases arr@.len() - k,
    {
        if arr[k] > mx {
            mx = arr[k];
            proof {
                assert(arr@[k as int] == mx);
            }
        }
        k += 1;
    }
    mx
}

/// Full LSD radix sort: the result is the ascending stable sort of `arr`,
/// that is, the unique ascending permutation of `arr`. Digit positions are
/// processed from the units upward until the largest element's digits are
/// exhausted.
pub fn radix_sort(arr: &Vec<u64>, radix: u64) -> (sorted_arr: Vec<u64>)
    requires
        radix >= 2,
        radix as int <= usize::MAX as int,
    ensures
        sorted_arr@.len() == arr@.len(),
        sorted_arr@.to_multiset() == arr@.to_multiset(),
        sorted_le(sorted_arr@),
{
    if arr.len() == 0 {
        let out: Vec<u64> = Vec::new();
        proof {
            assert(out@ =~= arr@);
        }
        return out;
    }
    let max = max_value(arr);

    let mut sorted_arr: Vec<u64> = Vec::new();
    let mut k: usize = 0;
    while k < arr.len()
        invariant
            k <= arr@.len(),
            sorted_arr@ == arr@.take(k as int),
        decreases arr@.len() - k,
    {
        let ghost prev = sorted_arr@;
        sorted_arr.push(arr[k]);
        proof {
            assert(arr@.take(k as int + 1) =~= prev.push(arr@[k as int]));
        }
        k += 1;
    }
    proof {
        assert(arr@.take(arr@.len() as int) =~= arr@);
        lemma_sorted_by_mod_one(sorted_arr@);
    }

    let mut digit_mask: u64 = 1;
    let mut done = max == 0;
    proof {
        if done {
            assert forall|i: int, j: int|
                #![trigger sorted_arr@[i], sorted_arr@[j]]
                0 <= i < j < sorted_arr@.len() implies sorted_arr@[i] <= sorted_arr@[j] by {
                assert(sorted_arr@[i] <= max);
            }
        }
    }
    while !done
        invariant
            radix >= 2,
            radix as int <= usize::MAX as int,
            digit_mask >= 1,
            sorted_arr@.len() == arr@.len(),
            sorted_arr@.to_multiset() == arr@.to_multiset(),
            forall|t: int| 0 <= t < sorted_arr@.len() ==> #[trigger] sorted_arr@[t] <= max,
            !done ==> sorted_by_mod(sorted_arr@, digit_mask as int),
            !done ==> digit_mask <= max,
            done ==> sorted_le(sorted_arr@),
        decreases (if done {
            0int
        } else {
            (max as int) / (digit_mask as int) + 1
        }),
    {
        let ghost m = digit_mask as int;
        let ghost r = radix as int;
        let ghost before = sorted_arr@;
        let pass = count_sort(sorted_arr.as_slice(), radix, digit_mask);
        proof {
            lemma_pass_refines(before, pass@, digit_mask, radix);
            assert forall|t: int| 0 <= t < pass@.len() implies #[trigger] pass@[t] <= max by {
                assert(pass@.contains(pass@[t]));
                assert(pass@.to_multiset().count(pass@[t]) > 0);
                assert(before.to_multiset().count(pass@[t]) > 0);
                assert(before.contains(pass@[t]));
                let w = choose|w: int| 0 <= w < before.len() && before[w] == pass@[t];
                assert(before[w] <= max);
            }
        }
        sorted_arr = pass;
        if digit_mask <= max / radix {
            proof {
                lemma_fundamental_div_mod(max as int, r);
                lemma_mod_bound(max as int, r);
                lemma_mul_inequality(m, (max as int) / r, r);
                assert(m * r <= ((max as int) / r) * r <= max as int);
            }
            digit_mask = digit_mask * radix;
            proof {
                assert(digit_mask as int == m * r);
                lemma_div_denominator(max as int, m, r);
                lemma_div_by_self(m);
                lemma_div_is_ordered(m, max as int, m);
                lemma_div_decreases((max as int) / m, r);
            }
            if max / digit_mask == 0 {
                proof {
                    vstd::arithmetic::div_mod::lemma_small_div_converse(max as int, digit_mask as int);
                    lemma_sorted_when_mod_covers(sorted_arr@, digit_mask as int, max);
                }
                done = true;
            }
        } else {
            proof {
                lemma_fundamental_div_mod(max as int, r);
                lemma_mod_bound(max as int, r);
                let ghost q = (max as int) / r;
                let ghost rem = (max as int) % r;
                assert(m * r > max as int) by (nonlinear_arith)
                    requires
                        max as int == r * q + rem,
                        0 <= rem < r,
                        m >= q + 1,
                        r >= 1,
                ;
                lemma_sorted_when_mod_covers(sorted_arr@, m * r, max);
            }
            done = true;
        }
    }
    sorted_arr
}

} // verus!
