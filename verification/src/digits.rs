//! The digit model: how one digit of a value is isolated by a positional
//! weight (`digit_mask` = radix^k) together with the radix.

use vstd::prelude::*;
use vstd::arithmetic::div_mod::{lemma_mod_bound, lemma_mod_breakdown};

verus! {

/// The digit of `v` selected by the positional weight `digit_mask` in base
/// `radix`: `(v / digit_mask) % radix`.
pub open spec fn digit_at(v: u64, digit_mask: u64, radix: u64) -> int {
    ((v as int) / (digit_mask as int)) % (radix as int)
}

/// A digit is always in `[0, radix)`.
pub proof fn lemma_digit_at_bound(v: u64, digit_mask: u64, radix: u64)
    requires
        digit_mask >= 1,
        radix >= 1,
    ensures
        0 <= digit_at(v, digit_mask, radix) < radix,
{
    lemma_mod_bound((v as int) / (digit_mask as int), radix as int);
}

/// The remainder of `v` modulo `digit_mask * radix` splits into the digit at
/// `digit_mask` and the remainder modulo `digit_mask`:
/// `v % (m * r) == m * digit_at(v, m, r) + v % m`.
pub proof fn lemma_digit_mod_split(v: u64, digit_mask: u64, radix: u64)
    requires
        digit_mask >= 1,
        radix >= 1,
    ensures
        (v as int) % ((digit_mask as int) * (radix as int)) == (digit_mask as int) * digit_at(
            v,
            digit_mask,
            radix,
        ) + (v as int) % (digit_mask as int),
{
    lemma_mod_breakdown(v as int, digit_mask as int, radix as int);
}

} // verus!
