//! The random draws the library makes, through the `rand` crate.

use vstd::prelude::*;
use rand::rngs::StdRng;

verus! {

#[verifier::external_type_specification]
#[verifier::external_body]
pub struct ExStdRng(StdRng);

/// Relies on `rand::Rng::gen_range`: a value of a non-empty half-open range.
#[verifier::external_body]
pub(crate) fn below(rng: &mut StdRng, n: u16) -> (r: u16)
    requires
        n > 0,
    ensures
        r < n,
{
    rand::Rng::gen_range(rng, 0..n)
}


/// Relies on `rand::seq::SliceRandom::choose`: `None` for an empty slice, else
/// one of its items.
#[verifier::external_body]
pub(crate) fn pick<T: Copy>(rng: &mut StdRng, items: &Vec<T>) -> (r: Option<T>)
    ensures
        r is None <==> items@.len() == 0,
        r matches Some(x) ==> items@.contains(x),
{
    rand::seq::SliceRandom::choose(items.as_slice(), rng).copied()
}

/// Whether `b` is the code of an ASCII letter (`A-Z`: 65 to 90, `a-z`: 97 to
/// 122) or digit (`0-9`: 48 to 57).
pub open spec fn is_alnum_byte(b: u8) -> bool {
    (97 <= b && b <= 122) || (65 <= b && b <= 90) || (48 <= b && b <= 57)
}

/// Relies on `rand::distributions::Alphanumeric`: one byte of `A-Z`, `a-z`
/// or `0-9`.
#[verifier::external_body]
pub(crate) fn alphanumeric(rng: &mut StdRng) -> (r: u8)
    ensures
        is_alnum_byte(r),
{
    rand::Rng::sample(rng, rand::distributions::Alphanumeric)
}


/// Relies on `rand::seq::IteratorRandom::choose_multiple` over `0..n`:
/// `amount` distinct values below `n`, or all of them where there are fewer.
#[verifier::external_body]
pub(crate) fn sample_below(rng: &mut StdRng, n: usize, amount: usize) -> (r: Vec<usize>)
    ensures
        r@.len() == if amount <= n { amount } else { n },
        r@.no_duplicates(),
        forall|i: int| 0 <= i < r@.len() ==> #[trigger] r@[i] < n,
{
    rand::seq::IteratorRandom::choose_multiple(0..n, rng, amount)
}

/// Relies on `rand::seq::SliceRandom::shuffle`: the same items, reordered.
#[verifier::external_body]
pub(crate) fn shuffle<T>(rng: &mut StdRng, items: &mut Vec<T>)
    ensures
        final(items)@.to_multiset() == old(items)@.to_multiset(),
{
    rand::seq::SliceRandom::shuffle(items.as_mut_slice(), rng)
}

} // verus!
