//! Enumeration of move sequences and of orderings, through itertools.

use itertools::Itertools;
use vstd::prelude::*;

verus! {

/// Number of sequences of length `len` over an alphabet of `base` letters.
pub open spec fn sequence_count(base: nat, len: nat) -> nat
    decreases len,
{
    if len == 0 {
        1
    } else {
        base * sequence_count(base, (len - 1) as nat)
    }
}

/// The `index`-th sequence of length `len` over `0..base` in lexicographic order:
/// the digits of `index` in base `base`, most significant first.
pub open spec fn sequence_at(base: nat, index: nat, len: nat) -> Seq<u8>
    decreases len,
{
    if len == 0 {
        Seq::empty()
    } else {
        sequence_at(base, index / base, (len - 1) as nat).push((index % base) as u8)
    }
}

/// The sequences that a listing of vectors holds.
pub open spec fn views_of(list: Seq<Vec<u8>>) -> Seq<Seq<u8>> {
    list.map_values(|v: Vec<u8>| v@)
}

/// Number of orderings of `n` distinct positions.
pub open spec fn factorial(n: nat) -> nat
    decreases n,
{
    if n == 0 {
        1
    } else {
        n * factorial((n - 1) as nat)
    }
}

/// Most listings of sequences or orderings that the searches build in memory: it
/// keeps a listing's allocation far below `isize::MAX` bytes, past which `Vec` panics.
pub open spec fn listing_fits(count: nat) -> bool {
    count <= 0x1_0000_0000
}

/// Relies on itertools' `multi_cartesian_product` over `len` copies of `0..base`:
/// it yields every sequence of `len` letters in lexicographic order, the last
/// position varying fastest; for `len == 0`, the single empty sequence.
#[verifier::external_body]
pub(crate) fn all_sequences(base: u8, len: usize) -> (r: Vec<Vec<u8>>)
    requires
        listing_fits(sequence_count(base as nat, len as nat)),
    ensures
        r@.len() == sequence_count(base as nat, len as nat),
        forall|i: int|
            0 <= i < r@.len() ==> (#[trigger] r@[i])@ == sequence_at(base as nat, i as nat, len as nat),
{
    itertools::repeat_n(0..base, len).multi_cartesian_product().collect()
}

/// The orderings that itertools' `permutations` yields for a whole sequence.
pub uninterp spec fn orderings_of(s: Seq<u8>) -> Seq<Seq<u8>>;

/// Relies on itertools' `permutations(k)` with `k` the length of the input: it yields
/// the input's elements in every order of their positions, the input's own order first.
#[verifier::external_body]
pub(crate) fn all_orderings(s: &Vec<u8>) -> (r: Vec<Vec<u8>>)
    requires
        listing_fits(factorial(s@.len())),
    ensures
        r@.len() == orderings_of(s@).len(),
        forall|i: int| 0 <= i < r@.len() ==> (#[trigger] r@[i])@ == orderings_of(s@)[i],
        r@.len() >= 1,
        r@[0]@ == s@,
        forall|i: int| 0 <= i < r@.len() ==> (#[trigger] r@[i])@.to_multiset() == s@.to_multiset(),
{
    s.clone().into_iter().permutations(s.len()).collect()
}

} // verus!
