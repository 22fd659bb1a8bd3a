//! Hashes of three bytes and the table of positions that they lead to.
use vstd::prelude::*;

use crate::bytes::read_u24;
#[allow(unused_imports)]
use vstd::std_specs::cmp::PartialEqSpec;

verus! {

/// The number of hashes.
pub const HASHTABLE_SIZE: usize = 4096;

/// The hash of a three-byte number.
pub open spec fn hash_of(val: u32) -> u32 {
    ((val >> 12) ^ val) & 0xfff
}

/// The hash of the three bytes of `s` from position `i` on.
pub open spec fn hash_at(s: Seq<u8>, i: int) -> int {
    hash_of(crate::bytes::u24_at(s, i)) as int
}

/// `table` after the positions of `s` from `start` up to `end` were entered
/// under their hashes, each in place of what stood there.
pub open spec fn hashed(table: Seq<u32>, s: Seq<u8>, start: int, end: int) -> Seq<u32>
    decreases end - start,
{
    if end <= start {
        table
    } else {
        hashed(table, s, start, end - 1).update(hash_at(s, end - 1), (end - 1) as u32)
    }
}

/// A hash is an index of the table.
pub proof fn law_hash_in_table(val: u32)
    ensures
        hash_of(val) < HASHTABLE_SIZE,
{
    assert(((val >> 12) ^ val) & 0xfff < 4096) by (bit_vector);
}

/// Hashes a three-byte number to twelve bits.
pub fn hash(val: u32) -> (h: u32)
    ensures
        h == hash_of(val),
        h < HASHTABLE_SIZE,
{
    proof {
        law_hash_in_table(val);
    }
    ((val >> 12) ^ val) & 0xfff
}

/// Updates the hashtable for the data in `dest` between `start` and `end`.
pub fn update_hashtable(
    hashtable: &mut [u32; HASHTABLE_SIZE],
    dest: &[u8],
    start: usize,
    end: usize,
)
    requires
        start < end ==> end + 2 <= dest@.len(),
    ensures
        final(hashtable)@ == hashed(old(hashtable)@, dest@, start as int, end as int),
{
    let mut i: usize = start;
    while i < end
        invariant
            start <= i,
            start < end ==> i <= end && end + 2 <= dest@.len(),
            start >= end ==> i == start,
            hashtable@ == hashed(old(hashtable)@, dest@, start as int, i as int),
        decreases end - i,
    {
        let next = read_u24(vstd::slice::slice_subrange(dest, i, dest.len()));
        assert(next == crate::bytes::u24_at(dest@, i as int));
        hashtable[hash(next) as usize] = #[verifier::truncate] (i as u32);
        i += 1;
    }
}

/// Checks if all elements in the slice have the same value.
pub fn is_eq<T: PartialEq>(arr: &[T]) -> (r: bool)
    ensures
        T::obeys_eq_spec() ==> r == (forall|i: int|
            1 <= i < arr@.len() ==> arr@[0].eq_spec(&#[trigger] arr@[i])),
        r ==> forall|i: int|
            1 <= i < arr@.len() ==> call_ensures(T::ne, (&arr@[0], &#[trigger] arr@[i]), false),
        !r ==> exists|i: int|
            1 <= i < arr@.len() && call_ensures(T::ne, (&arr@[0], &#[trigger] arr@[i]), true),
{
    let mut i: usize = 1;
    while i < arr.len()
        invariant
            1 <= i,
            T::obeys_eq_spec() ==> forall|j: int|
                1 <= j < i && j < arr@.len() ==> arr@[0].eq_spec(&#[trigger] arr@[j]),
            forall|j: int|
                1 <= j < i && j < arr@.len() ==> call_ensures(
                    T::ne,
                    (&arr@[0], &#[trigger] arr@[j]),
                    false,
                ),
        decreases arr.len() - i,
    {
        if arr[0] != arr[i] {
            return false;
        }
        i += 1;
    }
    true
}

}
