//! The Bloom filter of one document, provided by the `bloomfilter` crate.
use vstd::prelude::*;
use bloomfilter::Bloom;

verus! {

#[verifier::external_type_specification]
#[verifier::external_body]
#[verifier::reject_recursive_types(T)]
pub struct ExBloom<T: ?Sized>(Bloom<T>);

/// The terms on which `check` answers true: every inserted term, and the
/// false positives that the filter's bits happen to admit.
pub uninterp spec fn accepted_terms(f: Bloom<String>) -> Set<Seq<char>>;

/// The number of bits in the filter's bit array.
pub uninterp spec fn filter_bits(f: Bloom<String>) -> nat;

/// The terms accepted by the filter that the given bytes encode.
pub uninterp spec fn accepted_of_bytes(b: Seq<u8>) -> Set<Seq<char>>;

/// Size of the header that precedes the bit array in a filter's encoding:
/// a version byte, the bit array's length in bytes, the hash count and the seed.
pub const FILTER_HEADER_LEN: usize = 45;

/// Reads a little-endian unsigned integer from the bytes `b[start..start + n]`.
pub open spec fn le_uint(b: Seq<u8>, start: int, n: nat) -> nat
    decreases n,
{
    if n == 0 {
        0
    } else {
        b[start] as nat + 256 * le_uint(b, start + 1, (n - 1) as nat)
    }
}

/// Whether `bloomfilter` accepts `b` as an encoded filter: a header of version 1
/// with a non-zero hash count, followed by exactly as many bitmap bytes as the
/// header announces.
pub open spec fn filter_encoding_valid(b: Seq<u8>) -> bool {
    &&& b.len() >= FILTER_HEADER_LEN
    &&& b[0] == 1
    &&& le_uint(b, 1, 8) == b.len() - FILTER_HEADER_LEN
    &&& le_uint(b, 9, 4) != 0
}

/// Relies on `Bloom::new_with_seed`: an all-zero bit array of `bitmap_size`
/// bytes and at least one hash function, so that no term is accepted. It
/// panics unless both sizes are positive, the bit count fits in a `u64` and
/// the header and the bit array together fit in a `usize`.
#[verifier::external_body]
fn new_filter(bitmap_size: usize, items_count: usize, seed: &[u8; 32]) -> (r: Bloom<String>)
    requires
        bitmap_size > 0,
        items_count > 0,
        bitmap_size * 8 <= u64::MAX,
        bitmap_size + FILTER_HEADER_LEN <= usize::MAX,
    ensures
        filter_bits(r) == bitmap_size * 8,
        accepted_terms(r) == Set::<Seq<char>>::empty(),
{
    Bloom::new_with_seed(bitmap_size, items_count, seed).unwrap()
}

/// Relies on `Bloom::set`: it only sets bits, so every accepted term stays
/// accepted and the inserted one becomes accepted. It divides by the bit
/// count, which must not be zero.
#[verifier::external_body]
fn filter_insert(f: &mut Bloom<String>, term: &String)
    requires
        filter_bits(*old(f)) > 0,
    ensures
        filter_bits(*final(f)) == filter_bits(*old(f)),
        accepted_terms(*old(f)).subset_of(accepted_terms(*final(f))),
        accepted_terms(*final(f)).contains(term@),
{
    f.set(term)
}

/// Relies on `Bloom::check`: true exactly on the accepted terms. It divides by
/// the bit count, which must not be zero.
#[verifier::external_body]
pub(crate) fn filter_check(f: &Bloom<String>, term: &String) -> (r: bool)
    requires
        filter_bits(*f) > 0,
    ensures
        r == accepted_terms(*f).contains(term@),
{
    f.check(term)
}

/// Relies on `Bloom::len`: the number of bits in the bit array.
#[verifier::external_body]
pub(crate) fn filter_len(f: &Bloom<String>) -> (r: u64)
    ensures
        r as nat == filter_bits(*f),
{
    f.len()
}

/// Relies on `Bloom::to_bytes`: the header and the bit array, which
/// `Bloom::from_bytes` reads back into a filter with the same bits, hash count
/// and seed, hence the same accepted terms.
#[verifier::external_body]
pub(crate) fn filter_to_bytes(f: &Bloom<String>) -> (r: Vec<u8>)
    ensures
        filter_encoding_valid(r@),
        r@.len() * 8 == FILTER_HEADER_LEN * 8 + filter_bits(*f),
        accepted_of_bytes(r@) == accepted_terms(*f),
{
    f.to_bytes()
}

/// Relies on `Bloom::from_bytes`: it succeeds exactly on a valid encoding and
/// then holds its bit array.
#[verifier::external_body]
pub(crate) fn filter_from_bytes(b: Vec<u8>) -> (r: Option<Bloom<String>>)
    ensures
        r is Some <==> filter_encoding_valid(b@),
        r matches Some(f) ==> accepted_terms(f) == accepted_of_bytes(b@) && filter_bits(f)
            == (b@.len() - FILTER_HEADER_LEN) * 8,
{
    Bloom::from_bytes(b).ok()
}

/// Builds a filter of `bitmap_size` bytes, seeded with `seed`, that accepts
/// every term of `terms`.
pub fn build_filter(terms: &Vec<String>, bitmap_size: usize, seed: &[u8; 32]) -> (r: Bloom<
    String,
>)
    requires
        bitmap_size > 0,
        bitmap_size * 8 <= u64::MAX,
        bitmap_size + FILTER_HEADER_LEN <= usize::MAX,
    ensures
        filter_bits(r) == bitmap_size * 8,
        forall|i: int| 0 <= i < terms.len() ==> accepted_terms(r).contains(#[trigger] terms[i]@),
{
    let items: usize = if terms.len() == 0 {
        1
    } else {
        terms.len()
    };
    let mut f = new_filter(bitmap_size, items, seed);
    assert(bitmap_size * 8 > 0) by (nonlinear_arith)
        requires
            bitmap_size > 0,
    ;
    let mut i: usize = 0;
    while i < terms.len()
        invariant
            i <= terms.len(),
            filter_bits(f) > 0,
            filter_bits(f) == bitmap_size * 8,
            forall|j: int| 0 <= j < i ==> accepted_terms(f).contains(#[trigger] terms[j]@),
        decreases terms.len() - i,
    {
        filter_insert(&mut f, &terms[i]);
        i = i + 1;
    }
    f
}

} // verus!
