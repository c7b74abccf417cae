//! Content hashing: SHA-256 digests rendered as lower-case hex strings.

use vstd::prelude::*;

verus! {

pub open spec fn hex_digit(n: u8) -> char
    recommends
        n < 16,
{
    if n == 0 {
        '0'
    } else if n == 1 {
        '1'
    } else if n == 2 {
        '2'
    } else if n == 3 {
        '3'
    } else if n == 4 {
        '4'
    } else if n == 5 {
        '5'
    } else if n == 6 {
        '6'
    } else if n == 7 {
        '7'
    } else if n == 8 {
        '8'
    } else if n == 9 {
        '9'
    } else if n == 10 {
        'a'
    } else if n == 11 {
        'b'
    } else if n == 12 {
        'c'
    } else if n == 13 {
        'd'
    } else if n == 14 {
        'e'
    } else {
        'f'
    }
}

/// Lower-case hex rendering of a byte sequence: two digits per byte, most
/// significant nibble first.
pub open spec fn hex_of(b: Seq<u8>) -> Seq<char>
    decreases b.len(),
{
    if b.len() == 0 {
        Seq::empty()
    } else {
        seq![hex_digit(b[0] / 16), hex_digit(b[0] % 16)] + hex_of(b.subrange(1, b.len() as int))
    }
}

/// The hash stored for indexed content: SHA-256 of the text, as lower-case
/// hex.
pub open spec fn content_hash_of(s: Seq<char>) -> Seq<char> {
    hex_of(crate::outside::sha256_of(s))
}

pub proof fn lemma_hex_of_len(b: Seq<u8>)
    ensures
        hex_of(b).len() == 2 * b.len(),
    decreases b.len(),
{
    if b.len() > 0 {
        lemma_hex_of_len(b.subrange(1, b.len() as int));
    }
}

pub proof fn lemma_hex_of_digits(b: Seq<u8>)
    ensures
        forall|i: int|
            0 <= i < hex_of(b).len() ==> (('0' <= #[trigger] hex_of(b)[i] && hex_of(b)[i] <= '9')
                || ('a' <= hex_of(b)[i] && hex_of(b)[i] <= 'f')),
    decreases b.len(),
{
    if b.len() > 0 {
        lemma_hex_of_digits(b.subrange(1, b.len() as int));
        lemma_hex_of_len(b.subrange(1, b.len() as int));
    }
}

/// Hashing is a function of the content alone: equal inputs give the equal
/// 64-digit digest. This is the determinism the incremental skip logic rests
/// on.
pub proof fn lemma_hash_deterministic(a: Seq<char>, b: Seq<char>)
    requires
        a == b,
    ensures
        content_hash_of(a) == content_hash_of(b),
{
}

/// SHA-256 as hex. The digest has 32 bytes, so the result has 64 characters,
/// each a lower-case hex digit.
pub fn compute_hash(content: &str) -> (r: String)
    ensures
        r@ == content_hash_of(content@),
        r@.len() == 64,
        forall|i: int|
            0 <= i < r@.len() ==> (('0' <= #[trigger] r@[i] && r@[i] <= '9') || ('a' <= r@[i]
                && r@[i] <= 'f')),
{
    let digest = crate::outside::sha256_bytes(content);
    let r = crate::outside::hex_encode(&digest);
    proof {
        lemma_hex_of_len(digest@);
        lemma_hex_of_digits(digest@);
    }
    r
}

} // verus!
