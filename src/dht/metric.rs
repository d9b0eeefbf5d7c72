//! The XOR metric on identifiers and the bucket index of a distance.
use vstd::prelude::*;

verus! {

/// Byte-wise exclusive-or of two identifiers over their common length.
pub open spec fn xor_seq(a: Seq<u8>, b: Seq<u8>) -> Seq<u8> {
    Seq::new(
        if a.len() <= b.len() {
            a.len()
        } else {
            b.len()
        },
        |i: int| a[i] ^ b[i],
    )
}

/// The all-zero byte string of length `n`.
pub open spec fn zeros(n: nat) -> Seq<u8> {
    Seq::new(n, |i: int| 0u8)
}

/// Number of leading zero bits of a byte.
pub open spec fn lz8(b: u8) -> nat {
    if b >= 128 {
        0
    } else if b >= 64 {
        1
    } else if b >= 32 {
        2
    } else if b >= 16 {
        3
    } else if b >= 8 {
        4
    } else if b >= 4 {
        5
    } else if b >= 2 {
        6
    } else if b >= 1 {
        7
    } else {
        8
    }
}

/// Offset of the most significant set bit of `d`, scanning from byte `i`
/// on, counted from bit 7 of byte 0; 0 when no bit from byte `i` on is set.
pub open spec fn msb_from(d: Seq<u8>, i: nat) -> nat
    decreases d.len() - i,
{
    if i >= d.len() {
        0
    } else if d[i as int] != 0 {
        8 * i + lz8(d[i as int])
    } else {
        msb_from(d, i + 1)
    }
}

/// Bucket index of a distance: the offset of its most significant set bit,
/// 0 for a distance of zero.
pub open spec fn bucket_of(d: Seq<u8>) -> nat {
    msb_from(d, 0)
}

/// Byte strings in lexicographic order; a proper prefix comes first.
pub open spec fn lex_lt(a: Seq<u8>, b: Seq<u8>) -> bool
    decreases a.len(),
{
    if a.len() == 0 {
        b.len() > 0
    } else if b.len() == 0 {
        false
    } else if a[0] != b[0] {
        a[0] < b[0]
    } else {
        lex_lt(a.drop_first(), b.drop_first())
    }
}

/// A bucket index lies below the bit length of the distance, unless it is 0.
pub proof fn lemma_msb_bound(d: Seq<u8>, i: nat)
    ensures
        msb_from(d, i) == 0 || msb_from(d, i) < 8 * d.len(),
    decreases d.len() - i,
{
    if i < d.len() && d[i as int] == 0 {
        lemma_msb_bound(d, i + 1);
    }
}

/// The order on byte strings is irreflexive.
pub proof fn lemma_lex_irreflexive(a: Seq<u8>)
    ensures
        !lex_lt(a, a),
    decreases a.len(),
{
    if a.len() > 0 {
        lemma_lex_irreflexive(a.drop_first());
    }
}

/// The order on byte strings is transitive.
pub proof fn lemma_lex_transitive(a: Seq<u8>, b: Seq<u8>, c: Seq<u8>)
    requires
        lex_lt(a, b),
        lex_lt(b, c),
    ensures
        lex_lt(a, c),
    decreases a.len(),
{
    if a.len() > 0 && a[0] == b[0] && b[0] == c[0] {
        lemma_lex_transitive(a.drop_first(), b.drop_first(), c.drop_first());
    }
}

/// Nothing of the same length lies below an all-zero string.
pub proof fn lemma_zeros_least(a: Seq<u8>)
    requires
        !lex_lt(zeros(a.len()), a),
    ensures
        a == zeros(a.len()),
    decreases a.len(),
{
    if a.len() > 0 {
        assert(zeros(a.len()).drop_first() =~= zeros((a.len() - 1) as nat));
        lemma_zeros_least(a.drop_first());
        assert(a =~= zeros(a.len())) by {
            assert forall|i: int| 0 <= i < a.len() implies a[i] == 0u8 by {
                if i > 0 {
                    assert(a[i] == a.drop_first()[i - 1]);
                }
            }
        }
    }
}

/// The distance of an identifier to itself is zero.
pub proof fn lemma_xor_self(a: Seq<u8>)
    ensures
        xor_seq(a, a) == zeros(a.len()),
{
    assert forall|x: u8| #[trigger] (x ^ x) == 0u8 by {
        assert(x ^ x == 0u8) by (bit_vector);
    }
    assert(xor_seq(a, a) =~= zeros(a.len()));
}

/// The distance is symmetric.
pub proof fn lemma_xor_symmetric(a: Seq<u8>, b: Seq<u8>)
    ensures
        xor_seq(a, b) == xor_seq(b, a),
{
    assert forall|x: u8, y: u8| #[trigger] (x ^ y) == (y ^ x) by {
        assert(x ^ y == y ^ x) by (bit_vector);
    }
    assert(xor_seq(a, b) =~= xor_seq(b, a));
}

/// Identifiers of equal length at distance zero are equal.
pub proof fn lemma_xor_zero_equal(a: Seq<u8>, b: Seq<u8>)
    requires
        a.len() == b.len(),
        xor_seq(a, b) == zeros(a.len()),
    ensures
        a == b,
{
    assert forall|i: int| 0 <= i < a.len() implies a[i] == b[i] by {
        let x = a[i];
        let y = b[i];
        assert(xor_seq(a, b)[i] == 0u8);
        assert(x ^ y == 0u8 ==> x == y) by (bit_vector);
    }
    assert(a =~= b);
}

/// A distance with no bit set, of any length, falls in bucket 0.
pub proof fn zero_distance_bucket(d: Seq<u8>)
    requires
        forall|i: int| 0 <= i < d.len() ==> d[i] == 0u8,
    ensures
        bucket_of(d) == 0,
{
    lemma_msb_zeros(d, 0);
}

proof fn lemma_msb_zeros(d: Seq<u8>, i: nat)
    requires
        forall|j: int| 0 <= j < d.len() ==> d[j] == 0u8,
    ensures
        msb_from(d, i) == 0,
    decreases d.len() - i,
{
    if i < d.len() {
        lemma_msb_zeros(d, i + 1);
    }
}

/// Number of leading zero bits of a byte.
pub fn leading_zero_bits(b: u8) -> (r: usize)
    ensures
        r == lz8(b),
{
    if b >= 128 {
        0
    } else if b >= 64 {
        1
    } else if b >= 32 {
        2
    } else if b >= 16 {
        3
    } else if b >= 8 {
        4
    } else if b >= 4 {
        5
    } else if b >= 2 {
        6
    } else if b >= 1 {
        7
    } else {
        8
    }
}

/// Whether `a` comes before `b` in lexicographic order.
pub fn lex_less(a: &[u8], b: &[u8]) -> (r: bool)
    ensures
        r == lex_lt(a@, b@),
{
    let mut i: usize = 0;
    assert(a@.skip(0) =~= a@);
    assert(b@.skip(0) =~= b@);
    while i < a.len() && i < b.len()
        invariant
            i <= a@.len(),
            i <= b@.len(),
            lex_lt(a@, b@) == lex_lt(a@.skip(i as int), b@.skip(i as int)),
        decreases a@.len() - i,
    {
        assert(a@.skip(i as int).drop_first() =~= a@.skip(i + 1));
        assert(b@.skip(i as int).drop_first() =~= b@.skip(i + 1));
        if a[i] != b[i] {
            return a[i] < b[i];
        }
        i = i + 1;
    }
    a.len() < b.len()
}

/// The distance of an identifier to itself is zero, the distance is
/// symmetric, and a zero distance falls in bucket 0.
pub proof fn distance_laws(a: Seq<u8>, b: Seq<u8>)
    ensures
        xor_seq(a, a) == zeros(a.len()),
        xor_seq(a, b) == xor_seq(b, a),
        bucket_of(zeros(a.len())) == 0,
        bucket_of(xor_seq(a, a)) == 0,
{
    lemma_xor_self(a);
    lemma_xor_symmetric(a, b);
    zero_distance_bucket(zeros(a.len()));
}

} // verus!
