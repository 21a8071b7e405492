//! Values of the font's OpenType tables worked out from its metadata.
use vstd::prelude::*;
use vstd::arithmetic::power2::pow2;

verus! {

/// The value of a bit field with bits `bits` set: the sum of two to the power of
/// each (a bit listed twice counts twice).
pub open spec fn flags_value(bits: Seq<u8>) -> int
    decreases bits.len(),
{
    if bits.len() == 0 {
        0
    } else {
        flags_value(bits.drop_last()) + pow2(bits.last() as nat)
    }
}

/// The bit field with the given bits set.
pub fn bitfield_to_flags(bits: &[u8]) -> (r: u16)
    requires
        forall|i: int| 0 <= i < bits@.len() ==> #[trigger] bits@[i] < 16,
        flags_value(bits@) <= u16::MAX,
    ensures
        r == flags_value(bits@),
{
    let mut out: u16 = 0;
    let mut i: usize = 0;
    while i < bits.len()
        invariant
            i <= bits@.len(),
            forall|j: int| 0 <= j < bits@.len() ==> #[trigger] bits@[j] < 16,
            flags_value(bits@) <= u16::MAX,
            out == flags_value(bits@.take(i as int)),
        decreases bits@.len() - i,
    {
        let b: u16 = bits[i] as u16;
        proof {
            assert(bits@.take(i + 1).drop_last() == bits@.take(i as int));
            lemma_flags_value_prefix(bits@, i + 1);
            vstd::bits::lemma_u16_pow2_no_overflow(b as nat);
            vstd::bits::lemma_u16_shl_is_mul(1u16, b);
        }
        let bit: u16 = 1u16 << b;
        out = out + bit;
        i = i + 1;
    }
    assert(bits@.take(i as int) == bits@);
    out
}

proof fn lemma_flags_value_prefix(bits: Seq<u8>, k: int)
    requires
        0 <= k <= bits.len(),
    ensures
        flags_value(bits.take(k)) <= flags_value(bits),
    decreases bits.len() - k,
{
    if k < bits.len() {
        lemma_flags_value_prefix(bits, k + 1);
        assert(bits.take(k + 1).drop_last() == bits.take(k));
    } else {
        assert(bits.take(k) == bits);
    }
}

} // verus!
