//! The Adler-32 checksum that every framed block carries.

use vstd::prelude::*;

verus! {

/// The modulus of both Adler-32 sums: the largest prime below 65536.
pub const ADLER_MODULUS: u32 = 65521;

/// The first Adler-32 sum: one plus the sum of the bytes, modulo 65521.
pub open spec fn adler_low(s: Seq<u8>) -> nat
    decreases s.len(),
{
    if s.len() == 0 {
        1
    } else {
        (adler_low(s.drop_last()) + s.last() as nat) % 65521
    }
}

/// The second Adler-32 sum: the sum of the first sum over every prefix, modulo 65521.
pub open spec fn adler_high(s: Seq<u8>) -> nat
    decreases s.len(),
{
    if s.len() == 0 {
        0
    } else {
        (adler_high(s.drop_last()) + adler_low(s)) % 65521
    }
}

/// The Adler-32 checksum of a byte sequence.
pub open spec fn adler32(s: Seq<u8>) -> nat {
    adler_high(s) * 65536 + adler_low(s)
}

/// Computes the Adler-32 checksum of `data`.
pub fn adler32_of(data: &[u8]) -> (sum: u32)
    ensures
        sum as nat == adler32(data@),
{
    let mut low: u32 = 1;
    let mut high: u32 = 0;
    let mut i: usize = 0;
    assert(data@.take(0) =~= Seq::<u8>::empty());
    while i < data.len()
        invariant
            i <= data.len(),
            low as nat == adler_low(data@.take(i as int)),
            high as nat == adler_high(data@.take(i as int)),
            low < 65521,
            high < 65521,
        decreases data.len() - i,
    {
        assert(data@.take(i + 1).drop_last() =~= data@.take(i as int));
        low = (low + data[i] as u32) % ADLER_MODULUS;
        high = (high + low) % ADLER_MODULUS;
        i = i + 1;
    }
    assert(data@.take(i as int) =~= data@);
    high * 65536 + low
}

} // verus!
