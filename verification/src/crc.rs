//! Cyclic redundancy checks, MSB-first with a zero initial state.

use crate::bits;
use vstd::prelude::*;

verus! {

/// One bit through the polynomial 0x8005.
pub open spec fn crc16_step(crc: u16, b: bool) -> u16 {
    if b != ((crc >> 15) & 1 == 1) {
        (crc << 1) ^ 0x8005
    } else {
        crc << 1
    }
}

/// The 16-bit check of a bit string.
pub open spec fn crc16_of(s: Seq<bool>) -> u16
    decreases s.len(),
{
    if s.len() == 0 {
        0
    } else {
        crc16_step(crc16_of(s.drop_last()), s.last())
    }
}

/// One bit through the polynomial 0x04C11DB7.
pub open spec fn crc32_step(crc: u32, b: bool) -> u32 {
    if b != ((crc >> 31) & 1 == 1) {
        (crc << 1) ^ 0x04C1_1DB7
    } else {
        crc << 1
    }
}

/// The 32-bit check of a bit string.
pub open spec fn crc32_of(s: Seq<bool>) -> u32
    decreases s.len(),
{
    if s.len() == 0 {
        0
    } else {
        crc32_step(crc32_of(s.drop_last()), s.last())
    }
}

/// One bit through the polynomial 0x2F.
pub open spec fn crc8_step(crc: u8, b: bool) -> u8 {
    if b != ((crc >> 7) & 1 == 1) {
        (crc << 1) ^ 0x2F
    } else {
        crc << 1
    }
}

/// The 8-bit check of a bit string.
pub open spec fn crc8_of(s: Seq<bool>) -> u8
    decreases s.len(),
{
    if s.len() == 0 {
        0
    } else {
        crc8_step(crc8_of(s.drop_last()), s.last())
    }
}

/// E-AC-3 crc2: polynomial 0x8005, initial state 0, MSB-first, not augmented.
pub fn crc16(data: &[u8]) -> (crc: u16)
    ensures
        crc == crc16_of(bits::bits_of(data@)),
{
    let mut crc: u16 = 0;
    let mut i: usize = 0;
    let ghost s = bits::bits_of(data@);
    assert(s.take(0) =~= Seq::<bool>::empty());
    while i < data.len()
        invariant
            i <= data@.len(),
            s == bits::bits_of(data@),
            crc == crc16_of(s.take(8 * i)),
        decreases data@.len() - i,
    {
        let byte = data[i];
        let mut k: u8 = 0;
        while k < 8
            invariant
                k <= 8,
                i < data@.len(),
                byte == data@[i as int],
                s == bits::bits_of(data@),
                crc == crc16_of(s.take(8 * i + k)),
            decreases 8 - k,
        {
            let b = (byte >> (7 - k)) & 1 == 1;
            let top = (crc >> 15) & 1 == 1;
            proof {
                let j = 8 * i + k;
                assert(j / 8 == i && j % 8 == k);
                assert(s.take(j + 1).drop_last() =~= s.take(j));
                assert(s.take(j + 1).last() == b);
            }
            crc = if b != top {
                (crc << 1) ^ 0x8005
            } else {
                crc << 1
            };
            k = k + 1;
        }
        i = i + 1;
    }
    assert(s.take(8 * i) =~= s);
    crc
}

/// CRC-32 (polynomial 0x04C11DB7, initial state 0, MSB-first) over the first `nbits` bits of `data`.
pub fn crc32_bits(data: &[u8], nbits: usize) -> (crc: u32)
    requires
        nbits <= 8 * data@.len(),
    ensures
        crc == crc32_of(bits::bits_of(data@).take(nbits as int)),
{
    let mut crc: u32 = 0;
    let mut i: usize = 0;
    let ghost s = bits::bits_of(data@);
    assert(s.take(0) =~= Seq::<bool>::empty());
    while i < nbits
        invariant
            i <= nbits <= 8 * data@.len(),
            s == bits::bits_of(data@),
            crc == crc32_of(s.take(i as int)),
        decreases nbits - i,
    {
        let b = (data[i / 8] >> ((7 - i % 8) as u8)) & 1 == 1;
        let top = (crc >> 31) & 1 == 1;
        proof {
            assert(s.take(i + 1).drop_last() =~= s.take(i as int));
            assert(s.take(i + 1).last() == b);
        }
        crc = if b != top {
            (crc << 1) ^ 0x04C1_1DB7
        } else {
            crc << 1
        };
        i = i + 1;
    }
    crc
}

/// CRC-8 (polynomial 0x2F, initial state 0, MSB-first) over the first `nbits` bits of `data`.
pub fn crc8_bits(data: &[u8], nbits: usize) -> (crc: u8)
    requires
        nbits <= 8 * data@.len(),
    ensures
        crc == crc8_of(bits::bits_of(data@).take(nbits as int)),
{
    let mut crc: u8 = 0;
    let mut i: usize = 0;
    let ghost s = bits::bits_of(data@);
    assert(s.take(0) =~= Seq::<bool>::empty());
    while i < nbits
        invariant
            i <= nbits <= 8 * data@.len(),
            s == bits::bits_of(data@),
            crc == crc8_of(s.take(i as int)),
        decreases nbits - i,
    {
        let b = (data[i / 8] >> ((7 - i % 8) as u8)) & 1 == 1;
        let top = (crc >> 7) & 1 == 1;
        proof {
            assert(s.take(i + 1).drop_last() =~= s.take(i as int));
            assert(s.take(i + 1).last() == b);
        }
        crc = if b != top {
            (crc << 1) ^ 0x2F
        } else {
            crc << 1
        };
        i = i + 1;
    }
    crc
}

proof fn lemma_crc16_drains(s: Seq<bool>, k: u16)
    requires
        k <= 16,
    ensures
        crc16_of(s + bits::be(crc16_of(s) as nat, 16).take(k as int)) == crc16_of(s) << k,
    decreases k,
{
    let c = crc16_of(s);
    let tail = bits::be(c as nat, 16);
    bits::lemma_be_len(c as nat, 16);
    if k == 0 {
        assert(s + tail.take(0) =~= s);
        assert(c << 0u16 == c) by (bit_vector);
    } else {
        let j = (k - 1) as u16;
        lemma_crc16_drains(s, j);
        let whole = s + tail.take(k as int);
        assert(whole.drop_last() =~= s + tail.take(j as int));
        assert(whole.last() == tail[j as int]);
        let wide = c as u32;
        let sh = (15 - j) as u32;
        bits::lemma_be_index(wide, 16, j as u32);
        assert((((c << j) >> 15) & 1 == 1) == ((wide >> sh) & 1 == 1) && (c << j) << 1 == c << k)
            by (bit_vector)
            requires
                wide == c as u32,
                k <= 16,
                k == j + 1,
                sh == 15 - j,
        ;
    }
}

/// A bit string followed by its own 16-bit check has the check zero.
pub proof fn law_crc16_clean(s: Seq<bool>)
    ensures
        crc16_of(s + bits::be(crc16_of(s) as nat, 16)) == 0,
{
    lemma_crc16_drains(s, 16);
    let c = crc16_of(s);
    bits::lemma_be_len(c as nat, 16);
    assert(bits::be(c as nat, 16).take(16) =~= bits::be(c as nat, 16));
    assert(c << 16u16 == 0) by (bit_vector);
}

} // verus!
