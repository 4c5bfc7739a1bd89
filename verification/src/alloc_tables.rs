//! The constant tables of A/52 bit allocation, and what the allocation relies on in them.

use vstd::prelude::*;

verus! {

/// First bin behind each band.
pub const BNDTAB: [u8; 50] = [
    1, 2, 3, 4, 5, 6, 7, 8, 9, 10, 11, 12, 13, 14, 15, 16, 17, 18, 19, 20,
    21, 22, 23, 24, 25, 26, 27, 28, 31, 34, 37, 40, 43, 46, 49, 55, 61, 67, 73, 79,
    85, 97, 109, 121, 133, 157, 181, 205, 229, 253,
];

/// Band of each bin.
pub const MASKTAB: [u8; 256] = [
    0, 1, 2, 3, 4, 5, 6, 7, 8, 9, 10, 11, 12, 13, 14, 15, 16, 17, 18, 19,
    20, 21, 22, 23, 24, 25, 26, 27, 28, 28, 28, 29, 29, 29, 30, 30, 30, 31, 31, 31,
    32, 32, 32, 33, 33, 33, 34, 34, 34, 35, 35, 35, 35, 35, 35, 36, 36, 36, 36, 36,
    36, 37, 37, 37, 37, 37, 37, 38, 38, 38, 38, 38, 38, 39, 39, 39, 39, 39, 39, 40,
    40, 40, 40, 40, 40, 41, 41, 41, 41, 41, 41, 41, 41, 41, 41, 41, 41, 42, 42, 42,
    42, 42, 42, 42, 42, 42, 42, 42, 42, 43, 43, 43, 43, 43, 43, 43, 43, 43, 43, 43,
    43, 44, 44, 44, 44, 44, 44, 44, 44, 44, 44, 44, 44, 45, 45, 45, 45, 45, 45, 45,
    45, 45, 45, 45, 45, 45, 45, 45, 45, 45, 45, 45, 45, 45, 45, 45, 45, 46, 46, 46,
    46, 46, 46, 46, 46, 46, 46, 46, 46, 46, 46, 46, 46, 46, 46, 46, 46, 46, 46, 46,
    46, 47, 47, 47, 47, 47, 47, 47, 47, 47, 47, 47, 47, 47, 47, 47, 47, 47, 47, 47,
    47, 47, 47, 47, 47, 48, 48, 48, 48, 48, 48, 48, 48, 48, 48, 48, 48, 48, 48, 48,
    48, 48, 48, 48, 48, 48, 48, 48, 48, 49, 49, 49, 49, 49, 49, 49, 49, 49, 49, 49,
    49, 49, 49, 49, 49, 49, 49, 49, 49, 49, 49, 49, 49, 0, 0, 0,
];

/// What adding two levels yields above the greater one, by half their distance.
pub const LATAB: [u8; 256] = [
    0x40, 0x3f, 0x3e, 0x3d, 0x3c, 0x3b, 0x3a, 0x39, 0x38, 0x37, 0x36, 0x35, 0x34, 0x34, 0x33, 0x32,
    0x31, 0x30, 0x2f, 0x2f, 0x2e, 0x2d, 0x2c, 0x2c, 0x2b, 0x2a, 0x29, 0x29, 0x28, 0x27, 0x26, 0x26,
    0x25, 0x24, 0x24, 0x23, 0x23, 0x22, 0x21, 0x21, 0x20, 0x20, 0x1f, 0x1e, 0x1e, 0x1d, 0x1d, 0x1c,
    0x1c, 0x1b, 0x1b, 0x1a, 0x1a, 0x19, 0x19, 0x18, 0x18, 0x17, 0x17, 0x16, 0x16, 0x15, 0x15, 0x15,
    0x14, 0x14, 0x13, 0x13, 0x13, 0x12, 0x12, 0x12, 0x11, 0x11, 0x11, 0x10, 0x10, 0x10, 0x0f, 0x0f,
    0x0f, 0x0e, 0x0e, 0x0e, 0x0d, 0x0d, 0x0d, 0x0d, 0x0c, 0x0c, 0x0c, 0x0c, 0x0b, 0x0b, 0x0b, 0x0b,
    0x0a, 0x0a, 0x0a, 0x0a, 0x0a, 0x09, 0x09, 0x09, 0x09, 0x09, 0x08, 0x08, 0x08, 0x08, 0x08, 0x08,
    0x07, 0x07, 0x07, 0x07, 0x07, 0x07, 0x06, 0x06, 0x06, 0x06, 0x06, 0x06, 0x06, 0x06, 0x05, 0x05,
    0x05, 0x05, 0x05, 0x05, 0x05, 0x05, 0x04, 0x04, 0x04, 0x04, 0x04, 0x04, 0x04, 0x04, 0x04, 0x04,
    0x04, 0x03, 0x03, 0x03, 0x03, 0x03, 0x03, 0x03, 0x03, 0x03, 0x03, 0x03, 0x03, 0x03, 0x03, 0x02,
    0x02, 0x02, 0x02, 0x02, 0x02, 0x02, 0x02, 0x02, 0x02, 0x02, 0x02, 0x02, 0x02, 0x02, 0x02, 0x02,
    0x02, 0x02, 0x01, 0x01, 0x01, 0x01, 0x01, 0x01, 0x01, 0x01, 0x01, 0x01, 0x01, 0x01, 0x01, 0x01,
    0x01, 0x01, 0x01, 0x01, 0x01, 0x01, 0x01, 0x01, 0x01, 0x01, 0x01, 0x01, 0x01, 0x01, 0x01, 0x01,
    0x01, 0x01, 0x00, 0x00, 0x00, 0x00, 0x00, 0x00, 0x00, 0x00, 0x00, 0x00, 0x00, 0x00, 0x00, 0x00,
    0x00, 0x00, 0x00, 0x00, 0x00, 0x00, 0x00, 0x00, 0x00, 0x00, 0x00, 0x00, 0x00, 0x00, 0x00, 0x00,
    0x00, 0x00, 0x00, 0x00, 0x00, 0x00, 0x00, 0x00, 0x00, 0x00, 0x00, 0x00, 0x00, 0x00, 0x00, 0x00,
];

/// Hearing threshold of each band, by sample rate code.
pub const HTH: [[u16; 50]; 3] = [
    [
        0x04d0, 0x04d0, 0x0440, 0x0400, 0x03e0, 0x03c0, 0x03b0, 0x03b0, 0x03a0, 0x03a0, 0x03a0,
        0x03a0, 0x03a0, 0x0390, 0x0390, 0x0390, 0x0380, 0x0380, 0x0370, 0x0370, 0x0360, 0x0360,
        0x0350, 0x0350, 0x0340, 0x0340, 0x0330, 0x0320, 0x0310, 0x0300, 0x02f0, 0x02f0, 0x02f0,
        0x02f0, 0x0300, 0x0310, 0x0340, 0x0390, 0x03e0, 0x0420, 0x0460, 0x0490, 0x04a0, 0x0460,
        0x0440, 0x0440, 0x0520, 0x0800, 0x0840, 0x0840,
    ],
    [
        0x04f0, 0x04f0, 0x0460, 0x0410, 0x03e0, 0x03d0, 0x03c0, 0x03b0, 0x03b0, 0x03a0, 0x03a0,
        0x03a0, 0x03a0, 0x03a0, 0x0390, 0x0390, 0x0390, 0x0380, 0x0380, 0x0380, 0x0370, 0x0370,
        0x0360, 0x0360, 0x0350, 0x0350, 0x0340, 0x0340, 0x0320, 0x0310, 0x0300, 0x02f0, 0x02f0,
        0x02f0, 0x02f0, 0x0300, 0x0320, 0x0350, 0x0390, 0x03e0, 0x0420, 0x0450, 0x04a0, 0x0490,
        0x0460, 0x0440, 0x0480, 0x0630, 0x0840, 0x0840,
    ],
    [
        0x0580, 0x0580, 0x04b0, 0x0450, 0x0420, 0x03f0, 0x03e0, 0x03d0, 0x03c0, 0x03b0, 0x03b0,
        0x03b0, 0x03a0, 0x03a0, 0x03a0, 0x03a0, 0x03a0, 0x03a0, 0x03a0, 0x03a0, 0x0390, 0x0390,
        0x0390, 0x0390, 0x0380, 0x0380, 0x0380, 0x0370, 0x0360, 0x0350, 0x0340, 0x0330, 0x0320,
        0x0310, 0x0300, 0x02f0, 0x02f0, 0x02f0, 0x0300, 0x0310, 0x0330, 0x0350, 0x03c0, 0x0410,
        0x0470, 0x04a0, 0x0460, 0x0440, 0x0450, 0x04e0,
    ],
];

/// Bit allocation pointer for a level above the mask.
pub const BAPTAB: [u8; 64] = [
    0, 1, 1, 1, 1, 1, 2, 2, 3, 3, 3, 4, 4, 5, 5, 6, 6, 6, 6, 7, 7, 7,
    7, 8, 8, 8, 8, 9, 9, 9, 9, 10, 10, 10, 10, 11, 11, 11, 11, 12, 12, 12, 12, 13,
    13, 13, 13, 14, 14, 14, 14, 14, 14, 14, 14, 15, 15, 15, 15, 15, 15, 15, 15, 15,
];

/// Bits per mantissa for each bit allocation pointer; 1, 2 and 4 are grouped.
pub const BITS_TO_READ: [u8; 16] = [0, 5, 7, 3, 7, 4, 5, 6, 7, 8, 9, 10, 11, 12, 14, 16];

/// Exponent strategy of each block for a frame exponent strategy code (0 = reuse, 1 = D15, 2 = D25,
/// 3 = D45).
pub const FRM_EXP_STR: [[u8; 6]; 32] = [
    [1, 0, 0, 0, 0, 0],
    [1, 0, 0, 0, 0, 3],
    [1, 0, 0, 0, 2, 0],
    [1, 0, 0, 0, 3, 3],
    [2, 0, 0, 2, 0, 0],
    [2, 0, 0, 2, 0, 3],
    [2, 0, 0, 3, 2, 0],
    [2, 0, 0, 3, 3, 3],
    [2, 0, 1, 0, 0, 0],
    [2, 0, 2, 0, 0, 3],
    [2, 0, 2, 0, 2, 0],
    [2, 0, 2, 0, 3, 3],
    [2, 0, 3, 2, 0, 0],
    [2, 0, 3, 2, 0, 3],
    [2, 0, 3, 3, 2, 0],
    [2, 0, 3, 3, 3, 3],
    [3, 1, 0, 0, 0, 0],
    [3, 1, 0, 0, 0, 3],
    [3, 2, 0, 0, 2, 0],
    [3, 2, 0, 0, 3, 3],
    [3, 2, 0, 2, 0, 0],
    [3, 2, 0, 2, 0, 3],
    [3, 2, 0, 3, 2, 0],
    [3, 2, 0, 3, 3, 3],
    [3, 3, 1, 0, 0, 0],
    [3, 3, 2, 0, 0, 3],
    [3, 3, 2, 0, 2, 0],
    [3, 3, 2, 0, 3, 3],
    [3, 3, 3, 2, 0, 0],
    [3, 3, 3, 2, 0, 3],
    [3, 3, 3, 3, 2, 0],
    [3, 3, 3, 3, 3, 3],
];

#[verifier::opaque]
pub open spec fn bndtab(k: int) -> int {
    BNDTAB[k] as int
}

#[verifier::opaque]
pub open spec fn masktab(i: int) -> int {
    MASKTAB[i] as int
}

#[verifier::opaque]
pub open spec fn latab(i: int) -> int {
    LATAB[i] as int
}

#[verifier::opaque]
pub open spec fn hth(fscod: int, k: int) -> int {
    HTH[fscod][k] as int
}

#[verifier::opaque]
pub open spec fn baptab(a: int) -> int {
    BAPTAB[a] as int
}

#[verifier::opaque]
pub open spec fn bits_to_read(b: int) -> int {
    BITS_TO_READ[b] as int
}

#[verifier::opaque]
pub open spec fn frm_exp_str(code: int, block: int) -> int {
    FRM_EXP_STR[code][block] as int
}

pub proof fn lemma_bands()
    ensures
        forall|k: int| 0 < k < 50 ==> bndtab(k - 1) < #[trigger] bndtab(k),
        bndtab(0) == 1,
        bndtab(49) == 253,
{
    reveal(bndtab);
}

pub proof fn lemma_bands_mono(j: int, k: int)
    requires
        0 <= j <= k < 50,
    ensures
        bndtab(j) <= bndtab(k),
        bndtab(j) >= j + 1,
    decreases k + j,
{
    lemma_bands();
    if j < k {
        lemma_bands_mono(j, k - 1);
    } else if j > 0 {
        lemma_bands_mono(j - 1, j - 1);
    }
}

pub proof fn lemma_masktab(i: int)
    requires
        0 <= i < 253,
    ensures
        0 <= masktab(i) < 50,
        masktab(i) > 0 ==> bndtab(masktab(i) - 1) <= i,
        i == 6 ==> masktab(i) == 6,
        i >= 72 ==> masktab(i) >= 22,
{
    reveal(bndtab);
    reveal(masktab);
}

pub proof fn lemma_band_width(k: int)
    requires
        0 < k < 50,
    ensures
        bndtab(k) - bndtab(k - 1) <= 24,
{
    reveal(bndtab);
}

proof fn lemma_masktab_step(i: int)
    requires
        0 < i < 253,
    ensures
        masktab(i - 1) <= masktab(i),
{
    reveal(masktab);
}

pub proof fn lemma_masktab_mono(i: int, j: int)
    requires
        0 <= i <= j < 253,
    ensures
        masktab(i) <= masktab(j),
    decreases j - i,
{
    if i < j {
        lemma_masktab_mono(i, j - 1);
        lemma_masktab_step(j);
    }
}

pub proof fn lemma_baptab(i: int)
    requires
        0 <= i < 64,
    ensures
        0 <= baptab(i) < 16,
{
    reveal(baptab);
}

pub proof fn lemma_frm_exp_str(c: int, b: int)
    requires
        0 <= c < 32,
        0 <= b < 6,
    ensures
        0 <= frm_exp_str(c, b) <= 3,
        b == 0 ==> frm_exp_str(c, b) > 0,
{
    reveal(frm_exp_str);
}

pub(crate) fn bnd_entry(k: usize) -> (r: usize)
    requires
        k < 50,
    ensures
        r == bndtab(k as int),
{
    proof {
        reveal(bndtab);
    }
    BNDTAB[k] as usize
}

pub(crate) fn mask_entry(i: usize) -> (r: usize)
    requires
        i < 256,
    ensures
        r == masktab(i as int),
{
    proof {
        reveal(masktab);
    }
    MASKTAB[i] as usize
}

pub(crate) fn la_entry(i: usize) -> (r: i32)
    requires
        i < 256,
    ensures
        r == latab(i as int),
        0 <= r <= 255,
{
    proof {
        reveal(latab);
    }
    LATAB[i] as i32
}

pub(crate) fn hth_entry(fscod: usize, k: usize) -> (r: i32)
    requires
        fscod < 3,
        k < 50,
    ensures
        r == hth(fscod as int, k as int),
        0 <= r <= 65535,
{
    proof {
        reveal(hth);
    }
    HTH[fscod][k] as i32
}

pub(crate) fn bap_entry(a: usize) -> (r: u8)
    requires
        a < 64,
    ensures
        r == baptab(a as int),
        r < 16,
{
    proof {
        lemma_baptab(a as int);
        reveal(baptab);
    }
    BAPTAB[a]
}

pub(crate) fn bits_entry(b: u8) -> (r: u32)
    requires
        b < 16,
    ensures
        r == bits_to_read(b as int),
        r <= 16,
{
    proof {
        reveal(bits_to_read);
    }
    BITS_TO_READ[b as usize] as u32
}

pub(crate) fn frm_entry(code: usize, block: usize) -> (r: u8)
    requires
        code < 32,
        block < 6,
    ensures
        r == frm_exp_str(code as int, block as int),
        r <= 3,
        block == 0 ==> r > 0,
{
    proof {
        lemma_frm_exp_str(code as int, block as int);
        reveal(frm_exp_str);
    }
    FRM_EXP_STR[code][block]
}

} // verus!
